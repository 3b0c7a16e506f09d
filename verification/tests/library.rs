use resolve::cache::{file_entry, hex_string, CompileManifest};
use resolve::compiler::ast::AstNode;
use resolve::compiler::parser::parse;
use resolve::discovery::{extract, template_name, Dependency, DependencyGraph, DependencyType, TemplateIndex};
use resolve::loader::{resolve_excluding, resolve_path, suffixes, VendorIndex};
use resolve::swap::{journal_path, previous_path, staging_path};
use resolve::validator::Validator;
use resolve::vendor::{
    extract_name, lines_of, merge_sources, pth_entries, skip_package, top_level_name, url_to_path,
    VendorSource,
};

fn nodes(content: &str) -> Vec<AstNode> {
    parse(content).unwrap().nodes
}

#[test]
fn test_file_entry_digest_of_empty_input() {
    let entry = file_entry(b"", 7);
    assert_eq!(entry.hash, "e3b0c44298fc1c149afbf4c8996fb92427ae41e4649b934ca495991b7852b855");
    assert_eq!(entry.size, 0);
    assert_eq!(entry.modified, 7);
}

#[test]
fn test_file_entry_digest_of_abc() {
    let entry = file_entry(b"abc", 1);
    assert_eq!(entry.hash, "ba7816bf8f01cfea414140de5dae2223b00361a396177a9cb410ff61f20015ad");
    assert_eq!(entry.size, 3);
}

#[test]
fn test_hex_string_two_digits_per_byte() {
    assert_eq!(hex_string(&[0x00, 0x0f, 0xa0, 0xff]), "000fa0ff");
}

#[test]
fn test_manifest_needs_recompile() {
    let mut manifest = CompileManifest::empty();
    let entry = file_entry(b"<p>x</p>", 3);
    assert!(manifest.needs_recompile("a.html", Some(&entry)));
    manifest.mark_compiled("a.html", entry.clone());
    assert!(!manifest.needs_recompile("a.html", Some(&entry)));
    assert!(manifest.needs_recompile("a.html", None));
    let changed = file_entry(b"<p>y</p>", 3);
    assert!(manifest.needs_recompile("a.html", Some(&changed)));
    assert_eq!(manifest.resolve_templates, vec!["a.html".to_string()]);
    manifest.mark_compiled("a.html", changed.clone());
    assert_eq!(manifest.resolve_templates.len(), 1);
    assert!(!manifest.needs_recompile("a.html", Some(&changed)));
}

#[test]
fn test_extract_dependencies_in_traversal_order() {
    let deps = extract("{% extends 'base.html' %}{% block a %}{% include 'x.html' %}{% endblock %}");
    assert_eq!(deps.len(), 2);
    assert_eq!(deps[0].target, "base.html");
    assert_eq!(deps[0].kind, DependencyType::Extends);
    assert_eq!(deps[1].target, "x.html");
    assert_eq!(deps[1].kind, DependencyType::Include);
    assert!(extract("").is_empty());
    assert!(extract("{% if %}").is_empty() || extract("{% if %}").len() == 0);
}

#[test]
fn test_template_index_keeps_first_path() {
    let mut index = TemplateIndex::new();
    index.add("a.html".to_string(), "/one/a.html".to_string());
    index.add("a.html".to_string(), "/two/a.html".to_string());
    assert_eq!(index.path_of(&"a.html".to_string()), Some(&"/one/a.html".to_string()));
    assert_eq!(index.path_of(&"b.html".to_string()), None);
    assert_eq!(template_name("pages\\home.html"), "pages/home.html");
}

fn dep(target: &str, kind: DependencyType) -> Dependency {
    Dependency { target: target.to_string(), kind }
}

#[test]
fn test_entries_sorted_without_dependents() {
    let mut index = TemplateIndex::new();
    index.add("page.html".to_string(), "/t/page.html".to_string());
    index.add("base.html".to_string(), "/t/base.html".to_string());
    index.add("about.html".to_string(), "/t/about.html".to_string());
    index.add("vendor/lib.html".to_string(), "/v/lib.html".to_string());
    let graph = DependencyGraph::build(vec![
        ("page.html".to_string(), vec![dep("base.html", DependencyType::Extends)]),
        ("about.html".to_string(), vec![dep("base.html", DependencyType::Extends)]),
        ("base.html".to_string(), vec![]),
        ("vendor/lib.html".to_string(), vec![]),
    ]);
    let config = resolve::config::Config::from_params(
        vec!["/t".to_string()],
        "/out".to_string(),
        "/cache".to_string(),
        "/v".to_string(),
        None,
    )
    .unwrap();
    let discovery = resolve::discovery::TemplateDiscovery::new(&config);
    let entries = discovery.entries(&index, &graph);
    assert_eq!(entries, vec!["about.html".to_string(), "page.html".to_string()]);
}

#[test]
fn test_vendor_index_prefers_shallow_paths() {
    let mut vendor = VendorIndex::new();
    vendor.add("admin/base.html", &"/v/admin/base.html".to_string());
    vendor.add("base.html", &"/v/base.html".to_string());
    assert_eq!(vendor.find(&"base.html".to_string()), Some("/v/base.html".to_string()));
    assert_eq!(vendor.find(&"admin/base.html".to_string()), Some("/v/admin/base.html".to_string()));
    assert_eq!(vendor.find(&"other.html".to_string()), None);
    assert_eq!(suffixes("a/b/c.html"), vec!["a/b/c.html", "b/c.html", "c.html"]);
}

#[test]
fn test_resolve_path_project_before_vendor() {
    let mut index = TemplateIndex::new();
    index.add("base.html".to_string(), "/t/base.html".to_string());
    let mut vendor = VendorIndex::new();
    vendor.add("base.html", &"/v/base.html".to_string());
    let name = "base.html".to_string();
    assert_eq!(resolve_path(&name, &index, &vendor), Some("/t/base.html".to_string()));
    let own = "/t/base.html".to_string();
    assert_eq!(resolve_excluding(&name, &index, Some(&own), &vendor), Some("/v/base.html".to_string()));
}

#[test]
fn test_validator_reports_missing_templates() {
    let index = TemplateIndex::new();
    let vendor = VendorIndex::new();
    let mut validator = Validator::new();
    let tree = nodes("{% extends 'gone.html' %}{% include 'missing.html' %}");
    validator.validate_template("page.html", &tree, &index, &vendor, false);
    validator.validate_template("lib.html", &nodes("{% include 'x.html' %}"), &index, &vendor, true);
    let result = validator.result();
    assert_eq!(
        result.errors,
        vec![
            "[ERROR] page.html: Parent template not found: gone.html".to_string(),
            "[ERROR] page.html: Include template not found: missing.html".to_string(),
        ]
    );
    assert_eq!(result.warnings, vec!["[WARNING] lib.html: Include template not found: x.html".to_string()]);
}

#[test]
fn test_vendor_helpers() {
    assert!(skip_package("pip"));
    assert!(skip_package("_private"));
    assert!(skip_package("django-5.0.dist-info"));
    assert!(!skip_package("django"));
    assert_eq!(lines_of("a\r\nb\n\nc"), vec!["a", "b", "", "c"]);
    assert_eq!(lines_of("a\n"), vec!["a"]);
    assert!(lines_of("").is_empty());
    assert_eq!(pth_entries("  /src/app  \n# comment\nimport site\n\n/other"), vec!["/src/app", "/other"]);
    assert_eq!(top_level_name("  mypkg \nother"), Some("mypkg".to_string()));
    assert_eq!(top_level_name("   \nother"), None);
    assert_eq!(url_to_path("file:///home/dev/app"), Some("/home/dev/app".to_string()));
    assert_eq!(url_to_path("file://relative"), None);
    assert_eq!(url_to_path("https://example.com"), None);
    assert_eq!(extract_name("my_pkg-1.2.dist-info"), "my_pkg");
    assert_eq!(extract_name("plain"), "");
}

fn source(name: &str) -> VendorSource {
    VendorSource { name: name.to_string(), path: format!("/p/{}", name), directories: vec![] }
}

#[test]
fn test_merge_sources_keeps_first_of_each_name() {
    let merged = merge_sources(
        vec![source("a"), source("b")],
        vec![source("b"), source("c"), source("c")],
        vec![source("a"), source("d")],
    );
    let names: Vec<String> = merged.iter().map(|s| s.name.clone()).collect();
    assert_eq!(names, vec!["a", "b", "c", "d"]);
}

#[test]
fn test_swap_paths_are_siblings() {
    assert_eq!(staging_path("/srv/out"), "/srv/out_staging");
    assert_eq!(previous_path("/srv/out/"), "/srv/out_previous");
    assert_eq!(journal_path("out"), "out_swap_journal.json");
    assert_eq!(staging_path("/srv/out/."), "/srv/out_staging");
    assert_eq!(previous_path("out/./"), "out_previous");
    assert!(resolve::swap::names_directory("/srv/out/."));
    assert!(!resolve::swap::names_directory("/srv/.."));
    assert!(!resolve::swap::names_directory("/."));
    assert!(!resolve::swap::names_directory(""));
}

#[test]
fn test_staleness_through_dependencies() {
    let graph = DependencyGraph::build(vec![
        ("page.html".to_string(), vec![dep("layout.html", DependencyType::Extends)]),
        ("layout.html".to_string(), vec![dep("base.html", DependencyType::Extends), dep("nav.html", DependencyType::Include)]),
        ("other.html".to_string(), vec![dep("side.html", DependencyType::Include)]),
        ("cycle.html".to_string(), vec![dep("cycle.html", DependencyType::Include)]),
    ]);
    let stale = vec!["nav.html".to_string()];
    assert!(resolve::staleness::has_stale(&"page.html".to_string(), &graph, &stale));
    assert!(!resolve::staleness::has_stale(&"other.html".to_string(), &graph, &stale));
    assert!(!resolve::staleness::has_stale(&"cycle.html".to_string(), &graph, &stale));
    assert!(!resolve::staleness::has_stale(&"nav.html".to_string(), &graph, &stale));
    let entries = vec!["other.html".to_string(), "page.html".to_string(), "nav.html".to_string()];
    assert_eq!(
        resolve::staleness::find_stale(&entries, &graph, &stale),
        vec!["page.html".to_string(), "nav.html".to_string()]
    );
}

#[test]
fn test_make_config_defaults_and_flags() {
    let config = resolve::config::make_config(
        vec!["/t".to_string()],
        "/out",
        None,
        Some("/v"),
        None,
        true,
        false,
    )
    .unwrap();
    assert_eq!(config.compiler.cache_directory, ".resolve_cache");
    assert_eq!(config.vendor.vendor_directory, "/v");
    assert!(!config.incremental.enabled);
    assert!(config.vendor.auto_detect);
    let refused = resolve::config::make_config(vec!["/t".to_string()], "/out", Some(""), None, None, false, false);
    assert!(refused.is_err());
}

#[test]
fn test_changed_templates_against_manifest() {
    let mut manifest = CompileManifest::empty();
    manifest.mark_compiled("same.html", file_entry(b"same", 1));
    manifest.mark_compiled("edited.html", file_entry(b"old", 1));
    let current = vec![
        ("same.html".to_string(), Some(file_entry(b"same", 9))),
        ("edited.html".to_string(), Some(file_entry(b"new", 1))),
        ("new.html".to_string(), Some(file_entry(b"x", 1))),
        ("gone.html".to_string(), None),
    ];
    assert_eq!(
        resolve::batch::changed_templates(&manifest, &current),
        vec!["edited.html".to_string(), "new.html".to_string(), "gone.html".to_string()]
    );
}

#[test]
fn test_plan_compiles_all_entries_without_output() {
    let graph = DependencyGraph::build(vec![
        ("page.html".to_string(), vec![dep("nav.html", DependencyType::Include)]),
    ]);
    let entries = vec!["page.html".to_string(), "home.html".to_string()];
    let changed = vec!["nav.html".to_string()];
    assert_eq!(resolve::batch::plan(&entries, &graph, &changed, true), entries);
    assert_eq!(resolve::batch::plan(&entries, &graph, &changed, false), vec!["page.html".to_string()]);
    assert!(resolve::batch::plan(&entries, &graph, &Vec::new(), false).is_empty());
}

#[test]
fn test_failure_report_counts_and_lists() {
    assert!(resolve::batch::failure_report(&Vec::new()).is_empty());
    let one = vec![("a.html".to_string(), "boom".to_string())];
    assert_eq!(
        resolve::batch::failure_report(&one),
        vec!["\n1 template failed:".to_string(), "  a.html: boom".to_string()]
    );
    let two = vec![("a.html".to_string(), "x".to_string()), ("b.html".to_string(), "y".to_string())];
    assert_eq!(
        resolve::batch::failure_report(&two),
        vec!["\n2 templates failed:".to_string(), "  a.html: x".to_string(), "  b.html: y".to_string()]
    );
}

#[test]
fn test_config_from_project() {
    let config = resolve::config::Config::from_project("/srv/site", vec!["/srv/site/templates".to_string()], None).ok().unwrap();
    assert_eq!(config.compiler.output_directory, "/srv/site/resolve_templates");
    assert_eq!(config.compiler.cache_directory, "/srv/site/.resolve_cache");
    assert_eq!(config.vendor.vendor_directory, "/srv/site/.resolve_vendor");
    let trailing = resolve::config::Config::from_project("site/", vec!["t".to_string()], Some("venv".to_string())).ok().unwrap();
    assert_eq!(trailing.compiler.output_directory, "site/resolve_templates");
    assert_eq!(trailing.vendor.virtual_environment_path, Some("venv".to_string()));
    let none = resolve::config::Config::from_project("/srv/site", Vec::new(), None);
    assert!(matches!(none, Err(resolve::config::ConfigError::EmptyList("template_directories"))));
}
