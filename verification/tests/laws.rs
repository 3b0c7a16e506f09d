use std::cell::RefCell;

use resolve::compiler::ast::{AstNode, ChildCollector, ChildVisitor};
use resolve::compiler::codegen::generate;
use resolve::compiler::error::CompileError;
use resolve::compiler::parser::parse;
use resolve::compiler::resolver::{inclusion, inheritance, ResolveLimits, TemplateLoader};

struct Files {
    files: RefCell<Vec<(String, String)>>,
}

impl TemplateLoader for Files {
    fn load(&self, name: &str) -> Result<Option<(String, String)>, CompileError> {
        Ok(self.files.borrow().iter().find(|(n, _)| n == name).map(|(n, c)| (format!("/{}", n), c.clone())))
    }

    fn load_excluding(&self, name: &str, exclude: Option<&str>) -> Result<Option<(String, String)>, CompileError> {
        let path = format!("/{}", name);
        if exclude == Some(path.as_str()) {
            return Ok(None);
        }
        self.load(name)
    }
}

fn files(list: &[(&str, &str)]) -> Files {
    Files { files: RefCell::new(list.iter().map(|(n, c)| (n.to_string(), c.to_string())).collect()) }
}

fn tree(content: &str) -> Vec<AstNode> {
    parse(content).unwrap().nodes
}

const LIMITS: ResolveLimits = ResolveLimits { max_include_depth: 20, max_inheritance_depth: 10 };

#[test]
fn test_law_child_block_overrides_parent() {
    let loader = files(&[("base.html", "<a>{% block x %}parent{% endblock %}</a>")]);
    let out = inheritance::resolve(
        tree("{% extends 'base.html' %}{% block x %}child{% endblock %}"),
        "page.html",
        Some("/page.html".to_string()),
        &loader,
        &LIMITS,
    )
    .unwrap();
    let html = generate(&out);
    assert!(html.contains("child"));
    assert!(!html.contains("parent"));
}

#[test]
fn test_law_block_super_splices_parent() {
    let loader = files(&[("base.html", "{% block x %}P{% endblock %}")]);
    let out = inheritance::resolve(
        tree("{% extends 'base.html' %}{% block x %}{{ block.super }}C{% endblock %}"),
        "page.html",
        None,
        &loader,
        &LIMITS,
    )
    .unwrap();
    assert!(generate(&out).contains("PC"));
}

#[test]
fn test_law_resolved_tree_extends_nothing() {
    let loader = files(&[
        ("base.html", "{% load a %}{% block x %}{% endblock %}"),
        ("mid.html", "{% extends 'base.html' %}{% load b %}{% block x %}m{% endblock %}"),
    ]);
    let out = inheritance::resolve(
        tree("{% extends 'mid.html' %}{% load a %}{% block x %}c{% endblock %}"),
        "page.html",
        None,
        &loader,
        &LIMITS,
    )
    .unwrap();
    assert!(!out.iter().any(|n| matches!(n, AstNode::Extends(_))));
    let loads: Vec<Vec<String>> = out
        .iter()
        .filter_map(|n| if let AstNode::Load(l) = n { Some(l.libraries.clone()) } else { None })
        .collect();
    assert_eq!(loads.len(), 2);
    assert!(loads.contains(&vec!["a".to_string()]));
    assert!(loads.contains(&vec!["b".to_string()]));
}

#[test]
fn test_law_template_without_extends_merges_alone() {
    let loader = files(&[]);
    let content = "<p>{% block x %}y{% endblock %}</p>";
    let out = inheritance::resolve(tree(content), "p.html", None, &loader, &LIMITS).unwrap();
    assert_eq!(generate(&out), generate(&tree(content)));
}

#[test]
fn test_law_tree_without_includes_unchanged() {
    let loader = files(&[]);
    let content = "{% if a %}<b>{{ x|upper }}</b>{% else %}{% for i in l %}{{ i }}{% endfor %}{% endif %}";
    let out = inclusion::resolve(tree(content), "p.html", &loader, &LIMITS).unwrap();
    assert_eq!(generate(&out), generate(&tree(content)));
}

#[test]
fn test_circular_extends_is_an_error() {
    let loader = files(&[("a.html", "{% extends 'b.html' %}"), ("b.html", "{% extends 'a.html' %}")]);
    let result = inheritance::resolve(
        tree("{% extends 'b.html' %}"),
        "a.html",
        Some("/a.html".to_string()),
        &loader,
        &LIMITS,
    );
    assert!(matches!(result, Err(CompileError::CircularInheritance { .. })));
}

#[test]
fn test_missing_parent_is_an_error() {
    let loader = files(&[]);
    let result = inheritance::resolve(tree("{% extends 'gone.html' %}"), "a.html", None, &loader, &LIMITS);
    assert!(matches!(result, Err(CompileError::ParentNotFound { .. })));
}

fn spell(template: &str) -> String {
    let mut lexer = resolve::compiler::lexer::Lexer::new(template);
    let tokens = lexer.tokenize().unwrap();
    let mut out = String::new();
    for token in &tokens {
        match token {
            resolve::compiler::lexer::Token::Text(c) => out.push_str(c),
            resolve::compiler::lexer::Token::Variable { raw, .. } => out.push_str(raw),
            resolve::compiler::lexer::Token::BlockStart { raw, .. } => out.push_str(raw),
            resolve::compiler::lexer::Token::BlockEnd { raw, .. } => out.push_str(raw),
            resolve::compiler::lexer::Token::Comment(c) => {
                out.push_str("{#");
                out.push_str(c);
                out.push_str("#}");
            }
            resolve::compiler::lexer::Token::Eof => {}
        }
    }
    out
}

#[test]
fn test_law_tokens_spell_template() {
    let template = "a {#  note#}{{ x|upper:'1' }}{% if y %}b{%endif%}{ c }{% verbatim %}{{ open";
    assert_eq!(spell(template), template);
}

#[test]
fn test_closed_verbatim_drops_its_end_tag() {
    let template = "{% verbatim %}{{ x }}{% endverbatim %}after";
    assert_eq!(spell(template), "{% verbatim %}{{ x }}after");
}

#[test]
fn test_merge_chain_of_child_and_parent() {
    let chain = vec![
        ("page.html".to_string(), tree("{% extends 'base.html' %}{% load i18n %}{% block x %}child{% endblock %}")),
        ("base.html".to_string(), tree("<a>{% block x %}parent{% endblock %}</a>")),
    ];
    let merged = inheritance::merge_chain(chain).ok().unwrap();
    let html = generate(&merged);
    assert!(html.contains("{% load i18n %}"));
    assert!(html.contains("<a>"));
    assert!(html.contains("child"));
    assert!(!html.contains("parent"));
    assert!(!html.contains("extends"));
}

#[test]
fn test_merge_chain_of_one_template_is_that_template() {
    let chain = vec![("page.html".to_string(), tree("x{% block y %}z{% endblock %}"))];
    let merged = inheritance::merge_chain(chain).ok().unwrap();
    assert_eq!(generate(&merged), generate(&tree("x{% block y %}z{% endblock %}")));
}

#[test]
fn test_law_token_stream_shape() {
    let mut lexer = resolve::compiler::lexer::Lexer::new("a{% verbatim %}{% endverbatim %}{{ x }}b");
    let tokens = lexer.tokenize().unwrap();
    let last = tokens.len() - 1;
    assert!(matches!(tokens[last], resolve::compiler::lexer::Token::Eof));
    for (i, token) in tokens.iter().enumerate() {
        if i < last {
            assert!(!matches!(token, resolve::compiler::lexer::Token::Eof));
        }
        if let resolve::compiler::lexer::Token::Text(c) = token {
            if c.is_empty() {
                assert!(matches!(&tokens[i - 1], resolve::compiler::lexer::Token::BlockStart { tag, .. } if tag == "verbatim"));
            }
        }
    }
    assert!(tokens.iter().any(|t| matches!(t, resolve::compiler::lexer::Token::Text(c) if c.is_empty())));
    let mut empty = resolve::compiler::lexer::Lexer::new("");
    let only = empty.tokenize().unwrap();
    assert_eq!(only.len(), 1);
    assert!(matches!(only[0], resolve::compiler::lexer::Token::Eof));
}

#[test]
fn test_try_for_each_child_mut_visits_lists_in_order() {
    let mut nodes = tree("{% if a %}x{% elif b %}y{% elif c %}w{% else %}z{% endif %}");
    let mut all = ChildCollector::new(10);
    assert!(nodes[0].try_for_each_child_mut(&mut all).is_ok());
    let seen: Vec<String> = all.lists.iter().map(|l| generate(l)).collect();
    assert_eq!(seen, vec!["x", "y", "w", "z"]);

    let mut stop = ChildCollector::new(1);
    assert_eq!(nodes[0].try_for_each_child_mut(&mut stop), Err(1));
    let seen: Vec<String> = stop.lists.iter().map(|l| generate(l)).collect();
    assert_eq!(seen, vec!["x", "y"]);

    let mut loop_node = tree("{% for i in s %}a{% empty %}b{% endfor %}");
    let mut lists = ChildCollector::new(5);
    assert!(loop_node[0].try_for_each_child_mut(&mut lists).is_ok());
    assert_eq!(lists.lists.len(), 2);

    let mut leaf = tree("{{ v }}");
    let mut none = ChildCollector::new(0);
    assert!(leaf[0].try_for_each_child_mut(&mut none).is_ok());
    assert!(none.lists.is_empty());
}

#[test]
fn test_child_collector_refuses_past_its_limit() {
    let mut collector = ChildCollector::new(0);
    let mut list = tree("a");
    assert_eq!(collector.visit(&mut list), Err(0));
    assert_eq!(collector.lists.len(), 1);
}

#[test]
fn test_law_collapse_shrinks_and_leaves_no_triple_newline() {
    let text = "\n\n  \na\n\n\n\n  \t\nb\n\n\n";
    let out = generate(&tree(text));
    assert!(out.len() <= text.len());
    assert!(!out.contains("\n\n\n"));
    assert_eq!(out, "a\n\nb\n");
}

#[test]
fn test_law_collapse_keeps_lines_and_is_idempotent() {
    let text = "\n \nfirst\n\n\n\t\nsecond  \nthird\n \n";
    let once = generate(&tree(text));
    let kept: Vec<&str> = once.lines().filter(|l| !l.trim_matches(|c| c == ' ' || c == '\t' || c == '\r').is_empty()).collect();
    assert_eq!(kept, vec!["first", "second  ", "third"]);
    assert!(once.ends_with('\n'));
    assert_eq!(generate(&tree(&once)), once);
    let plain = generate(&tree("a\n\n\nb"));
    assert!(!plain.ends_with('\n'));
    assert_eq!(generate(&tree(&plain)), plain);
}
