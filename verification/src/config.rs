//! The compiler's configuration and its validation.  Directory paths are
//! held as strings.
use vstd::prelude::*;
use crate::text::{append_str, push_decimal};

verus! {

/// Why a configuration is refused.
#[derive(Debug, Clone)]
pub enum ConfigError {
    EmptyField(&'static str),
    EmptyList(&'static str),
    OutOfRange { field: &'static str, value: u32, min: u32, max: u32 },
}

pub open spec fn config_error_text(e: ConfigError) -> Seq<char> {
    match e {
        ConfigError::EmptyField(f) => "configuration field '"@ + f@ + "' must not be empty"@,
        ConfigError::EmptyList(f) => "configuration field '"@ + f@
            + "' must contain at least one entry"@,
        ConfigError::OutOfRange { field, value, min, max } => "configuration field '"@ + field@
            + "' value "@ + crate::text::decimal(value as nat) + " is out of range ("@
            + crate::text::decimal(min as nat) + "..="@ + crate::text::decimal(max as nat) + ")"@,
    }
}

impl ConfigError {
    /// The error's message.
    pub fn to_text(&self) -> (r: String)
        ensures
            r@ == config_error_text(*self),
    {
        let mut s = String::new();
        match self {
            ConfigError::EmptyField(f) => {
                append_str(&mut s, "configuration field '");
                append_str(&mut s, f);
                append_str(&mut s, "' must not be empty");
            },
            ConfigError::EmptyList(f) => {
                append_str(&mut s, "configuration field '");
                append_str(&mut s, f);
                append_str(&mut s, "' must contain at least one entry");
            },
            ConfigError::OutOfRange { field, value, min, max } => {
                append_str(&mut s, "configuration field '");
                append_str(&mut s, field);
                append_str(&mut s, "' value ");
                push_decimal(&mut s, *value as u64);
                append_str(&mut s, " is out of range (");
                push_decimal(&mut s, *min as u64);
                append_str(&mut s, "..=");
                push_decimal(&mut s, *max as u64);
                append_str(&mut s, ")");
            },
        }
        s
    }
}

#[derive(Debug, Clone)]
pub struct Config {
    pub compiler: CompilerConfig,
    pub paths: PathsConfig,
    pub vendor: VendorConfig,
    pub entry_templates: EntryTemplatesConfig,
    pub validation: ValidationConfig,
    pub incremental: IncrementalConfig,
}

#[derive(Debug, Clone)]
pub struct CompilerConfig {
    pub output_directory: String,
    pub cache_directory: String,
}

#[derive(Debug, Clone)]
pub struct PathsConfig {
    pub primary_templates: Vec<String>,
    pub app_templates: Vec<String>,
}

#[derive(Debug, Clone)]
pub struct VendorConfig {
    pub auto_detect: bool,
    pub vendor_directory: String,
    pub virtual_environment_path: Option<String>,
}

#[derive(Debug, Clone)]
pub struct EntryTemplatesConfig {
    pub auto_discover: bool,
    pub explicit: Vec<String>,
}

#[derive(Debug, Clone)]
pub struct ValidationConfig {
    pub strict: bool,
    pub warn_undefined_vars: bool,
    pub max_include_depth: u32,
    pub max_inheritance_depth: u32,
    pub skip_url_validation: bool,
}

impl Default for ValidationConfig {
    fn default() -> (r: Self)
        ensures
            !r.strict,
            !r.warn_undefined_vars,
            r.max_include_depth == 20,
            r.max_inheritance_depth == 10,
            !r.skip_url_validation,
    {
        ValidationConfig {
            strict: false,
            warn_undefined_vars: false,
            max_include_depth: 20,
            max_inheritance_depth: 10,
            skip_url_validation: false,
        }
    }
}

#[derive(Debug, Clone)]
pub struct IncrementalConfig {
    pub enabled: bool,
    pub track_file_hashes: bool,
}

/// A depth limit the configuration accepts.
pub open spec fn depth_in_range(d: u32) -> bool {
    1 <= d <= 128
}

/// The first rule a configuration breaks, checked in order: the output and
/// cache directories are named, there is a primary template directory, and
/// both depth limits lie in `1..=128`.
pub open spec fn first_violation(c: Config) -> Option<ConfigError> {
    if c.compiler.output_directory@.len() == 0 {
        Some(ConfigError::EmptyField("compiler.output_directory"))
    } else if c.compiler.cache_directory@.len() == 0 {
        Some(ConfigError::EmptyField("compiler.cache_directory"))
    } else if c.paths.primary_templates@.len() == 0 {
        Some(ConfigError::EmptyList("paths.primary_templates"))
    } else if !depth_in_range(c.validation.max_include_depth) {
        Some(
            ConfigError::OutOfRange {
                field: "validation.max_include_depth",
                value: c.validation.max_include_depth,
                min: 1,
                max: 128,
            },
        )
    } else if !depth_in_range(c.validation.max_inheritance_depth) {
        Some(
            ConfigError::OutOfRange {
                field: "validation.max_inheritance_depth",
                value: c.validation.max_inheritance_depth,
                min: 1,
                max: 128,
            },
        )
    } else {
        None
    }
}

/// `b` joined onto the directory `a`, as a relative path component.
pub open spec fn path_join(a: Seq<char>, b: Seq<char>) -> Seq<char> {
    if a.len() == 0 {
        b
    } else if a.last() == '/' {
        a + b
    } else {
        a + "/"@ + b
    }
}

/// The template directories: the primary ones, then `templates` under each
/// app directory that has one, then the vendor directory if it exists.
pub open spec fn directories_spec(
    primary: Seq<Seq<char>>,
    apps: Seq<Seq<char>>,
    app_exists: Seq<bool>,
    vendor: Seq<char>,
    vendor_exists: bool,
) -> Seq<Seq<char>> {
    primary + apps_with_templates(apps, app_exists) + if vendor_exists {
        seq![vendor]
    } else {
        seq![]
    }
}

pub open spec fn apps_with_templates(apps: Seq<Seq<char>>, exists: Seq<bool>) -> Seq<Seq<char>>
    decreases apps.len(),
{
    if apps.len() == 0 || exists.len() != apps.len() {
        seq![]
    } else {
        let rest = apps_with_templates(apps.drop_last(), exists.drop_last());
        if exists.last() {
            rest.push(path_join(apps.last(), "templates"@))
        } else {
            rest
        }
    }
}

pub open spec fn strings(v: Seq<String>) -> Seq<Seq<char>> {
    v.map_values(|s: String| s@)
}

fn join_path(a: &String, b: &str) -> (r: String)
    ensures
        r@ == path_join(a@, b@),
{
    let ac = crate::text::chars_of_string(a);
    let mut r = a.clone();
    if ac.len() == 0 {
        let mut e = String::new();
        append_str(&mut e, b);
        return e;
    }
    if ac[ac.len() - 1] != '/' {
        append_str(&mut r, "/");
    }
    append_str(&mut r, b);
    r
}

impl Config {
    /// A configuration for the given directories, with the default
    /// validation limits and auto-detection and incremental builds on.
    pub fn from_params(
        directories: Vec<String>,
        output: String,
        cache: String,
        vendor: String,
        environment: Option<String>,
    ) -> (r: Result<Self, ConfigError>)
        requires
            directories@.len() > 0,
            output@.len() > 0,
        ensures
            cache@.len() == 0 <==> r is Err,
            r is Err ==> r->Err_0 == ConfigError::EmptyField("compiler.cache_directory"),
            r matches Ok(c) ==> {
                &&& c.compiler.output_directory == output
                &&& c.compiler.cache_directory == cache
                &&& c.paths.primary_templates == directories
                &&& c.paths.app_templates@.len() == 0
                &&& c.vendor.auto_detect
                &&& c.vendor.vendor_directory == vendor
                &&& c.vendor.virtual_environment_path == environment
                &&& c.entry_templates.auto_discover
                &&& c.entry_templates.explicit@.len() == 0
                &&& c.validation.max_include_depth == 20
                &&& c.validation.max_inheritance_depth == 10
                &&& !c.validation.strict
                &&& !c.validation.warn_undefined_vars
                &&& !c.validation.skip_url_validation
                &&& c.incremental.enabled
                &&& c.incremental.track_file_hashes
            },
    {
        let config = Config {
            compiler: CompilerConfig { output_directory: output, cache_directory: cache },
            paths: PathsConfig { primary_templates: directories, app_templates: Vec::new() },
            vendor: VendorConfig {
                auto_detect: true,
                vendor_directory: vendor,
                virtual_environment_path: environment,
            },
            entry_templates: EntryTemplatesConfig { auto_discover: true, explicit: Vec::new() },
            validation: ValidationConfig::default(),
            incremental: IncrementalConfig { enabled: true, track_file_hashes: true },
        };
        match config.validate() {
            Ok(()) => Ok(config),
            Err(e) => Err(e),
        }
    }

    /// The configuration of a project found at `project` with the template
    /// directories `directories` (none is an error) and the virtual
    /// environment `environment`: the output, cache and vendor directories
    /// are the default names inside the project.
    pub fn from_project(project: &str, directories: Vec<String>, environment: Option<String>) -> (r: Result<
        Self,
        ConfigError,
    >)
        ensures
            directories@.len() == 0 <==> r is Err,
            r matches Err(e) ==> (e matches ConfigError::EmptyList(f) && f@ == "template_directories"@),
            r matches Ok(c) ==> {
                &&& c.compiler.output_directory@ == path_join(project@, DEFAULT_OUTPUT_DIRECTORY@)
                &&& c.compiler.cache_directory@ == path_join(project@, DEFAULT_CACHE_DIRECTORY@)
                &&& c.vendor.vendor_directory@ == path_join(project@, DEFAULT_VENDOR_DIRECTORY@)
                &&& c.paths.primary_templates == directories
                &&& c.paths.app_templates@.len() == 0
                &&& c.vendor.auto_detect
                &&& c.vendor.virtual_environment_path == environment
                &&& c.entry_templates.auto_discover
                &&& c.entry_templates.explicit@.len() == 0
                &&& c.validation.max_include_depth == 20
                &&& c.validation.max_inheritance_depth == 10
                &&& !c.validation.strict
                &&& !c.validation.warn_undefined_vars
                &&& !c.validation.skip_url_validation
                &&& c.incremental.enabled
                &&& c.incremental.track_file_hashes
            },
    {
        if directories.len() == 0 {
            return Err(ConfigError::EmptyList("template_directories"));
        }
        let dir = project.to_string();
        let output = join_path(&dir, DEFAULT_OUTPUT_DIRECTORY);
        let cache = join_path(&dir, DEFAULT_CACHE_DIRECTORY);
        let vendor = join_path(&dir, DEFAULT_VENDOR_DIRECTORY);
        proof {
            reveal_strlit("resolve_templates");
            reveal_strlit(".resolve_cache");
        }
        Self::from_params(directories, output, cache, vendor, environment)
    }

    /// `Ok` for a configuration that breaks no rule, else the first rule it
    /// breaks.
    pub fn validate(&self) -> (r: Result<(), ConfigError>)
        ensures
            match first_violation(*self) {
                Some(e) => r == Err::<(), ConfigError>(e),
                None => r is Ok,
            },
    {
        if crate::text::chars_of_string(&self.compiler.output_directory).len() == 0 {
            return Err(ConfigError::EmptyField("compiler.output_directory"));
        }
        if crate::text::chars_of_string(&self.compiler.cache_directory).len() == 0 {
            return Err(ConfigError::EmptyField("compiler.cache_directory"));
        }
        if self.paths.primary_templates.len() == 0 {
            return Err(ConfigError::EmptyList("paths.primary_templates"));
        }
        if self.validation.max_include_depth == 0 || self.validation.max_include_depth > 128 {
            return Err(
                ConfigError::OutOfRange {
                    field: "validation.max_include_depth",
                    value: self.validation.max_include_depth,
                    min: 1,
                    max: 128,
                },
            );
        }
        if self.validation.max_inheritance_depth == 0 || self.validation.max_inheritance_depth
            > 128 {
            return Err(
                ConfigError::OutOfRange {
                    field: "validation.max_inheritance_depth",
                    value: self.validation.max_inheritance_depth,
                    min: 1,
                    max: 128,
                },
            );
        }
        Ok(())
    }

    pub fn output_path(&self) -> (r: &String)
        ensures
            r == &self.compiler.output_directory,
    {
        &self.compiler.output_directory
    }

    pub fn cache_path(&self) -> (r: &String)
        ensures
            r == &self.compiler.cache_directory,
    {
        &self.compiler.cache_directory
    }

    pub fn vendor_path(&self) -> (r: &String)
        ensures
            r == &self.vendor.vendor_directory,
    {
        &self.vendor.vendor_directory
    }

    /// The template directories to scan; `app_exists[i]` tells whether app
    /// directory `i` holds a `templates` directory, `vendor_exists` whether
    /// the vendor directory exists.
    pub fn all_directories(&self, app_exists: &Vec<bool>, vendor_exists: bool) -> (r: Vec<String>)
        requires
            app_exists@.len() == self.paths.app_templates@.len(),
            directories_spec(
                strings(self.paths.primary_templates@),
                strings(self.paths.app_templates@),
                app_exists@,
                self.vendor.vendor_directory@,
                vendor_exists,
            ).len() > 0,
        ensures
            strings(r@) == directories_spec(
                strings(self.paths.primary_templates@),
                strings(self.paths.app_templates@),
                app_exists@,
                self.vendor.vendor_directory@,
                vendor_exists,
            ),
    {
        let mut directories: Vec<String> = Vec::new();
        let mut k: usize = 0;
        let ghost primary = strings(self.paths.primary_templates@);
        assert(strings(directories@) =~= primary.take(0));
        while k < self.paths.primary_templates.len()
            invariant
                k <= self.paths.primary_templates@.len(),
                primary == strings(self.paths.primary_templates@),
                strings(directories@) == primary.take(k as int),
            decreases self.paths.primary_templates.len() - k,
        {
            let d = self.paths.primary_templates[k].clone();
            let ghost before = strings(directories@);
            directories.push(d);
            assert(strings(directories@) =~= before.push(d@));
            k += 1;
            assert(strings(directories@) =~= primary.take(k as int));
        }
        assert(primary.take(k as int) =~= primary);
        let ghost apps = strings(self.paths.app_templates@);
        let mut j: usize = 0;
        assert(apps.take(0) =~= Seq::<Seq<char>>::empty());
        assert(app_exists@.take(0) =~= Seq::<bool>::empty());
        assert(primary + apps_with_templates(apps.take(0), app_exists@.take(0)) =~= primary);
        while j < self.paths.app_templates.len()
            invariant
                j <= self.paths.app_templates@.len(),
                app_exists@.len() == self.paths.app_templates@.len(),
                apps == strings(self.paths.app_templates@),
                strings(directories@) == primary + apps_with_templates(
                    apps.take(j as int),
                    app_exists@.take(j as int),
                ),
            decreases self.paths.app_templates.len() - j,
        {
            let ghost before = strings(directories@);
            assert(apps.take(j + 1).drop_last() =~= apps.take(j as int));
            assert(app_exists@.take(j + 1).drop_last() =~= app_exists@.take(j as int));
            assert(apps[j as int] == self.paths.app_templates@[j as int]@);
            if app_exists[j] {
                let t = join_path(&self.paths.app_templates[j], "templates");
                directories.push(t);
                assert(strings(directories@) =~= before.push(t@));
            }
            j += 1;
        }
        assert(apps.take(j as int) =~= apps);
        assert(app_exists@.take(j as int) =~= app_exists@);
        if vendor_exists {
            let ghost before = strings(directories@);
            let v = self.vendor.vendor_directory.clone();
            directories.push(v);
            assert(strings(directories@) =~= before.push(v@));
        }
        directories
    }
}

pub const TEMPLATE_DIRECTORIES_MAX: u32 = 256;

/// The output directory's name inside a project.
pub const DEFAULT_OUTPUT_DIRECTORY: &'static str = "resolve_templates";

/// The cache directory's name inside a project.
pub const DEFAULT_CACHE_DIRECTORY: &'static str = ".resolve_cache";

/// The vendor directory's name inside a project.
pub const DEFAULT_VENDOR_DIRECTORY: &'static str = ".resolve_vendor";


pub const DIRECTORY_PATH_LENGTH_MAX: u32 = 4096;

/// The text of `o`, or `d` when there is none.
pub open spec fn text_or(o: Option<&str>, d: Seq<char>) -> Seq<char> {
    match o {
        Some(t) => t@,
        None => d,
    }
}

/// A configuration from the arguments of the Python binding: the cache and
/// vendor directories default to `.resolve_cache` and `.resolve_vendor`,
/// and `no_cache` and `no_vendor` turn incremental builds and vendor
/// detection off; the rest is as `Config::from_params` makes it.
pub fn make_config(
    template_directories: Vec<String>,
    output_directory: &str,
    cache_directory: Option<&str>,
    vendor_directory: Option<&str>,
    virtual_environment_path: Option<&str>,
    no_cache: bool,
    no_vendor: bool,
) -> (r: Result<Config, ConfigError>)
    requires
        template_directories@.len() > 0,
        template_directories@.len() <= TEMPLATE_DIRECTORIES_MAX,
        output_directory@.len() > 0,
        crate::text::utf8_len(output_directory@) <= DIRECTORY_PATH_LENGTH_MAX,
    ensures
        text_or(cache_directory, ".resolve_cache"@).len() == 0 <==> r is Err,
        r is Err ==> r->Err_0 == ConfigError::EmptyField("compiler.cache_directory"),
        r matches Ok(c) ==> {
            &&& c.compiler.output_directory@ == output_directory@
            &&& c.compiler.cache_directory@ == text_or(cache_directory, ".resolve_cache"@)
            &&& c.vendor.vendor_directory@ == text_or(vendor_directory, ".resolve_vendor"@)
            &&& match (c.vendor.virtual_environment_path, virtual_environment_path) {
                (Some(a), Some(b)) => a@ == b@,
                (None, None) => true,
                _ => false,
            }
            &&& strings(c.paths.primary_templates@) == strings(template_directories@)
            &&& c.paths.app_templates@.len() == 0
            &&& c.vendor.auto_detect == !no_vendor
            &&& c.incremental.enabled == !no_cache
            &&& c.incremental.track_file_hashes
            &&& c.entry_templates.auto_discover
            &&& c.entry_templates.explicit@.len() == 0
            &&& c.validation.max_include_depth == 20
            &&& c.validation.max_inheritance_depth == 10
        },
{
    let cache = match cache_directory {
        Some(c) => c.to_owned(),
        None => ".resolve_cache".to_owned(),
    };
    let vendor = match vendor_directory {
        Some(v) => v.to_owned(),
        None => ".resolve_vendor".to_owned(),
    };
    let venv = match virtual_environment_path {
        Some(p) => Some(p.to_owned()),
        None => None,
    };
    match Config::from_params(template_directories, output_directory.to_owned(), cache, vendor, venv) {
        Ok(mut config) => {
            if no_cache {
                config.incremental.enabled = false;
            }
            if no_vendor {
                config.vendor.auto_detect = false;
            }
            Ok(config)
        },
        Err(e) => Err(e),
    }
}

} // verus!
