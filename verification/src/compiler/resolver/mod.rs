//! Resolving templates: inheritance and inclusion.
pub mod merge;
pub mod inheritance;
pub mod inclusion;

use vstd::prelude::*;
use crate::compiler::error::CompileError;
use crate::compiler::parser::parse_fits;

verus! {

/// How deep inclusion and inheritance may nest.
#[derive(Debug, Clone, Copy)]
pub struct ResolveLimits {
    pub max_include_depth: u32,
    pub max_inheritance_depth: u32,
}

/// Where templates come from.  A loader answers a template name with the
/// resolved path and the content of the template, `None` when there is no
/// such template.  What it hands back is within the lexer's and the parser's
/// limits: the resolver parses it.
pub trait TemplateLoader {
    fn load(&self, name: &str) -> (r: Result<Option<(String, String)>, CompileError>)
        requires
            name@.len() > 0,
        ensures
            r matches Ok(Some(found)) ==> parse_fits(found.1@),
    ;

    /// As `load`, but a template found at the path `exclude` does not count.
    fn load_excluding(&self, name: &str, exclude: Option<&str>) -> (r: Result<
        Option<(String, String)>,
        CompileError,
    >)
        requires
            name@.len() > 0,
        ensures
            r matches Ok(Some(found)) ==> parse_fits(found.1@),
    ;
}

/// The answers the loader gives.
pub type Answer = Result<Option<(String, String)>, CompileError>;

/// `ans` is what `loader` answered to `load` for the name `name`.
pub open spec fn answered<L: TemplateLoader>(loader: &L, name: Seq<char>, ans: Answer) -> bool {
    exists|s: &str|
        #![trigger call_ensures(L::load, (loader, s), ans)]
        s@ == name && call_ensures(L::load, (loader, s), ans)
}

/// `ans` is what `loader` answered to `load_excluding` for the name `name`
/// and the excluded path `exclude`.
pub open spec fn answered_excluding<L: TemplateLoader>(
    loader: &L,
    name: Seq<char>,
    exclude: Option<Seq<char>>,
    ans: Answer,
) -> bool {
    exists|s: &str, e: Option<&str>|
        #![trigger call_ensures(L::load_excluding, (loader, s, e), ans)]
        s@ == name && opt_str_view(e) == exclude && call_ensures(
            L::load_excluding,
            (loader, s, e),
            ans,
        )
}

/// The view of an optional string slice.
pub open spec fn opt_str_view(o: Option<&str>) -> Option<Seq<char>> {
    match o {
        Some(s) => Some(s@),
        None => None,
    }
}

} // verus!
