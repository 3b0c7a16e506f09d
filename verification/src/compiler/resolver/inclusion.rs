//! Template inclusion: `{% include %}` tags are replaced by the included
//! template's tree (wrapped in a `with` node when the tag passes variables),
//! pass after pass, until a pass inlines nothing.
use vstd::prelude::*;
use crate::compiler::ast::{
    bindings_view, BindingModel, clone_bindings, clone_node, clone_opt_string, clone_strings, node_view, nodes_view,
    opt_nodes_view, elifs_view, lemma_elifs_view_index, lemma_elifs_view_len,
    lemma_elifs_view_push_copy, AstNode, AutoescapeNode, Binding, BlockNode, BlocktranslateNode,
    CacheNode, ElifBranch, ElifModel, FilterBlockNode, ForNode, IfNode, IfchangedNode,
    IncludeNode, LanguageNode, LocalizeNode, LocaltimeNode, NodeModel, SpacelessNode,
    TimezoneNode, UtcNode, WithNode,
};
use crate::compiler::error::CompileError;
use crate::compiler::parser::lemma_nodes_view_push;
use crate::compiler::resolver::merge::{body_of, with_body, AST_DEPTH_MAX};
use crate::compiler::resolver::{answered, Answer, ResolveLimits, TemplateLoader};
use crate::compiler::resolver::inheritance::resolved_by;
use crate::compiler::parser::{parse_error_of, parsed_nodes};
use crate::compiler::resolver::inheritance::append_nodes;
use crate::discovery::strs;
use crate::compiler::walk::{lemma_nodes_view_index, lemma_nodes_view_len};

verus! {

pub const RESOLVE_NODES_MAX: u32 = 500_000;

/// What a pass makes of a tree as far as it can be told without the loader:
/// the tree rebuilt, the first include met (what follows depends on the
/// loader), the nesting limit hit, or a list over the size limit.
pub enum Expanded<T> {
    Done(T),
    Includes,
    TooDeep,
    Limit,
}

/// A pass over the list `ns` at nesting depth `depth`.
pub open spec fn expand_list(ns: Seq<NodeModel>, depth: int) -> Expanded<Seq<NodeModel>>
    decreases AST_DEPTH_MAX + 1 - depth, 2nat, 0nat,
{
    if depth > AST_DEPTH_MAX {
        Expanded::TooDeep
    } else if ns.len() > RESOLVE_NODES_MAX {
        Expanded::Limit
    } else {
        expand_from(ns, depth, 0, seq![])
    }
}

pub open spec fn expand_from(ns: Seq<NodeModel>, depth: int, i: int, acc: Seq<NodeModel>) -> Expanded<
    Seq<NodeModel>,
>
    decreases AST_DEPTH_MAX + 1 - depth, 1nat, ns.len() - i,
{
    if i < 0 || i >= ns.len() || depth < 0 || depth > AST_DEPTH_MAX {
        Expanded::Done(acc)
    } else if ns[i] is Include {
        Expanded::Includes
    } else {
        match expand_node(ns[i], depth) {
            Expanded::Done(n2) => expand_from(ns, depth, i + 1, acc.push(n2)),
            Expanded::Includes => Expanded::Includes,
            Expanded::TooDeep => Expanded::TooDeep,
            Expanded::Limit => Expanded::Limit,
        }
    }
}

pub open spec fn expand_opt(o: Option<Seq<NodeModel>>, depth: int) -> Expanded<Option<Seq<NodeModel>>>
    decreases AST_DEPTH_MAX + 1 - depth, 3nat, 0nat,
{
    match o {
        None => Expanded::Done(None),
        Some(b) => match expand_list(b, depth) {
            Expanded::Done(b2) => Expanded::Done(Some(b2)),
            Expanded::Includes => Expanded::Includes,
            Expanded::TooDeep => Expanded::TooDeep,
            Expanded::Limit => Expanded::Limit,
        },
    }
}

pub open spec fn expand_elifs(es: Seq<ElifModel>, depth: int, i: int, acc: Seq<ElifModel>) -> Expanded<
    Seq<ElifModel>,
>
    decreases AST_DEPTH_MAX + 1 - depth, 3nat, es.len() - i,
{
    if i < 0 || i >= es.len() {
        Expanded::Done(acc)
    } else {
        match expand_list(es[i].body, depth) {
            Expanded::Done(b2) => expand_elifs(
                es,
                depth,
                i + 1,
                acc.push(ElifModel { condition: es[i].condition, body: b2 }),
            ),
            Expanded::Includes => Expanded::Includes,
            Expanded::TooDeep => Expanded::TooDeep,
            Expanded::Limit => Expanded::Limit,
        }
    }
}

/// A node that is not an include, the lists under it passed over.
pub open spec fn expand_node(n: NodeModel, depth: int) -> Expanded<NodeModel>
    decreases AST_DEPTH_MAX + 1 - depth, 0nat, 0nat,
{
    if depth < 0 || depth > AST_DEPTH_MAX {
        Expanded::Done(n)
    } else {
        let d = depth + 1;
        match n {
            NodeModel::If { raw, condition, true_branch, elif_branches, else_branch } => match expand_list(
                true_branch,
                d,
            ) {
                Expanded::Done(t2) => match expand_elifs(elif_branches, d, 0, seq![]) {
                    Expanded::Done(e2) => match expand_opt(else_branch, d) {
                        Expanded::Done(o2) => Expanded::Done(
                            NodeModel::If {
                                raw,
                                condition,
                                true_branch: t2,
                                elif_branches: e2,
                                else_branch: o2,
                            },
                        ),
                        Expanded::Includes => Expanded::Includes,
                        Expanded::TooDeep => Expanded::TooDeep,
                        Expanded::Limit => Expanded::Limit,
                    },
                    Expanded::Includes => Expanded::Includes,
                    Expanded::TooDeep => Expanded::TooDeep,
                    Expanded::Limit => Expanded::Limit,
                },
                Expanded::Includes => Expanded::Includes,
                Expanded::TooDeep => Expanded::TooDeep,
                Expanded::Limit => Expanded::Limit,
            },
            NodeModel::For { raw, variable, iterable, body, empty_branch } => match expand_list(body, d) {
                Expanded::Done(b2) => match expand_opt(empty_branch, d) {
                    Expanded::Done(o2) => Expanded::Done(
                        NodeModel::For { raw, variable, iterable, body: b2, empty_branch: o2 },
                    ),
                    Expanded::Includes => Expanded::Includes,
                    Expanded::TooDeep => Expanded::TooDeep,
                    Expanded::Limit => Expanded::Limit,
                },
                Expanded::Includes => Expanded::Includes,
                Expanded::TooDeep => Expanded::TooDeep,
                Expanded::Limit => Expanded::Limit,
            },
            NodeModel::Ifchanged { raw, condition, true_branch, else_branch } => match expand_list(
                true_branch,
                d,
            ) {
                Expanded::Done(t2) => match expand_opt(else_branch, d) {
                    Expanded::Done(o2) => Expanded::Done(
                        NodeModel::Ifchanged { raw, condition, true_branch: t2, else_branch: o2 },
                    ),
                    Expanded::Includes => Expanded::Includes,
                    Expanded::TooDeep => Expanded::TooDeep,
                    Expanded::Limit => Expanded::Limit,
                },
                Expanded::Includes => Expanded::Includes,
                Expanded::TooDeep => Expanded::TooDeep,
                Expanded::Limit => Expanded::Limit,
            },
            _ => match body_of(n) {
                Some(b) => match expand_list(b, d) {
                    Expanded::Done(b2) => Expanded::Done(with_body(n, b2)),
                    Expanded::Includes => Expanded::Includes,
                    Expanded::TooDeep => Expanded::TooDeep,
                    Expanded::Limit => Expanded::Limit,
                },
                None => Expanded::Done(n),
            },
        }
    }
}

pub proof fn lemma_expand_list_same(ns: Seq<NodeModel>, depth: int)
    requires
        0 <= depth,
        expand_list(ns, depth) is Done,
    ensures
        expand_list(ns, depth)->Done_0 == ns,
    decreases AST_DEPTH_MAX + 1 - depth, 2nat, 0nat,
{
    if depth <= AST_DEPTH_MAX && ns.len() <= RESOLVE_NODES_MAX {
        assert(ns.take(0) =~= Seq::<NodeModel>::empty());
        lemma_expand_from_same(ns, depth, 0, seq![]);
    }
}

pub proof fn lemma_expand_from_same(ns: Seq<NodeModel>, depth: int, i: int, acc: Seq<NodeModel>)
    requires
        0 <= i <= ns.len(),
        0 <= depth <= AST_DEPTH_MAX,
        acc == ns.take(i),
        expand_from(ns, depth, i, acc) is Done,
    ensures
        expand_from(ns, depth, i, acc)->Done_0 == ns,
    decreases AST_DEPTH_MAX + 1 - depth, 1nat, ns.len() - i,
{
    if i >= ns.len() {
        assert(ns.take(i) =~= ns);
    } else {
        lemma_expand_node_same(ns[i], depth);
        assert(ns.take(i).push(ns[i]) =~= ns.take(i + 1));
        lemma_expand_from_same(ns, depth, i + 1, ns.take(i + 1));
    }
}

pub proof fn lemma_expand_opt_same(o: Option<Seq<NodeModel>>, depth: int)
    requires
        0 <= depth,
        expand_opt(o, depth) is Done,
    ensures
        expand_opt(o, depth)->Done_0 == o,
    decreases AST_DEPTH_MAX + 1 - depth, 3nat, 0nat,
{
    match o {
        Some(b) => lemma_expand_list_same(b, depth),
        None => {},
    }
}

pub proof fn lemma_expand_elifs_same(es: Seq<ElifModel>, depth: int, i: int, acc: Seq<ElifModel>)
    requires
        0 <= depth,
        0 <= i <= es.len(),
        acc == es.take(i),
        expand_elifs(es, depth, i, acc) is Done,
    ensures
        expand_elifs(es, depth, i, acc)->Done_0 == es,
    decreases AST_DEPTH_MAX + 1 - depth, 3nat, es.len() - i,
{
    if i >= es.len() {
        assert(es.take(i) =~= es);
    } else {
        lemma_expand_list_same(es[i].body, depth);
        assert(es.take(i).push(ElifModel { condition: es[i].condition, body: es[i].body })
            =~= es.take(i + 1));
        lemma_expand_elifs_same(es, depth, i + 1, es.take(i + 1));
    }
}

pub proof fn lemma_expand_node_same(n: NodeModel, depth: int)
    requires
        expand_node(n, depth) is Done,
    ensures
        expand_node(n, depth)->Done_0 == n,
    decreases AST_DEPTH_MAX + 1 - depth, 0nat, 0nat,
{
    if 0 <= depth <= AST_DEPTH_MAX {
        let d = depth + 1;
        match n {
            NodeModel::If { true_branch, elif_branches, else_branch, .. } => {
                lemma_expand_list_same(true_branch, d);
                assert(elif_branches.take(0) =~= Seq::<ElifModel>::empty());
                lemma_expand_elifs_same(elif_branches, d, 0, seq![]);
                lemma_expand_opt_same(else_branch, d);
            },
            NodeModel::For { body, empty_branch, .. } => {
                lemma_expand_list_same(body, d);
                lemma_expand_opt_same(empty_branch, d);
            },
            NodeModel::Ifchanged { true_branch, else_branch, .. } => {
                lemma_expand_list_same(true_branch, d);
                lemma_expand_opt_same(else_branch, d);
            },
            _ => {
                match body_of(n) {
                    Some(b) => lemma_expand_list_same(b, d),
                    None => {},
                }
            },
        }
    }
}

/// A pass over a tree that meets no include changes nothing: when the pass
/// completes without the loader, the tree comes back as it was, whatever
/// the state, and the state stays as it was.
pub proof fn law_no_includes_unchanged(fs: Seq<(Seq<char>, Fetch)>, ns: Seq<NodeModel>, depth: int, st: ExState)
    requires
        0 <= depth,
        expand_list(ns, depth) is Done,
    ensures
        expand_list(ns, depth) == Expanded::Done(ns),
        xlist(fs, ns, depth, st) == Step::Done(ns, st),
{
    lemma_expand_list_same(ns, depth);
    lemma_x_list(fs, ns, depth, st);
}

proof fn lemma_x_list(fs: Seq<(Seq<char>, Fetch)>, ns: Seq<NodeModel>, depth: int, st: ExState)
    requires
        expand_list(ns, depth) is Done,
    ensures
        xlist(fs, ns, depth, st) == Step::Done(expand_list(ns, depth)->Done_0, st),
    decreases AST_DEPTH_MAX + 1 - depth, 2nat, 0nat,
{
    if depth <= AST_DEPTH_MAX && ns.len() <= RESOLVE_NODES_MAX {
        lemma_x_from(fs, ns, depth, 0, seq![], st);
    }
}

proof fn lemma_x_from(fs: Seq<(Seq<char>, Fetch)>, ns: Seq<NodeModel>, depth: int, i: int, acc: Seq<NodeModel>, st: ExState)
    requires
        expand_from(ns, depth, i, acc) is Done,
    ensures
        xfrom(fs, ns, depth, i, acc, st) == Step::Done(expand_from(ns, depth, i, acc)->Done_0, st),
    decreases AST_DEPTH_MAX + 1 - depth, 1nat, ns.len() - i,
{
    if !(i < 0 || i >= ns.len() || depth < 0 || depth > AST_DEPTH_MAX) {
        lemma_x_node(fs, ns[i], depth, st);
        let n2 = expand_node(ns[i], depth)->Done_0;
        lemma_x_from(fs, ns, depth, i + 1, acc.push(n2), st);
    }
}

proof fn lemma_x_opt(fs: Seq<(Seq<char>, Fetch)>, o: Option<Seq<NodeModel>>, depth: int, st: ExState)
    requires
        expand_opt(o, depth) is Done,
    ensures
        xopt(fs, o, depth, st) == Step::Done(expand_opt(o, depth)->Done_0, st),
    decreases AST_DEPTH_MAX + 1 - depth, 3nat, 0nat,
{
    match o {
        Some(b) => lemma_x_list(fs, b, depth, st),
        None => {},
    }
}

proof fn lemma_x_elifs(fs: Seq<(Seq<char>, Fetch)>, es: Seq<ElifModel>, depth: int, i: int, acc: Seq<ElifModel>, st: ExState)
    requires
        expand_elifs(es, depth, i, acc) is Done,
    ensures
        xelifs(fs, es, depth, i, acc, st) == Step::Done(expand_elifs(es, depth, i, acc)->Done_0, st),
    decreases AST_DEPTH_MAX + 1 - depth, 3nat, es.len() - i,
{
    if !(i < 0 || i >= es.len()) {
        lemma_x_list(fs, es[i].body, depth, st);
        let b2 = expand_list(es[i].body, depth)->Done_0;
        lemma_x_elifs(fs, es, depth, i + 1, acc.push(ElifModel { condition: es[i].condition, body: b2 }), st);
    }
}

proof fn lemma_x_node(fs: Seq<(Seq<char>, Fetch)>, n: NodeModel, depth: int, st: ExState)
    requires
        expand_node(n, depth) is Done,
    ensures
        xnode(fs, n, depth, st) == Step::Done(expand_node(n, depth)->Done_0, st),
    decreases AST_DEPTH_MAX + 1 - depth, 0nat, 0nat,
{
    if 0 <= depth <= AST_DEPTH_MAX {
        let d = depth + 1;
        match n {
            NodeModel::If { true_branch, elif_branches, else_branch, .. } => {
                lemma_x_list(fs, true_branch, d, st);
                lemma_x_elifs(fs, elif_branches, d, 0, seq![], st);
                lemma_x_opt(fs, else_branch, d, st);
            },
            NodeModel::For { body, empty_branch, .. } => {
                lemma_x_list(fs, body, d, st);
                lemma_x_opt(fs, empty_branch, d, st);
            },
            NodeModel::Ifchanged { true_branch, else_branch, .. } => {
                lemma_x_list(fs, true_branch, d, st);
                lemma_x_opt(fs, else_branch, d, st);
            },
            _ => {
                match body_of(n) {
                    Some(b) => lemma_x_list(fs, b, d, st),
                    None => {},
                }
            },
        }
    }
}


/// The tree last stored for `path` in `cache`.
pub open spec fn cache_lookup(cache: Seq<(String, Vec<AstNode>)>, path: Seq<char>) -> Option<Vec<AstNode>>
    decreases cache.len(),
{
    if cache.len() == 0 {
        None
    } else if cache.last().0@ == path {
        Some(cache.last().1)
    } else {
        cache_lookup(cache.drop_last(), path)
    }
}

/// Whether one of `names` is `name`.
pub open spec fn names_contain(names: Seq<String>, name: Seq<char>) -> bool {
    exists|j: int| 0 <= j < names.len() && (#[trigger] names[j])@ == name
}

/// The bindings of a `with` tag as written: `name=value` pairs separated by
/// single spaces.
pub open spec fn bindings_text(bs: Seq<BindingModel>) -> Seq<char>
    decreases bs.len(),
{
    if bs.len() == 0 {
        seq![]
    } else {
        let prev = bindings_text(bs.drop_last());
        (if bs.len() == 1 {
            prev
        } else {
            prev + " "@
        }) + bs.last().name + "="@ + bs.last().value
    }
}

/// Law: one binding is written `name=value`.
pub proof fn law_bindings_text_single(b: BindingModel)
    ensures
        bindings_text(seq![b]) == b.name + "="@ + b.value,
{
    assert(seq![b].drop_last() =~= Seq::<BindingModel>::empty());
    assert(bindings_text(Seq::<BindingModel>::empty()) == Seq::<char>::empty());
    assert(seq![b].last() == b);
    assert(bindings_text(seq![b]) == Seq::<char>::empty() + b.name + "="@ + b.value);
    assert(Seq::<char>::empty() + b.name =~= b.name);
}

/// Law: the bindings of two runs are the text of the first, one space, and
/// the text of the second, so every binding is written, in order, each
/// separated from the next by a single space.
pub proof fn law_bindings_text_concat(a: Seq<BindingModel>, b: Seq<BindingModel>)
    requires
        a.len() > 0,
        b.len() > 0,
    ensures
        bindings_text(a + b) == bindings_text(a) + " "@ + bindings_text(b),
    decreases b.len(),
{
    let last = b.last();
    if b.len() == 1 {
        assert((a + b).drop_last() =~= a);
        law_bindings_text_single(last);
        assert(b =~= seq![last]);
        assert(bindings_text(a + b) =~= bindings_text(a) + " "@ + bindings_text(b));
    } else {
        assert((a + b).drop_last() =~= a + b.drop_last());
        law_bindings_text_concat(a, b.drop_last());
        assert(bindings_text(a + b) =~= bindings_text(a) + " "@ + bindings_text(b));
    }
}

/// Law: an include with variables becomes one `with` node over the
/// included tree that binds exactly those variables, its tag written
/// `{% with `, the bindings, ` %}`; an include without variables becomes
/// the included tree itself.
pub proof fn law_include_becomes_with(vars: Seq<BindingModel>, body: Seq<NodeModel>)
    ensures
        vars.len() == 0 ==> included_nodes(vars, body) == body,
        vars.len() > 0 ==> included_nodes(vars, body) == seq![
            NodeModel::With { raw: "{% with "@ + bindings_text(vars) + " %}"@, bindings: vars, body },
        ],
{
}

/// What an include with the variables `vars` puts in place of the tag for
/// the included tree `body`: the tree itself, or a `with` node over it that
/// binds the variables.
pub open spec fn included_nodes(vars: Seq<BindingModel>, body: Seq<NodeModel>) -> Seq<NodeModel> {
    if vars.len() == 0 {
        body
    } else {
        seq![
            NodeModel::With {
                raw: "{% with "@ + bindings_text(vars) + " %}"@,
                bindings: vars,
                body,
            },
        ]
    }
}

/// What loading a template for an include gives: its tree (its inheritance
/// resolved), no template, or an error.
pub type Fetch = Result<Option<Seq<NodeModel>>, CompileError>;

/// Whether one of `ns` is an `extends` node.
pub open spec fn extends_in(ns: Seq<NodeModel>) -> bool {
    exists|i: int| 0 <= i < ns.len() && (#[trigger] ns[i]) is Extends
}

/// What the inheritance resolver's answer `r` is as a fetch.
pub open spec fn fetch_of(r: Result<Vec<AstNode>, CompileError>) -> Fetch {
    match r {
        Ok(v) => Ok(Some(nodes_view(v@))),
        Err(e) => Err(e),
    }
}

/// `f` is what loading the template `path` gives with `loader`: the loader's
/// answer for `path`, its content parsed, and its inheritance resolved when
/// it extends a parent.
pub open spec fn fetched_by<L: TemplateLoader>(loader: &L, limits: ResolveLimits, path: Seq<char>, f: Fetch) -> bool {
    exists|ans: Answer|
        #![trigger answered(loader, path, ans)]
        answered(loader, path, ans) && match ans {
            Err(e) => f == Err::<Option<Seq<NodeModel>>, CompileError>(e),
            Ok(None) => f == Ok::<Option<Seq<NodeModel>>, CompileError>(None),
            Ok(Some(found)) => match parsed_nodes(found.1@) {
                None => f matches Err(CompileError::Parse(pe)) && parse_error_of(found.1@, pe),
                Some(ns) => if ns.len() > RESOLVE_NODES_MAX {
                    f matches Err(CompileError::ParsedNodeLimitExceeded { path: p, count, max }) && p@
                        == path && count == ns.len() && max == RESOLVE_NODES_MAX
                } else if !extends_in(ns) {
                    f == Ok::<Option<Seq<NodeModel>>, CompileError>(Some(ns))
                } else if limits.max_inheritance_depth == 0 {
                    f matches Err(CompileError::InheritanceDepthExceeded { max_depth, template: t })
                        && max_depth == 0 && t@ == path
                } else {
                    exists|answers: Seq<Answer>, r: Result<Vec<AstNode>, CompileError>|
                        #![trigger resolved_by(loader, ns, path, Some(found.0@), limits.max_inheritance_depth as nat, answers, r)]
                        resolved_by(
                            loader,
                            ns,
                            path,
                            Some(found.0@),
                            limits.max_inheritance_depth as nat,
                            answers,
                            r,
                        ) && fetch_of(r) == f
                },
            },
        }
}

/// The state of an expansion: the trees loaded so far by path, the
/// includes being expanded (innermost last), the paths found to include
/// themselves, whether the current pass inlined anything, and how many
/// loads were made.  The loads themselves, each with the path it loads,
/// are a sequence `fs` that the steps below read in order.
pub struct ExState {
    pub cache: Seq<(Seq<char>, Seq<NodeModel>)>,
    pub expanding: Seq<Seq<char>>,
    pub recursive: Seq<Seq<char>>,
    pub expanded: bool,
    pub next: nat,
}

/// The tree last stored for `path` among `cache`.
pub open spec fn tree_for(cache: Seq<(Seq<char>, Seq<NodeModel>)>, path: Seq<char>) -> Option<Seq<NodeModel>>
    decreases cache.len(),
{
    if cache.len() == 0 {
        None
    } else if cache.last().0 == path {
        Some(cache.last().1)
    } else {
        tree_for(cache.drop_last(), path)
    }
}

/// How an expansion step ends.
pub enum Step<T> {
    Done(T, ExState),
    /// An error of loading an included template.
    Failed(CompileError),
    TooDeep,
    Limit,
    /// A load that no fetch at hand answers.
    Unfetched,
}

/// The ending of a step that did not finish, as a step of another type.
pub open spec fn relay<A, B>(s: Step<A>) -> Step<B> {
    match s {
        Step::Failed(e) => Step::Failed(e),
        Step::TooDeep => Step::TooDeep,
        Step::Limit => Step::Limit,
        _ => Step::Unfetched,
    }
}

/// What an include tag comes to.
pub enum IncludeStep {
    /// The tag stays.
    Keep(ExState),
    /// The tag is replaced by these nodes.
    Inline(Seq<NodeModel>, ExState),
    Failed(CompileError),
    Unfetched,
}

/// An include of `path` with the variables `vars`: an `only` include or
/// one with an empty path stays, as does one of a path found to include
/// itself; one of a path being expanded stays and marks the path; else the
/// template's tree (loaded once, then taken from the cache) replaces it.
pub open spec fn include_step(
    fs: Seq<(Seq<char>, Fetch)>,
    path: Seq<char>,
    vars: Seq<BindingModel>,
    only: bool,
    st: ExState,
) -> IncludeStep {
    if only || path.len() == 0 || st.recursive.contains(path) {
        IncludeStep::Keep(st)
    } else if st.expanding.contains(path) {
        IncludeStep::Keep(ExState { recursive: st.recursive.push(path), ..st })
    } else {
        match tree_for(st.cache, path) {
            Some(t) => IncludeStep::Inline(included_nodes(vars, t), st),
            None => if st.next >= fs.len() || fs[st.next as int].0 != path {
                IncludeStep::Unfetched
            } else {
                let rest = ExState { next: st.next + 1, ..st };
                match fs[st.next as int].1 {
                    Err(e) => IncludeStep::Failed(e),
                    Ok(None) => IncludeStep::Keep(rest),
                    Ok(Some(t)) => IncludeStep::Inline(
                        included_nodes(vars, t),
                        ExState { cache: rest.cache.push((path, t)), ..rest },
                    ),
                }
            },
        }
    }
}

/// A pass over the list `ns` at nesting depth `depth` from the state `st`:
/// each include replaced by what it comes to (itself passed over one level
/// deeper), the lists under other nodes passed over.
pub open spec fn xlist(fs: Seq<(Seq<char>, Fetch)>, ns: Seq<NodeModel>, depth: int, st: ExState) -> Step<Seq<NodeModel>>
    decreases AST_DEPTH_MAX + 1 - depth, 2nat, 0nat,
{
    if depth > AST_DEPTH_MAX {
        Step::TooDeep
    } else if ns.len() > RESOLVE_NODES_MAX {
        Step::Limit
    } else {
        xfrom(fs, ns, depth, 0, seq![], st)
    }
}

pub open spec fn xfrom(fs: Seq<(Seq<char>, Fetch)>, ns: Seq<NodeModel>, depth: int, i: int, acc: Seq<NodeModel>, st: ExState) -> Step<Seq<NodeModel>>
    decreases AST_DEPTH_MAX + 1 - depth, 1nat, ns.len() - i,
{
    if i < 0 || i >= ns.len() || depth < 0 || depth > AST_DEPTH_MAX {
        Step::Done(acc, st)
    } else {
        match ns[i] {
            NodeModel::Include { path, with_variables, only, .. } => match include_step(fs, 
                path,
                with_variables,
                only,
                st,
            ) {
                IncludeStep::Keep(st2) => xfrom(fs, ns, depth, i + 1, acc.push(ns[i]), st2),
                IncludeStep::Inline(v, st2) => match xlist(fs, 
                    v,
                    depth + 1,
                    ExState { expanded: true, expanding: st2.expanding.push(path), ..st2 },
                ) {
                    Step::Done(p, st3) => xfrom(fs, 
                        ns,
                        depth,
                        i + 1,
                        acc + p,
                        ExState { expanding: st3.expanding.drop_last(), ..st3 },
                    ),
                    other => other,
                },
                IncludeStep::Failed(e) => Step::Failed(e),
                IncludeStep::Unfetched => Step::Unfetched,
            },
            _ => match xnode(fs, ns[i], depth, st) {
                Step::Done(n2, st2) => xfrom(fs, ns, depth, i + 1, acc.push(n2), st2),
                other => relay(other),
            },
        }
    }
}

pub open spec fn xopt(fs: Seq<(Seq<char>, Fetch)>, o: Option<Seq<NodeModel>>, depth: int, st: ExState) -> Step<Option<Seq<NodeModel>>>
    decreases AST_DEPTH_MAX + 1 - depth, 3nat, 0nat,
{
    match o {
        None => Step::Done(None, st),
        Some(b) => match xlist(fs, b, depth, st) {
            Step::Done(b2, st2) => Step::Done(Some(b2), st2),
            other => relay(other),
        },
    }
}

pub open spec fn xelifs(fs: Seq<(Seq<char>, Fetch)>, es: Seq<ElifModel>, depth: int, i: int, acc: Seq<ElifModel>, st: ExState) -> Step<Seq<ElifModel>>
    decreases AST_DEPTH_MAX + 1 - depth, 3nat, es.len() - i,
{
    if i < 0 || i >= es.len() {
        Step::Done(acc, st)
    } else {
        match xlist(fs, es[i].body, depth, st) {
            Step::Done(b2, st2) => xelifs(fs, 
                es,
                depth,
                i + 1,
                acc.push(ElifModel { condition: es[i].condition, body: b2 }),
                st2,
            ),
            other => relay(other),
        }
    }
}

/// A node that is not an include, the lists under it passed over.
pub open spec fn xnode(fs: Seq<(Seq<char>, Fetch)>, n: NodeModel, depth: int, st: ExState) -> Step<NodeModel>
    decreases AST_DEPTH_MAX + 1 - depth, 0nat, 0nat,
{
    if depth < 0 || depth > AST_DEPTH_MAX {
        Step::Done(n, st)
    } else {
        let d = depth + 1;
        match n {
            NodeModel::If { raw, condition, true_branch, elif_branches, else_branch } => match xlist(fs, 
                true_branch,
                d,
                st,
            ) {
                Step::Done(t2, s1) => match xelifs(fs, elif_branches, d, 0, seq![], s1) {
                    Step::Done(e2, s2) => match xopt(fs, else_branch, d, s2) {
                        Step::Done(o2, s3) => Step::Done(
                            NodeModel::If {
                                raw,
                                condition,
                                true_branch: t2,
                                elif_branches: e2,
                                else_branch: o2,
                            },
                            s3,
                        ),
                        other => relay(other),
                    },
                    other => relay(other),
                },
                other => relay(other),
            },
            NodeModel::For { raw, variable, iterable, body, empty_branch } => match xlist(fs, body, d, st) {
                Step::Done(b2, s1) => match xopt(fs, empty_branch, d, s1) {
                    Step::Done(o2, s2) => Step::Done(
                        NodeModel::For { raw, variable, iterable, body: b2, empty_branch: o2 },
                        s2,
                    ),
                    other => relay(other),
                },
                other => relay(other),
            },
            NodeModel::Ifchanged { raw, condition, true_branch, else_branch } => match xlist(fs, 
                true_branch,
                d,
                st,
            ) {
                Step::Done(t2, s1) => match xopt(fs, else_branch, d, s1) {
                    Step::Done(o2, s2) => Step::Done(
                        NodeModel::Ifchanged { raw, condition, true_branch: t2, else_branch: o2 },
                        s2,
                    ),
                    other => relay(other),
                },
                other => relay(other),
            },
            _ => match body_of(n) {
                Some(b) => match xlist(fs, b, d, st) {
                    Step::Done(b2, s1) => Step::Done(with_body(n, b2), s1),
                    other => relay(other),
                },
                None => Step::Done(n, st),
            },
        }
    }
}

/// `r` (and, when it is done, the state `after`) is what a step ending
/// with `s` answers; `template` names the template in a size error.
pub open spec fn step_result(
    s: Step<Seq<NodeModel>>,
    r: Result<Vec<AstNode>, CompileError>,
    after: ExState,
    template: Seq<char>,
) -> bool {
    match s {
        Step::Done(v, st) => r is Ok && nodes_view(r->Ok_0@) == v && st == after,
        Step::Failed(e) => r == Err::<Vec<AstNode>, CompileError>(e),
        Step::TooDeep => r == Err::<Vec<AstNode>, CompileError>(
            CompileError::AstDepthExceeded { max_depth: AST_DEPTH_MAX },
        ),
        Step::Limit => r matches Err(CompileError::NodeLimitExceeded { template: t, max }) && t@
            == template && max == RESOLVE_NODES_MAX,
        Step::Unfetched => false,
    }
}

pub open spec fn node_step_result(
    s: Step<NodeModel>,
    r: Result<AstNode, CompileError>,
    after: ExState,
    template: Seq<char>,
) -> bool {
    match s {
        Step::Done(v, st) => r is Ok && node_view(r->Ok_0) == v && st == after,
        Step::Failed(e) => r == Err::<AstNode, CompileError>(e),
        Step::TooDeep => r == Err::<AstNode, CompileError>(
            CompileError::AstDepthExceeded { max_depth: AST_DEPTH_MAX },
        ),
        Step::Limit => r matches Err(CompileError::NodeLimitExceeded { template: t, max }) && t@
            == template && max == RESOLVE_NODES_MAX,
        Step::Unfetched => false,
    }
}

/// The passes of the inclusion resolver over `cur`, at most `k` more: each
/// pass starts with nothing inlined; the first pass that inlines nothing
/// ends them, as does the last one allowed.
pub open spec fn passes(fs: Seq<(Seq<char>, Fetch)>, cur: Seq<NodeModel>, k: nat, st: ExState) -> Step<Seq<NodeModel>>
    decreases k,
{
    if k == 0 {
        Step::Done(cur, st)
    } else if cur.len() > RESOLVE_NODES_MAX {
        Step::Limit
    } else {
        match xlist(fs, cur, 0, ExState { expanded: false, ..st }) {
            Step::Done(next, st2) => if !st2.expanded {
                Step::Done(next, st2)
            } else {
                passes(fs, next, (k - 1) as nat, st2)
            },
            other => other,
        }
    }
}

/// The state an inclusion resolution starts from.
pub open spec fn initial_state() -> ExState {
    ExState { cache: seq![], expanding: seq![], recursive: seq![], expanded: false, next: 0 }
}

/// `fs` begins with the loads `log`.
pub open spec fn extends_log(fs: Seq<(Seq<char>, Fetch)>, log: Seq<(Seq<char>, Fetch)>) -> bool {
    log.len() <= fs.len() && fs.take(log.len() as int) == log
}

/// The state of one resolution: the loader and limits, the trees loaded so
/// far, the includes being expanded (innermost last), the paths found to
/// include themselves, whether the current pass inlined anything, and the
/// loads made so far.
struct Expander<'a, L: TemplateLoader> {
    loader: &'a L,
    limits: &'a ResolveLimits,
    template: &'a str,
    cache: Vec<(String, Vec<AstNode>)>,
    expanding: Vec<String>,
    recursive: Vec<String>,
    expanded: bool,
    log: Ghost<Seq<(Seq<char>, Fetch)>>,
}

/// The view of the cache.
pub open spec fn cache_view(c: Seq<(String, Vec<AstNode>)>) -> Seq<(Seq<char>, Seq<NodeModel>)> {
    c.map_values(|e: (String, Vec<AstNode>)| (e.0@, nodes_view(e.1@)))
}

/// What a load answered as a fetch.
pub open spec fn fetch_opt(r: Result<Option<Vec<AstNode>>, CompileError>) -> Fetch {
    match r {
        Ok(Some(v)) => Ok(Some(nodes_view(v@))),
        Ok(None) => Ok(None),
        Err(e) => Err(e),
    }
}

/// `r` (and the state `after`) is what an include step ending with `s`
/// answers.
pub open spec fn include_result(s: IncludeStep, r: Result<Option<Vec<AstNode>>, CompileError>, after: ExState) -> bool {
    match s {
        IncludeStep::Keep(st) => r matches Ok(None) && st == after,
        IncludeStep::Inline(v, st) => r matches Ok(Some(x)) && nodes_view(x@) == v && st == after,
        IncludeStep::Failed(e) => r == Err::<Option<Vec<AstNode>>, CompileError>(e),
        IncludeStep::Unfetched => false,
    }
}

pub proof fn lemma_tree_for(c: Seq<(String, Vec<AstNode>)>, p: Seq<char>)
    ensures
        tree_for(cache_view(c), p) == match cache_lookup(c, p) {
            Some(t) => Some(nodes_view(t@)),
            None => None,
        },
    decreases c.len(),
{
    if c.len() > 0 {
        assert(cache_view(c).drop_last() =~= cache_view(c.drop_last()));
        lemma_tree_for(c.drop_last(), p);
    }
}

pub proof fn lemma_extends_log_trans(
    fs: Seq<(Seq<char>, Fetch)>,
    b: Seq<(Seq<char>, Fetch)>,
    a: Seq<(Seq<char>, Fetch)>,
)
    requires
        extends_log(fs, b),
        extends_log(b, a),
    ensures
        extends_log(fs, a),
{
    assert(fs.take(a.len() as int) =~= b.take(a.len() as int));
}

proof fn lemma_names_contain(v: Seq<String>, s: Seq<char>)
    ensures
        names_contain(v, s) == strs(v).contains(s),
{
    if names_contain(v, s) {
        let j = choose|j: int| 0 <= j < v.len() && (#[trigger] v[j])@ == s;
        assert(strs(v)[j] == s);
    }
    if strs(v).contains(s) {
        let j = choose|j: int| 0 <= j < strs(v).len() && strs(v)[j] == s;
        assert(v[j]@ == s);
    }
}

/// The tree last stored for `path`.
fn cached<'b>(cache: &'b Vec<(String, Vec<AstNode>)>, path: &String) -> (r: Option<&'b Vec<AstNode>>)
    ensures
        match cache_lookup(cache@, path@) {
            Some(t) => r matches Some(v) && *v == t,
            None => r is None,
        },
{
    let mut k = cache.len();
    assert(cache@.take(k as int) =~= cache@);
    while k > 0
        invariant
            k <= cache@.len(),
            cache_lookup(cache@, path@) == cache_lookup(cache@.take(k as int), path@),
        decreases k,
    {
        assert(cache@.take(k as int).drop_last() =~= cache@.take(k - 1));
        assert(cache@.take(k as int).last() == cache@[k - 1]);
        if cache[k - 1].0 == *path {
            return Some(&cache[k - 1].1);
        }
        k -= 1;
    }
    None
}

/// Whether one of `ns` is an `extends` node.
fn has_extends(ns: &Vec<AstNode>) -> (r: bool)
    ensures
        r == exists|i: int| 0 <= i < ns@.len() && (#[trigger] ns@[i]) is Extends,
{
    let mut i: usize = 0;
    while i < ns.len()
        invariant
            i <= ns@.len(),
            forall|j: int| 0 <= j < i ==> !((#[trigger] ns@[j]) is Extends),
        decreases ns.len() - i,
    {
        if let AstNode::Extends(_) = &ns[i] {
            return true;
        }
        i += 1;
    }
    false
}

impl<'a, L: TemplateLoader> Expander<'a, L> {
    /// The model of the state.
    spec fn state(&self) -> ExState {
        ExState {
            cache: cache_view(self.cache@),
            expanding: strs(self.expanding@),
            recursive: strs(self.recursive@),
            expanded: self.expanded,
            next: self.log@.len(),
        }
    }

    /// Each load made so far is what the loader served for its path.
    spec fn log_ok(&self) -> bool {
        forall|k: int|
            0 <= k < self.log@.len() ==> #[trigger] fetched_by(
                self.loader,
                *self.limits,
                self.log@[k].0,
                self.log@[k].1,
            )
    }

    /// `self` follows `before`: the same loader, limits and template, the
    /// loads of `before` and perhaps more, each served by the loader.
    spec fn follows(&self, before: &Self) -> bool {
        &&& self.log_ok()
        &&& extends_log(self.log@, before.log@)
        &&& self.loader == before.loader
        &&& self.limits == before.limits
        &&& self.template == before.template
    }

    proof fn lemma_follows_trans(c: &Self, b: &Self, a: &Self)
        requires
            c.follows(b),
            b.follows(a),
        ensures
            c.follows(a),
    {
        lemma_extends_log_trans(c.log@, b.log@, a.log@);
    }

    proof fn lemma_follows_refl(a: &Self)
        requires
            a.log_ok(),
        ensures
            a.follows(a),
    {
        assert(a.log@.take(a.log@.len() as int) =~= a.log@);
    }

    /// Loads, parses and resolves the inheritance of the template `path`.
    fn fetch(&self, path: &String) -> (r: Result<Option<Vec<AstNode>>, CompileError>)
        requires
            path@.len() > 0,
        ensures
            fetched_by(self.loader, *self.limits, path@, fetch_opt(r)),
    {
        let ans = self.loader.load(path.as_str());
        let ghost a = ans;
        proof {
            assert(answered(self.loader, path@, a));
        }
        let (resolved, content) = match ans {
            Err(e) => {
                return Err(e);
            },
            Ok(None) => {
                return Ok(None);
            },
            Ok(Some(found)) => found,
        };
        let out = match crate::compiler::parser::parse(content.as_str()) {
            Err(e) => {
                return Err(CompileError::Parse(e));
            },
            Ok(out) => out,
        };
        let ast = out.nodes;
        proof {
            lemma_nodes_view_len(ast@);
        }
        if ast.len() > RESOLVE_NODES_MAX as usize {
            return Err(
                CompileError::ParsedNodeLimitExceeded {
                    path: path.clone(),
                    count: ast.len(),
                    max: RESOLVE_NODES_MAX,
                },
            );
        }
        let ghost ns = nodes_view(ast@);
        proof {
            assert forall|i: int| 0 <= i < ast@.len() implies (#[trigger] ast@[i] is Extends) == (ns[i] is Extends) by {
                lemma_nodes_view_index(ast@, i);
            }
            if extends_in(ns) {
                let i = choose|i: int| 0 <= i < ns.len() && (#[trigger] ns[i]) is Extends;
                assert(ast@[i] is Extends);
            }
        }
        if has_extends(&ast) {
            if self.limits.max_inheritance_depth == 0 {
                return Err(
                    CompileError::InheritanceDepthExceeded { max_depth: 0, template: path.clone() },
                );
            }
            let ghost found_path = resolved@;
            let r = crate::compiler::resolver::inheritance::resolve(
                ast,
                path.as_str(),
                Some(resolved),
                self.loader,
                self.limits,
            );
            proof {
                let answers = choose|answers: Seq<Answer>|
                    resolved_by(
                        self.loader,
                        ns,
                        path@,
                        Some(found_path),
                        self.limits.max_inheritance_depth as nat,
                        answers,
                        r,
                    );
                assert(fetch_of(r) == fetch_opt(match r { Ok(v) => Ok(Some(v)), Err(e) => Err(e) }));
            }
            return match r {
                Ok(v) => Ok(Some(v)),
                Err(e) => Err(e),
            };
        }
        Ok(Some(ast))
    }

    /// The tree of the template at `path`, loaded, parsed and its
    /// inheritance resolved once, then taken from the cache.
    fn load_cached(&mut self, path: &String) -> (r: Result<Option<Vec<AstNode>>, CompileError>)
        requires
            path@.len() > 0,
            old(self).log_ok(),
        ensures
            final(self).follows(old(self)),
            final(self).expanded == old(self).expanded,
            final(self).expanding == old(self).expanding,
            final(self).recursive == old(self).recursive,
            match cache_lookup(old(self).cache@, path@) {
                Some(t) => r matches Ok(Some(v)) && nodes_view(v@) == nodes_view(t@)
                    && final(self).cache@ == old(self).cache@ && final(self).log@ == old(self).log@,
                None => final(self).log@ == old(self).log@.push((path@, fetch_opt(r))) && match r {
                    Ok(Some(v)) => final(self).cache@ == old(self).cache@.push(
                        (final(self).cache@.last().0, final(self).cache@.last().1),
                    ) && final(self).cache@.last().0@ == path@ && nodes_view(
                        final(self).cache@.last().1@,
                    ) == nodes_view(v@),
                    _ => final(self).cache@ == old(self).cache@,
                },
            },
            r matches Ok(Some(v)) ==> (cache_lookup(final(self).cache@, path@) matches Some(t)
                && nodes_view(t@) == nodes_view(v@)),
    {
        proof {
            Self::lemma_follows_refl(self);
        }
        match cached(&self.cache, path) {
            Some(c) => {
                return Ok(Some(crate::compiler::ast::clone_nodes(c.as_slice())));
            },
            None => {},
        }
        let r = self.fetch(path);
        let ghost before = self.log@;
        self.log = Ghost(self.log@.push((path@, fetch_opt(r))));
        proof {
            assert(self.log@.take(before.len() as int) =~= before);
            assert forall|k: int| 0 <= k < self.log@.len() implies #[trigger] fetched_by(
                self.loader,
                *self.limits,
                self.log@[k].0,
                self.log@[k].1,
            ) by {
                if k < before.len() {
                    assert(self.log@[k] == before[k]);
                }
            }
        }
        match r {
            Ok(Some(ast)) => {
                let copy = crate::compiler::ast::clone_nodes(ast.as_slice());
                let key = path.clone();
                let ghost old_cache = self.cache@;
                self.cache.push((key, copy));
                assert(self.cache@.drop_last() =~= old_cache);
                Ok(Some(ast))
            },
            other => other,
        }
    }

    /// What an include tag becomes: `None` keeps the tag (an `only` include,
    /// a recursive one, or a template that cannot be found), `Some` the
    /// nodes that replace it.
    fn include_tag(&mut self, inc: &IncludeNode) -> (r: Result<Option<Vec<AstNode>>, CompileError>)
        requires
            old(self).log_ok(),
        ensures
            final(self).follows(old(self)),
            final(self).expanded == old(self).expanded,
            final(self).expanding == old(self).expanding,
            (inc.only || inc.path@.len() == 0 || names_contain(old(self).recursive@, inc.path@))
                ==> (r matches Ok(None) && final(self).cache@ == old(self).cache@
                && final(self).recursive == old(self).recursive),
            !(inc.only || inc.path@.len() == 0 || names_contain(old(self).recursive@, inc.path@))
                && names_contain(old(self).expanding@, inc.path@) ==> {
                &&& r matches Ok(None)
                &&& final(self).cache@ == old(self).cache@
                &&& final(self).recursive@.len() == old(self).recursive@.len() + 1
                &&& final(self).recursive@.drop_last() == old(self).recursive@
                &&& final(self).recursive@.last()@ == inc.path@
            },
            !(inc.only || inc.path@.len() == 0 || names_contain(old(self).recursive@, inc.path@))
                && !names_contain(old(self).expanding@, inc.path@) ==> {
                &&& final(self).recursive == old(self).recursive
                &&& (cache_lookup(old(self).cache@, inc.path@) is Some ==> final(self).cache@
                    == old(self).cache@ && r matches Ok(Some(_)))
            },
            r matches Ok(Some(v)) ==> (cache_lookup(final(self).cache@, inc.path@) matches Some(t)
                && nodes_view(v@) == included_nodes(
                bindings_view(inc.with_variables@),
                nodes_view(t@),
            )),
            forall|fs: Seq<(Seq<char>, Fetch)>|
                #[trigger] extends_log(fs, final(self).log@) ==> include_result(
                    include_step(
                        fs,
                        inc.path@,
                        bindings_view(inc.with_variables@),
                        inc.only,
                        old(self).state(),
                    ),
                    r,
                    final(self).state(),
                ),
    {
        proof {
            Self::lemma_follows_refl(self);
            lemma_names_contain(self.recursive@, inc.path@);
            lemma_names_contain(self.expanding@, inc.path@);
            lemma_tree_for(self.cache@, inc.path@);
        }
        if inc.only || inc.path.as_str().is_empty() {
            return Ok(None);
        }
        if crate::compiler::resolver::inheritance::contains_string(&self.recursive, &inc.path) {
            return Ok(None);
        }
        if crate::compiler::resolver::inheritance::contains_string(&self.expanding, &inc.path) {
            let ghost before = self.recursive@;
            self.recursive.push(inc.path.clone());
            proof {
                assert(strs(self.recursive@) =~= strs(before).push(inc.path@));
            }
            return Ok(None);
        }
        let ghost st0 = self.state();
        let ghost old_cache = self.cache@;
        let ghost lg = self.log@.len() as int;
        let included = match self.load_cached(&inc.path) {
            Err(e) => {
                proof {
                    assert forall|fs: Seq<(Seq<char>, Fetch)>|
                        #[trigger] extends_log(fs, self.log@) implies include_result(
                            include_step(fs, inc.path@, bindings_view(inc.with_variables@), inc.only, st0),
                            Err::<Option<Vec<AstNode>>, CompileError>(e),
                            self.state(),
                        ) by {
                        assert(fs.take(self.log@.len() as int)[lg] == fs[lg]);
                    }
                }
                return Err(e);
            },
            Ok(None) => {
                proof {
                    assert(cache_view(self.cache@) == cache_view(old_cache));
                    assert forall|fs: Seq<(Seq<char>, Fetch)>|
                        #[trigger] extends_log(fs, self.log@) implies include_result(
                            include_step(fs, inc.path@, bindings_view(inc.with_variables@), inc.only, st0),
                            Ok::<Option<Vec<AstNode>>, CompileError>(None),
                            self.state(),
                        ) by {
                        assert(fs.take(self.log@.len() as int)[lg] == fs[lg]);
                    }
                }
                return Ok(None);
            },
            Ok(Some(t)) => t,
        };
        proof {
            assert forall|fs: Seq<(Seq<char>, Fetch)>|
                #[trigger] extends_log(fs, self.log@) && cache_lookup(old_cache, inc.path@) is None
                implies fs[lg] == (inc.path@, fetch_opt(Ok::<Option<Vec<AstNode>>, CompileError>(Some(included)))) by {
                assert(fs.take(self.log@.len() as int)[lg] == fs[lg]);
            }
        }
        proof {
            if cache_lookup(old_cache, inc.path@) is None {
                assert(cache_view(self.cache@) =~= cache_view(old_cache).push((inc.path@, nodes_view(included@))));
            }
        }
        let ghost vars = bindings_view(inc.with_variables@);
        let ghost body = nodes_view(included@);
        assert(vars.len() == inc.with_variables@.len());
        if inc.with_variables.len() == 0 {
            assert(included_nodes(vars, body) == body);
            return Ok(Some(included));
        }
        let mut raw = String::new();
        crate::text::append_str(&mut raw, "{% with ");
        let mut k: usize = 0;
        assert(vars.take(0) =~= Seq::<BindingModel>::empty());
        assert(raw@ =~= "{% with "@ + bindings_text(vars.take(0)));
        while k < inc.with_variables.len()
            invariant
                k <= inc.with_variables@.len(),
                vars == bindings_view(inc.with_variables@),
                vars.len() == inc.with_variables@.len(),
                raw@ == "{% with "@ + bindings_text(vars.take(k as int)),
            decreases inc.with_variables.len() - k,
        {
            assert(vars.take(k + 1).drop_last() =~= vars.take(k as int));
            assert(vars[k as int] == crate::compiler::ast::binding_view(inc.with_variables@[k as int]));
            if k > 0 {
                crate::text::append_str(&mut raw, " ");
            }
            crate::text::append_str(&mut raw, inc.with_variables[k].name.as_str());
            crate::text::append_str(&mut raw, "=");
            crate::text::append_str(&mut raw, inc.with_variables[k].value.as_str());
            assert(raw@ =~= "{% with "@ + bindings_text(vars.take(k + 1)));
            k += 1;
        }
        assert(vars.take(k as int) =~= vars);
        crate::text::append_str(&mut raw, " %}");
        let node = AstNode::With(
            Box::new(WithNode { raw, bindings: clone_bindings(&inc.with_variables), body: included }),
        );
        assert(node_view(node) == NodeModel::With {
            raw: "{% with "@ + bindings_text(vars) + " %}"@,
            bindings: vars,
            body,
        });
        let out = vec![node];
        proof {
            lemma_nodes_view_len(out@);
            lemma_nodes_view_index(out@, 0);
            assert(nodes_view(out@) =~= included_nodes(vars, body));
        }
        Ok(Some(out))
    }

    /// One pass over `nodes` at nesting depth `depth`: each include is
    /// replaced by what it includes (itself passed over), the lists under
    /// other nodes are passed over.
    fn pass(&mut self, nodes: &[AstNode], depth: u32) -> (r: Result<Vec<AstNode>, CompileError>)
        requires
            depth <= AST_DEPTH_MAX + 1,
            old(self).log_ok(),
        ensures
            final(self).follows(old(self)),
            r is Ok ==> final(self).expanding@ == old(self).expanding@,
            forall|fs: Seq<(Seq<char>, Fetch)>|
                #[trigger] extends_log(fs, final(self).log@) ==> step_result(
                    xlist(fs, nodes_view(nodes@), depth as int, old(self).state()),
                    r,
                    final(self).state(),
                    old(self).template@,
                ),
        decreases AST_DEPTH_MAX + 1 - depth, 3nat,
    {
        proof {
            Self::lemma_follows_refl(self);
        }
        if depth > AST_DEPTH_MAX {
            return Err(CompileError::AstDepthExceeded { max_depth: AST_DEPTH_MAX });
        }
        let ghost ns = nodes_view(nodes@);
        proof {
            lemma_nodes_view_len(nodes@);
        }
        if nodes.len() > RESOLVE_NODES_MAX as usize {
            return Err(
                CompileError::NodeLimitExceeded {
                    template: self.template.to_owned(),
                    max: RESOLVE_NODES_MAX,
                },
            );
        }
        let ghost st0 = self.state();
        let ghost start = *self;
        let mut result: Vec<AstNode> = Vec::new();
        let mut i: usize = 0;
        assert(nodes_view(result@) =~= Seq::<NodeModel>::empty());
        while i < nodes.len()
            invariant
                i <= nodes@.len(),
                depth <= AST_DEPTH_MAX,
                ns == nodes_view(nodes@),
                ns.len() == nodes@.len(),
                nodes@.len() <= RESOLVE_NODES_MAX,
                st0 == start.state(),
                start == *old(self),
                self.follows(&start),
                self.expanding@ == start.expanding@,
                forall|fs: Seq<(Seq<char>, Fetch)>|
                    #[trigger] extends_log(fs, self.log@) ==> xlist(fs, ns, depth as int, st0) == xfrom(
                        fs,
                        ns,
                        depth as int,
                        i as int,
                        nodes_view(result@),
                        self.state(),
                    ),
            decreases nodes.len() - i,
        {
            proof {
                lemma_nodes_view_index(nodes@, i as int);
            }
            let ghost before = *self;
            let ghost acc = nodes_view(result@);
            let ghost rv = result@;
            match &nodes[i] {
                AstNode::Include(inc) => {
                    let ghost path = inc.path@;
                    let ghost vars = bindings_view(inc.with_variables@);
                    match self.include_tag(inc) {
                        Err(e) => {
                            proof {
                                Self::lemma_follows_trans(self, &before, &start);
                                assert forall|fs: Seq<(Seq<char>, Fetch)>|
                                    #[trigger] extends_log(fs, self.log@) implies step_result(
                                        xlist(fs, ns, depth as int, st0),
                                        Err::<Vec<AstNode>, CompileError>(e),
                                        self.state(),
                                        start.template@,
                                    ) by {
                                    lemma_extends_log_trans(fs, self.log@, before.log@);
                                }
                            }
                            return Err(e);
                        },
                        Ok(None) => {
                            let n = clone_node(&nodes[i]);
                            result.push(n);
                            proof {
                                lemma_nodes_view_push(rv, n);
                                Self::lemma_follows_trans(self, &before, &start);
                                assert(nodes_view(result@) == acc.push(ns[i as int]));
                                assert forall|fs: Seq<(Seq<char>, Fetch)>|
                                    #[trigger] extends_log(fs, self.log@) implies xlist(fs, ns, depth as int, st0)
                                        == xfrom(fs, ns, depth as int, i + 1, nodes_view(result@), self.state()) by {
                                    lemma_extends_log_trans(fs, self.log@, before.log@);
                                }
                            }
                        },
                        Ok(Some(inlined)) => {
                            let ghost after_inc = *self;
                            self.expanded = true;
                            let ghost old_expanding = self.expanding@;
                            self.expanding.push(inc.path.clone());
                            proof {
                                assert(strs(self.expanding@) =~= strs(old_expanding).push(path));
                                assert(self.state() == ExState {
                                    expanded: true,
                                    expanding: after_inc.state().expanding.push(path),
                                    ..after_inc.state()
                                });
                                Self::lemma_follows_refl(self);
                            }
                            let ghost mid = *self;
                            let processed = match self.pass(inlined.as_slice(), depth + 1) {
                                Ok(p) => p,
                                Err(e) => {
                                    proof {
                                        Self::lemma_follows_trans(self, &mid, &before);
                                        Self::lemma_follows_trans(self, &before, &start);
                                        assert forall|fs: Seq<(Seq<char>, Fetch)>|
                                            #[trigger] extends_log(fs, self.log@) implies step_result(
                                                xlist(fs, ns, depth as int, st0),
                                                Err::<Vec<AstNode>, CompileError>(e),
                                                self.state(),
                                                start.template@,
                                            ) by {
                                            lemma_extends_log_trans(fs, self.log@, mid.log@);
                                            lemma_extends_log_trans(fs, mid.log@, before.log@);
                                        }
                                    }
                                    return Err(e);
                                },
                            };
                            let ghost after_pass = *self;
                            let ghost pre_pop = self.expanding@;
                            assert(pre_pop == old_expanding.push(pre_pop.last()));
                            self.expanding.pop();
                            proof {
                                assert(self.expanding@ =~= old_expanding);
                                assert(strs(self.expanding@) =~= strs(pre_pop).drop_last());
                            }
                            append_nodes(&mut result, processed.as_slice());
                            proof {
                                Self::lemma_follows_trans(&after_pass, &mid, &before);
                                assert(self.follows(&after_pass)) by {
                                    Self::lemma_follows_refl(&after_pass);
                                }
                                Self::lemma_follows_trans(self, &after_pass, &before);
                                Self::lemma_follows_trans(self, &before, &start);
                                assert forall|fs: Seq<(Seq<char>, Fetch)>|
                                    #[trigger] extends_log(fs, self.log@) implies xlist(fs, ns, depth as int, st0)
                                        == xfrom(fs, ns, depth as int, i + 1, nodes_view(result@), self.state()) by {
                                    lemma_extends_log_trans(fs, self.log@, mid.log@);
                                    lemma_extends_log_trans(fs, mid.log@, before.log@);
                                }
                            }
                        },
                    }
                },
                node => {
                    match self.node_children(node, depth) {
                        Err(e) => {
                            proof {
                                Self::lemma_follows_trans(self, &before, &start);
                                assert forall|fs: Seq<(Seq<char>, Fetch)>|
                                    #[trigger] extends_log(fs, self.log@) implies step_result(
                                        xlist(fs, ns, depth as int, st0),
                                        Err::<Vec<AstNode>, CompileError>(e),
                                        self.state(),
                                        start.template@,
                                    ) by {
                                    lemma_extends_log_trans(fs, self.log@, before.log@);
                                }
                            }
                            return Err(e);
                        },
                        Ok(n) => {
                            result.push(n);
                            proof {
                                lemma_nodes_view_push(rv, n);
                                Self::lemma_follows_trans(self, &before, &start);
                                assert forall|fs: Seq<(Seq<char>, Fetch)>|
                                    #[trigger] extends_log(fs, self.log@) implies xlist(fs, ns, depth as int, st0)
                                        == xfrom(fs, ns, depth as int, i + 1, nodes_view(result@), self.state()) by {
                                    lemma_extends_log_trans(fs, self.log@, before.log@);
                                }
                            }
                        },
                    }
                },
            }
            i += 1;
        }
        proof {
            assert forall|fs: Seq<(Seq<char>, Fetch)>|
                #[trigger] extends_log(fs, self.log@) implies step_result(
                    xlist(fs, ns, depth as int, st0),
                    Ok::<Vec<AstNode>, CompileError>(result),
                    self.state(),
                    start.template@,
                ) by {}
        }
        Ok(result)
    }

    fn pass_opt(&mut self, o: &Option<Vec<AstNode>>, depth: u32) -> (r: Result<
        Option<Vec<AstNode>>,
        CompileError,
    >)
        requires
            depth <= AST_DEPTH_MAX + 1,
            old(self).log_ok(),
        ensures
            final(self).follows(old(self)),
            r is Ok ==> final(self).expanding@ == old(self).expanding@,
            forall|fs: Seq<(Seq<char>, Fetch)>|
                #[trigger] extends_log(fs, final(self).log@) ==> match xopt(
                    fs,
                    opt_nodes_view(*o),
                    depth as int,
                    old(self).state(),
                ) {
                    Step::Done(v, st) => r is Ok && opt_nodes_view(r->Ok_0) == v && st == final(self).state(),
                    other => r is Err && fail_result(other, r->Err_0, old(self).template@),
                },
        decreases AST_DEPTH_MAX + 1 - depth, 4nat,
    {
        match o {
            None => {
                proof {
                    Self::lemma_follows_refl(self);
                }
                Ok(None)
            },
            Some(b) => match self.pass(b.as_slice(), depth) {
                Ok(b2) => Ok(Some(b2)),
                Err(e) => Err(e),
            },
        }
    }

    fn expand_if(&mut self, x: &IfNode, depth: u32) -> (r: Result<AstNode, CompileError>)
        requires
            depth <= AST_DEPTH_MAX,
            old(self).log_ok(),
        ensures
            final(self).follows(old(self)),
            r is Ok ==> final(self).expanding@ == old(self).expanding@,
            forall|fs: Seq<(Seq<char>, Fetch)>|
                #[trigger] extends_log(fs, final(self).log@) ==> node_step_result(
                    xnode(fs, node_view(AstNode::If(Box::new(*x))), depth as int, old(self).state()),
                    r,
                    final(self).state(),
                    old(self).template@,
                ),
        decreases AST_DEPTH_MAX + 1 - depth, 1nat,
    {
        let d = depth + 1;
        let ghost start = *self;
        let ghost st0 = self.state();
        let ghost n = node_view(AstNode::If(Box::new(*x)));
        let t = match self.pass(x.true_branch.as_slice(), d) {
            Ok(t) => t,
            Err(e) => {
                return Err(e);
            },
        };
        let ghost a1 = *self;
        let ghost es = elifs_view(x.elif_branches@);
        proof {
            lemma_elifs_view_len(x.elif_branches@);
            Self::lemma_follows_refl(self);
        }
        let mut elifs: Vec<ElifBranch> = Vec::new();
        let mut k: usize = 0;
        assert(elifs_view(elifs@) =~= Seq::<ElifModel>::empty());
        while k < x.elif_branches.len()
            invariant
                k <= x.elif_branches@.len(),
                d == depth + 1,
                depth <= AST_DEPTH_MAX,
                es == elifs_view(x.elif_branches@),
                es.len() == x.elif_branches@.len(),
                a1.follows(&start),
                self.follows(&a1),
                start == *old(self),
                st0 == start.state(),
                n == node_view(AstNode::If(Box::new(*x))),
                self.expanding@ == start.expanding@,
                forall|fs: Seq<(Seq<char>, Fetch)>|
                    #[trigger] extends_log(fs, a1.log@) ==> step_result(
                        xlist(fs, nodes_view(x.true_branch@), d as int, st0),
                        Ok::<Vec<AstNode>, CompileError>(t),
                        a1.state(),
                        start.template@,
                    ),
                forall|fs: Seq<(Seq<char>, Fetch)>|
                    #[trigger] extends_log(fs, self.log@) ==> xelifs(fs, es, d as int, 0, seq![], a1.state())
                        == xelifs(fs, es, d as int, k as int, elifs_view(elifs@), self.state()),
            decreases x.elif_branches.len() - k,
        {
            proof {
                lemma_elifs_view_index(x.elif_branches@, k as int);
            }
            let ghost before = *self;
            match self.pass(x.elif_branches[k].body.as_slice(), d) {
                Err(e) => {
                    proof {
                        Self::lemma_follows_trans(self, &before, &a1);
                        Self::lemma_follows_trans(self, &a1, &start);
                        assert forall|fs: Seq<(Seq<char>, Fetch)>|
                            #[trigger] extends_log(fs, self.log@) implies node_step_result(
                                xnode(fs, n, depth as int, st0),
                                Err::<AstNode, CompileError>(e),
                                self.state(),
                                start.template@,
                            ) by {
                            lemma_extends_log_trans(fs, self.log@, before.log@);
                            lemma_extends_log_trans(fs, before.log@, a1.log@);
                        }
                    }
                    return Err(e);
                },
                Ok(b) => {
                    let e = ElifBranch { condition: x.elif_branches[k].condition.clone(), body: b };
                    proof {
                        lemma_elifs_view_push_copy(elifs@, e);
                    }
                    elifs.push(e);
                    proof {
                        Self::lemma_follows_trans(self, &before, &a1);
                        assert forall|fs: Seq<(Seq<char>, Fetch)>|
                            #[trigger] extends_log(fs, self.log@) implies xelifs(fs, es, d as int, 0, seq![], a1.state())
                                == xelifs(fs, es, d as int, k + 1, elifs_view(elifs@), self.state()) by {
                            lemma_extends_log_trans(fs, self.log@, before.log@);
                        }
                    }
                },
            }
            k += 1;
        }
        let ghost a2 = *self;
        let o = match self.pass_opt(&x.else_branch, d) {
            Ok(o) => o,
            Err(e) => {
                proof {
                    Self::lemma_follows_trans(self, &a2, &a1);
                    Self::lemma_follows_trans(self, &a1, &start);
                    assert forall|fs: Seq<(Seq<char>, Fetch)>|
                        #[trigger] extends_log(fs, self.log@) implies node_step_result(
                            xnode(fs, n, depth as int, st0),
                            Err::<AstNode, CompileError>(e),
                            self.state(),
                            start.template@,
                        ) by {
                        lemma_extends_log_trans(fs, self.log@, a2.log@);
                        lemma_extends_log_trans(fs, a2.log@, a1.log@);
                    }
                }
                return Err(e);
            },
        };
        let out = AstNode::If(Box::new(IfNode {
            raw: x.raw.clone(),
            condition: x.condition.clone(),
            true_branch: t,
            elif_branches: elifs,
            else_branch: o,
        }));
        proof {
            Self::lemma_follows_trans(self, &a2, &a1);
            Self::lemma_follows_trans(self, &a1, &start);
            assert forall|fs: Seq<(Seq<char>, Fetch)>|
                #[trigger] extends_log(fs, self.log@) implies node_step_result(
                    xnode(fs, n, depth as int, st0),
                    Ok::<AstNode, CompileError>(out),
                    self.state(),
                    start.template@,
                ) by {
                lemma_extends_log_trans(fs, self.log@, a2.log@);
                lemma_extends_log_trans(fs, a2.log@, a1.log@);
            }
        }
        Ok(out)
    }

    fn expand_for(&mut self, node: &AstNode, depth: u32) -> (r: Result<AstNode, CompileError>)
        requires
            depth <= AST_DEPTH_MAX,
            node is For,
            old(self).log_ok(),
        ensures
            final(self).follows(old(self)),
            r is Ok ==> final(self).expanding@ == old(self).expanding@,
            forall|fs: Seq<(Seq<char>, Fetch)>|
                #[trigger] extends_log(fs, final(self).log@) ==> node_step_result(
                    xnode(fs, node_view(*node), depth as int, old(self).state()),
                    r,
                    final(self).state(),
                    old(self).template@,
                ),
        decreases AST_DEPTH_MAX + 1 - depth, 1nat,
    {
        let ghost start = *self;
        match node {
            AstNode::For(x) => {
                let b = match self.pass(x.body.as_slice(), depth + 1) {
                    Ok(b) => b,
                    Err(e) => {
                        return Err(e);
                    },
                };
                let ghost a1 = *self;
                let o = match self.pass_opt(&x.empty_branch, depth + 1) {
                    Ok(o) => o,
                    Err(e) => {
                        proof {
                            Self::lemma_follows_trans(self, &a1, &start);
                            assert forall|fs: Seq<(Seq<char>, Fetch)>|
                                #[trigger] extends_log(fs, self.log@) implies node_step_result(
                                    xnode(fs, node_view(*node), depth as int, start.state()),
                                    Err::<AstNode, CompileError>(e),
                                    self.state(),
                                    start.template@,
                                ) by {
                                lemma_extends_log_trans(fs, self.log@, a1.log@);
                            }
                        }
                        return Err(e);
                    },
                };
                let out = AstNode::For(Box::new(ForNode {
                    raw: x.raw.clone(),
                    variable: x.variable.clone(),
                    iterable: x.iterable.clone(),
                    body: b,
                    empty_branch: o,
                }));
                proof {
                    Self::lemma_follows_trans(self, &a1, &start);
                    assert forall|fs: Seq<(Seq<char>, Fetch)>|
                        #[trigger] extends_log(fs, self.log@) implies node_step_result(
                            xnode(fs, node_view(*node), depth as int, start.state()),
                            Ok::<AstNode, CompileError>(out),
                            self.state(),
                            start.template@,
                        ) by {
                        lemma_extends_log_trans(fs, self.log@, a1.log@);
                    }
                }
                Ok(out)
            },
            _ => {
                proof {
                    Self::lemma_follows_refl(self);
                }
                Ok(clone_node(node))
            },
        }
    }

    fn expand_ifchanged(&mut self, node: &AstNode, depth: u32) -> (r: Result<AstNode, CompileError>)
        requires
            depth <= AST_DEPTH_MAX,
            node is Ifchanged,
            old(self).log_ok(),
        ensures
            final(self).follows(old(self)),
            r is Ok ==> final(self).expanding@ == old(self).expanding@,
            forall|fs: Seq<(Seq<char>, Fetch)>|
                #[trigger] extends_log(fs, final(self).log@) ==> node_step_result(
                    xnode(fs, node_view(*node), depth as int, old(self).state()),
                    r,
                    final(self).state(),
                    old(self).template@,
                ),
        decreases AST_DEPTH_MAX + 1 - depth, 1nat,
    {
        let ghost start = *self;
        match node {
            AstNode::Ifchanged(x) => {
                let t = match self.pass(x.true_branch.as_slice(), depth + 1) {
                    Ok(t) => t,
                    Err(e) => {
                        return Err(e);
                    },
                };
                let ghost a1 = *self;
                let o = match self.pass_opt(&x.else_branch, depth + 1) {
                    Ok(o) => o,
                    Err(e) => {
                        proof {
                            Self::lemma_follows_trans(self, &a1, &start);
                            assert forall|fs: Seq<(Seq<char>, Fetch)>|
                                #[trigger] extends_log(fs, self.log@) implies node_step_result(
                                    xnode(fs, node_view(*node), depth as int, start.state()),
                                    Err::<AstNode, CompileError>(e),
                                    self.state(),
                                    start.template@,
                                ) by {
                                lemma_extends_log_trans(fs, self.log@, a1.log@);
                            }
                        }
                        return Err(e);
                    },
                };
                let out = AstNode::Ifchanged(Box::new(IfchangedNode {
                    raw: x.raw.clone(),
                    condition: clone_opt_string(&x.condition),
                    true_branch: t,
                    else_branch: o,
                }));
                proof {
                    Self::lemma_follows_trans(self, &a1, &start);
                    assert forall|fs: Seq<(Seq<char>, Fetch)>|
                        #[trigger] extends_log(fs, self.log@) implies node_step_result(
                            xnode(fs, node_view(*node), depth as int, start.state()),
                            Ok::<AstNode, CompileError>(out),
                            self.state(),
                            start.template@,
                        ) by {
                        lemma_extends_log_trans(fs, self.log@, a1.log@);
                    }
                }
                Ok(out)
            },
            _ => {
                proof {
                    Self::lemma_follows_refl(self);
                }
                Ok(clone_node(node))
            },
        }
    }
    #[verifier::spinoff_prover]
    #[verifier::rlimit(40)]
    fn expand_with_body(&mut self, node: &AstNode, depth: u32) -> (r: Result<AstNode, CompileError>)
        requires
            depth <= AST_DEPTH_MAX,
            body_of(node_view(*node)) is Some,
            old(self).log_ok(),
        ensures
            final(self).follows(old(self)),
            r is Ok ==> final(self).expanding@ == old(self).expanding@,
            forall|fs: Seq<(Seq<char>, Fetch)>|
                #[trigger] extends_log(fs, final(self).log@) ==> match xlist(
                    fs,
                    body_of(node_view(*node))->0,
                    depth + 1,
                    old(self).state(),
                ) {
                    Step::Done(b2, st) => r is Ok && node_view(r->Ok_0) == with_body(node_view(*node), b2)
                        && st == final(self).state(),
                    other => r is Err && fail_result(other, r->Err_0, old(self).template@),
                },
        decreases AST_DEPTH_MAX + 1 - depth, 1nat,
    {
        match node {
                AstNode::Block(x) => match self.pass(x.content.as_slice(), depth + 1) {
                    Ok(b) => Ok(AstNode::Block(Box::new(BlockNode { raw: x.raw.clone(), name: x.name.clone(), content: b, has_super_reference: x.has_super_reference }))),
                    Err(e) => Err(e),
                },
                AstNode::With(x) => match self.pass(x.body.as_slice(), depth + 1) {
                    Ok(b) => Ok(AstNode::With(Box::new(WithNode { raw: x.raw.clone(), bindings: clone_bindings(&x.bindings), body: b }))),
                    Err(e) => Err(e),
                },
                AstNode::Autoescape(x) => match self.pass(x.body.as_slice(), depth + 1) {
                    Ok(b) => Ok(AstNode::Autoescape(Box::new(AutoescapeNode { raw: x.raw.clone(), value: x.value.clone(), body: b }))),
                    Err(e) => Err(e),
                },
                AstNode::Blocktranslate(x) => match self.pass(x.body.as_slice(), depth + 1) {
                    Ok(b) => Ok(AstNode::Blocktranslate(Box::new(BlocktranslateNode { raw: x.raw.clone(), body: b, modifiers: clone_strings(&x.modifiers) }))),
                    Err(e) => Err(e),
                },
                AstNode::Language(x) => match self.pass(x.body.as_slice(), depth + 1) {
                    Ok(b) => Ok(AstNode::Language(Box::new(LanguageNode { raw: x.raw.clone(), language: x.language.clone(), body: b }))),
                    Err(e) => Err(e),
                },
                AstNode::FilterBlock(x) => match self.pass(x.body.as_slice(), depth + 1) {
                    Ok(b) => Ok(AstNode::FilterBlock(Box::new(FilterBlockNode { raw: x.raw.clone(), filter: x.filter.clone(), body: b }))),
                    Err(e) => Err(e),
                },
                AstNode::Cache(x) => match self.pass(x.body.as_slice(), depth + 1) {
                    Ok(b) => Ok(AstNode::Cache(Box::new(CacheNode { raw: x.raw.clone(), timeout: x.timeout.clone(), name: x.name.clone(), body: b }))),
                    Err(e) => Err(e),
                },
                AstNode::Localize(x) => match self.pass(x.body.as_slice(), depth + 1) {
                    Ok(b) => Ok(AstNode::Localize(Box::new(LocalizeNode { raw: x.raw.clone(), value: x.value.clone(), body: b }))),
                    Err(e) => Err(e),
                },
                AstNode::Localtime(x) => match self.pass(x.body.as_slice(), depth + 1) {
                    Ok(b) => Ok(AstNode::Localtime(Box::new(LocaltimeNode { raw: x.raw.clone(), value: x.value.clone(), body: b }))),
                    Err(e) => Err(e),
                },
                AstNode::Spaceless(x) => match self.pass(x.body.as_slice(), depth + 1) {
                    Ok(b) => Ok(AstNode::Spaceless(SpacelessNode { raw: x.raw.clone(), body: b })),
                    Err(e) => Err(e),
                },
                AstNode::Timezone(x) => match self.pass(x.body.as_slice(), depth + 1) {
                    Ok(b) => Ok(AstNode::Timezone(Box::new(TimezoneNode { raw: x.raw.clone(), timezone: x.timezone.clone(), body: b }))),
                    Err(e) => Err(e),
                },
                AstNode::Utc(x) => match self.pass(x.body.as_slice(), depth + 1) {
                    Ok(b) => Ok(AstNode::Utc(UtcNode { raw: x.raw.clone(), body: b })),
                    Err(e) => Err(e),
                },
            _ => {
                proof {
                    Self::lemma_follows_refl(self);
                }
                Ok(clone_node(node))
            },
        }
    }

    /// A node that is not an include, the lists under it passed over at the
    /// next depth.
    fn node_children(&mut self, node: &AstNode, depth: u32) -> (r: Result<AstNode, CompileError>)
        requires
            depth <= AST_DEPTH_MAX,
            !(node is Include),
            old(self).log_ok(),
        ensures
            final(self).follows(old(self)),
            r is Ok ==> final(self).expanding@ == old(self).expanding@,
            forall|fs: Seq<(Seq<char>, Fetch)>|
                #[trigger] extends_log(fs, final(self).log@) ==> node_step_result(
                    xnode(fs, node_view(*node), depth as int, old(self).state()),
                    r,
                    final(self).state(),
                    old(self).template@,
                ),
        decreases AST_DEPTH_MAX + 1 - depth, 2nat,
    {
        let ghost start = *self;
        match node {
            AstNode::If(x) => {
                assert(node_view(AstNode::If(Box::new(**x))) == node_view(*node));
                self.expand_if(x, depth)
            },
            AstNode::For(_) => self.expand_for(node, depth),
            AstNode::Ifchanged(_) => self.expand_ifchanged(node, depth),
            AstNode::Block(_) | AstNode::With(_) | AstNode::Autoescape(_) | AstNode::Blocktranslate(_)
            | AstNode::Language(_) | AstNode::FilterBlock(_) | AstNode::Cache(_) | AstNode::Localize(_)
            | AstNode::Localtime(_) | AstNode::Spaceless(_) | AstNode::Timezone(_) | AstNode::Utc(_) => {
                let r = self.expand_with_body(node, depth);
                proof {
                    assert forall|fs: Seq<(Seq<char>, Fetch)>|
                        #[trigger] extends_log(fs, self.log@) implies node_step_result(
                            xnode(fs, node_view(*node), depth as int, start.state()),
                            r,
                            self.state(),
                            start.template@,
                        ) by {
                        lemma_xnode_body(fs, node_view(*node), depth as int, start.state());
                    }
                }
                r
            },
            _ => {
                proof {
                    Self::lemma_follows_refl(self);
                }
                Ok(clone_node(node))
            },
        }
    }
}

pub proof fn lemma_xnode_body(fs: Seq<(Seq<char>, Fetch)>, n: NodeModel, depth: int, st: ExState)
    requires
        body_of(n) is Some,
        0 <= depth <= AST_DEPTH_MAX,
    ensures
        xnode(fs, n, depth, st) == match xlist(fs, body_of(n)->0, depth + 1, st) {
            Step::Done(b2, s1) => Step::Done(with_body(n, b2), s1),
            other => relay::<Seq<NodeModel>, NodeModel>(other),
        },
{
}

/// `e` is how a step ending with `s` (not done) is reported; `template`
/// names the template in a size error.
pub open spec fn fail_result<T>(s: Step<T>, e: CompileError, template: Seq<char>) -> bool {
    match s {
        Step::Failed(x) => e == x,
        Step::TooDeep => e == (CompileError::AstDepthExceeded { max_depth: AST_DEPTH_MAX }),
        Step::Limit => e matches CompileError::NodeLimitExceeded { template: t, max } && t@ == template
            && max == RESOLVE_NODES_MAX,
        _ => false,
    }
}

/// `r` is what the inclusion resolver answers for the passes ending with `s`.
pub open spec fn outcome_result(s: Step<Seq<NodeModel>>, r: Result<Vec<AstNode>, CompileError>, template: Seq<char>) -> bool {
    match s {
        Step::Done(v, _) => r is Ok && nodes_view(r->Ok_0@) == v,
        other => r is Err && fail_result(other, r->Err_0, template),
    }
}

/// The inclusion resolver's answer for the tree `nodes` of `template` when
/// its loads were `fs`: each load is what `loader` served for its path, and
/// the passes over `nodes` with those loads end as `r` says.
pub open spec fn included_by<L: TemplateLoader>(
    loader: &L,
    limits: ResolveLimits,
    nodes: Seq<NodeModel>,
    template: Seq<char>,
    fs: Seq<(Seq<char>, Fetch)>,
    r: Result<Vec<AstNode>, CompileError>,
) -> bool {
    &&& forall|k: int| 0 <= k < fs.len() ==> #[trigger] fetched_by(loader, limits, fs[k].0, fs[k].1)
    &&& outcome_result(passes(fs, nodes, limits.max_include_depth as nat, initial_state()), r, template)
}

/// Expands the includes of `ast`: pass after pass, at most
/// `max_include_depth` of them, until a pass inlines nothing.  Each include
/// is replaced by the tree of the template it names (loaded once, parsed and
/// its inheritance resolved), wrapped in a `with` node when the tag passes
/// variables; an `only` include, one of a template that cannot be found and
/// one of a template being expanded stay as they are.
pub fn resolve<L: TemplateLoader>(
    ast: Vec<AstNode>,
    template: &str,
    loader: &L,
    limits: &ResolveLimits,
) -> (r: Result<Vec<AstNode>, CompileError>)
    requires
        template@.len() > 0,
        limits.max_include_depth > 0,
    ensures
        exists|fs: Seq<(Seq<char>, Fetch)>| included_by(loader, *limits, nodes_view(ast@), template@, fs, r),
        expand_list(nodes_view(ast@), 0) is Done ==> r is Ok && nodes_view(r->Ok_0@) == nodes_view(ast@),
{
    let ghost first = nodes_view(ast@);
    let r = expand_passes(ast, template, loader, limits);
    proof {
        if expand_list(first, 0) is Done {
            let fs = choose|fs: Seq<(Seq<char>, Fetch)>| included_by(loader, *limits, first, template@, fs, r);
            law_no_includes_unchanged(fs, first, 0, ExState { expanded: false, ..initial_state() });
        }
    }
    r
}

/// The passes of `resolve`.
fn expand_passes<L: TemplateLoader>(
    ast: Vec<AstNode>,
    template: &str,
    loader: &L,
    limits: &ResolveLimits,
) -> (r: Result<Vec<AstNode>, CompileError>)
    requires
        template@.len() > 0,
        limits.max_include_depth > 0,
    ensures
        exists|fs: Seq<(Seq<char>, Fetch)>| included_by(loader, *limits, nodes_view(ast@), template@, fs, r),
{
    let ghost first = nodes_view(ast@);
    let log: Ghost<Seq<(Seq<char>, Fetch)>> = Ghost(Seq::empty());
    let mut ex = Expander {
        loader,
        limits,
        template,
        cache: Vec::new(),
        expanding: Vec::new(),
        recursive: Vec::new(),
        expanded: false,
        log,
    };
    let ghost start = ex;
    let mut current = ast;
    let mut i: u32 = 0;
    proof {
        assert(cache_view(ex.cache@) =~= Seq::<(Seq<char>, Seq<NodeModel>)>::empty());
        assert(strs(ex.expanding@) =~= Seq::<Seq<char>>::empty());
        assert(strs(ex.recursive@) =~= Seq::<Seq<char>>::empty());
        assert(ex.state() == initial_state());
        Expander::lemma_follows_refl(&ex);
    }
    while i < limits.max_include_depth
        invariant
            i <= limits.max_include_depth,
            first == nodes_view(ast@),
            ex.follows(&start),
            start.loader == loader,
            start.limits == limits,
            start.template == template,
            forall|fs: Seq<(Seq<char>, Fetch)>|
                #[trigger] extends_log(fs, ex.log@) ==> passes(
                    fs,
                    first,
                    limits.max_include_depth as nat,
                    initial_state(),
                ) == passes(
                    fs,
                    nodes_view(current@),
                    (limits.max_include_depth - i) as nat,
                    ex.state(),
                ),
        decreases limits.max_include_depth - i,
    {
        proof {
            lemma_nodes_view_len(current@);
        }
        let ghost before = ex;
        if current.len() > RESOLVE_NODES_MAX as usize {
            let r = Err(
                CompileError::NodeLimitExceeded { template: template.to_owned(), max: RESOLVE_NODES_MAX },
            );
            proof {
                assert(extends_log(ex.log@, ex.log@)) by {
                    assert(ex.log@.take(ex.log@.len() as int) =~= ex.log@);
                }
                assert(included_by(loader, *limits, first, template@, ex.log@, r));
            }
            return r;
        }
        ex.expanded = false;
        let ghost reset = ex;
        proof {
            Expander::lemma_follows_refl(&ex);
            Expander::lemma_follows_trans(&ex, &reset, &start);
        }
        let next = match ex.pass(current.as_slice(), 0) {
            Ok(v) => v,
            Err(e) => {
                let r = Err(e);
                proof {
                    Expander::lemma_follows_trans(&ex, &reset, &start);
                    assert(extends_log(ex.log@, ex.log@)) by {
                        assert(ex.log@.take(ex.log@.len() as int) =~= ex.log@);
                    }
                    lemma_extends_log_trans(ex.log@, ex.log@, before.log@);
                    assert(included_by(loader, *limits, first, template@, ex.log@, r));
                }
                return r;
            },
        };
        proof {
            Expander::lemma_follows_trans(&ex, &reset, &start);
        }
        let ghost cur = nodes_view(current@);
        current = next;
        if !ex.expanded {
            let r = Ok(current);
            proof {
                assert(extends_log(ex.log@, ex.log@)) by {
                    assert(ex.log@.take(ex.log@.len() as int) =~= ex.log@);
                }
                lemma_extends_log_trans(ex.log@, ex.log@, before.log@);
                assert(included_by(loader, *limits, first, template@, ex.log@, r));
            }
            return r;
        }
        proof {
            assert forall|fs: Seq<(Seq<char>, Fetch)>|
                #[trigger] extends_log(fs, ex.log@) implies passes(
                    fs,
                    first,
                    limits.max_include_depth as nat,
                    initial_state(),
                ) == passes(
                    fs,
                    nodes_view(current@),
                    (limits.max_include_depth - (i + 1)) as nat,
                    ex.state(),
                ) by {
                lemma_extends_log_trans(fs, ex.log@, before.log@);
            }
        }
        i += 1;
    }
    proof {
        assert(extends_log(ex.log@, ex.log@)) by {
            assert(ex.log@.take(ex.log@.len() as int) =~= ex.log@);
        }
        assert(included_by(loader, *limits, first, template@, ex.log@, Ok::<Vec<AstNode>, CompileError>(current)));
    }
    Ok(current)
}

} // verus!
