//! Finding templates and what they depend on: the index of template names,
//! the `extends` and `include` targets of each template, and the entry
//! templates that the compiler starts from.
use vstd::prelude::*;
use crate::compiler::ast::{nodes_view, AstNode, NodeModel};
use crate::compiler::lexer::{tokenize_spec, LexOutcome};
use crate::compiler::parser::parse_fits;
use crate::compiler::syntax::{parse_tokens, Parsed};
use crate::compiler::walk::{refs_view, walk, walk_nodes};
use crate::config::Config;

verus! {

pub const DEPENDENCY_EXTRACT_ITERATIONS_MAX: u32 = 500_000;

/// How a template depends on another.
#[derive(Debug, Clone, Copy, PartialEq, Eq, Structural)]
pub enum DependencyType {
    Extends,
    Include,
}

/// A template that another extends or includes.
#[derive(Debug, Clone)]
pub struct Dependency {
    pub target: String,
    pub kind: DependencyType,
}

/// The `extends` and `include` targets among `ws`, in order.
pub open spec fn deps_spec(ws: Seq<NodeModel>) -> Seq<(Seq<char>, DependencyType)>
    decreases ws.len(),
{
    if ws.len() == 0 {
        seq![]
    } else {
        let rest = deps_spec(ws.drop_last());
        match ws.last() {
            NodeModel::Extends { parent_path, .. } => rest.push((parent_path, DependencyType::Extends)),
            NodeModel::Include { path, .. } => rest.push((path, DependencyType::Include)),
            _ => rest,
        }
    }
}

pub open spec fn deps_view(v: Seq<Dependency>) -> Seq<(Seq<char>, DependencyType)> {
    v.map_values(|d: Dependency| (d.target@, d.kind))
}

/// The tree a template's source parses to, if it parses.
pub open spec fn parsed_tree(content: Seq<char>) -> Option<Seq<NodeModel>> {
    match tokenize_spec(content) {
        LexOutcome::Done(t) => match parse_tokens(t) {
            Parsed::Done(_, nodes) => Some(nodes),
            _ => None,
        },
        _ => None,
    }
}

/// What the dependency extractor accepts: a source within the parser's
/// limits whose tree has at most the extractor's number of nodes.
pub open spec fn extract_fits(content: Seq<char>) -> bool {
    &&& parse_fits(content)
    &&& (parsed_tree(content) matches Some(nodes) ==> walk(nodes).len()
        <= DEPENDENCY_EXTRACT_ITERATIONS_MAX)
}

/// The templates that the source `content` extends or includes, in the
/// order a traversal of its tree meets them; none when it does not parse.
pub fn extract(content: &str) -> (r: Vec<Dependency>)
    requires
        extract_fits(content@),
    ensures
        deps_view(r@) == match parsed_tree(content@) {
            Some(nodes) => deps_spec(walk(nodes)),
            None => seq![],
        },
{
    let parsed = match crate::compiler::parser::parse(content) {
        Err(_) => {
            return Vec::new();
        },
        Ok(output) => output,
    };
    let order = walk_nodes(parsed.nodes.as_slice());
    let ghost w = walk(nodes_view(parsed.nodes@));
    assert(refs_view(order@).len() == order@.len());
    let mut deps: Vec<Dependency> = Vec::new();
    let mut k: usize = 0;
    assert(w.take(0) =~= Seq::<NodeModel>::empty());
    assert(deps_view(deps@) =~= deps_spec(w.take(0)));
    while k < order.len()
        invariant
            k <= order@.len(),
            w == refs_view(order@),
            deps_view(deps@) == deps_spec(w.take(k as int)),
        decreases order.len() - k,
    {
        let node = order[k];
        assert(w[k as int] == crate::compiler::ast::node_view(*node));
        assert(w.take(k + 1).drop_last() =~= w.take(k as int));
        let ghost before = deps_view(deps@);
        match node {
            AstNode::Extends(e) => {
                deps.push(Dependency { target: e.parent_path.clone(), kind: DependencyType::Extends });
                assert(deps_view(deps@) =~= before.push((e.parent_path@, DependencyType::Extends)));
            },
            AstNode::Include(x) => {
                deps.push(Dependency { target: x.path.clone(), kind: DependencyType::Include });
                assert(deps_view(deps@) =~= before.push((x.path@, DependencyType::Include)));
            },
            _ => {},
        }
        k += 1;
    }
    assert(w.take(k as int) =~= w);
    deps
}

/// The templates found: each name with the path it was first found at, and
/// each path with its name.
#[derive(Debug, Clone)]
pub struct TemplateIndex {
    pub templates: Vec<(String, String)>,
    pub path_to_name: Vec<(String, String)>,
}

pub open spec fn pairs_view(v: Seq<(String, String)>) -> Seq<(Seq<char>, Seq<char>)> {
    v.map_values(|p: (String, String)| (p.0@, p.1@))
}

/// The value of the last pair of `ps` whose key is `k`.
pub open spec fn pair_lookup(ps: Seq<(Seq<char>, Seq<char>)>, k: Seq<char>) -> Option<Seq<char>>
    decreases ps.len(),
{
    if ps.len() == 0 {
        None
    } else if ps.last().0 == k {
        Some(ps.last().1)
    } else {
        pair_lookup(ps.drop_last(), k)
    }
}

/// The value of the last pair of `v` whose key is `key`.
pub fn find_pair<'b>(v: &'b Vec<(String, String)>, key: &String) -> (r: Option<&'b String>)
    ensures
        match r {
            Some(s) => pair_lookup(pairs_view(v@), key@) == Some(s@),
            None => pair_lookup(pairs_view(v@), key@) is None,
        },
{
    let ghost ps = pairs_view(v@);
    let mut k = v.len();
    assert(ps.take(k as int) =~= ps);
    while k > 0
        invariant
            k <= v@.len(),
            ps == pairs_view(v@),
            pair_lookup(ps, key@) == pair_lookup(ps.take(k as int), key@),
        decreases k,
    {
        assert(ps.take(k as int).drop_last() =~= ps.take(k - 1));
        if v[k - 1].0 == *key {
            return Some(&v[k - 1].1);
        }
        k -= 1;
    }
    None
}

impl TemplateIndex {
    /// An index of no templates.
    pub fn new() -> (r: Self)
        ensures
            r.templates@.len() == 0,
            r.path_to_name@.len() == 0,
    {
        TemplateIndex { templates: Vec::new(), path_to_name: Vec::new() }
    }

    /// Records the template `name` found at `path`: the path maps to the
    /// name, and the name keeps the first path it was found at.
    pub fn add(&mut self, name: String, path: String)
        ensures
            pair_lookup(pairs_view(final(self).path_to_name@), path@) == Some(name@),
            forall|p: Seq<char>|
                p != path@ ==> pair_lookup(pairs_view(final(self).path_to_name@), p) == pair_lookup(
                    pairs_view(old(self).path_to_name@),
                    p,
                ),
            pair_lookup(pairs_view(final(self).templates@), name@) == match pair_lookup(
                pairs_view(old(self).templates@),
                name@,
            ) {
                Some(first) => Some(first),
                None => Some(path@),
            },
            forall|n: Seq<char>|
                n != name@ ==> pair_lookup(pairs_view(final(self).templates@), n) == pair_lookup(
                    pairs_view(old(self).templates@),
                    n,
                ),
    {
        let ghost before = self.path_to_name@;
        self.path_to_name.push((path.clone(), name.clone()));
        assert(pairs_view(self.path_to_name@).drop_last() =~= pairs_view(before));
        let known = find_pair(&self.templates, &name).is_some();
        if !known {
            let ghost t0 = self.templates@;
            self.templates.push((name, path));
            assert(pairs_view(self.templates@).drop_last() =~= pairs_view(t0));
        }
    }

    /// The path the template `name` was first found at.
    pub fn path_of(&self, name: &String) -> (r: Option<&String>)
        ensures
            match r {
                Some(s) => pair_lookup(pairs_view(self.templates@), name@) == Some(s@),
                None => pair_lookup(pairs_view(self.templates@), name@) is None,
            },
    {
        find_pair(&self.templates, name)
    }
}

/// Normalizes a path relative to a template directory into a template
/// name: backslashes become slashes.
pub fn template_name(relative: &str) -> (r: String)
    ensures
        r@ == relative@.map_values(|c: char| if c == '\\' { '/' } else { c }),
{
    let chars = crate::text::chars_of(relative);
    let mut out = String::new();
    let mut i: usize = 0;
    while i < chars.len()
        invariant
            i <= chars@.len(),
            chars@ == relative@,
            out@ == relative@.take(i as int).map_values(|c: char| if c == '\\' { '/' } else { c }),
        decreases chars.len() - i,
    {
        let c = chars[i];
        if c == '\\' {
            out.push('/');
        } else {
            out.push(c);
        }
        assert(relative@.take(i + 1) =~= relative@.take(i as int).push(c));
        assert(out@ =~= relative@.take(i + 1).map_values(|c: char| if c == '\\' { '/' } else { c }));
        i += 1;
    }
    assert(relative@.take(i as int) =~= relative@);
    out
}

/// Lexicographic order of character sequences (that of their UTF-8 bytes).
pub open spec fn lex_lt(a: Seq<char>, b: Seq<char>) -> bool
    decreases a.len(),
{
    if a.len() == 0 {
        b.len() > 0
    } else if b.len() == 0 {
        false
    } else if a[0] != b[0] {
        (a[0] as int) < (b[0] as int)
    } else {
        lex_lt(a.drop_first(), b.drop_first())
    }
}

pub proof fn lemma_lex_total(a: Seq<char>, b: Seq<char>)
    ensures
        a == b || lex_lt(a, b) || lex_lt(b, a),
        !(lex_lt(a, b) && lex_lt(b, a)),
        !lex_lt(a, a),
    decreases a.len(),
{
    if a.len() == 0 && b.len() == 0 {
        assert(a =~= b);
    }
    if a.len() > 0 && b.len() > 0 {
        lemma_lex_total(a.drop_first(), b.drop_first());
        if a[0] == b[0] && a.drop_first() == b.drop_first() {
            assert(a =~= seq![a[0]] + a.drop_first());
            assert(b =~= seq![b[0]] + b.drop_first());
        }
    }
    if a.len() > 0 {
        lemma_lex_total(a.drop_first(), a.drop_first());
    }
}

pub proof fn lemma_lex_trans(a: Seq<char>, b: Seq<char>, c: Seq<char>)
    requires
        lex_lt(a, b),
        lex_lt(b, c),
    ensures
        lex_lt(a, c),
    decreases a.len(),
{
    if a.len() > 0 && b.len() > 0 && c.len() > 0 && a[0] == b[0] && b[0] == c[0] {
        lemma_lex_trans(a.drop_first(), b.drop_first(), c.drop_first());
    }
}

/// Whether `a` sorts before `b`.
pub fn lex_less(a: &String, b: &String) -> (r: bool)
    ensures
        r == lex_lt(a@, b@),
{
    let x = crate::text::chars_of_string(a);
    let y = crate::text::chars_of_string(b);
    let mut i: usize = 0;
    assert(a@.skip(0) =~= a@);
    assert(b@.skip(0) =~= b@);
    while i < x.len() && i < y.len()
        invariant
            i <= x@.len(),
            i <= y@.len(),
            x@ == a@,
            y@ == b@,
            lex_lt(a@, b@) == lex_lt(a@.skip(i as int), b@.skip(i as int)),
        decreases x.len() - i,
    {
        if x[i] != y[i] {
            assert(a@.skip(i as int)[0] == x[i as int]);
            assert(b@.skip(i as int)[0] == y[i as int]);
            return x[i] < y[i];
        }
        assert(a@.skip(i as int).drop_first() =~= a@.skip(i + 1));
        assert(b@.skip(i as int).drop_first() =~= b@.skip(i + 1));
        i += 1;
    }
    i < y.len()
}

pub open spec fn strs(v: Seq<String>) -> Seq<Seq<char>> {
    v.map_values(|s: String| s@)
}

/// Strictly ascending, so without repetitions.
pub open spec fn sorted_unique(v: Seq<Seq<char>>) -> bool {
    forall|i: int, j: int| 0 <= i < j < v.len() ==> lex_lt(#[trigger] v[i], #[trigger] v[j])
}

/// Inserts `s` into the ascending list `v` unless it is there already.
pub fn insert_sorted(v: &mut Vec<String>, s: String)
    requires
        sorted_unique(strs(old(v)@)),
    ensures
        sorted_unique(strs(final(v)@)),
        forall|x: Seq<char>| strs(final(v)@).contains(x) <==> (strs(old(v)@).contains(x) || x == s@),
{
    let ghost sv = s@;
    let mut i: usize = 0;
    while i < v.len() && lex_less(&v[i], &s)
        invariant
            i <= v@.len(),
            s@ == sv,
            sorted_unique(strs(v@)),
            v@ == old(v)@,
            forall|k: int| 0 <= k < i ==> lex_lt(#[trigger] strs(v@)[k], sv),
        decreases v.len() - i,
    {
        i += 1;
    }
    if i < v.len() && v[i] == s {
        assert(strs(v@)[i as int] == sv);
        assert forall|x: Seq<char>| strs(v@).contains(x) <==> (strs(old(v)@).contains(x) || x == sv) by {
            if x == sv {
                assert(strs(v@)[i as int] == x);
            }
        }
        return;
    }
    let ghost old_s = strs(v@);
    proof {
        if i < v@.len() {
            lemma_lex_total(v@[i as int]@, sv);
            assert(lex_lt(sv, old_s[i as int]));
        }
    }
    v.insert(i, s);
    let ghost new_s = strs(v@);
    assert(new_s =~= old_s.insert(i as int, sv));
    assert forall|a: int, b: int| 0 <= a < b < new_s.len() implies lex_lt(#[trigger] new_s[a], #[trigger] new_s[b]) by {
        if b < i {
        } else if b == i {
        } else if a < i {
            assert(new_s[b] == old_s[b - 1]);
            if a == i - 1 || true {
                lemma_lex_trans(new_s[a], sv, old_s[i as int]);
                if b - 1 > i {
                    lemma_lex_trans(new_s[a], old_s[i as int], old_s[b - 1]);
                }
            }
        } else if a == i {
            assert(new_s[b] == old_s[b - 1]);
            if b - 1 > i {
                lemma_lex_trans(sv, old_s[i as int], old_s[b - 1]);
            }
        } else {
            assert(new_s[a] == old_s[a - 1]);
            assert(new_s[b] == old_s[b - 1]);
        }
    }
    assert forall|x: Seq<char>| new_s.contains(x) <==> (old_s.contains(x) || x == sv) by {
        if new_s.contains(x) {
            let k = choose|k: int| 0 <= k < new_s.len() && new_s[k] == x;
            if k < i {
                assert(old_s[k] == x);
            } else if k > i {
                assert(old_s[k - 1] == x);
            }
        }
        if old_s.contains(x) {
            let k = choose|k: int| 0 <= k < old_s.len() && old_s[k] == x;
            if k < i {
                assert(new_s[k] == x);
            } else {
                assert(new_s[k + 1] == x);
            }
        }
        if x == sv {
            assert(new_s[i as int] == x);
        }
    }
}

/// Whether the path `p` lies at or under the directory `base`: `base` is a
/// prefix of `p` that ends where a path component ends (paths written with
/// `/` separators and no `.` or doubled separators).
pub open spec fn path_under(p: Seq<char>, base: Seq<char>) -> bool {
    ||| base.len() == 0
    ||| p == base
    ||| (p.len() > base.len() && p.take(base.len() as int) == base && (base.last() == '/'
        || p[base.len() as int] == '/'))
}

/// Whether the path `p` lies at or under the directory `base`.
pub fn is_under(p: &String, base: &String) -> (r: bool)
    ensures
        r == path_under(p@, base@),
{
    let x = crate::text::chars_of_string(p);
    let y = crate::text::chars_of_string(base);
    if y.len() == 0 {
        return true;
    }
    if x.len() < y.len() {
        return false;
    }
    let mut i: usize = 0;
    while i < y.len()
        invariant
            i <= y@.len(),
            y@.len() <= x@.len(),
            x@ == p@,
            y@ == base@,
            forall|k: int| 0 <= k < i ==> x@[k] == y@[k],
        decreases y.len() - i,
    {
        if x[i] != y[i] {
            assert(p@.take(base@.len() as int)[i as int] != base@[i as int]);
            assert(p@ != base@);
            return false;
        }
        i += 1;
    }
    assert(p@.take(base@.len() as int) =~= base@);
    if x.len() == y.len() {
        assert(p@ =~= base@);
        return true;
    }
    y[y.len() - 1] == '/' || x[y.len()] == '/'
}

/// Which templates depend on the others.
#[derive(Debug, Clone)]
pub struct DependencyGraph {
    pub dependencies: Vec<(String, Vec<Dependency>)>,
    pub dependents: Vec<(String, Vec<String>)>,
}

/// Whether some template depends on the template `name`.
pub open spec fn depended(g: DependencyGraph, name: Seq<char>) -> bool {
    exists|k: int|
        0 <= k < g.dependents@.len() && (#[trigger] g.dependents@[k]).0@ == name
            && g.dependents@[k].1@.len() > 0
}

/// Whether the template `name` extends another.
pub open spec fn extends_another(g: DependencyGraph, name: Seq<char>) -> bool {
    exists|k: int, j: int|
        0 <= k < g.dependencies@.len() && (#[trigger] g.dependencies@[k]).0@ == name && 0 <= j
            < g.dependencies@[k].1@.len() && (#[trigger] g.dependencies@[k].1@[j]).kind
            == DependencyType::Extends
}

/// Whether a template of `found` depends on the template `t`.
pub open spec fn targeted(found: Seq<(String, Vec<Dependency>)>, t: Seq<char>) -> bool {
    exists|i: int, j: int|
        0 <= i < found.len() && 0 <= j < found[i].1@.len() && (#[trigger] found[i].1@[j]).target@
            == t
}

/// Whether some entry of `v` has the key `t`.
pub open spec fn keyed(v: Seq<(String, Vec<String>)>, t: Seq<char>) -> bool {
    exists|q: int| 0 <= q < v.len() && (#[trigger] v[q]).0@ == t
}

/// Whether one of the first `j` dependencies of `deps` targets `t`.
pub open spec fn targets_in(deps: Seq<Dependency>, j: int, t: Seq<char>) -> bool {
    exists|jj: int| 0 <= jj < j && (#[trigger] deps[jj]).target@ == t
}

impl DependencyGraph {
    /// The graph of the templates `found`, each with its dependencies: for
    /// each target, the names of the templates that depend on it.
    pub fn build(found: Vec<(String, Vec<Dependency>)>) -> (r: Self)
        ensures
            r.dependencies@ == found@,
            forall|t: Seq<char>| depended(r, t) <==> targeted(found@, t),
    {
        let mut dependents: Vec<(String, Vec<String>)> = Vec::new();
        let mut i: usize = 0;
        while i < found.len()
            invariant
                i <= found@.len(),
                forall|k: int| 0 <= k < dependents@.len() ==> (#[trigger] dependents@[k]).1@.len() > 0,
                forall|t: Seq<char>|
                    #[trigger] keyed(dependents@, t) <==> targeted(found@.take(i as int), t),
            decreases found.len() - i,
        {
            let name = &found[i].0;
            let deps = &found[i].1;
            let mut j: usize = 0;
            while j < deps.len()
                invariant
                    i < found@.len(),
                    deps == &found@[i as int].1,
                    j <= deps@.len(),
                    forall|k: int| 0 <= k < dependents@.len() ==> (#[trigger] dependents@[k]).1@.len() > 0,
                    forall|t: Seq<char>|
                        #[trigger] keyed(dependents@, t) <==> (targeted(found@.take(i as int), t) || targets_in(deps@, j as int, t)),
                decreases deps.len() - j,
            {
                let target = &deps[j].target;
                let mut k: usize = 0;
                let mut at: Option<usize> = None;
                while k < dependents.len()
                    invariant
                        k <= dependents@.len(),
                        at matches Some(a) ==> a < dependents@.len() && dependents@[a as int].0@ == target@,
                        at is None ==> forall|q: int| 0 <= q < k ==> (#[trigger] dependents@[q]).0@ != target@,
                    decreases dependents.len() - k,
                {
                    if at.is_none() && dependents[k].0 == *target {
                        at = Some(k);
                    }
                    k += 1;
                }
                let ghost before = dependents@;
                match at {
                    Some(a) => {
                        let mut entry = dependents.remove(a);
                        if !crate::compiler::resolver::inheritance::contains_string(&entry.1, name) {
                            entry.1.push(name.clone());
                        }
                        dependents.insert(a, entry);
                        assert forall|q: int| 0 <= q < dependents@.len() implies (#[trigger] dependents@[q]).1@.len() > 0 by {
                            if q != a {
                                assert(dependents@[q] == before[q]);
                            }
                        }
                        assert forall|t: Seq<char>| #[trigger] keyed(dependents@, t) <==> keyed(before, t) by {
                            if keyed(dependents@, t) {
                                let q = choose|q: int| 0 <= q < dependents@.len() && (#[trigger] dependents@[q]).0@ == t;
                                assert(before[q].0@ == t);
                            }
                            if keyed(before, t) {
                                let q = choose|q: int| 0 <= q < before.len() && (#[trigger] before[q]).0@ == t;
                                assert(dependents@[q].0@ == t);
                            }
                        }
                    },
                    None => {
                        dependents.push((target.clone(), vec![name.clone()]));
                        assert forall|t: Seq<char>| #[trigger] keyed(dependents@, t) <==> (keyed(before, t) || t == target@) by {
                            if keyed(dependents@, t) {
                                let q = choose|q: int| 0 <= q < dependents@.len() && (#[trigger] dependents@[q]).0@ == t;
                                if q < before.len() {
                                    assert(before[q].0@ == t);
                                }
                            }
                            if keyed(before, t) {
                                let q = choose|q: int| 0 <= q < before.len() && (#[trigger] before[q]).0@ == t;
                                assert(dependents@[q].0@ == t);
                            }
                            if t == target@ {
                                assert(dependents@[before.len() as int].0@ == t);
                            }
                        }
                    },
                }
                assert forall|t: Seq<char>| #[trigger] targets_in(deps@, j + 1, t) <==> (targets_in(deps@, j as int, t) || t == target@) by {
                    if t == target@ {
                        assert(deps@[j as int].target@ == t);
                    }
                }
                j += 1;
            }
            assert forall|t: Seq<char>|
                #[trigger] targeted(found@.take(i + 1), t) <==> (targeted(found@.take(i as int), t) || targets_in(deps@, deps@.len() as int, t)) by {
                let f1 = found@.take(i + 1);
                let f0 = found@.take(i as int);
                if targeted(f1, t) {
                    let (a, b) = choose|a: int, b: int|
                        0 <= a < f1.len() && 0 <= b < f1[a].1@.len() && (#[trigger] f1[a].1@[b]).target@ == t;
                    if a < i {
                        assert(f0[a] == f1[a]);
                    } else {
                        assert(deps@[b].target@ == t);
                    }
                }
                if targeted(f0, t) {
                    let (a, b) = choose|a: int, b: int|
                        0 <= a < f0.len() && 0 <= b < f0[a].1@.len() && (#[trigger] f0[a].1@[b]).target@ == t;
                    assert(f1[a] == f0[a]);
                    assert(f1[a].1@[b].target@ == t);
                }
                if targets_in(deps@, deps@.len() as int, t) {
                    let jj = choose|jj: int| 0 <= jj < deps@.len() && (#[trigger] deps@[jj]).target@ == t;
                    assert(f1[i as int].1@[jj].target@ == t);
                }
            }
            i += 1;
        }
        assert(found@.take(i as int) =~= found@);
        let r = DependencyGraph { dependencies: found, dependents };
        assert forall|t: Seq<char>| #[trigger] depended(r, t) <==> targeted(r.dependencies@, t) by {
            if depended(r, t) {
                let k = choose|k: int|
                    0 <= k < r.dependents@.len() && (#[trigger] r.dependents@[k]).0@ == t
                        && r.dependents@[k].1@.len() > 0;
                assert(keyed(r.dependents@, t));
            }
            if targeted(r.dependencies@, t) {
                assert(keyed(r.dependents@, t));
                let k = choose|k: int| 0 <= k < r.dependents@.len() && (#[trigger] r.dependents@[k]).0@ == t;
                assert(r.dependents@[k].1@.len() > 0);
            }
        }
        r
    }
}

/// Whether the template `name` is an entry found by discovery: it is in the
/// index, no template depends on it, and one under the vendor directory
/// counts only if it extends another.
pub open spec fn auto_entry(
    index: TemplateIndex,
    graph: DependencyGraph,
    vendor: Seq<char>,
    name: Seq<char>,
) -> bool {
    exists|i: int|
        0 <= i < index.templates@.len() && (#[trigger] index.templates@[i]).0@ == name
            && !depended(graph, name) && (path_under(index.templates@[i].1@, vendor)
            ==> extends_another(graph, name))
}

/// Finds templates and the entries among them.
pub struct TemplateDiscovery<'a> {
    pub config: &'a Config,
}

/// Whether some template depends on `name`.
fn is_depended(graph: &DependencyGraph, name: &String) -> (r: bool)
    ensures
        r == depended(*graph, name@),
{
    let mut k: usize = 0;
    while k < graph.dependents.len()
        invariant
            k <= graph.dependents@.len(),
            forall|q: int|
                0 <= q < k ==> !((#[trigger] graph.dependents@[q]).0@ == name@
                    && graph.dependents@[q].1@.len() > 0),
        decreases graph.dependents.len() - k,
    {
        if graph.dependents[k].0 == *name && graph.dependents[k].1.len() > 0 {
            return true;
        }
        k += 1;
    }
    false
}

/// Whether the template `name` extends another.
fn has_extends(graph: &DependencyGraph, name: &String) -> (r: bool)
    ensures
        r == extends_another(*graph, name@),
{
    let mut k: usize = 0;
    while k < graph.dependencies.len()
        invariant
            k <= graph.dependencies@.len(),
            forall|q: int, j: int|
                0 <= q < k && (#[trigger] graph.dependencies@[q]).0@ == name@ && 0 <= j
                    < graph.dependencies@[q].1@.len() ==> (#[trigger] graph.dependencies@[q].1@[j]).kind
                    != DependencyType::Extends,
        decreases graph.dependencies.len() - k,
    {
        if graph.dependencies[k].0 == *name {
            let deps = &graph.dependencies[k].1;
            let mut j: usize = 0;
            while j < deps.len()
                invariant
                    k < graph.dependencies@.len(),
                    deps == &graph.dependencies@[k as int].1,
                    graph.dependencies@[k as int].0@ == name@,
                    j <= deps@.len(),
                    forall|jj: int| 0 <= jj < j ==> (#[trigger] deps@[jj]).kind != DependencyType::Extends,
                decreases deps.len() - j,
            {
                if deps[j].kind == DependencyType::Extends {
                    assert(graph.dependencies@[k as int].1@[j as int].kind == DependencyType::Extends);
                    return true;
                }
                j += 1;
            }
        }
        k += 1;
    }
    false
}

impl<'a> TemplateDiscovery<'a> {
    pub fn new(config: &'a Config) -> (r: Self)
        requires
            config.paths.primary_templates@.len() > 0,
        ensures
            r.config == config,
    {
        TemplateDiscovery { config }
    }

    /// The entry templates, in ascending order and each once: the templates
    /// nothing depends on (when discovery is on; one under the vendor
    /// directory only if it extends another) and the explicit entries.
    pub fn entries(&self, index: &TemplateIndex, graph: &DependencyGraph) -> (r: Vec<String>)
        ensures
            sorted_unique(strs(r@)),
            forall|x: Seq<char>|
                #[trigger] strs(r@).contains(x) <==> ((self.config.entry_templates.auto_discover
                    && auto_entry(*index, *graph, self.config.vendor.vendor_directory@, x)) || strs(
                    self.config.entry_templates.explicit@,
                ).contains(x)),
    {
        let vendor = self.config.vendor_path();
        let auto = self.config.entry_templates.auto_discover;
        let ghost want = |x: Seq<char>|
            (auto && auto_entry(*index, *graph, vendor@, x)) || strs(
                self.config.entry_templates.explicit@,
            ).contains(x);
        let mut entries: Vec<String> = Vec::new();
        let mut i: usize = 0;
        if auto {
            while i < index.templates.len()
                invariant
                    i <= index.templates@.len(),
                    auto,
                    sorted_unique(strs(entries@)),
                    forall|x: Seq<char>|
                        #[trigger] strs(entries@).contains(x) ==> auto_entry(*index, *graph, vendor@, x),
                    forall|q: int|
                        0 <= q < i && auto_entry(*index, *graph, vendor@, (#[trigger] index.templates@[q]).0@)
                            && !depended(*graph, index.templates@[q].0@) && (path_under(
                            index.templates@[q].1@,
                            vendor@,
                        ) ==> extends_another(*graph, index.templates@[q].0@)) ==> strs(entries@).contains(
                            index.templates@[q].0@,
                        ),
                decreases index.templates.len() - i,
            {
                let name = &index.templates[i].0;
                let path = &index.templates[i].1;
                if !is_depended(graph, name) && (!is_under(path, vendor) || has_extends(graph, name)) {
                    assert(auto_entry(*index, *graph, vendor@, name@));
                    insert_sorted(&mut entries, name.clone());
                }
                i += 1;
            }
        }
        let explicit = &self.config.entry_templates.explicit;
        let mut j: usize = 0;
        while j < explicit.len()
            invariant
                j <= explicit@.len(),
                sorted_unique(strs(entries@)),
                forall|x: Seq<char>|
                    #[trigger] strs(entries@).contains(x) ==> (auto && auto_entry(*index, *graph, vendor@, x))
                        || strs(explicit@).contains(x),
                auto ==> forall|q: int|
                    0 <= q < index.templates@.len() && !depended(*graph, (#[trigger] index.templates@[q]).0@)
                        && (path_under(index.templates@[q].1@, vendor@) ==> extends_another(
                        *graph,
                        index.templates@[q].0@,
                    )) ==> strs(entries@).contains(index.templates@[q].0@),
                forall|q: int| 0 <= q < j ==> strs(entries@).contains((#[trigger] explicit@[q])@),
            decreases explicit.len() - j,
        {
            proof {
                assert(strs(explicit@)[j as int] == explicit@[j as int]@);
            }
            insert_sorted(&mut entries, explicit[j].clone());
            j += 1;
        }
        assert forall|x: Seq<char>|
            #[trigger] strs(entries@).contains(x) <==> ((auto && auto_entry(*index, *graph, vendor@, x))
                || strs(explicit@).contains(x)) by {
            if auto && auto_entry(*index, *graph, vendor@, x) {
                let q = choose|q: int|
                    0 <= q < index.templates@.len() && (#[trigger] index.templates@[q]).0@ == x
                        && !depended(*graph, x) && (path_under(index.templates@[q].1@, vendor@)
                        ==> extends_another(*graph, x));
            }
            if strs(explicit@).contains(x) {
                let q = choose|q: int| 0 <= q < explicit@.len() && strs(explicit@)[q] == x;
                assert(explicit@[q]@ == x);
            }
        }
        entries
    }
}

} // verus!
