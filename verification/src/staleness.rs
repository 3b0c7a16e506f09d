//! Which entry templates must be compiled again: those whose own source
//! changed, and those that reach a changed template through the templates
//! they extend and include.
use vstd::prelude::*;
use crate::discovery::{strs, Dependency};

verus! {

/// The templates that a template of `from` depends on directly.
pub open spec fn step_targets(g: Seq<(String, Vec<Dependency>)>, from: Set<Seq<char>>) -> Set<Seq<char>> {
    Set::new(
        |t: Seq<char>|
            exists|k: int, j: int|
                0 <= k < g.len() && from.contains(g[k].0@) && 0 <= j < g[k].1@.len() && (
                #[trigger] g[k].1@[j]).target@ == t,
    )
}

/// The templates reachable from `start` in at most `n` steps.
pub open spec fn reach(g: Seq<(String, Vec<Dependency>)>, start: Set<Seq<char>>, n: nat) -> Set<Seq<char>>
    decreases n,
{
    if n == 0 {
        start
    } else {
        let r = reach(g, start, (n - 1) as nat);
        r.union(step_targets(g, r))
    }
}

/// How many dependencies the graph holds: no template is reachable only
/// over more steps than this.
pub open spec fn edge_count(g: Seq<(String, Vec<Dependency>)>) -> nat
    decreases g.len(),
{
    if g.len() == 0 {
        0
    } else {
        edge_count(g.drop_last()) + g.last().1@.len()
    }
}

/// Whether a template that `name` depends on, directly or through others,
/// is among `stale`.
pub open spec fn reaches_stale(
    g: Seq<(String, Vec<Dependency>)>,
    name: Seq<char>,
    stale: Set<Seq<char>>,
) -> bool {
    exists|t: Seq<char>|
        #[trigger] step_targets(g, reach(g, set![name], edge_count(g))).contains(t) && stale.contains(t)
}

pub proof fn lemma_reach_fixpoint(g: Seq<(String, Vec<Dependency>)>, start: Set<Seq<char>>, k: nat, m: nat)
    requires
        k <= m,
        reach(g, start, k + 1) == reach(g, start, k),
    ensures
        reach(g, start, m) == reach(g, start, k),
    decreases m - k,
{
    if m > k {
        lemma_reach_fixpoint(g, start, k, (m - 1) as nat);
    }
}

/// Whether a template among the first `k` of `g` that `from` holds depends
/// directly on `t`.
pub open spec fn targets_before(
    g: Seq<(String, Vec<Dependency>)>,
    k: int,
    from: Set<Seq<char>>,
    t: Seq<char>,
) -> bool {
    exists|kk: int, j: int|
        0 <= kk < k && from.contains(g[kk].0@) && 0 <= j < g[kk].1@.len() && (#[trigger] g[kk].1@[j]).target@
            == t
}

/// Whether one of `v` is `s`.
fn has_string(v: &Vec<String>, s: &String) -> (r: bool)
    ensures
        r == strs(v@).contains(s@),
{
    let r = crate::compiler::resolver::inheritance::contains_string(v, s);
    proof {
        if r {
            let j = choose|j: int| 0 <= j < v@.len() && (#[trigger] v@[j])@ == s@;
            assert(strs(v@)[j] == s@);
        }
    }
    r
}

/// `current` with the templates its members depend on directly added.
fn expand(g: &Vec<(String, Vec<Dependency>)>, current: &Vec<String>) -> (r: Vec<String>)
    ensures
        strs(r@).to_set() == strs(current@).to_set().union(step_targets(g@, strs(current@).to_set())),
        strs(r@).len() >= strs(current@).len(),
        strs(r@).len() == strs(current@).len() ==> strs(r@).to_set() == strs(current@).to_set(),
{
    let ghost cs = strs(current@).to_set();
    let mut out: Vec<String> = Vec::new();
    let mut i: usize = 0;
    while i < current.len()
        invariant
            i <= current@.len(),
            strs(out@) == strs(current@).take(i as int),
        decreases current.len() - i,
    {
        let c = current[i].clone();
        let ghost before = strs(out@);
        out.push(c);
        assert(strs(out@) =~= before.push(c@));
        assert(strs(current@).take(i + 1) =~= strs(current@).take(i as int).push(current@[i as int]@));
        assert(strs(out@) =~= strs(current@).take(i + 1));
        i += 1;
    }
    assert(strs(current@).take(i as int) =~= strs(current@));
    let mut k: usize = 0;
    while k < g.len()
        invariant
            k <= g@.len(),
            cs == strs(current@).to_set(),
            strs(out@).len() >= strs(current@).len(),
            strs(out@).take(strs(current@).len() as int) == strs(current@),
            forall|x: Seq<char>|
                #[trigger] strs(out@).contains(x) <==> (cs.contains(x) || targets_before(g@, k as int, cs, x)),
        decreases g.len() - k,
    {
        if has_string(current, &g[k].0) {
            let deps = &g[k].1;
            let mut j: usize = 0;
            while j < deps.len()
                invariant
                    k < g@.len(),
                    deps == &g@[k as int].1,
                    cs.contains(g@[k as int].0@),
                    cs == strs(current@).to_set(),
                    j <= deps@.len(),
                    strs(out@).len() >= strs(current@).len(),
                    strs(out@).take(strs(current@).len() as int) == strs(current@),
                    forall|x: Seq<char>|
                        #[trigger] strs(out@).contains(x) <==> (cs.contains(x) || targets_before(g@, k as int, cs, x)
                            || crate::discovery::targets_in(deps@, j as int, x)),
                decreases deps.len() - j,
            {
                let t = &deps[j].target;
                if !has_string(&out, t) {
                    let ghost before = strs(out@);
                    out.push(t.clone());
                    assert(strs(out@) =~= before.push(t@));
                    assert(strs(out@).take(strs(current@).len() as int) =~= before.take(
                        strs(current@).len() as int,
                    ));
                    assert forall|x: Seq<char>|
                        #[trigger] strs(out@).contains(x) <==> (before.contains(x) || x == t@) by {
                        if x == t@ {
                            assert(strs(out@)[before.len() as int] == x);
                        }
                        if before.contains(x) {
                            let q = choose|q: int| 0 <= q < before.len() && before[q] == x;
                            assert(strs(out@)[q] == x);
                        }
                    }
                }
                assert forall|x: Seq<char>|
                    #[trigger] crate::discovery::targets_in(deps@, j + 1, x) <==> (crate::discovery::targets_in(deps@, j as int, x) || x == t@) by {
                    if x == t@ {
                        assert(deps@[j as int].target@ == x);
                    }
                }
                j += 1;
            }
            assert forall|x: Seq<char>|
                #[trigger] targets_before(g@, k + 1, cs, x) <==> (targets_before(g@, k as int, cs, x)
                    || crate::discovery::targets_in(deps@, deps@.len() as int, x)) by {
                if targets_before(g@, k + 1, cs, x) {
                    let (kk, jj) = choose|kk: int, jj: int|
                        0 <= kk < k + 1 && cs.contains(g@[kk].0@) && 0 <= jj < g@[kk].1@.len() && (
                        #[trigger] g@[kk].1@[jj]).target@ == x;
                    if kk == k {
                        assert(deps@[jj].target@ == x);
                    }
                }
                if crate::discovery::targets_in(deps@, deps@.len() as int, x) {
                    let jj = choose|jj: int| 0 <= jj < deps@.len() && (#[trigger] deps@[jj]).target@ == x;
                    assert(g@[k as int].1@[jj].target@ == x);
                }
            }
        } else {
            assert forall|x: Seq<char>|
                #[trigger] targets_before(g@, k + 1, cs, x) <==> targets_before(g@, k as int, cs, x) by {
                if targets_before(g@, k + 1, cs, x) {
                    let (kk, jj) = choose|kk: int, jj: int|
                        0 <= kk < k + 1 && cs.contains(g@[kk].0@) && 0 <= jj < g@[kk].1@.len() && (
                        #[trigger] g@[kk].1@[jj]).target@ == x;
                    if kk == k {
                        assert(strs(current@).contains(g@[k as int].0@));
                    }
                }
            }
        }
        k += 1;
    }
    assert(strs(out@).to_set() =~= cs.union(step_targets(g@, cs)));
    proof {
        if strs(out@).len() == strs(current@).len() {
            assert(strs(out@) =~= strs(current@));
        }
    }
    out
}

/// How many dependencies the first `k` templates of `g` hold.
fn count_edges(g: &Vec<(String, Vec<Dependency>)>) -> (r: usize)
    requires
        edge_count(g@) <= usize::MAX,
    ensures
        r == edge_count(g@),
{
    let mut total: usize = 0;
    let mut k: usize = 0;
    assert(g@.take(0) =~= Seq::<(String, Vec<Dependency>)>::empty());
    while k < g.len()
        invariant
            k <= g@.len(),
            total == edge_count(g@.take(k as int)),
            edge_count(g@) <= usize::MAX,
        decreases g.len() - k,
    {
        assert(g@.take(k + 1).drop_last() =~= g@.take(k as int));
        proof {
            lemma_edge_count_prefix(g@, k + 1);
        }
        total = total + g[k].1.len();
        k += 1;
    }
    assert(g@.take(k as int) =~= g@);
    total
}

pub proof fn lemma_edge_count_prefix(g: Seq<(String, Vec<Dependency>)>, k: int)
    requires
        0 <= k <= g.len(),
    ensures
        edge_count(g.take(k)) <= edge_count(g),
    decreases g.len() - k,
{
    if k < g.len() {
        lemma_edge_count_prefix(g, k + 1);
        assert(g.take(k + 1).drop_last() =~= g.take(k));
    } else {
        assert(g.take(k) =~= g);
    }
}

/// Whether a template that a member of `current` depends on directly is
/// among `stale`.
fn steps_to_stale(g: &Vec<(String, Vec<Dependency>)>, current: &Vec<String>, stale: &Vec<String>) -> (r: bool)
    ensures
        r == exists|t: Seq<char>|
            #[trigger] step_targets(g@, strs(current@).to_set()).contains(t) && strs(stale@).to_set().contains(t),
{
    let ghost cs = strs(current@).to_set();
    let ghost ss = strs(stale@).to_set();
    let mut k: usize = 0;
    while k < g.len()
        invariant
            k <= g@.len(),
            cs == strs(current@).to_set(),
            ss == strs(stale@).to_set(),
            forall|x: Seq<char>| #[trigger] targets_before(g@, k as int, cs, x) ==> !ss.contains(x),
        decreases g.len() - k,
    {
        if has_string(current, &g[k].0) {
            let deps = &g[k].1;
            let mut j: usize = 0;
            while j < deps.len()
                invariant
                    k < g@.len(),
                    deps == &g@[k as int].1,
                    cs.contains(g@[k as int].0@),
                    cs == strs(current@).to_set(),
                    ss == strs(stale@).to_set(),
                    j <= deps@.len(),
                    forall|x: Seq<char>| #[trigger] targets_before(g@, k as int, cs, x) ==> !ss.contains(x),
                    forall|jj: int| 0 <= jj < j ==> !ss.contains((#[trigger] deps@[jj]).target@),
                decreases deps.len() - j,
            {
                if has_string(stale, &deps[j].target) {
                    let ghost t = deps@[j as int].target@;
                    assert(g@[k as int].1@[j as int].target@ == t);
                    assert(step_targets(g@, cs).contains(t));
                    return true;
                }
                j += 1;
            }
            assert forall|x: Seq<char>| #[trigger] targets_before(g@, k + 1, cs, x) implies !ss.contains(x) by {
                let (kk, jj) = choose|kk: int, jj: int|
                    0 <= kk < k + 1 && cs.contains(g@[kk].0@) && 0 <= jj < g@[kk].1@.len() && (
                    #[trigger] g@[kk].1@[jj]).target@ == x;
                if kk < k {
                    assert(targets_before(g@, k as int, cs, x));
                } else {
                    assert(deps@[jj].target@ == x);
                }
            }
        } else {
            assert forall|x: Seq<char>| #[trigger] targets_before(g@, k + 1, cs, x) implies !ss.contains(x) by {
                let (kk, jj) = choose|kk: int, jj: int|
                    0 <= kk < k + 1 && cs.contains(g@[kk].0@) && 0 <= jj < g@[kk].1@.len() && (
                    #[trigger] g@[kk].1@[jj]).target@ == x;
                if kk < k {
                    assert(targets_before(g@, k as int, cs, x));
                } else {
                    assert(strs(current@).contains(g@[k as int].0@));
                }
            }
        }
        k += 1;
    }
    assert forall|t: Seq<char>| #[trigger] step_targets(g@, cs).contains(t) implies !ss.contains(t) by {
        assert(targets_before(g@, g@.len() as int, cs, t));
    }
    false
}

/// Whether a template that `name` depends on, directly or through the
/// templates it depends on, is among `stale`.
pub fn has_stale(name: &String, graph: &crate::discovery::DependencyGraph, stale: &Vec<String>) -> (r: bool)
    requires
        edge_count(graph.dependencies@) <= usize::MAX,
    ensures
        r == reaches_stale(graph.dependencies@, name@, strs(stale@).to_set()),
{
    let g = &graph.dependencies;
    let ghost start = set![name@];
    let total = count_edges(g);
    let mut current: Vec<String> = Vec::new();
    current.push(name.clone());
    assert(strs(current@) =~= seq![name@]);
    assert forall|x: Seq<char>| strs(current@).to_set().contains(x) <==> start.contains(x) by {
        if x == name@ {
            assert(strs(current@)[0] == x);
        }
    }
    assert(strs(current@).to_set() =~= start);
    let mut n: usize = 0;
    while n < total
        invariant
            n <= total,
            total == edge_count(g@),
            strs(current@).to_set() == reach(g@, start, n as nat),
        ensures
            strs(current@).to_set() == reach(g@, start, total as nat),
        decreases total - n,
    {
        let next = expand(g, &current);
        if next.len() == current.len() {
            proof {
                lemma_reach_fixpoint(g@, start, n as nat, total as nat);
            }
            n = total;
            break;
        }
        current = next;
        n += 1;
    }
    steps_to_stale(g, &current, stale)
}

/// The entry templates to compile again: those among `stale` and those
/// that reach one of `stale`, in their order.
pub open spec fn stale_entries(
    entries: Seq<Seq<char>>,
    g: Seq<(String, Vec<Dependency>)>,
    stale: Set<Seq<char>>,
) -> Seq<Seq<char>>
    decreases entries.len(),
{
    if entries.len() == 0 {
        seq![]
    } else {
        let rest = stale_entries(entries.drop_last(), g, stale);
        let e = entries.last();
        if stale.contains(e) || reaches_stale(g, e, stale) {
            rest.push(e)
        } else {
            rest
        }
    }
}

/// The entry templates to compile again, given the templates whose own
/// sources changed.
pub fn find_stale(entries: &Vec<String>, graph: &crate::discovery::DependencyGraph, stale: &Vec<String>) -> (r: Vec<String>)
    requires
        edge_count(graph.dependencies@) <= usize::MAX,
    ensures
        strs(r@) == stale_entries(strs(entries@), graph.dependencies@, strs(stale@).to_set()),
{
    let ghost es = strs(entries@);
    let mut out: Vec<String> = Vec::new();
    let mut i: usize = 0;
    assert(es.take(0) =~= Seq::<Seq<char>>::empty());
    while i < entries.len()
        invariant
            i <= entries@.len(),
            es == strs(entries@),
            edge_count(graph.dependencies@) <= usize::MAX,
            strs(out@) == stale_entries(es.take(i as int), graph.dependencies@, strs(stale@).to_set()),
        decreases entries.len() - i,
    {
        assert(es.take(i + 1).drop_last() =~= es.take(i as int));
        let e = &entries[i];
        if has_string(stale, e) || has_stale(e, graph, stale) {
            let ghost before = strs(out@);
            out.push(e.clone());
            assert(strs(out@) =~= before.push(e@));
        }
        i += 1;
    }
    assert(es.take(i as int) =~= es);
    out
}

} // verus!
