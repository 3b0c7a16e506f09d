//! What merging an inheritance chain means: block contents are taken from
//! the most derived template that defines them, `{{ block.super }}` pulls in
//! the parent's content, `extends` tags disappear and `load` tags of every
//! template in the chain are kept once.
use vstd::prelude::*;
use crate::compiler::ast::{ElifModel, NodeModel};
use crate::compiler::syntax::is_super;
use crate::compiler::walk::walk;

verus! {

pub const BLOCK_NESTING_DEPTH_MAX: u32 = 32;

pub const EXTRACT_ITERATIONS_MAX: u32 = 500_000;

pub const REPLACE_NODES_MAX: u32 = 500_000;

pub const MERGE_ENTRIES_MAX: u32 = 10_000;

pub const SPLICE_NODES_MAX: u32 = 100_000;

pub const AST_DEPTH_MAX: u32 = 128;

pub const INJECT_ITERATIONS_MAX: u32 = 10_000;

pub const COLLECT_LOADS_ITERATIONS_MAX: u32 = 500_000;

/// A block map: `(name, content)` entries; the last entry for a name wins.
pub type Entries = Seq<(Seq<char>, Seq<NodeModel>)>;

/// The outcome of merging: a result, the nesting limit hit, or an abort
/// where the resolver gives up altogether (one of its size limits).
pub enum Merged<T> {
    Done(T),
    TooDeep,
    Abort,
}

/// The parent path of the first `extends` node of `ns` from index `i` on.
pub open spec fn extends_from(ns: Seq<NodeModel>, i: int) -> Option<Seq<char>>
    decreases ns.len() - i,
{
    if i < 0 || i >= ns.len() {
        None
    } else {
        match ns[i] {
            NodeModel::Extends { parent_path, .. } => Some(parent_path),
            _ => extends_from(ns, i + 1),
        }
    }
}

/// The parent path of the first `extends` node of `ns`.
pub open spec fn extends_of(ns: Seq<NodeModel>) -> Option<Seq<char>> {
    extends_from(ns, 0)
}

/// `(name, content)` of the blocks among `ws`, in order.
pub open spec fn block_entries(ws: Seq<NodeModel>) -> Entries
    decreases ws.len(),
{
    if ws.len() == 0 {
        seq![]
    } else {
        let rest = block_entries(ws.drop_last());
        match ws.last() {
            NodeModel::Block { name, content, .. } => rest.push((name, content)),
            _ => rest,
        }
    }
}

/// The blocks of a tree, in the order the traversal meets them.
pub open spec fn blocks_of(ns: Seq<NodeModel>) -> Entries {
    block_entries(walk(ns))
}

/// The content the last entry for `name` holds.
pub open spec fn lookup(es: Entries, name: Seq<char>) -> Option<Seq<NodeModel>>
    decreases es.len(),
{
    if es.len() == 0 {
        None
    } else if es.last().0 == name {
        Some(es.last().1)
    } else {
        lookup(es.drop_last(), name)
    }
}

/// How many distinct names the first `k` entries of `es` hold, counting each
/// name at its last entry.
pub open spec fn names_up_to(es: Entries, k: int) -> nat
    decreases k,
{
    if k <= 0 || k > es.len() {
        0
    } else {
        names_up_to(es, k - 1) + if is_last_for_name(es, k - 1) {
            1nat
        } else {
            0nat
        }
    }
}

/// How many distinct names `es` holds.
pub open spec fn name_count(es: Entries) -> nat {
    names_up_to(es, es.len() as int)
}

/// Whether `content` refers to `{{ block.super }}`.
pub open spec fn has_super_ref(content: Seq<NodeModel>) -> bool {
    exists|i: int| 0 <= i < content.len() && is_super(#[trigger] content[i])
}

/// `content` with each `{{ block.super }}` replaced by `parent`.
pub open spec fn splice(content: Seq<NodeModel>, parent: Seq<NodeModel>) -> Seq<NodeModel>
    decreases content.len(),
{
    if content.len() == 0 {
        seq![]
    } else {
        splice(content.drop_last(), parent) + if is_super(content.last()) {
            parent
        } else {
            seq![content.last()]
        }
    }
}

/// The content a child block ends up with: its own, with `block.super`
/// spliced from the parent's block of that name when there is one.
pub open spec fn child_content(parent: Entries, name: Seq<char>, content: Seq<NodeModel>) -> Seq<
    NodeModel,
> {
    if has_super_ref(content) {
        match lookup(parent, name) {
            Some(p) => splice(content, p),
            None => content,
        }
    } else {
        content
    }
}

/// Whether entry `i` of `es` is the last one for its name.
pub open spec fn is_last_for_name(es: Entries, i: int) -> bool {
    forall|j: int| i < j < es.len() ==> #[trigger] es[j].0 != es[i].0
}

/// The child entries among the first `k`, one per name (its last entry),
/// with the content the merged map holds for them.
pub open spec fn child_part(parent: Entries, child: Entries, k: int) -> Entries
    decreases k,
{
    if k <= 0 || k > child.len() {
        seq![]
    } else {
        let rest = child_part(parent, child, k - 1);
        let e = child[k - 1];
        if is_last_for_name(child, k - 1) {
            rest.push((e.0, child_content(parent, e.0, e.1)))
        } else {
            rest
        }
    }
}

/// The merged block map: the parent's entries, then the child's.
pub open spec fn merged_entries(parent: Entries, child: Entries) -> Entries {
    parent + child_part(parent, child, child.len() as int)
}

/// The merger's size limits hold for the two block maps.
pub open spec fn merge_ok(parent: Entries, child: Entries) -> bool {
    &&& name_count(parent) <= MERGE_ENTRIES_MAX
    &&& name_count(child) <= MERGE_ENTRIES_MAX
    &&& forall|i: int|
        0 <= i < child.len() && is_last_for_name(child, i) && has_super_ref(#[trigger] child[i].1)
            ==> child[i].0.len() > 0 && match lookup(parent, child[i].0) {
            Some(p) => child[i].1.len() + p.len() <= SPLICE_NODES_MAX,
            None => true,
        }
}

/// The block extractor's size limits hold for `ns`.
pub open spec fn extract_ok(ns: Seq<NodeModel>) -> bool {
    ns.len() <= REPLACE_NODES_MAX && walk(ns).len() <= EXTRACT_ITERATIONS_MAX
}

/// `ns` with each block's content replaced by the map's content for its
/// name (or kept), recursively, and `extends` nodes dropped.
pub open spec fn replace_list(ns: Seq<NodeModel>, m: Entries, depth: int) -> Merged<Seq<NodeModel>>
    decreases AST_DEPTH_MAX + 1 - depth, 2nat, 0nat,
{
    if depth > AST_DEPTH_MAX {
        Merged::TooDeep
    } else if ns.len() > REPLACE_NODES_MAX {
        Merged::Abort
    } else {
        replace_from(ns, m, depth, 0, seq![])
    }
}

pub open spec fn replace_from(
    ns: Seq<NodeModel>,
    m: Entries,
    depth: int,
    i: int,
    acc: Seq<NodeModel>,
) -> Merged<Seq<NodeModel>>
    decreases AST_DEPTH_MAX + 1 - depth, 1nat, ns.len() - i,
{
    if i < 0 || i >= ns.len() || depth < 0 || depth > AST_DEPTH_MAX {
        Merged::Done(acc)
    } else {
        match ns[i] {
            NodeModel::Block { raw, name, content, has_super_reference } => {
                let source = match lookup(m, name) {
                    Some(c) => c,
                    None => content,
                };
                match replace_list(source, m, depth + 1) {
                    Merged::Done(c2) => replace_from(
                        ns,
                        m,
                        depth,
                        i + 1,
                        acc.push(NodeModel::Block { raw, name, content: c2, has_super_reference }),
                    ),
                    Merged::TooDeep => Merged::TooDeep,
                    Merged::Abort => Merged::Abort,
                }
            },
            NodeModel::Extends { .. } => replace_from(ns, m, depth, i + 1, acc),
            n => match replace_children(n, m, depth) {
                Merged::Done(n2) => replace_from(ns, m, depth, i + 1, acc.push(n2)),
                Merged::TooDeep => Merged::TooDeep,
                Merged::Abort => Merged::Abort,
            },
        }
    }
}

/// `o` with its list replaced.
pub open spec fn replace_opt(o: Option<Seq<NodeModel>>, m: Entries, depth: int) -> Merged<
    Option<Seq<NodeModel>>,
>
    decreases AST_DEPTH_MAX + 1 - depth, 3nat, 0nat,
{
    match o {
        None => Merged::Done(None),
        Some(b) => match replace_list(b, m, depth) {
            Merged::Done(b2) => Merged::Done(Some(b2)),
            Merged::TooDeep => Merged::TooDeep,
            Merged::Abort => Merged::Abort,
        },
    }
}

/// The elif branches from index `i` on, their bodies replaced.
pub open spec fn replace_elifs(es: Seq<ElifModel>, m: Entries, depth: int, i: int, acc: Seq<ElifModel>) -> Merged<
    Seq<ElifModel>,
>
    decreases AST_DEPTH_MAX + 1 - depth, 3nat, es.len() - i,
{
    if i < 0 || i >= es.len() {
        Merged::Done(acc)
    } else {
        match replace_list(es[i].body, m, depth) {
            Merged::Done(b2) => replace_elifs(
                es,
                m,
                depth,
                i + 1,
                acc.push(ElifModel { condition: es[i].condition, body: b2 }),
            ),
            Merged::TooDeep => Merged::TooDeep,
            Merged::Abort => Merged::Abort,
        }
    }
}

/// A node (not a block) with the lists under it replaced.
pub open spec fn replace_children(n: NodeModel, m: Entries, depth: int) -> Merged<NodeModel>
    decreases AST_DEPTH_MAX + 1 - depth, 0nat, 0nat,
{
    if depth < 0 || depth > AST_DEPTH_MAX {
        Merged::Done(n)
    } else {
        let d = depth + 1;
        match n {
            NodeModel::If { raw, condition, true_branch, elif_branches, else_branch } => match replace_list(
                true_branch,
                m,
                d,
            ) {
                Merged::Done(t2) => match replace_elifs(elif_branches, m, d, 0, seq![]) {
                    Merged::Done(e2) => match replace_opt(else_branch, m, d) {
                        Merged::Done(o2) => Merged::Done(
                            NodeModel::If {
                                raw,
                                condition,
                                true_branch: t2,
                                elif_branches: e2,
                                else_branch: o2,
                            },
                        ),
                        Merged::TooDeep => Merged::TooDeep,
                        Merged::Abort => Merged::Abort,
                    },
                    Merged::TooDeep => Merged::TooDeep,
                    Merged::Abort => Merged::Abort,
                },
                Merged::TooDeep => Merged::TooDeep,
                Merged::Abort => Merged::Abort,
            },
            NodeModel::For { raw, variable, iterable, body, empty_branch } => match replace_list(
                body,
                m,
                d,
            ) {
                Merged::Done(b2) => match replace_opt(empty_branch, m, d) {
                    Merged::Done(o2) => Merged::Done(
                        NodeModel::For { raw, variable, iterable, body: b2, empty_branch: o2 },
                    ),
                    Merged::TooDeep => Merged::TooDeep,
                    Merged::Abort => Merged::Abort,
                },
                Merged::TooDeep => Merged::TooDeep,
                Merged::Abort => Merged::Abort,
            },
            NodeModel::Ifchanged { raw, condition, true_branch, else_branch } => match replace_list(
                true_branch,
                m,
                d,
            ) {
                Merged::Done(t2) => match replace_opt(else_branch, m, d) {
                    Merged::Done(o2) => Merged::Done(
                        NodeModel::Ifchanged { raw, condition, true_branch: t2, else_branch: o2 },
                    ),
                    Merged::TooDeep => Merged::TooDeep,
                    Merged::Abort => Merged::Abort,
                },
                Merged::TooDeep => Merged::TooDeep,
                Merged::Abort => Merged::Abort,
            },
            _ => match body_of(n) {
                Some(b) => match replace_list(b, m, d) {
                    Merged::Done(b2) => Merged::Done(with_body(n, b2)),
                    Merged::TooDeep => Merged::TooDeep,
                    Merged::Abort => Merged::Abort,
                },
                None => Merged::Done(n),
            },
        }
    }
}

/// The single body of a node that has exactly one child list.
pub open spec fn body_of(n: NodeModel) -> Option<Seq<NodeModel>> {
    match n {
        NodeModel::Block { content, .. } => Some(content),
        NodeModel::With { body, .. } => Some(body),
        NodeModel::Autoescape { body, .. } => Some(body),
        NodeModel::Blocktranslate { body, .. } => Some(body),
        NodeModel::Language { body, .. } => Some(body),
        NodeModel::FilterBlock { body, .. } => Some(body),
        NodeModel::Cache { body, .. } => Some(body),
        NodeModel::Localize { body, .. } => Some(body),
        NodeModel::Localtime { body, .. } => Some(body),
        NodeModel::Spaceless { body, .. } => Some(body),
        NodeModel::Timezone { body, .. } => Some(body),
        NodeModel::Utc { body, .. } => Some(body),
        _ => None,
    }
}

/// `n` with its single body set to `b`.
pub open spec fn with_body(n: NodeModel, b: Seq<NodeModel>) -> NodeModel {
    match n {
        NodeModel::Block { raw, name, has_super_reference, .. } => NodeModel::Block {
            raw,
            name,
            content: b,
            has_super_reference,
        },
        NodeModel::With { raw, bindings, .. } => NodeModel::With { raw, bindings, body: b },
        NodeModel::Autoescape { raw, value, .. } => NodeModel::Autoescape { raw, value, body: b },
        NodeModel::Blocktranslate { raw, modifiers, .. } => NodeModel::Blocktranslate {
            raw,
            body: b,
            modifiers,
        },
        NodeModel::Language { raw, language, .. } => NodeModel::Language { raw, language, body: b },
        NodeModel::FilterBlock { raw, filter, .. } => NodeModel::FilterBlock { raw, filter, body: b },
        NodeModel::Cache { raw, timeout, name, .. } => NodeModel::Cache { raw, timeout, name, body: b },
        NodeModel::Localize { raw, value, .. } => NodeModel::Localize { raw, value, body: b },
        NodeModel::Localtime { raw, value, .. } => NodeModel::Localtime { raw, value, body: b },
        NodeModel::Spaceless { raw, .. } => NodeModel::Spaceless { raw, body: b },
        NodeModel::Timezone { raw, timezone, .. } => NodeModel::Timezone { raw, timezone, body: b },
        NodeModel::Utc { raw, .. } => NodeModel::Utc { raw, body: b },
        _ => n,
    }
}

/// One merge step: the blocks of `child` merged into `resolved`.
pub open spec fn merge_step(resolved: Seq<NodeModel>, child: Seq<NodeModel>) -> Merged<Seq<NodeModel>> {
    if !extract_ok(child) || !extract_ok(resolved) {
        Merged::Abort
    } else {
        let parent = blocks_of(resolved);
        let kid = blocks_of(child);
        if !merge_ok(parent, kid) {
            Merged::Abort
        } else {
            let m = merged_entries(parent, kid);
            if resolved.len() > REPLACE_NODES_MAX || name_count(m) > MERGE_ENTRIES_MAX {
                Merged::Abort
            } else {
                replace_list(resolved, m, 0)
            }
        }
    }
}

/// The chain merged from the root ancestor down to `chain[0]`: `resolved`
/// is the merge of `chain[k..]`.
pub open spec fn merge_down(chain: Seq<Seq<NodeModel>>, k: int, resolved: Seq<NodeModel>) -> Merged<
    Seq<NodeModel>,
>
    decreases k,
{
    if k <= 0 || k > chain.len() {
        Merged::Done(resolved)
    } else {
        match merge_step(resolved, chain[k - 1]) {
            Merged::Done(r2) => merge_down(chain, k - 1, r2),
            Merged::TooDeep => Merged::TooDeep,
            Merged::Abort => Merged::Abort,
        }
    }
}

/// The libraries of a load node.
pub open spec fn load_libraries(n: NodeModel) -> Option<Seq<Seq<char>>> {
    match n {
        NodeModel::Load { libraries, .. } => Some(libraries),
        _ => None,
    }
}

/// Whether one of `ns` is a load node of the libraries `l`.
pub open spec fn loads_libraries(ns: Seq<NodeModel>, l: Seq<Seq<char>>) -> bool {
    exists|j: int| 0 <= j < ns.len() && load_libraries(#[trigger] ns[j]) == Some(l)
}

/// The load nodes of `ns`, each set of libraries once, first come first kept.
pub open spec fn collect_list(ns: Seq<NodeModel>) -> Seq<NodeModel>
    decreases ns.len(),
{
    if ns.len() == 0 {
        seq![]
    } else {
        let acc = collect_list(ns.drop_last());
        let n = ns.last();
        match load_libraries(n) {
            Some(l) => if loads_libraries(acc, l) {
                acc
            } else {
                acc.push(n)
            },
            None => acc,
        }
    }
}

/// The top-level nodes of every template of the chain, in order.
pub open spec fn chain_nodes(chain: Seq<Seq<NodeModel>>) -> Seq<NodeModel>
    decreases chain.len(),
{
    if chain.len() == 0 {
        seq![]
    } else {
        chain_nodes(chain.drop_last()) + chain.last()
    }
}

/// The load nodes of the chain, each set of libraries once, first come
/// first kept.
pub open spec fn collect_loads_spec(chain: Seq<Seq<NodeModel>>) -> Seq<NodeModel> {
    collect_list(chain_nodes(chain))
}

/// The loads of `loads` whose libraries no top-level load of `resolved` has.
pub open spec fn missing_loads(resolved: Seq<NodeModel>, loads: Seq<NodeModel>) -> Seq<NodeModel>
    decreases loads.len(),
{
    if loads.len() == 0 {
        seq![]
    } else {
        let rest = missing_loads(resolved, loads.drop_last());
        match load_libraries(loads.last()) {
            Some(l) => if loads_libraries(resolved, l) {
                rest
            } else {
                rest.push(loads.last())
            },
            None => rest,
        }
    }
}

/// Index of the first load node of `ns` from `i` on.
pub open spec fn first_load_from(ns: Seq<NodeModel>, i: int) -> Option<int>
    decreases ns.len() - i,
{
    if i < 0 || i >= ns.len() {
        None
    } else if ns[i] is Load {
        Some(i)
    } else {
        first_load_from(ns, i + 1)
    }
}

/// Index of the first node of `ns` from `i` on that is not text.
pub open spec fn first_non_text_from(ns: Seq<NodeModel>, i: int) -> Option<int>
    decreases ns.len() - i,
{
    if i < 0 || i >= ns.len() {
        None
    } else if !(ns[i] is Text) {
        Some(i)
    } else {
        first_non_text_from(ns, i + 1)
    }
}

/// Where the loads go: before the first load node, else before the first
/// node that is not text, else at the start.
pub open spec fn inject_offset(ns: Seq<NodeModel>) -> int {
    match first_load_from(ns, 0) {
        Some(i) => i,
        None => match first_non_text_from(ns, 0) {
            Some(i) => i,
            None => 0,
        },
    }
}

/// `resolved` with the missing loads inserted at the offset.
pub open spec fn inject_spec(resolved: Seq<NodeModel>, loads: Seq<NodeModel>) -> Seq<NodeModel> {
    let inject = missing_loads(resolved, loads);
    if inject.len() == 0 {
        resolved
    } else {
        let k = inject_offset(resolved);
        resolved.take(k) + inject + resolved.skip(k)
    }
}

/// The merge of a whole chain (`chain[0]` the template, the last entry its
/// root ancestor), loads injected.
pub open spec fn merge_chain_spec(chain: Seq<Seq<NodeModel>>) -> Merged<Seq<NodeModel>> {
    let loads = collect_loads_spec(chain);
    if chain.len() == 0 || chain.len() > BLOCK_NESTING_DEPTH_MAX || chain_nodes(chain).len()
        > COLLECT_LOADS_ITERATIONS_MAX {
        Merged::Abort
    } else {
        match merge_down(chain, chain.len() - 1, chain.last()) {
            Merged::Done(r) => if loads.len() > INJECT_ITERATIONS_MAX {
                Merged::Abort
            } else {
                Merged::Done(inject_spec(r, loads))
            },
            other => other,
        }
    }
}

pub proof fn lemma_lookup_append_none(a: Entries, b: Entries, name: Seq<char>)
    requires
        lookup(b, name) is None,
    ensures
        lookup(a + b, name) == lookup(a, name),
    decreases b.len(),
{
    if b.len() == 0 {
        assert(a + b =~= a);
    } else {
        assert((a + b).drop_last() =~= a + b.drop_last());
        lemma_lookup_append_none(a, b.drop_last(), name);
    }
}

pub proof fn lemma_child_part_lookup(p: Entries, c: Entries, k: int, name: Seq<char>)
    requires
        0 <= k <= c.len(),
        forall|j: int| 0 <= j < k && is_last_for_name(c, j) ==> #[trigger] c[j].0 != name,
    ensures
        lookup(child_part(p, c, k), name) is None,
    decreases k,
{
    if k > 0 {
        lemma_child_part_lookup(p, c, k - 1, name);
        let rest = child_part(p, c, k - 1);
        let e = c[k - 1];
        if is_last_for_name(c, k - 1) {
            assert(rest.push((e.0, child_content(p, e.0, e.1))).drop_last() =~= rest);
        }
    }
}

pub proof fn lemma_lookup_append_some(a: Entries, b: Entries, name: Seq<char>)
    requires
        lookup(b, name) is Some,
    ensures
        lookup(a + b, name) == lookup(b, name),
    decreases b.len(),
{
    assert((a + b).last() == b.last());
    if b.last().0 != name {
        assert((a + b).drop_last() =~= a + b.drop_last());
        lemma_lookup_append_some(a, b.drop_last(), name);
    }
}

/// Where `lookup` finds its answer: the last entry of that name.
pub proof fn lemma_lookup_index(es: Entries, name: Seq<char>) -> (i: int)
    requires
        lookup(es, name) is Some,
    ensures
        0 <= i < es.len(),
        es[i].0 == name,
        lookup(es, name) == Some(es[i].1),
        is_last_for_name(es, i),
    decreases es.len(),
{
    if es.last().0 == name {
        (es.len() - 1) as int
    } else {
        let i = lemma_lookup_index(es.drop_last(), name);
        assert forall|j: int| i < j < es.len() implies #[trigger] es[j].0 != es[i].0 by {
            if j < es.len() - 1 {
                assert(es.drop_last()[j] == es[j]);
            }
        }
        i
    }
}

/// No entry of `es` has a name `lookup` does not find.
pub proof fn lemma_lookup_none(es: Entries, name: Seq<char>)
    requires
        lookup(es, name) is None,
    ensures
        forall|j: int| 0 <= j < es.len() ==> #[trigger] es[j].0 != name,
    decreases es.len(),
{
    if es.len() > 0 {
        lemma_lookup_none(es.drop_last(), name);
        assert forall|j: int| 0 <= j < es.len() implies #[trigger] es[j].0 != name by {
            if j < es.len() - 1 {
                assert(es.drop_last()[j] == es[j]);
            }
        }
    }
}

pub proof fn lemma_child_part_after(p: Entries, c: Entries, k: int, i: int, name: Seq<char>)
    requires
        0 <= i < k <= c.len(),
        c[i].0 == name,
        is_last_for_name(c, i),
    ensures
        lookup(child_part(p, c, k), name) == Some(child_content(p, name, c[i].1)),
    decreases k,
{
    let rest = child_part(p, c, k - 1);
    let e = c[k - 1];
    if k - 1 > i {
        lemma_child_part_after(p, c, k - 1, i, name);
        if is_last_for_name(c, k - 1) {
            assert(e.0 != name);
            assert(rest.push((e.0, child_content(p, e.0, e.1))).drop_last() =~= rest);
        }
    }
}

/// A block of the merged map holds the child's content for that name when
/// the child defines it (with `{{ block.super }}` spliced from the parent),
/// else the parent's.
pub proof fn law_merged_block(parent: Entries, child: Entries, name: Seq<char>)
    ensures
        lookup(merged_entries(parent, child), name) == match lookup(child, name) {
            Some(content) => Some(child_content(parent, name, content)),
            None => lookup(parent, name),
        },
{
    let cp = child_part(parent, child, child.len() as int);
    match lookup(child, name) {
        Some(content) => {
            let i = lemma_lookup_index(child, name);
            lemma_child_part_after(parent, child, child.len() as int, i, name);
            lemma_lookup_append_some(parent, cp, name);
        },
        None => {
            lemma_lookup_none(child, name);
            lemma_child_part_lookup(parent, child, child.len() as int, name);
            lemma_lookup_append_none(parent, cp, name);
        },
    }
}

pub proof fn lemma_collect_list(ns: Seq<NodeModel>)
    ensures
        forall|i: int| 0 <= i < collect_list(ns).len() ==> (#[trigger] collect_list(ns)[i]) is Load,
        forall|i: int, j: int|
            0 <= i < j < collect_list(ns).len() ==> load_libraries(#[trigger] collect_list(ns)[i])
                != load_libraries(#[trigger] collect_list(ns)[j]),
        forall|i: int|
            0 <= i < ns.len() && (#[trigger] ns[i]) is Load ==> loads_libraries(
                collect_list(ns),
                load_libraries(ns[i])->0,
            ),
    decreases ns.len(),
{
    if ns.len() > 0 {
        let prev = ns.drop_last();
        lemma_collect_list(prev);
        let acc = collect_list(prev);
        let n = ns.last();
        let out = collect_list(ns);
        assert forall|i: int| 0 <= i < ns.len() && (#[trigger] ns[i]) is Load implies loads_libraries(
            out,
            load_libraries(ns[i])->0,
        ) by {
            if i < ns.len() - 1 {
                assert(prev[i] == ns[i]);
                let l = load_libraries(ns[i])->0;
                let j = choose|j: int| 0 <= j < acc.len() && load_libraries(#[trigger] acc[j]) == Some(l);
                assert(out[j] == acc[j]);
            } else {
                let l = load_libraries(n)->0;
                if !loads_libraries(acc, l) {
                    assert(out[acc.len() as int] == n);
                }
            }
        }
        match load_libraries(n) {
            Some(l) => {
                if !loads_libraries(acc, l) {
                    assert forall|i: int, j: int|
                        0 <= i < j < out.len() implies load_libraries(#[trigger] out[i])
                        != load_libraries(#[trigger] out[j]) by {
                        if j == acc.len() {
                            assert(out[i] == acc[i]);
                        } else {
                            assert(out[i] == acc[i]);
                            assert(out[j] == acc[j]);
                        }
                    }
                    assert forall|i: int| 0 <= i < out.len() implies (#[trigger] out[i]) is Load by {
                        if i < acc.len() {
                            assert(out[i] == acc[i]);
                        }
                    }
                }
            },
            None => {},
        }
    }
}

/// The load tags of an inheritance chain are collected once each: every
/// collected node is a load tag, no two name the same libraries, and every
/// load tag at the top of a template of the chain is among them.
pub proof fn law_loads_collected(chain: Seq<Seq<NodeModel>>)
    ensures
        forall|i: int|
            0 <= i < collect_loads_spec(chain).len() ==> (#[trigger] collect_loads_spec(chain)[i]) is Load,
        forall|i: int, j: int|
            0 <= i < j < collect_loads_spec(chain).len() ==> load_libraries(
                #[trigger] collect_loads_spec(chain)[i],
            ) != load_libraries(#[trigger] collect_loads_spec(chain)[j]),
        forall|i: int|
            0 <= i < chain_nodes(chain).len() && (#[trigger] chain_nodes(chain)[i]) is Load
                ==> loads_libraries(collect_loads_spec(chain), load_libraries(chain_nodes(chain)[i])->0),
{
    lemma_collect_list(chain_nodes(chain));
}

/// Whether no node of `ns` is an `extends` tag.
pub open spec fn no_extends(ns: Seq<NodeModel>) -> bool {
    forall|i: int| 0 <= i < ns.len() ==> !(#[trigger] ns[i] is Extends)
}

pub proof fn lemma_extends_from_none(ns: Seq<NodeModel>, i: int)
    requires
        0 <= i,
        forall|j: int| i <= j < ns.len() ==> !(#[trigger] ns[j] is Extends),
    ensures
        extends_from(ns, i) is None,
    decreases ns.len() - i,
{
    if i < ns.len() {
        lemma_extends_from_none(ns, i + 1);
    }
}

pub proof fn lemma_extends_from_some(ns: Seq<NodeModel>, i: int, j: int)
    requires
        0 <= i <= j < ns.len(),
        ns[j] is Extends,
    ensures
        extends_from(ns, i) is Some,
    decreases j - i,
{
    if i < j && !(ns[i] is Extends) {
        lemma_extends_from_some(ns, i + 1, j);
    }
}

/// `extends_of` finds nothing exactly when no node is an `extends` tag.
pub proof fn lemma_extends_of_none(ns: Seq<NodeModel>)
    ensures
        extends_of(ns) is None <==> no_extends(ns),
{
    if no_extends(ns) {
        lemma_extends_from_none(ns, 0);
    } else {
        let j = choose|j: int| 0 <= j < ns.len() && #[trigger] ns[j] is Extends;
        lemma_extends_from_some(ns, 0, j);
    }
}

pub proof fn lemma_replace_children_kind(n: NodeModel, m: Entries, depth: int)
    requires
        !(n is Extends),
        replace_children(n, m, depth) is Done,
    ensures
        !(replace_children(n, m, depth)->Done_0 is Extends),
{
}

pub proof fn lemma_replace_from_no_extends(
    ns: Seq<NodeModel>,
    m: Entries,
    depth: int,
    i: int,
    acc: Seq<NodeModel>,
)
    requires
        no_extends(acc),
        replace_from(ns, m, depth, i, acc) is Done,
    ensures
        no_extends(replace_from(ns, m, depth, i, acc)->Done_0),
    decreases ns.len() - i,
{
    if i < 0 || i >= ns.len() || depth < 0 || depth > AST_DEPTH_MAX {
    } else {
        match ns[i] {
            NodeModel::Block { raw, name, content, has_super_reference } => {
                let source = match lookup(m, name) {
                    Some(c) => c,
                    None => content,
                };
                match replace_list(source, m, depth + 1) {
                    Merged::Done(c2) => {
                        let acc2 = acc.push(
                            NodeModel::Block { raw, name, content: c2, has_super_reference },
                        );
                        assert(no_extends(acc2)) by {
                            assert forall|j: int| 0 <= j < acc2.len() implies !(#[trigger] acc2[j] is Extends) by {
                                if j < acc.len() {
                                    assert(acc2[j] == acc[j]);
                                }
                            }
                        }
                        lemma_replace_from_no_extends(ns, m, depth, i + 1, acc2);
                    },
                    _ => {},
                }
            },
            NodeModel::Extends { .. } => {
                lemma_replace_from_no_extends(ns, m, depth, i + 1, acc);
            },
            n => {
                match replace_children(n, m, depth) {
                    Merged::Done(n2) => {
                        lemma_replace_children_kind(n, m, depth);
                        let acc2 = acc.push(n2);
                        assert(no_extends(acc2)) by {
                            assert forall|j: int| 0 <= j < acc2.len() implies !(#[trigger] acc2[j] is Extends) by {
                                if j < acc.len() {
                                    assert(acc2[j] == acc[j]);
                                }
                            }
                        }
                        lemma_replace_from_no_extends(ns, m, depth, i + 1, acc2);
                    },
                    _ => {},
                }
            },
        }
    }
}

pub proof fn lemma_merge_down_no_extends(chain: Seq<Seq<NodeModel>>, k: int, resolved: Seq<NodeModel>)
    requires
        1 <= k <= chain.len(),
        merge_down(chain, k, resolved) is Done,
    ensures
        no_extends(merge_down(chain, k, resolved)->Done_0),
    decreases k,
{
    let step = merge_step(resolved, chain[k - 1]);
    let r2 = step->Done_0;
    assert(step is Done);
    if !(!extract_ok(chain[k - 1]) || !extract_ok(resolved)) {
        let m = merged_entries(blocks_of(resolved), blocks_of(chain[k - 1]));
        assert(replace_list(resolved, m, 0) == step);
        assert(no_extends(Seq::<NodeModel>::empty()));
        lemma_replace_from_no_extends(resolved, m, 0, 0, seq![]);
    }
    if k > 1 {
        lemma_merge_down_no_extends(chain, k - 1, r2);
    }
}

pub proof fn lemma_missing_loads(resolved: Seq<NodeModel>, loads: Seq<NodeModel>)
    ensures
        forall|t: int|
            0 <= t < missing_loads(resolved, loads).len() ==> exists|j: int|
                0 <= j < loads.len() && loads[j] == #[trigger] missing_loads(resolved, loads)[t],
        forall|j: int|
            0 <= j < loads.len() && (#[trigger] loads[j]) is Load && !loads_libraries(
                resolved,
                load_libraries(loads[j])->0,
            ) ==> exists|t: int|
                0 <= t < missing_loads(resolved, loads).len() && missing_loads(resolved, loads)[t]
                    == loads[j],
    decreases loads.len(),
{
    if loads.len() > 0 {
        let prev = loads.drop_last();
        lemma_missing_loads(resolved, prev);
        let rest = missing_loads(resolved, prev);
        let out = missing_loads(resolved, loads);
        assert forall|t: int| 0 <= t < out.len() implies exists|j: int|
            0 <= j < loads.len() && loads[j] == #[trigger] out[t] by {
            if t < rest.len() {
                assert(out[t] == rest[t]);
                let j = choose|j: int| 0 <= j < prev.len() && prev[j] == #[trigger] rest[t];
                assert(loads[j] == prev[j]);
            } else {
                assert(loads[loads.len() - 1] == out[t]);
            }
        }
        assert forall|j: int|
            0 <= j < loads.len() && (#[trigger] loads[j]) is Load && !loads_libraries(
                resolved,
                load_libraries(loads[j])->0,
            ) implies exists|t: int| 0 <= t < out.len() && out[t] == loads[j] by {
            if j < loads.len() - 1 {
                assert(prev[j] == loads[j]);
                let t = choose|t: int| 0 <= t < rest.len() && rest[t] == prev[j];
                assert(out[t] == rest[t]);
            } else {
                assert(out[rest.len() as int] == loads[j]);
            }
        }
    }
}

pub proof fn lemma_first_load_bounds(ns: Seq<NodeModel>, i: int)
    requires
        0 <= i,
    ensures
        first_load_from(ns, i) matches Some(k) ==> i <= k < ns.len(),
    decreases ns.len() - i,
{
    if i < ns.len() {
        lemma_first_load_bounds(ns, i + 1);
    }
}

pub proof fn lemma_first_non_text_bounds(ns: Seq<NodeModel>, i: int)
    requires
        0 <= i,
    ensures
        first_non_text_from(ns, i) matches Some(k) ==> i <= k < ns.len(),
    decreases ns.len() - i,
{
    if i < ns.len() {
        lemma_first_non_text_bounds(ns, i + 1);
    }
}

pub proof fn lemma_inject_offset_bounds(ns: Seq<NodeModel>)
    ensures
        0 <= inject_offset(ns) <= ns.len(),
{
    lemma_first_load_bounds(ns, 0);
    lemma_first_non_text_bounds(ns, 0);
}

/// What the search for the first load finds from `i` on.
proof fn lemma_first_load_found(ns: Seq<NodeModel>, i: int)
    requires
        0 <= i,
    ensures
        first_load_from(ns, i) matches Some(k) ==> i <= k < ns.len() && ns[k] is Load && forall|j: int|
            i <= j < k ==> !(#[trigger] ns[j] is Load),
        first_load_from(ns, i) is None ==> forall|j: int| i <= j < ns.len() ==> !(#[trigger] ns[j] is Load),
    decreases ns.len() - i,
{
    if i < ns.len() {
        lemma_first_load_found(ns, i + 1);
    }
}

/// What the search for the first node that is not text finds from `i` on.
proof fn lemma_first_non_text_found(ns: Seq<NodeModel>, i: int)
    requires
        0 <= i,
    ensures
        first_non_text_from(ns, i) matches Some(k) ==> i <= k < ns.len() && !(ns[k] is Text) && forall|j: int|
            i <= j < k ==> #[trigger] ns[j] is Text,
        first_non_text_from(ns, i) is None ==> forall|j: int| i <= j < ns.len() ==> #[trigger] ns[j] is Text,
    decreases ns.len() - i,
{
    if i < ns.len() {
        lemma_first_non_text_found(ns, i + 1);
    }
}

/// Law: the loads a merge is missing go in front of everything that could
/// use them.  They are inserted, in order and as one run, at a single place
/// `k` of the merged nodes: right before the first load when there is one;
/// else right before the first node that is not text, with only text in
/// front of it; else (only text, or nothing) at the very start.  No node
/// is dropped or reordered.
pub proof fn law_loads_injected_up_front(resolved: Seq<NodeModel>, loads: Seq<NodeModel>)
    ensures
        missing_loads(resolved, loads).len() == 0 ==> inject_spec(resolved, loads) == resolved,
        exists|k: int|
            {
                &&& 0 <= k <= resolved.len()
                &&& (missing_loads(resolved, loads).len() > 0 ==> #[trigger] inject_spec(resolved, loads)
                    == resolved.take(k) + missing_loads(resolved, loads) + resolved.skip(k))
                &&& (exists|j: int| 0 <= j < resolved.len() && #[trigger] resolved[j] is Load) ==> {
                    &&& k < resolved.len()
                    &&& resolved[k] is Load
                    &&& forall|j: int| 0 <= j < k ==> !(#[trigger] resolved[j] is Load)
                }
                &&& (forall|j: int| 0 <= j < resolved.len() ==> !(#[trigger] resolved[j] is Load)) && (exists|
                    j: int,
                | 0 <= j < resolved.len() && !(#[trigger] resolved[j] is Text)) ==> {
                    &&& k < resolved.len()
                    &&& !(resolved[k] is Text)
                    &&& forall|j: int| 0 <= j < k ==> #[trigger] resolved[j] is Text
                }
                &&& (forall|j: int| 0 <= j < resolved.len() ==> #[trigger] resolved[j] is Text) ==> k == 0
            },
{
    lemma_first_load_found(resolved, 0);
    lemma_first_non_text_found(resolved, 0);
    let k = inject_offset(resolved);
    if resolved.len() > 0 && (forall|j: int| 0 <= j < resolved.len() ==> #[trigger] resolved[j] is Text) {
        assert(resolved[0] is Text);
        assert(!(resolved[0] is Load));
    }
    assert(0 <= k <= resolved.len());
    assert(missing_loads(resolved, loads).len() > 0 ==> inject_spec(resolved, loads) == resolved.take(k)
        + missing_loads(resolved, loads) + resolved.skip(k));
}

} // verus!
