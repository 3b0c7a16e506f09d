//! Template inheritance: a template that extends a parent is merged into
//! the parent's tree, block by block, up the chain of ancestors.
use vstd::prelude::*;
use crate::compiler::ast::{
    clone_bindings, clone_node, clone_nodes, clone_opt_string, clone_strings, node_view,
    nodes_view, AstNode, BlockNode, ElifBranch, ElifModel, ExtendsNode, ForNode, IfNode,
    IfchangedNode, NodeModel, AutoescapeNode, BlocktranslateNode, CacheNode, FilterBlockNode, LanguageNode, LocalizeNode, LocaltimeNode, SpacelessNode, TimezoneNode, UtcNode, WithNode,
};
use crate::compiler::error::CompileError;
use crate::compiler::resolver::{answered_excluding, Answer, ResolveLimits, TemplateLoader};
use crate::compiler::ast::opt_string_view;
use crate::compiler::parser::{parse_error_of, parsed_nodes};
use crate::discovery::strs;
use crate::compiler::parser::lemma_nodes_view_push;
use crate::compiler::resolver::merge::{
    block_entries, blocks_of, child_content, child_part, extends_from, extends_of, has_super_ref,
    is_last_for_name, lookup, merge_ok, merged_entries, replace_children, replace_elifs,
    replace_from, replace_list, replace_opt, splice, Entries, Merged, AST_DEPTH_MAX,
    MERGE_ENTRIES_MAX, REPLACE_NODES_MAX, SPLICE_NODES_MAX, EXTRACT_ITERATIONS_MAX, name_count, names_up_to,
    body_of, with_body, chain_nodes, lemma_child_part_lookup, lemma_lookup_append_none, collect_list, collect_loads_spec, load_libraries,
    loads_libraries, first_load_from, first_non_text_from, inject_offset, inject_spec,
    missing_loads, merge_chain_spec, merge_down, merge_step, extract_ok, BLOCK_NESTING_DEPTH_MAX,
    COLLECT_LOADS_ITERATIONS_MAX, INJECT_ITERATIONS_MAX, lemma_extends_of_none,
    lemma_merge_down_no_extends, no_extends, law_loads_collected, lemma_missing_loads,
    lemma_inject_offset_bounds,
};
use crate::compiler::syntax::is_super;
use crate::compiler::lexer::strings_view;
use crate::compiler::walk::{lemma_nodes_view_index, lemma_nodes_view_len, refs_view, walk, walk_nodes};

verus! {

/// Why replacing blocks stopped: the nesting limit, or one of the size
/// limits of the merge.
pub enum Stop {
    TooDeep,
    Limit,
}

/// `e` is how the merge outcome `m` stopped.
pub open spec fn stopped<T>(m: Merged<T>, e: Stop) -> bool {
    match m {
        Merged::TooDeep => e is TooDeep,
        Merged::Abort => e is Limit,
        Merged::Done(_) => false,
    }
}

/// The view of a borrowed block map.
pub open spec fn ref_entries_view(v: Seq<(&String, &Vec<AstNode>)>) -> Entries {
    v.map_values(|e: (&String, &Vec<AstNode>)| (e.0@, nodes_view(e.1@)))
}

/// The view of an owned block map.
pub open spec fn entries_view(v: Seq<(String, Vec<AstNode>)>) -> Entries {
    v.map_values(|e: (String, Vec<AstNode>)| (e.0@, nodes_view(e.1@)))
}

/// The first `extends` node of `ast`.
pub fn find_extends(ast: &[AstNode]) -> (r: Option<&ExtendsNode>)
    requires
        ast@.len() <= u32::MAX,
    ensures
        match r {
            Some(e) => extends_of(nodes_view(ast@)) == Some(e.parent_path@),
            None => extends_of(nodes_view(ast@)) is None,
        },
{
    let ghost ns = nodes_view(ast@);
    proof {
        lemma_nodes_view_len(ast@);
    }
    let mut i: usize = 0;
    while i < ast.len()
        invariant
            i <= ast@.len(),
            ns == nodes_view(ast@),
            ns.len() == ast@.len(),
            extends_of(ns) == extends_from(ns, i as int),
        decreases ast.len() - i,
    {
        proof {
            lemma_nodes_view_index(ast@, i as int);
        }
        match &ast[i] {
            AstNode::Extends(e) => {
                return Some(e);
            },
            _ => {},
        }
        i += 1;
    }
    None
}

/// The blocks of the tree of `nodes`, in the order the traversal meets them.
pub fn extract_blocks<'a>(nodes: &'a [AstNode]) -> (r: Vec<(&'a String, &'a Vec<AstNode>)>)
    requires
        nodes@.len() <= REPLACE_NODES_MAX,
        walk(nodes_view(nodes@)).len() <= EXTRACT_ITERATIONS_MAX,
    ensures
        ref_entries_view(r@) == blocks_of(nodes_view(nodes@)),
{
    let order = walk_nodes(nodes);
    let ghost w = walk(nodes_view(nodes@));
    let mut blocks: Vec<(&'a String, &'a Vec<AstNode>)> = Vec::new();
    let mut k: usize = 0;
    assert(refs_view(order@).len() == order@.len());
    assert(w.take(0) =~= Seq::<NodeModel>::empty());
    assert(ref_entries_view(blocks@) =~= Seq::<(Seq<char>, Seq<NodeModel>)>::empty());
    while k < order.len()
        invariant
            k <= order@.len(),
            w == refs_view(order@),
            ref_entries_view(blocks@) == block_entries(w.take(k as int)),
        decreases order.len() - k,
    {
        let node = order[k];
        assert(w[k as int] == node_view(*node));
        assert(w.take(k + 1).drop_last() =~= w.take(k as int));
        match node {
            AstNode::Block(b) => {
                let ghost before = ref_entries_view(blocks@);
                blocks.push((&b.name, &b.content));
                assert(ref_entries_view(blocks@) =~= before.push((b.name@, nodes_view(b.content@))));
            },
            _ => {},
        }
        k += 1;
    }
    assert(w.take(k as int) =~= w);
    blocks
}

/// The content of the last entry of `m` named `name`.
fn lookup_entry<'a>(m: &'a Vec<(String, Vec<AstNode>)>, name: &String) -> (r: Option<&'a Vec<AstNode>>)
    ensures
        match r {
            Some(c) => lookup(entries_view(m@), name@) == Some(nodes_view(c@)),
            None => lookup(entries_view(m@), name@) is None,
        },
{
    let ghost es = entries_view(m@);
    let mut k = m.len();
    assert(es.take(k as int) =~= es);
    while k > 0
        invariant
            k <= m@.len(),
            es == entries_view(m@),
            lookup(es, name@) == lookup(es.take(k as int), name@),
        decreases k,
    {
        assert(es.take(k as int).drop_last() =~= es.take(k - 1));
        if m[k - 1].0 == *name {
            return Some(&m[k - 1].1);
        }
        k -= 1;
    }
    None
}

/// Appends copies of the nodes of `src`.
pub(crate) fn append_nodes(out: &mut Vec<AstNode>, src: &[AstNode])
    ensures
        nodes_view(final(out)@) == nodes_view(old(out)@) + nodes_view(src@),
{
    let ghost base = nodes_view(out@);
    proof {
        lemma_nodes_view_len(src@);
    }
    let mut k: usize = 0;
    assert(nodes_view(src@).take(0) =~= Seq::<NodeModel>::empty());
    assert(base + nodes_view(src@).take(0) =~= base);
    while k < src.len()
        invariant
            k <= src@.len(),
            nodes_view(src@).len() == src@.len(),
            nodes_view(out@) == base + nodes_view(src@).take(k as int),
        decreases src.len() - k,
    {
        proof {
            lemma_nodes_view_index(src@, k as int);
        }
        let n = clone_node(&src[k]);
        let ghost before = out@;
        out.push(n);
        proof {
            lemma_nodes_view_push(before, n);
            assert(nodes_view(src@).take(k + 1) =~= nodes_view(src@).take(k as int).push(node_view(n)));
        }
        k += 1;
    }
    assert(nodes_view(src@).take(k as int) =~= nodes_view(src@));
}

/// Whether one of `content` is `{{ block.super }}`.
fn has_super(content: &Vec<AstNode>) -> (r: bool)
    ensures
        r == has_super_ref(nodes_view(content@)),
{
    proof {
        lemma_nodes_view_len(content@);
    }
    let mut i: usize = 0;
    while i < content.len()
        invariant
            i <= content@.len(),
            nodes_view(content@).len() == content@.len(),
            forall|j: int| 0 <= j < i ==> !is_super(#[trigger] nodes_view(content@)[j]),
        decreases content.len() - i,
    {
        proof {
            lemma_nodes_view_index(content@, i as int);
        }
        if crate::compiler::parser::is_super_node(&content[i]) {
            return true;
        }
        i += 1;
    }
    false
}

/// `content` with each `{{ block.super }}` replaced by the merged map's
/// content for `name`.
fn splice_super(name: &String, content: &Vec<AstNode>, merged: &Vec<(String, Vec<AstNode>)>) -> (r: Vec<AstNode>)
    requires
        name@.len() > 0,
        match lookup(entries_view(merged@), name@) {
            Some(p) => content@.len() + p.len() <= SPLICE_NODES_MAX,
            None => true,
        },
    ensures
        nodes_view(r@) == match lookup(entries_view(merged@), name@) {
            Some(p) => splice(nodes_view(content@), p),
            None => nodes_view(content@),
        },
{
    let parent = match lookup_entry(merged, name) {
        None => {
            return clone_nodes(content.as_slice());
        },
        Some(p) => p,
    };
    let ghost c = nodes_view(content@);
    let ghost pv = nodes_view(parent@);
    proof {
        lemma_nodes_view_len(content@);
    }
    let mut spliced: Vec<AstNode> = Vec::new();
    let mut i: usize = 0;
    assert(c.take(0) =~= Seq::<NodeModel>::empty());
    assert(nodes_view(spliced@) =~= Seq::<NodeModel>::empty());
    while i < content.len()
        invariant
            i <= content@.len(),
            c == nodes_view(content@),
            c.len() == content@.len(),
            pv == nodes_view(parent@),
            nodes_view(spliced@) == splice(c.take(i as int), pv),
        decreases content.len() - i,
    {
        proof {
            lemma_nodes_view_index(content@, i as int);
            assert(c.take(i + 1).drop_last() =~= c.take(i as int));
        }
        if crate::compiler::parser::is_super_node(&content[i]) {
            append_nodes(&mut spliced, parent.as_slice());
        } else {
            let n = clone_node(&content[i]);
            let ghost before = spliced@;
            spliced.push(n);
            proof {
                lemma_nodes_view_push(before, n);
            }
        }
        i += 1;
    }
    assert(c.take(i as int) =~= c);
    spliced
}


/// Whether entry `i` of `es` is the last one for its name.
fn is_last_name(es: &Vec<(&String, &Vec<AstNode>)>, i: usize) -> (r: bool)
    requires
        i < es@.len(),
    ensures
        r == is_last_for_name(ref_entries_view(es@), i as int),
{
    let ghost v = ref_entries_view(es@);
    let n = es.len();
    let mut j = i + 1;
    while j < es.len()
        invariant
            i < j <= es@.len(),
            v == ref_entries_view(es@),
            forall|k: int| i < k < j ==> #[trigger] v[k].0 != v[i as int].0,
        decreases es.len() - j,
    {
        if *es[j].0 == *es[i].0 {
            assert(v[j as int].0 == v[i as int].0);
            return false;
        }
        j += 1;
    }
    true
}

/// The merged block map: the parent's blocks, then the child's (one per
/// name, `block.super` spliced).
fn merge_blocks(
    parent: &Vec<(&String, &Vec<AstNode>)>,
    child: &Vec<(&String, &Vec<AstNode>)>,
) -> (r: Vec<(String, Vec<AstNode>)>)
    requires
        merge_ok(ref_entries_view(parent@), ref_entries_view(child@)),
    ensures
        entries_view(r@) == merged_entries(ref_entries_view(parent@), ref_entries_view(child@)),
{
    let ghost p = ref_entries_view(parent@);
    let ghost c = ref_entries_view(child@);
    let mut merged: Vec<(String, Vec<AstNode>)> = Vec::new();
    let mut k: usize = 0;
    assert(entries_view(merged@) =~= p.take(0));
    while k < parent.len()
        invariant
            k <= parent@.len(),
            p == ref_entries_view(parent@),
            entries_view(merged@) == p.take(k as int),
        decreases parent.len() - k,
    {
        let e = (parent[k].0.clone(), clone_nodes(parent[k].1.as_slice()));
        let ghost before = entries_view(merged@);
        merged.push(e);
        assert(entries_view(merged@) =~= before.push((e.0@, nodes_view(e.1@))));
        k += 1;
        assert(entries_view(merged@) =~= p.take(k as int));
    }
    assert(p.take(k as int) =~= p);
    let mut i: usize = 0;
    assert(p + child_part(p, c, 0) =~= p);
    while i < child.len()
        invariant
            i <= child@.len(),
            p == ref_entries_view(parent@),
            c == ref_entries_view(child@),
            merge_ok(p, c),
            entries_view(merged@) == p + child_part(p, c, i as int),
        decreases child.len() - i,
    {
        if is_last_name(child, i) {
            let name = child[i].0;
            let content = child[i].1;
            proof {
                assert forall|j: int| 0 <= j < i && is_last_for_name(c, j) implies #[trigger] c[j].0 != c[i as int].0 by {
                    if c[j].0 == c[i as int].0 {
                        assert(c[i as int].0 != c[j].0);
                    }
                }
                lemma_child_part_lookup(p, c, i as int, name@);
                lemma_lookup_append_none(p, child_part(p, c, i as int), name@);
            }
            let c2 = if has_super(content) {
                proof {
                    lemma_nodes_view_len(content@);
                    assert(c[i as int].1 == nodes_view(content@));
                    assert(has_super_ref(c[i as int].1));
                }
                splice_super(name, content, &merged)
            } else {
                clone_nodes(content.as_slice())
            };
            let ghost before = entries_view(merged@);
            let e = (name.clone(), c2);
            merged.push(e);
            assert(entries_view(merged@) =~= before.push((e.0@, nodes_view(e.1@))));
        }
        i += 1;
        assert(p + child_part(p, c, i as int) =~= entries_view(merged@));
    }
    merged
}

/// `nodes` with blocks replaced from the merged map, recursively.
fn replace_bounded(nodes: &[AstNode], m: &Vec<(String, Vec<AstNode>)>, depth: u32) -> (r: Result<
    Vec<AstNode>,
    Stop,
>)
    requires
        depth <= AST_DEPTH_MAX + 1,
    ensures
        match replace_list(nodes_view(nodes@), entries_view(m@), depth as int) {
            Merged::Done(v) => r is Ok && nodes_view(r->Ok_0@) == v,
            _ => r is Err && stopped(replace_list(nodes_view(nodes@), entries_view(m@), depth as int), r->Err_0),
        },
    decreases AST_DEPTH_MAX + 1 - depth, 3nat,
{
    if depth > AST_DEPTH_MAX {
        return Err(Stop::TooDeep);
    }
    let ghost ns = nodes_view(nodes@);
    let ghost me = entries_view(m@);
    proof {
        lemma_nodes_view_len(nodes@);
    }
    if nodes.len() > REPLACE_NODES_MAX as usize {
        return Err(Stop::Limit);
    }
    let mut result: Vec<AstNode> = Vec::new();
    let mut i: usize = 0;
    assert(nodes_view(result@) =~= Seq::<NodeModel>::empty());
    while i < nodes.len()
        invariant
            i <= nodes@.len(),
            depth <= AST_DEPTH_MAX,
            ns == nodes_view(nodes@),
            ns.len() == nodes@.len(),
            me == entries_view(m@),
            nodes@.len() <= REPLACE_NODES_MAX,
            replace_list(ns, me, depth as int) == replace_from(ns, me, depth as int, i as int, nodes_view(result@)),
        decreases nodes.len() - i,
    {
        proof {
            lemma_nodes_view_index(nodes@, i as int);
        }
        let ghost before = result@;
        match &nodes[i] {
            AstNode::Block(block) => {
                let processed = match lookup_entry(m, &block.name) {
                    Some(c) => replace_bounded(c.as_slice(), m, depth + 1),
                    None => replace_bounded(block.content.as_slice(), m, depth + 1),
                };
                match processed {
                    Err(e) => {
                        return Err(e);
                    },
                    Ok(content) => {
                        let n = AstNode::Block(Box::new(BlockNode {
                            raw: block.raw.clone(),
                            name: block.name.clone(),
                            content,
                            has_super_reference: block.has_super_reference,
                        }));
                        result.push(n);
                        proof {
                            lemma_nodes_view_push(before, n);
                        }
                    },
                }
            },
            AstNode::Extends(_) => {},
            node => {
                match replace_node_children(node, m, depth) {
                    Err(e) => {
                        return Err(e);
                    },
                    Ok(n) => {
                        result.push(n);
                        proof {
                            lemma_nodes_view_push(before, n);
                        }
                    },
                }
            },
        }
        i += 1;
    }
    Ok(result)
}

fn replace_opt_list(o: &Option<Vec<AstNode>>, m: &Vec<(String, Vec<AstNode>)>, depth: u32) -> (r: Result<
    Option<Vec<AstNode>>,
    Stop,
>)
    requires
        depth <= AST_DEPTH_MAX + 1,
    ensures
        match replace_opt(crate::compiler::ast::opt_nodes_view(*o), entries_view(m@), depth as int) {
            Merged::Done(v) => r is Ok && crate::compiler::ast::opt_nodes_view(r->Ok_0) == v,
            _ => r is Err && stopped(replace_opt(crate::compiler::ast::opt_nodes_view(*o), entries_view(m@), depth as int), r->Err_0),
        },
    decreases AST_DEPTH_MAX + 1 - depth, 4nat,
{
    match o {
        None => Ok(None),
        Some(b) => match replace_bounded(b.as_slice(), m, depth) {
            Ok(b2) => Ok(Some(b2)),
            Err(e) => Err(e),
        },
    }
}

fn replace_if(x: &IfNode, m: &Vec<(String, Vec<AstNode>)>, depth: u32) -> (r: Result<AstNode, Stop>)
    requires
        depth <= AST_DEPTH_MAX,
    ensures
        match replace_children(node_view(AstNode::If(Box::new(*x))), entries_view(m@), depth as int) {
            Merged::Done(v) => r is Ok && node_view(r->Ok_0) == v,
            _ => r is Err && stopped(replace_children(node_view(AstNode::If(Box::new(*x))), entries_view(m@), depth as int), r->Err_0),
        },
    decreases AST_DEPTH_MAX + 1 - depth, 1nat,
{
    let ghost me = entries_view(m@);
    let d = depth + 1;
    let t = match replace_bounded(x.true_branch.as_slice(), m, d) {
        Ok(t) => t,
        Err(e) => {
            return Err(e);
        },
    };
    let ghost es = crate::compiler::ast::elifs_view(x.elif_branches@);
    let ghost full = replace_children(node_view(AstNode::If(Box::new(*x))), me, depth as int);
    assert(replace_elifs(es, me, d as int, 0, seq![]) is TooDeep ==> full is TooDeep);
    assert(replace_elifs(es, me, d as int, 0, seq![]) is Abort ==> full is Abort);
    proof {
        crate::compiler::ast::lemma_elifs_view_len(x.elif_branches@);
    }
    let mut elifs: Vec<ElifBranch> = Vec::new();
    let mut k: usize = 0;
    assert(crate::compiler::ast::elifs_view(elifs@) =~= Seq::<ElifModel>::empty());
    while k < x.elif_branches.len()
        invariant
            k <= x.elif_branches@.len(),
            d == depth + 1,
            depth <= AST_DEPTH_MAX,
            es == crate::compiler::ast::elifs_view(x.elif_branches@),
            es.len() == x.elif_branches@.len(),
            me == entries_view(m@),
            full == replace_children(node_view(AstNode::If(Box::new(*x))), me, depth as int),
            replace_elifs(es, me, d as int, 0, seq![]) is TooDeep ==> full is TooDeep,
            replace_elifs(es, me, d as int, 0, seq![]) is Abort ==> full is Abort,
            replace_elifs(es, me, d as int, 0, seq![]) == replace_elifs(
                es,
                me,
                d as int,
                k as int,
                crate::compiler::ast::elifs_view(elifs@),
            ),
        decreases x.elif_branches.len() - k,
    {
        proof {
            crate::compiler::ast::lemma_elifs_view_index(x.elif_branches@, k as int);
        }
        match replace_bounded(x.elif_branches[k].body.as_slice(), m, d) {
            Err(e) => {
                return Err(e);
            },
            Ok(b) => {
                let e = ElifBranch { condition: x.elif_branches[k].condition.clone(), body: b };
                proof {
                    crate::compiler::ast::lemma_elifs_view_push_copy(elifs@, e);
                }
                elifs.push(e);
            },
        }
        k += 1;
    }
    let o = match replace_opt_list(&x.else_branch, m, d) {
        Ok(o) => o,
        Err(e) => {
            return Err(e);
        },
    };
    Ok(AstNode::If(Box::new(IfNode {
        raw: x.raw.clone(),
        condition: x.condition.clone(),
        true_branch: t,
        elif_branches: elifs,
        else_branch: o,
    })))
}

fn replace_for(node: &AstNode, m: &Vec<(String, Vec<AstNode>)>, depth: u32) -> (r: Result<
    AstNode,
    Stop,
>)
    requires
        depth <= AST_DEPTH_MAX,
        node is For,
    ensures
        match replace_children(node_view(*node), entries_view(m@), depth as int) {
            Merged::Done(v) => r is Ok && node_view(r->Ok_0) == v,
            _ => r is Err && stopped(replace_children(node_view(*node), entries_view(m@), depth as int), r->Err_0),
        },
    decreases AST_DEPTH_MAX + 1 - depth, 1nat,
{
    match node {
        AstNode::For(x) => {
            let b = match replace_bounded(x.body.as_slice(), m, depth + 1) {
                Ok(b) => b,
                Err(e) => {
                    return Err(e);
                },
            };
            let o = match replace_opt_list(&x.empty_branch, m, depth + 1) {
                Ok(o) => o,
                Err(e) => {
                    return Err(e);
                },
            };
            Ok(AstNode::For(Box::new(ForNode {
                raw: x.raw.clone(),
                variable: x.variable.clone(),
                iterable: x.iterable.clone(),
                body: b,
                empty_branch: o,
            })))
        },
        _ => Ok(clone_node(node)),
    }
}

fn replace_ifchanged(node: &AstNode, m: &Vec<(String, Vec<AstNode>)>, depth: u32) -> (r: Result<
    AstNode,
    Stop,
>)
    requires
        depth <= AST_DEPTH_MAX,
        node is Ifchanged,
    ensures
        match replace_children(node_view(*node), entries_view(m@), depth as int) {
            Merged::Done(v) => r is Ok && node_view(r->Ok_0) == v,
            _ => r is Err && stopped(replace_children(node_view(*node), entries_view(m@), depth as int), r->Err_0),
        },
    decreases AST_DEPTH_MAX + 1 - depth, 1nat,
{
    match node {
        AstNode::Ifchanged(x) => {
            let t = match replace_bounded(x.true_branch.as_slice(), m, depth + 1) {
                Ok(t) => t,
                Err(e) => {
                    return Err(e);
                },
            };
            let o = match replace_opt_list(&x.else_branch, m, depth + 1) {
                Ok(o) => o,
                Err(e) => {
                    return Err(e);
                },
            };
            Ok(AstNode::Ifchanged(Box::new(IfchangedNode {
                raw: x.raw.clone(),
                condition: clone_opt_string(&x.condition),
                true_branch: t,
                else_branch: o,
            })))
        },
        _ => Ok(clone_node(node)),
    }
}

pub proof fn lemma_replace_body(n: NodeModel, m: Entries, depth: int)
    requires
        body_of(n) is Some,
        0 <= depth <= AST_DEPTH_MAX,
    ensures
        replace_children(n, m, depth) == match replace_list(body_of(n)->0, m, depth + 1) {
            Merged::Done(b2) => Merged::Done(with_body(n, b2)),
            Merged::TooDeep => Merged::<NodeModel>::TooDeep,
            Merged::Abort => Merged::<NodeModel>::Abort,
        },
{
}

#[verifier::spinoff_prover]
#[verifier::rlimit(40)]
fn replace_with_body(node: &AstNode, m: &Vec<(String, Vec<AstNode>)>, depth: u32) -> (r: Result<
    AstNode,
    Stop,
>)
    requires
        depth <= AST_DEPTH_MAX,
        body_of(node_view(*node)) is Some,
    ensures
        match replace_list(body_of(node_view(*node))->0, entries_view(m@), depth + 1) {
            Merged::Done(b2) => r is Ok && node_view(r->Ok_0) == with_body(node_view(*node), b2),
            _ => r is Err && stopped(replace_list(body_of(node_view(*node))->0, entries_view(m@), depth + 1), r->Err_0),
        },
    decreases AST_DEPTH_MAX + 1 - depth, 1nat,
{
    match node {
            AstNode::Block(x) => match replace_bounded(x.content.as_slice(), m, depth + 1) {
                Ok(b) => Ok(AstNode::Block(Box::new(BlockNode { raw: x.raw.clone(), name: x.name.clone(), content: b, has_super_reference: x.has_super_reference }))),
                Err(e) => Err(e),
            },
            AstNode::With(x) => match replace_bounded(x.body.as_slice(), m, depth + 1) {
                Ok(b) => Ok(AstNode::With(Box::new(WithNode { raw: x.raw.clone(), bindings: clone_bindings(&x.bindings), body: b }))),
                Err(e) => Err(e),
            },
            AstNode::Autoescape(x) => match replace_bounded(x.body.as_slice(), m, depth + 1) {
                Ok(b) => Ok(AstNode::Autoescape(Box::new(AutoescapeNode { raw: x.raw.clone(), value: x.value.clone(), body: b }))),
                Err(e) => Err(e),
            },
            AstNode::Blocktranslate(x) => match replace_bounded(x.body.as_slice(), m, depth + 1) {
                Ok(b) => Ok(AstNode::Blocktranslate(Box::new(BlocktranslateNode { raw: x.raw.clone(), body: b, modifiers: clone_strings(&x.modifiers) }))),
                Err(e) => Err(e),
            },
            AstNode::Language(x) => match replace_bounded(x.body.as_slice(), m, depth + 1) {
                Ok(b) => Ok(AstNode::Language(Box::new(LanguageNode { raw: x.raw.clone(), language: x.language.clone(), body: b }))),
                Err(e) => Err(e),
            },
            AstNode::FilterBlock(x) => match replace_bounded(x.body.as_slice(), m, depth + 1) {
                Ok(b) => Ok(AstNode::FilterBlock(Box::new(FilterBlockNode { raw: x.raw.clone(), filter: x.filter.clone(), body: b }))),
                Err(e) => Err(e),
            },
            AstNode::Cache(x) => match replace_bounded(x.body.as_slice(), m, depth + 1) {
                Ok(b) => Ok(AstNode::Cache(Box::new(CacheNode { raw: x.raw.clone(), timeout: x.timeout.clone(), name: x.name.clone(), body: b }))),
                Err(e) => Err(e),
            },
            AstNode::Localize(x) => match replace_bounded(x.body.as_slice(), m, depth + 1) {
                Ok(b) => Ok(AstNode::Localize(Box::new(LocalizeNode { raw: x.raw.clone(), value: x.value.clone(), body: b }))),
                Err(e) => Err(e),
            },
            AstNode::Localtime(x) => match replace_bounded(x.body.as_slice(), m, depth + 1) {
                Ok(b) => Ok(AstNode::Localtime(Box::new(LocaltimeNode { raw: x.raw.clone(), value: x.value.clone(), body: b }))),
                Err(e) => Err(e),
            },
            AstNode::Spaceless(x) => match replace_bounded(x.body.as_slice(), m, depth + 1) {
                Ok(b) => Ok(AstNode::Spaceless(SpacelessNode { raw: x.raw.clone(), body: b })),
                Err(e) => Err(e),
            },
            AstNode::Timezone(x) => match replace_bounded(x.body.as_slice(), m, depth + 1) {
                Ok(b) => Ok(AstNode::Timezone(Box::new(TimezoneNode { raw: x.raw.clone(), timezone: x.timezone.clone(), body: b }))),
                Err(e) => Err(e),
            },
            AstNode::Utc(x) => match replace_bounded(x.body.as_slice(), m, depth + 1) {
                Ok(b) => Ok(AstNode::Utc(UtcNode { raw: x.raw.clone(), body: b })),
                Err(e) => Err(e),
            },
        _ => Ok(clone_node(node)),
    }
}

fn replace_node_children(node: &AstNode, m: &Vec<(String, Vec<AstNode>)>, depth: u32) -> (r: Result<
    AstNode,
    Stop,
>)
    requires
        depth <= AST_DEPTH_MAX,
    ensures
        match replace_children(node_view(*node), entries_view(m@), depth as int) {
            Merged::Done(v) => r is Ok && node_view(r->Ok_0) == v,
            _ => r is Err && stopped(replace_children(node_view(*node), entries_view(m@), depth as int), r->Err_0),
        },
    decreases AST_DEPTH_MAX + 1 - depth, 2nat,
{
    match node {
        AstNode::If(x) => {
            assert(node_view(AstNode::If(Box::new(**x))) == node_view(*node));
            replace_if(x, m, depth)
        },
        AstNode::For(_) => replace_for(node, m, depth),
        AstNode::Ifchanged(_) => replace_ifchanged(node, m, depth),
        AstNode::Block(_) | AstNode::With(_) | AstNode::Autoescape(_) | AstNode::Blocktranslate(_)
        | AstNode::Language(_) | AstNode::FilterBlock(_) | AstNode::Cache(_) | AstNode::Localize(_)
        | AstNode::Localtime(_) | AstNode::Spaceless(_) | AstNode::Timezone(_) | AstNode::Utc(_) => {
            proof {
                lemma_replace_body(node_view(*node), entries_view(m@), depth as int);
            }
            replace_with_body(node, m, depth)
        },
        _ => Ok(clone_node(node)),
    }
}

/// The view of an inheritance chain: the trees of its templates.
pub open spec fn chain_view(v: Seq<(String, Vec<AstNode>)>) -> Seq<Seq<NodeModel>> {
    v.map_values(|e: (String, Vec<AstNode>)| nodes_view(e.1@))
}

/// Whether two lists of strings are equal.
fn same_strings(a: &Vec<String>, b: &Vec<String>) -> (r: bool)
    ensures
        r == (strings_view(a@) == strings_view(b@)),
{
    if a.len() != b.len() {
        return false;
    }
    let mut i: usize = 0;
    while i < a.len()
        invariant
            i <= a@.len(),
            a@.len() == b@.len(),
            strings_view(a@).len() == a@.len(),
            strings_view(b@).len() == b@.len(),
            forall|j: int| 0 <= j < i ==> strings_view(a@)[j] == strings_view(b@)[j],
        decreases a.len() - i,
    {
        if a[i] != b[i] {
            assert(strings_view(a@)[i as int] != strings_view(b@)[i as int]);
            return false;
        }
        i += 1;
    }
    assert(strings_view(a@) =~= strings_view(b@));
    true
}

/// Whether one of `ns` is a load node of the libraries `libraries`.
fn has_load(ns: &Vec<AstNode>, libraries: &Vec<String>) -> (r: bool)
    ensures
        r == loads_libraries(nodes_view(ns@), strings_view(libraries@)),
{
    proof {
        lemma_nodes_view_len(ns@);
    }
    let mut i: usize = 0;
    while i < ns.len()
        invariant
            i <= ns@.len(),
            nodes_view(ns@).len() == ns@.len(),
            forall|j: int|
                0 <= j < i ==> load_libraries(#[trigger] nodes_view(ns@)[j]) != Some(
                    strings_view(libraries@),
                ),
        decreases ns.len() - i,
    {
        proof {
            lemma_nodes_view_index(ns@, i as int);
        }
        match &ns[i] {
            AstNode::Load(l) => {
                if same_strings(&l.libraries, libraries) {
                    return true;
                }
            },
            _ => {},
        }
        i += 1;
    }
    false
}

pub proof fn lemma_chain_nodes_step(c: Seq<Seq<NodeModel>>, i: int)
    requires
        0 <= i < c.len(),
    ensures
        chain_nodes(c.take(i + 1)) == chain_nodes(c.take(i)) + c[i],
{
    assert(c.take(i + 1).drop_last() =~= c.take(i));
}

/// The load nodes of every template of the chain, each set of libraries once.
fn collect_loads(chain: &Vec<(String, Vec<AstNode>)>) -> (r: Vec<AstNode>)
    ensures
        nodes_view(r@) == collect_loads_spec(chain_view(chain@)),
{
    let ghost cv = chain_view(chain@);
    let mut loads: Vec<AstNode> = Vec::new();
    let mut i: usize = 0;
    assert(cv.take(0) =~= Seq::<Seq<NodeModel>>::empty());
    assert(nodes_view(loads@) =~= collect_list(chain_nodes(cv.take(0))));
    while i < chain.len()
        invariant
            i <= chain@.len(),
            cv == chain_view(chain@),
            cv.len() == chain@.len(),
            nodes_view(loads@) == collect_list(chain_nodes(cv.take(i as int))),
        decreases chain.len() - i,
    {
        let ast = &chain[i].1;
        let ghost before = chain_nodes(cv.take(i as int));
        proof {
            lemma_nodes_view_len(ast@);
        }
        let mut j: usize = 0;
        assert(before + nodes_view(ast@).take(0) =~= before);
        while j < ast.len()
            invariant
                j <= ast@.len(),
                nodes_view(ast@).len() == ast@.len(),
                nodes_view(loads@) == collect_list(before + nodes_view(ast@).take(j as int)),
            decreases ast.len() - j,
        {
            proof {
                lemma_nodes_view_index(ast@, j as int);
                assert((before + nodes_view(ast@).take(j + 1)).drop_last() =~= before + nodes_view(
                    ast@,
                ).take(j as int));
            }
            match &ast[j] {
                AstNode::Load(l) => {
                    if !has_load(&loads, &l.libraries) {
                        let n = clone_node(&ast[j]);
                        let ghost prev = loads@;
                        loads.push(n);
                        proof {
                            lemma_nodes_view_push(prev, n);
                        }
                    }
                },
                _ => {},
            }
            j += 1;
        }
        proof {
            assert(nodes_view(ast@).take(j as int) =~= nodes_view(ast@));
            assert(cv[i as int] == nodes_view(ast@));
            lemma_chain_nodes_step(cv, i as int);
        }
        i += 1;
    }
    assert(cv.take(i as int) =~= cv);
    loads
}

pub proof fn lemma_nodes_view_add(a: Seq<AstNode>, b: Seq<AstNode>)
    ensures
        nodes_view(a + b) == nodes_view(a) + nodes_view(b),
    decreases b.len(),
{
    if b.len() == 0 {
        assert(a + b =~= a);
        assert(nodes_view(a) + nodes_view(b) =~= nodes_view(a));
    } else {
        lemma_nodes_view_add(a, b.drop_last());
        assert((a + b).drop_last() =~= a + b.drop_last());
        assert(nodes_view(a) + nodes_view(b) =~= (nodes_view(a) + nodes_view(b.drop_last())).push(
            node_view(b.last()),
        ));
    }
}

pub proof fn lemma_nodes_view_split(v: Seq<AstNode>, k: int)
    requires
        0 <= k <= v.len(),
    ensures
        nodes_view(v.take(k)) == nodes_view(v).take(k),
        nodes_view(v.skip(k)) == nodes_view(v).skip(k),
{
    assert(v =~= v.take(k) + v.skip(k));
    lemma_nodes_view_add(v.take(k), v.skip(k));
    lemma_nodes_view_len(v.take(k));
    lemma_nodes_view_len(v.skip(k));
    assert(nodes_view(v).take(k) =~= nodes_view(v.take(k)));
    assert(nodes_view(v).skip(k) =~= nodes_view(v.skip(k)));
}

/// Where the loads go: before the first load node, else before the first
/// node that is not text, else at the start.
fn inject_offset_of(ns: &Vec<AstNode>) -> (k: usize)
    ensures
        k as int == inject_offset(nodes_view(ns@)),
        k <= ns@.len(),
{
    let ghost v = nodes_view(ns@);
    proof {
        lemma_nodes_view_len(ns@);
    }
    let mut i: usize = 0;
    while i < ns.len()
        invariant
            i <= ns@.len(),
            v == nodes_view(ns@),
            v.len() == ns@.len(),
            first_load_from(v, 0) == first_load_from(v, i as int),
        decreases ns.len() - i,
    {
        proof {
            lemma_nodes_view_index(ns@, i as int);
        }
        if let AstNode::Load(_) = &ns[i] {
            return i;
        }
        i += 1;
    }
    let mut j: usize = 0;
    while j < ns.len()
        invariant
            j <= ns@.len(),
            v == nodes_view(ns@),
            v.len() == ns@.len(),
            first_load_from(v, 0) is None,
            first_non_text_from(v, 0) == first_non_text_from(v, j as int),
        decreases ns.len() - j,
    {
        proof {
            lemma_nodes_view_index(ns@, j as int);
        }
        if let AstNode::Text(_) = &ns[j] {
        } else {
            return j;
        }
        j += 1;
    }
    0
}

/// Inserts the loads whose libraries no top-level load of `resolved` has,
/// before its first load (else before its first node that is not text).
fn inject_loads(resolved: &mut Vec<AstNode>, loads: Vec<AstNode>)
    ensures
        nodes_view(final(resolved)@) == inject_spec(nodes_view(old(resolved)@), nodes_view(loads@)),
{
    let ghost r0 = nodes_view(resolved@);
    let ghost lv = nodes_view(loads@);
    proof {
        lemma_nodes_view_len(loads@);
    }
    let mut inject: Vec<AstNode> = Vec::new();
    let mut i: usize = 0;
    assert(lv.take(0) =~= Seq::<NodeModel>::empty());
    assert(nodes_view(inject@) =~= missing_loads(r0, lv.take(0)));
    while i < loads.len()
        invariant
            i <= loads@.len(),
            lv == nodes_view(loads@),
            lv.len() == loads@.len(),
            r0 == nodes_view(resolved@),
            nodes_view(inject@) == missing_loads(r0, lv.take(i as int)),
        decreases loads.len() - i,
    {
        proof {
            lemma_nodes_view_index(loads@, i as int);
            assert(lv.take(i + 1).drop_last() =~= lv.take(i as int));
        }
        if let AstNode::Load(l) = &loads[i] {
            if !has_load(resolved, &l.libraries) {
                let n = clone_node(&loads[i]);
                let ghost prev = inject@;
                inject.push(n);
                proof {
                    lemma_nodes_view_push(prev, n);
                }
            }
        }
        i += 1;
    }
    assert(lv.take(i as int) =~= lv);
    proof {
        lemma_nodes_view_len(inject@);
    }
    if inject.len() == 0 {
        return;
    }
    let k = inject_offset_of(resolved);
    let ghost old_v = resolved@;
    let mut tail = resolved.split_off(k);
    let ghost inj = inject@;
    resolved.append(&mut inject);
    resolved.append(&mut tail);
    proof {
        assert(old_v.subrange(0, k as int) =~= old_v.take(k as int));
        assert(old_v.subrange(k as int, old_v.len() as int) =~= old_v.skip(k as int));
        lemma_nodes_view_split(old_v, k as int);
        lemma_nodes_view_add(old_v.take(k as int), inj);
        lemma_nodes_view_add(old_v.take(k as int) + inj, old_v.skip(k as int));
    }
}

/// Whether entry `i` of the owned block map `es` is the last one for its name.
fn is_last_owned(es: &Vec<(String, Vec<AstNode>)>, i: usize) -> (r: bool)
    requires
        i < es@.len(),
    ensures
        r == is_last_for_name(entries_view(es@), i as int),
{
    let ghost v = entries_view(es@);
    let n = es.len();
    let mut j = i + 1;
    while j < n
        invariant
            i < j <= es@.len(),
            n == es@.len(),
            v == entries_view(es@),
            forall|k: int| i < k < j ==> #[trigger] v[k].0 != v[i as int].0,
        decreases n - j,
    {
        if es[j].0 == es[i].0 {
            assert(v[j as int].0 == v[i as int].0);
            return false;
        }
        j += 1;
    }
    true
}

/// How many distinct names a borrowed block map holds.
fn count_names(es: &Vec<(&String, &Vec<AstNode>)>) -> (n: usize)
    ensures
        n == name_count(ref_entries_view(es@)),
{
    let ghost v = ref_entries_view(es@);
    let mut n: usize = 0;
    let mut i: usize = 0;
    while i < es.len()
        invariant
            i <= es@.len(),
            n <= i,
            v == ref_entries_view(es@),
            n == names_up_to(v, i as int),
        decreases es.len() - i,
    {
        if is_last_name(es, i) {
            n += 1;
        }
        i += 1;
    }
    n
}

/// How many distinct names an owned block map holds.
fn count_names_owned(es: &Vec<(String, Vec<AstNode>)>) -> (n: usize)
    ensures
        n == name_count(entries_view(es@)),
{
    let ghost v = entries_view(es@);
    let mut n: usize = 0;
    let mut i: usize = 0;
    while i < es.len()
        invariant
            i <= es@.len(),
            n <= i,
            v == entries_view(es@),
            n == names_up_to(v, i as int),
        decreases es.len() - i,
    {
        if is_last_owned(es, i) {
            n += 1;
        }
        i += 1;
    }
    n
}

/// The content of the last entry of a borrowed block map named `name`.
fn lookup_ref<'a>(m: &Vec<(&'a String, &'a Vec<AstNode>)>, name: &String) -> (r: Option<&'a Vec<AstNode>>)
    ensures
        match r {
            Some(c) => lookup(ref_entries_view(m@), name@) == Some(nodes_view(c@)),
            None => lookup(ref_entries_view(m@), name@) is None,
        },
{
    let ghost es = ref_entries_view(m@);
    let mut k = m.len();
    assert(es.take(k as int) =~= es);
    while k > 0
        invariant
            k <= m@.len(),
            es == ref_entries_view(m@),
            lookup(es, name@) == lookup(es.take(k as int), name@),
        decreases k,
    {
        assert(es.take(k as int).drop_last() =~= es.take(k - 1));
        if *m[k - 1].0 == *name {
            return Some(m[k - 1].1);
        }
        k -= 1;
    }
    None
}

/// Whether every child block that refers to `block.super` has a name and
/// fits the splice limit together with the parent's block of that name.
fn splices_fit(parent: &Vec<(&String, &Vec<AstNode>)>, child: &Vec<(&String, &Vec<AstNode>)>) -> (r: bool)
    ensures
        r == (forall|i: int|
            0 <= i < child@.len() && is_last_for_name(ref_entries_view(child@), i) && has_super_ref(
                #[trigger] ref_entries_view(child@)[i].1,
            ) ==> ref_entries_view(child@)[i].0.len() > 0 && match lookup(
                ref_entries_view(parent@),
                ref_entries_view(child@)[i].0,
            ) {
                Some(p) => ref_entries_view(child@)[i].1.len() + p.len() <= SPLICE_NODES_MAX,
                None => true,
            }),
{
    let ghost p = ref_entries_view(parent@);
    let ghost c = ref_entries_view(child@);
    let mut i: usize = 0;
    while i < child.len()
        invariant
            i <= child@.len(),
            p == ref_entries_view(parent@),
            c == ref_entries_view(child@),
            forall|j: int|
                0 <= j < i && is_last_for_name(c, j) && has_super_ref(#[trigger] c[j].1) ==> c[j].0.len()
                    > 0 && match lookup(p, c[j].0) {
                    Some(q) => c[j].1.len() + q.len() <= SPLICE_NODES_MAX,
                    None => true,
                },
        decreases child.len() - i,
    {
        let name = child[i].0;
        let content = child[i].1;
        if is_last_name(child, i) && has_super(content) {
            proof {
                lemma_nodes_view_len(content@);
            }
            assert(c[i as int].0 == name@);
            assert(c[i as int].1 == nodes_view(content@));
            assert(has_super_ref(c[i as int].1));
            if crate::text::chars_of_string(name).len() == 0 {
                assert(!(c[i as int].0.len() > 0));
                return false;
            }
            match lookup_ref(parent, name) {
                Some(q) => {
                    proof {
                        lemma_nodes_view_len(q@);
                    }
                    if content.len() > SPLICE_NODES_MAX as usize || q.len() > SPLICE_NODES_MAX as usize
                        - content.len() {
                        assert(!(c[i as int].1.len() + nodes_view(q@).len() <= SPLICE_NODES_MAX));
                        return false;
                    }
                },
                None => {},
            }
        }
        i += 1;
    }
    true
}

/// Whether the block extractor's size limits hold for `ns`.
fn extract_fits(ns: &Vec<AstNode>) -> (r: bool)
    ensures
        r == extract_ok(nodes_view(ns@)),
{
    proof {
        lemma_nodes_view_len(ns@);
    }
    if ns.len() > REPLACE_NODES_MAX as usize {
        return false;
    }
    let order = walk_nodes(ns.as_slice());
    assert(refs_view(order@).len() == order@.len());
    order.len() <= EXTRACT_ITERATIONS_MAX as usize
}

/// One merge step: the blocks of `child` merged into `resolved`.
fn merge_into(resolved: &Vec<AstNode>, child: &Vec<AstNode>) -> (r: Result<Vec<AstNode>, Stop>)
    ensures
        match merge_step(nodes_view(resolved@), nodes_view(child@)) {
            Merged::Done(v) => r is Ok && nodes_view(r->Ok_0@) == v,
            _ => r is Err && stopped(merge_step(nodes_view(resolved@), nodes_view(child@)), r->Err_0),
        },
{
    if !extract_fits(child) || !extract_fits(resolved) {
        return Err(Stop::Limit);
    }
    proof {
        lemma_nodes_view_len(resolved@);
        lemma_nodes_view_len(child@);
    }
    let parent_blocks = extract_blocks(resolved.as_slice());
    let child_blocks = extract_blocks(child.as_slice());
    if count_names(&parent_blocks) > MERGE_ENTRIES_MAX as usize || count_names(&child_blocks)
        > MERGE_ENTRIES_MAX as usize || !splices_fit(&parent_blocks, &child_blocks) {
        return Err(Stop::Limit);
    }
    let merged = merge_blocks(&parent_blocks, &child_blocks);
    if resolved.len() > REPLACE_NODES_MAX as usize || count_names_owned(&merged) > MERGE_ENTRIES_MAX as usize {
        return Err(Stop::Limit);
    }
    replace_bounded(resolved.as_slice(), &merged, 0)
}

/// Whether the templates of the chain hold at most the collector's limit of
/// top-level nodes together.
fn chain_fits(chain: &Vec<(String, Vec<AstNode>)>) -> (r: bool)
    ensures
        r == (chain_nodes(chain_view(chain@)).len() <= COLLECT_LOADS_ITERATIONS_MAX),
{
    let ghost cv = chain_view(chain@);
    let mut total: usize = 0;
    let mut i: usize = 0;
    assert(cv.take(0) =~= Seq::<Seq<NodeModel>>::empty());
    while i < chain.len()
        invariant
            i <= chain@.len(),
            cv == chain_view(chain@),
            total <= COLLECT_LOADS_ITERATIONS_MAX,
            total == chain_nodes(cv.take(i as int)).len(),
        decreases chain.len() - i,
    {
        let len = chain[i].1.len();
        proof {
            lemma_nodes_view_len(chain@[i as int].1@);
            lemma_chain_nodes_step(cv, i as int);
            lemma_chain_nodes_prefix(cv, i as int + 1, chain@.len() as int);
            assert(cv.take(chain@.len() as int) =~= cv);
        }
        if len > COLLECT_LOADS_ITERATIONS_MAX as usize - total {
            return false;
        }
        total += len;
        i += 1;
    }
    assert(cv.take(i as int) =~= cv);
    true
}

pub proof fn lemma_chain_nodes_prefix(c: Seq<Seq<NodeModel>>, i: int, j: int)
    requires
        0 <= i <= j <= c.len(),
    ensures
        chain_nodes(c.take(i)).len() <= chain_nodes(c.take(j)).len(),
    decreases j - i,
{
    if i < j {
        lemma_chain_nodes_prefix(c, i, j - 1);
        lemma_chain_nodes_step(c, j - 1);
    }
}

/// The chain merged from its root ancestor down to `chain[0]`, the loads of
/// every template injected.  `chain` pairs each template's name with its
/// tree, the template first and each next entry the parent it extends.
pub fn merge_chain(chain: Vec<(String, Vec<AstNode>)>) -> (r: Result<Vec<AstNode>, Stop>)
    ensures
        match merge_chain_spec(chain_view(chain@)) {
            Merged::Done(v) => r is Ok && nodes_view(r->Ok_0@) == v,
            _ => r is Err && stopped(merge_chain_spec(chain_view(chain@)), r->Err_0),
        },
{
    let ghost cv = chain_view(chain@);
    let n = chain.len();
    if n == 0 || n > BLOCK_NESTING_DEPTH_MAX as usize || !chain_fits(&chain) {
        return Err(Stop::Limit);
    }
    let loads = collect_loads(&chain);
    let mut resolved = clone_nodes(chain[n - 1].1.as_slice());
    let mut k = n - 1;
    assert(cv.last() == nodes_view(resolved@));
    assert(!(merge_down(cv, n - 1, cv.last()) is Done) ==> merge_chain_spec(cv) == merge_down(
        cv,
        n - 1,
        cv.last(),
    ));
    while k > 0
        invariant
            0 <= k < n,
            n == chain@.len(),
            cv == chain_view(chain@),
            merge_down(cv, n - 1, cv.last()) == merge_down(cv, k as int, nodes_view(resolved@)),
            !(merge_down(cv, n - 1, cv.last()) is Done) ==> merge_chain_spec(cv) == merge_down(
                cv,
                n - 1,
                cv.last(),
            ),
        decreases k,
    {
        let child = &chain[k - 1].1;
        assert(cv[k - 1] == nodes_view(child@));
        match merge_into(&resolved, child) {
            Ok(v) => {
                resolved = v;
            },
            Err(e) => {
                return Err(e);
            },
        }
        k -= 1;
    }
    proof {
        lemma_nodes_view_len(loads@);
    }
    if loads.len() > INJECT_ITERATIONS_MAX as usize {
        return Err(Stop::Limit);
    }
    inject_loads(&mut resolved, loads);
    Ok(resolved)
}

/// The shape of the chain the resolver builds from a template: the template
/// first, every template but the last extending a parent, and the last
/// extending nothing unless the chain has reached `limit + 1` templates.
pub open spec fn chain_shape(cv: Seq<Seq<NodeModel>>, first: Seq<NodeModel>, limit: nat) -> bool {
    &&& 1 <= cv.len() <= limit + 1
    &&& cv[0] == first
    &&& forall|i: int| 0 <= i < cv.len() - 1 ==> (#[trigger] extends_of(cv[i])) is Some
    &&& (extends_of(cv.last()) is Some ==> cv.len() == limit + 1)
}

/// `r` is what the resolver answers for the merge outcome `m` of the
/// template `template`.
pub open spec fn merge_result(
    m: Merged<Seq<NodeModel>>,
    r: Result<Vec<AstNode>, CompileError>,
    template: Seq<char>,
) -> bool {
    match m {
        Merged::Done(v) => r is Ok && nodes_view(r->Ok_0@) == v,
        Merged::TooDeep => r == Err::<Vec<AstNode>, CompileError>(
            CompileError::AstDepthExceeded { max_depth: AST_DEPTH_MAX },
        ),
        Merged::Abort => (r matches Err(CompileError::NodeLimitExceeded { template: t, max }) && t@
            == template && max == REPLACE_NODES_MAX),
    }
}

/// Whether `v` holds `s`.
pub(crate) fn contains_string(v: &Vec<String>, s: &String) -> (r: bool)
    ensures
        r == exists|j: int| 0 <= j < v@.len() && (#[trigger] v@[j])@ == s@,
{
    let mut i: usize = 0;
    while i < v.len()
        invariant
            i <= v@.len(),
            forall|j: int| 0 <= j < i ==> (#[trigger] v@[j])@ != s@,
        decreases v.len() - i,
    {
        if v[i] == *s {
            assert(v@[i as int]@ == s@);
            return true;
        }
        i += 1;
    }
    false
}

/// How a walk up an inheritance chain ends.
pub enum Ending {
    /// The chain walked, the template first.
    Chain(Seq<Seq<NodeModel>>),
    /// The template of this name was found at a path already met.
    Circular(Seq<char>),
    /// There is no template for this parent name.
    ParentMissing(Seq<char>),
    /// The loader's own error.
    Loader(CompileError),
    /// This content, served for a parent, does not parse.
    Unparsed(Seq<char>),
    /// The parent of this name parsed to this many top-level nodes.
    TooMany(Seq<char>, nat),
    /// The loader was asked for a parent and no answer is at hand.
    Unanswered,
}

/// A walk up an inheritance chain: how it ends, and the requests it made of
/// the loader, each a parent name with the path excluded.
pub struct Walk {
    pub ending: Ending,
    pub requests: Seq<(Seq<char>, Option<Seq<char>>)>,
}

/// `w` after the templates `cv` and the requests `reqs`.
pub open spec fn walk_after(cv: Seq<Seq<NodeModel>>, reqs: Seq<(Seq<char>, Option<Seq<char>>)>, w: Walk) -> Walk {
    Walk {
        ending: match w.ending {
            Ending::Chain(c) => Ending::Chain(cv + c),
            e => e,
        },
        requests: reqs + w.requests,
    }
}

/// The walk up from the tree `nodes` of the template `name`, found at `path`,
/// the paths `visited` met before, with the loader's answers `answers` to its
/// requests in order, at most `n` templates more.  Each step records the
/// template's path; a template that extends a parent asks the loader for the
/// parent's name with its own path excluded, parses what is served and goes
/// on from there.
pub open spec fn walk_up(
    nodes: Seq<NodeModel>,
    name: Seq<char>,
    path: Option<Seq<char>>,
    visited: Seq<Seq<char>>,
    answers: Seq<Answer>,
    n: nat,
) -> Walk
    decreases n,
{
    if n == 0 {
        Walk { ending: Ending::Chain(seq![]), requests: seq![] }
    } else if path matches Some(p) && visited.contains(p) {
        Walk { ending: Ending::Circular(name), requests: seq![] }
    } else {
        let seen = match path {
            Some(p) => visited.push(p),
            None => visited,
        };
        match extends_of(nodes) {
            None => Walk { ending: Ending::Chain(seq![nodes]), requests: seq![] },
            Some(parent) => if parent.len() == 0 {
                Walk { ending: Ending::ParentMissing(parent), requests: seq![] }
            } else {
                let req = seq![(parent, path)];
                if answers.len() == 0 {
                    Walk { ending: Ending::Unanswered, requests: req }
                } else {
                    match answers[0] {
                        Err(e) => Walk { ending: Ending::Loader(e), requests: req },
                        Ok(None) => Walk { ending: Ending::ParentMissing(parent), requests: req },
                        Ok(Some(found)) => match parsed_nodes(found.1@) {
                            None => Walk { ending: Ending::Unparsed(found.1@), requests: req },
                            Some(ns) => if ns.len() > u32::MAX {
                                Walk { ending: Ending::TooMany(parent, ns.len()), requests: req }
                            } else {
                                walk_after(
                                    seq![nodes],
                                    req,
                                    walk_up(ns, parent, Some(found.0@), seen, answers.drop_first(), (n - 1) as nat),
                                )
                            },
                        },
                    }
                }
            },
        }
    }
}

/// `r` is what the resolver answers for the walk that ends with `e`.
pub open spec fn ending_result(e: Ending, r: Result<Vec<AstNode>, CompileError>, template: Seq<char>) -> bool {
    match e {
        Ending::Chain(cv) => merge_result(merge_chain_spec(cv), r, template),
        Ending::Circular(name) => r matches Err(CompileError::CircularInheritance { template: t })
            && t@ == name,
        Ending::ParentMissing(parent) => r matches Err(CompileError::ParentNotFound { path }) && path@
            == parent,
        Ending::Loader(err) => r == Err::<Vec<AstNode>, CompileError>(err),
        Ending::Unparsed(content) => r matches Err(CompileError::Parse(pe)) && parse_error_of(content, pe),
        Ending::TooMany(parent, count) => r matches Err(
            CompileError::ParsedNodeLimitExceeded { path, count: c, max },
        ) && path@ == parent && c == count && max == u32::MAX,
        Ending::Unanswered => false,
    }
}

/// The resolver's answer for the template `template` with the tree `nodes`,
/// found at `resolved`, when the loader answered its requests with
/// `answers`: the walk up the chain asks exactly those requests, each
/// answered as the loader did, and ends as `r` says.
pub open spec fn resolved_by<L: TemplateLoader>(
    loader: &L,
    nodes: Seq<NodeModel>,
    template: Seq<char>,
    resolved: Option<Seq<char>>,
    limit: nat,
    answers: Seq<Answer>,
    r: Result<Vec<AstNode>, CompileError>,
) -> bool {
    let w = walk_up(nodes, template, resolved, seq![], answers, limit + 1);
    &&& w.requests.len() == answers.len()
    &&& forall|k: int|
        0 <= k < answers.len() ==> #[trigger] answered_excluding(
            loader,
            w.requests[k].0,
            w.requests[k].1,
            answers[k],
        )
    &&& ending_result(w.ending, r, template)
}

/// Resolves the inheritance chain of `template`: its parents are loaded and
/// parsed up to `max_inheritance_depth` levels (a template at a path already
/// met is circular), then the chain is merged into the root ancestor's tree.
/// A template that extends nothing is merged on its own; a chain longer
/// than the limit is cut after `max_inheritance_depth + 1` templates.
pub fn resolve<L: TemplateLoader>(
    ast: Vec<AstNode>,
    template: &str,
    resolved: Option<String>,
    loader: &L,
    limits: &ResolveLimits,
) -> (r: Result<Vec<AstNode>, CompileError>)
    requires
        template@.len() > 0,
        limits.max_inheritance_depth > 0,
        ast@.len() <= u32::MAX,
    ensures
        exists|answers: Seq<Answer>|
            resolved_by(
                loader,
                nodes_view(ast@),
                template@,
                opt_string_view(resolved),
                limits.max_inheritance_depth as nat,
                answers,
                r,
            ),
        extends_of(nodes_view(ast@)) is None ==> merge_result(
            merge_chain_spec(seq![nodes_view(ast@)]),
            r,
            template@,
        ),
{
    resolve_chain(ast, template, resolved, loader, limits)
}

/// The chain merged, its errors reported for `template`.
fn finish(chain: Vec<(String, Vec<AstNode>)>, template: &str) -> (r: Result<Vec<AstNode>, CompileError>)
    ensures
        merge_result(merge_chain_spec(chain_view(chain@)), r, template@),
{
    match merge_chain(chain) {
        Ok(v) => Ok(v),
        Err(Stop::TooDeep) => Err(CompileError::AstDepthExceeded { max_depth: AST_DEPTH_MAX }),
        Err(Stop::Limit) => Err(
            CompileError::NodeLimitExceeded { template: template.to_owned(), max: REPLACE_NODES_MAX },
        ),
    }
}

proof fn lemma_walk_after_after(
    a: Seq<Seq<NodeModel>>,
    ra: Seq<(Seq<char>, Option<Seq<char>>)>,
    b: Seq<Seq<NodeModel>>,
    rb: Seq<(Seq<char>, Option<Seq<char>>)>,
    w: Walk,
)
    ensures
        walk_after(a, ra, walk_after(b, rb, w)) == walk_after(a + b, ra + rb, w),
{
    assert(ra + (rb + w.requests) =~= (ra + rb) + w.requests);
    match w.ending {
        Ending::Chain(c) => {
            assert(a + (b + c) =~= (a + b) + c);
        },
        _ => {},
    }
}

#[verifier::spinoff_prover]
#[verifier::rlimit(100)]
fn resolve_chain<L: TemplateLoader>(
    ast: Vec<AstNode>,
    template: &str,
    resolved: Option<String>,
    loader: &L,
    limits: &ResolveLimits,
) -> (r: Result<Vec<AstNode>, CompileError>)
    requires
        limits.max_inheritance_depth > 0,
        ast@.len() <= u32::MAX,
    ensures
        exists|answers: Seq<Answer>|
            resolved_by(
                loader,
                nodes_view(ast@),
                template@,
                opt_string_view(resolved),
                limits.max_inheritance_depth as nat,
                answers,
                r,
            ),
        extends_of(nodes_view(ast@)) is None ==> merge_result(
            merge_chain_spec(seq![nodes_view(ast@)]),
            r,
            template@,
        ),
{
    let limit = limits.max_inheritance_depth;
    let ghost first = nodes_view(ast@);
    let ghost path0 = opt_string_view(resolved);
    let ghost total: nat = limit as nat + 1;
    let mut visited: Vec<String> = Vec::new();
    let mut chain: Vec<(String, Vec<AstNode>)> = Vec::new();
    let mut nodes = ast;
    let mut name = template.to_owned();
    let mut path: Option<String> = resolved;
    let mut i: u64 = 0;
    let ghost mut past: Seq<Answer> = seq![];
    let ghost mut reqs: Seq<(Seq<char>, Option<Seq<char>>)> = seq![];
    proof {
        assert(strs(visited@) =~= Seq::<Seq<char>>::empty());
        assert(chain_view(chain@) =~= Seq::<Seq<NodeModel>>::empty());
        assert forall|fut: Seq<Answer>|
            #[trigger] walk_up(first, template@, path0, seq![], past + fut, total) == walk_after(
                chain_view(chain@),
                reqs,
                walk_up(nodes_view(nodes@), name@, opt_string_view(path), strs(visited@), fut, total),
            ) by {
            assert(past + fut =~= fut);
            let w = walk_up(first, template@, path0, seq![], fut, total);
            assert(reqs + w.requests =~= w.requests);
            match w.ending {
                Ending::Chain(c) => {
                    assert(chain_view(chain@) + c =~= c);
                },
                _ => {},
            }
        }
    }
    while i <= limit as u64
        invariant
            i <= limit as u64 + 1,
            chain@.len() == i,
            i == 0 ==> nodes_view(nodes@) == first,
            i == 0 ==> name@ == template@,
            i > 0 ==> chain_view(chain@)[0] == first,
            forall|j: int|
                0 <= j < chain@.len() ==> (#[trigger] extends_of(chain_view(chain@)[j])) is Some,
            extends_of(first) is None ==> i == 0,
            first == nodes_view(ast@),
            path0 == opt_string_view(resolved),
            total == limit as nat + 1,
            nodes@.len() <= u32::MAX,
            limit == limits.max_inheritance_depth,
            limit > 0,
            reqs.len() == past.len(),
            forall|k: int|
                0 <= k < past.len() ==> #[trigger] answered_excluding(
                    loader,
                    reqs[k].0,
                    reqs[k].1,
                    past[k],
                ),
            forall|fut: Seq<Answer>|
                #[trigger] walk_up(first, template@, path0, seq![], past + fut, total) == walk_after(
                    chain_view(chain@),
                    reqs,
                    walk_up(
                        nodes_view(nodes@),
                        name@,
                        opt_string_view(path),
                        strs(visited@),
                        fut,
                        (total - i) as nat,
                    ),
                ),
        decreases limit as u64 + 1 - i,
    {
        let ghost cur = nodes_view(nodes@);
        let ghost n: nat = (total - i) as nat;
        let ghost vis = strs(visited@);
        let ghost pv = opt_string_view(path);
        let ghost nm = name@;
        let ghost cv = chain_view(chain@);
        if chain.len() > limit as usize {
            return Err(CompileError::InheritanceDepthExceeded { max_depth: limit, template: name });
        }
        if let Some(p) = &path {
            if contains_string(&visited, p) {
                proof {
                    assert(vis.contains(p@)) by {
                        let j = choose|j: int| 0 <= j < visited@.len() && (#[trigger] visited@[j])@ == p@;
                        assert(vis[j] == visited@[j]@);
                    }
                    assert(past + seq![] =~= past);
                    assert(reqs + seq![] =~= reqs);
                    assert(resolved_by(loader, first, template@, path0, limit as nat, past, Err::<Vec<AstNode>, CompileError>(CompileError::CircularInheritance { template: name })));
                }
                return Err(CompileError::CircularInheritance { template: name });
            }
            proof {
                assert(!vis.contains(p@)) by {
                    if vis.contains(p@) {
                        let j = choose|j: int| 0 <= j < vis.len() && vis[j] == p@;
                        assert(visited@[j]@ == p@);
                    }
                }
            }
            visited.push(p.clone());
            proof {
                assert(strs(visited@) =~= vis.push(p@));
            }
        }
        let ghost before = chain@;
        match find_extends(nodes.as_slice()) {
            Some(e) => {
                assert(extends_of(first) is Some);
                let parent = e.parent_path.clone();
                let ghost nv = nodes_view(nodes@);
                chain.push((name, nodes));
                assert(chain@ == before.push((chain@.last().0, chain@.last().1)));
                assert(chain_view(chain@) =~= chain_view(before).push(nv));
                if parent.as_str().is_empty() {
                    proof {
                        assert(past + seq![] =~= past);
                        assert(reqs + seq![] =~= reqs);
                        assert(resolved_by(loader, first, template@, path0, limit as nat, past, Err::<Vec<AstNode>, CompileError>(CompileError::ParentNotFound { path: parent })));
                    }
                    return Err(CompileError::ParentNotFound { path: parent });
                }
                let exclude = match &path {
                    Some(p) => Some(p.as_str()),
                    None => None,
                };
                assert(crate::compiler::resolver::opt_str_view(exclude) == pv);
                let ans = loader.load_excluding(parent.as_str(), exclude);
                let ghost req = (parent@, pv);
                proof {
                    assert(answered_excluding(loader, parent@, pv, ans));
                    assert(seq![ans][0] == ans);
                }
                let ghost past2 = past.push(ans);
                let ghost reqs2 = reqs.push(req);
                proof {
                    assert(past + seq![ans] =~= past2);
                    assert(reqs + seq![req] =~= reqs2);
                    assert forall|k: int| 0 <= k < past2.len() implies #[trigger] answered_excluding(
                        loader,
                        reqs2[k].0,
                        reqs2[k].1,
                        past2[k],
                    ) by {
                        if k < past.len() {
                            assert(past2[k] == past[k]);
                            assert(reqs2[k] == reqs[k]);
                        }
                    }
                }
                match ans {
                    Err(e) => {
                        proof {
                            assert(resolved_by(loader, first, template@, path0, limit as nat, past2, Err::<Vec<AstNode>, CompileError>(e)));
                        }
                        return Err(e);
                    },
                    Ok(None) => {
                        proof {
                            assert(resolved_by(loader, first, template@, path0, limit as nat, past2, Err::<Vec<AstNode>, CompileError>(CompileError::ParentNotFound { path: parent })));
                        }
                        return Err(CompileError::ParentNotFound { path: parent });
                    },
                    Ok(Some(found)) => {
                        let ghost content = found.1@;
                        let (res, content_s) = found;
                        match crate::compiler::parser::parse(content_s.as_str()) {
                            Err(pe) => {
                                proof {
                                    assert(resolved_by(loader, first, template@, path0, limit as nat, past2, Err::<Vec<AstNode>, CompileError>(CompileError::Parse(pe))));
                                }
                                return Err(CompileError::Parse(pe));
                            },
                            Ok(out) => {
                                proof {
                                    lemma_nodes_view_len(out.nodes@);
                                    assert(parsed_nodes(content) == Some(nodes_view(out.nodes@)));
                                }
                                if out.nodes.len() > u32::MAX as usize {
                                    proof {
                                        assert(resolved_by(loader, first, template@, path0, limit as nat, past2, Err::<Vec<AstNode>, CompileError>(CompileError::ParsedNodeLimitExceeded {
                                            path: parent,
                                            count: out.nodes.len(),
                                            max: u32::MAX,
                                        })));
                                    }
                                    return Err(CompileError::ParsedNodeLimitExceeded {
                                        path: parent,
                                        count: out.nodes.len(),
                                        max: u32::MAX,
                                    });
                                }
                                let ghost res_v = res@;
                                nodes = out.nodes;
                                name = parent;
                                path = Some(res);
                                proof {
                                    let cv2 = chain_view(chain@);
                                    assert forall|fut: Seq<Answer>|
                                        #[trigger] walk_up(first, template@, path0, seq![], past2 + fut, total)
                                            == walk_after(
                                            cv2,
                                            reqs2,
                                            walk_up(
                                                nodes_view(nodes@),
                                                name@,
                                                opt_string_view(path),
                                                strs(visited@),
                                                fut,
                                                (total - (i + 1)) as nat,
                                            ),
                                        ) by {
                                        let f2 = seq![ans] + fut;
                                        assert(past + f2 =~= past2 + fut);
                                        assert(f2[0] == ans);
                                        assert(f2.drop_first() =~= fut);
                                        let rest = walk_up(
                                            nodes_view(nodes@),
                                            name@,
                                            opt_string_view(path),
                                            strs(visited@),
                                            fut,
                                            (n - 1) as nat,
                                        );
                                        assert(walk_up(cur, nm, pv, vis, f2, n) == walk_after(seq![cur], seq![req], rest));
                                        lemma_walk_after_after(cv, reqs, seq![cur], seq![req], rest);
                                        assert(cv + seq![cur] =~= cv2);
                                    }
                                    assert(past2.len() == reqs2.len());
                                }
                                proof {
                                    past = past2;
                                    reqs = reqs2;
                                }
                            },
                        }
                    },
                }
            },
            None => {
                let ghost nv = nodes_view(nodes@);
                chain.push((name, nodes));
                assert(chain_view(chain@) =~= chain_view(before).push(nv));
                let r = finish(chain, template);
                proof {
                    assert(past + seq![] =~= past);
                    assert(reqs + seq![] =~= reqs);
                    assert(cv + seq![cur] =~= chain_view(chain@));
                    assert(resolved_by(loader, first, template@, path0, limit as nat, past, r));
                    if extends_of(first) is None {
                        assert(chain_view(chain@) =~= seq![first]);
                    }
                }
                return r;
            },
        }
        i += 1;
    }
    proof {
        assert(past + seq![] =~= past);
        assert(reqs + seq![] =~= reqs);
        assert(chain_view(chain@) + Seq::<Seq<NodeModel>>::empty() =~= chain_view(chain@));
    }
    let r = finish(chain, template);
    proof {
        assert(resolved_by(loader, first, template@, path0, limit as nat, past, r));
    }
    r
}

/// A chain merged the way the resolver builds it extends nothing, and it
/// loads every library set that a template of the chain loads at its top.
pub proof fn law_resolved_chain(cv: Seq<Seq<NodeModel>>, first: Seq<NodeModel>, limit: nat)
    requires
        limit > 0,
        chain_shape(cv, first, limit),
        merge_chain_spec(cv) is Done,
    ensures
        extends_of(merge_chain_spec(cv)->Done_0) is None,
        forall|i: int|
            0 <= i < chain_nodes(cv).len() && (#[trigger] chain_nodes(cv)[i]) is Load
                ==> loads_libraries(
                merge_chain_spec(cv)->Done_0,
                load_libraries(chain_nodes(cv)[i])->0,
            ),
{
    let loads = collect_loads_spec(cv);
    let r = merge_down(cv, cv.len() - 1, cv.last())->Done_0;
    if cv.len() == 1 {
        assert(r == cv.last());
        lemma_extends_of_none(cv.last());
    } else {
        lemma_merge_down_no_extends(cv, cv.len() - 1, cv.last());
    }
    assert(no_extends(r));
    law_loads_collected(cv);
    lemma_missing_loads(r, loads);
    let inject = missing_loads(r, loads);
    let v = inject_spec(r, loads);
    assert(merge_chain_spec(cv)->Done_0 == v);
    if inject.len() > 0 {
        let k = inject_offset(r);
        lemma_inject_offset_bounds(r);
        assert(v == r.take(k) + inject + r.skip(k));
        assert forall|q: int| 0 <= q < v.len() implies !(#[trigger] v[q] is Extends) by {
            if q < k {
                assert(v[q] == r[q]);
            } else if q < k + inject.len() {
                assert(v[q] == inject[q - k]);
                let j = choose|j: int| 0 <= j < loads.len() && loads[j] == #[trigger] inject[q - k];
            } else {
                assert(v[q] == r[q - inject.len()]);
            }
        }
        assert forall|i: int|
            0 <= i < chain_nodes(cv).len() && (#[trigger] chain_nodes(cv)[i]) is Load implies loads_libraries(
            v,
            load_libraries(chain_nodes(cv)[i])->0,
        ) by {
            let l = load_libraries(chain_nodes(cv)[i])->0;
            if loads_libraries(r, l) {
                let q = choose|q: int| 0 <= q < r.len() && load_libraries(#[trigger] r[q]) == Some(l);
                if q < k {
                    assert(v[q] == r[q]);
                } else {
                    assert(v[q + inject.len()] == r[q]);
                }
            } else {
                let j = choose|j: int| 0 <= j < loads.len() && load_libraries(#[trigger] loads[j]) == Some(l);
                assert(loads[j] is Load);
                let t = choose|t: int| 0 <= t < inject.len() && inject[t] == loads[j];
                assert(v[k + t] == inject[t]);
            }
        }
    } else {
        assert forall|i: int|
            0 <= i < chain_nodes(cv).len() && (#[trigger] chain_nodes(cv)[i]) is Load implies loads_libraries(
            v,
            load_libraries(chain_nodes(cv)[i])->0,
        ) by {
            let l = load_libraries(chain_nodes(cv)[i])->0;
            if !loads_libraries(r, l) {
                let j = choose|j: int| 0 <= j < loads.len() && load_libraries(#[trigger] loads[j]) == Some(l);
                assert(loads[j] is Load);
            }
        }
    }
    lemma_extends_of_none(v);
}

} // verus!
