//! The order in which a stack traversal visits the nodes of a syntax tree:
//! a list is visited node by node, each node pushing its child lists, and
//! the most recently pushed list is visited next.
use vstd::prelude::*;
use crate::compiler::ast::{
    node_children, node_view, nodes_view, opt_list, slices_view, AstNode, ElifModel, NodeModel,
};

verus! {

/// Number of nodes in the tree of `n`.
pub open spec fn node_size(n: NodeModel) -> nat
    decreases n, 1nat,
{
    match n {
        NodeModel::Block { content, .. } => 1 + list_size(content),
        NodeModel::If { true_branch, elif_branches, else_branch, .. } => 1 + list_size(true_branch)
            + elifs_size(elif_branches) + opt_size(else_branch),
        NodeModel::For { body, empty_branch, .. } => 1 + list_size(body) + opt_size(empty_branch),
        NodeModel::With { body, .. } => 1 + list_size(body),
        NodeModel::Autoescape { body, .. } => 1 + list_size(body),
        NodeModel::Blocktranslate { body, .. } => 1 + list_size(body),
        NodeModel::Language { body, .. } => 1 + list_size(body),
        NodeModel::FilterBlock { body, .. } => 1 + list_size(body),
        NodeModel::Cache { body, .. } => 1 + list_size(body),
        NodeModel::Localize { body, .. } => 1 + list_size(body),
        NodeModel::Localtime { body, .. } => 1 + list_size(body),
        NodeModel::Spaceless { body, .. } => 1 + list_size(body),
        NodeModel::Timezone { body, .. } => 1 + list_size(body),
        NodeModel::Utc { body, .. } => 1 + list_size(body),
        NodeModel::Ifchanged { true_branch, else_branch, .. } => 1 + list_size(true_branch)
            + opt_size(else_branch),
        _ => 1,
    }
}

pub open spec fn list_size(s: Seq<NodeModel>) -> nat
    decreases s, 0nat,
{
    if s.len() == 0 {
        0
    } else {
        list_size(s.drop_last()) + node_size(s.last())
    }
}

pub open spec fn elifs_size(es: Seq<ElifModel>) -> nat
    decreases es, 0nat,
{
    if es.len() == 0 {
        0
    } else {
        elifs_size(es.drop_last()) + list_size(es.last().body)
    }
}

pub open spec fn opt_size(o: Option<Seq<NodeModel>>) -> nat
    decreases o, 0nat,
{
    match o {
        Some(s) => list_size(s),
        None => 0,
    }
}

/// Number of nodes in all the lists of `ss`.
pub open spec fn lists_size(ss: Seq<Seq<NodeModel>>) -> nat
    decreases ss.len(),
{
    if ss.len() == 0 {
        0
    } else {
        lists_size(ss.drop_last()) + list_size(ss.last())
    }
}

/// The child lists of the nodes of `s`, in order.
pub open spec fn all_children(s: Seq<NodeModel>) -> Seq<Seq<NodeModel>>
    decreases s.len(),
{
    if s.len() == 0 {
        seq![]
    } else {
        all_children(s.drop_last()) + node_children(s.last())
    }
}

pub proof fn lemma_lists_size_concat(a: Seq<Seq<NodeModel>>, b: Seq<Seq<NodeModel>>)
    ensures
        lists_size(a + b) == lists_size(a) + lists_size(b),
    decreases b.len(),
{
    if b.len() == 0 {
        assert(a + b =~= a);
    } else {
        lemma_lists_size_concat(a, b.drop_last());
        assert((a + b).drop_last() =~= a + b.drop_last());
    }
}

pub proof fn lemma_elifs_size(es: Seq<ElifModel>)
    ensures
        elifs_size(es) == lists_size(es.map_values(|e: ElifModel| e.body)),
    decreases es.len(),
{
    if es.len() > 0 {
        lemma_elifs_size(es.drop_last());
        assert(es.map_values(|e: ElifModel| e.body).drop_last() =~= es.drop_last().map_values(
            |e: ElifModel| e.body,
        ));
    }
}

pub proof fn lemma_node_children_size(n: NodeModel)
    ensures
        lists_size(node_children(n)) + 1 == node_size(n),
{
    assert(lists_size(Seq::<Seq<NodeModel>>::empty()) == 0);
    match n {
        NodeModel::If { true_branch, elif_branches, else_branch, .. } => {
            let bodies = elif_branches.map_values(|e: ElifModel| e.body);
            lemma_elifs_size(elif_branches);
            lemma_lists_size_concat(seq![true_branch], bodies);
            lemma_lists_size_concat(seq![true_branch] + bodies, opt_list(else_branch));
            assert(seq![true_branch].drop_last() =~= Seq::<Seq<NodeModel>>::empty());
            match else_branch {
                Some(b) => {
                    assert(seq![b].drop_last() =~= Seq::<Seq<NodeModel>>::empty());
                },
                None => {},
            }
        },
        NodeModel::For { body, empty_branch, .. } => {
            lemma_lists_size_concat(seq![body], opt_list(empty_branch));
            assert(seq![body].drop_last() =~= Seq::<Seq<NodeModel>>::empty());
            match empty_branch {
                Some(b) => {
                    assert(seq![b].drop_last() =~= Seq::<Seq<NodeModel>>::empty());
                },
                None => {},
            }
        },
        NodeModel::Ifchanged { true_branch, else_branch, .. } => {
            lemma_lists_size_concat(seq![true_branch], opt_list(else_branch));
            assert(seq![true_branch].drop_last() =~= Seq::<Seq<NodeModel>>::empty());
            match else_branch {
                Some(b) => {
                    assert(seq![b].drop_last() =~= Seq::<Seq<NodeModel>>::empty());
                },
                None => {},
            }
        },
        _ => {
            if node_children(n).len() > 0 {
                assert(node_children(n).drop_last() =~= Seq::<Seq<NodeModel>>::empty());
            }
        },
    }
}

pub proof fn lemma_all_children_size(s: Seq<NodeModel>)
    ensures
        lists_size(all_children(s)) + s.len() == list_size(s),
    decreases s.len(),
{
    if s.len() > 0 {
        lemma_all_children_size(s.drop_last());
        lemma_lists_size_concat(all_children(s.drop_last()), node_children(s.last()));
        lemma_node_children_size(s.last());
    }
}

/// The nodes visited from the stack of lists `stack` (top last), in order.
pub open spec fn walk_from(stack: Seq<Seq<NodeModel>>) -> Seq<NodeModel>
    decreases lists_size(stack), stack.len(),
{
    if stack.len() == 0 {
        seq![]
    } else {
        let top = stack.last();
        let next = stack.drop_last() + all_children(top);
        proof {
            lemma_lists_size_concat(stack.drop_last(), all_children(top));
            lemma_all_children_size(top);
        }
        top + walk_from(next)
    }
}

/// The nodes of the tree of `s` in the order a stack traversal visits them.
pub open spec fn walk(s: Seq<NodeModel>) -> Seq<NodeModel> {
    walk_from(seq![s])
}

pub open spec fn refs_view(v: Seq<&AstNode>) -> Seq<NodeModel> {
    v.map_values(|r: &AstNode| node_view(*r))
}

pub proof fn lemma_all_children_push(s: Seq<NodeModel>, n: NodeModel)
    ensures
        all_children(s.push(n)) == all_children(s) + node_children(n),
{
    assert(s.push(n).drop_last() =~= s);
}

/// The nodes under `nodes`, in the order a stack traversal visits them.
pub fn walk_nodes<'a>(nodes: &'a [AstNode]) -> (r: Vec<&'a AstNode>)
    ensures
        refs_view(r@) == walk(nodes_view(nodes@)),
{
    let mut stack: Vec<&'a [AstNode]> = Vec::new();
    stack.push(nodes);
    let mut out: Vec<&'a AstNode> = Vec::new();
    let ghost total = walk(nodes_view(nodes@));
    assert(slices_view(stack@) =~= seq![nodes_view(nodes@)]);
    assert(refs_view(out@) + walk_from(slices_view(stack@)) =~= total);
    while stack.len() > 0
        invariant
            total == walk(nodes_view(nodes@)),
            total == refs_view(out@) + walk_from(slices_view(stack@)),
        decreases lists_size(slices_view(stack@)), stack@.len(),
    {
        let ghost st0 = slices_view(stack@);
        let top = stack.pop().unwrap();
        let ghost rest = slices_view(stack@);
        let ghost t = nodes_view(top@);
        proof {
            assert(st0.drop_last() =~= rest);
            assert(st0.last() == t);
            lemma_lists_size_concat(rest, all_children(t));
            lemma_all_children_size(t);
            lemma_nodes_view_len(top@);
        }
        let ghost out0 = refs_view(out@);
        let mut i: usize = 0;
        assert(t.skip(0) =~= t);
        assert(all_children(t.take(0)) =~= Seq::<Seq<NodeModel>>::empty());
        assert(rest + all_children(t.take(0)) =~= rest);
        while i < top.len()
            invariant
                i <= top@.len(),
                t == nodes_view(top@),
                t.len() == top@.len(),
                slices_view(stack@) == rest + all_children(t.take(i as int)),
                refs_view(out@) == out0 + t.take(i as int),
            decreases top.len() - i,
        {
            let node = &top[i];
            assert(t[i as int] == node_view(*node)) by {
                lemma_nodes_view_index(top@, i as int);
            }
            let ghost before = refs_view(out@);
            out.push(node);
            assert(refs_view(out@) =~= before.push(node_view(*node)));
            node.push_child_slices(&mut stack);
            proof {
                assert(t.take(i + 1) =~= t.take(i as int).push(t[i as int]));
                lemma_all_children_push(t.take(i as int), t[i as int]);
            }
            i += 1;
            assert(refs_view(out@) =~= out0 + t.take(i as int));
            assert(slices_view(stack@) =~= rest + all_children(t.take(i as int)));
        }
        proof {
            assert(t.take(i as int) =~= t);
            assert(rest + all_children(t) =~= st0.drop_last() + all_children(st0.last()));
            assert(out0 + t + walk_from(rest + all_children(t)) =~= out0 + (t + walk_from(
                rest + all_children(t),
            )));
        }
    }
    assert(refs_view(out@) + walk_from(slices_view(stack@)) =~= refs_view(out@));
    out
}

pub proof fn lemma_nodes_view_index(v: Seq<AstNode>, i: int)
    requires
        0 <= i < v.len(),
    ensures
        nodes_view(v).len() == v.len(),
        nodes_view(v)[i] == node_view(v[i]),
    decreases v.len(),
{
    if i < v.len() - 1 {
        lemma_nodes_view_index(v.drop_last(), i);
    }
    lemma_nodes_view_len(v);
}

pub proof fn lemma_nodes_view_len(v: Seq<AstNode>)
    ensures
        nodes_view(v).len() == v.len(),
    decreases v.len(),
{
    if v.len() > 0 {
        lemma_nodes_view_len(v.drop_last());
    }
}

} // verus!
