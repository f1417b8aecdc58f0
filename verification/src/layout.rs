//! The shape of generated programs: how a budget of blocks is spent on
//! straight-line blocks, if/else nodes and loops, nested to a bounded depth.
//! The random draws are made by the caller; this module decides what each
//! draw means.
use vstd::prelude::*;

use crate::ir::Variable;

verus! {

/// The kind of node drawn next: a straight-line block, an if/else node or
/// a loop.
#[derive(Debug, PartialEq, Eq, Clone, Copy, Structural)]
pub enum NodeKind {
    LeafBlock,
    IfElse,
    Loop,
}

/// A node placed in a layout: its kind, the nesting depth allowed below it
/// and the blocks it spends.
#[derive(Debug, PartialEq, Eq, Clone, Copy, Structural)]
pub struct LayoutStep {
    pub kind: NodeKind,
    pub sub_depth: usize,
    pub sub_blocks: usize,
}

/// Whether a node of kind `kind` fits with `budget` blocks left and nesting
/// depth `max_block_depth` allowed: a leaf always; an if/else node where
/// depth is allowed and two blocks are left; a loop where depth is allowed.
pub open spec fn node_fits(budget: nat, max_block_depth: nat, kind: NodeKind) -> bool {
    match kind {
        NodeKind::LeafBlock => true,
        NodeKind::IfElse => max_block_depth > 0 && budget >= 2,
        NodeKind::Loop => max_block_depth > 0,
    }
}

/// The fewest blocks a node of kind `kind` spends: two for an if/else
/// node, one otherwise.
pub open spec fn min_blocks(kind: NodeKind) -> nat {
    match kind {
        NodeKind::IfElse => 2,
        _ => 1,
    }
}

/// What a node of kind `kind` drawn with `budget` blocks left and depth
/// `max_block_depth` allowed becomes, given the depth below it and the
/// blocks it spends as drawn: a leaf spends one block; an if/else node or a
/// loop spends the blocks drawn with the depth drawn below it. `None` where
/// the node does not fit.
pub open spec fn layout_step(budget: nat, max_block_depth: nat, kind: NodeKind, sub_depth: nat, sub_blocks: nat) -> Option<
    LayoutStep,
> {
    if !node_fits(budget, max_block_depth, kind) {
        None
    } else if kind == NodeKind::LeafBlock {
        Some(LayoutStep { kind, sub_depth: 0, sub_blocks: 1 })
    } else {
        Some(LayoutStep { kind, sub_depth: sub_depth as usize, sub_blocks: sub_blocks as usize })
    }
}

/// Whether a node of kind `kind` fits.
pub fn fits(budget: usize, max_block_depth: usize, kind: NodeKind) -> (r: bool)
    ensures
        r == node_fits(budget as nat, max_block_depth as nat, kind),
{
    match kind {
        NodeKind::LeafBlock => true,
        NodeKind::IfElse => max_block_depth > 0 && budget >= 2,
        NodeKind::Loop => max_block_depth > 0,
    }
}

/// The fewest blocks a node of kind `kind` spends.
pub fn fewest_blocks(kind: NodeKind) -> (r: usize)
    ensures
        r == min_blocks(kind),
{
    match kind {
        NodeKind::IfElse => 2,
        _ => 1,
    }
}

/// The next node of a layout with `budget` blocks left, from a drawn kind
/// and, for an if/else node or a loop, the drawn depth below it (below
/// `max_block_depth`) and blocks it spends (from `fewest_blocks` up to
/// `budget`).
pub fn next_layout_step(budget: usize, max_block_depth: usize, kind: NodeKind, sub_depth: usize, sub_blocks: usize) -> (r: Option<
    LayoutStep,
>)
    requires
        budget > 0,
        node_fits(budget as nat, max_block_depth as nat, kind) && kind != NodeKind::LeafBlock ==> sub_depth < max_block_depth
            && min_blocks(kind) <= sub_blocks <= budget,
    ensures
        r == layout_step(budget as nat, max_block_depth as nat, kind, sub_depth as nat, sub_blocks as nat),
        r is Some ==> 1 <= r->0.sub_blocks <= budget,
{
    if !fits(budget, max_block_depth, kind) {
        None
    } else {
        match kind {
            NodeKind::LeafBlock => Some(LayoutStep { kind, sub_depth: 0, sub_blocks: 1 }),
            _ => Some(LayoutStep { kind, sub_depth, sub_blocks }),
        }
    }
}

/// The blocks left after a node that spends `step.sub_blocks` of them.
pub fn spend(budget: usize, step: LayoutStep) -> (r: usize)
    requires
        step.sub_blocks <= budget,
    ensures
        r == budget - step.sub_blocks,
{
    budget - step.sub_blocks
}

/// How the blocks of an if/else node are shared between its branches: the
/// `then` branch gets the drawn number, from one to all but one of them,
/// the `else` branch the rest.
pub fn split_if_else(num_blocks: usize, then_blocks: usize) -> (r: (usize, usize))
    requires
        1 <= then_blocks < num_blocks,
    ensures
        r.0 == then_blocks,
        r.1 == num_blocks - then_blocks,
        r.1 >= 1,
{
    (then_blocks, num_blocks - then_blocks)
}

/// The variables of `vars` that `other` holds too, in order.
pub open spec fn shared_vars(vars: Seq<Variable>, other: Seq<Variable>) -> Seq<Variable>
    decreases vars.len(),
{
    if vars.len() == 0 {
        Seq::empty()
    } else {
        let prev = shared_vars(vars.drop_last(), other);
        if other.contains(vars.last()) {
            prev.push(vars.last())
        } else {
            prev
        }
    }
}

/// Keeps the variables of `vars` that `other` holds too: after an if/else
/// node, a variable is live only where both branches left it live.
pub fn keep_shared(vars: &mut Vec<Variable>, other: &Vec<Variable>)
    ensures
        final(vars)@ == shared_vars(old(vars)@, other@),
{
    let mut kept: Vec<Variable> = Vec::new();
    let mut i: usize = 0;
    while i < vars.len()
        invariant
            i <= vars@.len(),
            vars@ == old(vars)@,
            kept@ == shared_vars(vars@.take(i as int), other@),
        decreases vars.len() - i,
    {
        let v = vars[i];
        let mut found = false;
        let mut j: usize = 0;
        while j < other.len()
            invariant
                j <= other@.len(),
                found == exists|k: int| 0 <= k < j && other@[k] == v,
            decreases other.len() - j,
        {
            if other[j] == v {
                found = true;
            }
            j = j + 1;
        }
        proof {
            assert(vars@.take(i + 1).drop_last() =~= vars@.take(i as int));
            assert(vars@.take(i + 1).last() == v);
            if other@.contains(v) {
                let k = choose|k: int| 0 <= k < other@.len() && other@[k] == v;
            }
        }
        if found {
            kept.push(v);
        }
        i = i + 1;
    }
    proof {
        assert(vars@.take(vars@.len() as int) =~= vars@);
    }
    *vars = kept;
}

/// A layout as it is generated: a sequence of nodes, each a straight-line
/// block, an if/else node with the depth allowed below it, the blocks of
/// each branch and the branches' layouts, or a loop with the depth allowed
/// below it, its blocks and its body's layout.
pub enum LayoutNode {
    Leaf,
    IfElse(nat, nat, nat, Seq<LayoutNode>, Seq<LayoutNode>),
    Loop(nat, nat, Seq<LayoutNode>),
}

/// `nodes` is what drawing nodes with `next_layout_step` until `budget`
/// blocks are spent yields at nesting depth `max_depth`: a leaf spends one
/// block; an if/else node spends the blocks of its two non-empty branches,
/// and a loop those of its body, each laid out the same way at a lower
/// depth.
pub open spec fn planned(nodes: Seq<LayoutNode>, budget: nat, max_depth: nat) -> bool
    decreases nodes,
{
    if nodes.len() == 0 {
        budget == 0
    } else {
        let rest = nodes.subrange(1, nodes.len() as int);
        match nodes[0] {
            LayoutNode::Leaf => budget >= 1 && planned(rest, (budget - 1) as nat, max_depth),
            LayoutNode::IfElse(d, x, y, a, b) => {
                &&& max_depth >= 1
                &&& d < max_depth
                &&& x >= 1
                &&& y >= 1
                &&& x + y <= budget
                &&& planned(a, x, d)
                &&& planned(b, y, d)
                &&& planned(rest, (budget - x - y) as nat, max_depth)
            },
            LayoutNode::Loop(d, x, a) => {
                &&& max_depth >= 1
                &&& d < max_depth
                &&& 1 <= x <= budget
                &&& planned(a, x, d)
                &&& planned(rest, (budget - x) as nat, max_depth)
            },
        }
    }
}

/// The straight-line blocks of a layout.
pub open spec fn leaf_blocks(nodes: Seq<LayoutNode>) -> nat
    decreases nodes,
{
    if nodes.len() == 0 {
        0
    } else {
        let rest = nodes.subrange(1, nodes.len() as int);
        leaf_blocks(rest) + match nodes[0] {
            LayoutNode::Leaf => 1,
            LayoutNode::IfElse(_, _, _, a, b) => leaf_blocks(a) + leaf_blocks(b),
            LayoutNode::Loop(_, _, a) => leaf_blocks(a),
        }
    }
}

/// The most if/else and loop nodes nested on one path through a layout.
pub open spec fn nesting(nodes: Seq<LayoutNode>) -> nat
    decreases nodes,
{
    if nodes.len() == 0 {
        0
    } else {
        let rest = nodes.subrange(1, nodes.len() as int);
        let here = match nodes[0] {
            LayoutNode::Leaf => 0,
            LayoutNode::IfElse(_, _, _, a, b) => 1 + if nesting(a) > nesting(b) {
                nesting(a)
            } else {
                nesting(b)
            },
            LayoutNode::Loop(_, _, a) => 1 + nesting(a),
        };
        if here > nesting(rest) {
            here
        } else {
            nesting(rest)
        }
    }
}

/// Each step that `next_layout_step` takes fits a layout: it spends at
/// least one of the blocks left, and an if/else node or a loop lowers the
/// depth allowed below it and spends enough blocks for its branches.
pub proof fn lemma_step_fits(budget: nat, max_block_depth: nat, kind: NodeKind, sub_depth: nat, sub_blocks: nat)
    requires
        0 < budget <= usize::MAX,
        max_block_depth <= usize::MAX,
        node_fits(budget, max_block_depth, kind) && kind != NodeKind::LeafBlock ==> sub_depth < max_block_depth && min_blocks(kind)
            <= sub_blocks <= budget,
    ensures
        ({
            match layout_step(budget, max_block_depth, kind, sub_depth, sub_blocks) {
                Some(st) => {
                    &&& 1 <= st.sub_blocks <= budget
                    &&& st.kind == kind
                    &&& kind == NodeKind::LeafBlock ==> st.sub_blocks == 1
                    &&& kind != NodeKind::LeafBlock ==> max_block_depth >= 1 && st.sub_depth < max_block_depth
                    &&& kind == NodeKind::IfElse ==> st.sub_blocks >= 2
                },
                None => kind != NodeKind::LeafBlock,
            }
        }),
{
}

/// A layout drawn until its budget is spent holds exactly that many
/// straight-line blocks, and nests no more if/else and loop nodes on any
/// path than the depth it was allowed.
pub proof fn lemma_planned_layout(nodes: Seq<LayoutNode>, budget: nat, max_depth: nat)
    requires
        planned(nodes, budget, max_depth),
    ensures
        leaf_blocks(nodes) == budget,
        nesting(nodes) <= max_depth,
    decreases nodes,
{
    if nodes.len() > 0 {
        let rest = nodes.subrange(1, nodes.len() as int);
        match nodes[0] {
            LayoutNode::Leaf => {
                lemma_planned_layout(rest, (budget - 1) as nat, max_depth);
            },
            LayoutNode::IfElse(d, x, y, a, b) => {
                lemma_planned_layout(a, x, d);
                lemma_planned_layout(b, y, d);
                lemma_planned_layout(rest, (budget - x - y) as nat, max_depth);
            },
            LayoutNode::Loop(d, x, a) => {
                lemma_planned_layout(a, x, d);
                lemma_planned_layout(rest, (budget - x) as nat, max_depth);
            },
        }
    }
}

} // verus!
