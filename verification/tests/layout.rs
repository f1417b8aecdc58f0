use bril::ir::{Type, Variable};
use bril::layout::{fewest_blocks, fits, keep_shared, next_layout_step, spend, split_if_else, LayoutStep, NodeKind};

#[test]
fn leaf_spends_one_block() {
    assert_eq!(
        next_layout_step(5, 0, NodeKind::LeafBlock, 7, 9),
        Some(LayoutStep { kind: NodeKind::LeafBlock, sub_depth: 0, sub_blocks: 1 })
    );
}

#[test]
fn if_else_needs_depth_and_two_blocks() {
    assert!(!fits(5, 0, NodeKind::IfElse));
    assert!(!fits(1, 3, NodeKind::IfElse));
    assert!(fits(5, 3, NodeKind::IfElse));
    assert_eq!(fewest_blocks(NodeKind::IfElse), 2);
    assert_eq!(next_layout_step(5, 0, NodeKind::IfElse, 0, 0), None);
    assert_eq!(next_layout_step(1, 3, NodeKind::IfElse, 0, 0), None);
    assert_eq!(
        next_layout_step(5, 3, NodeKind::IfElse, 1, 3),
        Some(LayoutStep { kind: NodeKind::IfElse, sub_depth: 1, sub_blocks: 3 })
    );
}

#[test]
fn loop_needs_depth() {
    assert!(!fits(5, 0, NodeKind::Loop));
    assert_eq!(fewest_blocks(NodeKind::Loop), 1);
    assert_eq!(next_layout_step(5, 0, NodeKind::Loop, 0, 0), None);
    assert_eq!(
        next_layout_step(5, 2, NodeKind::Loop, 1, 5),
        Some(LayoutStep { kind: NodeKind::Loop, sub_depth: 1, sub_blocks: 5 })
    );
}

#[test]
fn budget_shrinks_by_the_blocks_spent() {
    let step = LayoutStep { kind: NodeKind::Loop, sub_depth: 0, sub_blocks: 3 };
    assert_eq!(spend(5, step), 2);
    assert_eq!(spend(3, step), 0);
}

#[test]
fn branches_share_the_blocks() {
    assert_eq!(split_if_else(2, 1), (1, 1));
    assert_eq!(split_if_else(5, 3), (3, 2));
    assert_eq!(split_if_else(5, 4), (4, 1));
}

#[test]
fn only_variables_live_in_both_branches_stay() {
    let a = Variable(0, Type::Int);
    let b = Variable(1, Type::Int);
    let c = Variable(2, Type::Int);
    let mut vars = vec![a, b, c];
    keep_shared(&mut vars, &vec![c, a, Variable(9, Type::Int)]);
    assert_eq!(vars, vec![a, c]);
    let mut none = vec![a];
    keep_shared(&mut none, &vec![]);
    assert_eq!(none, vec![]);
}
