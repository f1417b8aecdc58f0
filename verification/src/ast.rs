//! Structured programs: instructions, two-way branches, sequences and loops,
//! stored in an arena where each node refers to nodes by index.
use vstd::prelude::*;

use crate::ir::{Instruction, Variable};

verus! {

/// Index of a node of the arena.
#[derive(Debug, PartialEq, Eq, Clone, Copy, Structural)]
pub struct AstIdx(pub usize);

/// A node of a structured program.
pub enum Ast {
    Instruction(Instruction),
    If(Variable, AstIdx, AstIdx),
    Sequence(Vec<AstIdx>),
    Loop(Variable, AstIdx),
}

/// The tree below node `i` refers only to earlier nodes and holds no loop.
pub open spec fn loop_free(ast: Seq<Ast>, i: int) -> bool
    decreases i, 1int, 0int,
{
    if 0 <= i < ast.len() {
        match ast[i] {
            Ast::Instruction(_) => true,
            Ast::If(_, t, f) => t.0 < i && f.0 < i && loop_free(ast, t.0 as int) && loop_free(ast, f.0 as int),
            Ast::Sequence(children) => children_loop_free(ast, i, children@, children@.len() as int),
            Ast::Loop(_, _) => false,
        }
    } else {
        false
    }
}

/// The first `k` children of node `i` come before it and are loop free.
pub open spec fn children_loop_free(ast: Seq<Ast>, i: int, children: Seq<AstIdx>, k: int) -> bool
    decreases i, 0int, k,
{
    if k <= 0 || k > children.len() {
        k == 0
    } else {
        children_loop_free(ast, i, children, k - 1) && children[k - 1].0 < i && loop_free(
            ast,
            children[k - 1].0 as int,
        )
    }
}

/// A bound on what translating the tree below node `i` adds: one for each
/// instruction, sixteen for each branch.
pub open spec fn ast_cost(ast: Seq<Ast>, i: int) -> nat
    decreases i, 1int, 0int,
{
    if 0 <= i < ast.len() {
        match ast[i] {
            Ast::Instruction(_) => 1,
            Ast::If(_, t, f) => if t.0 < i && f.0 < i {
                16 + ast_cost(ast, t.0 as int) + ast_cost(ast, f.0 as int)
            } else {
                0
            },
            Ast::Sequence(children) => children_cost(ast, i, children@, children@.len() as int),
            Ast::Loop(_, _) => 0,
        }
    } else {
        0
    }
}

/// The cost of the first `k` children of node `i`.
pub open spec fn children_cost(ast: Seq<Ast>, i: int, children: Seq<AstIdx>, k: int) -> nat
    decreases i, 0int, k,
{
    if k <= 0 || k > children.len() {
        0
    } else {
        children_cost(ast, i, children, k - 1) + if children[k - 1].0 < i {
            ast_cost(ast, children[k - 1].0 as int)
        } else {
            0
        }
    }
}

} // verus!
