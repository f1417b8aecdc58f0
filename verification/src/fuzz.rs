//! Random instructions for generated programs: what a random choice of a
//! type, an operation or a constant becomes.
use vstd::prelude::*;

use crate::ir::{Instruction, InstructionView, Type, Value, Variable, NO_INDEX};

verus! {

/// A randomly chosen type.
pub struct FuzzedType(pub Type);

/// A randomly chosen constant instruction, its destination not set yet.
pub struct FuzzedConstInstr(pub Instruction);

/// A randomly chosen value instruction, its variables not set yet.
pub struct FuzzedValueInstr(pub Instruction);

/// The variable of type `ty` that stands for one not chosen yet.
pub open spec fn undef_var(ty: Type) -> Variable {
    Variable(NO_INDEX, ty)
}

/// Operation `op` over operands of type `ty`: over integers add, sub, div
/// and mul; over booleans the comparisons lt, gt, le, ge and eq of integers,
/// then and, or and not.
pub open spec fn value_choice(ty: Type, op: nat) -> InstructionView {
    let i = undef_var(Type::Int);
    let b = undef_var(Type::Bool);
    match ty {
        Type::Int => if op == 0 {
            InstructionView::Add(i, i, i)
        } else if op == 1 {
            InstructionView::Sub(i, i, i)
        } else if op == 2 {
            InstructionView::Div(i, i, i)
        } else {
            InstructionView::Mul(i, i, i)
        },
        Type::Bool => if op == 0 {
            InstructionView::Lt(b, i, i)
        } else if op == 1 {
            InstructionView::Gt(b, i, i)
        } else if op == 2 {
            InstructionView::Le(b, i, i)
        } else if op == 3 {
            InstructionView::Ge(b, i, i)
        } else if op == 4 {
            InstructionView::Eq(b, i, i)
        } else if op == 5 {
            InstructionView::And(b, b, b)
        } else if op == 6 {
            InstructionView::Or(b, b, b)
        } else {
            InstructionView::Not(b, b)
        },
    }
}

/// The number of operations over operands of type `ty`.
pub open spec fn num_value_choices(ty: Type) -> nat {
    match ty {
        Type::Int => 4,
        Type::Bool => 8,
    }
}

impl FuzzedType {
    /// Choice `k` among the integer type (0) and the boolean type (1).
    pub fn from_choice(k: usize) -> (r: Self)
        requires
            k < 2,
        ensures
            r.0 == if k == 0 {
                Type::Int
            } else {
                Type::Bool
            },
    {
        if k == 0 {
            FuzzedType(Type::Int)
        } else {
            FuzzedType(Type::Bool)
        }
    }
}

impl FuzzedConstInstr {
    /// A constant of type `ty`: `flag` if boolean, `small` if integer.
    pub fn from_choice(ty: FuzzedType, flag: bool, small: i8) -> (r: Self)
        ensures
            r.0@ == match ty.0 {
                Type::Bool => InstructionView::Const(undef_var(Type::Bool), Value::Bool(flag)),
                Type::Int => InstructionView::Const(undef_var(Type::Int), Value::Int(small as i64)),
            },
    {
        match ty.0 {
            Type::Bool => FuzzedConstInstr(Instruction::Const(Variable(NO_INDEX, Type::Bool), Value::Bool(flag))),
            Type::Int => FuzzedConstInstr(Instruction::Const(Variable(NO_INDEX, Type::Int), Value::Int(small as i64))),
        }
    }
}

impl FuzzedValueInstr {
    /// Operation `op` over operands of type `ty`, as `value_choice` lists
    /// them.
    pub fn from_choice(ty: FuzzedType, op: usize) -> (r: Self)
        requires
            op < num_value_choices(ty.0),
        ensures
            r.0@ == value_choice(ty.0, op as nat),
    {
        let i = Variable(NO_INDEX, Type::Int);
        let b = Variable(NO_INDEX, Type::Bool);
        let instr = match ty.0 {
            Type::Int => if op == 0 {
                Instruction::Add(i, i, i)
            } else if op == 1 {
                Instruction::Sub(i, i, i)
            } else if op == 2 {
                Instruction::Div(i, i, i)
            } else {
                Instruction::Mul(i, i, i)
            },
            Type::Bool => if op == 0 {
                Instruction::Lt(b, i, i)
            } else if op == 1 {
                Instruction::Gt(b, i, i)
            } else if op == 2 {
                Instruction::Le(b, i, i)
            } else if op == 3 {
                Instruction::Ge(b, i, i)
            } else if op == 4 {
                Instruction::Eq(b, i, i)
            } else if op == 5 {
                Instruction::And(b, b, b)
            } else if op == 6 {
                Instruction::Or(b, b, b)
            } else {
                Instruction::Not(b, b)
            },
        };
        FuzzedValueInstr(instr)
    }
}

} // verus!
