//! Filling in the operands and destination of value instructions, as a
//! program generator does once it has chosen an operation.
use vstd::prelude::*;

use crate::ir::{named_args, named_dest, opcode, Instruction, Type, Value, Variable};

verus! {

/// An arithmetic, comparison or logic instruction.
pub open spec fn is_value_op(i: Instruction) -> bool {
    i is Add || i is Sub || i is Mul || i is Div || i is Le || i is Ge || i is Lt || i is Gt || i is And || i is Or
        || i is Eq || i is Not
}

/// Number of operands of a value operation.
pub open spec fn operand_count(i: Instruction) -> nat {
    if i is Not {
        1
    } else {
        2
    }
}

/// The type of what an operation or constant yields.
pub open spec fn result_type(i: Instruction) -> Type {
    match i {
        Instruction::Add(..) | Instruction::Sub(..) | Instruction::Mul(..) | Instruction::Div(..) => Type::Int,
        Instruction::Const(_, Value::Int(_)) => Type::Int,
        _ => Type::Bool,
    }
}

/// Bril's typing of value operations: arithmetic takes and yields integers,
/// comparisons take integers and yield a boolean, logic takes and yields
/// booleans, and a constant has the type of its value.
pub proof fn lemma_value_op_types(d: Variable, a: Variable, b: Variable, n: i64, t: bool)
    ensures
        result_type(Instruction::Add(d, a, b)) == Type::Int && operand_type(Instruction::Add(d, a, b)) == Type::Int,
        result_type(Instruction::Sub(d, a, b)) == Type::Int && operand_type(Instruction::Sub(d, a, b)) == Type::Int,
        result_type(Instruction::Mul(d, a, b)) == Type::Int && operand_type(Instruction::Mul(d, a, b)) == Type::Int,
        result_type(Instruction::Div(d, a, b)) == Type::Int && operand_type(Instruction::Div(d, a, b)) == Type::Int,
        result_type(Instruction::Eq(d, a, b)) == Type::Bool && operand_type(Instruction::Eq(d, a, b)) == Type::Int,
        result_type(Instruction::Lt(d, a, b)) == Type::Bool && operand_type(Instruction::Lt(d, a, b)) == Type::Int,
        result_type(Instruction::Gt(d, a, b)) == Type::Bool && operand_type(Instruction::Gt(d, a, b)) == Type::Int,
        result_type(Instruction::Le(d, a, b)) == Type::Bool && operand_type(Instruction::Le(d, a, b)) == Type::Int,
        result_type(Instruction::Ge(d, a, b)) == Type::Bool && operand_type(Instruction::Ge(d, a, b)) == Type::Int,
        result_type(Instruction::And(d, a, b)) == Type::Bool && operand_type(Instruction::And(d, a, b)) == Type::Bool,
        result_type(Instruction::Or(d, a, b)) == Type::Bool && operand_type(Instruction::Or(d, a, b)) == Type::Bool,
        result_type(Instruction::Not(d, a)) == Type::Bool && operand_type(Instruction::Not(d, a)) == Type::Bool,
        result_type(Instruction::Const(d, Value::Int(n))) == Type::Int,
        result_type(Instruction::Const(d, Value::Bool(t))) == Type::Bool,
{
}

/// Arithmetic and logic yield the type they take; only comparisons change
/// it, from integers to a boolean.
pub proof fn lemma_result_type_of_operands(i: Instruction)
    requires
        is_value_op(i),
    ensures
        (result_type(i) == operand_type(i)) <==> !(i is Eq || i is Lt || i is Gt || i is Le || i is Ge),
{
}

/// The type of an operation's operands.
pub open spec fn operand_type(i: Instruction) -> Type {
    match i {
        Instruction::And(..) | Instruction::Or(..) | Instruction::Not(..) => Type::Bool,
        _ => Type::Int,
    }
}

/// The instruction with destination `d`.
pub open spec fn with_dest(i: Instruction, d: Variable) -> Instruction {
    match i {
        Instruction::Add(_, a, b) => Instruction::Add(d, a, b),
        Instruction::Sub(_, a, b) => Instruction::Sub(d, a, b),
        Instruction::Mul(_, a, b) => Instruction::Mul(d, a, b),
        Instruction::Div(_, a, b) => Instruction::Div(d, a, b),
        Instruction::Le(_, a, b) => Instruction::Le(d, a, b),
        Instruction::Ge(_, a, b) => Instruction::Ge(d, a, b),
        Instruction::Lt(_, a, b) => Instruction::Lt(d, a, b),
        Instruction::Gt(_, a, b) => Instruction::Gt(d, a, b),
        Instruction::Eq(_, a, b) => Instruction::Eq(d, a, b),
        Instruction::And(_, a, b) => Instruction::And(d, a, b),
        Instruction::Or(_, a, b) => Instruction::Or(d, a, b),
        Instruction::Not(_, a) => Instruction::Not(d, a),
        Instruction::Const(_, v) => Instruction::Const(d, v),
        _ => i,
    }
}

/// The instruction with operands `ops`, in order.
pub open spec fn with_operands(i: Instruction, ops: Seq<Variable>) -> Instruction {
    match i {
        Instruction::Add(d, _, _) => Instruction::Add(d, ops[0], ops[1]),
        Instruction::Sub(d, _, _) => Instruction::Sub(d, ops[0], ops[1]),
        Instruction::Mul(d, _, _) => Instruction::Mul(d, ops[0], ops[1]),
        Instruction::Div(d, _, _) => Instruction::Div(d, ops[0], ops[1]),
        Instruction::Le(d, _, _) => Instruction::Le(d, ops[0], ops[1]),
        Instruction::Ge(d, _, _) => Instruction::Ge(d, ops[0], ops[1]),
        Instruction::Lt(d, _, _) => Instruction::Lt(d, ops[0], ops[1]),
        Instruction::Gt(d, _, _) => Instruction::Gt(d, ops[0], ops[1]),
        Instruction::Eq(d, _, _) => Instruction::Eq(d, ops[0], ops[1]),
        Instruction::And(d, _, _) => Instruction::And(d, ops[0], ops[1]),
        Instruction::Or(d, _, _) => Instruction::Or(d, ops[0], ops[1]),
        Instruction::Not(d, _) => Instruction::Not(d, ops[0]),
        _ => i,
    }
}

/// Configuring an instruction keeps its operation: setting the destination
/// makes it define exactly that variable and leaves its operands; setting
/// the operands makes it read exactly those, in order, and leaves its
/// destination; a value operation takes as many operands as it names.
pub proof fn lemma_configuring_keeps_operation(i: Instruction, d: Variable, ops: Seq<Variable>)
    requires
        is_value_op(i) || i is Const,
    ensures
        opcode(with_dest(i, d)@) == opcode(i@),
        named_dest(with_dest(i, d)@) == Some(d),
        named_args(with_dest(i, d)@) == named_args(i@),
        is_value_op(i) ==> operand_count(i) == named_args(i@).len(),
        is_value_op(i) && ops.len() >= operand_count(i) ==> {
            &&& opcode(with_operands(i, ops)@) == opcode(i@)
            &&& named_dest(with_operands(i, ops)@) == named_dest(i@)
            &&& named_args(with_operands(i, ops)@) == ops.take(operand_count(i) as int)
        },
{
    if is_value_op(i) && ops.len() >= operand_count(i) {
        if operand_count(i) == 2 {
            assert(ops.take(2) =~= seq![ops[0], ops[1]]);
        } else {
            assert(ops.take(1) =~= seq![ops[0]]);
        }
    }
}

/// Configures a value instruction: how many operands of which type it
/// takes, what type it yields, and its operands and destination.
pub trait InstrConfig: Sized {
    /// The model of the instruction.
    spec fn config_view(&self) -> Instruction;

    fn num_operands(&self) -> (r: usize)
        requires
            is_value_op(self.config_view()),
        ensures
            r == operand_count(self.config_view()),
    ;

    fn dest_ty(&self) -> (r: Type)
        requires
            is_value_op(self.config_view()) || self.config_view() is Const,
        ensures
            r == result_type(self.config_view()),
    ;

    fn operands_ty(&self) -> (r: Type)
        requires
            is_value_op(self.config_view()),
        ensures
            r == operand_type(self.config_view()),
    ;

    fn config_operands(&mut self, operands: Vec<Variable>)
        requires
            is_value_op(old(self).config_view()),
            operands@.len() >= operand_count(old(self).config_view()),
        ensures
            final(self).config_view() == with_operands(old(self).config_view(), operands@),
    ;

    fn config_dest(&mut self, dest: Variable)
        requires
            is_value_op(old(self).config_view()) || old(self).config_view() is Const,
        ensures
            final(self).config_view() == with_dest(old(self).config_view(), dest),
    ;
}

impl InstrConfig for Instruction {
    open spec fn config_view(&self) -> Instruction {
        *self
    }

    fn num_operands(&self) -> (r: usize) {
        match self {
            Instruction::Not(..) => 1,
            _ => 2,
        }
    }

    fn dest_ty(&self) -> (r: Type) {
        match self {
            Instruction::Add(..) | Instruction::Sub(..) | Instruction::Mul(..) | Instruction::Div(..) => Type::Int,
            Instruction::Const(_, val) => match val {
                Value::Int(_) => Type::Int,
                Value::Bool(_) => Type::Bool,
            },
            _ => Type::Bool,
        }
    }

    fn operands_ty(&self) -> (r: Type) {
        match self {
            Instruction::And(..) | Instruction::Or(..) | Instruction::Not(..) => Type::Bool,
            _ => Type::Int,
        }
    }

    fn config_dest(&mut self, var: Variable) {
        let updated = match &*self {
            Instruction::Add(_, a, b) => Instruction::Add(var, *a, *b),
            Instruction::Sub(_, a, b) => Instruction::Sub(var, *a, *b),
            Instruction::Mul(_, a, b) => Instruction::Mul(var, *a, *b),
            Instruction::Div(_, a, b) => Instruction::Div(var, *a, *b),
            Instruction::Le(_, a, b) => Instruction::Le(var, *a, *b),
            Instruction::Ge(_, a, b) => Instruction::Ge(var, *a, *b),
            Instruction::Lt(_, a, b) => Instruction::Lt(var, *a, *b),
            Instruction::Gt(_, a, b) => Instruction::Gt(var, *a, *b),
            Instruction::Eq(_, a, b) => Instruction::Eq(var, *a, *b),
            Instruction::And(_, a, b) => Instruction::And(var, *a, *b),
            Instruction::Or(_, a, b) => Instruction::Or(var, *a, *b),
            Instruction::Not(_, a) => Instruction::Not(var, *a),
            Instruction::Const(_, v) => Instruction::Const(var, *v),
            _ => Instruction::Nop,
        };
        *self = updated;
    }

    fn config_operands(&mut self, operands: Vec<Variable>) {
        let x = operands[0];
        let updated = match &*self {
            Instruction::Add(d, _, _) => Instruction::Add(*d, x, operands[1]),
            Instruction::Sub(d, _, _) => Instruction::Sub(*d, x, operands[1]),
            Instruction::Mul(d, _, _) => Instruction::Mul(*d, x, operands[1]),
            Instruction::Div(d, _, _) => Instruction::Div(*d, x, operands[1]),
            Instruction::Le(d, _, _) => Instruction::Le(*d, x, operands[1]),
            Instruction::Ge(d, _, _) => Instruction::Ge(*d, x, operands[1]),
            Instruction::Lt(d, _, _) => Instruction::Lt(*d, x, operands[1]),
            Instruction::Gt(d, _, _) => Instruction::Gt(*d, x, operands[1]),
            Instruction::Eq(d, _, _) => Instruction::Eq(*d, x, operands[1]),
            Instruction::And(d, _, _) => Instruction::And(*d, x, operands[1]),
            Instruction::Or(d, _, _) => Instruction::Or(*d, x, operands[1]),
            Instruction::Not(d, _) => Instruction::Not(*d, x),
            _ => Instruction::Nop,
        };
        *self = updated;
    }
}

} // verus!
