//! Bril programs as they are written: functions of named variables, label
//! lines and instructions, as read from Bril's JSON form.
use vstd::prelude::*;

use crate::ir::{Type, Value};

verus! {

/// A parameter of a function.
#[derive(Debug)]
pub struct Argument {
    pub name: String,
    pub arg_type: Type,
}

/// Operations that produce a value from arguments.
#[derive(Debug, Clone, Copy, PartialEq, Eq, Structural)]
pub enum ValueOps {
    Add,
    Mul,
    Sub,
    Div,
    Eq,
    Lt,
    Gt,
    Le,
    Ge,
    Not,
    And,
    Or,
    Call,
    Id,
}

/// Operations performed for their effect.
#[derive(Debug, Clone, Copy, PartialEq, Eq, Structural)]
pub enum EffectOps {
    Jump,
    Branch,
    Call,
    Return,
    Print,
    Nop,
}

/// An instruction over named variables.
#[derive(Debug)]
pub enum Instruction {
    /// `dest: const_type = const value`.
    Constant { dest: String, value: Value, const_type: Type },
    /// `dest: op_type = op args`, calling `funcs` or naming `labels`.
    Value { args: Vec<String>, dest: String, funcs: Vec<String>, labels: Vec<String>, op: ValueOps, op_type: Type },
    /// `op args`, calling `funcs` or going to `labels`.
    Effect { args: Vec<String>, funcs: Vec<String>, labels: Vec<String>, op: EffectOps },
}

/// A line of a function body: a label or an instruction.
#[derive(Debug)]
pub enum Code {
    Label { label: String },
    Instruction(Instruction),
}

/// A function: name, parameters, optional return type and body.
#[derive(Debug)]
pub struct Function {
    pub name: String,
    pub args: Vec<Argument>,
    pub return_type: Option<Type>,
    pub instrs: Vec<Code>,
}

/// A program: its functions, in order.
#[derive(Debug)]
pub struct Program {
    pub functions: Vec<Function>,
}

} // verus!
