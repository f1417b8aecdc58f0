use bril::ast::{Ast, AstIdx};
use bril::ast_to_ir::{ast_to_ir, lowerable};
use bril::fuzz::{FuzzedConstInstr, FuzzedType, FuzzedValueInstr};
use bril::instr_config::InstrConfig;
use bril::ir::{FunctionIdx, Instruction, Type, Value, Variable};
use bril::printer::Printer;

fn ivar(n: u32) -> Variable {
    Variable(n, Type::Int)
}

fn bvar(n: u32) -> Variable {
    Variable(n, Type::Bool)
}

#[test]
fn branch_lowers_to_labeled_blocks() {
    let ast = vec![
        Ast::Instruction(Instruction::Const(bvar(0), Value::Bool(true))),
        Ast::Instruction(Instruction::Const(ivar(1), Value::Int(2))),
        Ast::Instruction(Instruction::Const(ivar(1), Value::Int(3))),
        Ast::If(bvar(0), AstIdx(1), AstIdx(2)),
        Ast::Instruction(Instruction::Add(ivar(2), ivar(1), ivar(1))),
        Ast::Sequence(vec![AstIdx(0), AstIdx(3), AstIdx(4)]),
    ];
    let program = ast_to_ir(&ast, AstIdx(5));
    let mut out = String::new();
    let mut printer = Printer::new(&mut out);
    printer.print_program(&program);
    let expected = "@main() {\n.L0:\n\tx0: bool = const true;\n\tbr x0 .if.else.0.true .if.else.0.false;\n.if.else.0.true:\n\tx1: int = const 2;\n\tjmp .if.else.0.exit;\n.if.else.0.false:\n\tx1: int = const 3;\n\tjmp .if.else.0.exit;\n.if.else.0.exit:\n\tx2: int = add x1 x1;\n}";
    assert_eq!(out, expected);
    assert_eq!(program.get_function(FunctionIdx(0)).name, "main");
}

#[test]
fn nested_branches_are_numbered_in_order() {
    let ast = vec![
        Ast::Instruction(Instruction::Nop),
        Ast::If(bvar(0), AstIdx(0), AstIdx(0)),
        Ast::If(bvar(1), AstIdx(1), AstIdx(0)),
    ];
    let program = ast_to_ir(&ast, AstIdx(2));
    let f = program.get_function(FunctionIdx(0));
    let names: Vec<&str> = f.labels.iter().map(|l| l.name).collect();
    assert_eq!(
        names,
        vec![
            "L0",
            "if.else.0.true",
            "if.else.1.true",
            "if.else.1.false",
            "if.else.1.exit",
            "if.else.0.false",
            "if.else.0.exit",
        ]
    );
}

#[test]
fn empty_sequence_gives_empty_main() {
    let ast = vec![Ast::Sequence(vec![])];
    let program = ast_to_ir(&ast, AstIdx(0));
    assert_eq!(program.instructions.len(), 0);
    let f = program.get_function(FunctionIdx(0));
    assert_eq!(f.labels.len(), 0);
}

#[test]
fn instruction_configuration() {
    let mut add = Instruction::Add(ivar(99), ivar(99), ivar(99));
    assert_eq!(add.num_operands(), 2);
    assert_eq!(add.dest_ty(), Type::Int);
    assert_eq!(add.operands_ty(), Type::Int);
    add.config_operands(vec![ivar(1), ivar(2)]);
    add.config_dest(ivar(3));
    assert_eq!(add, Instruction::Add(ivar(3), ivar(1), ivar(2)));

    let mut not = Instruction::Not(bvar(9), bvar(9));
    assert_eq!(not.num_operands(), 1);
    assert_eq!(not.dest_ty(), Type::Bool);
    assert_eq!(not.operands_ty(), Type::Bool);
    not.config_operands(vec![bvar(4)]);
    not.config_dest(bvar(5));
    assert_eq!(not, Instruction::Not(bvar(5), bvar(4)));

    let lt = Instruction::Lt(bvar(0), ivar(0), ivar(0));
    assert_eq!(lt.dest_ty(), Type::Bool);
    assert_eq!(lt.operands_ty(), Type::Int);

    let mut c = Instruction::Const(ivar(0), Value::Int(7));
    assert_eq!(c.dest_ty(), Type::Int);
    c.config_dest(ivar(8));
    assert_eq!(c, Instruction::Const(ivar(8), Value::Int(7)));
    assert_eq!(Instruction::Const(bvar(0), Value::Bool(false)).dest_ty(), Type::Bool);
}

#[test]
fn lowerable_trees() {
    let ast = vec![
        Ast::Instruction(Instruction::Nop),
        Ast::If(bvar(0), AstIdx(0), AstIdx(0)),
        Ast::Loop(bvar(0), AstIdx(0)),
        Ast::Sequence(vec![AstIdx(0), AstIdx(1)]),
        Ast::Sequence(vec![AstIdx(0), AstIdx(2)]),
        Ast::Sequence(vec![AstIdx(6)]),
    ];
    assert!(lowerable(&ast, AstIdx(0)));
    assert!(lowerable(&ast, AstIdx(1)));
    assert!(!lowerable(&ast, AstIdx(2)));
    assert!(lowerable(&ast, AstIdx(3)));
    assert!(!lowerable(&ast, AstIdx(4)));
    assert!(!lowerable(&ast, AstIdx(5)));
    assert!(!lowerable(&ast, AstIdx(9)));
}

#[test]
fn fuzzed_choices() {
    let int = Variable(u32::MAX, Type::Int);
    let boolean = Variable(u32::MAX, Type::Bool);
    assert_eq!(FuzzedType::from_choice(0).0, Type::Int);
    assert_eq!(FuzzedType::from_choice(1).0, Type::Bool);
    assert_eq!(FuzzedConstInstr::from_choice(FuzzedType(Type::Int), true, -3).0, Instruction::Const(int, Value::Int(-3)));
    assert_eq!(FuzzedConstInstr::from_choice(FuzzedType(Type::Bool), true, -3).0, Instruction::Const(boolean, Value::Bool(true)));
    assert_eq!(FuzzedValueInstr::from_choice(FuzzedType(Type::Int), 2).0, Instruction::Div(int, int, int));
    assert_eq!(FuzzedValueInstr::from_choice(FuzzedType(Type::Bool), 4).0, Instruction::Eq(boolean, int, int));
    assert_eq!(FuzzedValueInstr::from_choice(FuzzedType(Type::Bool), 7).0, Instruction::Not(boolean, boolean));
}
