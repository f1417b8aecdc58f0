use bril::analysis::construct_postorder;
use bril::analysis::liveness::liveness;
use bril::analysis::reaching_def::reaching_def;
use bril::builder::BasicBlockIdx;
use bril::cfg::{Exit, LabeledExit};
use bril::cfg_build::build_cfg;
use bril::ir::{FunctionIdx, Instruction, Program, Type, Value, Variable};
use bril::printer::Printer;
use bril::shim::flattened_program_repr;
use bril::source::{Argument, Code, EffectOps, Function, Instruction as SrcInstr, Program as SrcProgram, ValueOps};

fn s(x: &str) -> String {
    x.to_string()
}

fn value(op: ValueOps, dest: &str, ty: Type, args: &[&str]) -> Code {
    Code::Instruction(SrcInstr::Value {
        args: args.iter().map(|a| s(a)).collect(),
        dest: s(dest),
        funcs: vec![],
        labels: vec![],
        op,
        op_type: ty,
    })
}

fn effect(op: EffectOps, args: &[&str], labels: &[&str], funcs: &[&str]) -> Code {
    Code::Instruction(SrcInstr::Effect {
        args: args.iter().map(|a| s(a)).collect(),
        funcs: funcs.iter().map(|a| s(a)).collect(),
        labels: labels.iter().map(|a| s(a)).collect(),
        op,
    })
}

fn label(name: &str) -> Code {
    Code::Label { label: s(name) }
}

/// @main(a: int) { b = 1; c = a < b; br c .then .else; .then: d = a + b;
/// jmp .end; .else: d = a - b; .end: print d; ret; }
fn branching_program() -> SrcProgram {
    let body = vec![
        Code::Instruction(SrcInstr::Constant { dest: s("b"), value: Value::Int(1), const_type: Type::Int }),
        value(ValueOps::Lt, "c", Type::Bool, &["a", "b"]),
        effect(EffectOps::Branch, &["c"], &["then", "else"], &[]),
        label("then"),
        value(ValueOps::Add, "d", Type::Int, &["a", "b"]),
        effect(EffectOps::Jump, &[], &["end"], &[]),
        label("else"),
        value(ValueOps::Sub, "d", Type::Int, &["a", "b"]),
        label("end"),
        effect(EffectOps::Print, &["d"], &[], &[]),
        effect(EffectOps::Return, &[], &[], &[]),
    ];
    SrcProgram {
        functions: vec![Function {
            name: s("main"),
            args: vec![Argument { name: s("a"), arg_type: Type::Int }],
            return_type: None,
            instrs: body,
        }],
    }
}

fn print(program: &Program) -> String {
    let mut out = String::new();
    let mut printer = Printer::new(&mut out);
    printer.print_program(program);
    out
}

#[test]
fn flatten_branching_function() {
    let program = flattened_program_repr(branching_program());
    let v = |n: u32, ty: Type| Variable(n, ty);
    assert_eq!(program.instructions.len(), 8);
    assert_eq!(program.instructions[0], Instruction::Const(v(1, Type::Int), Value::Int(1)));
    assert_eq!(program.instructions[1], Instruction::Lt(v(2, Type::Bool), v(0, Type::Int), v(1, Type::Int)));
    assert_eq!(program.instructions[3], Instruction::Add(v(3, Type::Int), v(0, Type::Int), v(1, Type::Int)));
    assert_eq!(program.instructions[5], Instruction::Sub(v(3, Type::Int), v(0, Type::Int), v(1, Type::Int)));
    assert_eq!(program.instructions[6], Instruction::Print(vec![v(3, Type::Int)]));
    assert_eq!(program.instructions[7], Instruction::Ret(None));
    match &program.instructions[2] {
        Instruction::Br(c, t, f) => {
            assert_eq!(*c, v(2, Type::Bool));
            assert_eq!(program.get_label_name(*t), "then");
            assert_eq!(program.get_label_name(*f), "else");
            assert_eq!(program.get_label_offset(*t), 3);
            assert_eq!(program.get_label_offset(*f), 5);
        }
        other => panic!("expected a branch, got {:?}", other),
    }
    match &program.instructions[4] {
        Instruction::Jmp(l) => assert_eq!(program.get_label_name(*l), "end"),
        other => panic!("expected a jump, got {:?}", other),
    }
    let f = program.get_function(FunctionIdx(0));
    assert_eq!(f.name, "main");
    assert_eq!(f.parameters, &[v(0, Type::Int)]);
    let names: Vec<(&str, usize)> = f.labels.iter().map(|l| (l.name, l.offset)).collect();
    assert_eq!(names, vec![("L0", 0), ("then", 3), ("else", 5), ("end", 6)]);
}

#[test]
fn print_branching_function() {
    let program = flattened_program_repr(branching_program());
    let expected = "@main(x0: int) {\n.L0:\n\tx1: int = const 1;\n\tx2: bool = lt x0 x1;\n\tbr x2 .then .else;\n.then:\n\tx3: int = add x0 x1;\n\tjmp .end;\n.else:\n\tx3: int = sub x0 x1;\n.end:\n\tprint x3;\n\tret;\n}";
    assert_eq!(print(&program), expected);
}

#[test]
fn cfg_of_branching_function() {
    let program = flattened_program_repr(branching_program());
    let f = program.get_function(FunctionIdx(0));
    let cfg = build_cfg(&f);
    assert_eq!(cfg.vertices.len(), 4);
    assert_eq!(cfg.entry, BasicBlockIdx(0));
    let ranges: Vec<(usize, usize)> = cfg.vertices.iter().map(|b| (b.offset, b.instructions.len())).collect();
    assert_eq!(ranges, vec![(0, 3), (3, 2), (5, 1), (6, 2)]);
    assert_eq!(cfg.vertices[2].exit, LabeledExit::Fallthrough);
    assert_eq!(cfg.vertices[3].exit, LabeledExit::Return);
    assert_eq!(cfg.edges[0], Exit::Conditional { if_true: BasicBlockIdx(1), if_false: BasicBlockIdx(2) });
    assert_eq!(cfg.edges[1], Exit::Unconditional(BasicBlockIdx(3)));
    assert_eq!(cfg.edges[2], Exit::Unconditional(BasicBlockIdx(3)));
    assert_eq!(cfg.edges[3], Exit::Return);
    assert_eq!(cfg.successors(BasicBlockIdx(0)), vec![BasicBlockIdx(1), BasicBlockIdx(2)]);
    assert_eq!(cfg.predecessors(BasicBlockIdx(3)), vec![BasicBlockIdx(1), BasicBlockIdx(2)]);
    assert_eq!(cfg.predecessors(BasicBlockIdx(0)), vec![]);
    assert_eq!(cfg.prototype.name, "main");
    let order = construct_postorder(&cfg);
    assert_eq!(order.len(), 4);
    assert_eq!(*order.last().unwrap(), BasicBlockIdx(0));
    assert_eq!(order[0], BasicBlockIdx(3));
}

#[test]
fn liveness_of_branching_function() {
    let program = flattened_program_repr(branching_program());
    let f = program.get_function(FunctionIdx(0));
    let cfg = build_cfg(&f);
    let live = liveness(&cfg);
    let members = |b: usize| -> Vec<u32> {
        let set = live[b].as_ref().unwrap();
        (0..6u32).filter(|x| set.contains(*x)).collect()
    };
    assert_eq!(members(0), vec![0]);
    assert_eq!(members(1), vec![0, 1]);
    assert_eq!(members(2), vec![0, 1]);
    assert_eq!(members(3), vec![3]);
}

#[test]
fn reaching_definitions_of_branching_function() {
    let program = flattened_program_repr(branching_program());
    let f = program.get_function(FunctionIdx(0));
    let cfg = build_cfg(&f);
    let reach = reaching_def(&cfg);
    let members = |b: usize| -> Vec<usize> {
        let set = reach[b].as_ref().unwrap();
        (0..8usize).filter(|x| set.contains(*x)).collect()
    };
    assert_eq!(members(0), vec![0, 1]);
    assert_eq!(members(1), vec![0, 1, 3]);
    assert_eq!(members(2), vec![0, 1, 5]);
    assert_eq!(members(3), vec![0, 1, 3, 5]);
}

#[test]
fn calls_resolve_to_functions_by_name() {
    let helper = Function {
        name: s("helper"),
        args: vec![Argument { name: s("x"), arg_type: Type::Int }],
        return_type: Some(Type::Int),
        instrs: vec![effect(EffectOps::Return, &["x"], &[], &[])],
    };
    let main = Function {
        name: s("main"),
        args: vec![],
        return_type: None,
        instrs: vec![
            Code::Instruction(SrcInstr::Constant { dest: s("a"), value: Value::Int(-5), const_type: Type::Int }),
            Code::Instruction(SrcInstr::Value {
                args: vec![s("a")],
                dest: s("r"),
                funcs: vec![s("helper")],
                labels: vec![],
                op: ValueOps::Call,
                op_type: Type::Int,
            }),
            effect(EffectOps::Call, &["r"], &[], &["helper"]),
        ],
    };
    let program = flattened_program_repr(SrcProgram { functions: vec![helper, main] });
    assert_eq!(program.find_function_symbol("helper"), Some(FunctionIdx(0)));
    assert_eq!(program.find_function_symbol("main"), Some(FunctionIdx(1)));
    assert_eq!(program.find_function_symbol("other"), None);
    let expected = "@helper(x0: int): int {\n.L0:\n\tret x0;\n}@main() {\n.L0:\n\tx0: int = const -5;\n\tx1: int = call @helper x0;\n\tcall @helper x1;\n}";
    assert_eq!(print(&program), expected);
}

#[test]
fn translatability_of_programs() {
    assert!(bril::shim::program_translatable(&branching_program()));
    // A use of an undefined variable.
    let mut undefined = branching_program();
    undefined.functions[0].instrs[1] = value(ValueOps::Lt, "c", Type::Bool, &["a", "zz"]);
    assert!(!bril::shim::program_translatable(&undefined));
    // A jump to a label the function does not have.
    let mut unknown_label = branching_program();
    unknown_label.functions[0].instrs[5] = effect(EffectOps::Jump, &[], &["nowhere"], &[]);
    assert!(!bril::shim::program_translatable(&unknown_label));
    // A call of a function the program does not have.
    let mut unknown_call = branching_program();
    unknown_call.functions[0].instrs[9] = effect(EffectOps::Call, &["d"], &[], &["missing"]);
    assert!(!bril::shim::program_translatable(&unknown_call));
    // An empty body.
    let mut empty = branching_program();
    empty.functions[0].instrs.clear();
    assert!(!bril::shim::program_translatable(&empty));
    // A nop.
    let mut nop = branching_program();
    nop.functions[0].instrs[9] = effect(EffectOps::Nop, &[], &[], &[]);
    assert!(!bril::shim::program_translatable(&nop));
}

#[test]
fn analysis_input_conditions() {
    let program = flattened_program_repr(branching_program());
    assert!(bril::printer::program_printable(&program));
    let function = program.get_function(FunctionIdx(0));
    assert!(bril::cfg_build::targets_are_known(&function));
    let cfg = build_cfg(&function);
    assert!(bril::analysis::liveness::variables_are_bounded(&cfg));
    assert!(bril::analysis::reaching_def::offsets_are_in_range(&cfg));
    let mut broken = flattened_program_repr(branching_program());
    broken.instructions[4] = Instruction::Jmp(bril::ir::LabelIdx(40));
    assert!(!bril::printer::program_printable(&broken));
    let big = Variable(u32::MAX, Type::Int);
    let instrs = vec![Instruction::Id(big, big), Instruction::Ret(None)];
    let params: Vec<Variable> = vec![];
    let f = bril::ir::Function { instructions: &instrs, name: "big", parameters: &params, labels: vec![], return_type: None };
    let cfg = build_cfg(&f);
    assert!(!bril::analysis::liveness::variables_are_bounded(&cfg));
    let jumps = vec![Instruction::Jmp(bril::ir::LabelIdx(3))];
    let g = bril::ir::Function { instructions: &jumps, name: "j", parameters: &params, labels: vec![], return_type: None };
    assert!(!bril::cfg_build::targets_are_known(&g));
}

/// @main { jmp .L0; .L0: ret; }: the unlabeled first block is named `L0`
/// too, and a jump goes to the first block of the name it gives.
#[test]
fn jumps_go_to_the_first_block_of_their_name() {
    let body = vec![effect(EffectOps::Jump, &[], &["L0"], &[]), label("L0"), effect(EffectOps::Return, &[], &[], &[])];
    let program = flattened_program_repr(SrcProgram {
        functions: vec![Function { name: s("main"), args: vec![], return_type: None, instrs: body }],
    });
    assert_eq!(program.instructions.len(), 2);
    match &program.instructions[0] {
        Instruction::Jmp(l) => {
            assert_eq!(program.get_label_name(*l), "L0");
            assert_eq!(program.get_label_offset(*l), 0);
        }
        other => panic!("expected a jump, got {:?}", other),
    }
    let f = program.get_function(FunctionIdx(0));
    let names: Vec<(&str, usize)> = f.labels.iter().map(|l| (l.name, l.offset)).collect();
    assert_eq!(names, vec![("L0", 0), ("L0", 1)]);
}
