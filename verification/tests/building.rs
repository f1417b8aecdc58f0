use bril::builder::{BasicBlockBuilder, ProgramBuilder};
use bril::ir::{FunctionIdx, Instruction, Type, Value, Variable};

fn ivar(n: u32) -> Variable {
    Variable(n, Type::Int)
}

#[test]
fn sealed_blocks_can_be_rewritten_in_place() {
    let mut program_builder = ProgramBuilder::new();
    let mut fn_builder = program_builder.new_function("f".to_owned());
    let mut block = BasicBlockBuilder::new();
    block.add_instr(Instruction::Const(ivar(0), Value::Int(1)));
    block.add_instr(Instruction::Nop);
    let first = fn_builder.seal_block(block);
    let mut second = BasicBlockBuilder::with_label("next".to_owned());
    second.add_instr(Instruction::Nop);
    let other = fn_builder.seal_block(second);

    *fn_builder.block_tail_mut(first) = Instruction::Ret(Some(ivar(0)));
    fn_builder.block_mut(other)[0] = Instruction::Ret(None);
    assert_eq!(fn_builder.block_mut(first).len(), 2);
    fn_builder.finish();
    let program = program_builder.finish();

    assert_eq!(
        program.instructions,
        vec![
            Instruction::Const(ivar(0), Value::Int(1)),
            Instruction::Ret(Some(ivar(0))),
            Instruction::Ret(None),
        ]
    );
    let function = program.get_function(FunctionIdx(0));
    assert_eq!(function.name, "f");
    assert_eq!(function.labels.len(), 2);
    assert_eq!(function.labels[0].name, "L0");
    assert_eq!(function.labels[1].name, "next");
    assert_eq!(function.labels[1].offset, 2);
}

#[test]
fn tables_keep_earlier_entries() {
    let mut p = bril::ir::Program::new();
    let s = p.add_string("first".to_string());
    let l = p.add_label("head".to_string());
    p.instructions.push(Instruction::Nop);
    let l2 = p.add_label("later".to_string());
    let s2 = p.add_string("second".to_string());
    assert_eq!(p.get_string(s), "first");
    assert_eq!(p.get_string(s2), "second");
    assert_eq!(p.get_label_name(l), "head");
    assert_eq!(p.get_label_offset(l), 0);
    assert_eq!(p.get_label_name(l2), "later");
    assert_eq!(p.get_label_offset(l2), 1);
}
