use bril::analysis::scc::{ComponentIdx, CondensedCfg};
use bril::builder::BasicBlockIdx;
use bril::cfg_build::build_cfg;
use bril::ir::{Function, Instruction, Label, LabelIdx, Type, Variable};

fn var(n: u32) -> Variable {
    Variable(n, Type::Bool)
}

/// Blocks: 0 -> 1; 1 -> 2 | 3; 2 -> 1; 3 returns. Blocks 1 and 2 form a loop.
fn looping_instructions() -> Vec<Instruction> {
    vec![
        Instruction::Jmp(LabelIdx(1)),
        Instruction::Br(var(0), LabelIdx(2), LabelIdx(3)),
        Instruction::Jmp(LabelIdx(1)),
        Instruction::Ret(None),
    ]
}

fn looping_labels() -> Vec<Label<'static>> {
    vec![
        Label { idx: LabelIdx(0), name: "entry", offset: 0 },
        Label { idx: LabelIdx(1), name: "head", offset: 1 },
        Label { idx: LabelIdx(2), name: "body", offset: 2 },
        Label { idx: LabelIdx(3), name: "exit", offset: 3 },
    ]
}

#[test]
fn loop_forms_one_component() {
    let instrs = looping_instructions();
    let params: Vec<Variable> = vec![];
    let f = Function { instructions: &instrs, name: "f", parameters: &params, labels: looping_labels(), return_type: None };
    let cfg = build_cfg(&f);
    assert_eq!(cfg.vertices.len(), 4);
    let condensed = CondensedCfg::from_cfg(&cfg);
    assert_eq!(condensed.components.len(), 3);
    let comp_of = |b: usize| -> usize {
        (0..condensed.components.len())
            .filter(|c| condensed.components[*c].contains(BasicBlockIdx(b)))
            .collect::<Vec<_>>()[0]
    };
    assert_eq!(comp_of(1), comp_of(2));
    assert_ne!(comp_of(0), comp_of(1));
    assert_ne!(comp_of(3), comp_of(1));
    assert_ne!(comp_of(0), comp_of(3));
    assert_eq!(condensed.entry, ComponentIdx(comp_of(0)));
    assert_eq!(condensed.components[condensed.entry.0].entry, BasicBlockIdx(0));
    assert_eq!(condensed.components[comp_of(1)].entry, BasicBlockIdx(1));
    assert_eq!(condensed.components[comp_of(1)].num_back_edges, 1);
    assert_eq!(condensed.edges[comp_of(0)], vec![ComponentIdx(comp_of(1))]);
    assert_eq!(condensed.edges[comp_of(1)], vec![ComponentIdx(comp_of(3))]);
    assert_eq!(condensed.edges[comp_of(3)], vec![]);
    assert_eq!(condensed.rev_edges[comp_of(3)], vec![ComponentIdx(comp_of(1))]);
    assert_eq!(condensed.rev_edges[comp_of(0)], vec![]);
    assert_eq!(condensed.intra_comp_edges(ComponentIdx(comp_of(1)), BasicBlockIdx(1)), vec![BasicBlockIdx(2)]);
    assert_eq!(condensed.inter_comp_edges(ComponentIdx(comp_of(1)), BasicBlockIdx(1)), vec![BasicBlockIdx(3)]);
    assert_eq!(condensed.intra_comp_edges(ComponentIdx(comp_of(0)), BasicBlockIdx(1)), vec![]);
}

#[test]
fn unreachable_blocks_have_no_component() {
    let instrs = vec![Instruction::Ret(None), Instruction::Nop];
    let params: Vec<Variable> = vec![];
    let labels = vec![Label { idx: LabelIdx(7), name: "dead", offset: 1 }];
    let f = Function { instructions: &instrs, name: "g", parameters: &params, labels, return_type: None };
    let cfg = build_cfg(&f);
    assert_eq!(cfg.vertices.len(), 2);
    let condensed = CondensedCfg::from_cfg(&cfg);
    assert_eq!(condensed.components.len(), 1);
    assert!(condensed.components[0].contains(BasicBlockIdx(0)));
    assert!(!condensed.components[0].contains(BasicBlockIdx(1)));
    assert_eq!(condensed.components[0].num_back_edges, 0);
}

/// Blocks: 0 -> 1; 1 -> 2 | 4; 2 -> 3; 3 -> 1; 4 -> 4 | 5; 5 returns.
/// Blocks 1, 2 and 3 form one loop, block 4 loops on itself.
#[test]
fn nested_loops_form_components_in_reverse_order() {
    let instrs = vec![
        Instruction::Jmp(LabelIdx(1)),
        Instruction::Br(var(0), LabelIdx(2), LabelIdx(4)),
        Instruction::Jmp(LabelIdx(3)),
        Instruction::Jmp(LabelIdx(1)),
        Instruction::Br(var(1), LabelIdx(4), LabelIdx(5)),
        Instruction::Ret(None),
    ];
    let labels = vec![
        Label { idx: LabelIdx(0), name: "entry", offset: 0 },
        Label { idx: LabelIdx(1), name: "head", offset: 1 },
        Label { idx: LabelIdx(2), name: "body", offset: 2 },
        Label { idx: LabelIdx(3), name: "latch", offset: 3 },
        Label { idx: LabelIdx(4), name: "spin", offset: 4 },
        Label { idx: LabelIdx(5), name: "exit", offset: 5 },
    ];
    let params: Vec<Variable> = vec![];
    let f = Function { instructions: &instrs, name: "h", parameters: &params, labels, return_type: None };
    let cfg = build_cfg(&f);
    assert_eq!(cfg.vertices.len(), 6);
    let condensed = CondensedCfg::from_cfg(&cfg);
    assert_eq!(condensed.components.len(), 4);
    let comp_of = |b: usize| -> usize {
        (0..condensed.components.len())
            .filter(|c| condensed.components[*c].contains(BasicBlockIdx(b)))
            .collect::<Vec<_>>()[0]
    };
    assert_eq!(comp_of(1), comp_of(2));
    assert_eq!(comp_of(2), comp_of(3));
    assert_eq!(condensed.components[comp_of(1)].vertices.len(), 3);
    assert_eq!(condensed.components[comp_of(4)].vertices, vec![BasicBlockIdx(4)]);
    assert_eq!(condensed.components[comp_of(1)].num_back_edges, 1);
    assert_eq!(condensed.components[comp_of(4)].num_back_edges, 1);
    // Components are listed sinks first: each edge of the condensed graph
    // leads to a component listed before its source.
    assert_eq!(comp_of(5), 0);
    assert_eq!(comp_of(4), 1);
    assert_eq!(comp_of(1), 2);
    assert_eq!(comp_of(0), 3);
    for c in 0..condensed.edges.len() {
        for d in condensed.edges[c].iter() {
            assert!(d.0 < c);
        }
    }
    assert_eq!(condensed.edges[comp_of(1)], vec![ComponentIdx(comp_of(4))]);
    assert_eq!(condensed.edges[comp_of(4)], vec![ComponentIdx(comp_of(5))]);
}

/// Blocks: 0 -> 1; 1 -> 2 | 1; 2 -> 1 | 3; 3 returns. Blocks 1 and 2 form one
/// component with three edges inside it, two of them back edges (2 -> 1 and
/// 1 -> 1).
#[test]
fn back_edges_lead_to_the_search_path() {
    let instrs = vec![
        Instruction::Jmp(LabelIdx(1)),
        Instruction::Br(var(0), LabelIdx(2), LabelIdx(1)),
        Instruction::Br(var(0), LabelIdx(1), LabelIdx(3)),
        Instruction::Ret(None),
    ];
    let params: Vec<Variable> = vec![];
    let f = Function { instructions: &instrs, name: "h", parameters: &params, labels: looping_labels(), return_type: None };
    let cfg = build_cfg(&f);
    let condensed = CondensedCfg::from_cfg(&cfg);
    assert_eq!(condensed.components.len(), 3);
    let comp_of = |b: usize| -> usize {
        (0..condensed.components.len())
            .filter(|c| condensed.components[*c].contains(BasicBlockIdx(b)))
            .collect::<Vec<_>>()[0]
    };
    assert_eq!(comp_of(1), comp_of(2));
    assert_eq!(condensed.components[comp_of(1)].num_back_edges, 2);
    assert_eq!(condensed.components[comp_of(0)].num_back_edges, 0);
    assert_eq!(condensed.components[comp_of(3)].num_back_edges, 0);
}

/// Blocks: 0 -> 1 | 2; 1 -> 2; 2 -> 0. One component; the search goes
/// 0, 1, 2, so 2 -> 0 is its only back edge, and 0 -> 2 goes forward.
#[test]
fn forward_edges_are_not_back_edges() {
    let instrs = vec![
        Instruction::Br(var(0), LabelIdx(1), LabelIdx(2)),
        Instruction::Jmp(LabelIdx(2)),
        Instruction::Jmp(LabelIdx(0)),
    ];
    let params: Vec<Variable> = vec![];
    let labels = vec![
        Label { idx: LabelIdx(0), name: "a", offset: 0 },
        Label { idx: LabelIdx(1), name: "b", offset: 1 },
        Label { idx: LabelIdx(2), name: "c", offset: 2 },
    ];
    let f = Function { instructions: &instrs, name: "k", parameters: &params, labels, return_type: None };
    let cfg = build_cfg(&f);
    assert_eq!(cfg.vertices.len(), 3);
    let condensed = CondensedCfg::from_cfg(&cfg);
    assert_eq!(condensed.components.len(), 1);
    assert_eq!(condensed.components[0].vertices.len(), 3);
    assert_eq!(condensed.components[0].entry, BasicBlockIdx(0));
    assert_eq!(condensed.components[0].num_back_edges, 1);
}
