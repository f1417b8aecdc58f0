use vstd::prelude::*;

use std::collections::{HashMap, HashSet};

use crate::analysis::sequential::{
    facts, flow_eq, is_post_fixpoint, le_fact, opt_facts, reachable_closed_backward,
    solve_dataflow,
};
use crate::analysis::{instr_dest, instr_operands, Direction, InstructionExt};
use crate::bitsets::{
    hibitset_add, hibitset_elems, hibitset_new, in_range_set, FlowSet, HIBITSET_MAX_INDEX,
};
use crate::cfg::Cfg;
use crate::ir::{Instruction, Variable};

verus! {

broadcast use vstd::std_specs::hash::group_hash_axioms;

/// The instructions of block `b`.
pub open spec fn block_instrs(cfg: &Cfg, b: int) -> Seq<Instruction> {
    cfg.vertices@[b].instructions@
}

/// Number of the variable an instruction defines (0 when it defines none).
pub open spec fn dest_num(i: &Instruction) -> u32 {
    match instr_dest(i) {
        Some(v) => v.0,
        None => 0,
    }
}

/// Numbers of the variables defined by `instrs[k..]`.
pub open spec fn defined_from(instrs: Seq<Instruction>, k: int) -> Set<u32> {
    Set::new(
        |v: u32|
            exists|j: int|
                k <= j < instrs.len() && #[trigger] instr_dest(&instrs[j]) is Some && dest_num(&instrs[j]) == v,
    )
}

/// Numbers of the variables defined by the first `k` instructions.
pub open spec fn defined_before(instrs: Seq<Instruction>, k: int) -> Set<u32> {
    Set::new(
        |v: u32|
            exists|j: int|
                0 <= j < k && #[trigger] instr_dest(&instrs[j]) is Some && dest_num(&instrs[j]) == v,
    )
}

/// Numbers of the variables among `vars`.
pub open spec fn var_numbers(vars: Seq<Variable>) -> Set<u32> {
    Set::new(|v: u32| exists|j: int| 0 <= j < vars.len() && (#[trigger] vars[j]).0 == v)
}

/// Numbers of the variables read by one of the first `k` instructions
/// before any of them defines it.
pub open spec fn exposed_uses(instrs: Seq<Instruction>, k: nat) -> Set<u32>
    decreases k,
{
    if k == 0 {
        Set::empty()
    } else {
        exposed_uses(instrs, (k - 1) as nat).union(
            var_numbers(instr_operands(&instrs[k - 1])).difference(
                defined_before(instrs, k - 1),
            ),
        )
    }
}

/// The variables block `b` defines: its kill set for liveness.
pub open spec fn live_kill(cfg: &Cfg, b: int) -> Set<u32> {
    defined_from(block_instrs(cfg, b), 0)
}

/// The variables block `b` reads before defining them: its gen set for
/// liveness.
pub open spec fn live_gen(cfg: &Cfg, b: int) -> Set<u32> {
    exposed_uses(block_instrs(cfg, b), block_instrs(cfg, b).len())
}

pub open spec fn live_kill_facts(cfg: &Cfg) -> Seq<(Set<u32>, nat)> {
    Seq::new(cfg.num_blocks(), |b: int| (live_kill(cfg, b), 0nat))
}

pub open spec fn live_gen_facts(cfg: &Cfg) -> Seq<(Set<u32>, nat)> {
    Seq::new(cfg.num_blocks(), |b: int| (live_gen(cfg, b), 0nat))
}

/// No input of its own for any block.
pub open spec fn no_inputs<E>(n: nat) -> Seq<(Set<E>, nat)> {
    Seq::new(n, |b: int| (Set::<E>::empty(), 0nat))
}

/// Every variable of the function has a number a hierarchical bit set can
/// hold.
pub open spec fn variables_bounded(cfg: &Cfg) -> bool {
    forall|b: int, j: int|
        0 <= b < cfg.num_blocks() && 0 <= j < block_instrs(cfg, b).len() ==> {
            &&& (#[trigger] instr_dest(&block_instrs(cfg, b)[j]) is Some ==> dest_num(
                &block_instrs(cfg, b)[j],
            ) <= HIBITSET_MAX_INDEX)
            &&& forall|k: int|
                0 <= k < instr_operands(&block_instrs(cfg, b)[j]).len() ==> (#[trigger] instr_operands(
                    &block_instrs(cfg, b)[j],
                )[k]).0 <= HIBITSET_MAX_INDEX
        }
}

/// Whether the variable numbers of the graph's instructions fit the bit
/// sets of the analysis.
pub fn variables_are_bounded(cfg: &Cfg) -> (r: bool)
    ensures
        r == variables_bounded(cfg),
{
    let mut b: usize = 0;
    while b < cfg.vertices.len()
        invariant
            b <= cfg.num_blocks(),
            forall|bb: int, j: int|
                0 <= bb < b && 0 <= j < block_instrs(cfg, bb).len() ==> {
                    &&& (#[trigger] instr_dest(&block_instrs(cfg, bb)[j]) is Some ==> dest_num(&block_instrs(cfg, bb)[j])
                        <= HIBITSET_MAX_INDEX)
                    &&& forall|k: int|
                        0 <= k < instr_operands(&block_instrs(cfg, bb)[j]).len() ==> (#[trigger] instr_operands(
                            &block_instrs(cfg, bb)[j],
                        )[k]).0 <= HIBITSET_MAX_INDEX
                },
        decreases cfg.vertices.len() - b,
    {
        let instrs = cfg.vertices[b].instructions;
        let mut j: usize = 0;
        while j < instrs.len()
            invariant
                b < cfg.num_blocks(),
                instrs@ == block_instrs(cfg, b as int),
                j <= instrs@.len(),
                forall|jj: int|
                    0 <= jj < j ==> {
                        &&& (#[trigger] instr_dest(&block_instrs(cfg, b as int)[jj]) is Some ==> dest_num(
                            &block_instrs(cfg, b as int)[jj],
                        ) <= HIBITSET_MAX_INDEX)
                        &&& forall|k: int|
                            0 <= k < instr_operands(&block_instrs(cfg, b as int)[jj]).len() ==> (#[trigger] instr_operands(
                                &block_instrs(cfg, b as int)[jj],
                            )[k]).0 <= HIBITSET_MAX_INDEX
                    },
            decreases instrs.len() - j,
        {
            let instruction = &instrs[j];
            match instruction.dest() {
                Some(d) => {
                    if d.0 > HIBITSET_MAX_INDEX {
                        proof {
                            assert(instrs@[j as int] == block_instrs(cfg, b as int)[j as int]);
                        }
                        return false;
                    }
                },
                None => {},
            }
            let operands = instruction.operands();
            let mut k: usize = 0;
            while k < operands.len()
                invariant
                    b < cfg.num_blocks(),
                    j < instrs@.len(),
                    instrs@ == block_instrs(cfg, b as int),
                    *instruction == instrs@[j as int],
                    k <= operands@.len(),
                    operands@ == instr_operands(instruction),
                    forall|kk: int| 0 <= kk < k ==> (#[trigger] operands@[kk]).0 <= HIBITSET_MAX_INDEX,
                decreases operands.len() - k,
            {
                if operands[k].0 > HIBITSET_MAX_INDEX {
                    proof {
                        assert(instrs@[j as int] == block_instrs(cfg, b as int)[j as int]);
                        assert(instr_operands(&block_instrs(cfg, b as int)[j as int])[k as int] == operands@[k as int]);
                        if variables_bounded(cfg) {
                            assert(instr_dest(&block_instrs(cfg, b as int)[j as int]) == instr_dest(instruction));
                            assert(forall|kk: int|
                                0 <= kk < instr_operands(&block_instrs(cfg, b as int)[j as int]).len() ==> (#[trigger] instr_operands(
                                    &block_instrs(cfg, b as int)[j as int],
                                )[kk]).0 <= HIBITSET_MAX_INDEX);
                        }
                    }
                    return false;
                }
                k = k + 1;
            }
            proof {
                assert(instrs@[j as int] == block_instrs(cfg, b as int)[j as int]);
            }
            j = j + 1;
        }
        b = b + 1;
    }
    true
}

/// The kill set of each block: the variables it defines.
pub fn find_kill_set(cfg: &Cfg) -> (kill_set: Vec<hibitset::BitSet>)
    requires
        variables_bounded(cfg),
    ensures
        kill_set@.len() == cfg.num_blocks(),
        forall|b: int| 0 <= b < cfg.num_blocks() ==> hibitset_elems(#[trigger] kill_set@[b]) == live_kill(cfg, b),
        forall|b: int| 0 <= b < cfg.num_blocks() ==> hibitset_elems(#[trigger] kill_set@[b]).finite(),
{
    let mut kill_set: Vec<hibitset::BitSet> = Vec::new();
    let mut idx: usize = 0;
    while idx < cfg.vertices.len()
        invariant
            variables_bounded(cfg),
            idx <= cfg.num_blocks(),
            kill_set@.len() == idx,
            forall|b: int| 0 <= b < idx ==> hibitset_elems(#[trigger] kill_set@[b]) == live_kill(cfg, b),
            forall|b: int| 0 <= b < idx ==> hibitset_elems(#[trigger] kill_set@[b]).finite(),
        decreases cfg.vertices.len() - idx,
    {
        let block = &cfg.vertices[idx];
        let ghost instrs = block_instrs(cfg, idx as int);
        let mut able_to_kill = hibitset_new();
        let mut i: usize = block.instructions.len();
        proof {
            assert(hibitset_elems(able_to_kill) =~= defined_from(instrs, i as int));
        }
        while i > 0
            invariant
                variables_bounded(cfg),
                idx < cfg.num_blocks(),
                instrs == block_instrs(cfg, idx as int),
                block.instructions@ == instrs,
                i <= instrs.len(),
                hibitset_elems(able_to_kill) == defined_from(instrs, i as int),
                hibitset_elems(able_to_kill).finite(),
            decreases i,
        {
            i = i - 1;
            let instruction = &block.instructions[i];
            let ghost before = hibitset_elems(able_to_kill);
            if let Some(dest) = instruction.dest() {
                proof {
                    assert(instr_dest(&instrs[i as int]) is Some);
                }
                hibitset_add(&mut able_to_kill, dest.0);
                proof {
                    assert(hibitset_elems(able_to_kill) =~= defined_from(instrs, i as int));
                }
            } else {
                proof {
                    assert(defined_from(instrs, i as int) =~= defined_from(instrs, i + 1));
                }
            }
        }
        kill_set.push(able_to_kill);
        idx = idx + 1;
    }
    kill_set
}

/// The gen set of each block: the variables it reads before defining them.
pub fn find_gen_set(cfg: &Cfg) -> (gen_set: Vec<hibitset::BitSet>)
    requires
        variables_bounded(cfg),
    ensures
        gen_set@.len() == cfg.num_blocks(),
        forall|b: int| 0 <= b < cfg.num_blocks() ==> hibitset_elems(#[trigger] gen_set@[b]) == live_gen(cfg, b),
        forall|b: int| 0 <= b < cfg.num_blocks() ==> hibitset_elems(#[trigger] gen_set@[b]).finite(),
{
    let mut gen_set: Vec<hibitset::BitSet> = Vec::new();
    let mut idx: usize = 0;
    while idx < cfg.vertices.len()
        invariant
            variables_bounded(cfg),
            idx <= cfg.num_blocks(),
            gen_set@.len() == idx,
            forall|b: int| 0 <= b < idx ==> hibitset_elems(#[trigger] gen_set@[b]) == live_gen(cfg, b),
            forall|b: int| 0 <= b < idx ==> hibitset_elems(#[trigger] gen_set@[b]).finite(),
        decreases cfg.vertices.len() - idx,
    {
        let block = &cfg.vertices[idx];
        let ghost instrs = block_instrs(cfg, idx as int);
        let mut generated = hibitset_new();
        let mut local_defs: HashSet<u32> = HashSet::new();
        let mut i: usize = 0;
        proof {
            assert(local_defs@ =~= defined_before(instrs, 0));
        }
        while i < block.instructions.len()
            invariant
                variables_bounded(cfg),
                idx < cfg.num_blocks(),
                instrs == block_instrs(cfg, idx as int),
                block.instructions@ == instrs,
                i <= instrs.len(),
                hibitset_elems(generated) == exposed_uses(instrs, i as nat),
                hibitset_elems(generated).finite(),
                local_defs@ == defined_before(instrs, i as int),
            decreases block.instructions.len() - i,
        {
            let instruction = &block.instructions[i];
            let operands = instruction.operands();
            let ghost ops = instr_operands(&instrs[i as int]);
            let mut k: usize = 0;
            while k < operands.len()
                invariant
                    variables_bounded(cfg),
                    idx < cfg.num_blocks(),
                    instrs == block_instrs(cfg, idx as int),
                    i < instrs.len(),
                    operands@ == ops,
                    ops == instr_operands(&instrs[i as int]),
                    k <= ops.len(),
                    local_defs@ == defined_before(instrs, i as int),
                    hibitset_elems(generated).finite(),
                    hibitset_elems(generated) == exposed_uses(instrs, i as nat).union(
                        var_numbers(ops.subrange(0, k as int)).difference(local_defs@),
                    ),
                decreases operands.len() - k,
            {
                let operand = operands[k];
                proof {
                    assert(ops[k as int] == operand);
                    let d = instr_dest(&block_instrs(cfg, idx as int)[i as int]);
                    assert(instr_operands(&block_instrs(cfg, idx as int)[i as int])[k as int] == operand);
                    assert(operand.0 <= HIBITSET_MAX_INDEX);
                }
                let ghost before = hibitset_elems(generated);
                if !local_defs.contains(&operand.0) {
                    hibitset_add(&mut generated, operand.0);
                }
                proof {
                    assert(var_numbers(ops.subrange(0, k + 1)) =~= var_numbers(ops.subrange(0, k as int)).insert(operand.0)) by {
                        assert forall|v: u32| var_numbers(ops.subrange(0, k + 1)).contains(v) implies var_numbers(ops.subrange(0, k as int)).insert(operand.0).contains(v) by {
                            let j = choose|j: int| 0 <= j < k + 1 && (#[trigger] ops.subrange(0, k + 1)[j]).0 == v;
                            if j < k {
                                assert(ops.subrange(0, k as int)[j] == ops.subrange(0, k + 1)[j]);
                            }
                        }
                        assert forall|v: u32| var_numbers(ops.subrange(0, k as int)).insert(operand.0).contains(v) implies var_numbers(ops.subrange(0, k + 1)).contains(v) by {
                            if v == operand.0 {
                                assert(ops.subrange(0, k + 1)[k as int] == operand);
                            } else {
                                let j = choose|j: int| 0 <= j < k && (#[trigger] ops.subrange(0, k as int)[j]).0 == v;
                                assert(ops.subrange(0, k as int)[j] == ops.subrange(0, k + 1)[j]);
                            }
                        }
                    }
                    assert(hibitset_elems(generated) =~= exposed_uses(instrs, i as nat).union(
                        var_numbers(ops.subrange(0, k + 1)).difference(local_defs@),
                    ));
                }
                k = k + 1;
            }
            proof {
                assert(ops.subrange(0, ops.len() as int) =~= ops);
                assert(hibitset_elems(generated) =~= exposed_uses(instrs, (i + 1) as nat));
            }
            if let Some(dest) = instruction.dest() {
                local_defs.insert(dest.0);
                proof {
                    assert(local_defs@ =~= defined_before(instrs, i + 1)) by {
                        assert forall|v: u32| defined_before(instrs, i + 1).contains(v) implies local_defs@.contains(v) by {
                            let j = choose|j: int| 0 <= j < i + 1 && #[trigger] instr_dest(&instrs[j]) is Some && dest_num(&instrs[j]) == v;
                            if j < i {
                                assert(defined_before(instrs, i as int).contains(v));
                            }
                        }
                    }
                }
            } else {
                proof {
                    assert(local_defs@ =~= defined_before(instrs, i + 1)) by {
                        assert forall|v: u32| defined_before(instrs, i + 1).contains(v) implies local_defs@.contains(v) by {
                            let j = choose|j: int| 0 <= j < i + 1 && #[trigger] instr_dest(&instrs[j]) is Some && dest_num(&instrs[j]) == v;
                            assert(j != i);
                            assert(defined_before(instrs, i as int).contains(v));
                        }
                    }
                }
            }
            i = i + 1;
        }
        gen_set.push(generated);
        idx = idx + 1;
    }
    gen_set
}

/// Live variables at the start of each block reachable from the entry: the
/// least solution of the backward equations
/// `live(b) = (union of live(s) over the successors s of b - kill(b)) + gen(b)`.
/// The variables a block reads before defining them have numbers within
/// the bound when all its variables do.
proof fn lemma_exposed_bounded(cfg: &Cfg, b: int, k: nat)
    requires
        variables_bounded(cfg),
        0 <= b < cfg.num_blocks(),
        k <= block_instrs(cfg, b).len(),
    ensures
        forall|i: u32| #[trigger] exposed_uses(block_instrs(cfg, b), k).contains(i) ==> i <= HIBITSET_MAX_INDEX,
    decreases k,
{
    if k > 0 {
        lemma_exposed_bounded(cfg, b, (k - 1) as nat);
        let instrs = block_instrs(cfg, b);
        assert forall|i: u32| #[trigger] exposed_uses(instrs, k).contains(i) implies i <= HIBITSET_MAX_INDEX by {
            if !exposed_uses(instrs, (k - 1) as nat).contains(i) {
                let ops = instr_operands(&instrs[k - 1]);
                assert(var_numbers(ops).contains(i));
                let j = choose|j: int| 0 <= j < ops.len() && (#[trigger] ops[j]).0 == i;
                assert(instr_dest(&block_instrs(cfg, b)[k - 1]) == instr_dest(&instrs[k - 1]));
                assert(instr_operands(&block_instrs(cfg, b)[k - 1])[j].0 <= HIBITSET_MAX_INDEX);
            }
        }
    }
}

/// Bits of the returned sets are variable numbers; blocks that cannot be
/// reached have no set.
pub fn liveness(cfg: &Cfg) -> (solution: Vec<Option<hibitset::BitSet>>)
    requires
        cfg.wf(),
        cfg.num_blocks() > 0,
        reachable_closed_backward(cfg),
        variables_bounded(cfg),
    ensures
        solution@.len() == cfg.num_blocks(),
        forall|b: usize| b < cfg.num_blocks() ==> ((#[trigger] solution@[b as int]) is Some <==> cfg.reaches(b)),
        forall|b: usize|
            b < cfg.num_blocks() && #[trigger] cfg.reaches(b) ==> opt_facts(solution@)[b as int]
                == flow_eq(
                cfg,
                Direction::Backward,
                no_inputs(cfg.num_blocks()),
                live_kill_facts(cfg),
                live_gen_facts(cfg),
                opt_facts(solution@),
                b,
            ),
        forall|y: Seq<(Set<u32>, nat)>|
            is_post_fixpoint(
                cfg,
                Direction::Backward,
                no_inputs(cfg.num_blocks()),
                live_kill_facts(cfg),
                live_gen_facts(cfg),
                y,
            ) ==> forall|b: usize|
                b < cfg.num_blocks() && #[trigger] cfg.reaches(b) ==> le_fact(
                    opt_facts(solution@)[b as int],
                    y[b as int],
                ),
{
    let kill_set = find_kill_set(cfg);
    let gen_set = find_gen_set(cfg);
    let entry_inputs: HashMap<usize, hibitset::BitSet> = HashMap::new();
    proof {
        assert forall|b: int| 0 <= b < cfg.num_blocks() implies in_range_set::<hibitset::BitSet>((#[trigger] kill_set@[b]).elems()) by {
            assert forall|i: u32| #[trigger] kill_set@[b].elems().contains(i) implies hibitset::BitSet::in_range(i) by {
                assert(live_kill(cfg, b).contains(i));
                let instrs = block_instrs(cfg, b);
                let j = choose|j: int| 0 <= j < instrs.len() && #[trigger] instr_dest(&instrs[j]) is Some && dest_num(&instrs[j]) == i;
                assert(instr_dest(&block_instrs(cfg, b)[j]) is Some);
            }
        }
        assert forall|b: int| 0 <= b < cfg.num_blocks() implies in_range_set::<hibitset::BitSet>((#[trigger] gen_set@[b]).elems()) by {
            lemma_exposed_bounded(cfg, b, block_instrs(cfg, b).len());
            assert forall|i: u32| #[trigger] gen_set@[b].elems().contains(i) implies hibitset::BitSet::in_range(i) by {
                assert(live_gen(cfg, b).contains(i));
            }
        }
        assert(facts(kill_set@) =~= live_kill_facts(cfg));
        assert(facts(gen_set@) =~= live_gen_facts(cfg));
        assert(crate::analysis::sequential::entry_facts(entry_inputs@, cfg.num_blocks()) =~= no_inputs(cfg.num_blocks()));
    }
    solve_dataflow(cfg, Direction::Backward, &entry_inputs, &kill_set, &gen_set)
}

} // verus!
