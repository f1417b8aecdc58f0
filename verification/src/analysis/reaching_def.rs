use vstd::prelude::*;

use std::collections::{HashMap, HashSet};

use crate::analysis::liveness::{block_instrs, defined_before, defined_from, dest_num, no_inputs};
use crate::analysis::sequential::{
    facts, flow_eq, is_post_fixpoint, le_fact, opt_facts, reachable_closed_backward,
    solve_dataflow,
};
use crate::analysis::{instr_dest, Direction, InstructionExt};
use crate::bitsets::{
    fixedbitset_bits, fixedbitset_insert, fixedbitset_len, fixedbitset_remove_range,
    fixedbitset_union_with, fixedbitset_with_capacity, FlowSet,
};
use crate::cfg::Cfg;

verus! {

broadcast use vstd::std_specs::hash::group_hash_axioms;

/// Offset of block `b`'s first instruction within the function.
pub open spec fn block_start(cfg: &Cfg, b: int) -> int {
    cfg.vertices@[b].offset as int
}

/// Number of instructions of block `b`.
pub open spec fn block_len(cfg: &Cfg, b: int) -> int {
    block_instrs(cfg, b).len() as int
}

/// Every block ends at an offset a `usize` can hold.
pub open spec fn offsets_fit(cfg: &Cfg) -> bool {
    forall|b: int| 0 <= b < cfg.num_blocks() ==> #[trigger] block_start(cfg, b) + block_len(cfg, b) <= usize::MAX
}

/// Whether every block ends at an offset a `usize` can hold.
pub fn offsets_are_in_range(cfg: &Cfg) -> (r: bool)
    ensures
        r == offsets_fit(cfg),
{
    let mut b: usize = 0;
    while b < cfg.vertices.len()
        invariant
            b <= cfg.num_blocks(),
            forall|bb: int| 0 <= bb < b ==> #[trigger] block_start(cfg, bb) + block_len(cfg, bb) <= usize::MAX,
        decreases cfg.vertices.len() - b,
    {
        if cfg.vertices[b].instructions.len() > usize::MAX - cfg.vertices[b].offset {
            proof {
                assert(!(block_start(cfg, b as int) + block_len(cfg, b as int) <= usize::MAX));
            }
            return false;
        }
        b = b + 1;
    }
    true
}

/// The largest end offset among the first `k` blocks (0 for none).
pub open spec fn instr_count(cfg: &Cfg, k: nat) -> int
    decreases k,
{
    if k == 0 {
        0
    } else {
        let prev = instr_count(cfg, (k - 1) as nat);
        let end = block_start(cfg, k - 1) + block_len(cfg, k - 1);
        if end > prev {
            end
        } else {
            prev
        }
    }
}

/// Instruction `i` of block `b` defines variable number `d`.
pub open spec fn defines_at(cfg: &Cfg, b: int, i: int, d: u32) -> bool {
    &&& 0 <= i < block_len(cfg, b)
    &&& instr_dest(&block_instrs(cfg, b)[i]) is Some
    &&& dest_num(&block_instrs(cfg, b)[i]) == d
}

/// The offsets of the instructions defining variable number `d` in blocks
/// below `bb`, or in block `bb` before instruction `ii`.
pub open spec fn def_sites_upto(cfg: &Cfg, d: u32, bb: int, ii: int) -> Set<usize> {
    Set::new(
        |p: usize|
            exists|b: int, i: int|
                0 <= b < cfg.num_blocks() && (b < bb || (b == bb && i < ii)) && #[trigger] defines_at(
                    cfg,
                    b,
                    i,
                    d,
                ) && p == block_start(cfg, b) + i,
    )
}

/// The offsets of all instructions of the function that define variable
/// number `d`.
pub open spec fn def_sites(cfg: &Cfg, d: u32) -> Set<usize> {
    def_sites_upto(cfg, d, cfg.num_blocks() as int, 0)
}

/// The definitions block `b` kills: every definition of a variable it
/// defines, except its own.
pub open spec fn rd_kill(cfg: &Cfg, b: int) -> Set<usize> {
    Set::new(
        |p: usize|
            (exists|d: u32|
                defined_before(block_instrs(cfg, b), block_len(cfg, b)).contains(d)
                    && #[trigger] def_sites(cfg, d).contains(p)) && !(block_start(cfg, b) <= p
                < block_start(cfg, b) + block_len(cfg, b)),
    )
}

/// The definitions block `b` generates: the last definition in the block of
/// each variable it defines, by offset.
pub open spec fn rd_gen(cfg: &Cfg, b: int) -> Set<usize> {
    Set::new(
        |p: usize|
            exists|i: int|
                #[trigger] defines_at(cfg, b, i, dest_num(&block_instrs(cfg, b)[i])) && p
                    == block_start(cfg, b) + i && forall|j: int|
                    i < j < block_len(cfg, b) ==> !defines_at(
                        cfg,
                        b,
                        j,
                        dest_num(&block_instrs(cfg, b)[i]),
                    ),
    )
}

pub open spec fn rd_kill_facts(cfg: &Cfg) -> Seq<(Set<usize>, nat)> {
    Seq::new(cfg.num_blocks(), |b: int| (rd_kill(cfg, b), instr_count(cfg, cfg.num_blocks()) as nat))
}

pub open spec fn rd_gen_facts(cfg: &Cfg) -> Seq<(Set<usize>, nat)> {
    Seq::new(cfg.num_blocks(), |b: int| (rd_gen(cfg, b), instr_count(cfg, cfg.num_blocks()) as nat))
}

proof fn lemma_instr_count(cfg: &Cfg, k: nat)
    requires
        k <= cfg.num_blocks(),
        offsets_fit(cfg),
    ensures
        0 <= instr_count(cfg, k) <= usize::MAX,
        forall|b: int| 0 <= b < k ==> #[trigger] block_start(cfg, b) + block_len(cfg, b) <= instr_count(cfg, k),
    decreases k,
{
    if k > 0 {
        lemma_instr_count(cfg, (k - 1) as nat);
        assert(block_start(cfg, k - 1) + block_len(cfg, k - 1) <= usize::MAX);
    }
}

/// The offset just past the function's last instruction, as far as the
/// blocks tell: the largest end offset of a block.
fn total_instr_num(cfg: &Cfg) -> (total: usize)
    requires
        offsets_fit(cfg),
    ensures
        total == instr_count(cfg, cfg.num_blocks()),
        forall|b: int|
            0 <= b < cfg.num_blocks() ==> #[trigger] block_start(cfg, b) + block_len(cfg, b) <= total,
{
    let mut total: usize = 0;
    let mut k: usize = 0;
    while k < cfg.vertices.len()
        invariant
            offsets_fit(cfg),
            k <= cfg.num_blocks(),
            total == instr_count(cfg, k as nat),
        decreases cfg.vertices.len() - k,
    {
        let v = &cfg.vertices[k];
        proof {
            assert(block_start(cfg, k as int) + block_len(cfg, k as int) <= usize::MAX);
        }
        let end = v.offset + v.instructions.len();
        if end > total {
            total = end;
        }
        k = k + 1;
    }
    proof {
        lemma_instr_count(cfg, cfg.num_blocks());
    }
    total
}

/// For each variable number, the offsets of the instructions defining it.
fn find_def_sites(cfg: &Cfg, total: usize) -> (universe: HashMap<u32, fixedbitset::FixedBitSet>)
    requires
        offsets_fit(cfg),
        total == instr_count(cfg, cfg.num_blocks()),
    ensures
        forall|d: u32| #[trigger] universe@.contains_key(d) ==> fixedbitset_len(universe@[d]) == total,
        forall|d: u32| #[trigger] universe@.contains_key(d) ==> fixedbitset_bits(universe@[d]) == def_sites(cfg, d),
        forall|d: u32| #[trigger] universe@.contains_key(d) ==> fixedbitset_bits(universe@[d]).finite(),
        forall|d: u32| !(#[trigger] universe@.contains_key(d)) ==> def_sites(cfg, d) == Set::<usize>::empty(),
{
    proof {
        lemma_instr_count(cfg, cfg.num_blocks());
    }
    let mut universe: HashMap<u32, fixedbitset::FixedBitSet> = HashMap::new();
    let mut bb: usize = 0;
    while bb < cfg.vertices.len()
        invariant
            offsets_fit(cfg),
            total == instr_count(cfg, cfg.num_blocks()),
            forall|b: int| 0 <= b < cfg.num_blocks() ==> #[trigger] block_start(cfg, b) + block_len(cfg, b) <= total,
            bb <= cfg.num_blocks(),
            forall|d: u32| #[trigger] universe@.contains_key(d) ==> fixedbitset_len(universe@[d]) == total,
            forall|d: u32| #[trigger] universe@.contains_key(d) ==> fixedbitset_bits(universe@[d]) == def_sites_upto(cfg, d, bb as int, 0),
            forall|d: u32| #[trigger] universe@.contains_key(d) ==> fixedbitset_bits(universe@[d]).finite(),
            forall|d: u32| !(#[trigger] universe@.contains_key(d)) ==> def_sites_upto(cfg, d, bb as int, 0) == Set::<usize>::empty(),
        decreases cfg.vertices.len() - bb,
    {
        let block = &cfg.vertices[bb];
        let mut i: usize = 0;
        proof {
            assert forall|d: u32| true implies def_sites_upto(cfg, d, bb as int, 0) =~= def_sites_upto(cfg, d, bb as int, 0) by {}
        }
        while i < block.instructions.len()
            invariant
                offsets_fit(cfg),
                total == instr_count(cfg, cfg.num_blocks()),
                forall|b: int| 0 <= b < cfg.num_blocks() ==> #[trigger] block_start(cfg, b) + block_len(cfg, b) <= total,
                bb < cfg.num_blocks(),
                block.instructions@ == block_instrs(cfg, bb as int),
                block.offset == block_start(cfg, bb as int),
                i <= block.instructions@.len(),
                forall|d: u32| #[trigger] universe@.contains_key(d) ==> fixedbitset_len(universe@[d]) == total,
                forall|d: u32| #[trigger] universe@.contains_key(d) ==> fixedbitset_bits(universe@[d]) == def_sites_upto(cfg, d, bb as int, i as int),
                forall|d: u32| #[trigger] universe@.contains_key(d) ==> fixedbitset_bits(universe@[d]).finite(),
                forall|d: u32| !(#[trigger] universe@.contains_key(d)) ==> def_sites_upto(cfg, d, bb as int, i as int) == Set::<usize>::empty(),
            decreases block.instructions.len() - i,
        {
            let instruction = &block.instructions[i];
            proof {
                assert(block_start(cfg, bb as int) + block_len(cfg, bb as int) <= total);
            }
            let pos = block.offset + i;
            match instruction.dest() {
                Some(dest) => {
                    let ghost du = universe@;
                    let mut sites = match universe.remove(&dest.0) {
                        Some(s) => s,
                        None => fixedbitset_with_capacity(total),
                    };
                    fixedbitset_insert(&mut sites, pos);
                    universe.insert(dest.0, sites);
                    proof {
                        assert(defines_at(cfg, bb as int, i as int, dest.0));
                        assert forall|d: u32| #[trigger] universe@.contains_key(d) implies fixedbitset_bits(universe@[d]) == def_sites_upto(cfg, d, bb as int, i + 1) by {
                            if d == dest.0 {
                                assert(fixedbitset_bits(universe@[d]) =~= def_sites_upto(cfg, d, bb as int, i + 1)) by {
                                    assert forall|p: usize| def_sites_upto(cfg, d, bb as int, i + 1).contains(p) implies fixedbitset_bits(universe@[d]).contains(p) by {
                                        let (b, k) = choose|b: int, k: int| 0 <= b < cfg.num_blocks() && (b < bb || (b == bb && k < i + 1)) && #[trigger] defines_at(cfg, b, k, d) && p == block_start(cfg, b) + k;
                                        if !(b == bb && k == i) {
                                            assert(def_sites_upto(cfg, d, bb as int, i as int).contains(p));
                                        }
                                    }
                                    assert forall|p: usize| fixedbitset_bits(universe@[d]).contains(p) implies def_sites_upto(cfg, d, bb as int, i + 1).contains(p) by {
                                        if p != pos {
                                            assert(def_sites_upto(cfg, d, bb as int, i as int).contains(p));
                                            let (b, k) = choose|b: int, k: int| 0 <= b < cfg.num_blocks() && (b < bb || (b == bb && k < i)) && #[trigger] defines_at(cfg, b, k, d) && p == block_start(cfg, b) + k;
                                            assert(defines_at(cfg, b, k, d));
                                        } else {
                                            assert(defines_at(cfg, bb as int, i as int, d));
                                        }
                                    }
                                }
                            } else {
                                assert(def_sites_upto(cfg, d, bb as int, i + 1) =~= def_sites_upto(cfg, d, bb as int, i as int)) by {
                                    assert forall|p: usize| def_sites_upto(cfg, d, bb as int, i + 1).contains(p) implies def_sites_upto(cfg, d, bb as int, i as int).contains(p) by {
                                        let (b, k) = choose|b: int, k: int| 0 <= b < cfg.num_blocks() && (b < bb || (b == bb && k < i + 1)) && #[trigger] defines_at(cfg, b, k, d) && p == block_start(cfg, b) + k;
                                        assert(defines_at(cfg, b, k, d));
                                    }
                                }
                            }
                        }
                        assert forall|d: u32| !(#[trigger] universe@.contains_key(d)) implies def_sites_upto(cfg, d, bb as int, i + 1) == Set::<usize>::empty() by {
                            assert(def_sites_upto(cfg, d, bb as int, i + 1) =~= def_sites_upto(cfg, d, bb as int, i as int)) by {
                                assert forall|p: usize| def_sites_upto(cfg, d, bb as int, i + 1).contains(p) implies def_sites_upto(cfg, d, bb as int, i as int).contains(p) by {
                                    let (b, k) = choose|b: int, k: int| 0 <= b < cfg.num_blocks() && (b < bb || (b == bb && k < i + 1)) && #[trigger] defines_at(cfg, b, k, d) && p == block_start(cfg, b) + k;
                                    assert(defines_at(cfg, b, k, d));
                                }
                            }
                        }
                    }
                },
                None => {
                    proof {
                        assert forall|d: u32| true implies def_sites_upto(cfg, d, bb as int, i + 1) =~= def_sites_upto(cfg, d, bb as int, i as int) by {
                            assert forall|p: usize| def_sites_upto(cfg, d, bb as int, i + 1).contains(p) implies def_sites_upto(cfg, d, bb as int, i as int).contains(p) by {
                                let (b, k) = choose|b: int, k: int| 0 <= b < cfg.num_blocks() && (b < bb || (b == bb && k < i + 1)) && #[trigger] defines_at(cfg, b, k, d) && p == block_start(cfg, b) + k;
                                assert(defines_at(cfg, b, k, d));
                            }
                        }
                    }
                },
            }
            i = i + 1;
        }
        proof {
            assert forall|d: u32| true implies def_sites_upto(cfg, d, bb + 1, 0) =~= def_sites_upto(cfg, d, bb as int, i as int) by {
                assert forall|p: usize| def_sites_upto(cfg, d, bb + 1, 0).contains(p) implies def_sites_upto(cfg, d, bb as int, i as int).contains(p) by {
                    let (b, k) = choose|b: int, k: int| 0 <= b < cfg.num_blocks() && (b < bb + 1 || (b == bb + 1 && k < 0)) && #[trigger] defines_at(cfg, b, k, d) && p == block_start(cfg, b) + k;
                    assert(defines_at(cfg, b, k, d));
                }
                assert forall|p: usize| def_sites_upto(cfg, d, bb as int, i as int).contains(p) implies def_sites_upto(cfg, d, bb + 1, 0).contains(p) by {
                    let (b, k) = choose|b: int, k: int| 0 <= b < cfg.num_blocks() && (b < bb || (b == bb && k < i)) && #[trigger] defines_at(cfg, b, k, d) && p == block_start(cfg, b) + k;
                    assert(defines_at(cfg, b, k, d));
                }
            }
        }
        bb = bb + 1;
    }
    universe
}

/// Definitions generated by instructions `i..` of block `b`.
pub open spec fn rd_gen_from(cfg: &Cfg, b: int, lo: int) -> Set<usize> {
    Set::new(
        |p: usize|
            exists|i: int|
                lo <= i && #[trigger] defines_at(cfg, b, i, dest_num(&block_instrs(cfg, b)[i])) && p
                    == block_start(cfg, b) + i && forall|j: int|
                    i < j < block_len(cfg, b) ==> !defines_at(
                        cfg,
                        b,
                        j,
                        dest_num(&block_instrs(cfg, b)[i]),
                    ),
    )
}

/// Definitions of the variables defined by the first `i` instructions of
/// block `b`.
pub open spec fn kill_upto(cfg: &Cfg, b: int, i: int) -> Set<usize> {
    Set::new(
        |p: usize|
            exists|d: u32|
                defined_before(block_instrs(cfg, b), i).contains(d) && #[trigger] def_sites(
                    cfg,
                    d,
                ).contains(p),
    )
}

/// The kill set of each block, over the function's instruction offsets.
pub fn find_kill_set(cfg: &Cfg) -> (kill_set: Vec<fixedbitset::FixedBitSet>)
    requires
        offsets_fit(cfg),
    ensures
        kill_set@.len() == cfg.num_blocks(),
        forall|b: int| 0 <= b < cfg.num_blocks() ==> fixedbitset_bits(#[trigger] kill_set@[b]) == rd_kill(cfg, b),
        forall|b: int| 0 <= b < cfg.num_blocks() ==> fixedbitset_len(#[trigger] kill_set@[b]) == instr_count(cfg, cfg.num_blocks()),
        forall|b: int| 0 <= b < cfg.num_blocks() ==> fixedbitset_bits(#[trigger] kill_set@[b]).finite(),
{
    let total = total_instr_num(cfg);
    let universe = find_def_sites(cfg, total);
    let mut kill_set: Vec<fixedbitset::FixedBitSet> = Vec::new();
    let mut idx: usize = 0;
    while idx < cfg.vertices.len()
        invariant
            offsets_fit(cfg),
            total == instr_count(cfg, cfg.num_blocks()),
            forall|b: int| 0 <= b < cfg.num_blocks() ==> #[trigger] block_start(cfg, b) + block_len(cfg, b) <= total,
            forall|d: u32| #[trigger] universe@.contains_key(d) ==> fixedbitset_len(universe@[d]) == total,
            forall|d: u32| #[trigger] universe@.contains_key(d) ==> fixedbitset_bits(universe@[d]) == def_sites(cfg, d),
            forall|d: u32| #[trigger] universe@.contains_key(d) ==> fixedbitset_bits(universe@[d]).finite(),
            forall|d: u32| !(#[trigger] universe@.contains_key(d)) ==> def_sites(cfg, d) == Set::<usize>::empty(),
            idx <= cfg.num_blocks(),
            kill_set@.len() == idx,
            forall|b: int| 0 <= b < idx ==> fixedbitset_bits(#[trigger] kill_set@[b]) == rd_kill(cfg, b),
            forall|b: int| 0 <= b < idx ==> fixedbitset_len(#[trigger] kill_set@[b]) == total,
            forall|b: int| 0 <= b < idx ==> fixedbitset_bits(#[trigger] kill_set@[b]).finite(),
        decreases cfg.vertices.len() - idx,
    {
        let block = &cfg.vertices[idx];
        let ghost instrs = block_instrs(cfg, idx as int);
        let mut able_to_kill = fixedbitset_with_capacity(total);
        let mut i: usize = 0;
        proof {
            assert(fixedbitset_bits(able_to_kill) =~= kill_upto(cfg, idx as int, 0));
        }
        while i < block.instructions.len()
            invariant
                offsets_fit(cfg),
                total == instr_count(cfg, cfg.num_blocks()),
                forall|d: u32| #[trigger] universe@.contains_key(d) ==> fixedbitset_len(universe@[d]) == total,
                forall|d: u32| #[trigger] universe@.contains_key(d) ==> fixedbitset_bits(universe@[d]) == def_sites(cfg, d),
                forall|d: u32| #[trigger] universe@.contains_key(d) ==> fixedbitset_bits(universe@[d]).finite(),
                forall|d: u32| !(#[trigger] universe@.contains_key(d)) ==> def_sites(cfg, d) == Set::<usize>::empty(),
                idx < cfg.num_blocks(),
                instrs == block_instrs(cfg, idx as int),
                block.instructions@ == instrs,
                block.offset == block_start(cfg, idx as int),
                i <= instrs.len(),
                fixedbitset_bits(able_to_kill) == kill_upto(cfg, idx as int, i as int),
                fixedbitset_bits(able_to_kill).finite(),
                fixedbitset_len(able_to_kill) == total,
            decreases block.instructions.len() - i,
        {
            let instruction = &block.instructions[i];
            match instruction.dest() {
                Some(dest) => {
                    proof {
                        assert(defines_at(cfg, idx as int, i as int, dest.0));
                        assert(def_sites(cfg, dest.0).contains((block_start(cfg, idx as int) + i) as usize));
                    }
                    match universe.get(&dest.0) {
                        Some(sites) => {
                            fixedbitset_union_with(&mut able_to_kill, sites);
                        },
                        None => {},
                    }
                    proof {
                        assert(fixedbitset_bits(able_to_kill) =~= kill_upto(cfg, idx as int, i + 1)) by {
                            assert forall|p: usize| kill_upto(cfg, idx as int, i + 1).contains(p) implies fixedbitset_bits(able_to_kill).contains(p) by {
                                let d = choose|d: u32| defined_before(instrs, i + 1).contains(d) && #[trigger] def_sites(cfg, d).contains(p);
                                if d != dest.0 {
                                    let j = choose|j: int| 0 <= j < i + 1 && #[trigger] instr_dest(&instrs[j]) is Some && dest_num(&instrs[j]) == d;
                                    assert(defined_before(instrs, i as int).contains(d));
                                }
                            }
                            assert forall|p: usize| fixedbitset_bits(able_to_kill).contains(p) implies kill_upto(cfg, idx as int, i + 1).contains(p) by {
                                if kill_upto(cfg, idx as int, i as int).contains(p) {
                                    let d = choose|d: u32| defined_before(instrs, i as int).contains(d) && #[trigger] def_sites(cfg, d).contains(p);
                                    let j = choose|j: int| 0 <= j < i && #[trigger] instr_dest(&instrs[j]) is Some && dest_num(&instrs[j]) == d;
                                    assert(defined_before(instrs, i + 1).contains(d));
                                } else {
                                    assert(defined_before(instrs, i + 1).contains(dest.0));
                                    assert(def_sites(cfg, dest.0).contains(p));
                                }
                            }
                        }
                    }
                },
                None => {
                    proof {
                        assert(fixedbitset_bits(able_to_kill) =~= kill_upto(cfg, idx as int, i + 1)) by {
                            assert forall|p: usize| kill_upto(cfg, idx as int, i + 1).contains(p) implies fixedbitset_bits(able_to_kill).contains(p) by {
                                let d = choose|d: u32| defined_before(instrs, i + 1).contains(d) && #[trigger] def_sites(cfg, d).contains(p);
                                let j = choose|j: int| 0 <= j < i + 1 && #[trigger] instr_dest(&instrs[j]) is Some && dest_num(&instrs[j]) == d;
                                assert(j != i);
                                assert(defined_before(instrs, i as int).contains(d));
                            }
                            assert forall|p: usize| fixedbitset_bits(able_to_kill).contains(p) implies kill_upto(cfg, idx as int, i + 1).contains(p) by {
                                let d = choose|d: u32| defined_before(instrs, i as int).contains(d) && #[trigger] def_sites(cfg, d).contains(p);
                                let j = choose|j: int| 0 <= j < i && #[trigger] instr_dest(&instrs[j]) is Some && dest_num(&instrs[j]) == d;
                                assert(defined_before(instrs, i + 1).contains(d));
                            }
                        }
                    }
                },
            }
            i = i + 1;
        }
        proof {
            assert(block_start(cfg, idx as int) + block_len(cfg, idx as int) <= total);
        }
        fixedbitset_remove_range(&mut able_to_kill, block.offset, block.offset + block.instructions.len());
        proof {
            assert(fixedbitset_bits(able_to_kill) =~= rd_kill(cfg, idx as int));
        }
        kill_set.push(able_to_kill);
        idx = idx + 1;
    }
    kill_set
}

/// The gen set of each block, over the function's instruction offsets.
pub fn find_gen_set(cfg: &Cfg) -> (gen_set: Vec<fixedbitset::FixedBitSet>)
    requires
        offsets_fit(cfg),
    ensures
        gen_set@.len() == cfg.num_blocks(),
        forall|b: int| 0 <= b < cfg.num_blocks() ==> fixedbitset_bits(#[trigger] gen_set@[b]) == rd_gen(cfg, b),
        forall|b: int| 0 <= b < cfg.num_blocks() ==> fixedbitset_len(#[trigger] gen_set@[b]) == instr_count(cfg, cfg.num_blocks()),
        forall|b: int| 0 <= b < cfg.num_blocks() ==> fixedbitset_bits(#[trigger] gen_set@[b]).finite(),
{
    let total = total_instr_num(cfg);
    let mut gen_set: Vec<fixedbitset::FixedBitSet> = Vec::new();
    let mut idx: usize = 0;
    while idx < cfg.vertices.len()
        invariant
            offsets_fit(cfg),
            total == instr_count(cfg, cfg.num_blocks()),
            forall|b: int| 0 <= b < cfg.num_blocks() ==> #[trigger] block_start(cfg, b) + block_len(cfg, b) <= total,
            idx <= cfg.num_blocks(),
            gen_set@.len() == idx,
            forall|b: int| 0 <= b < idx ==> fixedbitset_bits(#[trigger] gen_set@[b]) == rd_gen(cfg, b),
            forall|b: int| 0 <= b < idx ==> fixedbitset_len(#[trigger] gen_set@[b]) == total,
            forall|b: int| 0 <= b < idx ==> fixedbitset_bits(#[trigger] gen_set@[b]).finite(),
        decreases cfg.vertices.len() - idx,
    {
        let block = &cfg.vertices[idx];
        let ghost instrs = block_instrs(cfg, idx as int);
        let ghost b = idx as int;
        let mut generated = fixedbitset_with_capacity(total);
        let mut seen: HashSet<u32> = HashSet::new();
        let mut i: usize = block.instructions.len();
        proof {
            assert(fixedbitset_bits(generated) =~= rd_gen_from(cfg, b, i as int));
            assert(seen@ =~= defined_from(instrs, i as int));
            assert(block_start(cfg, b) + block_len(cfg, b) <= total);
        }
        while i > 0
            invariant
                idx < cfg.num_blocks(),
                b == idx,
                block_start(cfg, b) + block_len(cfg, b) <= total,
                instrs == block_instrs(cfg, b),
                block.instructions@ == instrs,
                block.offset == block_start(cfg, b),
                i <= instrs.len(),
                fixedbitset_bits(generated) == rd_gen_from(cfg, b, i as int),
                fixedbitset_bits(generated).finite(),
                fixedbitset_len(generated) == total,
                seen@ == defined_from(instrs, i as int),
            decreases i,
        {
            i = i - 1;
            let instruction = &block.instructions[i];
            match instruction.dest() {
                Some(dest) => {
                    if !seen.contains(&dest.0) {
                        seen.insert(dest.0);
                        fixedbitset_insert(&mut generated, block.offset + i);
                        proof {
                            assert(defines_at(cfg, b, i as int, dest.0));
                            assert(fixedbitset_bits(generated) =~= rd_gen_from(cfg, b, i as int)) by {
                                assert forall|p: usize| rd_gen_from(cfg, b, i as int).contains(p) implies fixedbitset_bits(generated).contains(p) by {
                                    let k = choose|k: int| i <= k && #[trigger] defines_at(cfg, b, k, dest_num(&instrs[k])) && p == block_start(cfg, b) + k && forall|j: int| k < j < block_len(cfg, b) ==> !defines_at(cfg, b, j, dest_num(&instrs[k]));
                                    if k > i {
                                        assert(rd_gen_from(cfg, b, i + 1).contains(p));
                                    }
                                }
                                assert forall|p: usize| fixedbitset_bits(generated).contains(p) implies rd_gen_from(cfg, b, i as int).contains(p) by {
                                    if p == block.offset + i {
                                        assert forall|j: int| i < j < block_len(cfg, b) implies !defines_at(cfg, b, j, dest_num(&instrs[i as int])) by {
                                            if defines_at(cfg, b, j, dest.0) {
                                                assert(defined_from(instrs, i + 1).contains(dest.0));
                                            }
                                        }
                                        assert(defines_at(cfg, b, i as int, dest_num(&instrs[i as int])));
                                    } else {
                                        assert(rd_gen_from(cfg, b, i + 1).contains(p));
                                        let k = choose|k: int| i + 1 <= k && #[trigger] defines_at(cfg, b, k, dest_num(&instrs[k])) && p == block_start(cfg, b) + k && forall|j: int| k < j < block_len(cfg, b) ==> !defines_at(cfg, b, j, dest_num(&instrs[k]));
                                        assert(defines_at(cfg, b, k, dest_num(&instrs[k])));
                                    }
                                }
                            }
                            assert(seen@ =~= defined_from(instrs, i as int)) by {
                                assert forall|v: u32| defined_from(instrs, i as int).contains(v) implies seen@.contains(v) by {
                                    let j = choose|j: int| i <= j < instrs.len() && #[trigger] instr_dest(&instrs[j]) is Some && dest_num(&instrs[j]) == v;
                                    if j > i {
                                        assert(defined_from(instrs, i + 1).contains(v));
                                    }
                                }
                                assert forall|v: u32| seen@.contains(v) implies defined_from(instrs, i as int).contains(v) by {
                                    if v != dest.0 {
                                        let j = choose|j: int| i + 1 <= j < instrs.len() && #[trigger] instr_dest(&instrs[j]) is Some && dest_num(&instrs[j]) == v;
                                        assert(instr_dest(&instrs[j]) is Some);
                                    } else {
                                        assert(instr_dest(&instrs[i as int]) is Some);
                                    }
                                }
                            }
                        }
                    } else {
                        proof {
                            assert(fixedbitset_bits(generated) =~= rd_gen_from(cfg, b, i as int)) by {
                                assert forall|p: usize| rd_gen_from(cfg, b, i as int).contains(p) implies fixedbitset_bits(generated).contains(p) by {
                                    let k = choose|k: int| i <= k && #[trigger] defines_at(cfg, b, k, dest_num(&instrs[k])) && p == block_start(cfg, b) + k && forall|j: int| k < j < block_len(cfg, b) ==> !defines_at(cfg, b, j, dest_num(&instrs[k]));
                                    if k == i {
                                        let j = choose|j: int| i + 1 <= j < instrs.len() && #[trigger] instr_dest(&instrs[j]) is Some && dest_num(&instrs[j]) == dest.0;
                                        assert(defines_at(cfg, b, j, dest_num(&instrs[k])));
                                    } else {
                                        assert(rd_gen_from(cfg, b, i + 1).contains(p));
                                    }
                                }
                                assert forall|p: usize| fixedbitset_bits(generated).contains(p) implies rd_gen_from(cfg, b, i as int).contains(p) by {
                                    let k = choose|k: int| i + 1 <= k && #[trigger] defines_at(cfg, b, k, dest_num(&instrs[k])) && p == block_start(cfg, b) + k && forall|j: int| k < j < block_len(cfg, b) ==> !defines_at(cfg, b, j, dest_num(&instrs[k]));
                                    assert(defines_at(cfg, b, k, dest_num(&instrs[k])));
                                }
                            }
                            assert(seen@ =~= defined_from(instrs, i as int)) by {
                                assert forall|v: u32| defined_from(instrs, i as int).contains(v) implies seen@.contains(v) by {
                                    let j = choose|j: int| i <= j < instrs.len() && #[trigger] instr_dest(&instrs[j]) is Some && dest_num(&instrs[j]) == v;
                                    if j > i {
                                        assert(defined_from(instrs, i + 1).contains(v));
                                    }
                                }
                                assert forall|v: u32| seen@.contains(v) implies defined_from(instrs, i as int).contains(v) by {
                                    let j = choose|j: int| i + 1 <= j < instrs.len() && #[trigger] instr_dest(&instrs[j]) is Some && dest_num(&instrs[j]) == v;
                                    assert(instr_dest(&instrs[j]) is Some);
                                }
                            }
                        }
                    }
                },
                None => {
                    proof {
                        assert(fixedbitset_bits(generated) =~= rd_gen_from(cfg, b, i as int)) by {
                            assert forall|p: usize| rd_gen_from(cfg, b, i as int).contains(p) implies fixedbitset_bits(generated).contains(p) by {
                                let k = choose|k: int| i <= k && #[trigger] defines_at(cfg, b, k, dest_num(&instrs[k])) && p == block_start(cfg, b) + k && forall|j: int| k < j < block_len(cfg, b) ==> !defines_at(cfg, b, j, dest_num(&instrs[k]));
                                assert(k != i);
                                assert(rd_gen_from(cfg, b, i + 1).contains(p));
                            }
                            assert forall|p: usize| fixedbitset_bits(generated).contains(p) implies rd_gen_from(cfg, b, i as int).contains(p) by {
                                let k = choose|k: int| i + 1 <= k && #[trigger] defines_at(cfg, b, k, dest_num(&instrs[k])) && p == block_start(cfg, b) + k && forall|j: int| k < j < block_len(cfg, b) ==> !defines_at(cfg, b, j, dest_num(&instrs[k]));
                                assert(defines_at(cfg, b, k, dest_num(&instrs[k])));
                            }
                        }
                        assert(seen@ =~= defined_from(instrs, i as int)) by {
                            assert forall|v: u32| defined_from(instrs, i as int).contains(v) implies seen@.contains(v) by {
                                let j = choose|j: int| i <= j < instrs.len() && #[trigger] instr_dest(&instrs[j]) is Some && dest_num(&instrs[j]) == v;
                                assert(j != i);
                                assert(defined_from(instrs, i + 1).contains(v));
                            }
                            assert forall|v: u32| seen@.contains(v) implies defined_from(instrs, i as int).contains(v) by {
                                let j = choose|j: int| i + 1 <= j < instrs.len() && #[trigger] instr_dest(&instrs[j]) is Some && dest_num(&instrs[j]) == v;
                                assert(instr_dest(&instrs[j]) is Some);
                            }
                        }
                    }
                },
            }
        }
        proof {
            assert(fixedbitset_bits(generated) =~= rd_gen(cfg, b));
        }
        gen_set.push(generated);
        idx = idx + 1;
    }
    gen_set
}

/// Reaching definitions at the end of each block reachable from the entry:
/// the least solution of the forward equations
/// `out(b) = (union of out(p) over the predecessors p of b - kill(b)) + gen(b)`.
/// Bits of the returned sets are offsets, within the function, of defining
/// instructions; each set has one bit per instruction of the function.
/// Function parameters are not tracked. Blocks that cannot be reached have
/// no set.
pub fn reaching_def(cfg: &Cfg) -> (solution: Vec<Option<fixedbitset::FixedBitSet>>)
    requires
        cfg.wf(),
        cfg.num_blocks() > 0,
        reachable_closed_backward(cfg),
        offsets_fit(cfg),
    ensures
        solution@.len() == cfg.num_blocks(),
        forall|b: usize| b < cfg.num_blocks() ==> ((#[trigger] solution@[b as int]) is Some <==> cfg.reaches(b)),
        forall|b: usize|
            b < cfg.num_blocks() && #[trigger] cfg.reaches(b) ==> opt_facts(solution@)[b as int]
                == flow_eq(
                cfg,
                Direction::Forward,
                no_inputs(cfg.num_blocks()),
                rd_kill_facts(cfg),
                rd_gen_facts(cfg),
                opt_facts(solution@),
                b,
            ),
        forall|y: Seq<(Set<usize>, nat)>|
            is_post_fixpoint(
                cfg,
                Direction::Forward,
                no_inputs(cfg.num_blocks()),
                rd_kill_facts(cfg),
                rd_gen_facts(cfg),
                y,
            ) ==> forall|b: usize|
                b < cfg.num_blocks() && #[trigger] cfg.reaches(b) ==> le_fact(
                    opt_facts(solution@)[b as int],
                    y[b as int],
                ),
{
    let kill_set = find_kill_set(cfg);
    let gen_set = find_gen_set(cfg);
    let entry_inputs: HashMap<usize, fixedbitset::FixedBitSet> = HashMap::new();
    proof {
        assert(facts(kill_set@) =~= rd_kill_facts(cfg));
        assert(facts(gen_set@) =~= rd_gen_facts(cfg));
        assert(crate::analysis::sequential::entry_facts(entry_inputs@, cfg.num_blocks()) =~= no_inputs(cfg.num_blocks()));
    }
    solve_dataflow(cfg, Direction::Forward, &entry_inputs, &kill_set, &gen_set)
}

} // verus!
