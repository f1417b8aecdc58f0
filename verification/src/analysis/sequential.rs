use vstd::prelude::*;

use std::collections::{HashMap, VecDeque};

use crate::analysis::{construct_postorder, Direction};
use crate::bitsets::{in_range_set, max_nat, FlowSet};
use crate::builder::BasicBlockIdx;
use crate::cfg::{block_indices, lemma_pred_list_contains, pred_list, reachable, Cfg};

verus! {

broadcast use {vstd::std_specs::hash::group_hash_axioms, vstd::std_specs::vec::axiom_spec_len};

/// The elements and width of a set.
pub open spec fn fact_of<S: FlowSet>(s: S) -> (Set<S::Elem>, nat) {
    (s.elems(), s.width())
}

/// The fact a block holds; a block without one holds the empty fact.
pub open spec fn opt_fact<S: FlowSet>(o: Option<S>) -> (Set<S::Elem>, nat) {
    match o {
        Some(s) => fact_of(s),
        None => (Set::empty(), 0nat),
    }
}

pub open spec fn facts<S: FlowSet>(v: Seq<S>) -> Seq<(Set<S::Elem>, nat)> {
    v.map_values(|s: S| fact_of(s))
}

pub open spec fn opt_facts<S: FlowSet>(v: Seq<Option<S>>) -> Seq<(Set<S::Elem>, nat)> {
    v.map_values(|o: Option<S>| opt_fact(o))
}

/// The input each block starts from: the given one, or the empty fact.
pub open spec fn entry_facts<S: FlowSet>(m: Map<usize, S>, n: nat) -> Seq<(Set<S::Elem>, nat)> {
    Seq::new(
        n,
        |b: int|
            if m.contains_key(b as usize) {
                fact_of(m[b as usize])
            } else {
                (Set::empty(), 0nat)
            },
    )
}

/// Merge of two facts.
pub open spec fn join_fact<E>(a: (Set<E>, nat), b: (Set<E>, nat)) -> (Set<E>, nat) {
    (a.0.union(b.0), max_nat(a.1, b.1))
}

/// Order of facts.
pub open spec fn le_fact<E>(a: (Set<E>, nat), b: (Set<E>, nat)) -> bool {
    a.0.subset_of(b.0) && a.1 <= b.1
}

/// `init` merged with the facts of the blocks `ps`, left to right.
pub open spec fn join_over<E>(x: Seq<(Set<E>, nat)>, ps: Seq<usize>, init: (Set<E>, nat)) -> (
    Set<E>,
    nat,
)
    decreases ps.len(),
{
    if ps.len() == 0 {
        init
    } else {
        join_fact(join_over(x, ps.drop_last(), init), x[ps.last() as int])
    }
}

/// The blocks whose facts flow into block `b`.
pub open spec fn flow_inputs(cfg: &Cfg, dir: Direction, b: usize) -> Seq<usize> {
    match dir {
        Direction::Forward => cfg.radj()[b as int],
        Direction::Backward => cfg.adj()[b as int],
    }
}

/// The gen/kill transfer of a merged fact.
pub open spec fn transfer_fact<E>(m: (Set<E>, nat), kill: (Set<E>, nat), gen: (Set<E>, nat)) -> (
    Set<E>,
    nat,
) {
    (m.0.difference(kill.0).union(gen.0), max_nat(m.1, gen.1))
}

/// The dataflow equation of block `b` evaluated on the facts `x`.
pub open spec fn flow_eq<E>(
    cfg: &Cfg,
    dir: Direction,
    entry: Seq<(Set<E>, nat)>,
    kill: Seq<(Set<E>, nat)>,
    gen: Seq<(Set<E>, nat)>,
    x: Seq<(Set<E>, nat)>,
    b: usize,
) -> (Set<E>, nat) {
    transfer_fact(join_over(x, flow_inputs(cfg, dir, b), entry[b as int]), kill[b as int], gen[b as int])
}

/// `y` satisfies every equation of a reachable block with `⊒`.
pub open spec fn is_post_fixpoint<E>(
    cfg: &Cfg,
    dir: Direction,
    entry: Seq<(Set<E>, nat)>,
    kill: Seq<(Set<E>, nat)>,
    gen: Seq<(Set<E>, nat)>,
    y: Seq<(Set<E>, nat)>,
) -> bool {
    &&& y.len() == cfg.num_blocks()
    &&& forall|b: usize|
        b < cfg.num_blocks() && #[trigger] cfg.reaches(b) ==> le_fact(
            flow_eq(cfg, dir, entry, kill, gen, y, b),
            y[b as int],
        )
}

/// Every predecessor of a reachable block is reachable.
pub open spec fn reachable_closed_backward(cfg: &Cfg) -> bool {
    forall|b: usize, p: usize|
        b < cfg.num_blocks() && p < cfg.num_blocks() && #[trigger] cfg.reaches(b)
            && #[trigger] cfg.adj()[p as int].contains(b) ==> cfg.reaches(p)
}

/// Elements and widths bounded by `u` and `w`.
pub open spec fn fact_within<E>(f: (Set<E>, nat), u: Set<E>, w: nat) -> bool {
    f.0.subset_of(u) && f.1 <= w && f.0.finite()
}

/// Union of the gen and input facts of the blocks below `k`.
pub open spec fn universe<E>(gen: Seq<(Set<E>, nat)>, entry: Seq<(Set<E>, nat)>, k: nat) -> Set<E>
    decreases k,
{
    if k == 0 {
        Set::empty()
    } else {
        universe(gen, entry, (k - 1) as nat).union(gen[k - 1].0).union(entry[k - 1].0)
    }
}

/// Largest width of the gen and input facts of the blocks below `k`.
pub open spec fn width_bound<E>(gen: Seq<(Set<E>, nat)>, entry: Seq<(Set<E>, nat)>, k: nat) -> nat
    decreases k,
{
    if k == 0 {
        0
    } else {
        max_nat(max_nat(width_bound(gen, entry, (k - 1) as nat), gen[k - 1].1), entry[k - 1].1)
    }
}

proof fn lemma_universe<E>(gen: Seq<(Set<E>, nat)>, entry: Seq<(Set<E>, nat)>, k: nat)
    requires
        k <= gen.len(),
        k <= entry.len(),
        forall|b: int| 0 <= b < k ==> (#[trigger] gen[b]).0.finite(),
        forall|b: int| 0 <= b < k ==> (#[trigger] entry[b]).0.finite(),
    ensures
        universe(gen, entry, k).finite(),
        forall|b: int|
            0 <= b < k ==> fact_within(#[trigger] gen[b], universe(gen, entry, k), width_bound(gen, entry, k)),
        forall|b: int|
            0 <= b < k ==> fact_within(#[trigger] entry[b], universe(gen, entry, k), width_bound(gen, entry, k)),
    decreases k,
{
    if k > 0 {
        lemma_universe(gen, entry, (k - 1) as nat);
    }
}

/// Elements of the universe satisfy `ok` when those of every gen and input
/// fact do.
proof fn lemma_universe_ok<E>(gen: Seq<(Set<E>, nat)>, entry: Seq<(Set<E>, nat)>, k: nat, ok: spec_fn(E) -> bool)
    requires
        k <= gen.len(),
        k <= entry.len(),
        forall|b: int, e: E| 0 <= b < k && #[trigger] gen[b].0.contains(e) ==> ok(e),
        forall|b: int, e: E| 0 <= b < k && #[trigger] entry[b].0.contains(e) ==> ok(e),
    ensures
        forall|e: E| #[trigger] universe(gen, entry, k).contains(e) ==> ok(e),
    decreases k,
{
    if k > 0 {
        lemma_universe_ok(gen, entry, (k - 1) as nat, ok);
        assert forall|e: E| #[trigger] universe(gen, entry, k).contains(e) implies ok(e) by {
            if gen[k - 1].0.contains(e) {
            } else if entry[k - 1].0.contains(e) {
            } else {
                assert(universe(gen, entry, (k - 1) as nat).contains(e));
            }
        }
    }
}

/// The elements of the gen and input facts are ones the sets handle, and so
/// are those of their universe.
proof fn lemma_universe_in_range<S: FlowSet>(gen: Seq<S>, entry_inputs: Map<usize, S>, n: nat)
    requires
        gen.len() == n,
        forall|b: int| 0 <= b < n ==> in_range_set::<S>((#[trigger] gen[b]).elems()),
        forall|b: usize| #[trigger] entry_inputs.contains_key(b) ==> in_range_set::<S>(entry_inputs[b].elems()),
    ensures
        forall|e: S::Elem| #[trigger] universe(facts(gen), entry_facts(entry_inputs, n), n).contains(e) ==> S::in_range(e),
{
    let gf = facts(gen);
    let ef = entry_facts(entry_inputs, n);
    let ok = |e: S::Elem| S::in_range(e);
    assert forall|b: int, e: S::Elem| 0 <= b < n && #[trigger] gf[b].0.contains(e) implies ok(e) by {
        assert(gf[b].0 == gen[b].elems());
        assert(in_range_set::<S>(gen[b].elems()));
    }
    assert forall|b: int, e: S::Elem| 0 <= b < n && #[trigger] ef[b].0.contains(e) implies ok(e) by {
        if entry_inputs.contains_key(b as usize) {
            assert(in_range_set::<S>(entry_inputs[b as usize].elems()));
        }
    }
    lemma_universe_ok(gf, ef, n, ok);
    assert forall|e: S::Elem| #[trigger] universe(gf, ef, n).contains(e) implies S::in_range(e) by {
        assert(ok(e));
    }
}

/// A fact within a universe of handled elements has only handled elements.
proof fn lemma_within_in_range<S: FlowSet>(f: (Set<S::Elem>, nat), u: Set<S::Elem>, w: nat)
    requires
        fact_within(f, u, w),
        forall|e: S::Elem| #[trigger] u.contains(e) ==> S::in_range(e),
    ensures
        forall|e: S::Elem| #[trigger] f.0.contains(e) ==> S::in_range(e),
{
    assert forall|e: S::Elem| #[trigger] f.0.contains(e) implies S::in_range(e) by {
        assert(u.contains(e));
    }
}

/// Merging facts of larger blocks, from a larger start, gives a larger fact.
proof fn lemma_join_over_mono<E>(
    x: Seq<(Set<E>, nat)>,
    y: Seq<(Set<E>, nat)>,
    ps: Seq<usize>,
    i1: (Set<E>, nat),
    i2: (Set<E>, nat),
)
    requires
        le_fact(i1, i2),
        forall|k: int| 0 <= k < ps.len() ==> le_fact(x[#[trigger] ps[k] as int], y[ps[k] as int]),
    ensures
        le_fact(join_over(x, ps, i1), join_over(y, ps, i2)),
    decreases ps.len(),
{
    if ps.len() > 0 {
        lemma_join_over_mono(x, y, ps.drop_last(), i1, i2);
        assert(le_fact(x[ps[ps.len() - 1] as int], y[ps[ps.len() - 1] as int]));
    }
}

/// Merging does not read the fact of a block that is not among the inputs.
proof fn lemma_join_over_frame<E>(
    x: Seq<(Set<E>, nat)>,
    ps: Seq<usize>,
    init: (Set<E>, nat),
    b: usize,
    v: (Set<E>, nat),
)
    requires
        !ps.contains(b),
        b < x.len(),
        forall|k: int| 0 <= k < ps.len() ==> #[trigger] ps[k] < x.len(),
    ensures
        join_over(x.update(b as int, v), ps, init) == join_over(x, ps, init),
    decreases ps.len(),
{
    if ps.len() > 0 {
        assert(!ps.drop_last().contains(b)) by {
            if ps.drop_last().contains(b) {
                let j = choose|j: int| 0 <= j < ps.drop_last().len() && ps.drop_last()[j] == b;
                assert(ps[j] == b);
            }
        }
        lemma_join_over_frame(x, ps.drop_last(), init, b, v);
        assert(ps[ps.len() - 1] != b);
    }
}

/// Merging bounded facts gives a bounded fact.
proof fn lemma_join_over_within<E>(
    x: Seq<(Set<E>, nat)>,
    ps: Seq<usize>,
    init: (Set<E>, nat),
    u: Set<E>,
    w: nat,
)
    requires
        fact_within(init, u, w),
        forall|k: int| 0 <= k < ps.len() ==> fact_within(x[#[trigger] ps[k] as int], u, w),
    ensures
        fact_within(join_over(x, ps, init), u, w),
    decreases ps.len(),
{
    if ps.len() > 0 {
        lemma_join_over_within(x, ps.drop_last(), init, u, w);
        assert(fact_within(x[ps[ps.len() - 1] as int], u, w));
    }
}

/// Sum over the blocks below `k` of how far their facts are from the bounds.
spec fn potential<E>(x: Seq<(Set<E>, nat)>, u: Set<E>, w: nat, k: nat) -> int
    decreases k,
{
    if k == 0 {
        0
    } else {
        potential(x, u, w, (k - 1) as nat) + (u.len() - x[k - 1].0.len()) + (w - x[k - 1].1)
    }
}

proof fn lemma_potential_nonneg<E>(x: Seq<(Set<E>, nat)>, u: Set<E>, w: nat, k: nat)
    requires
        u.finite(),
        k <= x.len(),
        forall|b: int| 0 <= b < k ==> fact_within(#[trigger] x[b], u, w),
    ensures
        potential(x, u, w, k) >= 0,
    decreases k,
{
    if k > 0 {
        lemma_potential_nonneg(x, u, w, (k - 1) as nat);
        vstd::set_lib::lemma_len_subset(x[k - 1].0, u);
    }
}

proof fn lemma_potential_update<E>(
    x: Seq<(Set<E>, nat)>,
    u: Set<E>,
    w: nat,
    k: nat,
    b: int,
    v: (Set<E>, nat),
)
    requires
        u.finite(),
        k <= x.len(),
        0 <= b < x.len(),
        fact_within(x[b], u, w),
        fact_within(v, u, w),
        le_fact(x[b], v),
        x[b] != v,
    ensures
        b < k ==> potential(x.update(b, v), u, w, k) < potential(x, u, w, k),
        b >= k ==> potential(x.update(b, v), u, w, k) == potential(x, u, w, k),
    decreases k,
{
    if k > 0 {
        lemma_potential_update(x, u, w, (k - 1) as nat, b, v);
        if b == k - 1 {
            if x[b].0 == v.0 {
                assert(x[b].1 != v.1);
            } else {
                assert(exists|e: E| v.0.contains(e) && !x[b].0.contains(e)) by {
                    if !(exists|e: E| v.0.contains(e) && !x[b].0.contains(e)) {
                        assert(x[b].0 =~= v.0);
                    }
                }
                let d = choose|e: E| v.0.contains(e) && !x[b].0.contains(e);
                vstd::set_lib::lemma_len_subset(v.0, u);
                vstd::set_lib::lemma_len_subset(x[b].0, v.0.remove(d));
            }
        }
    }
}

/// The blocks whose facts depend on block `b`'s fact.
pub open spec fn flow_dependents(cfg: &Cfg, dir: Direction, b: usize) -> Seq<usize> {
    match dir {
        Direction::Forward => cfg.adj()[b as int],
        Direction::Backward => cfg.radj()[b as int],
    }
}

/// `c` depends on `b` exactly when `b` flows into `c`.
proof fn lemma_dependents(cfg: &Cfg, dir: Direction, b: usize, c: usize)
    requires
        cfg.wf(),
        b < cfg.num_blocks(),
        c < cfg.num_blocks(),
    ensures
        flow_dependents(cfg, dir, b).contains(c) <==> flow_inputs(cfg, dir, c).contains(b),
{
    assert(cfg.adj().len() == cfg.num_blocks());
    assert(cfg.edges@.len() == cfg.edges.len());
    assert(cfg.radj()[b as int] == crate::cfg::pred_list(cfg.adj(), b, cfg.num_blocks()));
    assert(cfg.radj()[c as int] == crate::cfg::pred_list(cfg.adj(), c, cfg.num_blocks()));
    lemma_pred_list_contains(cfg.adj(), b, cfg.num_blocks(), c);
    lemma_pred_list_contains(cfg.adj(), c, cfg.num_blocks(), b);
}

/// Inputs of a block are blocks of the graph, and reachable when the block
/// is reachable.
proof fn lemma_inputs_in_range(cfg: &Cfg, dir: Direction, c: usize)
    requires
        cfg.wf(),
        c < cfg.num_blocks(),
        reachable_closed_backward(cfg),
    ensures
        forall|k: int|
            0 <= k < flow_inputs(cfg, dir, c).len() ==> #[trigger] flow_inputs(cfg, dir, c)[k]
                < cfg.num_blocks(),
        cfg.reaches(c) ==> forall|k: int|
            0 <= k < flow_inputs(cfg, dir, c).len() ==> cfg.reaches(
                #[trigger] flow_inputs(cfg, dir, c)[k],
            ),
        forall|k: int|
            0 <= k < flow_dependents(cfg, dir, c).len() ==> #[trigger] flow_dependents(cfg, dir, c)[k]
                < cfg.num_blocks(),
        cfg.reaches(c) ==> forall|k: int|
            0 <= k < flow_dependents(cfg, dir, c).len() ==> cfg.reaches(
                #[trigger] flow_dependents(cfg, dir, c)[k],
            ),
{
    let n = cfg.num_blocks();
    let adj = cfg.adj();
    assert(cfg.edges@.len() == cfg.edges.len());
    assert(cfg.radj()[c as int] == crate::cfg::pred_list(adj, c, n));
    assert forall|k: int| 0 <= k < cfg.radj()[c as int].len() implies #[trigger] cfg.radj()[c as int][k] < n
        && (cfg.reaches(c) ==> cfg.reaches(cfg.radj()[c as int][k])) by {
        let p = cfg.radj()[c as int][k];
        assert(cfg.radj()[c as int].contains(p));
        lemma_pred_list_contains(adj, c, n, p);
    }
    assert forall|k: int| 0 <= k < adj[c as int].len() implies #[trigger] adj[c as int][k] < n && (
    cfg.reaches(c) ==> cfg.reaches(adj[c as int][k])) by {
        if cfg.reaches(c) {
            assert(adj[c as int].contains(adj[c as int][k]));
            crate::analysis::lemma_reach_step(adj, cfg.entry.0, c, adj[c as int][k]);
        }
    }
}

/// The transfer of a block is monotone.
proof fn lemma_flow_eq_mono<E>(
    cfg: &Cfg,
    dir: Direction,
    entry: Seq<(Set<E>, nat)>,
    kill: Seq<(Set<E>, nat)>,
    gen: Seq<(Set<E>, nat)>,
    x: Seq<(Set<E>, nat)>,
    y: Seq<(Set<E>, nat)>,
    c: usize,
)
    requires
        forall|k: int|
            0 <= k < flow_inputs(cfg, dir, c).len() ==> le_fact(
                x[#[trigger] flow_inputs(cfg, dir, c)[k] as int],
                y[flow_inputs(cfg, dir, c)[k] as int],
            ),
    ensures
        le_fact(flow_eq(cfg, dir, entry, kill, gen, x, c), flow_eq(cfg, dir, entry, kill, gen, y, c)),
{
    lemma_join_over_mono(x, y, flow_inputs(cfg, dir, c), entry[c as int], entry[c as int]);
}


/// A fact for each block of `postorder`, all empty.
fn initial_solution<S: FlowSet>(cfg: &Cfg, postorder: &Vec<BasicBlockIdx>) -> (solution: Vec<Option<S>>)
    requires
        forall|i: int| 0 <= i < postorder@.len() ==> #[trigger] postorder@[i].0 < cfg.num_blocks(),
    ensures
        solution@.len() == cfg.num_blocks(),
        forall|b: usize|
            b < cfg.num_blocks() ==> ((#[trigger] solution@[b as int]) is Some <==> block_indices(
                postorder@,
            ).contains(b)),
        forall|b: int|
            0 <= b < cfg.num_blocks() && (#[trigger] solution@[b]) is Some ==> opt_fact(solution@[b]) == (
            Set::<S::Elem>::empty(),
            0nat,
        ),
{
    let ghost n = cfg.num_blocks();
    let mut solution: Vec<Option<S>> = Vec::new();
    let mut i: usize = 0;
    while i < cfg.vertices.len()
        invariant
            n == cfg.num_blocks(),
            i <= n,
            solution@.len() == i,
            forall|b: int| 0 <= b < i ==> solution@[b] is None,
        decreases cfg.vertices.len() - i,
    {
        solution.push(None);
        i = i + 1;
    }
    let mut j: usize = 0;
    while j < postorder.len()
        invariant
            j <= postorder@.len(),
            solution@.len() == n,
            forall|i: int| 0 <= i < postorder@.len() ==> #[trigger] postorder@[i].0 < n,
            forall|b: usize|
                b < n ==> ((#[trigger] solution@[b as int]) is Some <==> block_indices(
                    postorder@,
                ).subrange(0, j as int).contains(b)),
            forall|b: int| 0 <= b < n && (#[trigger] solution@[b]) is Some ==> opt_fact(solution@[b]) == (Set::<S::Elem>::empty(), 0nat),
        decreases postorder.len() - j,
    {
        let ghost before = solution@;
        solution.set(postorder[j].0, Some(S::empty()));
        proof {
            let t = block_indices(postorder@);
            assert(t[j as int] == postorder@[j as int].0);
            assert forall|b: usize| b < n implies ((#[trigger] solution@[b as int]) is Some <==> t.subrange(0, j + 1).contains(b)) by {
                let s0 = t.subrange(0, j as int);
                let s1 = t.subrange(0, j + 1);
                if s1.contains(b) && b != postorder@[j as int].0 {
                    let k = choose|k: int| 0 <= k < s1.len() && s1[k] == b;
                    assert(s0[k] == b);
                }
                if before[b as int] is Some {
                    let k = choose|k: int| 0 <= k < s0.len() && s0[k] == b;
                    assert(s1[k] == b);
                }
                if b == postorder@[j as int].0 {
                    assert(s1[j as int] == b);
                }
            }
        }
        j = j + 1;
    }
    proof {
        assert(block_indices(postorder@).subrange(0, postorder@.len() as int) =~= block_indices(postorder@));
    }
    solution
}

/// The blocks of `postorder` in the order in which they are first
/// processed: reversed postorder going forward, postorder going backward.
fn initial_worklist(cfg: &Cfg, direction: Direction, postorder: &Vec<BasicBlockIdx>) -> (blocks: VecDeque<BasicBlockIdx>)
    ensures
        blocks@.len() == postorder@.len(),
        forall|m: int|
            0 <= m < blocks@.len() ==> #[trigger] blocks@[m] == match direction {
                Direction::Forward => postorder@[postorder@.len() - 1 - m],
                Direction::Backward => postorder@[m],
            },
{
    let mut blocks: VecDeque<BasicBlockIdx> = VecDeque::new();
    match direction {
        Direction::Forward => {
            let mut k: usize = postorder.len();
            while k > 0
                invariant
                    k <= postorder@.len(),
                    blocks@.len() == postorder@.len() - k,
                    forall|m: int| 0 <= m < blocks@.len() ==> #[trigger] blocks@[m] == postorder@[postorder@.len() - 1 - m],
                decreases k,
            {
                k = k - 1;
                blocks.push_back(postorder[k]);
            }
        },
        Direction::Backward => {
            let mut k: usize = 0;
            while k < postorder.len()
                invariant
                    k <= postorder@.len(),
                    blocks@.len() == k,
                    forall|m: int| 0 <= m < blocks@.len() ==> #[trigger] blocks@[m] == postorder@[m],
                decreases postorder.len() - k,
            {
                blocks.push_back(postorder[k]);
                k = k + 1;
            }
        },
    }
    blocks
}

/// Solves the gen/kill dataflow problem given by `kill` and `gen` over the
/// blocks reachable from the entry: facts are merged by union and a block
/// maps its merged input `m` to `(m - kill) + gen`. Facts flow along edges
/// (`Forward`) or against them (`Backward`); `entry_inputs` gives a block
/// an input of its own. Blocks are processed from a worklist initialised
/// from a depth-first postorder (reversed when going forward).
///
/// The result has a fact for exactly the reachable blocks, and these facts
/// are the least solution of the dataflow equations.
#[verifier::loop_isolation(false)]
#[verifier::rlimit(100)]
#[verifier::spinoff_prover]
pub fn solve_dataflow<S: FlowSet>(
    cfg: &Cfg,
    direction: Direction,
    entry_inputs: &HashMap<usize, S>,
    kill: &Vec<S>,
    gen: &Vec<S>,
) -> (solution: Vec<Option<S>>)
    requires
        cfg.wf(),
        cfg.num_blocks() > 0,
        kill@.len() == cfg.num_blocks(),
        gen@.len() == cfg.num_blocks(),
        forall|b: int| 0 <= b < cfg.num_blocks() ==> (#[trigger] kill@[b]).elems().finite(),
        forall|b: int| 0 <= b < cfg.num_blocks() ==> (#[trigger] gen@[b]).elems().finite(),
        forall|b: usize| #[trigger] entry_inputs@.contains_key(b) ==> entry_inputs@[b].elems().finite(),
        forall|b: int| 0 <= b < cfg.num_blocks() ==> in_range_set::<S>((#[trigger] kill@[b]).elems()),
        forall|b: int| 0 <= b < cfg.num_blocks() ==> in_range_set::<S>((#[trigger] gen@[b]).elems()),
        forall|b: usize| #[trigger] entry_inputs@.contains_key(b) ==> in_range_set::<S>(entry_inputs@[b].elems()),
        reachable_closed_backward(cfg),
    ensures
        solution@.len() == cfg.num_blocks(),
        forall|b: usize| b < cfg.num_blocks() ==> ((#[trigger] solution@[b as int]) is Some <==> cfg.reaches(b)),
        forall|b: usize|
            b < cfg.num_blocks() && #[trigger] cfg.reaches(b) ==> opt_facts(solution@)[b as int]
                == flow_eq(
                cfg,
                direction,
                entry_facts(entry_inputs@, cfg.num_blocks()),
                facts(kill@),
                facts(gen@),
                opt_facts(solution@),
                b,
            ),
        forall|y: Seq<(Set<S::Elem>, nat)>|
            is_post_fixpoint(
                cfg,
                direction,
                entry_facts(entry_inputs@, cfg.num_blocks()),
                facts(kill@),
                facts(gen@),
                y,
            ) ==> forall|b: usize|
                b < cfg.num_blocks() && #[trigger] cfg.reaches(b) ==> le_fact(
                    opt_facts(solution@)[b as int],
                    y[b as int],
                ),
{
    let ghost n = cfg.num_blocks();
    let ghost ef = entry_facts(entry_inputs@, n);
    let ghost kf = facts(kill@);
    let ghost gf = facts(gen@);
    let ghost u = universe(gf, ef, n);
    let ghost w = width_bound(gf, ef, n);
    proof {
        lemma_universe(gf, ef, n);
        lemma_universe_in_range(gen@, entry_inputs@, n);
    }
    let postorder = construct_postorder(cfg);
    let mut solution: Vec<Option<S>> = initial_solution(cfg, &postorder);
    let mut blocks = initial_worklist(cfg, direction, &postorder);
    proof {
        assert forall|b: int| 0 <= b < n implies fact_within(#[trigger] opt_facts(solution@)[b], u, w) by {}
        let t = block_indices(postorder@);
        let bl = block_indices(blocks@);
        assert forall|m: int| 0 <= m < blocks@.len() implies (#[trigger] blocks@[m]).0 < n && cfg.reaches(blocks@[m].0) by {
            let i = if direction == Direction::Forward { postorder@.len() - 1 - m } else { m };
            assert(blocks@[m] == postorder@[i]);
            assert(t[i] == postorder@[i].0);
            assert(t.contains(postorder@[i].0));
        }
        assert forall|b: usize| b < n && #[trigger] cfg.reaches(b) implies bl.contains(b) by {
            assert(t.contains(b));
            let i = choose|i: int| 0 <= i < t.len() && t[i] == b;
            let m = if direction == Direction::Forward { postorder@.len() - 1 - i } else { i };
            assert(blocks@[m] == postorder@[i]);
            assert(bl[m] == b);
        }
    }
    loop
        invariant
            solution@.len() == n,
            forall|b: usize| b < n ==> ((#[trigger] solution@[b as int]) is Some <==> cfg.reaches(b)),
            forall|b: int| 0 <= b < n ==> fact_within(#[trigger] opt_facts(solution@)[b], u, w),
            forall|b: usize|
                b < n && #[trigger] cfg.reaches(b) ==> le_fact(
                    opt_facts(solution@)[b as int],
                    flow_eq(cfg, direction, ef, kf, gf, opt_facts(solution@), b),
                ),
            forall|y: Seq<(Set<S::Elem>, nat)>|
                is_post_fixpoint(cfg, direction, ef, kf, gf, y) ==> forall|b: usize|
                    b < n && #[trigger] cfg.reaches(b) ==> le_fact(
                        opt_facts(solution@)[b as int],
                        y[b as int],
                    ),
            forall|m: int| 0 <= m < blocks@.len() ==> (#[trigger] blocks@[m]).0 < n && cfg.reaches(blocks@[m].0),
            forall|b: usize|
                b < n && #[trigger] cfg.reaches(b) ==> (block_indices(blocks@).contains(b) || le_fact(
                    flow_eq(cfg, direction, ef, kf, gf, opt_facts(solution@), b),
                    opt_facts(solution@)[b as int],
                )),
        decreases potential(opt_facts(solution@), u, w, n), blocks@.len(),
    {
        let ghost x = opt_facts(solution@);
        let ghost old_blocks = blocks@;
        let next = blocks.pop_front();
        let current = match next {
            None => {
                break;
            },
            Some(current) => current,
        };
        let b = current.0;
        proof {
            assert(old_blocks[0] == current);
            lemma_inputs_in_range(cfg, direction, b);
            lemma_potential_nonneg(x, u, w, n);
        }
        let mut initial_in = match entry_inputs.get(&b) {
            Some(s) => s.duplicate(),
            None => S::empty(),
        };
        let inputs = match direction {
            Direction::Forward => cfg.predecessors(current),
            Direction::Backward => cfg.successors(current),
        };
        proof {
            assert(block_indices(inputs@) =~= flow_inputs(cfg, direction, b));
        }
        let mut k: usize = 0;
        while k < inputs.len()
            invariant
                k <= inputs@.len(),
                solution@.len() == n,
                opt_facts(solution@) == x,
                fact_of(initial_in) == join_over(x, block_indices(inputs@).subrange(0, k as int), ef[b as int]),
            decreases inputs.len() - k,
        {
            let p = inputs[k];
            proof {
                assert(block_indices(inputs@)[k as int] == p.0);
                assert(p.0 < n && cfg.reaches(p.0));
                assert(block_indices(inputs@).subrange(0, k + 1).drop_last() =~= block_indices(inputs@).subrange(0, k as int));
            }
            proof {
                lemma_join_over_within(x, block_indices(inputs@).subrange(0, k as int), ef[b as int], u, w);
                lemma_within_in_range::<S>(fact_of(initial_in), u, w);
                if solution@[p.0 as int] is Some {
                    let sp = solution@[p.0 as int]->0;
                    assert(opt_facts(solution@)[p.0 as int] == fact_of(sp));
                    lemma_within_in_range::<S>(fact_of(sp), u, w);
                }
            }
            match &solution[p.0] {
                Some(sp) => {
                    initial_in = initial_in.merge(sp);
                },
                None => {},
            }
            k = k + 1;
        }
        proof {
            assert(block_indices(inputs@).subrange(0, inputs@.len() as int) =~= block_indices(inputs@));
        }
        proof {
            lemma_join_over_within(x, flow_inputs(cfg, direction, b), ef[b as int], u, w);
            lemma_within_in_range::<S>(fact_of(initial_in), u, w);
            assert(in_range_set::<S>(kill@[b as int].elems()));
            assert(in_range_set::<S>(gen@[b as int].elems()));
        }
        let new_out = initial_in.transfer(&kill[b], &gen[b]);
        let ghost nv = fact_of(new_out);
        proof {
            assert(nv == flow_eq(cfg, direction, ef, kf, gf, x, b));
            lemma_join_over_within(x, flow_inputs(cfg, direction, b), ef[b as int], u, w);
            assert(fact_within(gf[b as int], u, w));
            assert(fact_within(nv, u, w));
        }
        proof {
            lemma_within_in_range::<S>(fact_of(new_out), u, w);
            if solution@[b as int] is Some {
                let so = solution@[b as int]->0;
                assert(opt_facts(solution@)[b as int] == fact_of(so));
                assert(fact_within(x[b as int], u, w));
                lemma_within_in_range::<S>(fact_of(so), u, w);
            }
        }
        let unchanged = match &solution[b] {
            Some(old_out) => new_out.same_as(old_out),
            None => true,
        };
        if unchanged {
            proof {
                assert forall|c: usize|
                    c < n && #[trigger] cfg.reaches(c) implies (block_indices(blocks@).contains(c) || le_fact(
                        flow_eq(cfg, direction, ef, kf, gf, x, c),
                        x[c as int],
                    )) by {
                    if c != b && block_indices(old_blocks).contains(c) {
                        let ob = block_indices(old_blocks);
                        let m = choose|m: int| 0 <= m < ob.len() && ob[m] == c;
                        assert(m != 0);
                        assert(block_indices(blocks@)[m - 1] == c);
                    }
                }
            }
            continue;
        }
        solution.set(b, Some(new_out));
        let ghost x2 = opt_facts(solution@);
        proof {
            assert(x2 =~= x.update(b as int, nv));
            assert(le_fact(x[b as int], nv));
            assert(x[b as int] != nv);
            lemma_potential_update(x, u, w, n, b as int, nv);
            assert forall|m: int| 0 <= m < n implies le_fact(x[m], #[trigger] x2[m]) by {}
        }
        let dependents = match direction {
            Direction::Forward => cfg.successors(current),
            Direction::Backward => cfg.predecessors(current),
        };
        proof {
            assert(block_indices(dependents@) =~= flow_dependents(cfg, direction, b));
        }
        let ghost mid_blocks = blocks@;
        let mut d: usize = 0;
        while d < dependents.len()
            invariant
                d <= dependents@.len(),
                solution@.len() == n,
                blocks@.len() == mid_blocks.len() + d,
                blocks@.subrange(0, mid_blocks.len() as int) == mid_blocks,
                forall|m: int| 0 <= m < d ==> blocks@[mid_blocks.len() + m] == dependents@[m],
                forall|m: int| 0 <= m < blocks@.len() ==> (#[trigger] blocks@[m]).0 < n && cfg.reaches(blocks@[m].0),
            decreases dependents.len() - d,
        {
            proof {
                assert(block_indices(dependents@)[d as int] == dependents@[d as int].0);
            }
            blocks.push_back(dependents[d]);
            d = d + 1;
        }
        proof {
            lemma_potential_nonneg(x2, u, w, n);
            assert forall|c: usize|
                c < n && #[trigger] cfg.reaches(c) implies le_fact(
                    x2[c as int],
                    flow_eq(cfg, direction, ef, kf, gf, x2, c),
                ) by {
                lemma_inputs_in_range(cfg, direction, c);
                lemma_flow_eq_mono(cfg, direction, ef, kf, gf, x, x2, c);
            }
            assert forall|y: Seq<(Set<S::Elem>, nat)>|
                is_post_fixpoint(cfg, direction, ef, kf, gf, y) implies forall|c: usize|
                    c < n && #[trigger] cfg.reaches(c) ==> le_fact(x2[c as int], y[c as int]) by {
                assert(cfg.reaches(b));
                lemma_flow_eq_mono(cfg, direction, ef, kf, gf, x, y, b);
            }
            assert forall|c: usize|
                c < n && #[trigger] cfg.reaches(c) implies (block_indices(blocks@).contains(c) || le_fact(
                    flow_eq(cfg, direction, ef, kf, gf, x2, c),
                    x2[c as int],
                )) by {
                lemma_dependents(cfg, direction, b, c);
                lemma_inputs_in_range(cfg, direction, c);
                let bl = block_indices(blocks@);
                if flow_dependents(cfg, direction, b).contains(c) {
                    let db = block_indices(dependents@);
                    let m = choose|m: int| 0 <= m < db.len() && db[m] == c;
                    assert(bl[mid_blocks.len() + m] == c);
                } else if c != b && block_indices(old_blocks).contains(c) {
                    let ob = block_indices(old_blocks);
                    let m = choose|m: int| 0 <= m < ob.len() && ob[m] == c;
                    assert(m != 0);
                    assert(mid_blocks[m - 1] == old_blocks[m]);
                    assert(blocks@.subrange(0, mid_blocks.len() as int)[m - 1] == mid_blocks[m - 1]);
                    assert(bl[m - 1] == c);
                } else {
                    lemma_join_over_frame(x, flow_inputs(cfg, direction, c), ef[c as int], b, nv);
                }
            }
        }
    }
    proof {
        assert forall|b: usize|
            b < n && #[trigger] cfg.reaches(b) implies opt_facts(solution@)[b as int] == flow_eq(
                cfg,
                direction,
                ef,
                kf,
                gf,
                opt_facts(solution@),
                b,
            ) by {
            let l = opt_facts(solution@)[b as int];
            let r = flow_eq(cfg, direction, ef, kf, gf, opt_facts(solution@), b);
            assert(l.0 =~= r.0);
        }
    }
    solution
}

} // verus!

verus! {

/// Whether every block that can jump to a block reachable from the entry is
/// itself reachable, as the solver needs.
pub fn closed_backward(cfg: &Cfg) -> (r: bool)
    requires
        cfg.wf(),
        cfg.num_blocks() > 0,
    ensures
        r == reachable_closed_backward(cfg),
{
    let n = cfg.vertices.len();
    let order = crate::analysis::construct_postorder(cfg);
    let mut reach: Vec<bool> = Vec::new();
    let mut i: usize = 0;
    while i < n
        invariant
            i <= n,
            n == cfg.num_blocks(),
            reach@.len() == i,
            forall|k: int| 0 <= k < i ==> !reach@[k],
        decreases n - i,
    {
        reach.push(false);
        i = i + 1;
    }
    let mut j: usize = 0;
    while j < order.len()
        invariant
            n == cfg.num_blocks(),
            reach@.len() == n,
            j <= order@.len(),
            forall|k: int| 0 <= k < order@.len() ==> #[trigger] order@[k].0 < n,
            forall|v: int| 0 <= v < n ==> (#[trigger] reach@[v] <==> block_indices(order@.take(j as int)).contains(v as usize)),
        decreases order.len() - j,
    {
        let b = order[j];
        reach.set(b.0, true);
        proof {
            let t1 = block_indices(order@.take(j + 1));
            let t0 = block_indices(order@.take(j as int));
            assert(t1 =~= t0.push(b.0));
            assert forall|v: int| 0 <= v < n implies (#[trigger] reach@[v] <==> t1.contains(v as usize)) by {
                if t1.contains(v as usize) && v != b.0 {
                    let x = choose|x: int| 0 <= x < t1.len() && t1[x] == v as usize;
                    assert(x < t0.len());
                    assert(t0[x] == v as usize);
                }
                if v == b.0 {
                    assert(t1[j as int] == b.0);
                } else if t0.contains(v as usize) {
                    let x = choose|x: int| 0 <= x < t0.len() && t0[x] == v as usize;
                    assert(t1[x] == v as usize);
                }
            }
        }
        j = j + 1;
    }
    proof {
        assert(order@.take(order@.len() as int) =~= order@);
        assert forall|v: int| 0 <= v < n implies (#[trigger] reach@[v] <==> cfg.reaches(v as usize)) by {
            assert(block_indices(order@).contains(v as usize) <==> cfg.reaches(v as usize));
        }
    }
    let mut b: usize = 0;
    while b < n
        invariant
            cfg.wf(),
            n == cfg.num_blocks(),
            reach@.len() == n,
            forall|v: int| 0 <= v < n ==> (#[trigger] reach@[v] <==> cfg.reaches(v as usize)),
            b <= n,
            forall|x: usize, p: usize|
                x < b && p < n && #[trigger] cfg.reaches(x) && #[trigger] cfg.adj()[p as int].contains(x) ==> cfg.reaches(p),
        decreases n - b,
    {
        if reach[b] {
            let preds = cfg.predecessors(BasicBlockIdx(b));
            let mut k: usize = 0;
            while k < preds.len()
                invariant
                    cfg.wf(),
                    n == cfg.num_blocks(),
                    b < n,
                    reach@.len() == n,
                    forall|v: int| 0 <= v < n ==> (#[trigger] reach@[v] <==> cfg.reaches(v as usize)),
                    preds@ == cfg.rev_edges@[b as int]@,
                    reach@[b as int],
                    k <= preds@.len(),
                    forall|q: int| 0 <= q < k ==> cfg.reaches((#[trigger] preds@[q]).0),
                decreases preds.len() - k,
            {
                let p = preds[k];
                proof {
                    assert(cfg.radj()[b as int] == block_indices(cfg.rev_edges@[b as int]@));
                    assert(block_indices(preds@)[k as int] == p.0);
                    assert(pred_list(cfg.adj(), b, n as nat).contains(p.0));
                    lemma_pred_list_contains(cfg.adj(), b, n as nat, p.0);
                }
                if !reach[p.0] {
                    proof {
                        assert(reach@[b as int]);
                        assert(cfg.reaches(b));
                        assert(cfg.adj()[p.0 as int].contains(b));
                    }
                    return false;
                }
                k = k + 1;
            }
            proof {
                assert forall|p: usize| p < n && #[trigger] cfg.adj()[p as int].contains(b) implies cfg.reaches(p) by {
                    lemma_pred_list_contains(cfg.adj(), b, n as nat, p);
                    let l = block_indices(preds@);
                    assert(cfg.radj()[b as int] == l);
                    let q = choose|q: int| 0 <= q < l.len() && l[q] == p;
                    assert(preds@[q].0 == p);
                }
            }
        }
        b = b + 1;
    }
    true
}

} // verus!
