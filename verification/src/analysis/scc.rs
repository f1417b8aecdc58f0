//! Strongly connected components of a control flow graph, found by Tarjan's
//! algorithm, and the graph of components.
use vstd::prelude::*;

use crate::analysis::{
    count_unvisited, lemma_closed_holds_reachable, lemma_count_unvisited_none, lemma_count_unvisited_mono, lemma_count_unvisited_strict, lemma_reach_edge,
    lemma_reach_refl, lemma_reach_step, lemma_reach_trans,
};
use crate::analysis::counting::{
    count_inside, edges_into, inner_edges, lemma_count_inside_none, lemma_occurrences_none, lemma_sum_membership, lemma_sum_occurrences,
    lemma_count_inside_pos, lemma_occurrences_nonneg, lemma_occurrences_pos, lemma_sum_le, lemma_sum_pos, lemma_sum_single, lemma_sum_sub, lemma_sum_swap, occurrences,
    lemma_sum_ints_nonneg, lemma_sum_ints_nonneg_le, lemma_sum_ints_update, lemma_sum_ints_zero, lemma_sum_new_push, sum_ints,
};
use crate::builder::BasicBlockIdx;
use crate::cfg::{block_indices, exit_targets, is_path, pred_list, reachable, Cfg};

verus! {

/// Index of a component.
#[derive(Debug, PartialEq, Eq, Clone, Copy, Structural)]
pub struct ComponentIdx(pub usize);

/// A set of blocks of a graph, with the block through which it was first
/// entered.
pub struct Component {
    pub vertices: Vec<BasicBlockIdx>,
    pub entry: BasicBlockIdx,
    /// count of back edges within the component
    pub num_back_edges: usize,
}

impl Component {
    /// The block is one of the component's.
    pub fn contains(&self, query: BasicBlockIdx) -> (r: bool)
        ensures
            r == self.vertices@.contains(query),
    {
        let mut i: usize = 0;
        while i < self.vertices.len()
            invariant
                i <= self.vertices@.len(),
                forall|k: int| 0 <= k < i ==> self.vertices@[k] != query,
            decreases self.vertices.len() - i,
        {
            if self.vertices[i] == query {
                return true;
            }
            i = i + 1;
        }
        false
    }
}


/// The state of Tarjan's search.
pub struct TarjanState {
    pub val: usize,
    pub lowest: Vec<usize>,
    pub preorder: Vec<Option<usize>>,
    /// For each block, the back edges into it: the edges handled while it
    /// was on the path of the search, so from itself or a block below it in
    /// the search tree.
    pub back_edges_cnt: Vec<usize>,
    /// Whether each block is on the path of the search: visited, and its
    /// search not finished yet.
    pub on_path: Vec<bool>,
    /// For each block, the edges into it handled while it was on the stack,
    /// the one through which it was first reached aside.
    pub seen_cnt: Ghost<Seq<usize>>,
    pub stack: Vec<BasicBlockIdx>,
    pub in_stack: Vec<bool>,
    pub components: Vec<Component>,
    pub block2comp: Vec<Option<usize>>,
    /// How many successors of each block the search has handled.
    pub prog: Ghost<Seq<int>>,
    /// The edge, as a block and a position among its successors, through
    /// which each block was first reached.
    pub parent: Ghost<Seq<Option<(usize, int)>>>,
}

impl TarjanState {
    /// The successors of block `u` that the search has handled.
    pub open spec fn handled(&self, adj: Seq<Seq<usize>>, u: int) -> Seq<usize> {
        adj[u].take(self.prog@[u])
    }

    /// How many handled edges lead from blocks on the stack to `t`.
    pub open spec fn hits(&self, adj: Seq<Seq<usize>>, t: usize) -> int {
        sum_ints(
            Seq::new(
                self.in_stack@.len(),
                |u: int|
                    if self.in_stack@[u] {
                        occurrences(self.handled(adj, u), t)
                    } else {
                        0
                    },
            ),
        )
    }

    /// One if the edge through which `t` was first reached leaves a block
    /// on the stack and has been handled, else zero.
    pub open spec fn tree_done(&self, t: int) -> int {
        match self.parent@[t] {
            Some(e) => if self.in_stack@[e.0 as int] && e.1 < self.prog@[e.0 as int] {
                1
            } else {
                0
            },
            None => 0,
        }
    }

    /// The back edge counts agree with the edges handled: each block on the
    /// stack has counted every handled edge into it from the stack but the
    /// one through which it was first reached, and each component found
    /// counts the edges inside it less one per block but its entry.
    #[verifier::opaque]
    pub open spec fn tally(&self, adj: Seq<Seq<usize>>, n: nat) -> bool {
        &&& self.prog@.len() == n
        &&& self.parent@.len() == n
        &&& forall|u: int| 0 <= u < n ==> 0 <= #[trigger] self.prog@[u] <= adj[u].len()
        &&& forall|u: int| 0 <= u < n && !((#[trigger] self.preorder@[u]) is Some) ==> self.prog@[u] == 0
        &&& forall|u: int, k: int|
            0 <= u < n && self.preorder@[u] is Some && 0 <= k < self.prog@[u] ==> self.preorder@[#[trigger] adj[u][k] as int] is Some
        &&& forall|t: int|
            0 <= t < n && (#[trigger] self.preorder@[t]) is Some && self.parent@[t] is Some ==> {
                let e = self.parent@[t]->0;
                e.0 < n && self.preorder@[e.0 as int] is Some
            }
        &&& forall|t: int|
            0 <= t < n && #[trigger] self.in_stack@[t] ==> self.seen_cnt@[t] + self.tree_done(t) == self.hits(adj, t as usize)
        &&& forall|t: int|
            0 <= t < n && #[trigger] self.in_stack@[t] && self.parent@[t] is Some ==> {
                let e = self.parent@[t]->0;
                &&& e.0 < n
                &&& self.in_stack@[e.0 as int]
                &&& 0 <= e.1 <= self.prog@[e.0 as int]
                &&& e.1 < adj[e.0 as int].len()
                &&& adj[e.0 as int][e.1] == t
                &&& self.preorder@[e.0 as int]->0 < self.preorder@[t]->0
            }
        &&& forall|c: int|
            0 <= c < self.components@.len() ==> edges_into(adj, (#[trigger] self.components@[c]).vertices@, self.components@[c].entry.0)
                <= self.components@[c].num_back_edges && self.components@[c].num_back_edges <= inner_edges(
                adj,
                self.components@[c].vertices@,
            ) - self.components@[c].vertices@.len() + 1
    }

    /// Which blocks have been visited.
    pub open spec fn visited(&self) -> Seq<bool> {
        Seq::new(self.preorder@.len(), |b: int| self.preorder@[b] is Some)
    }

    /// The edges seen into blocks still on the stack.
    pub open spec fn pending(&self) -> Seq<int> {
        Seq::new(
            self.in_stack@.len(),
            |b: int|
                if self.in_stack@[b] {
                    self.seen_cnt@[b] as int
                } else {
                    0
                },
        )
    }

    /// The back edge counts agree with the edges seen: no block counts more
    /// back edges than edges seen into it, and a block on the path of the
    /// search is visited and has counted every edge seen into it.
    #[verifier::opaque]
    pub open spec fn path_counts(&self, n: nat) -> bool {
        &&& forall|b: int| 0 <= b < n ==> #[trigger] self.back_edges_cnt@[b] <= self.seen_cnt@[b]
        &&& forall|b: int|
            0 <= b < n && #[trigger] self.on_path@[b] ==> self.preorder@[b] is Some && self.back_edges_cnt@[b] == self.seen_cnt@[b]
    }

    /// The back edges counted for blocks still on the stack.
    pub open spec fn back_pending(&self) -> Seq<int> {
        Seq::new(
            self.in_stack@.len(),
            |b: int|
                if self.in_stack@[b] {
                    self.back_edges_cnt@[b] as int
                } else {
                    0
                },
        )
    }

    /// The back edges counted for the components found.
    pub open spec fn found_back_edges(&self) -> int {
        sum_ints(Seq::new(self.components@.len(), |c: int| self.components@[c].num_back_edges as int))
    }

    /// All back edges counted.
    pub open spec fn counted(&self) -> int {
        sum_ints(self.pending()) + self.found_back_edges()
    }

    /// The tables cover `n` blocks and agree: the stack holds distinct
    /// visited blocks, exactly those marked on it; every visited block is on
    /// the stack or in one component, and each component lists its blocks.
    pub open spec fn inv(&self, n: nat) -> bool {
        &&& self.lowest@.len() == n
        &&& self.preorder@.len() == n
        &&& self.seen_cnt@.len() == n
        &&& self.back_edges_cnt@.len() == n
        &&& self.on_path@.len() == n
        &&& self.in_stack@.len() == n
        &&& self.block2comp@.len() == n
        &&& count_unvisited(self.visited()) + self.val == n
        &&& forall|b: int| 0 <= b < n && (#[trigger] self.preorder@[b]) is Some ==> self.preorder@[b]->0 < self.val
        &&& forall|b: int| 0 <= b < n && !(#[trigger] self.preorder@[b] is Some) ==> self.seen_cnt@[b] == 0
        &&& forall|i: int| 0 <= i < self.stack@.len() ==> (#[trigger] self.stack@[i]).0 < n
        &&& forall|i: int, j: int| 0 <= i < j < self.stack@.len() ==> (#[trigger] self.stack@[i]) != (#[trigger] self.stack@[j])
        &&& forall|b: int| 0 <= b < n ==> (#[trigger] self.in_stack@[b] <==> self.stack@.contains(BasicBlockIdx(b as usize)))
        &&& forall|b: int| 0 <= b < n && #[trigger] self.in_stack@[b] ==> self.preorder@[b] is Some
        &&& forall|b: int|
            0 <= b < n && (#[trigger] self.block2comp@[b]) is Some ==> {
                &&& self.preorder@[b] is Some
                &&& !self.in_stack@[b]
                &&& self.block2comp@[b]->0 < self.components@.len()
                &&& self.components@[self.block2comp@[b]->0 as int].vertices@.contains(BasicBlockIdx(b as usize))
            }
        &&& forall|b: int|
            0 <= b < n && (#[trigger] self.preorder@[b]) is Some ==> self.in_stack@[b] || self.block2comp@[b] is Some
        &&& forall|c: int, k: int|
            0 <= c < self.components@.len() && 0 <= k < self.components@[c].vertices@.len() ==> {
                let v = #[trigger] self.components@[c].vertices@[k];
                &&& v.0 < n
                &&& self.block2comp@[v.0 as int] == Some(c as usize)
            }
        &&& forall|c: int| 0 <= c < self.components@.len() ==> (#[trigger] self.components@[c]).vertices@.contains(self.components@[c].entry)
        &&& forall|c: int, i: int, j: int|
            0 <= c < self.components@.len() && 0 <= i < j < self.components@[c].vertices@.len() ==> (#[trigger] self.components@[c].vertices@[i])
                != (#[trigger] self.components@[c].vertices@[j])
        &&& self.counted() <= 2 * self.val
        &&& self.components@.len() + self.stack@.len() <= self.val
    }
}

} // verus!

verus! {

/// Every block on the stack reaches every block above it.
pub open spec fn stack_reaches_up(adj: Seq<Seq<usize>>, s: Seq<BasicBlockIdx>) -> bool {
    forall|i: int, j: int| 0 <= i <= j < s.len() ==> reachable(adj, #[trigger] s[i].0, #[trigger] s[j].0)
}

/// Each component found is strongly connected through its entry, and an
/// edge from a block of a component leads into it or into a component
/// found before it.
pub open spec fn components_sound(adj: Seq<Seq<usize>>, st: TarjanState) -> bool {
    &&& forall|c: int, k: int|
        0 <= c < st.components@.len() && 0 <= k < st.components@[c].vertices@.len() ==> {
            let v = #[trigger] st.components@[c].vertices@[k];
            &&& reachable(adj, st.components@[c].entry.0, v.0)
            &&& reachable(adj, v.0, st.components@[c].entry.0)
        }
    &&& forall|b: int, k: int|
        #![trigger st.block2comp@[b], adj[b][k]]
        0 <= b < adj.len() && st.block2comp@[b] is Some && 0 <= k < adj[b].len() ==> {
            &&& st.block2comp@[adj[b][k] as int] is Some
            &&& st.block2comp@[adj[b][k] as int]->0 <= st.block2comp@[b]->0
        }
}

/// Seen from a block, the order of the stack from its top.
pub open spec fn popped_order(s: Seq<BasicBlockIdx>, from: int) -> Seq<BasicBlockIdx> {
    Seq::new((s.len() - from) as nat, |k: int| s[s.len() - 1 - k])
}

/// Visiting a block, with no successor handled yet, keeps the back edge
/// counts in agreement with the edges handled.
#[verifier::rlimit(60)]
proof fn lemma_tally_visit(adj: Seq<Seq<usize>>, n: nat, sa: TarjanState, sb: TarjanState, c: usize)
    requires
        adj.len() == n,
        crate::cfg::edges_in_range(adj),
        sa.inv(n),
        sa.tally(adj, n),
        c < n,
        sa.preorder@[c as int] is None,
        sb.preorder@ == sa.preorder@.update(c as int, Some(sa.val)),
        sb.in_stack@ == sa.in_stack@.update(c as int, true),
        sb.prog == sa.prog,
        sb.parent == sa.parent,
        sb.seen_cnt == sa.seen_cnt,
        sb.components == sa.components,
        sa.parent@[c as int] is Some ==> {
            let e = sa.parent@[c as int]->0;
            &&& e.0 < n
            &&& sa.in_stack@[e.0 as int]
            &&& sa.prog@[e.0 as int] == e.1
            &&& 0 <= e.1 < adj[e.0 as int].len()
            &&& adj[e.0 as int][e.1] == c
        },
    ensures
        sb.tally(adj, n),
        sb.tree_done(c as int) == 0,
{
    reveal(TarjanState::tally);
    let ci = c as int;
    assert(!sa.in_stack@[ci]);
    assert(sa.seen_cnt@[ci] == 0);
    assert(sa.prog@[ci] == 0);
    assert forall|t: usize| #[trigger] sb.hits(adj, t) == sa.hits(adj, t) by {
        assert(adj[ci].take(0) =~= Seq::<usize>::empty());
        assert(Seq::new(
            sb.in_stack@.len(),
            |u: int|
                if sb.in_stack@[u] {
                    occurrences(sb.handled(adj, u), t)
                } else {
                    0
                },
        ) =~= Seq::new(
            sa.in_stack@.len(),
            |u: int|
                if sa.in_stack@[u] {
                    occurrences(sa.handled(adj, u), t)
                } else {
                    0
                },
        ));
    }
    assert forall|t: int| 0 <= t < n && t != ci && sa.in_stack@[t] implies sb.tree_done(t) == sa.tree_done(t) by {
        if sa.parent@[t] is Some {
            let e = sa.parent@[t]->0;
            if e.0 == c {
                assert(sb.prog@[e.0 as int] == 0);
            } else {
                assert(sb.in_stack@[e.0 as int] == sa.in_stack@[e.0 as int]);
            }
        }
    }
    let z = Seq::new(
        sa.in_stack@.len(),
        |u: int|
            if sa.in_stack@[u] {
                occurrences(sa.handled(adj, u), c)
            } else {
                0
            },
    );
    assert forall|u: int| 0 <= u < z.len() implies z[u] == 0 by {
        if sa.in_stack@[u] {
            assert(sa.preorder@[u] is Some);
            assert forall|k: int| 0 <= k < sa.handled(adj, u).len() implies sa.handled(adj, u)[k] != c by {
                assert(sa.handled(adj, u)[k] == adj[u][k]);
                assert(sa.preorder@[adj[u][k] as int] is Some);
            }
            lemma_occurrences_none(sa.handled(adj, u), c);
        }
    }
    lemma_sum_ints_zero(z);
    assert(sb.hits(adj, c) == 0);
    if sa.parent@[ci] is Some {
        let e = sa.parent@[ci]->0;
        assert(sa.preorder@[e.0 as int] is Some);
    }
    assert(sb.tree_done(ci) == 0);
    assert forall|t: int| 0 <= t < n && #[trigger] sb.in_stack@[t] implies sb.seen_cnt@[t] + sb.tree_done(t) == sb.hits(
        adj,
        t as usize,
    ) by {
        if t != ci {
            assert(sa.in_stack@[t]);
        }
    }
    assert forall|t: int| 0 <= t < n && #[trigger] sb.in_stack@[t] && sb.parent@[t] is Some implies {
        let e = sb.parent@[t]->0;
        &&& e.0 < n
        &&& sb.in_stack@[e.0 as int]
        &&& 0 <= e.1 <= sb.prog@[e.0 as int]
        &&& e.1 < adj[e.0 as int].len()
        &&& adj[e.0 as int][e.1] == t
        &&& sb.preorder@[e.0 as int]->0 < sb.preorder@[t]->0
    } by {
        let e = sb.parent@[t]->0;
        if t != ci {
            assert(sa.in_stack@[t]);
            assert(e.0 != c);
        } else {
            assert(sa.preorder@[e.0 as int] is Some);
        }
    }
    assert forall|u: int, k: int|
        0 <= u < n && sb.preorder@[u] is Some && 0 <= k < sb.prog@[u] implies sb.preorder@[#[trigger] adj[u][k] as int] is Some by {
        if u != ci {
            assert(sa.preorder@[adj[u][k] as int] is Some);
        }
    }
    assert forall|t: int|
        0 <= t < n && (#[trigger] sb.preorder@[t]) is Some && sb.parent@[t] is Some implies {
            let e = sb.parent@[t]->0;
            e.0 < n && sb.preorder@[e.0 as int] is Some
        } by {
        if t == ci {
            let e = sb.parent@[t]->0;
            assert(sa.preorder@[e.0 as int] is Some);
        }
    }
}

/// Handling the successor at position `i` of block `c` on the stack, and
/// counting it as a back edge exactly when it is not the edge through which
/// it was first reached and it leads to the stack, keeps the back edge
/// counts in agreement with the edges handled.
#[verifier::rlimit(60)]
proof fn lemma_tally_step(adj: Seq<Seq<usize>>, n: nat, sa: TarjanState, sb: TarjanState, c: usize, i: int, counted: bool)
    requires
        adj.len() == n,
        n < usize::MAX,
        crate::cfg::edges_in_range(adj),
        sa.inv(n),
        sa.tally(adj, n),
        c < n,
        sa.in_stack@[c as int],
        sa.prog@[c as int] == i,
        0 <= i < adj[c as int].len(),
        sa.preorder@[adj[c as int][i] as int] is Some,
        counted ==> sa.in_stack@[adj[c as int][i] as int] && sa.parent@[adj[c as int][i] as int] != Some((c, i)),
        !counted && sa.in_stack@[adj[c as int][i] as int] ==> sa.parent@[adj[c as int][i] as int] == Some((c, i)),
        sb.prog@ == sa.prog@.update(c as int, i + 1),
        sb.seen_cnt@ == if counted {
            sa.seen_cnt@.update(adj[c as int][i] as int, (sa.seen_cnt@[adj[c as int][i] as int] + 1) as usize)
        } else {
            sa.seen_cnt@
        },
        counted ==> sa.seen_cnt@[adj[c as int][i] as int] < usize::MAX,
        sb.preorder == sa.preorder,
        sb.in_stack == sa.in_stack,
        sb.parent == sa.parent,
        sb.components == sa.components,
    ensures
        sb.tally(adj, n),
{
    reveal(TarjanState::tally);
    let ci = c as int;
    let succ = adj[ci][i];
    assert(succ < n);
    assert(adj[ci].take(i + 1).drop_last() =~= adj[ci].take(i));
    assert(adj[ci].take(i + 1).last() == succ);
    assert forall|x: usize| #[trigger] sb.hits(adj, x) == sa.hits(adj, x) + if x == succ { 1int } else { 0int } by {
        let qa = Seq::new(
            sa.in_stack@.len(),
            |u: int|
                if sa.in_stack@[u] {
                    occurrences(sa.handled(adj, u), x)
                } else {
                    0
                },
        );
        let qb = Seq::new(
            sb.in_stack@.len(),
            |u: int|
                if sb.in_stack@[u] {
                    occurrences(sb.handled(adj, u), x)
                } else {
                    0
                },
        );
        assert(sb.handled(adj, ci) == adj[ci].take(i + 1));
        assert(qb =~= qa.update(ci, occurrences(sb.handled(adj, ci), x)));
        lemma_sum_ints_update(qa, ci, occurrences(sb.handled(adj, ci), x));
    }
    assert forall|t: int| 0 <= t < n && #[trigger] sb.in_stack@[t] implies sb.seen_cnt@[t] + sb.tree_done(t) == sb.hits(
        adj,
        t as usize,
    ) by {
        assert(sb.hits(adj, t as usize) == sa.hits(adj, t as usize) + if t as usize == succ { 1int } else { 0int });
        assert(sa.in_stack@[t]);
        assert(sa.seen_cnt@[t] + sa.tree_done(t) == sa.hits(adj, t as usize));
        if sa.parent@[t] is Some {
            let e = sa.parent@[t]->0;
            assert(e.0 < n && sa.in_stack@[e.0 as int] && e.1 <= sa.prog@[e.0 as int] && adj[e.0 as int][e.1] == t);
            if e == (c, i) {
                assert(t == succ);
                assert(!counted);
                assert(sa.tree_done(t) == 0);
                assert(sb.tree_done(t) == 1);
            } else if e.0 == c {
                assert(e.1 != i);
                assert(e.1 < i);
                assert(sb.tree_done(t) == sa.tree_done(t));
            } else {
                assert(sb.prog@[e.0 as int] == sa.prog@[e.0 as int]);
                assert(sb.tree_done(t) == sa.tree_done(t));
            }
        } else {
            assert(sb.tree_done(t) == sa.tree_done(t));
        }
        if t as usize == succ {
            if counted {
                assert(sb.seen_cnt@[t] == sa.seen_cnt@[t] + 1);
            }
        } else {
            assert(sb.seen_cnt@[t] == sa.seen_cnt@[t]);
        }
    }
    assert forall|u: int, k: int|
        0 <= u < n && sb.preorder@[u] is Some && 0 <= k < sb.prog@[u] implies sb.preorder@[#[trigger] adj[u][k] as int] is Some by {
        if u != ci || k < i {
            assert(sa.preorder@[adj[u][k] as int] is Some);
        }
    }
}

/// Over the blocks of a component about to be popped, the handled edges
/// from the stack into each add up to the edges inside the component.
#[verifier::rlimit(60)]
proof fn lemma_component_hits(adj: Seq<Seq<usize>>, n: nat, st0: TarjanState, verts: Seq<BasicBlockIdx>, vis0: Seq<bool>)
    requires
        adj.len() == n,
        n < usize::MAX,
        crate::cfg::edges_in_range(adj),
        st0.in_stack@.len() == n,
        st0.prog@.len() == n,
        vis0.len() == n,
        forall|u: int| 0 <= u < n ==> 0 <= #[trigger] st0.prog@[u] <= adj[u].len(),
        forall|b: int|
            #![trigger st0.in_stack@[b]]
            #![trigger verts.contains(BasicBlockIdx(b as usize))]
            0 <= b < n ==> (verts.contains(BasicBlockIdx(b as usize)) <==> st0.in_stack@[b] && !vis0[b]),
        forall|u: int, k: int| 0 <= u < n && st0.in_stack@[u] && vis0[u] && 0 <= k < st0.prog@[u] ==> vis0[#[trigger] adj[u][k] as int],
        forall|u: int| 0 <= u < n && #[trigger] st0.in_stack@[u] && !vis0[u] ==> st0.prog@[u] == adj[u].len(),
    ensures
        sum_ints(
            Seq::new(
                n,
                |t: int|
                    if verts.contains(BasicBlockIdx(t as usize)) {
                        st0.hits(adj, t as usize)
                    } else {
                        0
                    },
            ),
        ) == inner_edges(adj, verts),
{
    let f = |u: int, t: int|
        if verts.contains(BasicBlockIdx(t as usize)) {
            if st0.in_stack@[u] {
                occurrences(st0.handled(adj, u), t as usize)
            } else {
                0
            }
        } else {
            0
        };
    let lhs = Seq::new(
        n,
        |t: int|
            if verts.contains(BasicBlockIdx(t as usize)) {
                st0.hits(adj, t as usize)
            } else {
                0
            },
    );
    assert forall|t: int| 0 <= t < n implies lhs[t] == sum_ints(Seq::new(n, |u: int| f(u, t))) by {
        if verts.contains(BasicBlockIdx(t as usize)) {
            assert(Seq::new(n, |u: int| f(u, t)) =~= Seq::new(
                st0.in_stack@.len(),
                |u: int|
                    if st0.in_stack@[u] {
                        occurrences(st0.handled(adj, u), t as usize)
                    } else {
                        0
                    },
            ));
        } else {
            lemma_sum_ints_zero(Seq::new(n, |u: int| f(u, t)));
        }
    }
    assert(lhs =~= Seq::new(n, |t: int| sum_ints(Seq::new(n, |u: int| f(u, t)))));
    lemma_sum_swap(f, n, n);
    let rhs = Seq::new(
        adj.len(),
        |b: int|
            if verts.contains(BasicBlockIdx(b as usize)) {
                count_inside(adj[b], verts)
            } else {
                0
            },
    );
    assert forall|u: int| 0 <= u < n implies sum_ints(Seq::new(n, |t: int| f(u, t))) == rhs[u] by {
        if st0.in_stack@[u] {
            let h = st0.handled(adj, u);
            assert forall|k: int| 0 <= k < h.len() implies #[trigger] h[k] < n by {
                assert(h[k] == adj[u][k]);
            }
            lemma_sum_occurrences(h, verts, n);
            assert(Seq::new(n, |t: int| f(u, t)) =~= Seq::new(
                n,
                |t: int|
                    if verts.contains(BasicBlockIdx(t as usize)) {
                        occurrences(h, t as usize)
                    } else {
                        0
                    },
            ));
            if vis0[u] {
                assert forall|k: int| 0 <= k < h.len() implies !verts.contains(BasicBlockIdx(#[trigger] h[k])) by {
                    assert(h[k] == adj[u][k]);
                    assert(vis0[adj[u][k] as int]);
                    let b = h[k] as int;
                    assert(!(st0.in_stack@[b] && !vis0[b]));
                    assert(BasicBlockIdx(b as usize) == BasicBlockIdx(h[k]));
                    assert(h[k] < n);
                }
                lemma_count_inside_none(h, verts);
                assert(!verts.contains(BasicBlockIdx(u as usize)));
            } else {
                assert(h =~= adj[u]);
                assert(verts.contains(BasicBlockIdx(u as usize)));
            }
        } else {
            lemma_sum_ints_zero(Seq::new(n, |t: int| f(u, t)));
            assert(!verts.contains(BasicBlockIdx(u as usize)));
        }
    }
    assert(Seq::new(n, |u: int| sum_ints(Seq::new(n, |t: int| f(u, t)))) =~= rhs);
}

/// The handled edges from the stack into a block of a component about to be
/// popped are the edges into it from the component.
#[verifier::rlimit(60)]
proof fn lemma_entry_hits(adj: Seq<Seq<usize>>, n: nat, st0: TarjanState, verts: Seq<BasicBlockIdx>, vis0: Seq<bool>, r: usize)
    requires
        adj.len() == n,
        n < usize::MAX,
        crate::cfg::edges_in_range(adj),
        st0.in_stack@.len() == n,
        st0.prog@.len() == n,
        vis0.len() == n,
        r < n,
        !vis0[r as int],
        forall|u: int| 0 <= u < n ==> 0 <= #[trigger] st0.prog@[u] <= adj[u].len(),
        forall|b: int|
            #![trigger st0.in_stack@[b]]
            #![trigger verts.contains(BasicBlockIdx(b as usize))]
            0 <= b < n ==> (verts.contains(BasicBlockIdx(b as usize)) <==> st0.in_stack@[b] && !vis0[b]),
        forall|u: int, k: int| 0 <= u < n && st0.in_stack@[u] && vis0[u] && 0 <= k < st0.prog@[u] ==> vis0[#[trigger] adj[u][k] as int],
        forall|u: int| 0 <= u < n && #[trigger] st0.in_stack@[u] && !vis0[u] ==> st0.prog@[u] == adj[u].len(),
    ensures
        st0.hits(adj, r) == edges_into(adj, verts, r),
{
    let q = Seq::new(
        st0.in_stack@.len(),
        |u: int|
            if st0.in_stack@[u] {
                occurrences(st0.handled(adj, u), r)
            } else {
                0
            },
    );
    let e = Seq::new(
        adj.len(),
        |b: int|
            if verts.contains(BasicBlockIdx(b as usize)) {
                occurrences(adj[b], r)
            } else {
                0
            },
    );
    assert forall|u: int| 0 <= u < n implies q[u] == e[u] by {
        if st0.in_stack@[u] {
            let h = st0.handled(adj, u);
            if vis0[u] {
                assert forall|k: int| 0 <= k < h.len() implies h[k] != r by {
                    assert(h[k] == adj[u][k]);
                    assert(vis0[adj[u][k] as int]);
                }
                lemma_occurrences_none(h, r);
            } else {
                assert(h =~= adj[u]);
            }
        }
    }
    assert(q =~= e);
}

/// Over the blocks of a component about to be popped, the handled edges
/// through which they were first reached number one less than the blocks.
#[verifier::rlimit(60)]
proof fn lemma_component_tree(
    adj: Seq<Seq<usize>>,
    n: nat,
    st0: TarjanState,
    verts: Seq<BasicBlockIdx>,
    vis0: Seq<bool>,
    current: BasicBlockIdx,
)
    requires
        adj.len() == n,
        n < usize::MAX,
        st0.inv(n),
        st0.tally(adj, n),
        vis0.len() == n,
        forall|k: int| 0 <= k < verts.len() ==> (#[trigger] verts[k]).0 < n,
        forall|i: int, j: int| 0 <= i < j < verts.len() ==> (#[trigger] verts[i]) != (#[trigger] verts[j]),
        forall|b: int|
            #![trigger st0.in_stack@[b]]
            #![trigger verts.contains(BasicBlockIdx(b as usize))]
            0 <= b < n ==> (verts.contains(BasicBlockIdx(b as usize)) <==> st0.in_stack@[b] && !vis0[b]),
        forall|u: int| 0 <= u < n && #[trigger] st0.in_stack@[u] && !vis0[u] ==> st0.prog@[u] == adj[u].len(),
        forall|u: int|
            0 <= u < n && #[trigger] st0.in_stack@[u] && !vis0[u] && u != current.0 ==> st0.parent@[u] is Some && !vis0[(st0.parent@[u]->0).0 as int],
        current.0 < n,
        verts.contains(current),
        st0.tree_done(current.0 as int) == 0,
    ensures
        sum_ints(
            Seq::new(
                n,
                |t: int|
                    if verts.contains(BasicBlockIdx(t as usize)) {
                        st0.tree_done(t)
                    } else {
                        0
                    },
            ),
        ) == verts.len() - 1,
{
    reveal(TarjanState::tally);
    let ind = |t: int|
        if verts.contains(BasicBlockIdx(t as usize)) {
            1int
        } else {
            0int
        };
    let one = |t: int|
        if t == current.0 as int {
            1int
        } else {
            0int
        };
    assert(BasicBlockIdx(current.0 as int as usize) == current);
    assert(st0.in_stack@[current.0 as int]);
    assert forall|t: int| 0 <= t < n implies (if verts.contains(BasicBlockIdx(t as usize)) {
        st0.tree_done(t)
    } else {
        0
    }) == ind(t) - one(t) by {
        if verts.contains(BasicBlockIdx(t as usize)) && t != current.0 {
            assert(st0.in_stack@[t] == st0.in_stack@[t]);
            assert(verts.contains(BasicBlockIdx(t as usize)) <==> st0.in_stack@[t] && !vis0[t]);
            assert(st0.in_stack@[t]);
            assert(!vis0[t]);
            let e = st0.parent@[t]->0;
            assert(st0.in_stack@[e.0 as int]);
            assert(!vis0[e.0 as int]);
            assert(st0.prog@[e.0 as int] == adj[e.0 as int].len());
        }
    }
    assert(Seq::new(
        n,
        |t: int|
            if verts.contains(BasicBlockIdx(t as usize)) {
                st0.tree_done(t)
            } else {
                0
            },
    ) =~= Seq::new(n, |t: int| ind(t) - one(t)));
    lemma_sum_sub(ind, one, n);
    lemma_sum_membership(verts, n);
    assert(Seq::new(n, ind) =~= Seq::new(
        n,
        |t: int|
            if verts.contains(BasicBlockIdx(t as usize)) {
                1int
            } else {
                0int
            },
    ));
    lemma_sum_single(n, current.0 as int);
    assert(Seq::new(n, one) =~= Seq::new(n, |t: int| if t == current.0 as int { 1int } else { 0int }));
}

/// Popping a closed component off the stack keeps the back edge counts in
/// agreement with the edges handled, and the new component's count is the
/// number of edges inside it less one per block but its entry.
#[verifier::rlimit(100)]
#[verifier::spinoff_prover]
proof fn lemma_pop_tally(
    adj: Seq<Seq<usize>>,
    n: nat,
    st0: TarjanState,
    st: TarjanState,
    current: BasicBlockIdx,
    s0: int,
    vis0: Seq<bool>,
    start: int,
)
    requires
        adj.len() == n,
        n < usize::MAX,
        crate::cfg::edges_in_range(adj),
        st0.inv(n),
        st0.tally(adj, n),
        st.inv(n),
        0 <= s0 < st0.stack@.len(),
        st0.stack@[s0] == current,
        pop_ready(adj, n, st0, current.0, s0, vis0, start),
        forall|i: int, k: int|
            s0 <= i < st0.stack@.len() && 0 <= k < adj[st0.stack@[i].0 as int].len() ==> {
                let t = #[trigger] adj[#[trigger] st0.stack@[i].0 as int][k];
                st0.block2comp@[t as int] is Some || exists|j: int| s0 <= j < st0.stack@.len() && st0.stack@[j].0 == t
            },
        st.stack@ == st0.stack@.take(s0),
        st.preorder == st0.preorder,
        st.prog == st0.prog,
        st.parent == st0.parent,
        st.seen_cnt == st0.seen_cnt,
        st.components@.len() == st0.components@.len() + 1,
        forall|c: int| 0 <= c < st0.components@.len() ==> st.components@[c] == st0.components@[c],
        st.components@[st0.components@.len() as int].vertices@ == popped_order(st0.stack@, s0),
        st.components@[st0.components@.len() as int].entry == current,
        st.components@[st0.components@.len() as int].num_back_edges == sum_ints(st0.back_pending()) - sum_ints(
            st.back_pending(),
        ),
        st0.back_edges_cnt@[current.0 as int] == st0.seen_cnt@[current.0 as int],
        st.back_edges_cnt == st0.back_edges_cnt,
        st0.path_counts(n),
    ensures
        st.tally(adj, n),
{
    reveal(TarjanState::path_counts);
    reveal(pop_ready);
    reveal(TarjanState::tally);
    let full = st0.stack@;
    let verts = popped_order(full, s0);
    let last = st0.components@.len() as int;
    assert forall|u: int, k: int|
        0 <= u < n && st0.in_stack@[u] && !vis0[u] && 0 <= k < adj[u].len() implies !(st0.in_stack@[#[trigger] adj[u][k] as int]
            && vis0[adj[u][k] as int]) by {
        let bu = BasicBlockIdx(u as usize);
        assert(full.contains(bu));
        let x = choose|x: int| 0 <= x < full.len() && full[x] == bu;
        assert(x >= s0);
        let t = adj[full[x].0 as int][k];
        assert(t == adj[u][k]);
        assert(t < n);
        if st0.block2comp@[t as int] is Some {
            assert(!st0.in_stack@[t as int]);
        } else {
            let j = choose|j: int| s0 <= j < full.len() && full[j].0 == t;
            assert(!vis0[full[j].0 as int]);
        }
    }
    assert forall|b: int|
        #![trigger st0.in_stack@[b]]
        #![trigger verts.contains(BasicBlockIdx(b as usize))]
        0 <= b < n implies (verts.contains(BasicBlockIdx(b as usize)) <==> st0.in_stack@[b] && !vis0[b]) by {
        let bb = BasicBlockIdx(b as usize);
        if verts.contains(bb) {
            let j = choose|j: int| 0 <= j < verts.len() && verts[j] == bb;
            assert(verts[j] == full[full.len() - 1 - j]);
            assert(full.contains(bb));
        }
        if st0.in_stack@[b] && !vis0[b] {
            assert(full.contains(bb));
            let x = choose|x: int| 0 <= x < full.len() && full[x] == bb;
            assert(verts[full.len() - 1 - x] == full[x]);
        }
    }
    assert forall|b: int| 0 <= b < n implies (#[trigger] st.in_stack@[b] <==> st0.in_stack@[b] && vis0[b]) by {
        let bb = BasicBlockIdx(b as usize);
        if st.in_stack@[b] {
            assert(st.stack@.contains(bb));
            let x = choose|x: int| 0 <= x < st.stack@.len() && st.stack@[x] == bb;
            assert(full[x] == bb);
            assert(full.contains(bb));
        }
        if st0.in_stack@[b] && vis0[b] {
            assert(full.contains(bb));
            let x = choose|x: int| 0 <= x < full.len() && full[x] == bb;
            assert(x < s0);
            assert(st.stack@[x] == bb);
            assert(st.stack@.contains(bb));
        }
    }
    // The count of the new component.
    let cnt = |t: int|
        if verts.contains(BasicBlockIdx(t as usize)) {
            st0.seen_cnt@[t] as int
        } else {
            0
        };
    let bcnt = |t: int|
        if verts.contains(BasicBlockIdx(t as usize)) {
            st0.back_edges_cnt@[t] as int
        } else {
            0
        };
    let p0 = |t: int| st0.back_pending()[t];
    let p1 = |t: int| st.back_pending()[t];
    assert(Seq::new(n, |t: int| p0(t) - p1(t)) =~= Seq::new(n, bcnt));
    lemma_sum_sub(p0, p1, n);
    assert(Seq::new(n, p0) =~= st0.back_pending());
    assert(Seq::new(n, p1) =~= st.back_pending());
    lemma_sum_le(Seq::new(n, bcnt), Seq::new(n, cnt));
    let ci = current.0 as int;
    assert(verts.contains(current)) by {
        assert(verts[full.len() - 1 - s0] == current);
    }
    assert(BasicBlockIdx(ci as usize) == current);
    assert forall|t: int| 0 <= t < n implies #[trigger] Seq::new(n, bcnt)[t] >= 0 by {}
    lemma_sum_ints_nonneg_le(Seq::new(n, bcnt), ci);
    assert(st0.in_stack@[ci] && !vis0[ci]);
    assert(st0.seen_cnt@[ci] + st0.tree_done(ci) == st0.hits(adj, current.0));
    lemma_entry_hits(adj, n, st0, verts, vis0, current.0);
    let hs = |t: int|
        if verts.contains(BasicBlockIdx(t as usize)) {
            st0.hits(adj, t as usize)
        } else {
            0
        };
    let ts = |t: int|
        if verts.contains(BasicBlockIdx(t as usize)) {
            st0.tree_done(t)
        } else {
            0
        };
    assert(Seq::new(n, cnt) =~= Seq::new(n, |t: int| hs(t) - ts(t)));
    lemma_sum_sub(hs, ts, n);
    lemma_component_hits(adj, n, st0, verts, vis0);
    assert(Seq::new(n, hs) =~= Seq::new(
        n,
        |t: int|
            if verts.contains(BasicBlockIdx(t as usize)) {
                st0.hits(adj, t as usize)
            } else {
                0
            },
    ));
    assert(verts[full.len() - 1 - s0] == current);
    assert(st.components@[last].vertices@ == verts);
    lemma_component_tree(adj, n, st0, verts, vis0, current);
    assert(Seq::new(n, ts) =~= Seq::new(
        n,
        |t: int|
            if verts.contains(BasicBlockIdx(t as usize)) {
                st0.tree_done(t)
            } else {
                0
            },
    ));
    // The blocks left on the stack.
    assert forall|t: int| 0 <= t < n && #[trigger] st.in_stack@[t] implies st.hits(adj, t as usize) == st0.hits(adj, t as usize) by {
        let q = Seq::new(
            st.in_stack@.len(),
            |u: int|
                if st.in_stack@[u] {
                    occurrences(st.handled(adj, u), t as usize)
                } else {
                    0
                },
        );
        let q0 = Seq::new(
            st0.in_stack@.len(),
            |u: int|
                if st0.in_stack@[u] {
                    occurrences(st0.handled(adj, u), t as usize)
                } else {
                    0
                },
        );
        assert forall|u: int| 0 <= u < n implies q[u] == q0[u] by {
            if st0.in_stack@[u] && !vis0[u] {
                let h = st0.handled(adj, u);
                assert(h =~= adj[u]);
                assert forall|k: int| 0 <= k < h.len() implies h[k] != t as usize by {
                    assert(!(st0.in_stack@[adj[u][k] as int] && vis0[adj[u][k] as int]));
                }
                lemma_occurrences_none(h, t as usize);
            }
        }
        assert(q =~= q0);
    }
    assert forall|t: int| 0 <= t < n && #[trigger] st.in_stack@[t] && st.parent@[t] is Some implies #[trigger] st.in_stack@[(st.parent@[t]->0).0 as int] by {
        let e = st.parent@[t]->0;
        assert(st0.in_stack@[t] && vis0[t]);
        assert(st0.in_stack@[e.0 as int]);
        assert(st0.preorder@[e.0 as int]->0 < st0.preorder@[t]->0);
        assert(vis0[e.0 as int]);
    }
    assert forall|t: int| 0 <= t < n && #[trigger] st.in_stack@[t] implies st.seen_cnt@[t] + st.tree_done(t) == st.hits(
        adj,
        t as usize,
    ) by {
        assert(st0.in_stack@[t]);
        if st.parent@[t] is Some {
            let e = st.parent@[t]->0;
            assert(st.in_stack@[e.0 as int]);
            assert(st0.in_stack@[e.0 as int]);
        }
        assert(st.tree_done(t) == st0.tree_done(t));
    }
    assert forall|t: int| 0 <= t < n && #[trigger] st.in_stack@[t] && st.parent@[t] is Some implies {
        let e = st.parent@[t]->0;
        &&& e.0 < n
        &&& st.in_stack@[e.0 as int]
        &&& 0 <= e.1 <= st.prog@[e.0 as int]
        &&& e.1 < adj[e.0 as int].len()
        &&& adj[e.0 as int][e.1] == t
        &&& st.preorder@[e.0 as int]->0 < st.preorder@[t]->0
    } by {
        assert(st0.in_stack@[t]);
    }
    assert forall|c: int| 0 <= c < st.components@.len() implies edges_into(adj, (#[trigger] st.components@[c]).vertices@, st.components@[c].entry.0)
                <= st.components@[c].num_back_edges && st.components@[c].num_back_edges <= inner_edges(
                adj,
                st.components@[c].vertices@,
            ) - st.components@[c].vertices@.len() + 1 by {
        if c < last {
            assert(st.components@[c] == st0.components@[c]);
        }
    }
}

/// Visiting `c`, first reached through the edge `from`, with no successor
/// handled yet, keeps the back edge counts in agreement with the edges
/// handled.
proof fn lemma_tally_enter(
    adj: Seq<Seq<usize>>,
    n: nat,
    sa: TarjanState,
    sb: TarjanState,
    c: usize,
    from: Option<(usize, int)>,
)
    requires
        adj.len() == n,
        crate::cfg::edges_in_range(adj),
        sa.inv(n),
        sa.tally(adj, n),
        c < n,
        sa.preorder@[c as int] is None,
        sb.preorder@ == sa.preorder@.update(c as int, Some(sa.val)),
        sb.in_stack@ == sa.in_stack@.update(c as int, true),
        sb.prog == sa.prog,
        sb.parent@ == sa.parent@.update(c as int, from),
        sb.seen_cnt == sa.seen_cnt,
        sb.components == sa.components,
        from is Some ==> {
            let e = from->0;
            &&& e.0 < n
            &&& sa.in_stack@[e.0 as int]
            &&& sa.prog@[e.0 as int] == e.1
            &&& 0 <= e.1 < adj[e.0 as int].len()
            &&& adj[e.0 as int][e.1] == c
        },
    ensures
        sb.tally(adj, n),
{
    reveal(TarjanState::tally);
    let mid = TarjanState { parent: Ghost(sa.parent@.update(c as int, from)), ..sa };
    assert(!sa.in_stack@[c as int]);
    assert forall|t: usize| #[trigger] mid.hits(adj, t) == sa.hits(adj, t) by {
        assert(Seq::new(
            mid.in_stack@.len(),
            |u: int|
                if mid.in_stack@[u] {
                    occurrences(mid.handled(adj, u), t)
                } else {
                    0
                },
        ) =~= Seq::new(
            sa.in_stack@.len(),
            |u: int|
                if sa.in_stack@[u] {
                    occurrences(sa.handled(adj, u), t)
                } else {
                    0
                },
        ));
    }
    assert forall|t: int| 0 <= t < n && #[trigger] mid.in_stack@[t] implies mid.seen_cnt@[t] + mid.tree_done(t) == mid.hits(
        adj,
        t as usize,
    ) by {
        assert(t != c);
        assert(mid.tree_done(t) == sa.tree_done(t));
    }
    assert(mid.inv(n));
    lemma_tally_visit(adj, n, mid, sb, c);
}

/// The component about to be popped from position `s0`, entered through
/// `current`, is ready to be counted: the blocks below it on the stack are
/// those of `vis0` and have lower numbers than `start`, their handled edges
/// lead into `vis0`; the blocks of the component are done, and each but
/// `current` was first reached from another of them.
#[verifier::opaque]
spec fn pop_ready(adj: Seq<Seq<usize>>, n: nat, st: TarjanState, current: usize, s0: int, vis0: Seq<bool>, start: int) -> bool {
    &&& vis0.len() == n
    &&& forall|j: int| 0 <= j < st.stack@.len() ==> (vis0[(#[trigger] st.stack@[j]).0 as int] <==> j < s0)
    &&& forall|u: int| 0 <= u < n && #[trigger] st.in_stack@[u] ==> (vis0[u] <==> st.preorder@[u]->0 < start)
    &&& forall|u: int, k: int| 0 <= u < n && st.in_stack@[u] && vis0[u] && 0 <= k < st.prog@[u] ==> vis0[#[trigger] adj[u][k] as int]
    &&& forall|u: int| 0 <= u < n && #[trigger] st.in_stack@[u] && !vis0[u] ==> st.prog@[u] == adj[u].len()
    &&& forall|u: int|
        0 <= u < n && #[trigger] st.in_stack@[u] && !vis0[u] && u != current ==> st.parent@[u] is Some && !vis0[(st.parent@[u]->0).0 as int]
    &&& st.tree_done(current as int) == 0
}

/// Before the search from `current`, first reached through the edge
/// `from`: the counts agree, and for an unvisited `current`, `from` is the
/// next edge of a block on the stack.
#[verifier::opaque]
spec fn tally_before(adj: Seq<Seq<usize>>, n: nat, st: TarjanState, current: usize, from: Option<(usize, int)>) -> bool {
    &&& st.tally(adj, n)
    &&& st.preorder@[current as int] is None && from is Some ==> {
        let e = from->0;
        &&& e.0 < n
        &&& st.in_stack@[e.0 as int]
        &&& st.prog@[e.0 as int] == e.1
        &&& 0 <= e.1 < adj[e.0 as int].len()
        &&& adj[e.0 as int][e.1] == current
    }
}

/// While the search from `current`, begun in `st0`, handles the successor
/// at position `i`: the counts agree; blocks visited before keep their
/// progress and edges; the others visited since are done and were first
/// reached from blocks visited since; and the edges from `current` that
/// first reached a block come before `i`.
#[verifier::opaque]
spec fn tally_during(
    adj: Seq<Seq<usize>>,
    n: nat,
    st0: TarjanState,
    st: TarjanState,
    current: usize,
    from: Option<(usize, int)>,
    i: int,
) -> bool {
    &&& st.tally(adj, n)
    &&& tally_before(adj, n, st0, current, from)
    &&& st0.preorder@[current as int] is None
    &&& st.prog@[current as int] == i
    &&& forall|u: int|
        0 <= u < n && (#[trigger] st0.preorder@[u]) is Some ==> st.prog@[u] == st0.prog@[u] && st.parent@[u] == st0.parent@[u]
    &&& forall|u: int|
        0 <= u < n && (#[trigger] st.preorder@[u]) is Some && st0.preorder@[u] is None && u != current ==> st.prog@[u] == adj[u].len()
            && st.parent@[u] is Some && st0.preorder@[(st.parent@[u]->0).0 as int] is None
    &&& st.parent@[current as int] == from
    &&& forall|t: int|
        0 <= t < n && (#[trigger] st.preorder@[t]) is Some && st.parent@[t] is Some && (st.parent@[t]->0).0 == current ==> (st.parent@[
            t
        ]->0).1 < i
}

/// After the search from `current`, begun in `st0`: the counts agree;
/// blocks visited before keep their progress and edges; the others visited
/// since are done, and all but `current` were first reached from blocks
/// visited since, `current` through `from`.
#[verifier::opaque]
spec fn tally_after(adj: Seq<Seq<usize>>, n: nat, st0: TarjanState, st: TarjanState, current: usize, from: Option<(usize, int)>) -> bool {
    &&& st.tally(adj, n)
    &&& forall|u: int|
        0 <= u < n && (#[trigger] st0.preorder@[u]) is Some ==> st.prog@[u] == st0.prog@[u] && st.parent@[u] == st0.parent@[u]
    &&& forall|u: int| 0 <= u < n && (#[trigger] st.preorder@[u]) is Some && st0.preorder@[u] is None ==> st.prog@[u] == adj[u].len()
    &&& forall|u: int|
        0 <= u < n && (#[trigger] st.preorder@[u]) is Some && st0.preorder@[u] is None && u != current ==> st.parent@[u] is Some
            && st0.preorder@[(st.parent@[u]->0).0 as int] is None
    &&& st0.preorder@[current as int] is None ==> st.parent@[current as int] == from
}

/// The counts agree on two states that differ in nothing they read.
proof fn lemma_tally_frame(adj: Seq<Seq<usize>>, n: nat, sa: TarjanState, sb: TarjanState)
    requires
        sb.preorder == sa.preorder,
        sb.in_stack == sa.in_stack,
        sb.prog == sa.prog,
        sb.parent == sa.parent,
        sb.seen_cnt == sa.seen_cnt,
        sb.components == sa.components,
    ensures
        sa.tally(adj, n) == sb.tally(adj, n),
{
    reveal(TarjanState::tally);
    assert forall|t: usize| #[trigger] sb.hits(adj, t) == sa.hits(adj, t) by {
        assert(Seq::new(
            sb.in_stack@.len(),
            |u: int|
                if sb.in_stack@[u] {
                    occurrences(sb.handled(adj, u), t)
                } else {
                    0
                },
        ) =~= Seq::new(
            sa.in_stack@.len(),
            |u: int|
                if sa.in_stack@[u] {
                    occurrences(sa.handled(adj, u), t)
                } else {
                    0
                },
        ));
    }
    assert forall|t: int| #[trigger] sb.tree_done(t) == sa.tree_done(t) by {}
}

/// A state that differs from one meeting the search's invariant only in
/// the handled successors meets it too.
proof fn lemma_inv_frame(sa: TarjanState, sb: TarjanState, n: nat)
    requires
        sa.inv(n),
        sb.val == sa.val,
        sb.lowest == sa.lowest,
        sb.preorder == sa.preorder,
        sb.seen_cnt == sa.seen_cnt,
        sb.back_edges_cnt == sa.back_edges_cnt,
        sb.on_path == sa.on_path,
        sb.stack == sa.stack,
        sb.in_stack == sa.in_stack,
        sb.components == sa.components,
        sb.block2comp == sa.block2comp,
    ensures
        sb.inv(n),
        sb.visited() == sa.visited(),
        sb.counted() == sa.counted(),
{
    assert(sb.visited() =~= sa.visited());
    assert(sb.pending() =~= sa.pending());
}

/// Marking block `c` on or off the path of the search keeps the search's
/// invariant, where a block marked on it is on the stack with every edge
/// into it counted as a back edge.
proof fn lemma_inv_path(sa: TarjanState, sb: TarjanState, n: nat, c: usize, on: bool)
    requires
        sa.inv(n),
        c < n,
        sa.path_counts(n),
        on ==> sa.preorder@[c as int] is Some && sa.back_edges_cnt@[c as int] == sa.seen_cnt@[c as int],
        sb.on_path@ == sa.on_path@.update(c as int, on),
        sb.val == sa.val,
        sb.lowest@.len() == sa.lowest@.len(),
        sb.preorder == sa.preorder,
        sb.seen_cnt == sa.seen_cnt,
        sb.back_edges_cnt == sa.back_edges_cnt,
        sb.stack == sa.stack,
        sb.in_stack == sa.in_stack,
        sb.components == sa.components,
        sb.block2comp == sa.block2comp,
    ensures
        sb.inv(n),
        sb.visited() == sa.visited(),
        sb.counted() == sa.counted(),
        sb.pending() == sa.pending(),
        sb.back_pending() == sa.back_pending(),
        sb.path_counts(n),
{
    reveal(TarjanState::path_counts);
    assert(sb.visited() =~= sa.visited());
    assert(sb.pending() =~= sa.pending());
    assert(sb.back_pending() =~= sa.back_pending());
}

/// A state that agrees with one whose back edge counts agree, and has
/// visited at least its blocks, has counts that agree too.
proof fn lemma_path_frame(sa: TarjanState, sb: TarjanState, n: nat)
    requires
        sa.path_counts(n),
        sb.back_edges_cnt == sa.back_edges_cnt,
        sb.seen_cnt == sa.seen_cnt,
        sb.on_path == sa.on_path,
        forall|b: int| 0 <= b < n && (#[trigger] sa.preorder@[b]) is Some ==> sb.preorder@[b] is Some,
    ensures
        sb.path_counts(n),
{
    reveal(TarjanState::path_counts);
    assert forall|b: int| 0 <= b < n && #[trigger] sb.on_path@[b] implies sb.preorder@[b] is Some && sb.back_edges_cnt@[b]
        == sb.seen_cnt@[b] by {
        assert(sa.on_path@[b]);
        assert(sa.preorder@[b] is Some);
    }
}

/// What agreeing counts say of one block: it counts no more back edges
/// than edges seen into it, and all of them when it is on the path.
proof fn lemma_path_block(st: TarjanState, n: nat, b: int)
    requires
        st.path_counts(n),
        0 <= b < n,
    ensures
        st.back_edges_cnt@[b] <= st.seen_cnt@[b],
        st.on_path@[b] ==> st.preorder@[b] is Some && st.back_edges_cnt@[b] == st.seen_cnt@[b],
{
    reveal(TarjanState::path_counts);
}

/// Seeing one more edge into `t`, and counting it as a back edge when `t`
/// is on the path, keeps the counts in agreement.
proof fn lemma_path_edge(sa: TarjanState, sb: TarjanState, n: nat, t: int)
    requires
        sa.path_counts(n),
        0 <= t < n,
        sa.seen_cnt@.len() == n,
        sa.back_edges_cnt@.len() == n,
        sa.seen_cnt@[t] < usize::MAX,
        sb.seen_cnt@ == sa.seen_cnt@.update(t, (sa.seen_cnt@[t] + 1) as usize),
        sb.back_edges_cnt@ == if sa.on_path@[t] {
            sa.back_edges_cnt@.update(t, (sa.back_edges_cnt@[t] + 1) as usize)
        } else {
            sa.back_edges_cnt@
        },
        sb.on_path == sa.on_path,
        sb.preorder == sa.preorder,
    ensures
        sb.path_counts(n),
{
    reveal(TarjanState::path_counts);
}

/// Before the search, with no back edge counted and no block on the path,
/// the counts agree.
proof fn lemma_path_init(st: TarjanState, n: nat)
    requires
        st.back_edges_cnt@.len() == n,
        st.on_path@.len() == n,
        forall|b: int| 0 <= b < n ==> #[trigger] st.back_edges_cnt@[b] == 0,
        forall|b: int| 0 <= b < n ==> !#[trigger] st.on_path@[b],
    ensures
        st.path_counts(n),
{
    reveal(TarjanState::path_counts);
}

/// When the search from `current` ends, no block above it on the stack is
/// on the path any more, and the path is as it was before the search.
proof fn lemma_off_path(st0: TarjanState, sa: TarjanState, sb: TarjanState, current: BasicBlockIdx, s0: int, n: nat)
    requires
        0 <= s0,
        st0.inv(n),
        st0.path_counts(n),
        sa.inv(n),
        current.0 < n,
        !st0.visited()[current.0 as int],
        sa.on_path@ == st0.on_path@.update(current.0 as int, true),
        sb.on_path@ == sa.on_path@.update(current.0 as int, false),
        sb.stack == sa.stack,
        forall|j: int| s0 <= j < sa.stack@.len() ==> !st0.visited()[(#[trigger] sa.stack@[j]).0 as int],
    ensures
        sb.on_path@ == st0.on_path@,
        forall|j: int| s0 <= j < sb.stack@.len() ==> !sb.on_path@[(#[trigger] sb.stack@[j]).0 as int],
{
    reveal(TarjanState::path_counts);
    assert(!st0.on_path@[current.0 as int]);
    assert(sb.on_path@ =~= st0.on_path@);
    assert forall|j: int| s0 <= j < sb.stack@.len() implies !sb.on_path@[(#[trigger] sb.stack@[j]).0 as int] by {
        let b = sa.stack@[j].0 as int;
        assert(b < n);
        if st0.on_path@[b] {
            assert(st0.preorder@[b] is Some);
        }
    }
}

/// The search from an already visited block changes nothing.
proof fn lemma_search_visited(adj: Seq<Seq<usize>>, n: nat, st0: TarjanState, current: usize, from: Option<(usize, int)>)
    requires
        tally_before(adj, n, st0, current, from),
        st0.preorder@[current as int] is Some,
    ensures
        tally_after(adj, n, st0, st0, current, from),
{
    reveal(tally_before);
    reveal(tally_after);
}

/// The counts agree at the start of the search.
proof fn lemma_search_init(adj: Seq<Seq<usize>>, n: nat, st: TarjanState, entry: usize)
    requires
        st.in_stack@.len() == n,
        st.prog@.len() == n,
        st.parent@.len() == n,
        forall|u: int| 0 <= u < n ==> #[trigger] st.prog@[u] == 0,
        forall|u: int| 0 <= u < n ==> (#[trigger] st.parent@[u]) is None,
        st.components@.len() == 0,
        forall|b: int| 0 <= b < n ==> !(#[trigger] st.in_stack@[b]),
    ensures
        tally_before(adj, n, st, entry, None),
{
    reveal(tally_before);
    reveal(TarjanState::tally);
}

/// After the search, each component counts the edges inside it less one
/// per block but its entry.
proof fn lemma_search_counts(adj: Seq<Seq<usize>>, n: nat, st0: TarjanState, st: TarjanState, current: usize, from: Option<(usize, int)>)
    requires
        tally_after(adj, n, st0, st, current, from),
    ensures
        forall|c: int|
            0 <= c < st.components@.len() ==> edges_into(adj, (#[trigger] st.components@[c]).vertices@, st.components@[c].entry.0)
                <= st.components@[c].num_back_edges && st.components@[c].num_back_edges <= inner_edges(
                adj,
                st.components@[c].vertices@,
            ) - st.components@[c].vertices@.len() + 1,
{
    reveal(tally_after);
    reveal(TarjanState::tally);
}

/// Visiting `c` starts its search.
#[verifier::rlimit(40)]
proof fn lemma_search_visit(adj: Seq<Seq<usize>>, n: nat, st0: TarjanState, st: TarjanState, c: usize, from: Option<(usize, int)>)
    requires
        adj.len() == n,
        crate::cfg::edges_in_range(adj),
        st0.inv(n),
        tally_before(adj, n, st0, c, from),
        c < n,
        st0.preorder@[c as int] is None,
        st.preorder@ == st0.preorder@.update(c as int, Some(st0.val)),
        st.in_stack@ == st0.in_stack@.update(c as int, true),
        st.prog == st0.prog,
        st.parent@ == st0.parent@.update(c as int, from),
        st.seen_cnt == st0.seen_cnt,
        st.components == st0.components,
    ensures
        tally_during(adj, n, st0, st, c, from, 0),
{
    reveal(tally_before);
    reveal(tally_during);
    reveal(TarjanState::tally);
    lemma_tally_enter(adj, n, st0, st, c, from);
    let ci = c as int;
    assert(st.prog@[ci] == 0);
    assert forall|u: int| 0 <= u < n && (#[trigger] st0.preorder@[u]) is Some implies st.prog@[u] == st0.prog@[u] && st.parent@[u]
        == st0.parent@[u] by {
        assert(u != ci);
    }
    assert forall|u: int|
        0 <= u < n && (#[trigger] st.preorder@[u]) is Some && st0.preorder@[u] is None && u != c implies st.prog@[u] == adj[u].len()
            && st.parent@[u] is Some && st0.preorder@[(st.parent@[u]->0).0 as int] is None by {
        assert(st.preorder@[u] == st0.preorder@[u]);
    }
    assert forall|t: int|
        0 <= t < n && (#[trigger] st.preorder@[t]) is Some && st.parent@[t] is Some && (st.parent@[t]->0).0 == c implies (st.parent@[
            t
        ]->0).1 < 0 by {
        if t == ci {
            let e = from->0;
            assert(st0.in_stack@[e.0 as int]);
            assert(st0.preorder@[e.0 as int] is Some);
        } else {
            assert(st.preorder@[t] == st0.preorder@[t]);
            assert(st.parent@[t] == st0.parent@[t]);
            let e = st0.parent@[t]->0;
            assert(st0.preorder@[e.0 as int] is Some);
        }
    }
}

/// Handling the successor at position `i` of `c` when it is already
/// visited, counted as a back edge when it is on the stack.
#[verifier::rlimit(40)]
proof fn lemma_search_handled(
    adj: Seq<Seq<usize>>,
    n: nat,
    st0: TarjanState,
    sa: TarjanState,
    sb: TarjanState,
    c: usize,
    from: Option<(usize, int)>,
    i: int,
    counted: bool,
)
    requires
        adj.len() == n,
        n < usize::MAX,
        crate::cfg::edges_in_range(adj),
        sa.inv(n),
        tally_during(adj, n, st0, sa, c, from, i),
        c < n,
        sa.in_stack@[c as int],
        0 <= i < adj[c as int].len(),
        sa.preorder@[adj[c as int][i] as int] is Some,
        counted == sa.in_stack@[adj[c as int][i] as int],
        sb.prog@ == sa.prog@.update(c as int, i + 1),
        sb.seen_cnt@ == if counted {
            sa.seen_cnt@.update(adj[c as int][i] as int, (sa.seen_cnt@[adj[c as int][i] as int] + 1) as usize)
        } else {
            sa.seen_cnt@
        },
        counted ==> sa.seen_cnt@[adj[c as int][i] as int] < usize::MAX,
        sb.preorder == sa.preorder,
        sb.in_stack == sa.in_stack,
        sb.parent == sa.parent,
        sb.components == sa.components,
    ensures
        tally_during(adj, n, st0, sb, c, from, i + 1),
{
    reveal(tally_during);
    reveal(TarjanState::tally);
    let ci = c as int;
    let succ = adj[ci][i];
    assert(succ < n);
    if counted {
        assert(sa.preorder@[succ as int] is Some);
        if sa.parent@[succ as int] is Some && (sa.parent@[succ as int]->0).0 == c {
            assert((sa.parent@[succ as int]->0).1 < i);
        }
    }
    lemma_tally_step(adj, n, sa, sb, c, i, counted);
    assert(sb.prog@[ci] == i + 1);
    assert forall|u: int| 0 <= u < n && (#[trigger] st0.preorder@[u]) is Some implies sb.prog@[u] == st0.prog@[u] && sb.parent@[u]
        == st0.parent@[u] by {
        assert(u != ci);
        assert(sb.prog@[u] == sa.prog@[u]);
    }
    assert forall|u: int|
        0 <= u < n && (#[trigger] sb.preorder@[u]) is Some && st0.preorder@[u] is None && u != c implies sb.prog@[u] == adj[u].len()
            && sb.parent@[u] is Some && st0.preorder@[(sb.parent@[u]->0).0 as int] is None by {
        assert(sa.preorder@[u] is Some);
        assert(sb.prog@[u] == sa.prog@[u]);
    }
    assert forall|t: int|
        0 <= t < n && (#[trigger] sb.preorder@[t]) is Some && sb.parent@[t] is Some && (sb.parent@[t]->0).0 == c implies (sb.parent@[
            t
        ]->0).1 < i + 1 by {
        assert(sa.preorder@[t] is Some);
    }
}

/// The next edge from `c` leads to an unvisited block: its search may
/// begin.
proof fn lemma_search_descend(
    adj: Seq<Seq<usize>>,
    n: nat,
    st0: TarjanState,
    st: TarjanState,
    c: usize,
    from: Option<(usize, int)>,
    i: int,
    succ: usize,
)
    requires
        tally_during(adj, n, st0, st, c, from, i),
        c < n,
        st.in_stack@[c as int],
        0 <= i < adj[c as int].len(),
        adj[c as int][i] == succ,
    ensures
        tally_before(adj, n, st, succ, Some((c, i))),
{
    reveal(tally_during);
    reveal(tally_before);
}

/// After the search from the successor at position `i` of `c`, handling
/// that edge continues the search from `c`.
#[verifier::rlimit(60)]
proof fn lemma_search_ascend(
    adj: Seq<Seq<usize>>,
    n: nat,
    st0: TarjanState,
    st1: TarjanState,
    st2: TarjanState,
    st3: TarjanState,
    c: usize,
    from: Option<(usize, int)>,
    i: int,
    succ: usize,
)
    requires
        adj.len() == n,
        n < usize::MAX,
        crate::cfg::edges_in_range(adj),
        st2.inv(n),
        tally_during(adj, n, st0, st1, c, from, i),
        tally_after(adj, n, st1, st2, succ, Some((c, i))),
        c < n,
        succ < n,
        0 <= i < adj[c as int].len(),
        adj[c as int][i] == succ,
        st1.preorder@[c as int] is Some,
        st1.preorder@[succ as int] is None,
        st2.in_stack@[c as int],
        st2.preorder@[succ as int] is Some,
        forall|b: int| 0 <= b < n && (#[trigger] st0.preorder@[b]) is Some ==> st1.preorder@[b] is Some,
        forall|b: int| 0 <= b < n && (#[trigger] st1.preorder@[b]) is Some ==> st2.preorder@[b] is Some,
        st3.prog@ == st2.prog@.update(c as int, i + 1),
        st3.preorder == st2.preorder,
        st3.in_stack == st2.in_stack,
        st3.parent == st2.parent,
        st3.seen_cnt == st2.seen_cnt,
        st3.components == st2.components,
    ensures
        tally_during(adj, n, st0, st3, c, from, i + 1),
{
    reveal(tally_during);
    reveal(tally_after);
    reveal(TarjanState::tally);
    let ci = c as int;
    assert(st2.prog@[ci] == i);
    assert(st2.parent@[succ as int] == Some((c, i)));
    lemma_tally_step(adj, n, st2, st3, c, i, false);
    assert(st0.preorder@[ci] is None);
    assert forall|u: int| 0 <= u < n && (#[trigger] st0.preorder@[u]) is Some implies st3.prog@[u] == st0.prog@[u] && st3.parent@[u]
        == st0.parent@[u] by {
        assert(st1.preorder@[u] is Some);
        assert(u != ci);
    }
    assert forall|u: int|
        0 <= u < n && (#[trigger] st3.preorder@[u]) is Some && st0.preorder@[u] is None && u != c implies st3.prog@[u] == adj[u].len()
            && st3.parent@[u] is Some && st0.preorder@[(st3.parent@[u]->0).0 as int] is None by {
        if st1.preorder@[u] is None {
            if u != succ {
                let e = (st3.parent@[u]->0).0 as int;
                assert(st1.preorder@[e] is None);
                if st0.preorder@[e] is Some {
                    assert(st1.preorder@[e] is Some);
                }
            }
        } else {
            assert(st3.prog@[u] == st2.prog@[u]);
        }
    }
    assert forall|t: int|
        0 <= t < n && (#[trigger] st3.preorder@[t]) is Some && st3.parent@[t] is Some && (st3.parent@[t]->0).0 == c implies (st3.parent@[
            t
        ]->0).1 < i + 1 by {
        if st1.preorder@[t] is None && t != succ {
            assert(st2.preorder@[t] is Some);
        }
    }
}

/// A search state that differs only in what the counts do not read keeps
/// them.
proof fn lemma_search_frame(
    adj: Seq<Seq<usize>>,
    n: nat,
    st0: TarjanState,
    sa: TarjanState,
    sb: TarjanState,
    c: usize,
    from: Option<(usize, int)>,
    i: int,
)
    requires
        tally_during(adj, n, st0, sa, c, from, i),
        sb.preorder == sa.preorder,
        sb.in_stack == sa.in_stack,
        sb.prog == sa.prog,
        sb.parent == sa.parent,
        sb.seen_cnt == sa.seen_cnt,
        sb.components == sa.components,
    ensures
        tally_during(adj, n, st0, sb, c, from, i),
        sb.tally(adj, n),
{
    reveal(tally_during);
    lemma_tally_frame(adj, n, sa, sb);
}

/// What the search from `c`, handling its successor at position `i`, has
/// kept: blocks visited before keep their progress, and their handled edges
/// lead to blocks visited before; the others visited since are done and
/// were first reached from blocks visited since; `c` was first reached
/// through `from`, the next edge of a block on the stack before.
proof fn lemma_during_facts(
    adj: Seq<Seq<usize>>,
    n: nat,
    st0: TarjanState,
    st: TarjanState,
    c: usize,
    from: Option<(usize, int)>,
    i: int,
)
    requires
        tally_during(adj, n, st0, st, c, from, i),
    ensures
        st.prog@[c as int] == i,
        st.parent@[c as int] == from,
        from is Some ==> {
            let e = from->0;
            &&& e.0 < n
            &&& st0.in_stack@[e.0 as int]
            &&& st0.prog@[e.0 as int] == e.1
        },
        forall|u: int| 0 <= u < n && (#[trigger] st0.preorder@[u]) is Some ==> st.prog@[u] == st0.prog@[u],
        forall|u: int| 0 <= u < n ==> #[trigger] st0.prog@[u] <= adj[u].len(),
        forall|u: int, k: int|
            0 <= u < n && st0.preorder@[u] is Some && 0 <= k < st0.prog@[u] ==> st0.preorder@[#[trigger] adj[u][k] as int] is Some,
        forall|u: int|
            0 <= u < n && (#[trigger] st.preorder@[u]) is Some && st0.preorder@[u] is None && u != c ==> st.prog@[u] == adj[u].len()
                && st.parent@[u] is Some && st0.preorder@[(st.parent@[u]->0).0 as int] is None && (st.parent@[u]->0).0 < n,
{
    reveal(tally_during);
    reveal(tally_before);
    reveal(TarjanState::tally);
}

/// When `current` closes a component, the component is ready to be
/// counted.
#[verifier::rlimit(60)]
proof fn lemma_search_pop_ready(
    adj: Seq<Seq<usize>>,
    n: nat,
    st0: TarjanState,
    st: TarjanState,
    current: BasicBlockIdx,
    from: Option<(usize, int)>,
    s0: int,
)
    requires
        adj.len() == n,
        st0.inv(n),
        st.inv(n),
        current.0 < n,
        tally_during(adj, n, st0, st, current.0, from, adj[current.0 as int].len() as int),
        s0 == st0.stack@.len(),
        s0 < st.stack@.len(),
        st.stack@.subrange(0, s0 + 1) == st0.stack@.push(current),
        forall|j: int| s0 <= j < st.stack@.len() ==> !st0.visited()[(#[trigger] st.stack@[j]).0 as int],
        forall|v: int| 0 <= v < n && #[trigger] st.visited()[v] && !st0.visited()[v] ==> st.preorder@[v]->0 >= st0.val,
        forall|b: int| 0 <= b < n && (#[trigger] st0.preorder@[b]) is Some ==> st.preorder@[b] == st0.preorder@[b],
        crate::cfg::edges_in_range(adj),
    ensures
        pop_ready(adj, n, st, current.0, s0, st0.visited(), st0.val as int),
{
    reveal(pop_ready);
    lemma_during_facts(adj, n, st0, st, current.0, from, adj[current.0 as int].len() as int);
    let vis0 = st0.visited();
    let start = st0.val as int;
    assert forall|j: int| 0 <= j < st.stack@.len() implies (vis0[(#[trigger] st.stack@[j]).0 as int] <==> j < s0) by {
        if j < s0 {
            assert(st.stack@.subrange(0, s0 + 1)[j] == st.stack@[j]);
            assert(st0.stack@.push(current)[j] == st0.stack@[j]);
            assert(st.stack@[j] == st0.stack@[j]);
            assert(st0.stack@.contains(st0.stack@[j]));
            assert(st0.in_stack@[st0.stack@[j].0 as int]);
        }
    }
    assert forall|u: int| 0 <= u < n && #[trigger] st.in_stack@[u] implies (vis0[u] <==> st.preorder@[u]->0 < start) by {
        assert(st.preorder@[u] is Some);
        assert(st.visited()[u]);
        if vis0[u] {
            assert(st0.preorder@[u] is Some);
        }
    }
    assert forall|u: int, k: int|
        0 <= u < n && st.in_stack@[u] && vis0[u] && 0 <= k < st.prog@[u] implies vis0[#[trigger] adj[u][k] as int] by {
        assert(st0.preorder@[u] is Some);
        assert(st.prog@[u] == st0.prog@[u]);
        assert(st0.prog@[u] <= adj[u].len());
        assert(adj[u][k] < n);
        assert(st0.preorder@[adj[u][k] as int] is Some);
    }
    assert forall|u: int| 0 <= u < n && #[trigger] st.in_stack@[u] && !vis0[u] implies st.prog@[u] == adj[u].len() by {
        assert(st.preorder@[u] is Some);
        assert(st0.preorder@[u] is None);
        if u != current.0 {
            assert(st.prog@[u] == adj[u].len());
        }
    }
    assert forall|u: int|
        0 <= u < n && #[trigger] st.in_stack@[u] && !vis0[u] && u != current.0 implies st.parent@[u] is Some && !vis0[(st.parent@[
            u
        ]->0).0 as int] by {
        assert(st.preorder@[u] is Some);
        assert(st0.preorder@[u] is None);
    }
    if from is Some {
        let e = from->0;
        assert(st0.preorder@[e.0 as int] is Some);
        assert(st.prog@[e.0 as int] == st0.prog@[e.0 as int]);
    }
}

/// The search from `current` ends with the counts in agreement, whether or
/// not it popped a component.
proof fn lemma_search_end(
    adj: Seq<Seq<usize>>,
    n: nat,
    st0: TarjanState,
    sm: TarjanState,
    sf: TarjanState,
    c: usize,
    from: Option<(usize, int)>,
    popped: bool,
)
    requires
        c < n,
        tally_during(adj, n, st0, sm, c, from, adj[c as int].len() as int),
        popped ==> sf.tally(adj, n),
        !popped ==> sf == sm,
        sf.prog == sm.prog,
        sf.parent == sm.parent,
        sf.preorder == sm.preorder,
    ensures
        tally_after(adj, n, st0, sf, c, from),
{
    reveal(tally_during);
    reveal(tally_after);
}

/// Pops the stack down to position `s0`, where `current` stands: the popped
/// blocks form a new component entered through `current`.
#[verifier::rlimit(100)]
#[verifier::spinoff_prover]
fn pop_component(
    st: &mut TarjanState,
    current: BasicBlockIdx,
    s0: usize,
    Ghost(n): Ghost<nat>,
    Ghost(adj): Ghost<Seq<Seq<usize>>>,
    Ghost(vis0): Ghost<Seq<bool>>,
    Ghost(start): Ghost<int>,
)
    requires
        old(st).inv(n),
        s0 < old(st).stack@.len(),
        old(st).stack@[s0 as int] == current,
        old(st).components@.len() < usize::MAX,
        2 * n < usize::MAX,
        adj.len() == n,
        crate::cfg::edges_in_range(adj),
        components_sound(adj, *old(st)),
        forall|i: int|
            s0 <= i < old(st).stack@.len() ==> reachable(adj, current.0, #[trigger] old(st).stack@[i].0) && reachable(
                adj,
                old(st).stack@[i].0,
                current.0,
            ),
        forall|i: int, k: int|
            s0 <= i < old(st).stack@.len() && 0 <= k < adj[old(st).stack@[i].0 as int].len() ==> {
                let t = #[trigger] adj[#[trigger] old(st).stack@[i].0 as int][k];
                old(st).block2comp@[t as int] is Some || exists|j: int| s0 <= j < old(st).stack@.len() && old(st).stack@[j].0 == t
            },
        old(st).tally(adj, n),
        pop_ready(adj, n, *old(st), current.0, s0 as int, vis0, start),
        forall|j: int| s0 <= j < old(st).stack@.len() ==> !old(st).on_path@[(#[trigger] old(st).stack@[j]).0 as int],
        old(st).back_edges_cnt@[current.0 as int] == old(st).seen_cnt@[current.0 as int],
        old(st).path_counts(n),
    ensures
        final(st).path_counts(n),
        final(st).on_path == old(st).on_path,
        final(st).back_edges_cnt == old(st).back_edges_cnt,
        final(st).tally(adj, n),
        final(st).prog == old(st).prog,
        final(st).parent == old(st).parent,
        components_sound(adj, *final(st)),
        final(st).inv(n),
        final(st).stack@ == old(st).stack@.take(s0 as int),
        final(st).visited() == old(st).visited(),
        final(st).preorder == old(st).preorder,
        final(st).lowest == old(st).lowest,
        final(st).val == old(st).val,
        final(st).counted() <= old(st).counted(),
        final(st).components@.len() == old(st).components@.len() + 1,
        final(st).components@[old(st).components@.len() as int].entry == current,
{
    let ghost st0 = *st;
    let ghost full = st.stack@;
    let ghost p0 = sum_ints(st.pending());
    let ghost q0 = sum_ints(st.back_pending());
    let ghost mut seen_sum: int = 0;
    let mut vertices: Vec<BasicBlockIdx> = Vec::new();
    let mut num_back_edges: usize = 0;
    proof {
        assert(vertices@ =~= popped_order(full, full.len() as int));
        assert forall|k: int| 0 <= k < n implies #[trigger] st.pending()[k] >= 0 by {}
        lemma_sum_ints_nonneg(st.pending());
        lemma_sum_ints_nonneg(Seq::new(st.components@.len(), |c: int| st.components@[c].num_back_edges as int));
    }
    while st.stack.len() > s0
        invariant
            s0 < full.len(),
            full[s0 as int] == current,
            st.stack@ == full.take(st.stack@.len() as int),
            s0 <= st.stack@.len() <= full.len(),
            vertices@ == popped_order(full, st.stack@.len() as int),
            seen_sum + sum_ints(st.pending()) == p0,
            num_back_edges + sum_ints(st.back_pending()) == q0,
            num_back_edges <= seen_sum,
            p0 <= st0.counted() <= 2 * st0.val,
            2 * n < usize::MAX,
            st0.inv(n),
            st0.path_counts(n),
            full == st0.stack@,
            st.preorder == st0.preorder,
            st.lowest == st0.lowest,
            st.val == st0.val,
            st.seen_cnt == st0.seen_cnt,
            st.back_edges_cnt == st0.back_edges_cnt,
            st.on_path == st0.on_path,
            st.components == st0.components,
            st.block2comp == st0.block2comp,
            st.prog == st0.prog,
            st.parent == st0.parent,
            st.in_stack@.len() == n,
            forall|b: int| 0 <= b < n ==> (#[trigger] st.in_stack@[b] <==> st.stack@.contains(BasicBlockIdx(b as usize))),
            forall|k: int| 0 <= k < n ==> #[trigger] st.pending()[k] >= 0,
        decreases st.stack.len(),
    {
        let len = st.stack.len();
        let ghost pend0 = st.pending();
        let ghost bpend0 = st.back_pending();
        let v = st.stack.pop().unwrap();
        proof {
            assert(v == full[len - 1]);
            assert(v.0 < n);
            assert(st0.in_stack@[v.0 as int]);
            assert(pend0[v.0 as int] == st.seen_cnt@[v.0 as int]);
            lemma_sum_ints_nonneg_le(pend0, v.0 as int);
        }
        vertices.push(v);
        proof {
            lemma_path_block(st0, n, v.0 as int);
            assert(st.back_edges_cnt@[v.0 as int] <= st.seen_cnt@[v.0 as int]);
            assert(bpend0[v.0 as int] == st.back_edges_cnt@[v.0 as int]);
        }
        num_back_edges = num_back_edges + st.back_edges_cnt[v.0];
        proof {
            seen_sum = seen_sum + st.seen_cnt@[v.0 as int];
        }
        st.in_stack.set(v.0, false);
        proof {
            assert(st.back_pending() =~= bpend0.update(v.0 as int, 0));
            lemma_sum_ints_update(bpend0, v.0 as int, 0);
            assert(st.stack@ =~= full.take(len - 1));
            assert(vertices@ =~= popped_order(full, len - 1));
            assert(st.pending() =~= pend0.update(v.0 as int, 0));
            lemma_sum_ints_update(pend0, v.0 as int, 0);
            assert forall|b: int| 0 <= b < n implies (#[trigger] st.in_stack@[b] <==> st.stack@.contains(BasicBlockIdx(b as usize))) by {
                if b == v.0 {
                    if st.stack@.contains(v) {
                        let j = choose|j: int| 0 <= j < st.stack@.len() && st.stack@[j] == v;
                        assert(full[j] == full[len - 1]);
                    }
                } else {
                    if full.take(len as int).contains(BasicBlockIdx(b as usize)) {
                        let j = choose|j: int| 0 <= j < len && full.take(len as int)[j] == BasicBlockIdx(b as usize);
                        assert(j != len - 1);
                        assert(st.stack@[j] == BasicBlockIdx(b as usize));
                    }
                    if st.stack@.contains(BasicBlockIdx(b as usize)) {
                        let j = choose|j: int| 0 <= j < st.stack@.len() && st.stack@[j] == BasicBlockIdx(b as usize);
                        assert(full.take(len as int)[j] == BasicBlockIdx(b as usize));
                    }
                }
            }
        }
    }
    let c = st.components.len();
    let ghost b2c0 = st.block2comp@;
    let ghost st1 = *st;
    proof {
        assert(st.stack@.len() == s0);
    }
    let mut k: usize = 0;
    while k < vertices.len()
        invariant
            k <= vertices@.len(),
            st.block2comp@.len() == n,
            vertices@ == popped_order(full, s0 as int),
            forall|j: int| 0 <= j < vertices@.len() ==> (#[trigger] vertices@[j]).0 < n,
            forall|b: int|
                0 <= b < n ==> #[trigger] st.block2comp@[b] == if (exists|j: int| 0 <= j < k && vertices@[j].0 == b) {
                    Some(c)
                } else {
                    b2c0[b]
                },
            st.components == st0.components,
            c == st0.components@.len(),
            full == st0.stack@,
            st0.inv(n),
            s0 < full.len(),
            st.stack == st1.stack,
            st.preorder == st1.preorder,
            st.lowest == st1.lowest,
            st.val == st1.val,
            st.seen_cnt == st1.seen_cnt,
            st.in_stack == st1.in_stack,
            st.back_edges_cnt == st1.back_edges_cnt,
            st.on_path == st1.on_path,
            st.components == st1.components,
            st.prog == st1.prog,
            st.parent == st1.parent,
        decreases vertices.len() - k,
    {
        let v = vertices[k];
        proof {
            assert(v == full[full.len() - 1 - k]);
        }
        st.block2comp.set(v.0, Some(c));
        proof {
            assert forall|b: int| 0 <= b < n implies #[trigger] st.block2comp@[b] == if (exists|j: int| 0 <= j < k + 1 && vertices@[j].0 == b) {
                Some(c)
            } else {
                b2c0[b]
            } by {
                if b == v.0 {
                    assert(vertices@[k as int].0 == b);
                } else {
                    if exists|j: int| 0 <= j < k + 1 && vertices@[j].0 == b {
                        let j = choose|j: int| 0 <= j < k + 1 && vertices@[j].0 == b;
                        assert(j != k);
                    }
                }
            }
        }
        k = k + 1;
    }
    let ghost found0 = Seq::new(st.components@.len(), |x: int| st.components@[x].num_back_edges as int);
    st.components.push(Component { vertices, entry: current, num_back_edges });
    proof {
        let comps = st.components@;
        let verts = comps[c as int].vertices@;
        assert(verts == popped_order(full, s0 as int));
        assert(verts[verts.len() - 1] == current);
        lemma_sum_new_push(|x: int| st.components@[x].num_back_edges as int, c as nat);
        assert(Seq::new(c as nat, |x: int| st.components@[x].num_back_edges as int) =~= found0);
        assert(st.found_back_edges() == st0.found_back_edges() + num_back_edges);
        assert(st.pending() == st1.pending());
        assert(st.back_pending() == st1.back_pending());
        assert(st.counted() <= st0.counted());
        let in_p = |b: int| exists|j: int| 0 <= j < verts.len() && verts[j].0 == b;
        assert forall|b: int| 0 <= b < n && #[trigger] in_p(b) implies st0.in_stack@[b] && !st.in_stack@[b] by {
            let j = choose|j: int| 0 <= j < verts.len() && verts[j].0 == b;
            let i = full.len() - 1 - j;
            assert(verts[j] == full[i]);
            assert(full.contains(BasicBlockIdx(b as usize)));
            if st.stack@.contains(BasicBlockIdx(b as usize)) {
                let x = choose|x: int| 0 <= x < st.stack@.len() && st.stack@[x] == BasicBlockIdx(b as usize);
                assert(full[x] == full[i]);
            }
        }
        assert forall|i: int| 0 <= i < st.stack@.len() implies (#[trigger] st.stack@[i]).0 < n by {
            assert(st.stack@[i] == full[i]);
        }
        assert forall|i: int, j: int| 0 <= i < j < st.stack@.len() implies (#[trigger] st.stack@[i]) != (#[trigger] st.stack@[j]) by {
            assert(st.stack@[i] == full[i] && st.stack@[j] == full[j]);
        }
        assert forall|b: int| 0 <= b < n && #[trigger] st.in_stack@[b] implies st.preorder@[b] is Some by {
            assert(st.stack@.contains(BasicBlockIdx(b as usize)));
            let x = choose|x: int| 0 <= x < st.stack@.len() && st.stack@[x] == BasicBlockIdx(b as usize);
            assert(full[x] == BasicBlockIdx(b as usize));
            assert(st0.stack@.contains(BasicBlockIdx(b as usize)));
            assert(st0.in_stack@[b]);
            assert(st0.preorder@[b] is Some);
        }
        assert forall|b: int| 0 <= b < n && (#[trigger] st.block2comp@[b]) is Some implies {
            &&& st.preorder@[b] is Some
            &&& !st.in_stack@[b]
            &&& st.block2comp@[b]->0 < st.components@.len()
            &&& st.components@[st.block2comp@[b]->0 as int].vertices@.contains(BasicBlockIdx(b as usize))
        } by {
            if in_p(b) {
                let j = choose|j: int| 0 <= j < verts.len() && verts[j].0 == b;
                assert(verts[j] == BasicBlockIdx(b as usize));
                assert(st0.in_stack@[b]);
            } else {
                assert(st.block2comp@[b] == b2c0[b]);
                assert(st0.block2comp@[b] is Some);
                assert(!st0.in_stack@[b]);
                assert(!st.in_stack@[b]);
                assert(st.components@[b2c0[b]->0 as int] == st0.components@[b2c0[b]->0 as int]);
            }
        }
        assert forall|b: int| 0 <= b < n && (#[trigger] st.preorder@[b]) is Some implies st.in_stack@[b] || st.block2comp@[b] is Some by {
            if !st.in_stack@[b] && st0.in_stack@[b] {
                assert(st0.stack@.contains(BasicBlockIdx(b as usize)));
                let x = choose|x: int| 0 <= x < full.len() && full[x] == BasicBlockIdx(b as usize);
                if x < s0 {
                    assert(st.stack@[x] == full[x]);
                }
                assert(verts[full.len() - 1 - x] == full[x]);
                assert(in_p(b));
            }
        }
        assert forall|cc: int, kk: int| 0 <= cc < st.components@.len() && 0 <= kk < st.components@[cc].vertices@.len() implies {
            let v = #[trigger] st.components@[cc].vertices@[kk];
            &&& v.0 < n
            &&& st.block2comp@[v.0 as int] == Some(cc as usize)
        } by {
            let v = st.components@[cc].vertices@[kk];
            if cc < c {
                assert(st.components@[cc] == st0.components@[cc]);
                assert(st0.block2comp@[v.0 as int] == Some(cc as usize));
                if in_p(v.0 as int) {
                    assert(st0.in_stack@[v.0 as int]);
                }
            } else {
                assert(verts[kk] == v);
                assert(in_p(v.0 as int));
            }
        }
        assert forall|cc: int| 0 <= cc < st.components@.len() implies (#[trigger] st.components@[cc]).vertices@.contains(st.components@[cc].entry) by {
            if cc < c {
                assert(st.components@[cc] == st0.components@[cc]);
            } else {
                assert(verts[full.len() - 1 - s0] == current);
            }
        }
        assert forall|cc: int, i: int, j: int|
            0 <= cc < st.components@.len() && 0 <= i < j < st.components@[cc].vertices@.len() implies (#[trigger] st.components@[cc].vertices@[i])
                != (#[trigger] st.components@[cc].vertices@[j]) by {
            if cc < c {
                assert(st.components@[cc] == st0.components@[cc]);
            } else {
                assert(verts[i] == full[full.len() - 1 - i]);
                assert(verts[j] == full[full.len() - 1 - j]);
            }
        }
        lemma_pop_sound(st0, *st, current, s0 as int, n, adj);
        assert(st.components@[c as int].num_back_edges == num_back_edges);
        assert forall|b: int| 0 <= b < n && (#[trigger] st0.preorder@[b]) is Some implies st.preorder@[b] is Some by {}
        lemma_path_frame(st0, *st, n);
        lemma_pop_tally(adj, n, st0, *st, current, s0 as int, vis0, start);
    }
}

/// The component popped off the stack down to `s0` keeps the found
/// components sound.
#[verifier::rlimit(40)]
proof fn lemma_pop_sound(st0: TarjanState, st: TarjanState, current: BasicBlockIdx, s0: int, n: nat, adj: Seq<Seq<usize>>)
    requires
        st0.inv(n),
        crate::cfg::edges_in_range(adj),
        0 <= s0 < st0.stack@.len(),
        adj.len() == n,
        components_sound(adj, st0),
        forall|i: int|
            s0 <= i < st0.stack@.len() ==> reachable(adj, current.0, #[trigger] st0.stack@[i].0) && reachable(
                adj,
                st0.stack@[i].0,
                current.0,
            ),
        forall|i: int, k: int|
            s0 <= i < st0.stack@.len() && 0 <= k < adj[st0.stack@[i].0 as int].len() ==> {
                let t = #[trigger] adj[#[trigger] st0.stack@[i].0 as int][k];
                st0.block2comp@[t as int] is Some || exists|j: int| s0 <= j < st0.stack@.len() && st0.stack@[j].0 == t
            },
        st.components@.len() == st0.components@.len() + 1,
        forall|cc: int| 0 <= cc < st0.components@.len() ==> st.components@[cc] == st0.components@[cc],
        st.components@[st0.components@.len() as int].entry == current,
        st.components@[st0.components@.len() as int].vertices@ == popped_order(st0.stack@, s0),
        st.block2comp@.len() == n,
        forall|b: int|
            0 <= b < n ==> #[trigger] st.block2comp@[b] == if (exists|j: int|
                0 <= j < popped_order(st0.stack@, s0).len() && popped_order(st0.stack@, s0)[j].0 == b) {
                Some(st0.components@.len() as usize)
            } else {
                st0.block2comp@[b]
            },
    ensures
        components_sound(adj, st),
{
    let c = st0.components@.len() as int;
    let full = st0.stack@;
    let verts = popped_order(full, s0);
    let in_p = |b: int| exists|j: int| 0 <= j < verts.len() && verts[j].0 == b;
    assert forall|b: int| 0 <= b < n && #[trigger] in_p(b) implies st0.in_stack@[b] && (exists|j: int| s0 <= j < full.len() && full[j].0 == b) by {
        let j = choose|j: int| 0 <= j < verts.len() && verts[j].0 == b;
        assert(verts[j] == full[full.len() - 1 - j]);
        assert(full.contains(BasicBlockIdx(b as usize)));
    }
    assert forall|b: int| 0 <= b < n && (exists|j: int| s0 <= j < full.len() && full[j].0 == b) implies #[trigger] in_p(b) by {
        let j = choose|j: int| s0 <= j < full.len() && full[j].0 == b;
        assert(verts[full.len() - 1 - j] == full[j]);
    }
    assert forall|cc: int, k: int|
        0 <= cc < st.components@.len() && 0 <= k < st.components@[cc].vertices@.len() implies {
            let v = #[trigger] st.components@[cc].vertices@[k];
            &&& reachable(adj, st.components@[cc].entry.0, v.0)
            &&& reachable(adj, v.0, st.components@[cc].entry.0)
        } by {
        if cc < c {
            assert(st.components@[cc] == st0.components@[cc]);
        } else {
            assert(st.components@[cc].vertices@[k] == full[full.len() - 1 - k]);
        }
    }
    assert forall|b: int, k: int|
        #![trigger st.block2comp@[b], adj[b][k]]
        0 <= b < adj.len() && st.block2comp@[b] is Some && 0 <= k < adj[b].len() implies {
            &&& st.block2comp@[adj[b][k] as int] is Some
            &&& st.block2comp@[adj[b][k] as int]->0 <= st.block2comp@[b]->0
        } by {
        let t = adj[b][k];
        assert(t < n);
        if in_p(b) {
            let i = choose|j: int| s0 <= j < full.len() && full[j].0 == b;
            assert(adj[full[i].0 as int][k] == t);
            if st0.block2comp@[t as int] is Some {
                assert(!st0.in_stack@[t as int]);
                if in_p(t as int) {
                    assert(st0.in_stack@[t as int]);
                }
                assert(st.block2comp@[t as int] == st0.block2comp@[t as int]);
                assert(st0.block2comp@[t as int]->0 < c);
            } else {
                assert(in_p(t as int));
            }
        } else {
            assert(st.block2comp@[b] == st0.block2comp@[b]);
            assert(st0.block2comp@[b] is Some);
            assert(st0.block2comp@[t as int] is Some);
            if in_p(t as int) {
                assert(st0.in_stack@[t as int]);
            }
            assert(st.block2comp@[t as int] == st0.block2comp@[t as int]);
        }
    }
}

} // verus!

verus! {

proof fn lemma_count_unvisited_set(v: Seq<bool>, i: int)
    requires
        0 <= i < v.len(),
        !v[i],
    ensures
        count_unvisited(v.update(i, true)) + 1 == count_unvisited(v),
    decreases v.len(),
{
    if i < v.len() - 1 {
        lemma_count_unvisited_set(v.drop_last(), i);
        assert(v.update(i, true).drop_last() =~= v.drop_last().update(i, true));
    } else {
        assert(v.update(i, true).drop_last() =~= v.drop_last());
    }
}

/// When the lowest number `current` reaches is its own, the blocks above it
/// on the stack form a closed, strongly connected set: each reaches
/// `current` and back, and each edge from them leads into them or into a
/// component found before.
proof fn lemma_closing_component(
    adj: Seq<Seq<usize>>,
    n: nat,
    st0: TarjanState,
    st: TarjanState,
    current: BasicBlockIdx,
    s0: int,
    start: int,
)
    requires
        adj.len() == n,
        crate::cfg::edges_in_range(adj),
        st0.inv(n),
        st.inv(n),
        start == st0.val,
        current.0 < n,
        0 <= s0 < st.stack@.len(),
        s0 == st0.stack@.len(),
        st.stack@.subrange(0, s0 + 1) == st0.stack@.push(current),
        forall|j: int|
            s0 <= j < st.stack@.len() ==> !st0.visited()[(#[trigger] st.stack@[j]).0 as int] && reachable(
                adj,
                st.stack@[j].0,
                current.0,
            ),
        forall|v: int|
            0 <= v < n && #[trigger] st.visited()[v] && !st0.visited()[v] ==> reachable(adj, current.0, v as usize)
                && st.preorder@[v]->0 >= start,
        forall|b: int, k: int|
            0 <= b < n && st.visited()[b] && !st0.visited()[b] && b != current.0 && 0 <= k < adj[b].len()
                ==> st.visited()[#[trigger] adj[b][k] as int],
        forall|k: int| 0 <= k < adj[current.0 as int].len() ==> st.visited()[#[trigger] adj[current.0 as int][k] as int],
        forall|j: int, k: int|
            #![trigger adj[st.stack@[j].0 as int][k]]
            s0 <= j < st.stack@.len() && 0 <= k < adj[st.stack@[j].0 as int].len() && (j != s0 || k < adj[current.0 as int].len())
                && st0.in_stack@[adj[st.stack@[j].0 as int][k] as int] ==> start <= st0.preorder@[adj[st.stack@[j].0 as int][k] as int]->0,
    ensures
        forall|i: int|
            s0 <= i < st.stack@.len() ==> reachable(adj, current.0, #[trigger] st.stack@[i].0) && reachable(
                adj,
                st.stack@[i].0,
                current.0,
            ),
        forall|i: int, k: int|
            s0 <= i < st.stack@.len() && 0 <= k < adj[st.stack@[i].0 as int].len() ==> {
                let t = #[trigger] adj[#[trigger] st.stack@[i].0 as int][k];
                st.block2comp@[t as int] is Some || exists|j: int| s0 <= j < st.stack@.len() && st.stack@[j].0 == t
            },
{
    assert(st.stack@[s0] == current) by {
        assert(st.stack@.subrange(0, s0 + 1)[s0] == current);
    }
    assert forall|i: int| s0 <= i < st.stack@.len() implies reachable(adj, current.0, #[trigger] st.stack@[i].0) && reachable(
        adj,
        st.stack@[i].0,
        current.0,
    ) by {
        let u = st.stack@[i].0 as int;
        assert(st.in_stack@[u]) by {
            assert(st.stack@.contains(st.stack@[i]));
        }
        assert(st.visited()[u]);
    }
    assert forall|i: int, k: int|
        s0 <= i < st.stack@.len() && 0 <= k < adj[st.stack@[i].0 as int].len() implies {
            let t = #[trigger] adj[#[trigger] st.stack@[i].0 as int][k];
            st.block2comp@[t as int] is Some || exists|j: int| s0 <= j < st.stack@.len() && st.stack@[j].0 == t
        } by {
        let u = st.stack@[i].0 as int;
        let t = adj[u][k];
        assert(t < n);
        assert(st.in_stack@[u]) by {
            assert(st.stack@.contains(st.stack@[i]));
        }
        assert(st.visited()[u]);
        if i == s0 {
            assert(u == current.0);
            assert(st.visited()[t as int]);
        } else {
            assert(st.stack@[i] != st.stack@[s0]);
            assert(st.visited()[t as int]);
        }
        if st.block2comp@[t as int] is None {
            assert(st.in_stack@[t as int]);
            assert(st.stack@.contains(BasicBlockIdx(t)));
            let j = choose|j: int| 0 <= j < st.stack@.len() && st.stack@[j] == BasicBlockIdx(t);
            if j < s0 {
                assert(st.stack@[j] == st0.stack@[j]) by {
                    assert(st.stack@.subrange(0, s0 + 1)[j] == st0.stack@.push(current)[j]);
                    assert(st.stack@.subrange(0, s0 + 1)[j] == st.stack@[j]);
                    assert(st0.stack@.push(current)[j] == st0.stack@[j]);
                }
                assert(st0.stack@.contains(BasicBlockIdx(t)));
                assert(st0.in_stack@[t as int]);
                assert(st0.preorder@[t as int] is Some);
                assert(st0.preorder@[t as int]->0 < st0.val);
                assert(start <= st0.preorder@[adj[st.stack@[i].0 as int][k] as int]->0);
            }
        }
    }
}

/// After the search from a successor `succ` of `current`, the invariants of
/// the search from `current` hold again, with the lowest number lowered to
/// that of `succ` if smaller.
#[verifier::rlimit(100)]
#[verifier::spinoff_prover]
proof fn lemma_child_done(
    adj: Seq<Seq<usize>>,
    n: nat,
    st0: TarjanState,
    st1: TarjanState,
    st2: TarjanState,
    current: BasicBlockIdx,
    succ: BasicBlockIdx,
    s0: int,
    start: int,
    lowest0: int,
    lowest1: int,
    i: int,
)
    requires
        adj.len() == n,
        crate::cfg::edges_in_range(adj),
        st0.inv(n),
        st1.inv(n),
        st2.inv(n),
        start == st0.val,
        current.0 < n,
        succ.0 < n,
        0 <= i < adj[current.0 as int].len(),
        adj[current.0 as int][i] == succ.0,
        reachable(adj, current.0, succ.0),
        st1.preorder@[succ.0 as int] is None,
        st1.val >= start,
        lowest0 <= start,
        lowest1 == if st2.lowest@[succ.0 as int] < lowest0 {
            st2.lowest@[succ.0 as int] as int
        } else {
            lowest0
        },
        s0 == st0.stack@.len(),
        s0 < st1.stack@.len(),
        st1.stack@.subrange(0, s0 + 1) == st0.stack@.push(current),
        forall|b: int| 0 <= b < n && #[trigger] st0.visited()[b] ==> st1.visited()[b],
        forall|b: int| 0 <= b < n && (#[trigger] st0.preorder@[b]) is Some ==> st1.preorder@[b] == st0.preorder@[b],
        stack_reaches_up(adj, st1.stack@),
        forall|j: int|
            s0 <= j < st1.stack@.len() ==> !st0.visited()[(#[trigger] st1.stack@[j]).0 as int] && reachable(
                adj,
                st1.stack@[j].0,
                current.0,
            ),
        forall|v: int|
            0 <= v < n && #[trigger] st1.visited()[v] && !st0.visited()[v] ==> reachable(adj, current.0, v as usize)
                && st1.preorder@[v]->0 >= start,
        lowest0 == start || exists|y: int|
            0 <= y < n && #[trigger] st0.in_stack@[y] && st0.preorder@[y]->0 == lowest0 && reachable(adj, current.0, y as usize),
        forall|j: int, k: int|
            #![trigger adj[st1.stack@[j].0 as int][k]]
            s0 <= j < st1.stack@.len() && 0 <= k < adj[st1.stack@[j].0 as int].len() && (j != s0 || k < i) && st0.in_stack@[adj[st1.stack@[j].0 as int][k] as int]
                ==> lowest0 <= st0.preorder@[adj[st1.stack@[j].0 as int][k] as int]->0,
        // what the search from `succ` ensures
        forall|b: int| 0 <= b < n && #[trigger] st1.visited()[b] ==> st2.visited()[b],
        forall|b: int| 0 <= b < n && (#[trigger] st1.preorder@[b]) is Some ==> st2.preorder@[b] == st1.preorder@[b],
        st2.stack@.len() >= st1.stack@.len(),
        st2.stack@.subrange(0, st1.stack@.len() as int) == st1.stack@,
        st2.lowest@[succ.0 as int] <= st1.val,
        st2.lowest@[succ.0 as int] == st1.val ==> st2.stack@ == st1.stack@,
        forall|v: int|
            0 <= v < n && #[trigger] st2.visited()[v] && !st1.visited()[v] ==> reachable(adj, succ.0, v as usize)
                && st2.preorder@[v]->0 >= st1.val,
        forall|x: int|
            st1.stack@.len() <= x < st2.stack@.len() ==> !st1.visited()[(#[trigger] st2.stack@[x]).0 as int] && reachable(
                adj,
                st2.stack@[x].0,
                succ.0,
            ),
        st2.lowest@[succ.0 as int] < st1.val ==> exists|y: int|
            0 <= y < n && #[trigger] st1.in_stack@[y] && st1.preorder@[y]->0 == st2.lowest@[succ.0 as int] && reachable(
                adj,
                succ.0,
                y as usize,
            ),
        forall|x: int, k: int|
            #![trigger adj[st2.stack@[x].0 as int][k]]
            st1.stack@.len() <= x < st2.stack@.len() && 0 <= k < adj[st2.stack@[x].0 as int].len() && st1.in_stack@[adj[st2.stack@[x].0 as int][k] as int]
                ==> st2.lowest@[succ.0 as int] <= st1.preorder@[adj[st2.stack@[x].0 as int][k] as int]->0,
    ensures
        forall|j: int|
            s0 <= j < st2.stack@.len() ==> !st0.visited()[(#[trigger] st2.stack@[j]).0 as int] && reachable(
                adj,
                st2.stack@[j].0,
                current.0,
            ),
        forall|v: int|
            0 <= v < n && #[trigger] st2.visited()[v] && !st0.visited()[v] ==> reachable(adj, current.0, v as usize)
                && st2.preorder@[v]->0 >= start,
        lowest1 == start || exists|y: int|
            0 <= y < n && #[trigger] st0.in_stack@[y] && st0.preorder@[y]->0 == lowest1 && reachable(adj, current.0, y as usize),
        forall|j: int, k: int|
            #![trigger adj[st2.stack@[j].0 as int][k]]
            s0 <= j < st2.stack@.len() && 0 <= k < adj[st2.stack@[j].0 as int].len() && (j != s0 || k < i + 1) && st0.in_stack@[adj[st2.stack@[j].0 as int][k] as int]
                ==> lowest1 <= st0.preorder@[adj[st2.stack@[j].0 as int][k] as int]->0,
{
    let len1 = st1.stack@.len() as int;
    let l = st2.lowest@[succ.0 as int] as int;
    assert forall|x: int| 0 <= x < len1 implies st2.stack@[x] == st1.stack@[x] by {
        assert(st2.stack@.subrange(0, len1)[x] == st1.stack@[x]);
    }
    assert forall|x: int| 0 <= x < s0 implies st1.stack@[x] == st0.stack@[x] by {
        assert(st1.stack@.subrange(0, s0 + 1)[x] == st0.stack@.push(current)[x]);
        assert(st1.stack@.subrange(0, s0 + 1)[x] == st1.stack@[x]);
        assert(st0.stack@.push(current)[x] == st0.stack@[x]);
    }
    assert(st1.stack@[s0] == current) by {
        assert(st1.stack@.subrange(0, s0 + 1)[s0] == current);
    }
    // Blocks on the stack before the search from `succ` with a number below
    // `current`'s are those of the stack before the search from `current`.
    assert forall|y: int| 0 <= y < n && #[trigger] st1.in_stack@[y] && st1.preorder@[y]->0 < start implies st0.in_stack@[y] by {
        assert(st1.stack@.contains(BasicBlockIdx(y as usize)));
        let x = choose|x: int| 0 <= x < st1.stack@.len() && st1.stack@[x] == BasicBlockIdx(y as usize);
        if x >= s0 {
            assert(!st0.visited()[y]);
            assert(st1.preorder@[y] is Some);
            assert(st1.visited()[y]);
        }
        assert(st0.stack@[x] == BasicBlockIdx(y as usize));
        assert(st0.stack@.contains(BasicBlockIdx(y as usize)));
    }
    // If the search from `succ` left blocks on the stack, `succ` reaches
    // `current`.
    if st2.stack@.len() > len1 {
        assert(l < st1.val);
        let y = choose|y: int|
            0 <= y < n && #[trigger] st1.in_stack@[y] && st1.preorder@[y]->0 == l && reachable(adj, succ.0, y as usize);
        assert(st1.stack@.contains(BasicBlockIdx(y as usize)));
        let x = choose|x: int| 0 <= x < st1.stack@.len() && st1.stack@[x] == BasicBlockIdx(y as usize);
        if x < s0 {
            assert(reachable(adj, st1.stack@[x].0, st1.stack@[s0].0));
        }
        lemma_reach_trans(adj, succ.0, y as usize, current.0);
    }
    assert forall|j: int|
        s0 <= j < st2.stack@.len() implies !st0.visited()[(#[trigger] st2.stack@[j]).0 as int] && reachable(
            adj,
            st2.stack@[j].0,
            current.0,
        ) by {
        if j < len1 {
            assert(st2.stack@[j] == st1.stack@[j]);
        } else {
            let u = st2.stack@[j].0 as int;
            assert(!st1.visited()[u]);
            lemma_reach_trans(adj, u as usize, succ.0, current.0);
        }
    }
    assert forall|v: int|
        0 <= v < n && #[trigger] st2.visited()[v] && !st0.visited()[v] implies reachable(adj, current.0, v as usize)
            && st2.preorder@[v]->0 >= start by {
        if st1.visited()[v] {
            assert(st1.preorder@[v] is Some);
        } else {
            lemma_reach_trans(adj, current.0, succ.0, v as usize);
        }
    }
    if l < lowest0 {
        assert(l < st1.val);
        let y = choose|y: int|
            0 <= y < n && #[trigger] st1.in_stack@[y] && st1.preorder@[y]->0 == l && reachable(adj, succ.0, y as usize);
        assert(st1.preorder@[y]->0 < start);
        assert(st0.in_stack@[y]);
        assert(st0.preorder@[y] is Some);
        assert(st1.preorder@[y] == st0.preorder@[y]);
        lemma_reach_trans(adj, current.0, succ.0, y as usize);
    }
    assert forall|j: int, k: int|
        #![trigger adj[st2.stack@[j].0 as int][k]]
        s0 <= j < st2.stack@.len() && 0 <= k < adj[st2.stack@[j].0 as int].len() && (j != s0 || k < i + 1) && st0.in_stack@[adj[st2.stack@[j].0 as int][k] as int]
            implies lowest1 <= st0.preorder@[adj[st2.stack@[j].0 as int][k] as int]->0 by {
        let t = adj[st2.stack@[j].0 as int][k];
        assert(t < n);
        if j < len1 {
            assert(st2.stack@[j] == st1.stack@[j]);
            if j == s0 && k == i {
                assert(t == succ.0);
                assert(st0.stack@.contains(BasicBlockIdx(t)));
                let x = choose|x: int| 0 <= x < st0.stack@.len() && st0.stack@[x] == BasicBlockIdx(t);
                assert(st0.preorder@[t as int] is Some);
                assert(st1.preorder@[t as int] is Some);
            } else {
                assert(adj[st1.stack@[j].0 as int][k] == t);
            }
        } else {
            assert(st0.stack@.contains(BasicBlockIdx(t)));
            let x = choose|x: int| 0 <= x < st0.stack@.len() && st0.stack@[x] == BasicBlockIdx(t);
            assert(st1.stack@[x] == BasicBlockIdx(t));
            assert(st1.stack@.contains(BasicBlockIdx(t)));
            assert(st1.in_stack@[t as int]);
            assert(st0.preorder@[t as int] is Some);
            assert(st1.preorder@[t as int] == st0.preorder@[t as int]);
        }
    }
}

/// Edges only lead to the same component or to one found before it, so
/// everything a block of a component reaches is in it or in one found
/// before it.
proof fn lemma_reach_comp_order(adj: Seq<Seq<usize>>, b2c: Seq<Option<usize>>, u: usize, v: usize)
    requires
        crate::cfg::edges_in_range(adj),
        b2c.len() == adj.len(),
        forall|b: int, k: int|
            #![trigger b2c[b], adj[b][k]]
            0 <= b < adj.len() && b2c[b] is Some && 0 <= k < adj[b].len() ==> {
                &&& b2c[adj[b][k] as int] is Some
                &&& b2c[adj[b][k] as int]->0 <= b2c[b]->0
            },
        u < adj.len(),
        b2c[u as int] is Some,
        reachable(adj, u, v),
    ensures
        b2c[v as int] is Some,
        b2c[v as int]->0 <= b2c[u as int]->0,
{
    let p = choose|p: Seq<usize>| is_path(adj, p) && p[0] == u && p.last() == v;
    lemma_path_comp_order(adj, b2c, p, p.len() - 1);
}

proof fn lemma_path_comp_order(adj: Seq<Seq<usize>>, b2c: Seq<Option<usize>>, p: Seq<usize>, i: int)
    requires
        crate::cfg::edges_in_range(adj),
        b2c.len() == adj.len(),
        forall|b: int, k: int|
            #![trigger b2c[b], adj[b][k]]
            0 <= b < adj.len() && b2c[b] is Some && 0 <= k < adj[b].len() ==> {
                &&& b2c[adj[b][k] as int] is Some
                &&& b2c[adj[b][k] as int]->0 <= b2c[b]->0
            },
        is_path(adj, p),
        b2c[p[0] as int] is Some,
        0 <= i < p.len(),
    ensures
        b2c[p[i] as int] is Some,
        b2c[p[i] as int]->0 <= b2c[p[0] as int]->0,
    decreases i,
{
    if i > 0 {
        lemma_path_comp_order(adj, b2c, p, i - 1);
        let a = p[i - 1];
        assert(a < adj.len());
        assert(adj[a as int].contains(p[i]));
        let k = choose|k: int| 0 <= k < adj[a as int].len() && adj[a as int][k] == p[i];
        assert(b2c[adj[a as int][k] as int] is Some);
    }
}

/// Tarjan's search from `current`: visits every block reachable from it
/// that is not visited yet, and closes a component at every block whose
/// lowest reachable preorder number is its own. Every block it visits is
/// reachable from `current`; the blocks it leaves on the stack reach
/// `current`; and the lowest number it records for `current` is that of a
/// block on the stack before the search that `current` reaches, and no
/// block left on the stack has an edge to a lower one.
#[verifier::rlimit(100)]
#[verifier::spinoff_prover]
fn tarjan(
    cfg: &Cfg,
    st: &mut TarjanState,
    current: BasicBlockIdx,
    Ghost(budget): Ghost<nat>,
    Ghost(from): Ghost<Option<(usize, int)>>,
)
    requires
        cfg.wf(),
        old(st).inv(cfg.num_blocks()),
        current.0 < cfg.num_blocks(),
        count_unvisited(old(st).visited()) <= budget,
        2 * cfg.num_blocks() < usize::MAX,
        cfg.reaches(current.0),
        forall|v: int| 0 <= v < cfg.num_blocks() && #[trigger] old(st).visited()[v] ==> cfg.reaches(v as usize),
        stack_reaches_up(cfg.adj(), old(st).stack@),
        components_sound(cfg.adj(), *old(st)),
        forall|i: int| 0 <= i < old(st).stack@.len() ==> reachable(cfg.adj(), (#[trigger] old(st).stack@[i]).0, current.0),
        tally_before(cfg.adj(), cfg.num_blocks(), *old(st), current.0, from),
        old(st).path_counts(cfg.num_blocks()),
    ensures
        final(st).path_counts(cfg.num_blocks()),
        tally_after(cfg.adj(), cfg.num_blocks(), *old(st), *final(st), current.0, from),
        final(st).on_path@ == old(st).on_path@,
        !old(st).visited()[current.0 as int] && final(st).stack@ == old(st).stack@ ==> final(st).components@.len() > 0
            && final(st).components@[final(st).components@.len() - 1].entry == current,
        final(st).inv(cfg.num_blocks()),
        forall|b: int| 0 <= b < cfg.num_blocks() && #[trigger] old(st).visited()[b] ==> final(st).visited()[b],
        final(st).visited()[current.0 as int],
        forall|v: int| 0 <= v < cfg.num_blocks() && #[trigger] final(st).visited()[v] ==> cfg.reaches(v as usize),
        forall|b: int, k: int|
            0 <= b < cfg.num_blocks() && final(st).visited()[b] && !old(st).visited()[b] && 0 <= k < cfg.adj()[b].len()
                ==> final(st).visited()[#[trigger] cfg.adj()[b][k] as int],
        forall|b: int|
            0 <= b < cfg.num_blocks() && (#[trigger] old(st).preorder@[b]) is Some ==> final(st).preorder@[b] == old(
                st,
            ).preorder@[b],
        final(st).val >= old(st).val,
        final(st).counted() - old(st).counted() <= 2 * (final(st).val - old(st).val),
        final(st).stack@.len() >= old(st).stack@.len(),
        final(st).stack@.subrange(0, old(st).stack@.len() as int) == old(st).stack@,
        !old(st).visited()[current.0 as int] ==> {
            &&& final(st).preorder@[current.0 as int] == Some(old(st).val)
            &&& final(st).lowest@[current.0 as int] <= old(st).val
            &&& final(st).lowest@[current.0 as int] == old(st).val ==> final(st).stack@ == old(st).stack@
        },
        stack_reaches_up(cfg.adj(), final(st).stack@),
        components_sound(cfg.adj(), *final(st)),
        forall|v: int|
            0 <= v < cfg.num_blocks() && #[trigger] final(st).visited()[v] && !old(st).visited()[v] ==> reachable(
                cfg.adj(),
                current.0,
                v as usize,
            ) && final(st).preorder@[v]->0 >= old(st).val,
        forall|i: int|
            old(st).stack@.len() <= i < final(st).stack@.len() ==> !old(st).visited()[(#[trigger] final(st).stack@[i]).0 as int]
                && reachable(cfg.adj(), final(st).stack@[i].0, current.0),
        !old(st).visited()[current.0 as int] ==> {
            let l = final(st).lowest@[current.0 as int];
            &&& l < old(st).val ==> exists|y: int|
                0 <= y < cfg.num_blocks() && #[trigger] old(st).in_stack@[y] && old(st).preorder@[y]->0 == l && reachable(
                    cfg.adj(),
                    current.0,
                    y as usize,
                )
            &&& forall|i: int, k: int|
                #![trigger cfg.adj()[final(st).stack@[i].0 as int][k]]
                old(st).stack@.len() <= i < final(st).stack@.len() && 0 <= k < cfg.adj()[final(st).stack@[i].0 as int].len()
                    && old(st).in_stack@[cfg.adj()[final(st).stack@[i].0 as int][k] as int]
                    ==> l <= old(st).preorder@[cfg.adj()[final(st).stack@[i].0 as int][k] as int]->0
        },
    decreases budget,
{
    let ghost n = cfg.num_blocks();
    let ghost adj = cfg.adj();
    let ghost st0 = *st;
    if st.preorder[current.0].is_some() {
        proof {
            lemma_search_visited(adj, n, st0, current.0, from);
            assert(st.visited()[current.0 as int]);
            assert(st.stack@.subrange(0, st.stack@.len() as int) =~= st.stack@);
        }
        return;
    }
    let start = st.val;
    let s0 = st.stack.len();
    let ghost pend0 = st.pending();
    proof {
        assert(!st.in_stack@[current.0 as int]);
        assert(st.seen_cnt@[current.0 as int] == 0);
        lemma_count_unvisited_set(st.visited(), current.0 as int);
        lemma_count_unvisited_strict(st.visited(), st.visited().update(current.0 as int, true), current.0 as int);
    }
    st.preorder.set(current.0, Some(start));
    let mut lowest = start;
    st.val = st.val + 1;
    st.stack.push(current);
    st.in_stack.set(current.0, true);
    st.parent = Ghost(st.parent@.update(current.0 as int, from));
    proof {
        assert(st.visited() =~= st0.visited().update(current.0 as int, true));
        assert(st.pending() =~= pend0);
        lemma_search_visit(adj, n, st0, *st, current.0, from);
        assert forall|b: int| 0 <= b < n implies (#[trigger] st.in_stack@[b] <==> st.stack@.contains(BasicBlockIdx(b as usize))) by {
            if b == current.0 {
                assert(st.stack@[s0 as int] == current);
            } else {
                if st0.stack@.contains(BasicBlockIdx(b as usize)) {
                    let x = choose|x: int| 0 <= x < st0.stack@.len() && st0.stack@[x] == BasicBlockIdx(b as usize);
                    assert(st.stack@[x] == BasicBlockIdx(b as usize));
                }
                if st.stack@.contains(BasicBlockIdx(b as usize)) {
                    let x = choose|x: int| 0 <= x < st.stack@.len() && st.stack@[x] == BasicBlockIdx(b as usize);
                    assert(x != s0);
                    assert(st0.stack@[x] == BasicBlockIdx(b as usize));
                }
            }
        }
        assert forall|i: int, j: int| 0 <= i < j < st.stack@.len() implies (#[trigger] st.stack@[i]) != (#[trigger] st.stack@[j]) by {
            if j == s0 {
                assert(!st0.stack@.contains(current));
                assert(st0.stack@[i] == st.stack@[i]);
            }
        }
        assert forall|i: int| 0 <= i < st.stack@.len() implies (#[trigger] st.stack@[i]).0 < n by {
            if i < s0 {
                assert(st.stack@[i] == st0.stack@[i]);
            }
        }
        assert(st.inv(n));
        assert(cfg.reaches(current.0));
        lemma_reach_refl(adj, current.0);
        assert forall|i: int, j: int| 0 <= i <= j < st.stack@.len() implies reachable(adj, #[trigger] st.stack@[i].0, #[trigger] st.stack@[j].0) by {
            if j < s0 {
                assert(st.stack@[i] == st0.stack@[i] && st.stack@[j] == st0.stack@[j]);
            } else if i < s0 {
                assert(st.stack@[i] == st0.stack@[i]);
            }
        }
        assert(components_sound(adj, *st)) by {
            assert(st.components == st0.components);
            assert(st.block2comp == st0.block2comp);
        }
        assert forall|v: int| 0 <= v < n && #[trigger] st.visited()[v] && !st0.visited()[v] implies reachable(adj, current.0, v as usize)
            && st.preorder@[v]->0 >= start by {
            assert(v == current.0);
        }
    }
    let ghost st_v = *st;
    st.on_path.set(current.0, true);
    proof {
        assert(st_v.seen_cnt@[current.0 as int] == 0);
        lemma_path_block(st0, n, current.0 as int);
        assert(st_v.back_edges_cnt@[current.0 as int] == 0);
        assert forall|b: int| 0 <= b < n && (#[trigger] st0.preorder@[b]) is Some implies st_v.preorder@[b] is Some by {}
        lemma_path_frame(st0, st_v, n);
        lemma_inv_path(st_v, *st, n, current.0, true);
        lemma_search_frame(adj, n, st0, st_v, *st, current.0, from, 0);
        assert(components_sound(adj, *st)) by {
            assert(st.components == st_v.components);
            assert(st.block2comp == st_v.block2comp);
        }
    }
    let successors = cfg.successors(current);
    proof {
        assert(block_indices(successors@) == adj[current.0 as int]);
        assert(successors@.len() <= 2);
    }
    let mut i: usize = 0;
    while i < successors.len()
        invariant
            cfg.wf(),
            adj == cfg.adj(),
            n == cfg.num_blocks(),
            2 * n < usize::MAX,
            current.0 < n,
            block_indices(successors@) == adj[current.0 as int],
            successors@.len() <= 2,
            i <= successors@.len(),
            st.inv(n),
            st0.inv(n),
            count_unvisited(st0.visited()) <= budget,
            !st0.visited()[current.0 as int],
            st.visited()[current.0 as int],
            forall|b: int| 0 <= b < n && #[trigger] st0.visited()[b] ==> st.visited()[b],
            count_unvisited(st.visited()) < count_unvisited(st0.visited()),
            forall|v: int| 0 <= v < n && #[trigger] st.visited()[v] ==> cfg.reaches(v as usize),
            forall|b: int, k: int|
                0 <= b < n && st.visited()[b] && !st0.visited()[b] && b != current.0 && 0 <= k < adj[b].len()
                    ==> st.visited()[#[trigger] adj[b][k] as int],
            forall|k: int| 0 <= k < i ==> st.visited()[#[trigger] adj[current.0 as int][k] as int],
            st.val > st0.val,
            start == st0.val,
            st.counted() - st0.counted() + (2 - i) <= 2 * (st.val - st0.val),
            st.stack@.len() > s0,
            s0 == st0.stack@.len(),
            st.stack@.subrange(0, s0 + 1) == st0.stack@.push(current),
            st.preorder@[current.0 as int] == Some(start),
            forall|b: int| 0 <= b < n && (#[trigger] st0.preorder@[b]) is Some ==> st.preorder@[b] == st0.preorder@[b],
            lowest <= start,
            stack_reaches_up(adj, st.stack@),
            components_sound(adj, *st),
            forall|j: int|
                s0 <= j < st.stack@.len() ==> !st0.visited()[(#[trigger] st.stack@[j]).0 as int] && reachable(
                    adj,
                    st.stack@[j].0,
                    current.0,
                ),
            forall|v: int|
                0 <= v < n && #[trigger] st.visited()[v] && !st0.visited()[v] ==> reachable(adj, current.0, v as usize)
                    && st.preorder@[v]->0 >= start,
            lowest == start || exists|y: int|
                0 <= y < n && #[trigger] st0.in_stack@[y] && st0.preorder@[y]->0 == lowest && reachable(adj, current.0, y as usize),
            forall|j: int, k: int|
                #![trigger adj[st.stack@[j].0 as int][k]]
                s0 <= j < st.stack@.len() && 0 <= k < adj[st.stack@[j].0 as int].len() && (j != s0 || k < i) && st0.in_stack@[adj[st.stack@[j].0 as int][k] as int]
                    ==> lowest <= st0.preorder@[adj[st.stack@[j].0 as int][k] as int]->0,
            tally_during(adj, n, st0, *st, current.0, from, i as int),
            st.on_path@ == st0.on_path@.update(current.0 as int, true),
            st.path_counts(n),
        decreases successors.len() - i,
    {
        let successor = successors[i];
        proof {
            assert(block_indices(successors@)[i as int] == successor.0);
            assert(successor.0 < n);
            assert(st.stack@[s0 as int] == current) by {
                assert(st.stack@.subrange(0, s0 + 1)[s0 as int] == current);
            }
            assert(adj[current.0 as int][i as int] == successor.0);
            assert(adj[current.0 as int].contains(successor.0));
            lemma_reach_edge(adj, current.0, successor.0);
        }
        if st.in_stack[successor.0] {
            let ghost pend1 = st.pending();
            let ghost st_a = *st;
            proof {
                assert(pend1[successor.0 as int] == st.seen_cnt@[successor.0 as int]);
                assert forall|k: int| 0 <= k < n implies #[trigger] pend1[k] >= 0 by {}
                lemma_sum_ints_nonneg_le(pend1, successor.0 as int);
                lemma_sum_ints_nonneg(Seq::new(st.components@.len(), |c: int| st.components@[c].num_back_edges as int));
            }
            proof {
                assert(st.seen_cnt@[successor.0 as int] < usize::MAX);
                lemma_path_block(st_a, n, successor.0 as int);
            }
            st.seen_cnt = Ghost(st.seen_cnt@.update(successor.0 as int, (st.seen_cnt@[successor.0 as int] + 1) as usize));
            if st.on_path[successor.0] {
                st.back_edges_cnt.set(successor.0, st.back_edges_cnt[successor.0] + 1);
            }
            proof {
                assert(st.pending() =~= pend1.update(successor.0 as int, pend1[successor.0 as int] + 1));
                lemma_sum_ints_update(pend1, successor.0 as int, pend1[successor.0 as int] + 1);
                lemma_path_edge(st_a, *st, n, successor.0 as int);
                assert(components_sound(adj, *st)) by {
                    assert(st.components == st_a.components);
                    assert(st.block2comp == st_a.block2comp);
                }
            }
            let pre = st.preorder[successor.0].unwrap();
            let ghost lowest0 = lowest;
            if pre < lowest {
                lowest = pre;
            }
            proof {
                let sv = successor.0 as int;
                assert(st.stack@.contains(successor));
                let x = choose|x: int| 0 <= x < st.stack@.len() && st.stack@[x] == successor;
                if x >= s0 {
                    assert(!st0.visited()[sv]);
                    assert(st.visited()[sv]);
                } 
                if st0.in_stack@[sv] {
                    assert(st0.preorder@[sv] is Some);
                    assert(st.preorder@[sv] == st0.preorder@[sv]);
                }
                if pre < lowest0 {
                    assert(x < s0) by {
                        if x >= s0 {
                            assert(st.preorder@[sv]->0 >= start);
                        }
                    }
                    assert(st.stack@[x] == st0.stack@[x]) by {
                        assert(st.stack@.subrange(0, s0 + 1)[x] == st0.stack@.push(current)[x]);
                    }
                    assert(st0.stack@.contains(successor));
                    assert(st0.in_stack@[sv]);
                }
            }
            let ghost st_e = *st;
            st.prog = Ghost(st.prog@.update(current.0 as int, i + 1));
            proof {
                lemma_inv_frame(st_e, *st, n);
                assert forall|b: int| 0 <= b < n && (#[trigger] st_e.preorder@[b]) is Some implies st.preorder@[b] is Some by {}
                lemma_path_frame(st_e, *st, n);
                assert(st_a.in_stack@[current.0 as int]) by {
                    assert(st_a.stack@[s0 as int] == current) by {
                        assert(st_a.stack@.subrange(0, s0 + 1)[s0 as int] == current);
                    }
                    assert(st_a.stack@.contains(current));
                }
                assert(st_a.preorder@[successor.0 as int] is Some);
                assert(st_a.seen_cnt@[successor.0 as int] < usize::MAX);
                lemma_search_handled(adj, n, st0, st_a, *st, current.0, from, i as int, true);
                assert(components_sound(adj, *st)) by {
                    assert(st.components == st_e.components);
                    assert(st.block2comp == st_e.block2comp);
                }
            }
        } else if st.preorder[successor.0].is_none() {
            proof {
                assert(adj[current.0 as int].contains(successor.0));
                lemma_reach_step(adj, cfg.entry.0, current.0, successor.0);
                assert forall|x: int| 0 <= x < st.stack@.len() implies reachable(cfg.adj(), (#[trigger] st.stack@[x]).0, successor.0) by {
                    if x < s0 {
                        assert(reachable(adj, st.stack@[x].0, st.stack@[s0 as int].0));
                    }
                    lemma_reach_trans(adj, st.stack@[x].0, current.0, successor.0);
                }
            }
            proof {
                assert(st.in_stack@[current.0 as int]) by {
                    assert(st.stack@[s0 as int] == current) by {
                        assert(st.stack@.subrange(0, s0 + 1)[s0 as int] == current);
                    }
                    assert(st.stack@.contains(current));
                }
                lemma_search_descend(adj, n, st0, *st, current.0, from, i as int, successor.0);
            }
            let ghost st1 = *st;
            tarjan(cfg, st, successor, Ghost((count_unvisited(st0.visited()) - 1) as nat), Ghost(Some((current.0, i as int))));
            proof {
                assert(st.stack@.subrange(0, s0 + 1) =~= st1.stack@.subrange(0, s0 + 1)) by {
                    assert forall|x: int| 0 <= x < s0 + 1 implies st.stack@[x] == st1.stack@[x] by {
                        assert(st.stack@.subrange(0, st1.stack@.len() as int)[x] == st1.stack@[x]);
                    }
                }
                lemma_count_unvisited_mono(st1.visited(), st.visited());
                assert forall|b: int, k: int|
                    0 <= b < n && st.visited()[b] && !st0.visited()[b] && b != current.0 && 0 <= k < adj[b].len()
                        implies st.visited()[#[trigger] adj[b][k] as int] by {
                    if st1.visited()[b] {
                        assert(st1.visited()[adj[b][k] as int]);
                    }
                }
                assert(st1.preorder@[current.0 as int] is Some);
                assert forall|b: int| 0 <= b < n && (#[trigger] st0.preorder@[b]) is Some implies st.preorder@[b] == st0.preorder@[b] by {
                    assert(st1.preorder@[b] is Some);
                }
            }
            let l = st.lowest[successor.0];
            let ghost lowest0 = lowest;
            if l < lowest {
                lowest = l;
            }
            proof {
                lemma_child_done(adj, n, st0, st1, *st, current, successor, s0 as int, start as int, lowest0 as int, lowest as int, i as int);
            }
            let ghost st_b = *st;
            st.prog = Ghost(st.prog@.update(current.0 as int, i + 1));
            proof {
                assert(st_b.in_stack@[current.0 as int]) by {
                    assert(st_b.stack@[s0 as int] == current) by {
                        assert(st_b.stack@.subrange(0, s0 + 1)[s0 as int] == current);
                    }
                    assert(st_b.stack@.contains(current));
                }
                assert forall|b: int| 0 <= b < n && (#[trigger] st0.preorder@[b]) is Some implies st1.preorder@[b] is Some by {
                    assert(st0.visited()[b]);
                }
                assert forall|b: int| 0 <= b < n && (#[trigger] st1.preorder@[b]) is Some implies st_b.preorder@[b] is Some by {
                    assert(st1.visited()[b]);
                }
                assert(st1.visited()[current.0 as int]);
                assert(st_b.visited()[successor.0 as int]);
                lemma_inv_frame(st_b, *st, n);
                assert forall|b: int| 0 <= b < n && (#[trigger] st_b.preorder@[b]) is Some implies st.preorder@[b] is Some by {}
                lemma_path_frame(st_b, *st, n);
                lemma_search_ascend(adj, n, st0, st1, st_b, *st, current.0, from, i as int, successor.0);
                assert(components_sound(adj, *st)) by {
                    assert(st.components == st_b.components);
                    assert(st.block2comp == st_b.block2comp);
                }
            }
        } else {
            proof {
                let sv = successor.0 as int;
                if st0.in_stack@[sv] {
                    assert(st0.stack@.contains(successor));
                    let x = choose|x: int| 0 <= x < st0.stack@.len() && st0.stack@[x] == successor;
                    assert(st.stack@[x] == st0.stack@[x]) by {
                        assert(st.stack@.subrange(0, s0 + 1)[x] == st0.stack@.push(current)[x]);
                    }
                    assert(st.stack@.contains(successor));
                }
            }
            let ghost st_c = *st;
            st.prog = Ghost(st.prog@.update(current.0 as int, i + 1));
            proof {
                assert(st_c.in_stack@[current.0 as int]) by {
                    assert(st_c.stack@[s0 as int] == current) by {
                        assert(st_c.stack@.subrange(0, s0 + 1)[s0 as int] == current);
                    }
                    assert(st_c.stack@.contains(current));
                }
                lemma_inv_frame(st_c, *st, n);
                assert forall|b: int| 0 <= b < n && (#[trigger] st_c.preorder@[b]) is Some implies st.preorder@[b] is Some by {}
                lemma_path_frame(st_c, *st, n);
                lemma_search_handled(adj, n, st0, st_c, *st, current.0, from, i as int, false);
                assert(components_sound(adj, *st)) by {
                    assert(st.components == st_c.components);
                    assert(st.block2comp == st_c.block2comp);
                }
            }
        }
        i = i + 1;
    }
    let ghost st_l = *st;
    proof {
        assert(st.on_path@[current.0 as int]);
        lemma_path_block(st_l, n, current.0 as int);
        assert(st.back_edges_cnt@[current.0 as int] == st.seen_cnt@[current.0 as int]);
        assert(i == adj[current.0 as int].len()) by {
            assert(block_indices(successors@).len() == successors@.len());
        }
    }
    st.lowest.set(current.0, lowest);
    st.on_path.set(current.0, false);
    proof {
        lemma_inv_path(st_l, *st, n, current.0, false);
        lemma_search_frame(adj, n, st0, st_l, *st, current.0, from, i as int);
        lemma_off_path(st0, st_l, *st, current, s0 as int, n);
        assert(st.stack@[s0 as int] == current) by {
            assert(st.stack@.subrange(0, s0 + 1)[s0 as int] == current);
        }
        assert(components_sound(adj, *st)) by {
            assert(st.components == st_l.components);
            assert(st.block2comp == st_l.block2comp);
        }
    }
    let ghost sm = *st;
    if lowest == start {
        proof {
            lemma_closing_component(adj, n, st0, *st, current, s0 as int, start as int);
            lemma_search_pop_ready(adj, n, st0, *st, current, from, s0 as int);
        }
        pop_component(st, current, s0, Ghost(n), Ghost(adj), Ghost(st0.visited()), Ghost(start as int));
        proof {
            assert(st.stack@ =~= st0.stack@);
        }
    }
    proof {
        assert(st.stack@.subrange(0, s0 as int) =~= st0.stack@) by {
            assert forall|x: int| 0 <= x < s0 implies st.stack@[x] == st0.stack@[x] by {
                if lowest != start {
                    assert(st.stack@.subrange(0, s0 + 1)[x] == st0.stack@.push(current)[x]);
                }
            }
        }
        assert forall|k: int| 0 <= k < adj[current.0 as int].len() implies st.visited()[#[trigger] adj[current.0 as int][k] as int] by {
            assert(block_indices(successors@).len() == successors@.len());
        }
        if lowest == start {
            assert(stack_reaches_up(adj, st.stack@));
        }
        lemma_search_end(adj, n, st0, sm, *st, current.0, from, lowest == start);
        if lowest != start {
            assert(st.stack@.len() > st0.stack@.len());
        }
    }
}

} // verus!

verus! {

/// Some block of `vs` among the first `vi` (and, of block `vi`, among its
/// first `ki` edges) has an edge leaving `vs` into `target`.
pub open spec fn exits_to_upto(
    adj: Seq<Seq<usize>>,
    vs: Seq<BasicBlockIdx>,
    target: Seq<BasicBlockIdx>,
    vi: int,
    ki: int,
) -> bool {
    exists|i: int, k: int|
        #![trigger adj[vs[i].0 as int][k]]
        0 <= i <= vi && 0 <= k < adj[vs[i].0 as int].len() && (i < vi || k < ki) && !vs.contains(
            BasicBlockIdx(adj[vs[i].0 as int][k]),
        ) && target.contains(BasicBlockIdx(adj[vs[i].0 as int][k]))
}

/// Some block of `vs` has an edge leaving `vs` into `target`.
pub open spec fn exits_to(adj: Seq<Seq<usize>>, vs: Seq<BasicBlockIdx>, target: Seq<BasicBlockIdx>) -> bool {
    exits_to_upto(adj, vs, target, vs.len() as int, 0)
}

/// Indices of a list of components.
pub open spec fn comp_indices(s: Seq<ComponentIdx>) -> Seq<usize> {
    s.map_values(|c: ComponentIdx| c.0)
}

/// The graph of components of a control flow graph.
pub struct CondensedCfg<'cfg, 'program> {
    pub cfg: &'cfg Cfg<'program>,
    pub entry: ComponentIdx,
    pub components: Vec<Component>,
    pub edges: Vec<Vec<ComponentIdx>>,
    pub rev_edges: Vec<Vec<ComponentIdx>>,
}

/// The successors of a block that are (or are not) blocks of a component,
/// in order.
pub open spec fn succs_filtered(ts: Seq<usize>, vs: Seq<BasicBlockIdx>, inside: bool) -> Seq<BasicBlockIdx>
    decreases ts.len(),
{
    if ts.len() == 0 {
        Seq::empty()
    } else {
        succs_filtered(ts.drop_last(), vs, inside) + if vs.contains(BasicBlockIdx(ts.last())) == inside {
            seq![BasicBlockIdx(ts.last())]
        } else {
            Seq::empty()
        }
    }
}

fn filter_successors(successors: Vec<BasicBlockIdx>, comp: &Component, inside: bool) -> (r: Vec<BasicBlockIdx>)
    ensures
        r@ == succs_filtered(block_indices(successors@), comp.vertices@, inside),
{
    let mut r: Vec<BasicBlockIdx> = Vec::new();
    let mut i: usize = 0;
    while i < successors.len()
        invariant
            i <= successors@.len(),
            r@ == succs_filtered(block_indices(successors@).take(i as int), comp.vertices@, inside),
        decreases successors.len() - i,
    {
        let s = successors[i];
        proof {
            let t = block_indices(successors@).take(i + 1);
            assert(t.drop_last() =~= block_indices(successors@).take(i as int));
            assert(t.last() == s.0);
            assert(BasicBlockIdx(s.0) == s);
        }
        if comp.contains(s) == inside {
            r.push(s);
        }
        i = i + 1;
    }
    proof {
        assert(block_indices(successors@).take(successors@.len() as int) =~= block_indices(successors@));
    }
    r
}

impl<'cfg, 'program> CondensedCfg<'cfg, 'program> {
    /// The successors of `block_idx` within component `comp_idx`, if the
    /// block is one of its own; none otherwise.
    pub fn intra_comp_edges(&self, comp_idx: ComponentIdx, block_idx: BasicBlockIdx) -> (r: Vec<BasicBlockIdx>)
        requires
            comp_idx.0 < self.components@.len(),
            self.components@[comp_idx.0 as int].vertices@.contains(block_idx) ==> block_idx.0 < self.cfg.edges@.len(),
        ensures
            r@ == if self.components@[comp_idx.0 as int].vertices@.contains(block_idx) {
                succs_filtered(self.cfg.adj()[block_idx.0 as int], self.components@[comp_idx.0 as int].vertices@, true)
            } else {
                Seq::empty()
            },
    {
        if !self.components[comp_idx.0].contains(block_idx) {
            return vec![];
        }
        let successors = self.cfg.successors(block_idx);
        filter_successors(successors, &self.components[comp_idx.0], true)
    }

    /// The successors of `block_idx` outside component `comp_idx`.
    pub fn inter_comp_edges(&self, comp_idx: ComponentIdx, block_idx: BasicBlockIdx) -> (r: Vec<BasicBlockIdx>)
        requires
            comp_idx.0 < self.components@.len(),
            block_idx.0 < self.cfg.edges@.len(),
        ensures
            r@ == succs_filtered(self.cfg.adj()[block_idx.0 as int], self.components@[comp_idx.0 as int].vertices@, false),
    {
        let successors = self.cfg.successors(block_idx);
        filter_successors(successors, &self.components[comp_idx.0], false)
    }
}

} // verus!

verus! {

fn contains_component(list: &Vec<ComponentIdx>, d: ComponentIdx) -> (r: bool)
    ensures
        r == list@.contains(d),
{
    let mut i: usize = 0;
    while i < list.len()
        invariant
            i <= list@.len(),
            forall|k: int| 0 <= k < i ==> list@[k] != d,
        decreases list.len() - i,
    {
        if list[i] == d {
            return true;
        }
        i = i + 1;
    }
    false
}

/// Every block of the components is a block of the graph, in the component
/// that `block2comp` names for it, and every successor of such a block is in
/// some component.
pub open spec fn comps_consistent(adj: Seq<Seq<usize>>, comps: Seq<Component>, block2comp: Seq<Option<usize>>) -> bool {
    &&& block2comp.len() == adj.len()
    &&& forall|b: int|
        0 <= b < adj.len() && (#[trigger] block2comp[b]) is Some ==> block2comp[b]->0 < comps.len()
            && comps[block2comp[b]->0 as int].vertices@.contains(BasicBlockIdx(b as usize))
    &&& forall|c: int, k: int|
        0 <= c < comps.len() && 0 <= k < comps[c].vertices@.len() ==> {
            let v = #[trigger] comps[c].vertices@[k];
            &&& v.0 < adj.len()
            &&& block2comp[v.0 as int] == Some(c as usize)
        }
    &&& forall|c: int, k: int, j: int|
        0 <= c < comps.len() && 0 <= k < comps[c].vertices@.len() && 0 <= j < adj[comps[c].vertices@[k].0 as int].len()
            ==> (#[trigger] block2comp[adj[comps[c].vertices@[k].0 as int][j] as int]) is Some
}

/// The components that component `c`'s blocks lead to, each once.
fn component_successors(
    cfg: &Cfg,
    comps: &Vec<Component>,
    block2comp: &Vec<Option<usize>>,
    c: usize,
) -> (r: Vec<ComponentIdx>)
    requires
        cfg.wf(),
        c < comps@.len(),
        comps_consistent(cfg.adj(), comps@, block2comp@),
    ensures
        forall|i: int, j: int| 0 <= i < j < r@.len() ==> (#[trigger] r@[i]) != (#[trigger] r@[j]),
        forall|d: int|
            0 <= d < comps@.len() ==> (r@.contains(ComponentIdx(d as usize)) <==> exits_to(
                cfg.adj(),
                comps@[c as int].vertices@,
                comps@[d].vertices@,
            )),
        forall|i: int| 0 <= i < r@.len() ==> (#[trigger] r@[i]).0 < comps@.len(),
{
    let ghost adj = cfg.adj();
    let comp = &comps[c];
    let ghost vs = comp.vertices@;
    let ncomps = comps.len();
    let mut out: Vec<ComponentIdx> = Vec::new();
    let mut vi: usize = 0;
    while vi < comp.vertices.len()
        invariant
            cfg.wf(),
            adj == cfg.adj(),
            c < comps@.len(),
            comp == comps@[c as int],
            vs == comp.vertices@,
            comps_consistent(adj, comps@, block2comp@),
            ncomps == comps@.len(),
            vi <= vs.len(),
            forall|i: int, j: int| 0 <= i < j < out@.len() ==> (#[trigger] out@[i]) != (#[trigger] out@[j]),
            forall|i: int| 0 <= i < out@.len() ==> (#[trigger] out@[i]).0 < comps@.len(),
            forall|d: int|
                0 <= d < comps@.len() ==> (out@.contains(ComponentIdx(d as usize)) <==> exits_to_upto(
                    adj,
                    vs,
                    comps@[d].vertices@,
                    vi as int,
                    0,
                )),
        decreases vs.len() - vi,
    {
        let v = comp.vertices[vi];
        proof {
            assert(v == vs[vi as int]);
            assert(v.0 < adj.len());
        }
        let successors = cfg.successors(v);
        proof {
            assert(block_indices(successors@) == adj[v.0 as int]);
            assert forall|d: int| 0 <= d < comps@.len() implies (exits_to_upto(adj, vs, comps@[d].vertices@, vi as int, 0)
                <==> exits_to_upto(adj, vs, comps@[d].vertices@, vi - 1, adj[vs[vi - 1].0 as int].len() as int)
                || vi == 0 && false) by {
                if vi == 0 {
                    if exits_to_upto(adj, vs, comps@[d].vertices@, 0, 0) {
                        let (i, k) = choose|i: int, k: int|
                            #![trigger adj[vs[i].0 as int][k]]
                            0 <= i <= 0 && 0 <= k < adj[vs[i].0 as int].len() && (i < 0 || k < 0) && !vs.contains(
                                BasicBlockIdx(adj[vs[i].0 as int][k]),
                            ) && comps@[d].vertices@.contains(BasicBlockIdx(adj[vs[i].0 as int][k]));
                    }
                }
            }
        }
        let mut ki: usize = 0;
        while ki < successors.len()
            invariant
                cfg.wf(),
                adj == cfg.adj(),
                c < comps@.len(),
                comp == comps@[c as int],
                vs == comp.vertices@,
                comps_consistent(adj, comps@, block2comp@),
                ncomps == comps@.len(),
                vi < vs.len(),
                v == vs[vi as int],
                block_indices(successors@) == adj[v.0 as int],
                ki <= successors@.len(),
                forall|i: int, j: int| 0 <= i < j < out@.len() ==> (#[trigger] out@[i]) != (#[trigger] out@[j]),
                forall|i: int| 0 <= i < out@.len() ==> (#[trigger] out@[i]).0 < comps@.len(),
                forall|d: int|
                    0 <= d < comps@.len() ==> (out@.contains(ComponentIdx(d as usize)) <==> exits_to_upto(
                        adj,
                        vs,
                        comps@[d].vertices@,
                        vi as int,
                        ki as int,
                    )),
            decreases successors.len() - ki,
        {
            let s = successors[ki];
            proof {
                assert(block_indices(successors@)[ki as int] == s.0);
                assert(adj[v.0 as int][ki as int] == s.0);
                assert(BasicBlockIdx(s.0) == s);
            }
            let ghost out0 = out@;
            if !comp.contains(s) {
                proof {
                    assert(block2comp@[adj[comps@[c as int].vertices@[vi as int].0 as int][ki as int] as int] is Some);
                }
                let d = ComponentIdx(block2comp[s.0].unwrap());
                proof {
                    assert(Some(d.0) == block2comp@[s.0 as int]);
                    assert(comps@[d.0 as int].vertices@.contains(s));
                }
                let already = contains_component(&out, d);
                if !already {
                    out.push(d);
                }
                proof {
                    assert(already ==> out@ == out0);
                    assert(!already ==> out@ == out0.push(d));
                    assert(out@.contains(d)) by {
                        if already {
                            assert(out0.contains(d));
                        } else {
                            assert(out@[out0.len() as int] == d);
                        }
                    }
                    assert forall|e: int| 0 <= e < comps@.len() implies (out@.contains(ComponentIdx(e as usize)) <==> exits_to_upto(
                        adj,
                        vs,
                        comps@[e].vertices@,
                        vi as int,
                        ki + 1,
                    )) by {
                        if exits_to_upto(adj, vs, comps@[e].vertices@, vi as int, ki + 1) {
                            let (i, k) = choose|i: int, k: int|
                                #![trigger adj[vs[i].0 as int][k]]
                                0 <= i <= vi && 0 <= k < adj[vs[i].0 as int].len() && (i < vi || k < ki + 1) && !vs.contains(
                                    BasicBlockIdx(adj[vs[i].0 as int][k]),
                                ) && comps@[e].vertices@.contains(BasicBlockIdx(adj[vs[i].0 as int][k]));
                            if i == vi && k == ki {
                                let x = choose|x: int| 0 <= x < comps@[e].vertices@.len() && comps@[e].vertices@[x] == s;
                                assert(comps@[e].vertices@[x] == s);
                                assert(block2comp@[s.0 as int] == Some(e as usize));
                                assert(d.0 == e);
                            } else {
                                assert(exits_to_upto(adj, vs, comps@[e].vertices@, vi as int, ki as int));
                                assert(out0.contains(ComponentIdx(e as usize)));
                                let x = choose|x: int| 0 <= x < out0.len() && out0[x] == ComponentIdx(e as usize);
                                assert(out@[x] == out0[x]);
                            }
                        }
                        if out@.contains(ComponentIdx(e as usize)) {
                            if out0.contains(ComponentIdx(e as usize)) {
                                assert(exits_to_upto(adj, vs, comps@[e].vertices@, vi as int, ki as int));
                                let (i, k) = choose|i: int, k: int|
                                    #![trigger adj[vs[i].0 as int][k]]
                                    0 <= i <= vi && 0 <= k < adj[vs[i].0 as int].len() && (i < vi || k < ki) && !vs.contains(
                                        BasicBlockIdx(adj[vs[i].0 as int][k]),
                                    ) && comps@[e].vertices@.contains(BasicBlockIdx(adj[vs[i].0 as int][k]));
                                assert(adj[vs[i].0 as int][k] == adj[vs[i].0 as int][k]);
                            } else {
                                let x = choose|x: int| 0 <= x < out@.len() && out@[x] == ComponentIdx(e as usize);
                                assert(x == out0.len());
                                assert(d.0 == e);
                                assert(adj[vs[vi as int].0 as int][ki as int] == s.0);
                            }
                        }
                    }
                }
            } else {
                proof {
                    assert forall|e: int| 0 <= e < comps@.len() implies (out@.contains(ComponentIdx(e as usize)) <==> exits_to_upto(
                        adj,
                        vs,
                        comps@[e].vertices@,
                        vi as int,
                        ki + 1,
                    )) by {
                        if exits_to_upto(adj, vs, comps@[e].vertices@, vi as int, ki + 1) {
                            let (i, k) = choose|i: int, k: int|
                                #![trigger adj[vs[i].0 as int][k]]
                                0 <= i <= vi && 0 <= k < adj[vs[i].0 as int].len() && (i < vi || k < ki + 1) && !vs.contains(
                                    BasicBlockIdx(adj[vs[i].0 as int][k]),
                                ) && comps@[e].vertices@.contains(BasicBlockIdx(adj[vs[i].0 as int][k]));
                            assert(!(i == vi && k == ki));
                            assert(exits_to_upto(adj, vs, comps@[e].vertices@, vi as int, ki as int));
                        }
                        if out@.contains(ComponentIdx(e as usize)) {
                            assert(exits_to_upto(adj, vs, comps@[e].vertices@, vi as int, ki as int));
                            let (i, k) = choose|i: int, k: int|
                                #![trigger adj[vs[i].0 as int][k]]
                                0 <= i <= vi && 0 <= k < adj[vs[i].0 as int].len() && (i < vi || k < ki) && !vs.contains(
                                    BasicBlockIdx(adj[vs[i].0 as int][k]),
                                ) && comps@[e].vertices@.contains(BasicBlockIdx(adj[vs[i].0 as int][k]));
                            assert(adj[vs[i].0 as int][k] == adj[vs[i].0 as int][k]);
                        }
                    }
                }
            }
            ki = ki + 1;
        }
        proof {
            assert forall|d: int| 0 <= d < comps@.len() implies (exits_to_upto(adj, vs, comps@[d].vertices@, vi as int, ki as int)
                <==> exits_to_upto(adj, vs, comps@[d].vertices@, vi + 1, 0)) by {
                if exits_to_upto(adj, vs, comps@[d].vertices@, vi as int, ki as int) {
                    let (i, k) = choose|i: int, k: int|
                        #![trigger adj[vs[i].0 as int][k]]
                        0 <= i <= vi && 0 <= k < adj[vs[i].0 as int].len() && (i < vi || k < ki) && !vs.contains(
                            BasicBlockIdx(adj[vs[i].0 as int][k]),
                        ) && comps@[d].vertices@.contains(BasicBlockIdx(adj[vs[i].0 as int][k]));
                    assert(adj[vs[i].0 as int][k] == adj[vs[i].0 as int][k]);
                }
                if exits_to_upto(adj, vs, comps@[d].vertices@, vi + 1, 0) {
                    let (i, k) = choose|i: int, k: int|
                        #![trigger adj[vs[i].0 as int][k]]
                        0 <= i <= vi + 1 && 0 <= k < adj[vs[i].0 as int].len() && (i < vi + 1 || k < 0) && !vs.contains(
                            BasicBlockIdx(adj[vs[i].0 as int][k]),
                        ) && comps@[d].vertices@.contains(BasicBlockIdx(adj[vs[i].0 as int][k]));
                    assert(adj[vs[i].0 as int][k] == adj[vs[i].0 as int][k]);
                    if i == vi {
                        assert(block_indices(successors@).len() == successors@.len());
                    }
                }
            }
        }
        vi = vi + 1;
    }
    out
}

} // verus!

verus! {

/// The graph whose vertices are the components and whose edges are the
/// components' edges.
pub open spec fn comp_adj(edges: Seq<Vec<ComponentIdx>>) -> Seq<Seq<usize>> {
    Seq::new(edges.len(), |c: int| comp_indices(edges[c]@))
}

/// In a component with an edge inside it, some edge from the component
/// enters its entry, which every other block of it reaches; so a component
/// counts a back edge exactly when it has an edge inside it.
proof fn lemma_back_edge_exists(cfg: &Cfg, comps: Seq<Component>, c: int)
    requires
        cfg.wf(),
        2 * cfg.num_blocks() < usize::MAX,
        0 <= c < comps.len(),
        forall|b: int|
            0 <= b < cfg.num_blocks() ==> (#[trigger] cfg.reaches(b as usize) <==> exists|c: int|
                0 <= c < comps.len() && (#[trigger] comps[c]).vertices@.contains(BasicBlockIdx(b as usize))),
        forall|c: int, k: int|
            0 <= c < comps.len() && 0 <= k < comps[c].vertices@.len() ==> (#[trigger] comps[c].vertices@[k]).0 < cfg.num_blocks(),
        forall|c: int| 0 <= c < comps.len() ==> (#[trigger] comps[c]).vertices@.contains(comps[c].entry),
        forall|c: int, k: int|
            0 <= c < comps.len() && 0 <= k < comps[c].vertices@.len() ==> reachable(
                cfg.adj(),
                comps[c].entry.0,
                (#[trigger] comps[c].vertices@[k]).0,
            ) && reachable(cfg.adj(), comps[c].vertices@[k].0, comps[c].entry.0),
        forall|c1: int, c2: int, u: BasicBlockIdx, v: BasicBlockIdx|
            0 <= c1 < comps.len() && 0 <= c2 < comps.len() && #[trigger] comps[c1].vertices@.contains(u)
                && #[trigger] comps[c2].vertices@.contains(v) && reachable(cfg.adj(), u.0, v.0) && reachable(
                cfg.adj(),
                v.0,
                u.0,
            ) ==> c1 == c2,
        edges_into(cfg.adj(), comps[c].vertices@, comps[c].entry.0) <= comps[c].num_back_edges,
        comps[c].num_back_edges <= inner_edges(cfg.adj(), comps[c].vertices@) - comps[c].vertices@.len() + 1,
    ensures
        comps[c].num_back_edges > 0 <==> inner_edges(cfg.adj(), comps[c].vertices@) > 0,
{
    let adj = cfg.adj();
    let n = cfg.num_blocks();
    let vs = comps[c].vertices@;
    let e = comps[c].entry;
    assert(vs.len() >= 1) by {
        assert(vs.contains(e));
    }
    if inner_edges(adj, vs) > 0 {
        let terms = Seq::new(
            adj.len(),
            |b: int|
                if vs.contains(BasicBlockIdx(b as usize)) {
                    count_inside(adj[b], vs)
                } else {
                    0
                },
        );
        let b = lemma_sum_pos(terms);
        assert(vs.contains(BasicBlockIdx(b as usize)));
        let k = lemma_count_inside_pos(adj[b], vs);
        let x = adj[b][k];
        let kx = choose|kx: int| 0 <= kx < vs.len() && vs[kx] == BasicBlockIdx(x);
        // a block of the component with an edge into the entry
        let y: usize = if x == e.0 {
            b as usize
        } else {
            assert(reachable(adj, vs[kx].0, e.0));
            let p = choose|p: Seq<usize>| is_path(adj, p) && p[0] == x && p.last() == e.0;
            assert(p.len() >= 2);
            let y = p[p.len() - 2];
            let q = p.take(p.len() - 1);
            assert(is_path(adj, q)) by {
                assert forall|i: int| 0 <= i < q.len() - 1 implies adj[#[trigger] q[i] as int].contains(q[i + 1]) by {
                    assert(q[i] == p[i] && q[i + 1] == p[i + 1]);
                }
            }
            assert(q[0] == x && q.last() == y);
            assert(reachable(adj, x, y));
            assert(adj[y as int].contains(e.0)) by {
                assert(p[p.len() - 1] == e.0);
            }
            assert(y < n);
            assert(e.0 < n) by {
                let ke = choose|ke: int| 0 <= ke < vs.len() && vs[ke] == e;
            }
            lemma_reach_edge(adj, y, e.0);
            assert(reachable(adj, e.0, x));
            lemma_reach_trans(adj, e.0, x, y);
            let ke = choose|ke: int| 0 <= ke < vs.len() && vs[ke] == e;
            assert(cfg.reaches(e.0)) by {
                assert(comps[c].vertices@.contains(BasicBlockIdx(e.0 as usize)));
            }
            lemma_reach_trans(adj, cfg.entry.0, e.0, y);
            assert(cfg.reaches(y as int as usize));
            let c2 = choose|c2: int| 0 <= c2 < comps.len() && (#[trigger] comps[c2]).vertices@.contains(BasicBlockIdx(y));
            assert(comps[c].vertices@.contains(e));
            assert(c2 == c);
            y
        };
        assert(vs.contains(BasicBlockIdx(y)));
        assert(y < n);
        let ky: int = if x == e.0 {
            k
        } else {
            choose|ky: int| 0 <= ky < adj[y as int].len() && adj[y as int][ky] == e.0
        };
        assert(adj[y as int][ky] == e.0);
        lemma_occurrences_pos(adj[y as int], ky);
        let into = Seq::new(
            adj.len(),
            |t: int|
                if vs.contains(BasicBlockIdx(t as usize)) {
                    occurrences(adj[t], e.0)
                } else {
                    0
                },
        );
        assert forall|t: int| 0 <= t < into.len() implies #[trigger] into[t] >= 0 by {
            lemma_occurrences_nonneg(adj[t], e.0);
        }
        assert(BasicBlockIdx(y as int as usize) == BasicBlockIdx(y));
        lemma_sum_ints_nonneg_le(into, y as int);
    }
}

/// Records `b` as a predecessor of `t`.
fn add_comp_predecessor(rev_edges: &mut Vec<Vec<ComponentIdx>>, t: usize, b: usize)
    requires
        t < old(rev_edges)@.len(),
    ensures
        final(rev_edges)@.len() == old(rev_edges)@.len(),
        forall|u: int|
            0 <= u < old(rev_edges)@.len() ==> (#[trigger] final(rev_edges)@[u])@ == if u == t {
                old(rev_edges)@[u]@.push(ComponentIdx(b))
            } else {
                old(rev_edges)@[u]@
            },
{
    let mut list: Vec<ComponentIdx> = Vec::new();
    std::mem::swap(&mut list, &mut rev_edges[t]);
    list.push(ComponentIdx(b));
    rev_edges.set(t, list);
}

impl<'cfg, 'program> CondensedCfg<'cfg, 'program> {
    /// The strongly connected components of the blocks reachable from the
    /// entry, found by Tarjan's algorithm, with the edges between them: each
    /// reachable block lies in exactly one component; the blocks of a
    /// component reach its entry block and are reached from it; two blocks
    /// that reach each other lie in one component; a component only reaches
    /// itself and components listed before it; the entry's component is the
    /// entry of the condensed graph; a component has an edge to each
    /// component that an edge leaving it enters, always one listed before
    /// it, so the condensed graph has no cycle; the reverse edges list each
    /// component's predecessors in order; and each component counts its back
    /// edges, those into a block on the path of the search: at least every
    /// edge from it into its entry, at most the edges inside it beyond one
    /// per block but the entry, and some exactly when it has an edge inside
    /// it.
    pub fn from_cfg(cfg: &'cfg Cfg<'program>) -> (r: Self)
        requires
            cfg.wf(),
            cfg.num_blocks() > 0,
            2 * cfg.num_blocks() < usize::MAX,
        ensures
            r.cfg == cfg,
            forall|b: int|
                0 <= b < cfg.num_blocks() ==> (#[trigger] cfg.reaches(b as usize) <==> exists|c: int|
                    0 <= c < r.components@.len() && (#[trigger] r.components@[c]).vertices@.contains(
                        BasicBlockIdx(b as usize),
                    )),
            forall|c1: int, c2: int, v: BasicBlockIdx|
                0 <= c1 < r.components@.len() && 0 <= c2 < r.components@.len() && #[trigger] r.components@[c1].vertices@.contains(v)
                    && #[trigger] r.components@[c2].vertices@.contains(v) ==> c1 == c2,
            forall|c: int, k: int|
                0 <= c < r.components@.len() && 0 <= k < r.components@[c].vertices@.len() ==> (#[trigger] r.components@[c].vertices@[k]).0
                    < cfg.num_blocks(),
            forall|c: int, i: int, j: int|
                0 <= c < r.components@.len() && 0 <= i < j < r.components@[c].vertices@.len() ==> (#[trigger] r.components@[c].vertices@[i])
                    != (#[trigger] r.components@[c].vertices@[j]),
            forall|c: int| 0 <= c < r.components@.len() ==> (#[trigger] r.components@[c]).vertices@.contains(r.components@[c].entry),
            r.entry.0 < r.components@.len(),
            r.components@[r.entry.0 as int].vertices@.contains(cfg.entry),
            r.components@[r.entry.0 as int].entry == cfg.entry,
            r.edges@.len() == r.components@.len(),
            forall|c: int, i: int, j: int|
                0 <= c < r.edges@.len() && 0 <= i < j < r.edges@[c]@.len() ==> (#[trigger] r.edges@[c]@[i]) != (#[trigger] r.edges@[c]@[j]),
            forall|c: int, d: int|
                0 <= c < r.components@.len() && 0 <= d < r.components@.len() ==> (r.edges@[c]@.contains(ComponentIdx(d as usize))
                    <==> #[trigger] exits_to(cfg.adj(), r.components@[c].vertices@, r.components@[d].vertices@)),
            r.rev_edges@.len() == r.components@.len(),
            forall|t: int|
                0 <= t < r.components@.len() ==> comp_indices((#[trigger] r.rev_edges@[t])@) == pred_list(
                    comp_adj(r.edges@),
                    t as usize,
                    r.components@.len(),
                ),
            forall|c: int, k: int|
                0 <= c < r.components@.len() && 0 <= k < r.components@[c].vertices@.len() ==> reachable(
                    cfg.adj(),
                    r.components@[c].entry.0,
                    (#[trigger] r.components@[c].vertices@[k]).0,
                ) && reachable(cfg.adj(), r.components@[c].vertices@[k].0, r.components@[c].entry.0),
            forall|c1: int, c2: int, u: BasicBlockIdx, v: BasicBlockIdx|
                0 <= c1 < r.components@.len() && 0 <= c2 < r.components@.len() && #[trigger] r.components@[c1].vertices@.contains(u)
                    && #[trigger] r.components@[c2].vertices@.contains(v) && reachable(cfg.adj(), u.0, v.0) ==> c2 <= c1,
            forall|c1: int, c2: int, u: BasicBlockIdx, v: BasicBlockIdx|
                0 <= c1 < r.components@.len() && 0 <= c2 < r.components@.len() && #[trigger] r.components@[c1].vertices@.contains(u)
                    && #[trigger] r.components@[c2].vertices@.contains(v) && reachable(cfg.adj(), u.0, v.0) && reachable(
                    cfg.adj(),
                    v.0,
                    u.0,
                ) ==> c1 == c2,
            forall|c: int, i: int| 0 <= c < r.edges@.len() && 0 <= i < r.edges@[c]@.len() ==> (#[trigger] r.edges@[c]@[i]).0 < c,
            forall|c: int|
                0 <= c < r.components@.len() ==> edges_into(cfg.adj(), (#[trigger] r.components@[c]).vertices@, r.components@[c].entry.0)
                    <= r.components@[c].num_back_edges && r.components@[c].num_back_edges <= inner_edges(
                    cfg.adj(),
                    r.components@[c].vertices@,
                ) - r.components@[c].vertices@.len() + 1,
            forall|c: int|
                0 <= c < r.components@.len() ==> ((#[trigger] r.components@[c]).num_back_edges > 0 <==> inner_edges(
                    cfg.adj(),
                    r.components@[c].vertices@,
                ) > 0),
    {
        let ghost n = cfg.num_blocks();
        let ghost adj = cfg.adj();
        let num = cfg.vertices.len();
        let mut st = TarjanState {
            val: 0,
            lowest: Vec::new(),
            preorder: Vec::new(),
            back_edges_cnt: Vec::new(),
            on_path: Vec::new(),
            seen_cnt: Ghost(Seq::empty()),
            stack: Vec::new(),
            in_stack: Vec::new(),
            components: Vec::new(),
            block2comp: Vec::new(),
            prog: Ghost(Seq::new(cfg.num_blocks(), |u: int| 0int)),
            parent: Ghost(Seq::new(cfg.num_blocks(), |u: int| None)),
        };
        let mut i: usize = 0;
        while i < num
            invariant
                i <= num,
                num == n,
                st.val == 0,
                st.lowest@.len() == i,
                st.preorder@.len() == i,
                st.seen_cnt@.len() == i,
                st.back_edges_cnt@.len() == i,
                st.on_path@.len() == i,
                forall|b: int| 0 <= b < i ==> #[trigger] st.back_edges_cnt@[b] == 0,
                forall|b: int| 0 <= b < i ==> !#[trigger] st.on_path@[b],
                st.in_stack@.len() == i,
                st.block2comp@.len() == i,
                st.stack@.len() == 0,
                st.components@.len() == 0,
                forall|b: int| 0 <= b < i ==> (#[trigger] st.preorder@[b]) is None,
                forall|b: int| 0 <= b < i ==> #[trigger] st.seen_cnt@[b] == 0,
                forall|b: int| 0 <= b < i ==> !#[trigger] st.in_stack@[b],
                forall|b: int| 0 <= b < i ==> (#[trigger] st.block2comp@[b]) is None,
                st.prog@.len() == n,
                st.parent@.len() == n,
                forall|u: int| 0 <= u < n ==> #[trigger] st.prog@[u] == 0,
                forall|u: int| 0 <= u < n ==> (#[trigger] st.parent@[u]) is None,
            decreases num - i,
        {
            let ghost s_old = st;
            st.lowest.push(0);
            st.preorder.push(None);
            st.seen_cnt = Ghost(st.seen_cnt@.push(0));
            st.back_edges_cnt.push(0);
            st.on_path.push(false);
            st.in_stack.push(false);
            st.block2comp.push(None);
            proof {
                assert(st.preorder@ == s_old.preorder@.push(None));
                assert(st.seen_cnt@ == s_old.seen_cnt@.push(0));
                assert(st.back_edges_cnt@ == s_old.back_edges_cnt@.push(0));
                assert(st.on_path@ == s_old.on_path@.push(false));
                assert(st.in_stack@ == s_old.in_stack@.push(false));
                assert(st.block2comp@ == s_old.block2comp@.push(None));
            }
            i = i + 1;
        }
        proof {
            lemma_path_init(st, n);
            assert forall|b: int| 0 <= b < st.visited().len() implies !st.visited()[b] by {
                assert(st.preorder@[b] is None);
            }
            lemma_count_unvisited_none(st.visited());
            assert forall|b: int| 0 <= b < st.pending().len() implies st.pending()[b] == 0 by {
                assert(!st.in_stack@[b]);
            }
            lemma_sum_ints_zero(st.pending());
            assert(st.counted() == 0);
            assert forall|b: int| 0 <= b < n && (#[trigger] st.preorder@[b]) is Some implies st.preorder@[b]->0 < st.val by {}
            assert forall|b: int| 0 <= b < n && #[trigger] st.in_stack@[b] implies st.preorder@[b] is Some by {}
            assert forall|b: int| 0 <= b < n && (#[trigger] st.block2comp@[b]) is Some implies false by {}
            assert(Seq::new(0, |c: int| st.components@[c].num_back_edges as int) =~= Seq::<int>::empty());
            assert forall|b: int| 0 <= b < n implies (#[trigger] st.in_stack@[b] <==> st.stack@.contains(BasicBlockIdx(b as usize))) by {}
            assert(st.inv(n));
            let p = seq![cfg.entry.0];
            assert(is_path(adj, p));
            assert(p[0] == cfg.entry.0 && p.last() == cfg.entry.0);
            assert(cfg.reaches(cfg.entry.0));
        }
        proof {
            assert forall|b: int| 0 <= b < n implies !(#[trigger] st.in_stack@[b]) by {}
            lemma_search_init(adj, n, st, cfg.entry.0);
        }
        let ghost st0 = st;
        let ghost budget = count_unvisited(st.visited());
        tarjan(cfg, &mut st, cfg.entry, Ghost(budget), Ghost(None));
        proof {
            lemma_search_counts(adj, n, st0, st, cfg.entry.0, None);
            assert(st.stack@ =~= st0.stack@);
            assert(st0.preorder@[cfg.entry.0 as int] is None);
            assert(!st0.visited()[cfg.entry.0 as int]);
            assert forall|a: int, k: int|
                0 <= a < adj.len() && st.visited()[a] && 0 <= k < adj[a].len() implies st.visited()[#[trigger] adj[a][k] as int] by {
                assert(!st0.visited()[a]);
            }
            assert forall|b: int| 0 <= b < n implies (cfg.reaches(b as usize) <==> st.visited()[b]) by {
                if cfg.reaches(b as usize) {
                    lemma_closed_holds_reachable(adj, st.visited(), cfg.entry.0, b as usize);
                }
            }
            assert forall|b: int| 0 <= b < n implies (st.visited()[b] <==> (#[trigger] st.block2comp@[b]) is Some) by {
                if st.visited()[b] {
                    assert(st.preorder@[b] is Some);
                    if st.in_stack@[b] {
                        assert(st.stack@.contains(BasicBlockIdx(b as usize)));
                    }
                }
            }
            assert(comps_consistent(adj, st.components@, st.block2comp@)) by {
                assert forall|c: int, k: int, j: int|
                    0 <= c < st.components@.len() && 0 <= k < st.components@[c].vertices@.len() && 0 <= j < adj[st.components@[c].vertices@[k].0 as int].len()
                        implies (#[trigger] st.block2comp@[adj[st.components@[c].vertices@[k].0 as int][j] as int]) is Some by {
                    let v = st.components@[c].vertices@[k];
                    assert(st.block2comp@[v.0 as int] == Some(c as usize));
                    assert(st.visited()[v.0 as int]);
                    assert(st.visited()[adj[v.0 as int][j] as int]);
                }
            }
        }
        let ghost st_f = st;
        let TarjanState { val: _, lowest: _, preorder: _, seen_cnt: _, stack: _, in_stack: _, components, block2comp, prog: _, parent: _, back_edges_cnt: _, on_path: _ } = st;
        let m = components.len();
        let mut edges: Vec<Vec<ComponentIdx>> = Vec::new();
        let mut c: usize = 0;
        while c < m
            invariant
                cfg.wf(),
                adj == cfg.adj(),
                m == components@.len(),
                comps_consistent(adj, components@, block2comp@),
                c <= m,
                edges@.len() == c,
                forall|x: int, i: int, j: int|
                    0 <= x < c && 0 <= i < j < edges@[x]@.len() ==> (#[trigger] edges@[x]@[i]) != (#[trigger] edges@[x]@[j]),
                forall|x: int, d: int|
                    0 <= x < c && 0 <= d < m ==> (edges@[x]@.contains(ComponentIdx(d as usize)) <==> #[trigger] exits_to(
                        adj,
                        components@[x].vertices@,
                        components@[d].vertices@,
                    )),
                forall|x: int, i: int| 0 <= x < c && 0 <= i < edges@[x]@.len() ==> (#[trigger] edges@[x]@[i]).0 < m,
            decreases m - c,
        {
            let out = component_successors(cfg, &components, &block2comp, c);
            edges.push(out);
            c = c + 1;
        }
        let ghost cadj = comp_adj(edges@);
        let mut rev_edges: Vec<Vec<ComponentIdx>> = Vec::new();
        let mut t: usize = 0;
        while t < m
            invariant
                t <= m,
                rev_edges@.len() == t,
                forall|u: int| 0 <= u < t ==> (#[trigger] rev_edges@[u])@ == Seq::<ComponentIdx>::empty(),
            decreases m - t,
        {
            rev_edges.push(Vec::new());
            t = t + 1;
        }
        proof {
            assert forall|u: int| 0 <= u < m implies comp_indices((#[trigger] rev_edges@[u])@) == pred_list(cadj, u as usize, 0) by {
                assert(comp_indices(rev_edges@[u]@) =~= Seq::<usize>::empty());
            }
        }
        let mut src: usize = 0;
        while src < m
            invariant
                src <= m,
                m == components@.len(),
                edges@.len() == m,
                cadj == comp_adj(edges@),
                forall|x: int, i: int| 0 <= x < m && 0 <= i < edges@[x]@.len() ==> (#[trigger] edges@[x]@[i]).0 < m,
                rev_edges@.len() == m,
                forall|u: int| 0 <= u < m ==> comp_indices((#[trigger] rev_edges@[u])@) == pred_list(cadj, u as usize, src as nat),
            decreases m - src,
        {
            let out = &edges[src];
            let mut j: usize = 0;
            let ghost row = cadj[src as int];
            proof {
                assert(row == comp_indices(out@));
                assert forall|u: int| 0 <= u < m implies comp_indices((#[trigger] rev_edges@[u])@) == pred_list(cadj, u as usize, src as nat) + crate::cfg::edges_to(row.take(0), u as usize, src) by {
                    assert(row.take(0) =~= Seq::<usize>::empty());
                    assert(pred_list(cadj, u as usize, src as nat) + Seq::<usize>::empty() =~= pred_list(cadj, u as usize, src as nat));
                }
            }
            while j < out.len()
                invariant
                    src < m,
                    m == components@.len(),
                    edges@.len() == m,
                    out == edges@[src as int],
                    row == comp_indices(out@),
                    cadj == comp_adj(edges@),
                    forall|x: int, i: int| 0 <= x < m && 0 <= i < edges@[x]@.len() ==> (#[trigger] edges@[x]@[i]).0 < m,
                    j <= out@.len(),
                    rev_edges@.len() == m,
                    forall|u: int|
                        0 <= u < m ==> comp_indices((#[trigger] rev_edges@[u])@) == pred_list(cadj, u as usize, src as nat)
                            + crate::cfg::edges_to(row.take(j as int), u as usize, src),
                decreases out.len() - j,
            {
                let dst = out[j];
                proof {
                    assert(edges@[src as int]@[j as int] == dst);
                }
                let ghost rev0 = rev_edges@;
                add_comp_predecessor(&mut rev_edges, dst.0, src);
                proof {
                    assert(row.take(j + 1).drop_last() =~= row.take(j as int));
                    assert(row.take(j + 1).last() == dst.0);
                    assert forall|u: int| 0 <= u < m implies comp_indices((#[trigger] rev_edges@[u])@) == pred_list(cadj, u as usize, src as nat)
                        + crate::cfg::edges_to(row.take(j + 1), u as usize, src) by {
                        assert(comp_indices(rev0[u]@.push(ComponentIdx(src))) =~= comp_indices(rev0[u]@).push(src));
                        if u == dst.0 {
                            assert(crate::cfg::edges_to(row.take(j + 1), u as usize, src) == crate::cfg::edges_to(row.take(j as int), u as usize, src) + seq![src]);
                        } else {
                            assert(crate::cfg::edges_to(row.take(j + 1), u as usize, src) =~= crate::cfg::edges_to(row.take(j as int), u as usize, src));
                        }
                    }
                }
                j = j + 1;
            }
            proof {
                assert(row.take(out@.len() as int) =~= row);
                assert forall|u: int| 0 <= u < m implies comp_indices((#[trigger] rev_edges@[u])@) == pred_list(cadj, u as usize, (src + 1) as nat) by {
                    crate::cfg::lemma_pred_list_step(cadj, u as usize, src as nat);
                }
            }
            src = src + 1;
        }
        proof {
            assert(block2comp@[cfg.entry.0 as int] is Some);
        }
        let entry = ComponentIdx(block2comp[cfg.entry.0].unwrap());
        let r = CondensedCfg { cfg, entry, components, edges, rev_edges };
        proof {
            let lc = st_f.components@.len() - 1;
            assert(st_f.components@[lc].entry == cfg.entry);
            assert(st_f.components@[lc].vertices@.contains(cfg.entry));
            let ke = choose|k: int| 0 <= k < st_f.components@[lc].vertices@.len() && st_f.components@[lc].vertices@[k] == cfg.entry;
            assert(st_f.block2comp@[st_f.components@[lc].vertices@[ke].0 as int] == Some(lc as usize));
            assert forall|b: int|
                0 <= b < n implies (#[trigger] cfg.reaches(b as usize) <==> exists|c: int|
                    0 <= c < r.components@.len() && (#[trigger] r.components@[c]).vertices@.contains(BasicBlockIdx(b as usize))) by {
                if cfg.reaches(b as usize) {
                    assert(block2comp@[b] is Some);
                    let c = block2comp@[b]->0 as int;
                    assert(r.components@[c].vertices@.contains(BasicBlockIdx(b as usize)));
                }
                if exists|c: int| 0 <= c < r.components@.len() && (#[trigger] r.components@[c]).vertices@.contains(BasicBlockIdx(b as usize)) {
                    let c = choose|c: int| 0 <= c < r.components@.len() && (#[trigger] r.components@[c]).vertices@.contains(BasicBlockIdx(b as usize));
                    let k = choose|k: int| 0 <= k < r.components@[c].vertices@.len() && r.components@[c].vertices@[k] == BasicBlockIdx(b as usize);
                    assert(block2comp@[b] == Some(c as usize));
                }
            }
            assert forall|c1: int, c2: int, v: BasicBlockIdx|
                0 <= c1 < r.components@.len() && 0 <= c2 < r.components@.len() && #[trigger] r.components@[c1].vertices@.contains(v)
                    && #[trigger] r.components@[c2].vertices@.contains(v) implies c1 == c2 by {
                let k1 = choose|k: int| 0 <= k < r.components@[c1].vertices@.len() && r.components@[c1].vertices@[k] == v;
                let k2 = choose|k: int| 0 <= k < r.components@[c2].vertices@.len() && r.components@[c2].vertices@[k] == v;
                assert(block2comp@[v.0 as int] == Some(c1 as usize));
                assert(block2comp@[v.0 as int] == Some(c2 as usize));
            }
            assert(components_sound(adj, st_f));
            assert forall|c1: int, c2: int, u: BasicBlockIdx, v: BasicBlockIdx|
                0 <= c1 < r.components@.len() && 0 <= c2 < r.components@.len() && #[trigger] r.components@[c1].vertices@.contains(u)
                    && #[trigger] r.components@[c2].vertices@.contains(v) && reachable(cfg.adj(), u.0, v.0) implies c2 <= c1 by {
                let k1 = choose|k: int| 0 <= k < r.components@[c1].vertices@.len() && r.components@[c1].vertices@[k] == u;
                let k2 = choose|k: int| 0 <= k < r.components@[c2].vertices@.len() && r.components@[c2].vertices@[k] == v;
                assert(block2comp@[u.0 as int] == Some(c1 as usize));
                assert(block2comp@[v.0 as int] == Some(c2 as usize));
                lemma_reach_comp_order(adj, block2comp@, u.0, v.0);
            }
            assert forall|c: int, i: int| 0 <= c < r.edges@.len() && 0 <= i < r.edges@[c]@.len() implies (#[trigger] r.edges@[c]@[i]).0 < c by {
                let d = r.edges@[c]@[i].0 as int;
                assert(r.edges@[c]@.contains(ComponentIdx(d as usize)));
                let vs = r.components@[c].vertices@;
                let ws = r.components@[d].vertices@;
                assert(exits_to(adj, vs, ws));
                let (x, k) = choose|x: int, k: int|
                    #![trigger adj[vs[x].0 as int][k]]
                    0 <= x <= vs.len() && 0 <= k < adj[vs[x].0 as int].len() && (x < vs.len() || k < 0) && !vs.contains(
                        BasicBlockIdx(adj[vs[x].0 as int][k]),
                    ) && ws.contains(BasicBlockIdx(adj[vs[x].0 as int][k]));
                let u = vs[x];
                let t = adj[u.0 as int][k];
                assert(block2comp@[u.0 as int] == Some(c as usize));
                assert(st_f.block2comp@[u.0 as int] is Some);
                assert(block2comp@[t as int]->0 <= c);
                let kt = choose|kt: int| 0 <= kt < ws.len() && ws[kt] == BasicBlockIdx(t);
                assert(block2comp@[t as int] == Some(d as usize));
                if d == c {
                    assert(vs.contains(BasicBlockIdx(t)));
                }
            }
            assert forall|c: int| 0 <= c < r.components@.len() implies ((#[trigger] r.components@[c]).num_back_edges > 0 <==> inner_edges(
                cfg.adj(),
                r.components@[c].vertices@,
            ) > 0) by {
                lemma_back_edge_exists(cfg, r.components@, c);
            }
        }
        r
    }
}

} // verus!
