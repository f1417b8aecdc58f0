pub mod counting;
pub mod liveness;
pub mod reaching_def;
pub mod scc;
pub mod sequential;

use vstd::prelude::*;

use crate::builder::BasicBlockIdx;
use crate::cfg::{block_indices, exit_targets, is_path, reachable, Cfg};
use crate::ir::{named_args, named_dest, FunctionIdx, Instruction, LabelIdx, Value, Variable};

verus! {

/// The direction in which facts flow.
#[derive(Debug, PartialEq, Eq, Clone, Copy, Structural)]
pub enum Direction {
    Forward,
    Backward,
}

/// Number of `false` entries.
pub open spec fn count_unvisited(v: Seq<bool>) -> nat
    decreases v.len(),
{
    if v.len() == 0 {
        0
    } else {
        count_unvisited(v.drop_last()) + if v.last() {
            0nat
        } else {
            1nat
        }
    }
}

pub proof fn lemma_count_unvisited_mono(a: Seq<bool>, b: Seq<bool>)
    requires
        a.len() == b.len(),
        forall|i: int| 0 <= i < a.len() && #[trigger] a[i] ==> b[i],
    ensures
        count_unvisited(b) <= count_unvisited(a),
    decreases a.len(),
{
    if a.len() > 0 {
        lemma_count_unvisited_mono(a.drop_last(), b.drop_last());
    }
}

pub proof fn lemma_count_unvisited_strict(a: Seq<bool>, b: Seq<bool>, k: int)
    requires
        a.len() == b.len(),
        forall|i: int| 0 <= i < a.len() && #[trigger] a[i] ==> b[i],
        0 <= k < a.len(),
        !a[k],
        b[k],
    ensures
        count_unvisited(b) < count_unvisited(a),
    decreases a.len(),
{
    if k == a.len() - 1 {
        lemma_count_unvisited_mono(a.drop_last(), b.drop_last());
    } else {
        lemma_count_unvisited_strict(a.drop_last(), b.drop_last(), k);
    }
}

/// The traversal built so far lists distinct blocks, each marked visited,
/// and every successor of a listed block is marked visited.
pub open spec fn dfs_state(adj: Seq<Seq<usize>>, visited: Seq<bool>, traversal: Seq<usize>) -> bool {
    &&& forall|i: int, j: int|
        0 <= i < j < traversal.len() ==> #[trigger] traversal[i] != #[trigger] traversal[j]
    &&& forall|i: int| 0 <= i < traversal.len() ==> #[trigger] traversal[i] < visited.len()
    &&& forall|i: int| 0 <= i < traversal.len() ==> visited[#[trigger] traversal[i] as int]
    &&& forall|i: int, k: int|
        0 <= i < traversal.len() && 0 <= k < adj[traversal[i] as int].len() ==> visited[#[trigger] adj[#[trigger] traversal[i] as int][k] as int]
}

/// The depth-first search from `v`, with `vis` the blocks visited before:
/// the blocks visited after it, and the blocks it finishes in the order it
/// finishes them, each after the searches from its unvisited successors,
/// taken in order. `fuel` bounds the depth of the search.
pub open spec fn dfs_visit(adj: Seq<Seq<usize>>, vis: Seq<bool>, v: usize, fuel: nat) -> (Seq<bool>, Seq<usize>)
    decreases fuel, 0nat,
{
    if fuel == 0 {
        (vis, Seq::empty())
    } else {
        let r = dfs_children(adj, vis.update(v as int, true), adj[v as int], (fuel - 1) as nat);
        (r.0, r.1.push(v))
    }
}

/// The depth-first searches from the successors `succs` still to be taken,
/// in order, each from a block not visited by then.
pub open spec fn dfs_children(adj: Seq<Seq<usize>>, vis: Seq<bool>, succs: Seq<usize>, fuel: nat) -> (Seq<bool>, Seq<usize>)
    decreases fuel, succs.len(),
{
    if succs.len() == 0 {
        (vis, Seq::empty())
    } else {
        let s = succs[0];
        let r1 = if vis[s as int] {
            (vis, Seq::<usize>::empty())
        } else {
            dfs_visit(adj, vis, s, fuel)
        };
        let r2 = dfs_children(adj, r1.0, succs.drop_first(), fuel);
        (r2.0, r1.1 + r2.1)
    }
}

/// The postorder of the depth-first search from `root` over a graph with no
/// block visited before.
pub open spec fn dfs_postorder(adj: Seq<Seq<usize>>, root: usize) -> Seq<usize> {
    dfs_visit(adj, Seq::new(adj.len(), |i: int| false), root, adj.len()).1
}

/// Extending a path to `a` by an edge gives a path to a successor of `a`.
pub proof fn lemma_reach_step(adj: Seq<Seq<usize>>, s: usize, a: usize, b: usize)
    requires
        reachable(adj, s, a),
        b < adj.len(),
        adj[a as int].contains(b),
    ensures
        reachable(adj, s, b),
{
    let p = choose|p: Seq<usize>| is_path(adj, p) && p[0] == s && p.last() == a;
    let q = p.push(b);
    assert forall|i: int| 0 <= i < q.len() implies #[trigger] q[i] < adj.len() by {
        if i < p.len() {
            assert(q[i] == p[i]);
        }
    }
    assert forall|i: int| 0 <= i < q.len() - 1 implies adj[#[trigger] q[i] as int].contains(q[i + 1]) by {
        if i < p.len() - 1 {
            assert(q[i] == p[i] && q[i + 1] == p[i + 1]);
        }
    }
    assert(is_path(adj, q));
    assert(q[0] == s && q.last() == b);
}

/// Every vertex reaches itself.
pub proof fn lemma_reach_refl(adj: Seq<Seq<usize>>, a: usize)
    requires
        a < adj.len(),
    ensures
        reachable(adj, a, a),
{
    let p = seq![a];
    assert(is_path(adj, p));
    assert(p[0] == a && p.last() == a);
}

/// A vertex reaches each of its successors.
pub proof fn lemma_reach_edge(adj: Seq<Seq<usize>>, a: usize, b: usize)
    requires
        a < adj.len(),
        b < adj.len(),
        adj[a as int].contains(b),
    ensures
        reachable(adj, a, b),
{
    lemma_reach_refl(adj, a);
    lemma_reach_step(adj, a, a, b);
}

/// Reachability is transitive.
pub proof fn lemma_reach_trans(adj: Seq<Seq<usize>>, a: usize, b: usize, c: usize)
    requires
        reachable(adj, a, b),
        reachable(adj, b, c),
    ensures
        reachable(adj, a, c),
{
    let p = choose|p: Seq<usize>| is_path(adj, p) && p[0] == a && p.last() == b;
    let q = choose|q: Seq<usize>| is_path(adj, q) && q[0] == b && q.last() == c;
    let r = p + q.drop_first();
    assert forall|i: int| 0 <= i < r.len() implies #[trigger] r[i] < adj.len() by {
        if i < p.len() {
            assert(r[i] == p[i]);
        } else {
            assert(r[i] == q[i - p.len() + 1]);
        }
    }
    assert forall|i: int| 0 <= i < r.len() - 1 implies adj[#[trigger] r[i] as int].contains(r[i + 1]) by {
        if i < p.len() - 1 {
            assert(r[i] == p[i] && r[i + 1] == p[i + 1]);
        } else if i == p.len() - 1 {
            assert(r[i] == p[i]);
            assert(r[i + 1] == q[1]);
            assert(p[i] == q[0]);
        } else {
            assert(r[i] == q[i - p.len() + 1]);
            assert(r[i + 1] == q[i - p.len() + 2]);
        }
    }
    assert(is_path(adj, r));
    assert(r[0] == a);
    if q.len() == 1 {
        assert(r =~= p);
    } else {
        assert(r.last() == q.last());
    }
}

proof fn lemma_closed_holds_path(adj: Seq<Seq<usize>>, in_set: Seq<bool>, p: Seq<usize>, i: int)
    requires
        in_set.len() == adj.len(),
        is_path(adj, p),
        in_set[p[0] as int],
        0 <= i < p.len(),
        forall|a: int, k: int|
            0 <= a < adj.len() && in_set[a] && 0 <= k < adj[a].len() ==> in_set[#[trigger] adj[a][k] as int],
    ensures
        in_set[p[i] as int],
    decreases i,
{
    if i > 0 {
        lemma_closed_holds_path(adj, in_set, p, i - 1);
        assert(p[i - 1] < adj.len());
        let row = adj[p[i - 1] as int];
        assert(row.contains(p[i]));
        let k = choose|k: int| 0 <= k < row.len() && #[trigger] row[k] == p[i];
        assert(in_set[adj[p[i - 1] as int][k] as int]);
    }
}

/// A set of vertices that holds `s` and every successor of its members holds
/// every vertex reachable from `s`.
pub proof fn lemma_closed_holds_reachable(adj: Seq<Seq<usize>>, in_set: Seq<bool>, s: usize, v: usize)
    requires
        in_set.len() == adj.len(),
        s < adj.len(),
        in_set[s as int],
        forall|a: int, k: int|
            0 <= a < adj.len() && in_set[a] && 0 <= k < adj[a].len() ==> in_set[#[trigger] adj[a][k] as int],
        reachable(adj, s, v),
    ensures
        in_set[v as int],
{
    let p = choose|p: Seq<usize>| is_path(adj, p) && p[0] == s && p.last() == v;
    lemma_closed_holds_path(adj, in_set, p, p.len() - 1);
}

/// Depth-first search from `current`, appending each block once all its
/// successors have been visited.
fn postorder_visit(
    cfg: &Cfg,
    current: BasicBlockIdx,
    visited: &mut Vec<bool>,
    traversal: &mut Vec<BasicBlockIdx>,
    Ghost(budget): Ghost<nat>,
)
    requires
        count_unvisited(old(visited)@) <= budget,
        cfg.wf(),
        current.0 < cfg.num_blocks(),
        old(visited)@.len() == cfg.num_blocks(),
        !old(visited)@[current.0 as int],
        cfg.reaches(current.0),
        forall|v: usize| v < cfg.num_blocks() && old(visited)@[v as int] ==> cfg.reaches(v),
        dfs_state(cfg.adj(), old(visited)@, block_indices(old(traversal)@)),
    ensures
        final(visited)@.len() == cfg.num_blocks(),
        final(visited)@[current.0 as int],
        forall|v: int| 0 <= v < cfg.num_blocks() && old(visited)@[v] ==> final(visited)@[v],
        forall|v: usize| v < cfg.num_blocks() && final(visited)@[v as int] ==> cfg.reaches(v),
        final(traversal)@.len() >= old(traversal)@.len(),
        final(traversal)@.subrange(0, old(traversal)@.len() as int) == old(traversal)@,
        final(traversal)@.last() == current,
        forall|v: usize|
            v < cfg.num_blocks() ==> (block_indices(final(traversal)@).subrange(
                old(traversal)@.len() as int,
                final(traversal)@.len() as int,
            ).contains(v) <==> (final(visited)@[v as int] && !old(visited)@[v as int])),
        dfs_state(cfg.adj(), final(visited)@, block_indices(final(traversal)@)),
        final(visited)@ == dfs_visit(cfg.adj(), old(visited)@, current.0, budget).0,
        block_indices(final(traversal)@).subrange(old(traversal)@.len() as int, final(traversal)@.len() as int) == dfs_visit(
            cfg.adj(),
            old(visited)@,
            current.0,
            budget,
        ).1,
    decreases budget,
{
    let ghost adj = cfg.adj();
    let ghost n = cfg.num_blocks();
    let ghost vis0 = visited@;
    let ghost trav0 = traversal@;
    visited.set(current.0, true);
    let ghost vis_m = visited@;
    let ghost f = (budget - 1) as nat;
    let successors = cfg.successors(current);
    proof {
        assert(block_indices(successors@) == adj[current.0 as int]);
        lemma_count_unvisited_strict(vis0, visited@, current.0 as int);
        assert(adj[current.0 as int].skip(0) =~= adj[current.0 as int]);
        assert(block_indices(traversal@).subrange(trav0.len() as int, traversal@.len() as int) =~= Seq::<usize>::empty());
        assert(Seq::<usize>::empty() + dfs_children(adj, vis_m, adj[current.0 as int], f).1 =~= dfs_children(
            adj,
            vis_m,
            adj[current.0 as int],
            f,
        ).1);
    }
    let mut i: usize = 0;
    while i < successors.len()
        invariant
            cfg.wf(),
            adj == cfg.adj(),
            n == cfg.num_blocks(),
            vis0.len() == n,
            count_unvisited(vis0) <= budget,
            cfg.reaches(current.0),
            current.0 < n,
            block_indices(successors@) == adj[current.0 as int],
            i <= successors.len(),
            visited@.len() == n,
            visited@[current.0 as int],
            forall|v: int| 0 <= v < n && vis0[v] ==> visited@[v],
            forall|v: usize| v < n && visited@[v as int] ==> cfg.reaches(v),
            count_unvisited(visited@) < count_unvisited(vis0),
            traversal@.len() >= trav0.len(),
            traversal@.subrange(0, trav0.len() as int) == trav0,
            forall|k: int| 0 <= k < i ==> visited@[#[trigger] adj[current.0 as int][k] as int],
            forall|v: usize|
                v < n ==> (block_indices(traversal@).subrange(
                    trav0.len() as int,
                    traversal@.len() as int,
                ).contains(v) <==> (visited@[v as int] && !vis0[v as int] && v != current.0)),
            dfs_state(adj, visited@, block_indices(traversal@)),
            budget >= 1,
            f == budget - 1,
            count_unvisited(vis0) <= budget,
            dfs_children(adj, vis_m, adj[current.0 as int], f) == (
                dfs_children(adj, visited@, adj[current.0 as int].skip(i as int), f).0,
                block_indices(traversal@).subrange(trav0.len() as int, traversal@.len() as int) + dfs_children(
                    adj,
                    visited@,
                    adj[current.0 as int].skip(i as int),
                    f,
                ).1,
            ),
        decreases successors.len() - i,
    {
        let successor = successors[i];
        proof {
            assert(block_indices(successors@)[i as int] == successor.0);
            assert(successor.0 < n);
        }
        let ghost rest = adj[current.0 as int].skip(i as int);
        proof {
            assert(rest.len() > 0);
            assert(rest[0] == successor.0);
            assert(rest.drop_first() =~= adj[current.0 as int].skip(i + 1));
        }
        if visited[successor.0] {
            proof {
                let acc = block_indices(traversal@).subrange(trav0.len() as int, traversal@.len() as int);
                let r2 = dfs_children(adj, visited@, rest.drop_first(), f);
                assert(dfs_children(adj, visited@, rest, f) == (r2.0, Seq::<usize>::empty() + r2.1));
                assert(Seq::<usize>::empty() + r2.1 =~= r2.1);
            }
            i = i + 1;
            continue;
        }
        {
            let ghost vis1 = visited@;
            let ghost trav1 = traversal@;
            proof {
                assert(adj[current.0 as int].contains(successor.0));
                lemma_reach_step(adj, cfg.entry.0, current.0, successor.0);
            }
            assert(count_unvisited(visited@) < count_unvisited(vis0));
            postorder_visit(cfg, successor, visited, traversal, Ghost(f));
            proof {
                lemma_count_unvisited_mono(vis1, visited@);
                let acc1 = block_indices(trav1).subrange(trav0.len() as int, trav1.len() as int);
                let r1 = dfs_visit(adj, vis1, successor.0, f);
                let r2 = dfs_children(adj, r1.0, rest.drop_first(), f);
                assert(dfs_children(adj, vis1, rest, f) == (r2.0, r1.1 + r2.1));
                let acc2 = block_indices(traversal@).subrange(trav0.len() as int, traversal@.len() as int);
                assert(block_indices(traversal@).subrange(trav1.len() as int, traversal@.len() as int) == r1.1);
                assert(acc2 =~= acc1 + r1.1) by {
                    assert(traversal@.subrange(0, trav1.len() as int) == trav1);
                    assert forall|k: int| 0 <= k < acc2.len() implies acc2[k] == (acc1 + r1.1)[k] by {
                        if k < acc1.len() {
                            assert(traversal@[trav0.len() + k] == traversal@.subrange(0, trav1.len() as int)[trav0.len() + k]);
                        }
                    }
                }
                assert(acc1 + (r1.1 + r2.1) =~= acc2 + r2.1);
                let t2 = block_indices(traversal@);
                let t1 = block_indices(trav1);
                assert(t2.subrange(0, trav1.len() as int) =~= t1);
                assert(traversal@.subrange(0, trav0.len() as int) =~= trav0) by {
                    assert forall|k: int| 0 <= k < trav0.len() implies traversal@[k] == trav0[k] by {
                        assert(traversal@.subrange(0, trav1.len() as int)[k] == trav1[k]);
                        assert(trav1.subrange(0, trav0.len() as int)[k] == trav0[k]);
                    }
                }
                assert(t2.subrange(trav0.len() as int, traversal@.len() as int) =~= t1.subrange(
                    trav0.len() as int,
                    trav1.len() as int,
                ) + t2.subrange(trav1.len() as int, traversal@.len() as int));
                assert forall|v: usize| v < n implies (t2.subrange(
                    trav0.len() as int,
                    traversal@.len() as int,
                ).contains(v) <==> (visited@[v as int] && !vis0[v as int] && v != current.0)) by {
                    let a1 = t1.subrange(trav0.len() as int, trav1.len() as int);
                    let a2 = t2.subrange(trav1.len() as int, traversal@.len() as int);
                    if (a1 + a2).contains(v) {
                        let j = choose|j: int| 0 <= j < (a1 + a2).len() && (a1 + a2)[j] == v;
                        if j < a1.len() {
                            assert(a1.contains(v));
                        } else {
                            assert(a2[j - a1.len()] == v);
                            assert(a2.contains(v));
                        }
                    }
                    if visited@[v as int] && !vis0[v as int] && v != current.0 {
                        if vis1[v as int] {
                            assert(a1.contains(v));
                            let j = choose|j: int| 0 <= j < a1.len() && a1[j] == v;
                            assert((a1 + a2)[j] == v);
                        } else {
                            assert(a2.contains(v));
                            let j = choose|j: int| 0 <= j < a2.len() && a2[j] == v;
                            assert((a1 + a2)[a1.len() + j] == v);
                        }
                    }
                }
            }
        }
        i = i + 1;
    }
    let ghost trav_before = traversal@;
    proof {
        assert(adj[current.0 as int].skip(i as int) =~= Seq::<usize>::empty()) by {
            assert(block_indices(successors@).len() == successors@.len());
        }
        let tb = block_indices(traversal@);
        assert forall|j: int| 0 <= j < tb.len() implies tb[j] != current.0 by {
            if j < trav0.len() {
                assert(trav_before.subrange(0, trav0.len() as int)[j] == trav0[j]);
                assert(block_indices(trav0)[j] == tb[j]);
                assert(vis0[tb[j] as int]);
            } else {
                let a = tb.subrange(trav0.len() as int, tb.len() as int);
                assert(a[j - trav0.len()] == tb[j]);
                assert(a.contains(tb[j]));
            }
        }
    }
    traversal.push(current);
    proof {
        let t = block_indices(traversal@);
        let tb = block_indices(trav_before);
        assert(t =~= tb.push(current.0));
        assert(traversal@.subrange(0, trav0.len() as int) =~= trav0) by {
            assert forall|k: int| 0 <= k < trav0.len() implies traversal@[k] == trav0[k] by {
                assert(trav_before.subrange(0, trav0.len() as int)[k] == trav0[k]);
            }
        }
        assert(t.subrange(trav0.len() as int, t.len() as int) =~= tb.subrange(
            trav0.len() as int,
            tb.len() as int,
        ).push(current.0));
        assert(tb.subrange(trav0.len() as int, tb.len() as int) + Seq::<usize>::empty() =~= tb.subrange(
            trav0.len() as int,
            tb.len() as int,
        ));
        assert(vis0.update(current.0 as int, true) == vis_m);
        assert forall|v: usize| v < n implies (t.subrange(trav0.len() as int, t.len() as int).contains(v)
            <==> (visited@[v as int] && !vis0[v as int])) by {
            let a = tb.subrange(trav0.len() as int, tb.len() as int);
            if a.push(current.0).contains(v) && v != current.0 {
                let j = choose|j: int| 0 <= j < a.push(current.0).len() && a.push(current.0)[j] == v;
                if j < a.len() {
                    assert(a[j] == v);
                    assert(a.contains(v));
                } else {
                    assert(a.push(current.0)[j] == current.0);
                }
            }
            if v == current.0 {
                assert(a.push(current.0)[a.len() as int] == v);
            } else if visited@[v as int] && !vis0[v as int] {
                assert(a.contains(v));
                let j = choose|j: int| 0 <= j < a.len() && a[j] == v;
                assert(a.push(current.0)[j] == v);
            }
        }
        assert forall|k: int| 0 <= k < adj[current.0 as int].len() implies visited@[#[trigger] adj[current.0 as int][k] as int] by {
            assert(block_indices(successors@)[k] == adj[current.0 as int][k]);
        }
        assert(dfs_state(adj, visited@, t)) by {
            assert forall|i: int, j: int| 0 <= i < j < t.len() implies #[trigger] t[i] != #[trigger] t[j] by {
                if j == t.len() - 1 {
                    assert(tb[i] != current.0);
                } else {
                    assert(t[i] == tb[i] && t[j] == tb[j]);
                }
            }
            assert forall|i: int, k: int|
                0 <= i < t.len() && 0 <= k < adj[t[i] as int].len() implies visited@[#[trigger] adj[#[trigger] t[i] as int][k] as int] by {
                if i < tb.len() {
                    assert(t[i] == tb[i]);
                }
            }
        }
    }
}

/// With nothing visited, every block is unvisited.
pub proof fn lemma_count_unvisited_none(v: Seq<bool>)
    requires
        forall|i: int| 0 <= i < v.len() ==> !v[i],
    ensures
        count_unvisited(v) == v.len(),
    decreases v.len(),
{
    if v.len() > 0 {
        lemma_count_unvisited_none(v.drop_last());
    }
}

/// The blocks reachable from the entry, each listed once, in the postorder
/// of a depth-first search from the entry; the entry comes last.
pub fn construct_postorder(cfg: &Cfg) -> (traversal: Vec<BasicBlockIdx>)
    requires
        cfg.wf(),
        cfg.num_blocks() > 0,
    ensures
        block_indices(traversal@) == dfs_postorder(cfg.adj(), cfg.entry.0),
        traversal@.len() > 0,
        traversal@.last() == cfg.entry,
        forall|i: int, j: int|
            0 <= i < j < traversal@.len() ==> #[trigger] traversal@[i] != #[trigger] traversal@[j],
        forall|i: int| 0 <= i < traversal@.len() ==> #[trigger] traversal@[i].0 < cfg.num_blocks(),
        forall|v: usize|
            v < cfg.num_blocks() ==> (block_indices(traversal@).contains(v) <==> #[trigger] cfg.reaches(v)),
{
    let mut traversal: Vec<BasicBlockIdx> = Vec::new();
    let mut visited: Vec<bool> = Vec::new();
    let mut i: usize = 0;
    while i < cfg.vertices.len()
        invariant
            i <= cfg.num_blocks(),
            visited@.len() == i,
            forall|k: int| 0 <= k < i ==> !visited@[k],
        decreases cfg.vertices.len() - i,
    {
        visited.push(false);
        i = i + 1;
    }
    proof {
        let p = seq![cfg.entry.0];
        assert(is_path(cfg.adj(), p));
        assert(p[0] == cfg.entry.0 && p.last() == cfg.entry.0);
        assert(cfg.reaches(cfg.entry.0));
        assert(block_indices(traversal@) =~= Seq::<usize>::empty());
    }
    let ghost budget = count_unvisited(visited@);
    proof {
        lemma_count_unvisited_none(visited@);
        assert(visited@ =~= Seq::new(cfg.adj().len(), |i: int| false));
    }
    postorder_visit(cfg, cfg.entry, &mut visited, &mut traversal, Ghost(budget));
    proof {
        assert(block_indices(traversal@).subrange(0, traversal@.len() as int) =~= block_indices(traversal@));
        let t = block_indices(traversal@);
        assert(t.subrange(0, traversal@.len() as int) =~= t);
        assert forall|a: int, k: int|
            0 <= a < cfg.adj().len() && visited@[a] && 0 <= k < cfg.adj()[a].len() implies visited@[#[trigger] cfg.adj()[a][k] as int] by {
            assert(t.contains(a as usize));
            let j = choose|j: int| 0 <= j < t.len() && t[j] == a as usize;
            assert(visited@[cfg.adj()[t[j] as int][k] as int]);
        }
        assert forall|v: usize| v < cfg.num_blocks() implies (t.contains(v) <==> #[trigger] cfg.reaches(v)) by {
            if cfg.reaches(v) {
                lemma_closed_holds_reachable(cfg.adj(), visited@, cfg.entry.0, v);
            }
            if t.contains(v) {
                let j = choose|j: int| 0 <= j < t.len() && t[j] == v;
                assert(visited@[t[j] as int]);
            }
        }
        assert forall|i: int| 0 <= i < traversal@.len() implies #[trigger] traversal@[i].0 < cfg.num_blocks() by {
            assert(t[i] == traversal@[i].0);
        }
        assert forall|i: int, j: int|
            0 <= i < j < traversal@.len() implies #[trigger] traversal@[i] != #[trigger] traversal@[j] by {
            assert(t[i] == traversal@[i].0 && t[j] == traversal@[j].0);
        }
    }
    traversal
}

/// The variable an instruction defines, if any.
pub open spec fn instr_dest(i: &Instruction) -> Option<Variable> {
    match i {
        Instruction::Add(d, ..) | Instruction::Sub(d, ..) | Instruction::Mul(d, ..)
        | Instruction::Div(d, ..) | Instruction::Eq(d, ..) | Instruction::Lt(d, ..)
        | Instruction::Gt(d, ..) | Instruction::Le(d, ..) | Instruction::Ge(d, ..)
        | Instruction::Not(d, ..) | Instruction::And(d, ..) | Instruction::Or(d, ..)
        | Instruction::Const(d, ..) | Instruction::Id(d, ..) => Some(*d),
        Instruction::Call(d, ..) => *d,
        _ => None,
    }
}

/// The variables an instruction reads, in order.
pub open spec fn instr_operands(i: &Instruction) -> Seq<Variable> {
    match i {
        Instruction::Add(_, a, b) | Instruction::Sub(_, a, b) | Instruction::Mul(_, a, b)
        | Instruction::Div(_, a, b) | Instruction::Eq(_, a, b) | Instruction::Lt(_, a, b)
        | Instruction::Gt(_, a, b) | Instruction::Le(_, a, b) | Instruction::Ge(_, a, b)
        | Instruction::And(_, a, b) | Instruction::Or(_, a, b) => seq![*a, *b],
        Instruction::Not(_, a) | Instruction::Id(_, a) => seq![*a],
        Instruction::Call(_, _, args) => args@,
        Instruction::Print(args) => args@,
        Instruction::Br(c, ..) => seq![*c],
        Instruction::Ret(r) => match r {
            Some(v) => seq![*v],
            None => Seq::empty(),
        },
        _ => Seq::empty(),
    }
}

/// Every value operation, constant and copy defines its destination; a
/// call defines its destination if it names one; jumps, branches, returns,
/// prints and `nop` define nothing.
pub proof fn lemma_defined_variable(
    d: Variable,
    a: Variable,
    b: Variable,
    v: Value,
    od: Option<Variable>,
    f: FunctionIdx,
    args: Vec<Variable>,
    l1: LabelIdx,
    l2: LabelIdx,
)
    ensures
        instr_dest(&Instruction::Add(d, a, b)) == Some(d),
        instr_dest(&Instruction::Sub(d, a, b)) == Some(d),
        instr_dest(&Instruction::Mul(d, a, b)) == Some(d),
        instr_dest(&Instruction::Div(d, a, b)) == Some(d),
        instr_dest(&Instruction::Eq(d, a, b)) == Some(d),
        instr_dest(&Instruction::Lt(d, a, b)) == Some(d),
        instr_dest(&Instruction::Gt(d, a, b)) == Some(d),
        instr_dest(&Instruction::Le(d, a, b)) == Some(d),
        instr_dest(&Instruction::Ge(d, a, b)) == Some(d),
        instr_dest(&Instruction::And(d, a, b)) == Some(d),
        instr_dest(&Instruction::Or(d, a, b)) == Some(d),
        instr_dest(&Instruction::Not(d, a)) == Some(d),
        instr_dest(&Instruction::Id(d, a)) == Some(d),
        instr_dest(&Instruction::Const(d, v)) == Some(d),
        instr_dest(&Instruction::Call(od, f, args)) == od,
        instr_dest(&Instruction::Jmp(l1)) is None,
        instr_dest(&Instruction::Br(a, l1, l2)) is None,
        instr_dest(&Instruction::Ret(od)) is None,
        instr_dest(&Instruction::Print(args)) is None,
        instr_dest(&Instruction::Nop) is None,
{
}

/// The variables an instruction reads are exactly those it names as
/// arguments, in order: both operands of a binary operation, the operand of
/// `not` and `id`, a call's and a print's arguments, a branch's condition and
/// a returned variable; a jump, a constant, a bare `ret` and `nop` read
/// nothing.
pub proof fn lemma_read_variables(
    d: Variable,
    a: Variable,
    b: Variable,
    v: Value,
    od: Option<Variable>,
    f: FunctionIdx,
    args: Vec<Variable>,
    l1: LabelIdx,
    l2: LabelIdx,
)
    ensures
        instr_operands(&Instruction::Add(d, a, b)) == seq![a, b],
        instr_operands(&Instruction::Sub(d, a, b)) == seq![a, b],
        instr_operands(&Instruction::Mul(d, a, b)) == seq![a, b],
        instr_operands(&Instruction::Div(d, a, b)) == seq![a, b],
        instr_operands(&Instruction::Eq(d, a, b)) == seq![a, b],
        instr_operands(&Instruction::Lt(d, a, b)) == seq![a, b],
        instr_operands(&Instruction::Gt(d, a, b)) == seq![a, b],
        instr_operands(&Instruction::Le(d, a, b)) == seq![a, b],
        instr_operands(&Instruction::Ge(d, a, b)) == seq![a, b],
        instr_operands(&Instruction::And(d, a, b)) == seq![a, b],
        instr_operands(&Instruction::Or(d, a, b)) == seq![a, b],
        instr_operands(&Instruction::Not(d, a)) == seq![a],
        instr_operands(&Instruction::Id(d, a)) == seq![a],
        instr_operands(&Instruction::Call(od, f, args)) == args@,
        instr_operands(&Instruction::Print(args)) == args@,
        instr_operands(&Instruction::Br(a, l1, l2)) == seq![a],
        instr_operands(&Instruction::Ret(Some(a))) == seq![a],
        instr_operands(&Instruction::Ret(None)) == Seq::<Variable>::empty(),
        instr_operands(&Instruction::Jmp(l1)) == Seq::<Variable>::empty(),
        instr_operands(&Instruction::Const(d, v)) == Seq::<Variable>::empty(),
        instr_operands(&Instruction::Nop) == Seq::<Variable>::empty(),
{
}

/// What an instruction defines and reads are the destination and the
/// arguments it names.
pub proof fn lemma_defines_and_reads_what_it_names(i: Instruction)
    ensures
        instr_dest(&i) == named_dest(i@),
        instr_operands(&i) == named_args(i@),
{
}

/// Definitions and uses of variables by instructions.
pub trait InstructionExt {
    spec fn spec_dest(&self) -> Option<Variable>;

    spec fn spec_operands(&self) -> Seq<Variable>;

    fn dest(&self) -> (r: Option<Variable>)
        ensures
            r == self.spec_dest(),
    ;

    fn operands(&self) -> (r: Vec<Variable>)
        ensures
            r@ == self.spec_operands(),
    ;
}

impl InstructionExt for Instruction {
    open spec fn spec_dest(&self) -> Option<Variable> {
        instr_dest(self)
    }

    open spec fn spec_operands(&self) -> Seq<Variable> {
        instr_operands(self)
    }

    fn dest(&self) -> (r: Option<Variable>) {
        match self {
            Instruction::Add(dest, ..)
            | Instruction::Sub(dest, ..)
            | Instruction::Mul(dest, ..)
            | Instruction::Div(dest, ..)
            | Instruction::Eq(dest, ..)
            | Instruction::Lt(dest, ..)
            | Instruction::Gt(dest, ..)
            | Instruction::Le(dest, ..)
            | Instruction::Ge(dest, ..)
            | Instruction::Not(dest, ..)
            | Instruction::And(dest, ..)
            | Instruction::Or(dest, ..)
            | Instruction::Const(dest, ..)
            | Instruction::Id(dest, ..) => Some(*dest),
            Instruction::Call(dest, ..) => *dest,
            _ => None,
        }
    }

    fn operands(&self) -> (r: Vec<Variable>) {
        match self {
            Instruction::Add(_, arg0, arg1)
            | Instruction::Sub(_, arg0, arg1)
            | Instruction::Mul(_, arg0, arg1)
            | Instruction::Div(_, arg0, arg1)
            | Instruction::Eq(_, arg0, arg1)
            | Instruction::Lt(_, arg0, arg1)
            | Instruction::Gt(_, arg0, arg1)
            | Instruction::Le(_, arg0, arg1)
            | Instruction::Ge(_, arg0, arg1)
            | Instruction::And(_, arg0, arg1)
            | Instruction::Or(_, arg0, arg1) => {
                let r = vec![*arg0, *arg1];
                proof {
                    assert(r@ =~= seq![*arg0, *arg1]);
                }
                r
            },
            Instruction::Not(.., arg0) | Instruction::Id(.., arg0) => {
                let r = vec![*arg0];
                proof {
                    assert(r@ =~= seq![*arg0]);
                }
                r
            },
            Instruction::Call(.., args) | Instruction::Print(args) => crate::ir::copy_variables(args),
            Instruction::Br(arg0, ..) => {
                let r = vec![*arg0];
                proof {
                    assert(r@ =~= seq![*arg0]);
                }
                r
            },
            Instruction::Ret(ret) => match ret {
                Some(v) => {
                    let r = vec![*v];
                    proof {
                        assert(r@ =~= seq![*v]);
                    }
                    r
                },
                None => Vec::new(),
            },
            _ => Vec::new(),
        }
    }
}

} // verus!
