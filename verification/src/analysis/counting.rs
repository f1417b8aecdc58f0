//! Finite sums of integers, and counts of graph edges by them.
use vstd::prelude::*;

use crate::builder::BasicBlockIdx;

verus! {

/// A sum of integers.
pub open spec fn sum_ints(s: Seq<int>) -> int
    decreases s.len(),
{
    if s.len() == 0 {
        0
    } else {
        sum_ints(s.drop_last()) + s.last()
    }
}

pub proof fn lemma_sum_ints_update(s: Seq<int>, i: int, x: int)
    requires
        0 <= i < s.len(),
    ensures
        sum_ints(s.update(i, x)) == sum_ints(s) - s[i] + x,
    decreases s.len(),
{
    if i < s.len() - 1 {
        lemma_sum_ints_update(s.drop_last(), i, x);
        assert(s.update(i, x).drop_last() =~= s.drop_last().update(i, x));
    } else {
        assert(s.update(i, x).drop_last() =~= s.drop_last());
    }
}

pub proof fn lemma_sum_ints_nonneg(s: Seq<int>)
    requires
        forall|k: int| 0 <= k < s.len() ==> #[trigger] s[k] >= 0,
    ensures
        sum_ints(s) >= 0,
    decreases s.len(),
{
    if s.len() > 0 {
        lemma_sum_ints_nonneg(s.drop_last());
    }
}

pub proof fn lemma_sum_ints_nonneg_le(s: Seq<int>, i: int)
    requires
        0 <= i < s.len(),
        forall|k: int| 0 <= k < s.len() ==> #[trigger] s[k] >= 0,
    ensures
        s[i] <= sum_ints(s),
        sum_ints(s) >= 0,
    decreases s.len(),
{
    lemma_sum_ints_nonneg(s);
    lemma_sum_ints_nonneg(s.drop_last());
    if i < s.len() - 1 {
        lemma_sum_ints_nonneg_le(s.drop_last(), i);
    }
}

pub proof fn lemma_sum_new_push(f: spec_fn(int) -> int, len: nat)
    ensures
        sum_ints(Seq::new(len + 1, f)) == sum_ints(Seq::new(len, f)) + f(len as int),
{
    assert(Seq::new(len + 1, f).drop_last() =~= Seq::new(len, f));
}

pub proof fn lemma_sum_ints_zero(s: Seq<int>)
    requires
        forall|i: int| 0 <= i < s.len() ==> s[i] == 0,
    ensures
        sum_ints(s) == 0,
    decreases s.len(),
{
    if s.len() > 0 {
        lemma_sum_ints_zero(s.drop_last());
    }
}


/// Summing pointwise sums.
pub proof fn lemma_sum_add(f: spec_fn(int) -> int, g: spec_fn(int) -> int, len: nat)
    ensures
        sum_ints(Seq::new(len, |i: int| f(i) + g(i))) == sum_ints(Seq::new(len, f)) + sum_ints(Seq::new(len, g)),
    decreases len,
{
    if len > 0 {
        let l1 = (len - 1) as nat;
        lemma_sum_add(f, g, l1);
        lemma_sum_new_push(|i: int| f(i) + g(i), l1);
        lemma_sum_new_push(f, l1);
        lemma_sum_new_push(g, l1);
    }
}

/// Summing pointwise differences.
pub proof fn lemma_sum_sub(f: spec_fn(int) -> int, g: spec_fn(int) -> int, len: nat)
    ensures
        sum_ints(Seq::new(len, |i: int| f(i) - g(i))) == sum_ints(Seq::new(len, f)) - sum_ints(Seq::new(len, g)),
    decreases len,
{
    if len > 0 {
        let l1 = (len - 1) as nat;
        lemma_sum_sub(f, g, l1);
        lemma_sum_new_push(|i: int| f(i) - g(i), l1);
        lemma_sum_new_push(f, l1);
        lemma_sum_new_push(g, l1);
    }
}

/// A double sum can be taken in either order.
pub proof fn lemma_sum_swap(f: spec_fn(int, int) -> int, a: nat, b: nat)
    ensures
        sum_ints(Seq::new(a, |i: int| sum_ints(Seq::new(b, |j: int| f(i, j))))) == sum_ints(
            Seq::new(b, |j: int| sum_ints(Seq::new(a, |i: int| f(i, j)))),
        ),
    decreases a,
{
    if a > 0 {
        let a1 = (a - 1) as nat;
        lemma_sum_swap(f, a1, b);
        lemma_sum_new_push(|i: int| sum_ints(Seq::new(b, |j: int| f(i, j))), a1);
        assert forall|j: int| 0 <= j < b implies sum_ints(Seq::new(a, |i: int| f(i, j))) == sum_ints(Seq::new(a1, |i: int| f(i, j)))
            + #[trigger] f(a1 as int, j) by {
            lemma_sum_new_push(|i: int| f(i, j), a1);
        }
        assert(Seq::new(b, |j: int| sum_ints(Seq::new(a, |i: int| f(i, j)))) =~= Seq::new(
            b,
            |j: int| sum_ints(Seq::new(a1, |i: int| f(i, j))) + f(a1 as int, j),
        ));
        let g = |j: int| sum_ints(Seq::new(a1, |i: int| f(i, j)));
        let h = |j: int| f(a1 as int, j);
        lemma_sum_add(g, h, b);
        assert(Seq::new(b, |j: int| g(j) + h(j)) =~= Seq::new(b, |j: int| sum_ints(Seq::new(a1, |i: int| f(i, j))) + f(a1 as int, j)));
        assert(Seq::new(b, g) =~= Seq::new(b, |j: int| sum_ints(Seq::new(a1, |i: int| f(i, j)))));
        assert(Seq::new(b, h) =~= Seq::new(b, |j: int| f(a1 as int, j)));
        assert(Seq::new(a, |i: int| sum_ints(Seq::new(b, |j: int| f(i, j)))).drop_last() =~= Seq::new(a1, |i: int| sum_ints(Seq::new(b, |j: int| f(i, j)))));    } else {
        let z = Seq::new(b, |j: int| sum_ints(Seq::new(a, |i: int| f(i, j))));
        assert forall|j: int| 0 <= j < b implies z[j] == 0 by {
            assert(Seq::new(a, |i: int| f(i, j)) =~= Seq::<int>::empty());
        }
        lemma_sum_ints_zero(z);
    }
}

/// A sum with a single one among zeros.
pub proof fn lemma_sum_single(len: nat, c: int)
    requires
        0 <= c < len,
    ensures
        sum_ints(Seq::new(len, |t: int| if t == c { 1int } else { 0int })) == 1,
{
    let z = Seq::new(len, |t: int| 0int);
    lemma_sum_ints_zero(z);
    assert(Seq::new(len, |t: int| if t == c { 1int } else { 0int }) =~= z.update(c, 1));
    lemma_sum_ints_update(z, c, 1);
}

/// How often `t` occurs in `s`.
pub open spec fn occurrences(s: Seq<usize>, t: usize) -> int
    decreases s.len(),
{
    if s.len() == 0 {
        0
    } else {
        occurrences(s.drop_last(), t) + if s.last() == t {
            1int
        } else {
            0int
        }
    }
}

/// How many entries of `s` are blocks of `vs`.
pub open spec fn count_inside(s: Seq<usize>, vs: Seq<BasicBlockIdx>) -> int
    decreases s.len(),
{
    if s.len() == 0 {
        0
    } else {
        count_inside(s.drop_last(), vs) + if vs.contains(BasicBlockIdx(s.last())) {
            1int
        } else {
            0int
        }
    }
}

/// The edges of the graph from a block of `vs` to a block of `vs`, each
/// successor entry counted once.
pub open spec fn inner_edges(adj: Seq<Seq<usize>>, vs: Seq<BasicBlockIdx>) -> int {
    sum_ints(
        Seq::new(
            adj.len(),
            |b: int|
                if vs.contains(BasicBlockIdx(b as usize)) {
                    count_inside(adj[b], vs)
                } else {
                    0
                },
        ),
    )
}

/// A value that `s` does not hold occurs in it no times.
pub proof fn lemma_occurrences_none(s: Seq<usize>, t: usize)
    requires
        forall|k: int| 0 <= k < s.len() ==> s[k] != t,
    ensures
        occurrences(s, t) == 0,
    decreases s.len(),
{
    if s.len() > 0 {
        lemma_occurrences_none(s.drop_last(), t);
    }
}

/// Entries none of which are blocks of `vs` count none inside it.
pub proof fn lemma_count_inside_none(s: Seq<usize>, vs: Seq<BasicBlockIdx>)
    requires
        forall|k: int| 0 <= k < s.len() ==> !vs.contains(BasicBlockIdx(#[trigger] s[k])),
    ensures
        count_inside(s, vs) == 0,
    decreases s.len(),
{
    if s.len() > 0 {
        lemma_count_inside_none(s.drop_last(), vs);
    }
}

/// Counting, over the blocks of `vs`, how often each occurs in `s` counts
/// the entries of `s` inside `vs`.
pub proof fn lemma_sum_occurrences(s: Seq<usize>, vs: Seq<BasicBlockIdx>, n: nat)
    requires
        n <= usize::MAX,
        forall|k: int| 0 <= k < s.len() ==> #[trigger] s[k] < n,
    ensures
        sum_ints(
            Seq::new(
                n,
                |t: int|
                    if vs.contains(BasicBlockIdx(t as usize)) {
                        occurrences(s, t as usize)
                    } else {
                        0
                    },
            ),
        ) == count_inside(s, vs),
    decreases s.len(),
{
    if s.len() > 0 {
        let s1 = s.drop_last();
        let x = s.last();
        assert(x == s[s.len() - 1]);
        lemma_sum_occurrences(s1, vs, n);
        let q1 = Seq::new(
            n,
            |t: int|
                if vs.contains(BasicBlockIdx(t as usize)) {
                    occurrences(s1, t as usize)
                } else {
                    0
                },
        );
        let q = Seq::new(
            n,
            |t: int|
                if vs.contains(BasicBlockIdx(t as usize)) {
                    occurrences(s, t as usize)
                } else {
                    0
                },
        );
        let d = if vs.contains(BasicBlockIdx(x)) {
            1int
        } else {
            0int
        };
        assert(q =~= q1.update(x as int, q1[x as int] + d));
        lemma_sum_ints_update(q1, x as int, q1[x as int] + d);
    } else {
        let q = Seq::new(
            n,
            |t: int|
                if vs.contains(BasicBlockIdx(t as usize)) {
                    occurrences(s, t as usize)
                } else {
                    0
                },
        );
        lemma_sum_ints_zero(q);
    }
}

/// Over distinct blocks, counting membership counts the blocks.
pub proof fn lemma_sum_membership(vs: Seq<BasicBlockIdx>, n: nat)
    requires
        n <= usize::MAX,
        forall|k: int| 0 <= k < vs.len() ==> (#[trigger] vs[k]).0 < n,
        forall|i: int, j: int| 0 <= i < j < vs.len() ==> (#[trigger] vs[i]) != (#[trigger] vs[j]),
    ensures
        sum_ints(
            Seq::new(
                n,
                |t: int|
                    if vs.contains(BasicBlockIdx(t as usize)) {
                        1int
                    } else {
                        0int
                    },
            ),
        ) == vs.len(),
    decreases vs.len(),
{
    let q = Seq::new(
        n,
        |t: int|
            if vs.contains(BasicBlockIdx(t as usize)) {
                1int
            } else {
                0int
            },
    );
    if vs.len() == 0 {
        lemma_sum_ints_zero(q);
    } else {
        let v1 = vs.drop_last();
        let x = vs.last();
        assert(x == vs[vs.len() - 1]);
        lemma_sum_membership(v1, n);
        let q1 = Seq::new(
            n,
            |t: int|
                if v1.contains(BasicBlockIdx(t as usize)) {
                    1int
                } else {
                    0int
                },
        );
        assert(!v1.contains(x)) by {
            if v1.contains(x) {
                let j = choose|j: int| 0 <= j < v1.len() && v1[j] == x;
                assert(vs[j] == vs[vs.len() - 1]);
            }
        }
        assert forall|t: int| 0 <= t < n implies q[t] == q1.update(x.0 as int, 1)[t] by {
            let b = BasicBlockIdx(t as usize);
            if t != x.0 {
                if vs.contains(b) {
                    let j = choose|j: int| 0 <= j < vs.len() && vs[j] == b;
                    assert(j != vs.len() - 1);
                    assert(v1[j] == b);
                }
                if v1.contains(b) {
                    let j = choose|j: int| 0 <= j < v1.len() && v1[j] == b;
                    assert(vs[j] == b);
                }
            } else {
                assert(vs[vs.len() - 1] == b);
            }
        }
        assert(q =~= q1.update(x.0 as int, 1));
        lemma_sum_ints_update(q1, x.0 as int, 1);
    }
}

/// The edges of the graph from a block of `vs` to block `t`.
pub open spec fn edges_into(adj: Seq<Seq<usize>>, vs: Seq<BasicBlockIdx>, t: usize) -> int {
    sum_ints(
        Seq::new(
            adj.len(),
            |b: int|
                if vs.contains(BasicBlockIdx(b as usize)) {
                    occurrences(adj[b], t)
                } else {
                    0
                },
        ),
    )
}

/// A sum is at most another that is at least as large at every index.
pub proof fn lemma_sum_le(s: Seq<int>, t: Seq<int>)
    requires
        s.len() == t.len(),
        forall|i: int| 0 <= i < s.len() ==> s[i] <= t[i],
    ensures
        sum_ints(s) <= sum_ints(t),
    decreases s.len(),
{
    if s.len() > 0 {
        lemma_sum_le(s.drop_last(), t.drop_last());
    }
}

/// A positive sum has a positive entry.
pub proof fn lemma_sum_pos(s: Seq<int>) -> (i: int)
    requires
        sum_ints(s) > 0,
    ensures
        0 <= i < s.len(),
        s[i] > 0,
    decreases s.len(),
{
    if s.last() > 0 {
        s.len() - 1
    } else {
        lemma_sum_pos(s.drop_last())
    }
}

/// Occurrences are never negative.
pub proof fn lemma_occurrences_nonneg(s: Seq<usize>, t: usize)
    ensures
        occurrences(s, t) >= 0,
    decreases s.len(),
{
    if s.len() > 0 {
        lemma_occurrences_nonneg(s.drop_last(), t);
    }
}

/// A value that `s` holds occurs in it.
pub proof fn lemma_occurrences_pos(s: Seq<usize>, k: int)
    requires
        0 <= k < s.len(),
    ensures
        occurrences(s, s[k]) >= 1,
    decreases s.len(),
{
    lemma_occurrences_nonneg(s.drop_last(), s[k]);
    if k < s.len() - 1 {
        lemma_occurrences_pos(s.drop_last(), k);
    }
}

/// Entries that count inside `vs` include one that is a block of `vs`.
pub proof fn lemma_count_inside_pos(s: Seq<usize>, vs: Seq<BasicBlockIdx>) -> (k: int)
    requires
        count_inside(s, vs) > 0,
    ensures
        0 <= k < s.len(),
        vs.contains(BasicBlockIdx(s[k])),
    decreases s.len(),
{
    if vs.contains(BasicBlockIdx(s.last())) {
        s.len() - 1
    } else {
        lemma_count_inside_pos(s.drop_last(), vs)
    }
}

} // verus!
