use vstd::prelude::*;

verus! {

// ---------------------------------------------------------------------------
// hibitset::BitSet
// ---------------------------------------------------------------------------

#[verifier::external_type_specification]
#[verifier::external_body]
pub struct ExHiBitSet(hibitset::BitSet);

/// The indices held by a hierarchical bit set.
pub uninterp spec fn hibitset_elems(s: hibitset::BitSet) -> Set<u32>;

/// Largest index a hierarchical bit set handles on every target. The crate
/// accepts indices up to 2^20 on a 32-bit target (2^24 on a 64-bit one),
/// but on a 32-bit target the index 2^20 itself gets no bit in the top
/// layer, so iteration, and with it union, difference and subset tests,
/// would miss it: the bound stops one below.
pub const HIBITSET_MAX_INDEX: u32 = 0xF_FFFFu32;

/// `hibitset::BitSet::new`: an empty set.
#[verifier::external_body]
pub(crate) fn hibitset_new() -> (r: hibitset::BitSet)
    ensures
        hibitset_elems(r) == Set::<u32>::empty(),
{
    hibitset::BitSet::new()
}

/// `hibitset::BitSet::add`: inserts `id`; the result tells whether `id` was
/// already present. The crate panics above its maximum index, which the
/// precondition rules out.
#[verifier::external_body]
pub(crate) fn hibitset_add(s: &mut hibitset::BitSet, id: u32) -> (was_present: bool)
    requires
        id <= HIBITSET_MAX_INDEX,
    ensures
        hibitset_elems(*final(s)) == hibitset_elems(*old(s)).insert(id),
        was_present == hibitset_elems(*old(s)).contains(id),
{
    s.add(id)
}

/// `hibitset::BitSet::contains`.
#[verifier::external_body]
pub(crate) fn hibitset_contains(s: &hibitset::BitSet, id: u32) -> (r: bool)
    ensures
        r == hibitset_elems(*s).contains(id),
{
    s.contains(id)
}

/// `BitOrAssign` of `hibitset::BitSet`: in-place union. It walks the set
/// bits of `other`, so both sets hold only indices the crate walks on every
/// target.
#[verifier::external_body]
pub(crate) fn hibitset_union_with(s: &mut hibitset::BitSet, other: &hibitset::BitSet)
    requires
        forall|i: u32| #[trigger] hibitset_elems(*old(s)).contains(i) ==> i <= HIBITSET_MAX_INDEX,
        forall|i: u32| #[trigger] hibitset_elems(*other).contains(i) ==> i <= HIBITSET_MAX_INDEX,
    ensures
        hibitset_elems(*final(s)) == hibitset_elems(*old(s)).union(hibitset_elems(*other)),
{
    *s |= other;
}

/// `BitAndAssign` of `hibitset::BitSet` with the complement view `!other`:
/// removes every index of `other`.
#[verifier::external_body]
pub(crate) fn hibitset_difference_with(s: &mut hibitset::BitSet, other: &hibitset::BitSet)
    requires
        forall|i: u32| #[trigger] hibitset_elems(*old(s)).contains(i) ==> i <= HIBITSET_MAX_INDEX,
        forall|i: u32| #[trigger] hibitset_elems(*other).contains(i) ==> i <= HIBITSET_MAX_INDEX,
    ensures
        hibitset_elems(*final(s)) == hibitset_elems(*old(s)).difference(hibitset_elems(*other)),
{
    *s &= &!other;
}

/// `hibitset::BitSet::contains_set`: whether every index of `other` is in
/// `s`. It walks the set bits, so both sets hold only indices the crate
/// walks on every target.
#[verifier::external_body]
pub(crate) fn hibitset_contains_set(s: &hibitset::BitSet, other: &hibitset::BitSet) -> (r: bool)
    requires
        forall|i: u32| #[trigger] hibitset_elems(*s).contains(i) ==> i <= HIBITSET_MAX_INDEX,
        forall|i: u32| #[trigger] hibitset_elems(*other).contains(i) ==> i <= HIBITSET_MAX_INDEX,
    ensures
        r == hibitset_elems(*other).subset_of(hibitset_elems(*s)),
{
    s.contains_set(other)
}

/// `Clone` of `hibitset::BitSet`: a set with the same indices.
#[verifier::external_body]
pub(crate) fn hibitset_clone(s: &hibitset::BitSet) -> (r: hibitset::BitSet)
    ensures
        hibitset_elems(r) == hibitset_elems(*s),
{
    s.clone()
}

// ---------------------------------------------------------------------------
// fixedbitset::FixedBitSet
// ---------------------------------------------------------------------------

#[verifier::external_type_specification]
#[verifier::external_body]
pub struct ExFixedBitSet(fixedbitset::FixedBitSet);

/// The positions of all set bits stored in a fixed bit set.
pub uninterp spec fn fixedbitset_bits(s: fixedbitset::FixedBitSet) -> Set<usize>;

/// The length (number of bits) a fixed bit set was given.
pub uninterp spec fn fixedbitset_len(s: fixedbitset::FixedBitSet) -> nat;

/// `fixedbitset::FixedBitSet::new`: no bits, length 0.
#[verifier::external_body]
pub(crate) fn fixedbitset_new() -> (r: fixedbitset::FixedBitSet)
    ensures
        fixedbitset_bits(r) == Set::<usize>::empty(),
        fixedbitset_len(r) == 0,
{
    fixedbitset::FixedBitSet::new()
}

/// `fixedbitset::FixedBitSet::with_capacity`: `bits` cleared bits.
#[verifier::external_body]
pub(crate) fn fixedbitset_with_capacity(bits: usize) -> (r: fixedbitset::FixedBitSet)
    ensures
        fixedbitset_bits(r) == Set::<usize>::empty(),
        fixedbitset_len(r) == bits,
{
    fixedbitset::FixedBitSet::with_capacity(bits)
}

/// `fixedbitset::FixedBitSet::len`.
#[verifier::external_body]
pub(crate) fn fixedbitset_length(s: &fixedbitset::FixedBitSet) -> (r: usize)
    ensures
        r == fixedbitset_len(*s),
{
    s.len()
}

/// `fixedbitset::FixedBitSet::grow`: the length becomes at least `bits`,
/// new bits are cleared.
#[verifier::external_body]
pub(crate) fn fixedbitset_grow(s: &mut fixedbitset::FixedBitSet, bits: usize)
    ensures
        fixedbitset_bits(*final(s)) == fixedbitset_bits(*old(s)),
        fixedbitset_len(*final(s)) == if bits > fixedbitset_len(*old(s)) {
            bits as nat
        } else {
            fixedbitset_len(*old(s))
        },
{
    s.grow(bits)
}

/// `fixedbitset::FixedBitSet::insert`; the crate panics at or past the
/// length, which the precondition rules out.
#[verifier::external_body]
pub(crate) fn fixedbitset_insert(s: &mut fixedbitset::FixedBitSet, bit: usize)
    requires
        bit < fixedbitset_len(*old(s)),
    ensures
        fixedbitset_bits(*final(s)) == fixedbitset_bits(*old(s)).insert(bit),
        fixedbitset_len(*final(s)) == fixedbitset_len(*old(s)),
{
    s.insert(bit)
}

/// `fixedbitset::FixedBitSet::contains`: the bit is below the length and set.
#[verifier::external_body]
pub(crate) fn fixedbitset_contains(s: &fixedbitset::FixedBitSet, bit: usize) -> (r: bool)
    ensures
        r == (bit < fixedbitset_len(*s) && fixedbitset_bits(*s).contains(bit)),
{
    s.contains(bit)
}

/// `fixedbitset::FixedBitSet::union_with`: in-place union; the length grows
/// to the other set's length when that is larger.
#[verifier::external_body]
pub(crate) fn fixedbitset_union_with(s: &mut fixedbitset::FixedBitSet, other: &fixedbitset::FixedBitSet)
    ensures
        fixedbitset_bits(*final(s)) == fixedbitset_bits(*old(s)).union(fixedbitset_bits(*other)),
        fixedbitset_len(*final(s)) == if fixedbitset_len(*other) > fixedbitset_len(*old(s)) {
            fixedbitset_len(*other)
        } else {
            fixedbitset_len(*old(s))
        },
{
    s.union_with(other)
}

/// `fixedbitset::FixedBitSet::difference_with`: clears every bit of `other`;
/// the length is unchanged.
#[verifier::external_body]
pub(crate) fn fixedbitset_difference_with(
    s: &mut fixedbitset::FixedBitSet,
    other: &fixedbitset::FixedBitSet,
)
    ensures
        fixedbitset_bits(*final(s)) == fixedbitset_bits(*old(s)).difference(
            fixedbitset_bits(*other),
        ),
        fixedbitset_len(*final(s)) == fixedbitset_len(*old(s)),
{
    s.difference_with(other)
}

/// `fixedbitset::FixedBitSet::remove_range` on `start..end`; the crate panics
/// on a range that is not inside the length, which the precondition rules out.
#[verifier::external_body]
pub(crate) fn fixedbitset_remove_range(s: &mut fixedbitset::FixedBitSet, start: usize, end: usize)
    requires
        start <= end,
        end <= fixedbitset_len(*old(s)),
    ensures
        fixedbitset_bits(*final(s)) == fixedbitset_bits(*old(s)).filter(
            |i: usize| !(start <= i && i < end),
        ),
        fixedbitset_len(*final(s)) == fixedbitset_len(*old(s)),
{
    s.remove_range(start..end)
}

/// `PartialEq` of `fixedbitset::FixedBitSet`: equal lengths and equal stored
/// bits.
#[verifier::external_body]
pub(crate) fn fixedbitset_eq(s: &fixedbitset::FixedBitSet, other: &fixedbitset::FixedBitSet) -> (r: bool)
    ensures
        r == (fixedbitset_len(*s) == fixedbitset_len(*other) && fixedbitset_bits(*s)
            == fixedbitset_bits(*other)),
{
    s == other
}

/// `Clone` of `fixedbitset::FixedBitSet`: same length, same bits.
#[verifier::external_body]
pub(crate) fn fixedbitset_clone(s: &fixedbitset::FixedBitSet) -> (r: fixedbitset::FixedBitSet)
    ensures
        fixedbitset_bits(r) == fixedbitset_bits(*s),
        fixedbitset_len(r) == fixedbitset_len(*s),
{
    s.clone()
}

// ---------------------------------------------------------------------------
// The sets a gen/kill dataflow problem computes with
// ---------------------------------------------------------------------------

/// The larger of two naturals.
pub open spec fn max_nat(a: nat, b: nat) -> nat {
    if a >= b {
        a
    } else {
        b
    }
}

/// A set of facts as the dataflow solver sees it: its elements and a width
/// Every element of `s` is one that sets of type `S` handle.
pub open spec fn in_range_set<S: FlowSet>(s: Set<S::Elem>) -> bool {
    forall|e: S::Elem| #[trigger] s.contains(e) ==> S::in_range(e)
}

/// (the length of a fixed bit set; zero for sets without one).
pub trait FlowSet: Sized {
    type Elem;

    /// Whether sets of this type handle `e` in every operation.
    spec fn in_range(e: Self::Elem) -> bool;

    spec fn elems(&self) -> Set<Self::Elem>;

    spec fn width(&self) -> nat;

    fn empty() -> (r: Self)
        ensures
            r.elems() == Set::<Self::Elem>::empty(),
            r.width() == 0,
    ;

    fn duplicate(&self) -> (r: Self)
        ensures
            r.elems() == self.elems(),
            r.width() == self.width(),
    ;

    /// The merge of two facts: their union.
    fn merge(self, other: &Self) -> (r: Self)
        requires
            forall|e: Self::Elem| #[trigger] self.elems().contains(e) ==> Self::in_range(e),
            forall|e: Self::Elem| #[trigger] other.elems().contains(e) ==> Self::in_range(e),
        ensures
            r.elems() == self.elems().union(other.elems()),
            r.width() == max_nat(self.width(), other.width()),
    ;

    /// The transfer function of a block: `(self - kill) + gen`.
    fn transfer(self, kill: &Self, gen: &Self) -> (r: Self)
        requires
            forall|e: Self::Elem| #[trigger] self.elems().contains(e) ==> Self::in_range(e),
            forall|e: Self::Elem| #[trigger] kill.elems().contains(e) ==> Self::in_range(e),
            forall|e: Self::Elem| #[trigger] gen.elems().contains(e) ==> Self::in_range(e),
        ensures
            r.elems() == self.elems().difference(kill.elems()).union(gen.elems()),
            r.width() == max_nat(self.width(), gen.width()),
    ;

    /// Whether a new fact equals an older one that it is known to include.
    fn same_as(&self, older: &Self) -> (r: bool)
        requires
            forall|e: Self::Elem| #[trigger] self.elems().contains(e) ==> Self::in_range(e),
            forall|e: Self::Elem| #[trigger] older.elems().contains(e) ==> Self::in_range(e),
            older.elems().subset_of(self.elems()),
            older.width() <= self.width(),
        ensures
            r == (self.elems() == older.elems() && self.width() == older.width()),
    ;
}

impl FlowSet for hibitset::BitSet {
    type Elem = u32;

    open spec fn in_range(e: u32) -> bool {
        e <= HIBITSET_MAX_INDEX
    }

    open spec fn elems(&self) -> Set<u32> {
        hibitset_elems(*self)
    }

    open spec fn width(&self) -> nat {
        0
    }

    fn empty() -> (r: Self) {
        hibitset_new()
    }

    fn duplicate(&self) -> (r: Self) {
        hibitset_clone(self)
    }

    fn merge(self, other: &Self) -> (r: Self) {
        proof {
            assert forall|i: u32| #[trigger] hibitset_elems(self).contains(i) implies i <= HIBITSET_MAX_INDEX by {
                assert(self.elems().contains(i));
            }
            assert forall|i: u32| #[trigger] hibitset_elems(*other).contains(i) implies i <= HIBITSET_MAX_INDEX by {
                assert(other.elems().contains(i));
            }
        }
        let mut s = self;
        hibitset_union_with(&mut s, other);
        s
    }

    fn transfer(self, kill: &Self, gen: &Self) -> (r: Self) {
        proof {
            assert forall|i: u32| #[trigger] hibitset_elems(self).contains(i) implies i <= HIBITSET_MAX_INDEX by {
                assert(self.elems().contains(i));
            }
            assert forall|i: u32| #[trigger] hibitset_elems(*kill).contains(i) implies i <= HIBITSET_MAX_INDEX by {
                assert(kill.elems().contains(i));
            }
            assert forall|i: u32| #[trigger] hibitset_elems(*gen).contains(i) implies i <= HIBITSET_MAX_INDEX by {
                assert(gen.elems().contains(i));
            }
        }
        let mut s = self;
        hibitset_difference_with(&mut s, kill);
        hibitset_union_with(&mut s, gen);
        s
    }

    fn same_as(&self, older: &Self) -> (r: bool) {
        proof {
            assert forall|i: u32| #[trigger] hibitset_elems(*self).contains(i) implies i <= HIBITSET_MAX_INDEX by {
                assert(self.elems().contains(i));
            }
            assert forall|i: u32| #[trigger] hibitset_elems(*older).contains(i) implies i <= HIBITSET_MAX_INDEX by {
                assert(older.elems().contains(i));
            }
        }
        let r = hibitset_contains_set(older, self);
        proof {
            if r {
                assert(self.elems() =~= older.elems());
            }
        }
        r
    }
}

impl FlowSet for fixedbitset::FixedBitSet {
    type Elem = usize;

    open spec fn in_range(e: usize) -> bool {
        true
    }

    open spec fn elems(&self) -> Set<usize> {
        fixedbitset_bits(*self)
    }

    open spec fn width(&self) -> nat {
        fixedbitset_len(*self)
    }

    fn empty() -> (r: Self) {
        fixedbitset_new()
    }

    fn duplicate(&self) -> (r: Self) {
        fixedbitset_clone(self)
    }

    fn merge(self, other: &Self) -> (r: Self) {
        let mut s = self;
        let n = fixedbitset_length(other);
        fixedbitset_grow(&mut s, n);
        fixedbitset_union_with(&mut s, other);
        s
    }

    fn transfer(self, kill: &Self, gen: &Self) -> (r: Self) {
        let mut s = self;
        fixedbitset_difference_with(&mut s, kill);
        fixedbitset_union_with(&mut s, gen);
        s
    }

    fn same_as(&self, older: &Self) -> (r: bool) {
        fixedbitset_eq(self, older)
    }
}

} // verus!
