//! The comparator contract shared by all three sorting algorithms.
//!
//! A comparator is a value implementing [`StrictOrder`]: a strict
//! less-than relation together with proofs that it is a strict weak
//! ordering (asymmetric, and with a transitive complement). Element types
//! that carry a natural order of their own implement [`NaturalOrder`]; the
//! zero-sized comparators [`Ascending`] and [`Descending`] lift that order
//! into a `StrictOrder` in either direction.

use vstd::prelude::*;

verus! {

/// A strict less-than relation over `T`, supplied by the caller of a sort.
///
/// Implementations must prove that the relation is a strict weak ordering:
/// it is asymmetric (hence irreflexive), and its complement is transitive.
/// Those two facts are exactly what the sorting proofs rely on; a relation
/// that lacks them cannot be passed to the sorts in verified code.
pub trait StrictOrder<T>: Sized {
    /// The mathematical relation that `lt` computes.
    spec fn lt_spec(self, a: T, b: T) -> bool;

    /// `a < b` rules out `b < a` (and, taking `b == a`, rules out `a < a`).
    proof fn lemma_asymmetric(self, a: T, b: T)
        ensures
            self.lt_spec(a, b) ==> !self.lt_spec(b, a),
    ;

    /// The complement of the relation ("not above") is transitive:
    /// if `a` is not above `b` and `b` is not above `c`, then `a` is not
    /// above `c`.
    proof fn lemma_complement_transitive(self, a: T, b: T, c: T)
        ensures
            !self.lt_spec(b, a) && !self.lt_spec(c, b) ==> !self.lt_spec(c, a),
    ;

    /// Decide whether `a` is strictly below `b`.
    fn lt(&self, a: &T, b: &T) -> (r: bool)
        ensures
            r == self.lt_spec(*a, *b),
    ;
}

/// An element type with a natural strict order of its own, used by the
/// sort variants that take no comparator.
pub trait NaturalOrder: Sized {
    /// The natural strict less-than relation on the type.
    spec fn natural_lt(self, other: Self) -> bool;

    /// The natural order is asymmetric.
    proof fn lemma_natural_asymmetric(a: Self, b: Self)
        ensures
            a.natural_lt(b) ==> !b.natural_lt(a),
    ;

    /// The complement of the natural order is transitive.
    proof fn lemma_natural_complement_transitive(a: Self, b: Self, c: Self)
        ensures
            !b.natural_lt(a) && !c.natural_lt(b) ==> !c.natural_lt(a),
    ;

    /// Decide whether `self` is naturally below `other`.
    fn natural_less(&self, other: &Self) -> (r: bool)
        ensures
            r == self.natural_lt(*other),
    ;
}

/// The natural order of the elements, as a comparator.
pub struct Ascending;

/// The natural order of the elements reversed, as a comparator: sorting
/// under it yields a nonincreasing sequence.
pub struct Descending;

impl<T: NaturalOrder> StrictOrder<T> for Ascending {
    open spec fn lt_spec(self, a: T, b: T) -> bool {
        a.natural_lt(b)
    }

    proof fn lemma_asymmetric(self, a: T, b: T) {
        T::lemma_natural_asymmetric(a, b);
    }

    proof fn lemma_complement_transitive(self, a: T, b: T, c: T) {
        T::lemma_natural_complement_transitive(a, b, c);
    }

    fn lt(&self, a: &T, b: &T) -> (r: bool) {
        a.natural_less(b)
    }
}

impl<T: NaturalOrder> StrictOrder<T> for Descending {
    open spec fn lt_spec(self, a: T, b: T) -> bool {
        b.natural_lt(a)
    }

    proof fn lemma_asymmetric(self, a: T, b: T) {
        T::lemma_natural_asymmetric(b, a);
    }

    proof fn lemma_complement_transitive(self, a: T, b: T, c: T) {
        T::lemma_natural_complement_transitive(c, b, a);
    }

    fn lt(&self, a: &T, b: &T) -> (r: bool) {
        b.natural_less(a)
    }
}

impl NaturalOrder for u8 {
    open spec fn natural_lt(self, other: Self) -> bool {
        self < other
    }

    proof fn lemma_natural_asymmetric(a: Self, b: Self) {
    }

    proof fn lemma_natural_complement_transitive(a: Self, b: Self, c: Self) {
    }

    fn natural_less(&self, other: &Self) -> (r: bool) {
        *self < *other
    }
}

impl NaturalOrder for u16 {
    open spec fn natural_lt(self, other: Self) -> bool {
        self < other
    }

    proof fn lemma_natural_asymmetric(a: Self, b: Self) {
    }

    proof fn lemma_natural_complement_transitive(a: Self, b: Self, c: Self) {
    }

    fn natural_less(&self, other: &Self) -> (r: bool) {
        *self < *other
    }
}

impl NaturalOrder for u32 {
    open spec fn natural_lt(self, other: Self) -> bool {
        self < other
    }

    proof fn lemma_natural_asymmetric(a: Self, b: Self) {
    }

    proof fn lemma_natural_complement_transitive(a: Self, b: Self, c: Self) {
    }

    fn natural_less(&self, other: &Self) -> (r: bool) {
        *self < *other
    }
}

impl NaturalOrder for u64 {
    open spec fn natural_lt(self, other: Self) -> bool {
        self < other
    }

    proof fn lemma_natural_asymmetric(a: Self, b: Self) {
    }

    proof fn lemma_natural_complement_transitive(a: Self, b: Self, c: Self) {
    }

    fn natural_less(&self, other: &Self) -> (r: bool) {
        *self < *other
    }
}

impl NaturalOrder for usize {
    open spec fn natural_lt(self, other: Self) -> bool {
        self < other
    }

    proof fn lemma_natural_asymmetric(a: Self, b: Self) {
    }

    proof fn lemma_natural_complement_transitive(a: Self, b: Self, c: Self) {
    }

    fn natural_less(&self, other: &Self) -> (r: bool) {
        *self < *other
    }
}

impl NaturalOrder for i8 {
    open spec fn natural_lt(self, other: Self) -> bool {
        self < other
    }

    proof fn lemma_natural_asymmetric(a: Self, b: Self) {
    }

    proof fn lemma_natural_complement_transitive(a: Self, b: Self, c: Self) {
    }

    fn natural_less(&self, other: &Self) -> (r: bool) {
        *self < *other
    }
}

impl NaturalOrder for i16 {
    open spec fn natural_lt(self, other: Self) -> bool {
        self < other
    }

    proof fn lemma_natural_asymmetric(a: Self, b: Self) {
    }

    proof fn lemma_natural_complement_transitive(a: Self, b: Self, c: Self) {
    }

    fn natural_less(&self, other: &Self) -> (r: bool) {
        *self < *other
    }
}

impl NaturalOrder for i32 {
    open spec fn natural_lt(self, other: Self) -> bool {
        self < other
    }

    proof fn lemma_natural_asymmetric(a: Self, b: Self) {
    }

    proof fn lemma_natural_complement_transitive(a: Self, b: Self, c: Self) {
    }

    fn natural_less(&self, other: &Self) -> (r: bool) {
        *self < *other
    }
}

impl NaturalOrder for i64 {
    open spec fn natural_lt(self, other: Self) -> bool {
        self < other
    }

    proof fn lemma_natural_asymmetric(a: Self, b: Self) {
    }

    proof fn lemma_natural_complement_transitive(a: Self, b: Self, c: Self) {
    }

    fn natural_less(&self, other: &Self) -> (r: bool) {
        *self < *other
    }
}

impl NaturalOrder for isize {
    open spec fn natural_lt(self, other: Self) -> bool {
        self < other
    }

    proof fn lemma_natural_asymmetric(a: Self, b: Self) {
    }

    proof fn lemma_natural_complement_transitive(a: Self, b: Self, c: Self) {
    }

    fn natural_less(&self, other: &Self) -> (r: bool) {
        *self < *other
    }
}

/// The elements of `s` at positions `lo..hi` are nondecreasing under `cmp`:
/// no element is strictly below an element standing before it.
pub open spec fn sorted_range<T, C: StrictOrder<T>>(cmp: C, s: Seq<T>, lo: int, hi: int) -> bool {
    forall|i: int, j: int| lo <= i < j < hi ==> !(#[trigger] cmp.lt_spec(s[j], s[i]))
}

/// The whole sequence is nondecreasing under `cmp`.
pub open spec fn sorted<T, C: StrictOrder<T>>(cmp: C, s: Seq<T>) -> bool {
    sorted_range(cmp, s, 0, s.len() as int)
}

/// Sorting is idempotent: two sequences that hold the same elements and are
/// both sorted under `cmp` are the same sequence, provided `cmp` tells any
/// two unequal values apart. Together with a sort's own contract — the
/// result is sorted and a permutation of the input — this says that sorting
/// an already-sorted sequence leaves it unchanged.
pub proof fn lemma_sorted_permutation_unique<T, C: StrictOrder<T>>(cmp: C, s: Seq<T>, t: Seq<T>)
    requires
        sorted(cmp, s),
        sorted(cmp, t),
        s.to_multiset() == t.to_multiset(),
        forall|a: T, b: T| !cmp.lt_spec(a, b) && !cmp.lt_spec(b, a) ==> a == b,
    ensures
        s == t,
{
    let leq = |a: T, b: T| !cmp.lt_spec(b, a);
    assert forall|a: T| #[trigger] leq(a, a) by {
        cmp.lemma_asymmetric(a, a);
    }
    assert forall|a: T, b: T| #[trigger] leq(a, b) && #[trigger] leq(b, a) implies a == b by {
    }
    assert forall|a: T, b: T, c: T| #[trigger] leq(a, b) && #[trigger] leq(b, c) implies leq(
        a,
        c,
    ) by {
        cmp.lemma_complement_transitive(a, b, c);
    }
    assert forall|a: T, b: T| #[trigger] leq(a, b) || #[trigger] leq(b, a) by {
        cmp.lemma_asymmetric(b, a);
    }
    assert(vstd::relations::total_ordering(leq));
    assert(vstd::relations::sorted_by(s, leq));
    assert(vstd::relations::sorted_by(t, leq));
    vstd::seq_lib::lemma_sorted_unique(s, t, leq);
    assert(s =~= t);
}

} // verus!
