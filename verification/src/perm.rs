//! Lemmas about sequences viewed as multisets.
//!
//! The sorts permute a vector in place through element swaps and block
//! shifts; these lemmas relate those point updates to the multiset of the
//! sequence (or of a sub-range of it), which is how the permutation
//! guarantee of every sort is stated.

use vstd::prelude::*;
use vstd::multiset::Multiset;
use vstd::seq_lib::group_to_multiset_ensures;
use vstd::seq_lib::lemma_multiset_commutative;
use vstd::multiset::group_multiset_axioms;

use crate::order::StrictOrder;

verus! {

/// The sequence `s` with the elements at positions `i` and `j` exchanged.
pub open spec fn seq_swap<T>(s: Seq<T>, i: int, j: int) -> Seq<T> {
    s.update(i, s[j]).update(j, s[i])
}

/// Removing one occurrence of an element that a multiset holds and putting
/// it back leaves the multiset unchanged.
pub proof fn lemma_multiset_reinsert<T>(m: Multiset<T>, x: T)
    requires
        m.count(x) > 0,
    ensures
        m.remove(x).insert(x) == m,
{
    broadcast use group_multiset_axioms;

    assert(m.remove(x).insert(x) =~= m);
}

/// Exchanging two elements of a sequence does not change its multiset.
pub proof fn lemma_swap_preserves_multiset<T>(s: Seq<T>, i: int, j: int)
    requires
        0 <= i < s.len(),
        0 <= j < s.len(),
    ensures
        seq_swap(s, i, j).to_multiset() == s.to_multiset(),
{
    broadcast use group_multiset_axioms;
    broadcast use group_to_multiset_ensures;

    if i == j {
        assert(seq_swap(s, i, j) =~= s);
    } else {
        let s1 = s.update(i, s[j]);
        assert(s1[j] == s[j]);
        assert(seq_swap(s, i, j).to_multiset() =~= s.to_multiset());
    }
}

/// Exchanging two elements inside `lo..hi` does not change the multiset of
/// that sub-range.
pub proof fn lemma_swap_preserves_subrange_multiset<T>(s: Seq<T>, lo: int, hi: int, i: int, j: int)
    requires
        0 <= lo <= hi <= s.len(),
        lo <= i < hi,
        lo <= j < hi,
    ensures
        seq_swap(s, i, j).subrange(lo, hi).to_multiset() == s.subrange(lo, hi).to_multiset(),
{
    let sub = s.subrange(lo, hi);
    assert(seq_swap(s, i, j).subrange(lo, hi) =~= seq_swap(sub, i - lo, j - lo)) by {
        assert(s[i] == sub[i - lo]);
        assert(s[j] == sub[j - lo]);
    }
    lemma_swap_preserves_multiset(sub, i - lo, j - lo);
}

/// The multiset of a range is the sum of the multisets of its two halves.
pub proof fn lemma_subrange_split_multiset<T>(s: Seq<T>, lo: int, mid: int, hi: int)
    requires
        0 <= lo <= mid <= hi <= s.len(),
    ensures
        s.subrange(lo, hi).to_multiset() == s.subrange(lo, mid).to_multiset().add(
            s.subrange(mid, hi).to_multiset(),
        ),
{
    assert(s.subrange(lo, hi) =~= s.subrange(lo, mid) + s.subrange(mid, hi));
    lemma_multiset_commutative(s.subrange(lo, mid), s.subrange(mid, hi));
}

/// A permutation of a sequence of at most one element is that sequence.
/// Together with a sort's contract this gives the boundary behaviour: an
/// empty or single-element vector comes back from any of the sorts without
/// modification.
pub proof fn lemma_short_permutation_identical<T>(s: Seq<T>, t: Seq<T>)
    requires
        s.to_multiset() == t.to_multiset(),
        s.len() <= 1,
    ensures
        s == t,
{
    broadcast use group_to_multiset_ensures;

    assert(s.to_multiset().len() == s.len());
    assert(t.to_multiset().len() == t.len());
    if s.len() == 0 {
        assert(s =~= t);
    } else {
        assert(t.contains(t[0]));
        assert(s.to_multiset().count(t[0]) > 0);
        assert(s.contains(t[0]));
        assert(s =~= t);
    }
}

/// If two sequences agree outside `a..b` and the multisets of their `a..b`
/// ranges agree, then the multisets of any enclosing range `lo..hi` agree.
pub proof fn lemma_submultiset_frame<T>(s1: Seq<T>, s2: Seq<T>, lo: int, a: int, b: int, hi: int)
    requires
        0 <= lo <= a <= b <= hi <= s1.len(),
        s1.len() == s2.len(),
        forall|p: int| lo <= p < a || b <= p < hi ==> s1[p] == s2[p],
        s2.subrange(a, b).to_multiset() == s1.subrange(a, b).to_multiset(),
    ensures
        s2.subrange(lo, hi).to_multiset() == s1.subrange(lo, hi).to_multiset(),
{
    lemma_subrange_split_multiset(s1, lo, a, hi);
    lemma_subrange_split_multiset(s1, a, b, hi);
    lemma_subrange_split_multiset(s2, lo, a, hi);
    lemma_subrange_split_multiset(s2, a, b, hi);
    assert(s1.subrange(lo, a) =~= s2.subrange(lo, a));
    assert(s1.subrange(b, hi) =~= s2.subrange(b, hi));
}

/// Exchanges the elements at positions `i` and `j`.
pub(crate) fn swap_at<T: Copy>(v: &mut Vec<T>, i: usize, j: usize)
    requires
        i < old(v)@.len(),
        j < old(v)@.len(),
    ensures
        final(v)@ == seq_swap(old(v)@, i as int, j as int),
        final(v)@.len() == old(v)@.len(),
{
    let a = v[i];
    let b = v[j];
    v.set(i, b);
    v.set(j, a);
}

/// A bound that holds of every element of a sequence also holds of every
/// element of any rearrangement of it: if nothing in `s1` stands above `x`,
/// nothing in a sequence with the same multiset does either.
pub proof fn lemma_bound_over_permutation<T, C: StrictOrder<T>>(
    cmp: C,
    s1: Seq<T>,
    s2: Seq<T>,
    x: T,
)
    requires
        s1.to_multiset() == s2.to_multiset(),
        forall|k: int| 0 <= k < s1.len() ==> !(#[trigger] cmp.lt_spec(x, s1[k])),
    ensures
        forall|k: int| 0 <= k < s2.len() ==> !(#[trigger] cmp.lt_spec(x, s2[k])),
{
    broadcast use group_to_multiset_ensures;

    assert forall|k: int| 0 <= k < s2.len() implies !(#[trigger] cmp.lt_spec(x, s2[k])) by {
        assert(s2.contains(s2[k]));
        assert(s1.to_multiset().count(s2[k]) > 0);
        assert(s1.contains(s2[k]));
        let k1 = choose|k1: int| 0 <= k1 < s1.len() && s1[k1] == s2[k];
        assert(!cmp.lt_spec(x, s1[k1]));
    }
}

/// The mirrored bound: if nothing in `s1` stands below `x`, nothing in a
/// sequence with the same multiset does either.
pub proof fn lemma_bound_below_over_permutation<T, C: StrictOrder<T>>(
    cmp: C,
    s1: Seq<T>,
    s2: Seq<T>,
    x: T,
)
    requires
        s1.to_multiset() == s2.to_multiset(),
        forall|k: int| 0 <= k < s1.len() ==> !(#[trigger] cmp.lt_spec(s1[k], x)),
    ensures
        forall|k: int| 0 <= k < s2.len() ==> !(#[trigger] cmp.lt_spec(s2[k], x)),
{
    broadcast use group_to_multiset_ensures;

    assert forall|k: int| 0 <= k < s2.len() implies !(#[trigger] cmp.lt_spec(s2[k], x)) by {
        assert(s2.contains(s2[k]));
        assert(s1.to_multiset().count(s2[k]) > 0);
        assert(s1.contains(s2[k]));
        let k1 = choose|k1: int| 0 <= k1 < s1.len() && s1[k1] == s2[k];
        assert(!cmp.lt_spec(s1[k1], x));
    }
}

} // verus!
