//! Insertion sort.
//!
//! Classic left-to-right insertion: the prefix `0..i` is kept sorted; the
//! element at `i` is read out once, the block between its insertion point
//! and `i` is shifted one slot to the right, and the element is written
//! back. The backward scan uses a strict comparison against the new
//! element, so equal elements keep their relative order: the sort is
//! stable, and its result is pinned exactly by [`insertion_sort_spec`].

use vstd::prelude::*;
use vstd::seq_lib::group_to_multiset_ensures;

use crate::order::StrictOrder;
use crate::order::NaturalOrder;
use crate::order::Ascending;
use crate::order::sorted;
use crate::order::sorted_range;
use crate::perm::lemma_multiset_reinsert;

verus! {

/// The position at which the backward scan places a new element `x` in the
/// sorted sequence `s`: just after the rightmost element that `x` is not
/// strictly below, so that equal elements keep their original order.
pub open spec fn insert_position<T, C: StrictOrder<T>>(cmp: C, s: Seq<T>, x: T) -> int
    decreases s.len(),
{
    if s.len() == 0 {
        0
    } else if !cmp.lt_spec(x, s.last()) {
        s.len() as int
    } else {
        insert_position(cmp, s.drop_last(), x)
    }
}

/// What the insertion sort computes, as a function on sequences: each
/// element in turn is inserted into the sorted sequence of those before it.
pub open spec fn insertion_sort_spec<T, C: StrictOrder<T>>(cmp: C, s: Seq<T>) -> Seq<T>
    decreases s.len(),
{
    if s.len() == 0 {
        s
    } else {
        let prefix = insertion_sort_spec(cmp, s.drop_last());
        prefix.insert(insert_position(cmp, prefix, s.last()), s.last())
    }
}

/// The insertion point lies within the sequence, everything at or after it
/// is strictly above the new element, and the element just before it
/// is not.
proof fn lemma_insert_position_props<T, C: StrictOrder<T>>(cmp: C, s: Seq<T>, x: T)
    ensures
        0 <= insert_position(cmp, s, x) <= s.len(),
        forall|p: int|
            insert_position(cmp, s, x) <= p < s.len() ==> #[trigger] cmp.lt_spec(x, s[p]),
        insert_position(cmp, s, x) > 0 ==> !cmp.lt_spec(x, s[insert_position(cmp, s, x) - 1]),
    decreases s.len(),
{
    if s.len() > 0 && cmp.lt_spec(x, s.last()) {
        lemma_insert_position_props(cmp, s.drop_last(), x);
        let pos = insert_position(cmp, s, x);
        assert forall|p: int| pos <= p < s.len() implies #[trigger] cmp.lt_spec(x, s[p]) by {
            if p < s.len() - 1 {
                assert(s.drop_last()[p] == s[p]);
            }
        }
        if pos > 0 {
            assert(s.drop_last()[pos - 1] == s[pos - 1]);
        }
    }
}

/// The specified sort keeps the length of its input.
proof fn lemma_insertion_sort_spec_len<T, C: StrictOrder<T>>(cmp: C, s: Seq<T>)
    ensures
        insertion_sort_spec(cmp, s).len() == s.len(),
    decreases s.len(),
{
    if s.len() > 0 {
        lemma_insertion_sort_spec_len(cmp, s.drop_last());
        lemma_insert_position_props(cmp, insertion_sort_spec(cmp, s.drop_last()), s.last());
    }
}

/// Sorts the vector in place, using `lt` to compare elements: the result is
/// exactly the stable insertion sort of the input — in particular it is
/// nondecreasing under `lt` and holds exactly the elements the vector held
/// before.
pub fn insertsort_by<T: Copy, C: StrictOrder<T>>(v: &mut Vec<T>, lt: &C)
    ensures
        final(v)@.len() == old(v)@.len(),
        sorted(*lt, final(v)@),
        final(v)@.to_multiset() == old(v)@.to_multiset(),
        final(v)@ == insertion_sort_spec(*lt, old(v)@),
{
    let ghost orig = v@;
    let len = v.len();
    if len < 2 {
        proof {
            if orig.len() == 1 {
                assert(insertion_sort_spec(*lt, orig.drop_last()) == orig.drop_last());
                assert(insert_position(*lt, orig.drop_last(), orig.last()) == 0);
                assert(insertion_sort_spec(*lt, orig) =~= orig);
            }
        }
        return;
    }
    proof {
        let one = orig.subrange(0, 1);
        assert(insertion_sort_spec(*lt, one.drop_last()) == one.drop_last());
        assert(insert_position(*lt, one.drop_last(), one.last()) == 0);
        assert(insertion_sort_spec(*lt, one) =~= one);
        assert(orig =~= insertion_sort_spec(*lt, one) + orig.subrange(1, len as int));
    }
    let mut i: usize = 1;
    while i < len
        invariant
            1 <= i <= len,
            len == v@.len(),
            orig.len() == len,
            sorted_range(*lt, v@, 0, i as int),
            v@.to_multiset() == orig.to_multiset(),
            v@ == insertion_sort_spec(*lt, orig.subrange(0, i as int)) + orig.subrange(
                i as int,
                len as int,
            ),
        decreases len - i,
    {
        let x = v[i];
        let ghost s0 = v@;
        // scan backward for the insertion point: strict `<` keeps equal
        // elements in their original order
        let mut j: usize = i;
        while j > 0 && lt.lt(&x, &v[j - 1])
            invariant
                0 <= j <= i,
                i < len,
                len == v@.len(),
                v@ == s0,
                x == s0[i as int],
                forall|p: int| j <= p < i ==> #[trigger] lt.lt_spec(x, s0[p]),
            decreases j,
        {
            j -= 1;
        }
        if i != j {
            // shift the block `j..i` one slot to the right, then drop the
            // element into the gap
            let mut k: usize = i;
            while k > j
                invariant
                    j <= k <= i,
                    i < len,
                    len == v@.len(),
                    x == s0[i as int],
                    forall|p: int| 0 <= p <= k ==> v@[p] == s0[p],
                    forall|p: int| k < p <= i ==> v@[p] == s0[p - 1],
                    forall|p: int| i < p < len ==> v@[p] == s0[p],
                decreases k,
            {
                let tmp = v[k - 1];
                v.set(k, tmp);
                k -= 1;
            }
            v.set(j, x);
        }
        proof {
            broadcast use group_to_multiset_ensures;

            let t = v@;
            let ii = i as int;
            let pfx = insertion_sort_spec(*lt, orig.subrange(0, ii));
            if i != j {
                assert(t =~= s0.remove(ii).insert(j as int, x));
                assert(t.to_multiset() == s0.to_multiset().remove(x).insert(x));
                assert(s0.contains(x));
                lemma_multiset_reinsert(s0.to_multiset(), x);
            }
            assert forall|a: int, b: int| 0 <= a < b < i + 1 implies !(#[trigger] lt.lt_spec(
                t[b],
                t[a],
            )) by {
                if b == j {
                    // the inserted element is not below anything before it
                    if a < j - 1 {
                        lt.lemma_complement_transitive(s0[a], s0[j - 1], x);
                    }
                } else if b > j {
                    if a == j {
                        // everything shifted right of the gap was strictly
                        // above the inserted element
                        lt.lemma_asymmetric(x, t[b]);
                    }
                }
            }
            assert(sorted_range(*lt, t, 0, i + 1));
            // the backward scan found exactly the specified insertion point
            lemma_insertion_sort_spec_len(*lt, orig.subrange(0, ii));
            lemma_insert_position_props(*lt, pfx, x);
            let jp = insert_position(*lt, pfx, x);
            assert(pfx.len() == ii);
            assert(x == orig.subrange(ii, len as int)[0]);
            if (j as int) < jp {
                assert(lt.lt_spec(x, s0[jp - 1]));
                assert(s0[jp - 1] == pfx[jp - 1]);
                assert(false);
            }
            if (j as int) > jp {
                assert(lt.lt_spec(x, pfx[j - 1]));
                assert(s0[j - 1] == pfx[j - 1]);
                assert(false);
            }
            // so the new state is the specified sort of one more element
            assert(orig.subrange(0, ii + 1).drop_last() =~= orig.subrange(0, ii));
            assert(orig.subrange(0, ii + 1).last() == x);
            assert(insertion_sort_spec(*lt, orig.subrange(0, ii + 1)) == pfx.insert(jp, x));
            assert(t =~= pfx.insert(jp, x) + orig.subrange(ii + 1, len as int));
        }
        i += 1;
    }
    proof {
        assert(orig.subrange(0, len as int) =~= orig);
        assert(v@ =~= insertion_sort_spec(*lt, orig));
    }
}

/// Sorts the vector in place into nondecreasing natural order; the result
/// is exactly the stable insertion sort of the input.
pub fn insertsort<T: Copy + NaturalOrder>(v: &mut Vec<T>)
    ensures
        final(v)@.len() == old(v)@.len(),
        sorted(Ascending, final(v)@),
        final(v)@.to_multiset() == old(v)@.to_multiset(),
        final(v)@ == insertion_sort_spec(Ascending, old(v)@),
{
    insertsort_by(v, &Ascending);
}

/// Insertion sort of an already-sorted sequence is the identity: with the
/// sort's contract, running it on sorted input hands the vector back
/// exactly unchanged, whatever the comparator.
pub proof fn lemma_insertion_sort_of_sorted<T, C: StrictOrder<T>>(cmp: C, s: Seq<T>)
    requires
        sorted(cmp, s),
    ensures
        insertion_sort_spec(cmp, s) == s,
    decreases s.len(),
{
    if s.len() > 0 {
        let s1 = s.drop_last();
        assert forall|i: int, j: int| 0 <= i < j < s1.len() implies !(#[trigger] cmp.lt_spec(
            s1[j],
            s1[i],
        )) by {
            assert(s1[i] == s[i]);
            assert(s1[j] == s[j]);
        }
        lemma_insertion_sort_of_sorted(cmp, s1);
        if s1.len() > 0 {
            assert(s1.last() == s[s.len() - 2]);
            assert(!cmp.lt_spec(s.last(), s[s.len() - 2]));
        }
        assert(insertion_sort_spec(cmp, s) =~= s);
    }
}

/// The elements tied with `x` under `cmp`: neither side is strictly below
/// the other.
pub open spec fn tied_with<T, C: StrictOrder<T>>(cmp: C, x: T) -> spec_fn(T) -> bool {
    |e: T| !cmp.lt_spec(e, x) && !cmp.lt_spec(x, e)
}

/// Nothing in `s` satisfies `pred`, so filtering keeps nothing.
proof fn lemma_filter_none<T>(s: Seq<T>, pred: spec_fn(T) -> bool)
    requires
        forall|k: int| 0 <= k < s.len() ==> !pred(#[trigger] s[k]),
    ensures
        s.filter(pred) == Seq::<T>::empty(),
    decreases s.len(),
{
    reveal(Seq::filter);
    if s.len() == 0 {
        assert(s =~= Seq::<T>::empty());
    } else {
        assert(forall|k: int| 0 <= k < s.drop_last().len() ==> !pred(#[trigger] s.drop_last()[k]));
        lemma_filter_none(s.drop_last(), pred);
    }
}

/// Filtering a single element keeps it exactly when it satisfies `pred`.
proof fn lemma_filter_singleton<T>(s: Seq<T>, pred: spec_fn(T) -> bool)
    requires
        s.len() == 1,
    ensures
        pred(s[0]) ==> s.filter(pred) == s,
        !pred(s[0]) ==> s.filter(pred) == Seq::<T>::empty(),
{
    reveal(Seq::filter);
    assert(s.drop_last().filter(pred) == s.drop_last());
    if pred(s[0]) {
        assert(s.drop_last().push(s.last()) =~= s);
    } else {
        assert(s.drop_last() =~= Seq::<T>::empty());
    }
}

/// Insertion sort is stable: for any reference value `x`, the subsequence
/// of elements tied with `x` comes out of the sort exactly as it went in —
/// equal elements keep their relative order.
#[verifier::rlimit(50)]
pub proof fn lemma_insertion_sort_stable<T, C: StrictOrder<T>>(cmp: C, s: Seq<T>, x: T)
    ensures
        insertion_sort_spec(cmp, s).filter(tied_with(cmp, x)) == s.filter(tied_with(cmp, x)),
    decreases s.len(),
{
    let f = tied_with(cmp, x);
    if s.len() > 0 {
        let y = s.last();
        let s1 = s.drop_last();
        let t1 = insertion_sort_spec(cmp, s1);
        lemma_insertion_sort_stable(cmp, s1, x);
        lemma_insert_position_props(cmp, t1, y);
        let pos = insert_position(cmp, t1, y);
        let res = insertion_sort_spec(cmp, s);
        assert(res == t1.insert(pos, y));
        let head = t1.take(pos);
        let tail = t1.skip(pos);
        let single = seq![y];
        lemma_filter_singleton(single, f);
        assert(t1 =~= head + tail);
        assert(res =~= head + (single + tail));
        assert(s =~= s1 + single);
        Seq::filter_distributes_over_add(head, single + tail, f);
        Seq::filter_distributes_over_add(single, tail, f);
        Seq::filter_distributes_over_add(head, tail, f);
        Seq::filter_distributes_over_add(s1, single, f);
        assert(res.filter(f) == head.filter(f) + (single.filter(f) + tail.filter(f)));
        assert(t1.filter(f) == head.filter(f) + tail.filter(f));
        assert(s.filter(f) == s1.filter(f) + single.filter(f));
        if f(y) {
            // everything past the insertion point is strictly above the new
            // element, so nothing there can be tied with `x`
            assert forall|k: int| 0 <= k < tail.len() implies !f(#[trigger] tail[k]) by {
                assert(tail[k] == t1[pos + k]);
                assert(cmp.lt_spec(y, t1[pos + k]));
                if f(t1[pos + k]) {
                    cmp.lemma_complement_transitive(t1[pos + k], x, y);
                    assert(false);
                }
            }
            lemma_filter_none(tail, f);
            assert(res.filter(f) =~= s.filter(f));
        } else {
            assert(res.filter(f) =~= s.filter(f));
        }
    }
}

} // verus!
