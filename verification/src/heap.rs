//! Heap sort.
//!
//! Two phases over a sub-range `lo..hi` of the vector: build a max-heap by
//! sifting down every internal node from the last parent back to the root,
//! then repeatedly swap the root (the maximum) behind the shrinking heap and
//! sift the new root down again. The node at heap position `i` has its
//! children at positions `2i + 1` and `2i + 2`.
//!
//! The sort works on a sub-range so that the introspective sort can fall
//! back to it on the range it is currently partitioning.

use vstd::prelude::*;

use crate::order::Ascending;
use crate::order::NaturalOrder;
use crate::order::StrictOrder;
use crate::order::sorted;
use crate::order::sorted_range;
use crate::perm::lemma_bound_over_permutation;
use crate::perm::lemma_submultiset_frame;
use crate::perm::lemma_swap_preserves_subrange_multiset;
use crate::perm::swap_at;

verus! {

/// The heap position of the parent of the node at heap position `c`.
pub open spec fn heap_parent(c: int) -> int {
    (c - 1) / 2
}

/// `c` is a child position of `p`: the children of the node at heap
/// position `p` sit at heap positions `2p + 1` and `2p + 2`.
pub open spec fn is_child(p: int, c: int) -> bool {
    c == 2 * p + 1 || c == 2 * p + 2
}

/// `k` lies in the subtree rooted at heap position `root`: following
/// parent links up from `k` reaches `root`.
pub open spec fn in_subtree(root: int, k: int) -> bool
    decreases k,
{
    k == root || (0 <= root < k && in_subtree(root, heap_parent(k)))
}

/// The max-heap order at one parent-child pair of the heap laid out from
/// `lo`: the node at heap position `p` is not below the node at `c`.
pub open spec fn heap_pair<T, C: StrictOrder<T>>(
    cmp: C,
    s: Seq<T>,
    lo: int,
    p: int,
    c: int,
) -> bool {
    !cmp.lt_spec(s[lo + p], s[lo + c])
}

/// Max-heap order over the nodes at heap positions `0 ..= end` of the heap
/// laid out from `lo`, restricted to the pairs whose parent position is at
/// least `start`.
pub open spec fn heap_span<T, C: StrictOrder<T>>(
    cmp: C,
    s: Seq<T>,
    lo: int,
    start: int,
    end: int,
) -> bool {
    forall|p: int, c: int|
        start <= p && 1 <= c <= end && is_child(p, c) ==> #[trigger] heap_pair(cmp, s, lo, p, c)
}

/// In a full max-heap no node stands above the root: following the parent
/// chain of `k` up to the root, no step goes down.
proof fn lemma_heap_root_max<T, C: StrictOrder<T>>(cmp: C, s: Seq<T>, lo: int, end: int, k: int)
    requires
        0 <= lo,
        lo + end < s.len(),
        heap_span(cmp, s, lo, 0, end),
        0 <= k <= end,
    ensures
        !cmp.lt_spec(s[lo], s[lo + k]),
    decreases k,
{
    if k == 0 {
        cmp.lemma_asymmetric(s[lo], s[lo]);
    } else {
        let p = heap_parent(k);
        assert(is_child(p, k));
        assert(heap_pair(cmp, s, lo, p, k));
        lemma_heap_root_max(cmp, s, lo, end, p);
        cmp.lemma_complement_transitive(s[lo + k], s[lo + p], s[lo]);
    }
}

/// Repairs the heap whose root is at heap position `start`, assuming the
/// order already holds at every pair with a deeper parent: the root's
/// element sinks, at each step exchanged with its largest child, until
/// neither child is above it.
#[verifier::loop_isolation(false)]
fn shift_down<T: Copy, C: StrictOrder<T>>(v: &mut Vec<T>, lo: usize, start: usize, end: usize, cmp: &C)
    requires
        start <= end,
        lo + end < old(v)@.len(),
        heap_span(*cmp, old(v)@, lo as int, start as int + 1, end as int),
    ensures
        final(v)@.len() == old(v)@.len(),
        heap_span(*cmp, final(v)@, lo as int, start as int, end as int),
        forall|p: int|
            0 <= p < old(v)@.len() && !(lo + start <= p <= lo + end) ==> final(v)@[p] == old(
                v,
            )@[p],
        forall|k: int|
            start <= k <= end && !(#[trigger] in_subtree(start as int, k)) ==> final(v)@[lo as int
                + k] == old(v)@[lo as int + k],
        final(v)@.subrange(lo as int + start as int, lo as int + end as int + 1).to_multiset()
            == old(v)@.subrange(lo as int + start as int, lo as int + end as int + 1).to_multiset(),
{
    let ghost lo_i = lo as int;
    let ghost sub_lo = lo as int + start as int;
    let ghost sub_hi = lo as int + end as int + 1;
    let total = v.len();
    let mut cur = start;
    while end - cur > cur
        invariant
            start <= cur <= end,
            v@.len() == total,
            v@.len() == old(v)@.len(),
            in_subtree(start as int, cur as int),
            forall|p: int| 0 <= p < v@.len() && !(sub_lo <= p < sub_hi) ==> v@[p] == old(v)@[p],
            forall|k: int|
                start <= k <= end && !(#[trigger] in_subtree(start as int, k)) ==> v@[lo_i + k]
                    == old(v)@[lo_i + k],
            v@.subrange(sub_lo, sub_hi).to_multiset() == old(v)@.subrange(
                sub_lo,
                sub_hi,
            ).to_multiset(),
            forall|p: int, c: int|
                start <= p && 1 <= c <= end && is_child(p, c) && p != cur
                    ==> #[trigger] heap_pair(*cmp, v@, lo_i, p, c),
            cur > start ==> heap_parent(cur as int) >= start,
            cur > start && 2 * (cur as int) + 1 <= end ==> !cmp.lt_spec(
                v@[lo_i + heap_parent(cur as int)],
                v@[lo_i + 2 * (cur as int) + 1],
            ),
            cur > start && 2 * (cur as int) + 2 <= end ==> !cmp.lt_spec(
                v@[lo_i + heap_parent(cur as int)],
                v@[lo_i + 2 * (cur as int) + 2],
            ),
        decreases end - cur,
    {
        let left = 2 * cur + 1;
        let mut sw = cur;
        if cmp.lt(&v[lo + sw], &v[lo + left]) {
            sw = left;
        }
        let right = left + 1;
        if right <= end && cmp.lt(&v[lo + sw], &v[lo + right]) {
            sw = right;
        }
        if sw == cur {
            proof {
                // neither child is above the node, so the order holds at
                // every pair with parent at least `start`
                assert forall|p: int, c: int|
                    start <= p && 1 <= c <= end && is_child(p, c) implies #[trigger] heap_pair(
                    *cmp,
                    v@,
                    lo_i,
                    p,
                    c,
                ) by {
                    if p == cur as int {
                        assert(c == left as int || c == right as int);
                    }
                }
            }
            return;
        }
        let ghost pre = v@;
        swap_at(v, lo + cur, lo + sw);
        proof {
            let curi = cur as int;
            let swi = sw as int;
            lemma_swap_preserves_subrange_multiset(pre, sub_lo, sub_hi, lo_i + curi, lo_i + swi);
            assert forall|p: int, c: int|
                start <= p && 1 <= c <= end && is_child(p, c) && p != swi
                    implies #[trigger] heap_pair(*cmp, v@, lo_i, p, c) by {
                if p == curi {
                    if c == swi {
                        // the child that moved up had beaten the old parent
                        if sw == left {
                            cmp.lemma_asymmetric(pre[lo_i + curi], pre[lo_i + swi]);
                        } else {
                            if cmp.lt_spec(pre[lo_i + curi], pre[lo_i + left as int]) {
                                cmp.lemma_asymmetric(pre[lo_i + curi], pre[lo_i + left as int]);
                                cmp.lemma_asymmetric(pre[lo_i + left as int], pre[lo_i + swi]);
                                cmp.lemma_complement_transitive(
                                    pre[lo_i + curi],
                                    pre[lo_i + left as int],
                                    pre[lo_i + swi],
                                );
                            } else {
                                cmp.lemma_asymmetric(pre[lo_i + curi], pre[lo_i + swi]);
                            }
                        }
                    } else {
                        // the other child lost the comparison against the
                        // one that moved up
                        if sw == left {
                            assert(c == right as int);
                        } else {
                            assert(c == left as int);
                            if cmp.lt_spec(pre[lo_i + curi], pre[lo_i + left as int]) {
                                cmp.lemma_asymmetric(pre[lo_i + left as int], pre[lo_i + swi]);
                            } else {
                                cmp.lemma_asymmetric(pre[lo_i + curi], pre[lo_i + swi]);
                                cmp.lemma_complement_transitive(
                                    pre[lo_i + left as int],
                                    pre[lo_i + curi],
                                    pre[lo_i + swi],
                                );
                            }
                        }
                    }
                } else if c == curi {
                    // the element that moved down is still under cur's own
                    // parent, which dominated both of cur's children
                    assert(p == heap_parent(curi));
                    assert(cur > start);
                } else if c == swi {
                    assert(p == heap_parent(swi));
                    assert(false);
                } else {
                    assert(heap_pair(*cmp, pre, lo_i, p, c));
                }
            }
            // the new node's children were already under it before the swap
            if 2 * swi + 1 <= end {
                assert(heap_pair(*cmp, pre, lo_i, swi, 2 * swi + 1));
            }
            if 2 * swi + 2 <= end {
                assert(heap_pair(*cmp, pre, lo_i, swi, 2 * swi + 2));
            }
        }
        cur = sw;
    }
    proof {
        assert forall|p: int, c: int|
            start <= p && 1 <= c <= end && is_child(p, c) implies #[trigger] heap_pair(
            *cmp,
            v@,
            lo_i,
            p,
            c,
        ) by {
            if p == cur as int {
                assert(c >= 2 * (cur as int) + 1);
                assert(false);
            }
        }
    }
}

/// Builds a max-heap over `lo..hi` by sifting down every internal node,
/// from the last parent back to the root.
#[verifier::loop_isolation(false)]
fn heapify<T: Copy, C: StrictOrder<T>>(v: &mut Vec<T>, lo: usize, hi: usize, cmp: &C)
    requires
        lo < hi <= old(v)@.len(),
    ensures
        final(v)@.len() == old(v)@.len(),
        heap_span(*cmp, final(v)@, lo as int, 0, hi as int - lo as int - 1),
        forall|p: int| 0 <= p < old(v)@.len() && !(lo <= p < hi) ==> final(v)@[p] == old(v)@[p],
        final(v)@.subrange(lo as int, hi as int).to_multiset() == old(v)@.subrange(
            lo as int,
            hi as int,
        ).to_multiset(),
{
    let ghost lo_i = lo as int;
    let ghost hi_i = hi as int;
    let n = hi - lo;
    if n < 2 {
        return;
    }
    // number of internal nodes still to sift down; the next one is `todo - 1`
    let mut todo = (n - 2) / 2 + 1;
    proof {
        assert forall|p: int, c: int|
            todo <= p && 1 <= c <= n as int - 1 && is_child(p, c) implies #[trigger] heap_pair(
            *cmp,
            v@,
            lo_i,
            p,
            c,
        ) by {
            assert(p == heap_parent(c));
            assert(false);
        }
    }
    while todo > 0
        invariant
            0 <= todo <= (n as int - 2) / 2 + 1,
            n == hi - lo,
            v@.len() == old(v)@.len(),
            heap_span(*cmp, v@, lo_i, todo as int, n as int - 1),
            forall|p: int| 0 <= p < v@.len() && !(lo_i <= p < hi_i) ==> v@[p] == old(v)@[p],
            v@.subrange(lo_i, hi_i).to_multiset() == old(v)@.subrange(lo_i, hi_i).to_multiset(),
        decreases todo,
    {
        let ghost prev = v@;
        shift_down(v, lo, todo - 1, n - 1, cmp);
        proof {
            lemma_submultiset_frame(
                prev,
                v@,
                lo_i,
                lo_i + todo as int - 1,
                lo_i + n as int,
                hi_i,
            );
        }
        todo -= 1;
    }
}

/// Heap sort over the sub-range `lo..hi`: afterwards the range is
/// nondecreasing under `cmp`, holds exactly the elements it held before,
/// and nothing outside the range has moved.
#[verifier::loop_isolation(false)]
pub(crate) fn heapsort_range<T: Copy, C: StrictOrder<T>>(
    v: &mut Vec<T>,
    lo: usize,
    hi: usize,
    cmp: &C,
)
    requires
        lo <= hi <= old(v)@.len(),
    ensures
        final(v)@.len() == old(v)@.len(),
        sorted_range(*cmp, final(v)@, lo as int, hi as int),
        final(v)@.subrange(lo as int, hi as int).to_multiset() == old(v)@.subrange(
            lo as int,
            hi as int,
        ).to_multiset(),
        forall|p: int| 0 <= p < old(v)@.len() && !(lo <= p < hi) ==> final(v)@[p] == old(v)@[p],
{
    let ghost lo_i = lo as int;
    let ghost hi_i = hi as int;
    if hi - lo < 2 {
        return;
    }
    heapify(v, lo, hi, cmp);
    let mut end = hi - lo - 1;
    while end > 0
        invariant
            1 <= end + 1 <= hi - lo,
            v@.len() == old(v)@.len(),
            heap_span(*cmp, v@, lo_i, 0, end as int),
            sorted_range(*cmp, v@, lo_i + end as int + 1, hi_i),
            forall|j: int, q: int|
                lo_i + end < j < hi_i && lo_i <= q <= lo_i + end ==> !(#[trigger] cmp.lt_spec(
                    v@[j],
                    v@[q],
                )),
            v@.subrange(lo_i, hi_i).to_multiset() == old(v)@.subrange(lo_i, hi_i).to_multiset(),
            forall|p: int| 0 <= p < v@.len() && !(lo_i <= p < hi_i) ==> v@[p] == old(v)@[p],
        decreases end,
    {
        let ghost pre = v@;
        proof {
            assert forall|q: int| lo_i <= q <= lo_i + end as int implies !(#[trigger] cmp.lt_spec(
                pre[lo_i],
                pre[q],
            )) by {
                lemma_heap_root_max(*cmp, pre, lo_i, end as int, q - lo_i);
            }
        }
        // move the maximum behind the heap
        swap_at(v, lo, lo + end);
        proof {
            lemma_swap_preserves_subrange_multiset(pre, lo_i, hi_i, lo_i, lo_i + end as int);
            // the sorted tail has grown by the old root on its left
            assert forall|i: int, j: int|
                lo_i + end as int <= i < j < hi_i implies !(#[trigger] cmp.lt_spec(
                v@[j],
                v@[i],
            )) by {
                if i == lo_i + end as int {
                    assert(v@[i] == pre[lo_i]);
                    assert(v@[j] == pre[j]);
                }
            }
            // the shrunken heap region is still under the whole tail
            assert forall|j: int, q: int|
                lo_i + end - 1 < j < hi_i && lo_i <= q <= lo_i + end - 1 implies !(
            #[trigger] cmp.lt_spec(v@[j], v@[q])) by {
                if j == lo_i + end as int {
                    assert(v@[j] == pre[lo_i]);
                    if q == lo_i {
                        assert(v@[q] == pre[lo_i + end as int]);
                    } else {
                        assert(v@[q] == pre[q]);
                    }
                } else {
                    assert(v@[j] == pre[j]);
                    if q == lo_i {
                        assert(v@[q] == pre[lo_i + end as int]);
                        assert(!cmp.lt_spec(pre[j], pre[lo_i + end as int]));
                    } else {
                        assert(v@[q] == pre[q]);
                    }
                }
            }
        }
        end -= 1;
        let ghost mid = v@;
        proof {
            // away from the root and the removed slot nothing moved, so the
            // deeper pairs still obey the heap order
            assert forall|p: int, c: int|
                1 <= p && 1 <= c <= end as int && is_child(p, c) implies #[trigger] heap_pair(
                *cmp,
                mid,
                lo_i,
                p,
                c,
            ) by {
                assert(p == heap_parent(c));
                assert(heap_pair(*cmp, pre, lo_i, p, c));
                assert(mid[lo_i + p] == pre[lo_i + p]);
                assert(mid[lo_i + c] == pre[lo_i + c]);
            }
        }
        shift_down(v, lo, 0, end, cmp);
        proof {
            lemma_submultiset_frame(mid, v@, lo_i, lo_i, lo_i + end as int + 1, hi_i);
            // the tail is untouched, so it stays sorted
            assert forall|i: int, j: int|
                lo_i + end as int + 1 <= i < j < hi_i implies !(#[trigger] cmp.lt_spec(
                v@[j],
                v@[i],
            )) by {
                assert(v@[i] == mid[i]);
                assert(v@[j] == mid[j]);
                assert(!cmp.lt_spec(mid[j], mid[i]));
            }
            // sifting down only permutes the heap region, so the tail still
            // dominates it
            assert forall|j: int, q: int|
                lo_i + end < j < hi_i && lo_i <= q <= lo_i + end implies !(#[trigger] cmp.lt_spec(
                v@[j],
                v@[q],
            )) by {
                assert(v@[j] == mid[j]);
                assert forall|k: int|
                    0 <= k < mid.subrange(lo_i, lo_i + end as int + 1).len() implies !(
                #[trigger] cmp.lt_spec(mid[j], mid.subrange(lo_i, lo_i + end as int + 1)[k])) by {
                    assert(mid.subrange(lo_i, lo_i + end as int + 1)[k] == mid[lo_i + k]);
                }
                lemma_bound_over_permutation(
                    *cmp,
                    mid.subrange(lo_i, lo_i + end as int + 1),
                    v@.subrange(lo_i, lo_i + end as int + 1),
                    mid[j],
                );
                assert(v@.subrange(lo_i, lo_i + end as int + 1)[q - lo_i] == v@[q]);
            }
        }
    }
    proof {
        // one element is left in the heap; the cross bound against the tail
        // makes the whole range sorted
        assert forall|i: int, j: int| lo_i <= i < j < hi_i implies !(#[trigger] cmp.lt_spec(
            v@[j],
            v@[i],
        )) by {
        }
    }
}

/// Sorts the vector in place, using `lt` to compare elements: afterwards
/// the vector is nondecreasing under `lt` and holds exactly the elements it
/// held before.
pub fn heapsort_by<T: Copy, C: StrictOrder<T>>(v: &mut Vec<T>, lt: &C)
    ensures
        final(v)@.len() == old(v)@.len(),
        sorted(*lt, final(v)@),
        final(v)@.to_multiset() == old(v)@.to_multiset(),
{
    let len = v.len();
    heapsort_range(v, 0, len, lt);
    proof {
        assert(v@.subrange(0, len as int) =~= v@);
        assert(old(v)@.subrange(0, len as int) =~= old(v)@);
    }
}

/// Sorts the vector in place into nondecreasing natural order.
pub fn heapsort<T: Copy + NaturalOrder>(v: &mut Vec<T>)
    ensures
        final(v)@.len() == old(v)@.len(),
        sorted(Ascending, final(v)@),
        final(v)@.to_multiset() == old(v)@.to_multiset(),
{
    heapsort_by(v, &Ascending);
}

} // verus!
