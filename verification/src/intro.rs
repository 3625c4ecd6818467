//! Introspective sort.
//!
//! Quicksort with a median-of-three pivot drives the work: each step
//! partitions the current range, recurses on the right part and keeps
//! looping on the left part, so only one side consumes stack. A depth
//! budget of twice the floored base-two logarithm of the length is spent
//! one unit per partition; a range whose budget runs out is handed to heap
//! sort, which bounds the worst case. Ranges that shrink to the threshold
//! are left untouched and a single insertion-sort pass over the whole
//! vector finishes the job.

use vstd::prelude::*;
use vstd::arithmetic::power2::lemma2_to64;
use vstd::arithmetic::power2::lemma_pow2_unfold;
use vstd::arithmetic::power2::pow2;

use crate::heap::heapsort_range;
use crate::insertion::insertsort_by;
use crate::order::Ascending;
use crate::order::NaturalOrder;
use crate::order::StrictOrder;
use crate::order::sorted;
use crate::order::sorted_range;
use crate::perm::lemma_bound_below_over_permutation;
use crate::perm::lemma_bound_over_permutation;
use crate::perm::lemma_submultiset_frame;
use crate::perm::lemma_swap_preserves_subrange_multiset;
use crate::perm::swap_at;

verus! {

/// Ranges no longer than this are left to the final insertion-sort pass.
/// The value tunes performance, not correctness.
pub const THRESHOLD: usize = 32;

/// The sequence is sorted but for disorder inside windows shorter than the
/// threshold: any two positions in `lo..hi` at least `THRESHOLD` apart
/// stand in nondecreasing order. This is the state in which the partition
/// loop leaves a range, and what makes the single finishing insertion-sort
/// pass cheap.
pub open spec fn threshold_sorted<T, C: StrictOrder<T>>(cmp: C, s: Seq<T>, lo: int, hi: int) -> bool {
    forall|i: int, j: int|
        lo <= i < j < hi && j - i >= THRESHOLD ==> !(#[trigger] cmp.lt_spec(s[j], s[i]))
}

/// The floor of the base-two logarithm.
pub open spec fn log2_floor(n: nat) -> nat
    recommends
        n >= 1,
    decreases n,
{
    if n < 2 {
        0
    } else {
        1 + log2_floor(n / 2)
    }
}

/// The floored logarithm of anything below `2^k` is below `k`.
proof fn lemma_log2_floor_bound(n: nat, k: nat)
    requires
        1 <= n < pow2(k),
    ensures
        log2_floor(n) < k,
    decreases k,
{
    if k == 0 {
        lemma2_to64();
    } else {
        lemma_pow2_unfold(k);
        if n >= 2 {
            lemma_log2_floor_bound(n / 2, (k - 1) as nat);
        }
    }
}

/// Floor of the base-two logarithm of `n`.
fn lg(n: usize) -> (r: usize)
    requires
        n >= 1,
    ensures
        r == log2_floor(n as nat),
        r <= 63,
{
    proof {
        lemma2_to64();
        lemma_log2_floor_bound(n as nat, 64);
    }
    let mut x: u64 = n as u64;
    let mut r: usize = 0;
    while x > 1
        invariant
            1 <= x,
            r + log2_floor(x as nat) == log2_floor(n as nat),
            log2_floor(n as nat) <= 63,
        decreases x,
    {
        x = x / 2;
        r = r + 1;
    }
    r
}

/// The element at `m` sits between the elements at `x` and `y`: it is not
/// below the one at `x` and the one at `y` is not below it.
pub open spec fn between<T, C: StrictOrder<T>>(cmp: C, s: Seq<T>, x: int, m: int, y: int) -> bool {
    !cmp.lt_spec(s[m], s[x]) && !cmp.lt_spec(s[y], s[m])
}

/// The element at `r` is a median of the elements at `a`, `b` and `c`: the
/// other two positions bracket it.
pub open spec fn median_of<T, C: StrictOrder<T>>(
    cmp: C,
    s: Seq<T>,
    a: int,
    b: int,
    c: int,
    r: int,
) -> bool {
    ||| (r == a && (between(cmp, s, b, a, c) || between(cmp, s, c, a, b)))
    ||| (r == b && (between(cmp, s, a, b, c) || between(cmp, s, c, b, a)))
    ||| (r == c && (between(cmp, s, a, c, b) || between(cmp, s, b, c, a)))
}

/// Picks the position holding the median of the elements at `a`, `b`
/// and `c`.
fn median_3<T: Copy, C: StrictOrder<T>>(v: &Vec<T>, a: usize, b: usize, c: usize, cmp: &C) -> (r:
    usize)
    requires
        a < v@.len(),
        b < v@.len(),
        c < v@.len(),
    ensures
        r == a || r == b || r == c,
        median_of(*cmp, v@, a as int, b as int, c as int, r as int),
{
    let ghost s = v@;
    let ghost ai = a as int;
    let ghost bi = b as int;
    let ghost ci = c as int;
    proof {
        cmp.lemma_asymmetric(s[ai], s[bi]);
        cmp.lemma_asymmetric(s[bi], s[ci]);
        cmp.lemma_asymmetric(s[ai], s[ci]);
    }
    if cmp.lt(&v[a], &v[b]) {
        if cmp.lt(&v[b], &v[c]) {
            b
        } else if cmp.lt(&v[a], &v[c]) {
            c
        } else {
            a
        }
    } else if cmp.lt(&v[a], &v[c]) {
        a
    } else if cmp.lt(&v[b], &v[c]) {
        c
    } else {
        b
    }
}

/// Hoare partition of `lo..hi` around the pivot standing at `lo`: two
/// pointers move toward each other, exchanging elements that sit on the
/// wrong side of the pivot. Returns the split position: everything before
/// it is not above the pivot, everything from it on is not below the pivot.
#[verifier::loop_isolation(false)]
fn partition<T: Copy, C: StrictOrder<T>>(v: &mut Vec<T>, lo: usize, hi: usize, cmp: &C) -> (ret:
    usize)
    requires
        lo as int + 1 < hi as int,
        hi <= old(v)@.len(),
    ensures
        lo < ret <= hi,
        final(v)@.len() == old(v)@.len(),
        final(v)@[lo as int] == old(v)@[lo as int],
        forall|k: int| lo < k < ret ==> !(#[trigger] cmp.lt_spec(final(v)@[lo as int], final(v)@[k])),
        forall|k: int| ret <= k < hi ==> !(#[trigger] cmp.lt_spec(final(v)@[k], final(v)@[lo as int])),
        final(v)@.subrange(lo as int, hi as int).to_multiset() == old(v)@.subrange(
            lo as int,
            hi as int,
        ).to_multiset(),
        forall|p: int| 0 <= p < old(v)@.len() && !(lo <= p < hi) ==> final(v)@[p] == old(v)@[p],
{
    let ghost lo_i = lo as int;
    let ghost hi_i = hi as int;
    let pivot = v[lo];
    let mut first = lo + 1;
    let mut last = hi;
    loop
        invariant
            lo_i + 1 <= first <= last,
            last <= hi_i,
            v@.len() == old(v)@.len(),
            pivot == v@[lo_i],
            v@[lo_i] == old(v)@[lo_i],
            forall|k: int| lo_i < k < first ==> !(#[trigger] cmp.lt_spec(pivot, v@[k])),
            forall|k: int| last <= k < hi_i ==> !(#[trigger] cmp.lt_spec(v@[k], pivot)),
            v@.subrange(lo_i, hi_i).to_multiset() == old(v)@.subrange(lo_i, hi_i).to_multiset(),
            forall|p: int| 0 <= p < v@.len() && !(lo_i <= p < hi_i) ==> v@[p] == old(v)@[p],
        decreases last - first,
    {
        let ghost f0 = first;
        let ghost l0 = last;
        // advance over elements strictly below the pivot
        while first < hi && cmp.lt(&v[first], &pivot)
            invariant
                f0 <= first,
                lo_i + 1 <= first <= hi_i,
                forall|k: int| lo_i < k < first ==> !(#[trigger] cmp.lt_spec(pivot, v@[k])),
            decreases hi_i - first,
        {
            proof {
                cmp.lemma_asymmetric(v@[first as int], pivot);
            }
            first += 1;
        }
        // retreat over elements strictly above the pivot
        last -= 1;
        while last > lo && cmp.lt(&pivot, &v[last])
            invariant
                last < l0,
                lo_i <= last <= hi_i - 1,
                forall|k: int| last < k < hi_i ==> !(#[trigger] cmp.lt_spec(v@[k], pivot)),
            decreases last,
        {
            proof {
                cmp.lemma_asymmetric(pivot, v@[last as int]);
            }
            last -= 1;
        }
        if !(first < last) {
            proof {
                cmp.lemma_asymmetric(pivot, pivot);
                assert forall|k: int| first <= k < hi_i implies !(#[trigger] cmp.lt_spec(
                    v@[k],
                    pivot,
                )) by {
                    if k == last {
                        assert(first == last);
                        assert(!cmp.lt_spec(v@[first as int], pivot));
                    }
                }
            }
            return first;
        }
        let ghost pre = v@;
        swap_at(v, first, last);
        proof {
            lemma_swap_preserves_subrange_multiset(pre, lo_i, hi_i, first as int, last as int);
            cmp.lemma_asymmetric(pivot, v@[first as int]);
            cmp.lemma_asymmetric(v@[last as int], pivot);
        }
        first += 1;
    }
}

/// Chooses a pivot as the median of the first, middle and last element of
/// `lo..hi`, moves it to the front of the range, and partitions the rest
/// around it. Returns the split position; the element left at `lo` — the
/// pivot everything is partitioned around — is the median of the three
/// sampled positions of the incoming range.
fn partition_pivot<T: Copy, C: StrictOrder<T>>(v: &mut Vec<T>, lo: usize, hi: usize, cmp: &C) -> (ret: usize)
    requires
        lo as int + 2 < hi as int,
        hi <= old(v)@.len(),
    ensures
        lo < ret <= hi,
        final(v)@.len() == old(v)@.len(),
        forall|k: int| lo < k < ret ==> !(#[trigger] cmp.lt_spec(final(v)@[lo as int], final(v)@[k])),
        forall|k: int| ret <= k < hi ==> !(#[trigger] cmp.lt_spec(final(v)@[k], final(v)@[lo as int])),
        exists|m: int|
            #[trigger] median_of(
                *cmp,
                old(v)@,
                lo as int + 1,
                lo as int + (hi as int - lo as int) / 2,
                hi as int - 1,
                m,
            ) && final(v)@[lo as int] == old(v)@[m],
        final(v)@.subrange(lo as int, hi as int).to_multiset() == old(v)@.subrange(
            lo as int,
            hi as int,
        ).to_multiset(),
        forall|p: int| 0 <= p < old(v)@.len() && !(lo <= p < hi) ==> final(v)@[p] == old(v)@[p],
{
    let ghost lo_i = lo as int;
    let ghost hi_i = hi as int;
    let len = hi - lo;
    let m = median_3(v, lo + 1, lo + len / 2, hi - 1, cmp);
    let ghost pre = v@;
    swap_at(v, lo, m);
    proof {
        lemma_swap_preserves_subrange_multiset(pre, lo_i, hi_i, lo_i, m as int);
    }
    let r = partition(v, lo, hi, cmp);
    proof {
        assert(v@.subrange(lo_i, hi_i).to_multiset() == pre.subrange(lo_i, hi_i).to_multiset());
        assert(median_of(*cmp, pre, lo_i + 1, lo_i + (hi_i - lo_i) / 2, hi_i - 1, m as int)
            && v@[lo_i] == pre[m as int]);
    }
    r
}

/// The partition loop of the introspective sort over `lo..hi`: splits the
/// range until every remaining piece is within the threshold, spending one
/// unit of `depth_limit` per split and delegating the current range to heap
/// sort when the budget is exhausted. Afterwards the range holds exactly
/// the elements it held before and is threshold-sorted — only windows
/// shorter than the threshold may still be out of order — which is what
/// makes the caller's single finishing insertion-sort pass sufficient and
/// cheap. A range already within the threshold comes back untouched.
#[verifier::loop_isolation(false)]
fn introsort_loop<T: Copy, C: StrictOrder<T>>(
    v: &mut Vec<T>,
    lo: usize,
    hi: usize,
    depth_limit: usize,
    cmp: &C,
)
    requires
        lo <= hi <= old(v)@.len(),
    ensures
        final(v)@.len() == old(v)@.len(),
        final(v)@.subrange(lo as int, hi as int).to_multiset() == old(v)@.subrange(
            lo as int,
            hi as int,
        ).to_multiset(),
        forall|p: int| 0 <= p < old(v)@.len() && !(lo <= p < hi) ==> final(v)@[p] == old(v)@[p],
        threshold_sorted(*cmp, final(v)@, lo as int, hi as int),
        hi as int - lo as int <= THRESHOLD ==> final(v)@ == old(v)@,
        depth_limit == 0 && hi as int - lo as int > THRESHOLD ==> sorted_range(
            *cmp,
            final(v)@,
            lo as int,
            hi as int,
        ),
    decreases depth_limit,
{
    let ghost lo_i = lo as int;
    let ghost hi_i = hi as int;
    let mut hi_cur = hi;
    let mut depth = depth_limit;
    while hi_cur - lo > THRESHOLD
        invariant
            lo <= hi_cur <= hi,
            depth <= depth_limit,
            v@.len() == old(v)@.len(),
            v@.subrange(lo_i, hi_i).to_multiset() == old(v)@.subrange(lo_i, hi_i).to_multiset(),
            forall|p: int| 0 <= p < v@.len() && !(lo_i <= p < hi_i) ==> v@[p] == old(v)@[p],
            // the part right of the working range is already settled
            threshold_sorted(*cmp, v@, hi_cur as int, hi_i),
            // and nothing in the working range is above anything settled
            forall|i: int, j: int|
                lo_i <= i < hi_cur as int && hi_cur as int <= j < hi_i ==> !(
                #[trigger] cmp.lt_spec(v@[j], v@[i])),
            hi_i - lo_i <= THRESHOLD ==> v@ == old(v)@,
            depth_limit == 0 ==> hi_cur == hi,
        decreases depth,
    {
        if depth == 0 {
            // budget exhausted: the fallback keeps the worst case within
            // bounds and leaves the whole working range sorted
            let ghost pre = v@;
            heapsort_range(v, lo, hi_cur, cmp);
            proof {
                lemma_submultiset_frame(pre, v@, lo_i, lo_i, hi_cur as int, hi_i);
                // heap sort only permuted the working range, so the settled
                // part still dominates it
                assert forall|i: int, j: int|
                    lo_i <= i < hi_cur as int && hi_cur as int <= j < hi_i implies !(
                #[trigger] cmp.lt_spec(v@[j], v@[i])) by {
                    assert(v@[j] == pre[j]);
                    assert forall|k: int|
                        0 <= k < pre.subrange(lo_i, hi_cur as int).len() implies !(
                    #[trigger] cmp.lt_spec(pre[j], pre.subrange(lo_i, hi_cur as int)[k])) by {
                        assert(pre.subrange(lo_i, hi_cur as int)[k] == pre[lo_i + k]);
                    }
                    lemma_bound_over_permutation(
                        *cmp,
                        pre.subrange(lo_i, hi_cur as int),
                        v@.subrange(lo_i, hi_cur as int),
                        pre[j],
                    );
                    assert(v@.subrange(lo_i, hi_cur as int)[i - lo_i] == v@[i]);
                }
                assert forall|i: int, j: int|
                    lo_i <= i < j < hi_i && j - i >= THRESHOLD implies !(#[trigger] cmp.lt_spec(
                    v@[j],
                    v@[i],
                )) by {
                    if i >= hi_cur as int {
                        assert(v@[i] == pre[i]);
                        assert(v@[j] == pre[j]);
                        assert(!cmp.lt_spec(pre[j], pre[i]));
                    }
                }
            }
            return;
        }
        depth -= 1;
        let ghost pre = v@;
        let p = partition_pivot(v, lo, hi_cur, cmp);
        let ghost mid = v@;
        let ghost pivot_val = v@[lo_i];
        proof {
            lemma_submultiset_frame(pre, v@, lo_i, lo_i, hi_cur as int, hi_i);
            // the pivot is not below itself, so the whole left part — pivot
            // slot included — is not above the pivot
            cmp.lemma_asymmetric(pivot_val, pivot_val);
            // the partition only permuted the working range, so the settled
            // part still dominates it
            assert forall|i: int, j: int|
                lo_i <= i < hi_cur as int && hi_cur as int <= j < hi_i implies !(
            #[trigger] cmp.lt_spec(mid[j], mid[i])) by {
                assert(mid[j] == pre[j]);
                assert forall|k: int|
                    0 <= k < pre.subrange(lo_i, hi_cur as int).len() implies !(
                #[trigger] cmp.lt_spec(pre[j], pre.subrange(lo_i, hi_cur as int)[k])) by {
                    assert(pre.subrange(lo_i, hi_cur as int)[k] == pre[lo_i + k]);
                }
                lemma_bound_over_permutation(
                    *cmp,
                    pre.subrange(lo_i, hi_cur as int),
                    mid.subrange(lo_i, hi_cur as int),
                    pre[j],
                );
                assert(mid.subrange(lo_i, hi_cur as int)[i - lo_i] == mid[i]);
            }
        }
        introsort_loop(v, p, hi_cur, depth, cmp);
        proof {
            lemma_submultiset_frame(mid, v@, lo_i, p as int, hi_cur as int, hi_i);
            // the recursion only permuted `p..hi_cur`, whose elements stay
            // not below the pivot
            assert forall|k: int|
                0 <= k < mid.subrange(p as int, hi_cur as int).len() implies !(
            #[trigger] cmp.lt_spec(mid.subrange(p as int, hi_cur as int)[k], pivot_val)) by {
                assert(mid.subrange(p as int, hi_cur as int)[k] == mid[p as int + k]);
            }
            lemma_bound_below_over_permutation(
                *cmp,
                mid.subrange(p as int, hi_cur as int),
                v@.subrange(p as int, hi_cur as int),
                pivot_val,
            );
            // everything left of the split is not above anything right of it
            assert forall|i: int, j: int|
                lo_i <= i < p as int && p as int <= j < hi_i implies !(#[trigger] cmp.lt_spec(
                v@[j],
                v@[i],
            )) by {
                assert(v@[i] == mid[i]);
                if j < hi_cur as int {
                    assert(!cmp.lt_spec(v@.subrange(p as int, hi_cur as int)[j - p as int],
                        pivot_val));
                    assert(v@.subrange(p as int, hi_cur as int)[j - p as int] == v@[j]);
                    cmp.lemma_complement_transitive(mid[i], pivot_val, v@[j]);
                } else {
                    assert(v@[j] == mid[j]);
                    assert(!cmp.lt_spec(mid[j], mid[i]));
                }
            }
            // the settled part has grown: `p..hi` is threshold-sorted
            assert forall|i: int, j: int|
                p as int <= i < j < hi_i && j - i >= THRESHOLD implies !(#[trigger] cmp.lt_spec(
                v@[j],
                v@[i],
            )) by {
                if i >= hi_cur as int {
                    assert(v@[i] == mid[i]);
                    assert(v@[j] == mid[j]);
                    assert(!cmp.lt_spec(mid[j], mid[i]));
                } else if j >= hi_cur as int {
                    assert(v@[j] == mid[j]);
                    assert forall|k: int|
                        0 <= k < mid.subrange(p as int, hi_cur as int).len() implies !(
                    #[trigger] cmp.lt_spec(mid[j], mid.subrange(p as int, hi_cur as int)[k])) by {
                        assert(mid.subrange(p as int, hi_cur as int)[k] == mid[p as int + k]);
                    }
                    lemma_bound_over_permutation(
                        *cmp,
                        mid.subrange(p as int, hi_cur as int),
                        v@.subrange(p as int, hi_cur as int),
                        mid[j],
                    );
                    assert(v@.subrange(p as int, hi_cur as int)[i - p as int] == v@[i]);
                }
            }
        }
        hi_cur = p;
    }
    proof {
        // every remaining pair at threshold distance spans the split
        // boundary or lies in the settled part
        assert forall|i: int, j: int|
            lo_i <= i < j < hi_i && j - i >= THRESHOLD implies !(#[trigger] cmp.lt_spec(
            v@[j],
            v@[i],
        )) by {
            assert(j >= hi_cur as int);
        }
    }
}

/// Sorts the vector in place, using `lt` to compare elements: afterwards
/// the vector is nondecreasing under `lt` and holds exactly the elements it
/// held before. The work is quicksort's on average; a depth budget of twice
/// the floored base-two logarithm of the length caps how far partitioning
/// may recurse before heap sort takes the range over.
pub fn introsort_by<T: Copy, C: StrictOrder<T>>(v: &mut Vec<T>, lt: &C)
    ensures
        final(v)@.len() == old(v)@.len(),
        sorted(*lt, final(v)@),
        final(v)@.to_multiset() == old(v)@.to_multiset(),
{
    let len = v.len();
    if len > 0 {
        let depth_limit = 2 * lg(len);
        introsort_loop(v, 0, len, depth_limit, lt);
        proof {
            assert(v@.subrange(0, len as int) =~= v@);
            assert(old(v)@.subrange(0, len as int) =~= old(v)@);
        }
        // the pieces the loop left behind are each within the threshold;
        // one insertion pass orders the whole vector
        insertsort_by(v, lt);
    }
}

/// Sorts the vector in place into nondecreasing natural order.
pub fn introsort<T: Copy + NaturalOrder>(v: &mut Vec<T>)
    ensures
        final(v)@.len() == old(v)@.len(),
        sorted(Ascending, final(v)@),
        final(v)@.to_multiset() == old(v)@.to_multiset(),
{
    introsort_by(v, &Ascending);
}

} // verus!

