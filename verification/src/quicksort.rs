//! In-place quicksort of an `i32` range with a randomly chosen pivot.
//!
//! The pivot index comes from the `rand` crate; nothing is assumed of it
//! beyond lying in the requested range, so the sorting contract holds for
//! every outcome of the draw.

use vstd::prelude::*;

verus! {

broadcast use {vstd::seq_lib::group_to_multiset_ensures, vstd::multiset::group_multiset_axioms};

/// `s` is non-decreasing on the inclusive index range `lo..=hi`.
pub open spec fn sorted_between(s: Seq<i32>, lo: int, hi: int) -> bool {
    forall|a: int, b: int| lo <= a < b <= hi ==> #[trigger] s[a] <= #[trigger] s[b]
}

/// Relies on rand::random_range over `low..=high`: the sampled value lies in
/// that (non-empty) range. Nothing else is assumed of the draw.
#[verifier::external_body]
fn pick_pivot_index(low: usize, high: usize) -> (r: usize)
    requires
        low <= high,
    ensures
        low <= r <= high,
{
    rand::random_range(low..=high)
}

/// Swaps two elements of the vector.
fn swap_elems(arr: &mut Vec<i32>, a: usize, b: usize)
    requires
        a < old(arr)@.len(),
        b < old(arr)@.len(),
    ensures
        final(arr)@ == old(arr)@.update(a as int, old(arr)@[b as int]).update(
            b as int,
            old(arr)@[a as int],
        ),
{
    let va = arr[a];
    let vb = arr[b];
    arr[a] = vb;
    arr[b] = va;
}

/// Swapping two positions inside `lo..=hi` leaves the multiset of that range
/// unchanged.
proof fn lemma_swap_preserves_range_multiset(s: Seq<i32>, lo: int, hi: int, a: int, b: int)
    requires
        0 <= lo <= a <= hi < s.len(),
        lo <= b <= hi,
    ensures
        s.update(a, s[b]).update(b, s[a]).subrange(lo, hi + 1).to_multiset() == s.subrange(
            lo,
            hi + 1,
        ).to_multiset(),
{
    let t = s.subrange(lo, hi + 1);
    let t2 = s.update(a, s[b]).update(b, s[a]).subrange(lo, hi + 1);
    assert(t2 =~= t.update(a - lo, t[b - lo]).update(b - lo, t[a - lo]));
    assert(t.contains(t[a - lo]) && t.contains(t[b - lo]));
    assert(t2.to_multiset() =~= t.to_multiset());
}

/// If two equal-length tables agree as multisets on `lo..=hi`, a bound that
/// held on every element of that range in one holds in the other.
proof fn lemma_range_elements_le(s1: Seq<i32>, s2: Seq<i32>, lo: int, hi: int, bound: i32)
    requires
        0 <= lo <= hi,
        hi < s1.len(),
        s1.len() == s2.len(),
        s1.subrange(lo, hi + 1).to_multiset() == s2.subrange(lo, hi + 1).to_multiset(),
        forall|k: int| lo <= k <= hi ==> #[trigger] s1[k] <= bound,
    ensures
        forall|k: int| lo <= k <= hi ==> #[trigger] s2[k] <= bound,
{
    assert forall|k: int| lo <= k <= hi implies #[trigger] s2[k] <= bound by {
        let e = s2[k];
        assert(s2.subrange(lo, hi + 1)[k - lo] == e);
        assert(s2.subrange(lo, hi + 1).contains(e));
        assert(s2.subrange(lo, hi + 1).to_multiset().count(e) > 0);
        assert(s1.subrange(lo, hi + 1).to_multiset().count(e) > 0);
        assert(s1.subrange(lo, hi + 1).contains(e));
        let idx = choose|idx: int|
            0 <= idx < s1.subrange(lo, hi + 1).len() && #[trigger] s1.subrange(lo, hi + 1)[idx]
                == e;
        assert(s1[lo + idx] == e);
    }
}

/// The strict-greater twin of `lemma_range_elements_le`.
proof fn lemma_range_elements_gt(s1: Seq<i32>, s2: Seq<i32>, lo: int, hi: int, bound: i32)
    requires
        0 <= lo <= hi,
        hi < s1.len(),
        s1.len() == s2.len(),
        s1.subrange(lo, hi + 1).to_multiset() == s2.subrange(lo, hi + 1).to_multiset(),
        forall|k: int| lo <= k <= hi ==> #[trigger] s1[k] > bound,
    ensures
        forall|k: int| lo <= k <= hi ==> #[trigger] s2[k] > bound,
{
    assert forall|k: int| lo <= k <= hi implies #[trigger] s2[k] > bound by {
        let e = s2[k];
        assert(s2.subrange(lo, hi + 1)[k - lo] == e);
        assert(s2.subrange(lo, hi + 1).contains(e));
        assert(s2.subrange(lo, hi + 1).to_multiset().count(e) > 0);
        assert(s1.subrange(lo, hi + 1).to_multiset().count(e) > 0);
        assert(s1.subrange(lo, hi + 1).contains(e));
        let idx = choose|idx: int|
            0 <= idx < s1.subrange(lo, hi + 1).len() && #[trigger] s1.subrange(lo, hi + 1)[idx]
                == e;
        assert(s1[lo + idx] == e);
    }
}

/// Lomuto partition around a randomly chosen pivot, moved to `high` first.
/// Afterwards the pivot sits at the returned index, everything left of it in
/// the range is no larger, everything right of it strictly larger.
fn partition(arr: &mut Vec<i32>, low: usize, high: usize) -> (p: usize)
    requires
        low <= high < old(arr)@.len(),
    ensures
        low <= p <= high,
        final(arr)@.len() == old(arr)@.len(),
        forall|k: int|
            0 <= k < old(arr)@.len() && !(low as int <= k <= high as int) ==> final(arr)@[k]
                == old(arr)@[k],
        final(arr)@.subrange(low as int, high as int + 1).to_multiset() == old(arr)@.subrange(
            low as int,
            high as int + 1,
        ).to_multiset(),
        forall|k: int|
            low as int <= k < p as int ==> #[trigger] final(arr)@[k] <= final(arr)@[p as int],
        forall|k: int|
            (p as int) < k <= high as int ==> #[trigger] final(arr)@[k] > final(arr)@[p as int],
{
    let ghost len0 = old(arr)@.len();
    let pivot_idx = pick_pivot_index(low, high);
    proof {
        lemma_swap_preserves_range_multiset(
            arr@,
            low as int,
            high as int,
            pivot_idx as int,
            high as int,
        );
    }
    swap_elems(arr, pivot_idx, high);
    let pivot = arr[high];
    let mut i = low;
    let mut j = low;
    while j < high
        invariant
            low <= i <= j <= high < arr@.len(),
            arr@.len() == len0,
            pivot == arr@[high as int],
            forall|k: int| low as int <= k < i as int ==> #[trigger] arr@[k] <= pivot,
            forall|k: int| i as int <= k < j as int ==> #[trigger] arr@[k] > pivot,
            forall|k: int|
                0 <= k < len0 && !(low as int <= k <= high as int) ==> arr@[k] == old(arr)@[k],
            arr@.subrange(low as int, high as int + 1).to_multiset() == old(arr)@.subrange(
                low as int,
                high as int + 1,
            ).to_multiset(),
        decreases high - j,
    {
        if arr[j] <= pivot {
            proof {
                lemma_swap_preserves_range_multiset(
                    arr@,
                    low as int,
                    high as int,
                    i as int,
                    j as int,
                );
            }
            swap_elems(arr, i, j);
            i = i + 1;
        }
        j = j + 1;
    }
    proof {
        lemma_swap_preserves_range_multiset(arr@, low as int, high as int, i as int, high as int);
    }
    swap_elems(arr, i, high);
    i
}

/// Sorts `arr[low..=high]` in place; positions outside the range are left
/// untouched. An empty range (`low >= high`) leaves the vector as it was.
pub fn randomized_quicksort(arr: &mut Vec<i32>, low: usize, high: usize)
    requires
        low >= high || high < old(arr)@.len(),
    ensures
        final(arr)@.len() == old(arr)@.len(),
        forall|k: int|
            0 <= k < old(arr)@.len() && !(low as int <= k <= high as int) ==> final(arr)@[k]
                == old(arr)@[k],
        low as int <= high as int && (high as int) < old(arr)@.len() ==> final(arr)@.subrange(
            low as int,
            high as int + 1,
        ).to_multiset() == old(arr)@.subrange(low as int, high as int + 1).to_multiset(),
        low as int <= high as int && (high as int) < old(arr)@.len() ==> sorted_between(
            final(arr)@,
            low as int,
            high as int,
        ),
        low >= high ==> final(arr)@ == old(arr)@,
    decreases (if low < high { high + 1 - low } else { 0 }),
{
    if low >= high {
        return ;
    }
    let ghost s0 = arr@;
    let pvt_idx = partition(arr, low, high);
    let ghost s1 = arr@;
    let ghost pivot = s1[pvt_idx as int];
    if pvt_idx > 0 {
        randomized_quicksort(arr, low, pvt_idx - 1);
    }
    let ghost s2 = arr@;
    proof {
        if pvt_idx > low {
            lemma_range_elements_le(s1, s2, low as int, pvt_idx as int - 1, pivot);
        }
        assert(s2[pvt_idx as int] == pivot);
        assert(s1.subrange(low as int, high as int + 1) =~= s1.subrange(low as int, pvt_idx as int)
            + s1.subrange(pvt_idx as int, high as int + 1));
        assert(s2.subrange(low as int, high as int + 1) =~= s2.subrange(low as int, pvt_idx as int)
            + s2.subrange(pvt_idx as int, high as int + 1));
        assert(s2.subrange(pvt_idx as int, high as int + 1) =~= s1.subrange(
            pvt_idx as int,
            high as int + 1,
        ));
        if pvt_idx > 0 {
            assert(s2.subrange(low as int, pvt_idx as int).to_multiset() == s1.subrange(
                low as int,
                pvt_idx as int,
            ).to_multiset());
        } else {
            assert(s2.subrange(low as int, pvt_idx as int) =~= s1.subrange(
                low as int,
                pvt_idx as int,
            ));
        }
        vstd::seq_lib::lemma_multiset_commutative(
            s2.subrange(low as int, pvt_idx as int),
            s2.subrange(pvt_idx as int, high as int + 1),
        );
        vstd::seq_lib::lemma_multiset_commutative(
            s1.subrange(low as int, pvt_idx as int),
            s1.subrange(pvt_idx as int, high as int + 1),
        );
        assert(s2.subrange(low as int, high as int + 1).to_multiset() == s1.subrange(
            low as int,
            high as int + 1,
        ).to_multiset());
    }
    if pvt_idx < high {
        randomized_quicksort(arr, pvt_idx + 1, high);
    }
    let ghost s3 = arr@;
    proof {
        if pvt_idx < high {
            lemma_range_elements_gt(s2, s3, pvt_idx as int + 1, high as int, pivot);
        }
        if pvt_idx > low {
            assert forall|k: int| low as int <= k <= pvt_idx as int - 1 implies #[trigger] s3[k]
                <= pivot by {
                assert(s3[k] == s2[k]);
            }
        }
        assert(s3[pvt_idx as int] == pivot);
        assert(s3.subrange(low as int, high as int + 1) =~= s3.subrange(
            low as int,
            pvt_idx as int + 1,
        ) + s3.subrange(pvt_idx as int + 1, high as int + 1));
        assert(s2.subrange(low as int, high as int + 1) =~= s2.subrange(
            low as int,
            pvt_idx as int + 1,
        ) + s2.subrange(pvt_idx as int + 1, high as int + 1));
        assert(s3.subrange(low as int, pvt_idx as int + 1) =~= s2.subrange(
            low as int,
            pvt_idx as int + 1,
        ));
        if pvt_idx < high {
            assert(s3.subrange(pvt_idx as int + 1, high as int + 1).to_multiset() == s2.subrange(
                pvt_idx as int + 1,
                high as int + 1,
            ).to_multiset());
        } else {
            assert(s3.subrange(pvt_idx as int + 1, high as int + 1) =~= s2.subrange(
                pvt_idx as int + 1,
                high as int + 1,
            ));
        }
        vstd::seq_lib::lemma_multiset_commutative(
            s3.subrange(low as int, pvt_idx as int + 1),
            s3.subrange(pvt_idx as int + 1, high as int + 1),
        );
        vstd::seq_lib::lemma_multiset_commutative(
            s2.subrange(low as int, pvt_idx as int + 1),
            s2.subrange(pvt_idx as int + 1, high as int + 1),
        );
        assert(sorted_between(s3, low as int, high as int)) by {
            assert forall|a: int, b: int|
                low as int <= a < b <= high as int implies #[trigger] s3[a] <= #[trigger] s3[
                b
            ] by {
                if b < pvt_idx as int {
                } else if a > pvt_idx as int {
                } else if a == pvt_idx as int {
                    assert(s3[b] > pivot);
                } else if b == pvt_idx as int {
                    assert(s3[a] <= pivot);
                } else {
                    assert(s3[a] <= pivot);
                    assert(s3[b] > pivot);
                }
            }
        }
    }
}

} // verus!
