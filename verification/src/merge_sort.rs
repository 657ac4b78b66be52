//! Merge sort: a stable, comparison-based sort returning a fresh vector.
//!
//! The routines are generic over `T: Ord + Copy`, as sorting only observes
//! `<=`. The output is always a permutation of the input; it is additionally
//! proved sorted whenever the type's comparison is a lawful total order
//! (`cmp_is_total_order`), which `lemma_i32_total_order` discharges for `i32`.

use core::cmp::Ordering;
use vstd::prelude::*;
use vstd::std_specs::cmp::PartialOrdSpec;

verus! {

broadcast use {vstd::seq_lib::group_to_multiset_ensures, vstd::multiset::group_multiset_axioms};

/// What the type's `partial_cmp` spec says `a <= b` means.
pub open spec fn leq<T: PartialOrd>(a: T, b: T) -> bool {
    matches!(a.partial_cmp_spec(&b), Some(Ordering::Less | Ordering::Equal))
}

/// The type's comparison operators follow its `partial_cmp` spec, and that
/// spec is a total order: what a lawful `Ord` implementation provides.
pub open spec fn cmp_is_total_order<T: PartialOrd>() -> bool {
    &&& T::obeys_partial_cmp_spec()
    &&& forall|a: T, b: T| #![trigger leq(a, b)] leq(a, b) || leq(b, a)
    &&& forall|a: T, b: T, c: T| #![trigger leq(a, b), leq(b, c)] leq(a, b) && leq(b, c) ==> leq(a, c)
}

/// Sorted in the order `<=` induces.
pub open spec fn sorted_le<T: PartialOrd>(s: Seq<T>) -> bool {
    forall|i: int, j: int| 0 <= i < j < s.len() ==> leq(#[trigger] s[i], #[trigger] s[j])
}

/// `i32`'s comparison is a lawful total order.
pub proof fn lemma_i32_total_order()
    ensures
        cmp_is_total_order::<i32>(),
{
}

/// Merges two sorted runs into one sorted run holding exactly the elements
/// of both.
pub fn merge<T: Ord + Copy>(left: &Vec<T>, right: &Vec<T>) -> (r: Vec<T>)
    requires
        cmp_is_total_order::<T>() ==> sorted_le(left@) && sorted_le(right@),
    ensures
        r@.len() == left@.len() + right@.len(),
        r@.to_multiset() == left@.to_multiset().add(right@.to_multiset()),
        cmp_is_total_order::<T>() ==> sorted_le(r@),
{
    let mut result: Vec<T> = Vec::new();
    let mut i: usize = 0;
    let mut j: usize = 0;
    while i < left.len() && j < right.len()
        invariant
            i <= left@.len(),
            j <= right@.len(),
            result@.len() == i + j,
            result@.to_multiset() == left@.take(i as int).to_multiset().add(
                right@.take(j as int).to_multiset(),
            ),
            cmp_is_total_order::<T>() ==> sorted_le(left@) && sorted_le(right@),
            cmp_is_total_order::<T>() ==> sorted_le(result@),
            cmp_is_total_order::<T>() ==> (forall|a: int, b: int|
                0 <= a < result@.len() && i as int <= b < left@.len() ==> leq(
                    #[trigger] result@[a],
                    #[trigger] left@[b],
                )),
            cmp_is_total_order::<T>() ==> (forall|a: int, b: int|
                0 <= a < result@.len() && j as int <= b < right@.len() ==> leq(
                    #[trigger] result@[a],
                    #[trigger] right@[b],
                )),
        decreases left@.len() - i + right@.len() - j,
    {
        let lv = left[i];
        let rv = right[j];
        if lv <= rv {
            result.push(lv);
            proof {
                assert(left@.take(i as int + 1) =~= left@.take(i as int).push(left@[i as int]));
                assert(result@.to_multiset() =~= left@.take(i as int + 1).to_multiset().add(
                    right@.take(j as int).to_multiset(),
                ));
                if cmp_is_total_order::<T>() {
                    assert(leq(lv, rv));
                    assert forall|b: int| j as int <= b < right@.len() implies leq(
                        lv,
                        right@[b],
                    ) by {
                        if b > j as int {
                            assert(leq(right@[j as int], right@[b]));
                        }
                    }
                    assert forall|b: int| i as int + 1 <= b < left@.len() implies leq(
                        lv,
                        left@[b],
                    ) by {
                        assert(leq(left@[i as int], left@[b]));
                    }
                }
            }
            i = i + 1;
        } else {
            result.push(rv);
            proof {
                assert(right@.take(j as int + 1) =~= right@.take(j as int).push(right@[j as int]));
                assert(result@.to_multiset() =~= left@.take(i as int).to_multiset().add(
                    right@.take(j as int + 1).to_multiset(),
                ));
                if cmp_is_total_order::<T>() {
                    assert(leq(rv, lv));
                    assert forall|b: int| i as int <= b < left@.len() implies leq(
                        rv,
                        left@[b],
                    ) by {
                        if b > i as int {
                            assert(leq(left@[i as int], left@[b]));
                        }
                    }
                    assert forall|b: int| j as int + 1 <= b < right@.len() implies leq(
                        rv,
                        right@[b],
                    ) by {
                        assert(leq(right@[j as int], right@[b]));
                    }
                }
            }
            j = j + 1;
        }
    }
    while i < left.len()
        invariant
            i <= left@.len(),
            j <= right@.len(),
            i < left@.len() ==> j as int == right@.len(),
            result@.len() == i + j,
            result@.to_multiset() == left@.take(i as int).to_multiset().add(
                right@.take(j as int).to_multiset(),
            ),
            cmp_is_total_order::<T>() ==> sorted_le(left@),
            cmp_is_total_order::<T>() ==> sorted_le(result@),
            cmp_is_total_order::<T>() ==> (forall|a: int, b: int|
                0 <= a < result@.len() && i as int <= b < left@.len() ==> leq(
                    #[trigger] result@[a],
                    #[trigger] left@[b],
                )),
            cmp_is_total_order::<T>() ==> (forall|a: int, b: int|
                0 <= a < result@.len() && j as int <= b < right@.len() ==> leq(
                    #[trigger] result@[a],
                    #[trigger] right@[b],
                )),
        decreases left@.len() - i,
    {
        let lv = left[i];
        result.push(lv);
        proof {
            assert(left@.take(i as int + 1) =~= left@.take(i as int).push(left@[i as int]));
            assert(result@.to_multiset() =~= left@.take(i as int + 1).to_multiset().add(
                right@.take(j as int).to_multiset(),
            ));
        }
        i = i + 1;
    }
    while j < right.len()
        invariant
            i == left@.len(),
            j <= right@.len(),
            result@.len() == i + j,
            result@.to_multiset() == left@.take(i as int).to_multiset().add(
                right@.take(j as int).to_multiset(),
            ),
            cmp_is_total_order::<T>() ==> sorted_le(right@),
            cmp_is_total_order::<T>() ==> sorted_le(result@),
            cmp_is_total_order::<T>() ==> (forall|a: int, b: int|
                0 <= a < result@.len() && j as int <= b < right@.len() ==> leq(
                    #[trigger] result@[a],
                    #[trigger] right@[b],
                )),
        decreases right@.len() - j,
    {
        let rv = right[j];
        result.push(rv);
        proof {
            assert(right@.take(j as int + 1) =~= right@.take(j as int).push(right@[j as int]));
            assert(result@.to_multiset() =~= left@.take(i as int).to_multiset().add(
                right@.take(j as int + 1).to_multiset(),
            ));
        }
        j = j + 1;
    }
    proof {
        assert(left@.take(i as int) =~= left@);
        assert(right@.take(j as int) =~= right@);
    }
    result
}

/// Sorts by splitting in half, sorting each half, and merging. Returns a
/// permutation of the input, sorted whenever the comparison is a lawful
/// total order.
pub fn merge_sort<T: Ord + Copy>(arr: &Vec<T>) -> (r: Vec<T>)
    ensures
        r@.len() == arr@.len(),
        r@.to_multiset() == arr@.to_multiset(),
        cmp_is_total_order::<T>() ==> sorted_le(r@),
    decreases arr@.len(),
{
    if arr.len() <= 1 {
        let mut out: Vec<T> = Vec::new();
        let mut i: usize = 0;
        while i < arr.len()
            invariant
                i <= arr@.len(),
                out@ == arr@.take(i as int),
            decreases arr@.len() - i,
        {
            let v = arr[i];
            out.push(v);
            proof {
                assert(arr@.take(i as int + 1) =~= arr@.take(i as int).push(arr@[i as int]));
            }
            i = i + 1;
        }
        proof {
            assert(arr@.take(arr@.len() as int) =~= arr@);
        }
        return out;
    }
    let mid = arr.len() / 2;
    let mut left: Vec<T> = Vec::new();
    let mut right: Vec<T> = Vec::new();
    let mut i: usize = 0;
    while i < mid
        invariant
            i <= mid,
            mid <= arr@.len(),
            left@ == arr@.take(i as int),
        decreases mid - i,
    {
        let v = arr[i];
        left.push(v);
        proof {
            assert(arr@.take(i as int + 1) =~= arr@.take(i as int).push(arr@[i as int]));
        }
        i = i + 1;
    }
    while i < arr.len()
        invariant
            mid <= i <= arr@.len(),
            left@ == arr@.take(mid as int),
            right@ == arr@.subrange(mid as int, i as int),
        decreases arr@.len() - i,
    {
        let v = arr[i];
        right.push(v);
        proof {
            assert(arr@.subrange(mid as int, i as int + 1) =~= arr@.subrange(
                mid as int,
                i as int,
            ).push(arr@[i as int]));
        }
        i = i + 1;
    }
    let ls = merge_sort(&left);
    let rs = merge_sort(&right);
    let r = merge(&ls, &rs);
    proof {
        vstd::seq_lib::lemma_multiset_commutative(left@, right@);
        assert(left@ + right@ =~= arr@);
    }
    r
}

} // verus!
