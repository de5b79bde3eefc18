//! In-place sorting algorithms over `i64` vectors.
//!
//! Every sort carries the same contract: the vector ends up sorted and holds
//! exactly the elements it started with (equal multisets). Together these
//! two clauses pin the result down completely.

use vstd::prelude::*;

verus! {

broadcast use vstd::seq_lib::group_to_multiset_ensures, vstd::multiset::group_multiset_axioms;

/// Non-decreasing order over the whole sequence.
pub open spec fn sorted(s: Seq<i64>) -> bool {
    forall|i: int, j: int| 0 <= i <= j < s.len() ==> s[i] <= s[j]
}

/// Non-decreasing order over the index range `[lo, hi)`.
pub open spec fn sorted_range(s: Seq<i64>, lo: int, hi: int) -> bool {
    forall|a: int, b: int| lo <= a <= b < hi && b < s.len() ==> s[a] <= s[b]
}

/// A sequence with no adjacent inversion is sorted.
proof fn lemma_adjacent_sorted(s: Seq<i64>)
    requires
        forall|k: int| 0 <= k < s.len() - 1 ==> #[trigger] s[k] <= s[k + 1],
    ensures
        sorted(s),
    decreases s.len(),
{
    if s.len() > 1 {
        lemma_adjacent_sorted(s.drop_last());
        assert forall|i: int, j: int| 0 <= i <= j < s.len() implies s[i] <= s[j] by {
            if j < s.len() - 1 {
                assert(s.drop_last()[i] == s[i] && s.drop_last()[j] == s[j]);
            } else if i < j {
                assert(s.drop_last()[i] == s[i] && s.drop_last()[j - 1] == s[j - 1]);
                assert(s[j - 1] <= s[j]);
            }
        }
    }
}

/// Exchange two elements; the multiset of elements is unchanged.
fn swap_items(arr: &mut Vec<i64>, i: usize, j: usize)
    requires
        i < old(arr).len(),
        j < old(arr).len(),
    ensures
        final(arr)@ == old(arr)@.update(i as int, old(arr)@[j as int]).update(
            j as int,
            old(arr)@[i as int],
        ),
        final(arr)@.to_multiset() == old(arr)@.to_multiset(),
        final(arr).len() == old(arr).len(),
{
    let a = arr[i];
    let b = arr[j];
    arr.set(i, b);
    arr.set(j, a);
    proof {
        let s = old(arr)@;
        let s2 = s.update(i as int, s[j as int]).update(j as int, s[i as int]);
        assert(s2.to_multiset() =~= s.to_multiset());
    }
}

/// Bubble sort with early termination once a pass makes no exchange.
pub fn bubble_sort(arr: &mut Vec<i64>)
    ensures
        sorted(final(arr)@),
        final(arr)@.to_multiset() == old(arr)@.to_multiset(),
        final(arr).len() == old(arr).len(),
{
    let len = arr.len();
    let mut i: usize = 0;
    while i < len
        invariant
            i <= len,
            arr.len() == len,
            arr@.to_multiset() == old(arr)@.to_multiset(),
            sorted_range(arr@, len - i, len as int),
            forall|a: int, b: int| 0 <= a < len - i <= b < len ==> arr@[a] <= arr@[b],
        ensures
            sorted(arr@),
            arr@.to_multiset() == old(arr)@.to_multiset(),
            arr.len() == len,
        decreases len - i,
    {
        let mut swapped = false;
        let mut j: usize = 0;
        let ghost pass_start = arr@;
        while j < len - i - 1
            invariant
                i < len,
                j <= len - i - 1,
                arr.len() == len,
                arr@.to_multiset() == old(arr)@.to_multiset(),
                sorted_range(arr@, len - i, len as int),
                forall|a: int, b: int| 0 <= a < len - i <= b < len ==> arr@[a] <= arr@[b],
                forall|k: int| 0 <= k < j ==> arr@[k] <= arr@[j as int],
                !swapped ==> arr@ == pass_start && forall|k: int|
                    0 <= k < j ==> #[trigger] arr@[k] <= arr@[k + 1],
            decreases len - i - 1 - j,
        {
            if arr[j] > arr[j + 1] {
                swap_items(arr, j, j + 1);
                swapped = true;
            }
            j += 1;
        }
        if !swapped {
            proof {
                assert forall|k: int| 0 <= k < len - 1 implies #[trigger] arr@[k] <= arr@[k
                    + 1] by {
                    if k >= len - i - 1 {
                        assert(arr@[k] <= arr@[k + 1]);
                    }
                }
                lemma_adjacent_sorted(arr@);
            }
            break ;
        }
        i += 1;
    }
}

/// Selection sort: repeatedly move the least remaining element forward.
pub fn selection_sort(arr: &mut Vec<i64>)
    ensures
        sorted(final(arr)@),
        final(arr)@.to_multiset() == old(arr)@.to_multiset(),
        final(arr).len() == old(arr).len(),
{
    let len = arr.len();
    let mut i: usize = 0;
    while i < len
        invariant
            i <= len,
            arr.len() == len,
            arr@.to_multiset() == old(arr)@.to_multiset(),
            sorted_range(arr@, 0, i as int),
            forall|a: int, b: int| 0 <= a < i <= b < len ==> arr@[a] <= arr@[b],
        decreases len - i,
    {
        let mut min_idx = i;
        let mut j = i + 1;
        while j < len
            invariant
                i < len,
                i <= min_idx < j <= len,
                arr.len() == len,
                forall|k: int| i <= k < j ==> arr@[min_idx as int] <= arr@[k],
            decreases len - j,
        {
            if arr[j] < arr[min_idx] {
                min_idx = j;
            }
            j += 1;
        }
        if min_idx != i {
            swap_items(arr, i, min_idx);
        }
        i += 1;
    }
}

/// Insertion sort: grow a sorted prefix, sinking each new element into
/// place.
pub fn insertion_sort(arr: &mut Vec<i64>)
    ensures
        sorted(final(arr)@),
        final(arr)@.to_multiset() == old(arr)@.to_multiset(),
        final(arr).len() == old(arr).len(),
{
    let len = arr.len();
    if len == 0 {
        return ;
    }
    let mut i: usize = 1;
    while i < len
        invariant
            1 <= i <= len,
            arr.len() == len,
            arr@.to_multiset() == old(arr)@.to_multiset(),
            sorted_range(arr@, 0, i as int),
        decreases len - i,
    {
        let mut j = i;
        while j > 0 && arr[j - 1] > arr[j]
            invariant
                j <= i < len,
                arr.len() == len,
                arr@.to_multiset() == old(arr)@.to_multiset(),
                forall|a: int, b: int| 0 <= a <= b <= i && a != j && b != j ==> arr@[a] <= arr@[b],
                forall|b: int| j < b <= i ==> arr@[j as int] < arr@[b],
            decreases j,
        {
            swap_items(arr, j - 1, j);
            j -= 1;
        }
        proof {
            assert forall|a: int, b: int| 0 <= a <= b <= i implies arr@[a] <= arr@[b] by {
                if a == j as int && b > a {
                    assert(arr@[j as int] < arr@[b]);
                } else if b == j as int && a < b {
                    assert(j > 0 ==> arr@[j - 1] <= arr@[j as int]);
                    assert(a <= j - 1);
                    assert(arr@[a] <= arr@[j - 1]);
                }
            }
        }
        i += 1;
    }
}


/// Merge two sorted runs into `arr`, which must have exactly their combined
/// length.
fn merge(arr: &mut Vec<i64>, left: &Vec<i64>, right: &Vec<i64>)
    requires
        old(arr).len() == left.len() + right.len(),
        sorted(left@),
        sorted(right@),
    ensures
        final(arr).len() == old(arr).len(),
        sorted(final(arr)@),
        final(arr)@.to_multiset() == left@.to_multiset().add(right@.to_multiset()),
{
    let ghost total = arr@.len();
    let mut i: usize = 0;
    let mut j: usize = 0;
    let mut k: usize = 0;
    while i < left.len() && j < right.len()
        invariant
            sorted(left@),
            sorted(right@),
            arr.len() == left.len() + right.len(),
            i <= left.len(),
            j <= right.len(),
            k == i + j,
            sorted_range(arr@, 0, k as int),
            arr@.take(k as int).to_multiset() == left@.take(i as int).to_multiset().add(
                right@.take(j as int).to_multiset(),
            ),
            i < left.len() && k > 0 ==> arr@[k - 1] <= left@[i as int],
            j < right.len() && k > 0 ==> arr@[k - 1] <= right@[j as int],
        decreases arr.len() - k,
    {
        let ghost pre = arr@;
        if left[i] <= right[j] {
            let v = left[i];
            arr.set(k, v);
            proof {
                assert(arr@.take(k + 1) =~= pre.take(k as int).push(v));
                assert(left@.take(i + 1) =~= left@.take(i as int).push(v));
                assert(left@.take(i + 1).to_multiset() =~= left@.take(
                    i as int,
                ).to_multiset().insert(v));
                assert(arr@.take(k + 1).to_multiset() =~= left@.take(i + 1).to_multiset().add(
                    right@.take(j as int).to_multiset(),
                ));
            }
            i += 1;
        } else {
            let v = right[j];
            arr.set(k, v);
            proof {
                assert(arr@.take(k + 1) =~= pre.take(k as int).push(v));
                assert(right@.take(j + 1) =~= right@.take(j as int).push(v));
                assert(right@.take(j + 1).to_multiset() =~= right@.take(
                    j as int,
                ).to_multiset().insert(v));
                assert(arr@.take(k + 1).to_multiset() =~= left@.take(
                    i as int,
                ).to_multiset().add(right@.take(j + 1).to_multiset()));
            }
            j += 1;
        }
        k += 1;
    }
    while i < left.len()
        invariant
            sorted(left@),
            arr.len() == left.len() + right.len(),
            i <= left.len(),
            j <= right.len(),
            i < left.len() ==> j == right.len(),
            k == i + j,
            sorted_range(arr@, 0, k as int),
            arr@.take(k as int).to_multiset() == left@.take(i as int).to_multiset().add(
                right@.take(j as int).to_multiset(),
            ),
            i < left.len() && k > 0 ==> arr@[k - 1] <= left@[i as int],
            j < right.len() && k > 0 ==> arr@[k - 1] <= right@[j as int],
        decreases left.len() - i,
    {
        let ghost pre = arr@;
        let v = left[i];
        arr.set(k, v);
        proof {
            assert(arr@.take(k + 1) =~= pre.take(k as int).push(v));
            assert(left@.take(i + 1) =~= left@.take(i as int).push(v));
            assert(left@.take(i + 1).to_multiset() =~= left@.take(i as int).to_multiset().insert(
                v,
            ));
            assert(arr@.take(k + 1).to_multiset() =~= left@.take(i + 1).to_multiset().add(
                right@.take(j as int).to_multiset(),
            ));
        }
        i += 1;
        k += 1;
    }
    while j < right.len()
        invariant
            sorted(right@),
            arr.len() == left.len() + right.len(),
            i == left.len(),
            j <= right.len(),
            k == i + j,
            sorted_range(arr@, 0, k as int),
            arr@.take(k as int).to_multiset() == left@.take(i as int).to_multiset().add(
                right@.take(j as int).to_multiset(),
            ),
            j < right.len() && k > 0 ==> arr@[k - 1] <= right@[j as int],
        decreases right.len() - j,
    {
        let ghost pre = arr@;
        let v = right[j];
        arr.set(k, v);
        proof {
            assert(arr@.take(k + 1) =~= pre.take(k as int).push(v));
            assert(right@.take(j + 1) =~= right@.take(j as int).push(v));
            assert(right@.take(j + 1).to_multiset() =~= right@.take(j as int).to_multiset().insert(
                v,
            ));
            assert(arr@.take(k + 1).to_multiset() =~= left@.take(i as int).to_multiset().add(
                right@.take(j + 1).to_multiset(),
            ));
        }
        j += 1;
        k += 1;
    }
    proof {
        assert(arr@.take(k as int) =~= arr@);
        assert(left@.take(i as int) =~= left@);
        assert(right@.take(j as int) =~= right@);
    }
}

/// Merge sort: split, sort the halves, and merge them back.
pub fn merge_sort(arr: &mut Vec<i64>)
    ensures
        sorted(final(arr)@),
        final(arr)@.to_multiset() == old(arr)@.to_multiset(),
        final(arr).len() == old(arr).len(),
    decreases old(arr).len(),
{
    let len = arr.len();
    if len <= 1 {
        return ;
    }

    let mid = len / 2;
    let mut left: Vec<i64> = Vec::new();
    let mut right: Vec<i64> = Vec::new();
    let mut t: usize = 0;
    while t < mid
        invariant
            t <= mid <= arr.len(),
            left@ == arr@.take(t as int),
        decreases mid - t,
    {
        left.push(arr[t]);
        proof {
            assert(left@ =~= arr@.take(t + 1));
        }
        t += 1;
    }
    let mut u: usize = mid;
    while u < len
        invariant
            mid <= u <= len,
            len == arr.len(),
            right@ == arr@.subrange(mid as int, u as int),
        decreases len - u,
    {
        right.push(arr[u]);
        proof {
            assert(right@ =~= arr@.subrange(mid as int, u + 1));
        }
        u += 1;
    }
    proof {
        assert(arr@ =~= left@ + right@);
        vstd::seq_lib::lemma_multiset_commutative(left@, right@);
    }

    merge_sort(&mut left);
    merge_sort(&mut right);

    merge(arr, &left, &right);
}


/// Elements drawn from the same multiset obey the same upper bound.
proof fn lemma_multiset_upper_bound(s1: Seq<i64>, s2: Seq<i64>, bound: i64)
    requires
        s1.to_multiset() == s2.to_multiset(),
        forall|t: int| 0 <= t < s1.len() ==> #[trigger] s1[t] <= bound,
    ensures
        forall|t: int| 0 <= t < s2.len() ==> #[trigger] s2[t] <= bound,
{
    assert forall|t: int| 0 <= t < s2.len() implies #[trigger] s2[t] <= bound by {
        assert(s2.contains(s2[t]));
        assert(s2.to_multiset().count(s2[t]) > 0);
        assert(s1.contains(s2[t]));
        let w = choose|w: int| 0 <= w < s1.len() && s1[w] == s2[t];
        assert(s1[w] <= bound);
    }
}

/// Elements drawn from the same multiset obey the same lower bound.
proof fn lemma_multiset_lower_bound(s1: Seq<i64>, s2: Seq<i64>, bound: i64)
    requires
        s1.to_multiset() == s2.to_multiset(),
        forall|t: int| 0 <= t < s1.len() ==> #[trigger] s1[t] >= bound,
    ensures
        forall|t: int| 0 <= t < s2.len() ==> #[trigger] s2[t] >= bound,
{
    assert forall|t: int| 0 <= t < s2.len() implies #[trigger] s2[t] >= bound by {
        assert(s2.contains(s2[t]));
        assert(s2.to_multiset().count(s2[t]) > 0);
        assert(s1.contains(s2[t]));
        let w = choose|w: int| 0 <= w < s1.len() && s1[w] == s2[t];
        assert(s1[w] >= bound);
    }
}

/// Partition `arr[low..=high]` around the element at `high`: afterwards the
/// pivot sits at the returned position, everything before it in the range is
/// no larger, everything after it is strictly larger, and nothing outside
/// the range moved.
fn partition(arr: &mut Vec<i64>, low: usize, high: usize) -> (p: usize)
    requires
        low <= high < old(arr).len(),
    ensures
        low <= p <= high,
        final(arr).len() == old(arr).len(),
        final(arr)@.subrange(low as int, high + 1).to_multiset() == old(arr)@.subrange(
            low as int,
            high + 1,
        ).to_multiset(),
        forall|t: int|
            0 <= t < final(arr).len() && !(low <= t <= high) ==> final(arr)@[t] == old(arr)@[t],
        forall|t: int| low <= t < p ==> final(arr)@[t] <= final(arr)@[p as int],
        forall|t: int| p < t <= high ==> final(arr)@[t] > final(arr)@[p as int],
{
    let ghost orig = arr@;
    let mut i = low;
    let mut j = low;
    while j < high
        invariant
            low <= i <= j <= high < arr.len(),
            arr.len() == orig.len(),
            arr@.subrange(low as int, high + 1).to_multiset() == orig.subrange(
                low as int,
                high + 1,
            ).to_multiset(),
            forall|t: int| 0 <= t < arr.len() && !(low <= t <= high) ==> arr@[t] == orig[t],
            arr@[high as int] == orig[high as int],
            forall|t: int| low <= t < i ==> arr@[t] <= arr@[high as int],
            forall|t: int| i <= t < j ==> arr@[t] > arr@[high as int],
        decreases high - j,
    {
        if arr[j] <= arr[high] {
            let ghost pre = arr@;
            swap_items(arr, i, j);
            proof {
                assert(arr@.subrange(low as int, high + 1).to_multiset() =~= pre.subrange(
                    low as int,
                    high + 1,
                ).to_multiset()) by {
                    assert(arr@.subrange(low as int, high + 1) =~= pre.subrange(
                        low as int,
                        high + 1,
                    ).update(i - low, pre[j as int]).update(j - low, pre[i as int]));
                }
            }
            i += 1;
        }
        j += 1;
    }
    let ghost pre = arr@;
    swap_items(arr, i, high);
    proof {
        assert(arr@.subrange(low as int, high + 1).to_multiset() =~= pre.subrange(
            low as int,
            high + 1,
        ).to_multiset()) by {
            assert(arr@.subrange(low as int, high + 1) =~= pre.subrange(low as int, high
                + 1).update(i - low, pre[high as int]).update(high - low, pre[i as int]));
        }
    }
    i
}

fn quick_sort_helper(arr: &mut Vec<i64>, low: usize, high: usize)
    requires
        low <= high < old(arr).len(),
    ensures
        final(arr).len() == old(arr).len(),
        final(arr)@.subrange(low as int, high + 1).to_multiset() == old(arr)@.subrange(
            low as int,
            high + 1,
        ).to_multiset(),
        sorted_range(final(arr)@, low as int, high + 1),
        forall|t: int|
            0 <= t < final(arr).len() && !(low <= t <= high) ==> final(arr)@[t] == old(arr)@[t],
    decreases high - low,
{
    if low < high {
        let p = partition(arr, low, high);
        let ghost after_part = arr@;
        let ghost pivot = arr@[p as int];

        if p > low {
            quick_sort_helper(arr, low, p - 1);
            proof {
                lemma_multiset_upper_bound(
                    after_part.subrange(low as int, p as int),
                    arr@.subrange(low as int, p as int),
                    pivot,
                );
                assert forall|t: int| low <= t < p implies arr@[t] <= pivot by {
                    assert(arr@.subrange(low as int, p as int)[t - low] == arr@[t]);
                }
            }
        }
        let ghost after_left = arr@;
        if p < high {
            quick_sort_helper(arr, p + 1, high);
            proof {
                lemma_multiset_lower_bound(
                    after_left.subrange(p + 1, high + 1),
                    arr@.subrange(p + 1, high + 1),
                    pivot,
                );
                assert forall|t: int| p < t <= high implies arr@[t] >= pivot by {
                    assert(arr@.subrange(p + 1, high + 1)[t - (p + 1)] == arr@[t]);
                }
            }
        }
        proof {
            // the two halves kept their bounds relative to the pivot, which
            // never moved, so the whole range is sorted
            assert(arr@[p as int] == pivot);
            assert forall|a: int, b: int|
                low <= a <= b <= high implies arr@[a] <= arr@[b] by {
                if a < p && b < p {
                    assert(after_left.subrange(low as int, p as int)[a - low] == after_left[a]);
                } else if a > p && b > p {
                    assert(sorted_range(arr@, p + 1, high + 1));
                } else if a < p && b == p {
                    assert(arr@[a] <= pivot);
                } else if a == p && b > p {
                    assert(arr@[b] >= pivot);
                } else if a < p && b > p {
                    assert(arr@[a] <= pivot && arr@[b] >= pivot);
                }
            }
            // multiset of the range is preserved across the three stages
            assert(arr@.subrange(low as int, high + 1).to_multiset() == old(arr)@.subrange(
                low as int,
                high + 1,
            ).to_multiset()) by {
                assert(after_part.subrange(low as int, high + 1).to_multiset() == old(
                    arr,
                )@.subrange(low as int, high + 1).to_multiset());
                assert(after_left.subrange(low as int, high + 1).to_multiset() == after_part
                    .subrange(low as int, high + 1).to_multiset()) by {
                    assert(after_left.subrange(low as int, high + 1) =~= after_left.subrange(
                        low as int,
                        p as int,
                    ) + after_left.subrange(p as int, high + 1));
                    assert(after_part.subrange(low as int, high + 1) =~= after_part.subrange(
                        low as int,
                        p as int,
                    ) + after_part.subrange(p as int, high + 1));
                    assert(after_left.subrange(p as int, high + 1) =~= after_part.subrange(
                        p as int,
                        high + 1,
                    ));
                    vstd::seq_lib::lemma_multiset_commutative(
                        after_left.subrange(low as int, p as int),
                        after_left.subrange(p as int, high + 1),
                    );
                    vstd::seq_lib::lemma_multiset_commutative(
                        after_part.subrange(low as int, p as int),
                        after_part.subrange(p as int, high + 1),
                    );
                }
                assert(arr@.subrange(low as int, high + 1).to_multiset() == after_left.subrange(
                    low as int,
                    high + 1,
                ).to_multiset()) by {
                    assert(arr@.subrange(low as int, high + 1) =~= arr@.subrange(
                        low as int,
                        p + 1,
                    ) + arr@.subrange(p + 1, high + 1));
                    assert(after_left.subrange(low as int, high + 1) =~= after_left.subrange(
                        low as int,
                        p + 1,
                    ) + after_left.subrange(p + 1, high + 1));
                    assert(arr@.subrange(low as int, p + 1) =~= after_left.subrange(
                        low as int,
                        p + 1,
                    ));
                    vstd::seq_lib::lemma_multiset_commutative(
                        arr@.subrange(low as int, p + 1),
                        arr@.subrange(p + 1, high + 1),
                    );
                    vstd::seq_lib::lemma_multiset_commutative(
                        after_left.subrange(low as int, p + 1),
                        after_left.subrange(p + 1, high + 1),
                    );
                }
            }
        }
    }
}

/// Quick sort with the last element of each range as pivot.
pub fn quick_sort(arr: &mut Vec<i64>)
    ensures
        sorted(final(arr)@),
        final(arr)@.to_multiset() == old(arr)@.to_multiset(),
        final(arr).len() == old(arr).len(),
{
    let len = arr.len();
    if len <= 1 {
        return ;
    }
    quick_sort_helper(arr, 0, len - 1);
    proof {
        assert(arr@.subrange(0, len as int) =~= arr@);
        assert(old(arr)@.subrange(0, len as int) =~= old(arr)@);
    }
}


/// Counting sort for `i32` values: tally each value between the least and
/// greatest element, then write the values back in ascending order.
pub fn counting_sort(arr: &mut Vec<i32>)
    requires
        // the tally table, one slot per value between the extremes, must be
        // addressable
        forall|i: int, j: int|
            0 <= i < old(arr).len() && 0 <= j < old(arr).len() ==> (#[trigger] old(arr)@[i]) as int
                - (#[trigger] old(arr)@[j]) as int <= usize::MAX - 1,
    ensures
        forall|i: int, j: int| 0 <= i <= j < final(arr)@.len() ==> final(arr)@[i] <= final(arr)@[j],
        final(arr)@.to_multiset() == old(arr)@.to_multiset(),
        final(arr).len() == old(arr).len(),
{
    let n = arr.len();
    if n == 0 {
        return ;
    }

    let mut mn = arr[0];
    let mut mx = arr[0];
    let mut i: usize = 1;
    while i < n
        invariant
            n == arr.len(),
            1 <= i <= n,
            mn <= mx,
            forall|j: int| 0 <= j < i ==> mn <= #[trigger] arr@[j] && arr@[j] <= mx,
            exists|j: int| 0 <= j < i && arr@[j] == mn,
            exists|j: int| 0 <= j < i && arr@[j] == mx,
        decreases n - i,
    {
        if arr[i] < mn {
            mn = arr[i];
        }
        if arr[i] > mx {
            mx = arr[i];
        }
        i += 1;
    }
    proof {
        let jm = choose|j: int| 0 <= j < n && arr@[j] == mn;
        let jx = choose|j: int| 0 <= j < n && arr@[j] == mx;
        assert(mx as int - mn as int <= usize::MAX - 1);
    }

    let range = ((mx as i64) - (mn as i64) + 1) as usize;
    let mut count: Vec<usize> = Vec::new();
    let mut d: usize = 0;
    while d < range
        invariant
            d <= range,
            count@.len() == d,
            forall|t: int| 0 <= t < d ==> #[trigger] count@[t] == 0,
        decreases range - d,
    {
        count.push(0);
        d += 1;
    }

    let ghost orig = arr@;
    let mut i: usize = 0;
    while i < n
        invariant
            n == arr.len(),
            arr@ == orig,
            i <= n,
            range == mx as int - mn as int + 1,
            count@.len() == range,
            forall|j: int| 0 <= j < n ==> mn <= #[trigger] arr@[j] && arr@[j] <= mx,
            forall|dd: int|
                0 <= dd < range ==> #[trigger] count@[dd] == orig.take(i as int).to_multiset()
                    .count(((mn as int + dd) as i32)),
            forall|dd: int| 0 <= dd < range ==> #[trigger] count@[dd] <= i,
        decreases n - i,
    {
        let x = arr[i];
        let d = ((x as i64) - (mn as i64)) as usize;
        let ghost pre_count = count@;
        let old_c = count[d];
        count.set(d, old_c + 1);
        proof {
            assert(orig.take(i + 1) =~= orig.take(i as int).push(x));
            assert(((mn as int + d) as i32) == x);
            assert forall|dd: int|
                0 <= dd < range implies #[trigger] count@[dd] == orig.take(i + 1).to_multiset()
                    .count(((mn as int + dd) as i32)) by {
                if dd != d {
                    assert(((mn as int + dd) as i32) != x);
                }
            }
        }
        i += 1;
    }
    proof {
        assert(orig.take(n as int) =~= orig);
    }

    let mut out: Vec<i32> = Vec::new();
    let mut d: usize = 0;
    while d < range
        invariant
            d <= range,
            range == mx as int - mn as int + 1,
            mn <= mx,
            count@.len() == range,
            forall|dd: int|
                0 <= dd < range ==> #[trigger] count@[dd] == orig.to_multiset().count(
                    ((mn as int + dd) as i32),
                ),
            forall|dd: int|
                0 <= dd < d ==> out@.to_multiset().count(#[trigger] ((mn as int + dd) as i32))
                    == count@[dd],
            forall|dd: int|
                d <= dd < range ==> out@.to_multiset().count(
                    #[trigger] ((mn as int + dd) as i32),
                ) == 0,
            forall|t: int|
                0 <= t < out@.len() ==> (mn <= #[trigger] out@[t] && (out@[t] as int) < mn as int
                    + d),
            forall|i2: int, j2: int| 0 <= i2 <= j2 < out@.len() ==> out@[i2] <= out@[j2],
        decreases range - d,
    {
        let v = ((mn as i64) + (d as i64)) as i32;
        let c = count[d];
        let ghost pre_out = out@;
        let mut e: usize = 0;
        while e < c
            invariant
                e <= c,
                v as int == mn as int + d,
                mn <= v <= mx,
                d < range,
                out@.len() == pre_out.len() + e,
                out@.to_multiset().count(v) == pre_out.to_multiset().count(v) + e,
                forall|y: i32|
                    y != v ==> #[trigger] out@.to_multiset().count(y) == pre_out.to_multiset()
                        .count(y),
                forall|t: int| 0 <= t < pre_out.len() ==> out@[t] == pre_out[t],
                forall|t: int| pre_out.len() <= t < out@.len() ==> out@[t] == v,
            decreases c - e,
        {
            out.push(v);
            e += 1;
        }
        proof {
            assert(pre_out.to_multiset().count(v) == 0);
            assert forall|i2: int, j2: int|
                0 <= i2 <= j2 < out@.len() implies out@[i2] <= out@[j2] by {
                if j2 >= pre_out.len() {
                    assert(out@[j2] == v);
                    if i2 < pre_out.len() {
                        assert(out@[i2] == pre_out[i2]);
                        assert((out@[i2] as int) < mn as int + d);
                    } else {
                        assert(out@[i2] == v);
                    }
                } else {
                    assert(out@[i2] == pre_out[i2] && out@[j2] == pre_out[j2]);
                }
            }
            assert forall|t: int|
                0 <= t < out@.len() implies (mn <= #[trigger] out@[t] && (out@[t] as int)
                    < mn as int + d + 1) by {
                if t < pre_out.len() {
                    assert(out@[t] == pre_out[t]);
                } else {
                    assert(out@[t] == v);
                }
            }
            assert forall|dd: int|
                0 <= dd < d + 1 implies out@.to_multiset().count(
                #[trigger] ((mn as int + dd) as i32),
            ) == count@[dd] by {
                if dd < d {
                    assert(((mn as int + dd) as i32) != v);
                }
            }
            assert forall|dd: int|
                d + 1 <= dd < range implies out@.to_multiset().count(
                #[trigger] ((mn as int + dd) as i32),
            ) == 0 by {
                assert(((mn as int + dd) as i32) != v);
            }
        }
        d += 1;
    }

    proof {
        assert(out@.to_multiset() =~= orig.to_multiset()) by {
            assert(out@.to_multiset().len() == out@.len());
            assert(orig.to_multiset().len() == orig.len());
            assert forall|y: i32| #[trigger] out@.to_multiset().count(y) == orig.to_multiset()
                .count(y) by {
                if mn <= y && y <= mx {
                    let dd = y as int - mn as int;
                    assert(((mn as int + dd) as i32) == y);
                } else {
                    if out@.to_multiset().count(y) > 0 {
                        assert(out@.contains(y));
                        let t = choose|t: int| 0 <= t < out@.len() && out@[t] == y;
                    }
                    if orig.to_multiset().count(y) > 0 {
                        assert(orig.contains(y));
                        let t = choose|t: int| 0 <= t < orig.len() && orig[t] == y;
                    }
                }
            }
        }
        assert(out@.to_multiset().len() == out@.len());
        assert(orig.to_multiset().len() == orig.len());
    }
    *arr = out;
}
} // verus!
