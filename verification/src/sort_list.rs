//! Four ways to sort a list of integers, and a reader of such lists.

use vstd::prelude::*;
use crate::text::{
    char_digit_value, char_is_digit, char_is_whitespace, chars_of, is_digit, lemma_numeral_grows,
    lemma_word_bounds, lemma_word_forward, numeral, word_end, word_start,
};

verus! {

/// How often `x` stands in `s` from `lo` up to `hi`.
pub open spec fn count_in(s: Seq<i32>, x: i32, lo: int, hi: int) -> nat
    decreases hi - lo,
{
    if hi <= lo {
        0
    } else {
        count_in(s, x, lo, hi - 1) + if 0 <= hi - 1 < s.len() && s[hi - 1] == x {
            1nat
        } else {
            0nat
        }
    }
}

/// `a` holds from `lo` up to `hi` what `b` holds there, in some order, and
/// is `b` everywhere else.
pub open spec fn permutation_in(a: Seq<i32>, b: Seq<i32>, lo: int, hi: int) -> bool {
    &&& a.len() == b.len()
    &&& forall|x: i32| count_in(a, x, lo, hi) == count_in(b, x, lo, hi)
    &&& forall|i: int| 0 <= i < a.len() && !(lo <= i < hi) ==> a[i] == b[i]
}

/// `a` holds what `b` holds, in some order.
pub open spec fn permutation(a: Seq<i32>, b: Seq<i32>) -> bool {
    permutation_in(a, b, 0, a.len() as int)
}

/// No element from `lo` up to `hi` is above one that follows it there.
pub open spec fn sorted_between(s: Seq<i32>, lo: int, hi: int) -> bool {
    forall|i: int, j: int| lo <= i <= j < hi ==> s[i] <= s[j]
}

/// No element is above one that follows it.
pub open spec fn sorted(s: Seq<i32>) -> bool {
    sorted_between(s, 0, s.len() as int)
}

/// Two lists that agree from `lo` up to `hi` hold the same there.
pub proof fn lemma_count_same(a: Seq<i32>, b: Seq<i32>, x: i32, lo: int, hi: int)
    requires
        0 <= lo,
        hi <= a.len(),
        hi <= b.len(),
        forall|i: int| lo <= i < hi ==> a[i] == b[i],
    ensures
        count_in(a, x, lo, hi) == count_in(b, x, lo, hi),
    decreases hi - lo,
{
    if lo < hi {
        lemma_count_same(a, b, x, lo, hi - 1);
    }
}

/// What a range holds is what its two parts hold.
pub proof fn lemma_count_split(s: Seq<i32>, x: i32, lo: int, mid: int, hi: int)
    requires
        lo <= mid <= hi,
    ensures
        count_in(s, x, lo, hi) == count_in(s, x, lo, mid) + count_in(s, x, mid, hi),
    decreases hi - mid,
{
    if mid < hi {
        lemma_count_split(s, x, lo, mid, hi - 1);
    }
}

/// What a range holds after one element is replaced.
pub proof fn lemma_count_update(s: Seq<i32>, at: int, v: i32, x: i32, lo: int, hi: int)
    requires
        0 <= lo <= at < hi <= s.len(),
    ensures
        count_in(s.update(at, v), x, lo, hi) + (if s[at] == x {
            1nat
        } else {
            0nat
        }) == count_in(s, x, lo, hi) + (if v == x {
            1nat
        } else {
            0nat
        }),
    decreases hi - lo,
{
    if at == hi - 1 {
        lemma_count_same(s.update(at, v), s, x, lo, hi - 1);
    } else {
        lemma_count_update(s, at, v, x, lo, hi - 1);
    }
}

/// A value stands in a range exactly where the range holds it at least
/// once.
pub proof fn lemma_count_positive(s: Seq<i32>, x: i32, lo: int, hi: int)
    requires
        0 <= lo,
        hi <= s.len(),
    ensures
        count_in(s, x, lo, hi) > 0 <==> exists|k: int| lo <= k < hi && s[k] == x,
    decreases hi - lo,
{
    if lo < hi {
        lemma_count_positive(s, x, lo, hi - 1);
        if count_in(s, x, lo, hi) > 0 {
            if s[hi - 1] == x {
                assert(lo <= hi - 1 < hi && s[hi - 1] == x);
            } else {
                let k = choose|k: int| lo <= k < hi - 1 && s[k] == x;
                assert(lo <= k < hi && s[k] == x);
            }
        }
        if exists|k: int| lo <= k < hi && s[k] == x {
            let k = choose|k: int| lo <= k < hi && s[k] == x;
            if k < hi - 1 {
                assert(lo <= k < hi - 1 && s[k] == x);
            }
        }
    }
}

/// Exchanging two elements of a range keeps what the range holds.
pub proof fn lemma_swap_permutes(s: Seq<i32>, i: int, j: int, lo: int, hi: int)
    requires
        0 <= lo <= i < hi <= s.len(),
        lo <= j < hi,
    ensures
        permutation_in(s.update(i, s[j]).update(j, s[i]), s, lo, hi),
{
    let mid = s.update(i, s[j]);
    let after = mid.update(j, s[i]);
    assert forall|x: i32| count_in(after, x, lo, hi) == count_in(s, x, lo, hi) by {
        lemma_count_update(s, i, s[j], x, lo, hi);
        lemma_count_update(mid, j, s[i], x, lo, hi);
    }
}

/// What a rearrangement of a range holds at a place, the range holds at
/// some place.
pub proof fn lemma_permutation_source(a: Seq<i32>, b: Seq<i32>, lo: int, hi: int, k: int)
    requires
        0 <= lo <= k < hi <= a.len(),
        permutation_in(a, b, lo, hi),
    ensures
        exists|m: int| lo <= m < hi && b[m] == a[k],
{
    lemma_count_positive(a, a[k], lo, hi);
    lemma_count_positive(b, a[k], lo, hi);
}

/// An upper bound on what a range holds is one on every rearrangement of
/// it.
pub proof fn lemma_permutation_keeps_upper(a: Seq<i32>, b: Seq<i32>, lo: int, hi: int, bound: i32)
    requires
        0 <= lo <= hi <= a.len(),
        permutation_in(a, b, lo, hi),
        forall|k: int| lo <= k < hi ==> b[k] <= bound,
    ensures
        forall|k: int| lo <= k < hi ==> a[k] <= bound,
{
    assert forall|k: int| lo <= k < hi implies a[k] <= bound by {
        lemma_permutation_source(a, b, lo, hi, k);
    }
}

/// A strict lower bound on what a range holds is one on every
/// rearrangement of it.
pub proof fn lemma_permutation_keeps_lower(a: Seq<i32>, b: Seq<i32>, lo: int, hi: int, bound: i32)
    requires
        0 <= lo <= hi <= a.len(),
        permutation_in(a, b, lo, hi),
        forall|k: int| lo <= k < hi ==> b[k] > bound,
    ensures
        forall|k: int| lo <= k < hi ==> a[k] > bound,
{
    assert forall|k: int| lo <= k < hi implies a[k] > bound by {
        lemma_permutation_source(a, b, lo, hi, k);
    }
}

/// A rearrangement of a part of a range is a rearrangement of the range.
pub proof fn lemma_permutation_widens(a: Seq<i32>, b: Seq<i32>, lo: int, hi: int, from: int, to: int)
    requires
        0 <= from <= lo <= hi <= to <= a.len(),
        permutation_in(a, b, lo, hi),
    ensures
        permutation_in(a, b, from, to),
{
    assert forall|x: i32| count_in(a, x, from, to) == count_in(b, x, from, to) by {
        lemma_count_split(a, x, from, lo, to);
        lemma_count_split(a, x, lo, hi, to);
        lemma_count_split(b, x, from, lo, to);
        lemma_count_split(b, x, lo, hi, to);
        lemma_count_same(a, b, x, from, lo);
        lemma_count_same(a, b, x, hi, to);
    }
}

/// A rearrangement of a rearrangement is a rearrangement.
pub proof fn lemma_permutation_chain(a: Seq<i32>, b: Seq<i32>, c: Seq<i32>, lo: int, hi: int)
    requires
        permutation_in(a, b, lo, hi),
        permutation_in(b, c, lo, hi),
    ensures
        permutation_in(a, c, lo, hi),
{
}

/// Exchanges the elements at `i` and `j`.
pub fn swap(arr: &mut Vec<i32>, i: usize, j: usize)
    requires
        i < old(arr).len(),
        j < old(arr).len(),
    ensures
        final(arr)@ == old(arr)@.update(i as int, old(arr)[j as int]).update(
            j as int,
            old(arr)[i as int],
        ),
{
    let a = arr[i];
    let b = arr[j];
    arr[i] = b;
    arr[j] = a;
}

/// Sorts the list by letting the greatest element of what is not yet in
/// place rise to the end, until a pass exchanges nothing.
pub fn bubble_sort(arr: &mut Vec<i32>)
    ensures
        sorted(final(arr)@),
        permutation(final(arr)@, old(arr)@),
{
    let len = arr.len();
    let mut i: usize = 0;
    while i < len
        invariant
            i <= len,
            len == arr.len(),
            permutation(arr@, old(arr)@),
            sorted_between(arr@, len - i, len as int),
            forall|a: int, b: int| 0 <= a < len - i <= b < len ==> arr[a] <= arr[b],
        ensures
            len == arr.len(),
            permutation(arr@, old(arr)@),
            sorted(arr@),
        decreases len - i,
    {
        let mut swapped = false;
        let mut j: usize = 0;
        while j + 1 + i < len
            invariant
                i < len,
                j + i < len,
                len == arr.len(),
                permutation(arr@, old(arr)@),
                sorted_between(arr@, len - i, len as int),
                forall|a: int, b: int| 0 <= a < len - i <= b < len ==> arr[a] <= arr[b],
                forall|a: int| 0 <= a <= j ==> arr[a] <= arr[j as int],
                !swapped ==> sorted_between(arr@, 0, j + 1),
            decreases len - j,
        {
            if arr[j] > arr[j + 1] {
                let ghost before = arr@;
                swap(arr, j, j + 1);
                proof {
                    lemma_swap_permutes(before, j as int, j + 1, 0, len as int);
                    lemma_permutation_chain(arr@, before, old(arr)@, 0, len as int);
                }
                swapped = true;
            }
            j += 1;
        }
        if !swapped {
            break ;
        }
        i += 1;
    }
}

/// Puts the last element, the pivot, where it belongs: what is at most the
/// pivot before it, what is above the pivot after it. Returns the place of
/// the pivot.
pub fn partition(arr: &mut Vec<i32>) -> (pivot: usize)
    requires
        old(arr).len() > 0,
    ensures
        pivot < final(arr).len(),
        final(arr)[pivot as int] == old(arr)[old(arr).len() - 1],
        forall|k: int| 0 <= k < pivot ==> final(arr)[k] <= final(arr)[pivot as int],
        forall|k: int| pivot < k < final(arr).len() ==> final(arr)[k] > final(arr)[pivot as int],
        permutation(final(arr)@, old(arr)@),
{
    let len = arr.len();
    partition_range(arr, 0, len)
}

/// `partition` on the elements from `lo` up to `hi`.
pub fn partition_range(arr: &mut Vec<i32>, lo: usize, hi: usize) -> (pivot: usize)
    requires
        lo < hi <= old(arr).len(),
    ensures
        lo <= pivot < hi,
        final(arr)[pivot as int] == old(arr)[hi - 1],
        forall|k: int| lo <= k < pivot ==> final(arr)[k] <= final(arr)[pivot as int],
        forall|k: int| pivot < k < hi ==> final(arr)[k] > final(arr)[pivot as int],
        permutation_in(final(arr)@, old(arr)@, lo as int, hi as int),
{
    let pivot_index = hi - 1;
    let mut i: usize = lo;
    let mut j: usize = lo;
    while j < pivot_index
        invariant
            lo <= i <= j <= pivot_index < hi <= arr.len(),
            pivot_index == hi - 1,
            arr[pivot_index as int] == old(arr)[hi - 1],
            forall|k: int| lo <= k < i ==> arr[k] <= arr[pivot_index as int],
            forall|k: int| i <= k < j ==> arr[k] > arr[pivot_index as int],
            permutation_in(arr@, old(arr)@, lo as int, hi as int),
        decreases pivot_index - j,
    {
        if arr[j] <= arr[pivot_index] {
            let ghost before = arr@;
            swap(arr, i, j);
            proof {
                lemma_swap_permutes(before, i as int, j as int, lo as int, hi as int);
                lemma_permutation_chain(arr@, before, old(arr)@, lo as int, hi as int);
            }
            i += 1;
        }
        j += 1;
    }
    let ghost before = arr@;
    swap(arr, i, pivot_index);
    proof {
        lemma_swap_permutes(before, i as int, pivot_index as int, lo as int, hi as int);
        lemma_permutation_chain(arr@, before, old(arr)@, lo as int, hi as int);
    }
    i
}

/// Sorts the list by partitioning it and sorting the two parts.
pub fn quick_sort(arr: &mut Vec<i32>)
    ensures
        sorted(final(arr)@),
        permutation(final(arr)@, old(arr)@),
{
    let len = arr.len();
    quick_sort_range(arr, 0, len);
}

/// `quick_sort` on the elements from `lo` up to `hi`.
pub fn quick_sort_range(arr: &mut Vec<i32>, lo: usize, hi: usize)
    requires
        lo <= hi <= old(arr).len(),
    ensures
        sorted_between(final(arr)@, lo as int, hi as int),
        permutation_in(final(arr)@, old(arr)@, lo as int, hi as int),
    decreases hi - lo,
{
    if hi - lo <= 1 {
        return ;
    }
    let pivot = partition_range(arr, lo, hi);
    let ghost parted = arr@;
    quick_sort_range(arr, lo, pivot);
    let ghost left_done = arr@;
    proof {
        lemma_permutation_keeps_upper(
            left_done,
            parted,
            lo as int,
            pivot as int,
            parted[pivot as int],
        );
        lemma_permutation_widens(left_done, parted, lo as int, pivot as int, lo as int, hi as int);
    }
    quick_sort_range(arr, pivot + 1, hi);
    proof {
        lemma_permutation_keeps_lower(arr@, left_done, pivot + 1, hi as int, parted[pivot as int]);
        lemma_permutation_widens(arr@, left_done, pivot + 1, hi as int, lo as int, hi as int);
        lemma_permutation_chain(arr@, left_done, parted, lo as int, hi as int);
        lemma_permutation_chain(arr@, parted, old(arr)@, lo as int, hi as int);
        let p = parted[pivot as int];
        assert(arr[pivot as int] == p);
        assert forall|a: int, b: int| lo <= a <= b < hi implies arr[a] <= arr[b] by {
            if a < pivot {
                assert(arr[a] == left_done[a]);
                assert(left_done[a] <= p);
            }
            if b > pivot {
                assert(arr[b] > p);
            }
            if b < pivot {
                assert(arr[b] == left_done[b]);
            }
        }
    }
}

/// Sorts the list by sorting its two halves and merging them.
pub fn merge_sort(arr: &mut Vec<i32>)
    ensures
        sorted(final(arr)@),
        permutation(final(arr)@, old(arr)@),
{
    let len = arr.len();
    merge_sort_range(arr, 0, len);
}

/// `merge_sort` on the elements from `lo` up to `hi`.
pub fn merge_sort_range(arr: &mut Vec<i32>, lo: usize, hi: usize)
    requires
        lo <= hi <= old(arr).len(),
    ensures
        sorted_between(final(arr)@, lo as int, hi as int),
        permutation_in(final(arr)@, old(arr)@, lo as int, hi as int),
    decreases hi - lo,
{
    if hi - lo <= 1 {
        return ;
    }
    let mid = lo + (hi - lo) / 2;
    merge_sort_range(arr, lo, mid);
    let ghost left_done = arr@;
    proof {
        lemma_permutation_widens(left_done, old(arr)@, lo as int, mid as int, lo as int, hi as int);
    }
    merge_sort_range(arr, mid, hi);
    let ghost both_done = arr@;
    proof {
        lemma_permutation_widens(both_done, left_done, mid as int, hi as int, lo as int, hi as int);
        lemma_permutation_chain(both_done, left_done, old(arr)@, lo as int, hi as int);
        assert forall|a: int, b: int| lo <= a <= b < mid implies both_done[a] <= both_done[b] by {
            assert(both_done[a] == left_done[a]);
            assert(both_done[b] == left_done[b]);
        }
    }
    merge_range(arr, lo, mid, hi);
    proof {
        lemma_permutation_chain(arr@, both_done, old(arr)@, lo as int, hi as int);
    }
}

/// Merges the elements before `mid` with those from `mid` on: the lesser
/// of the two that come next is taken, the first of them where they are
/// equal. Two sorted parts give a sorted list.
pub fn merge(arr: &mut Vec<i32>, mid: usize)
    requires
        mid <= old(arr).len(),
    ensures
        permutation(final(arr)@, old(arr)@),
        sorted_between(old(arr)@, 0, mid as int) && sorted_between(
            old(arr)@,
            mid as int,
            old(arr).len() as int,
        ) ==> sorted(final(arr)@),
{
    let len = arr.len();
    merge_range(arr, 0, mid, len);
}

/// The elements of `arr` from `from` up to `to`.
fn copy_range(arr: &Vec<i32>, from: usize, to: usize) -> (r: Vec<i32>)
    requires
        from <= to <= arr.len(),
    ensures
        r@ == arr@.subrange(from as int, to as int),
{
    let mut r: Vec<i32> = Vec::new();
    let mut i: usize = from;
    while i < to
        invariant
            from <= i <= to <= arr.len(),
            r@ == arr@.subrange(from as int, i as int),
        decreases to - i,
    {
        r.push(arr[i]);
        proof {
            assert(r@ =~= arr@.subrange(from as int, i as int + 1));
        }
        i += 1;
    }
    r
}

/// What a part of a list holds is what its copy holds.
proof fn lemma_count_subrange(s: Seq<i32>, x: i32, from: int, to: int, upto: int)
    requires
        0 <= from <= from + upto <= to <= s.len(),
    ensures
        count_in(s.subrange(from, to), x, 0, upto) == count_in(s, x, from, from + upto),
    decreases upto,
{
    if upto > 0 {
        lemma_count_subrange(s, x, from, to, upto - 1);
    }
}

/// `merge` on the elements from `lo` up to `hi`, parted at `mid`.
pub fn merge_range(arr: &mut Vec<i32>, lo: usize, mid: usize, hi: usize)
    requires
        lo <= mid <= hi <= old(arr).len(),
    ensures
        permutation_in(final(arr)@, old(arr)@, lo as int, hi as int),
        sorted_between(old(arr)@, lo as int, mid as int) && sorted_between(
            old(arr)@,
            mid as int,
            hi as int,
        ) ==> sorted_between(final(arr)@, lo as int, hi as int),
{
    let left = copy_range(arr, lo, mid);
    let right = copy_range(arr, mid, hi);
    let ghost halves_sorted = sorted_between(old(arr)@, lo as int, mid as int) && sorted_between(
        old(arr)@,
        mid as int,
        hi as int,
    );
    let mut i: usize = 0;
    let mut j: usize = 0;
    let mut k: usize = lo;
    while i < left.len() || j < right.len()
        invariant
            lo <= mid <= hi <= arr.len(),
            arr.len() == old(arr).len(),
            left@ == old(arr)@.subrange(lo as int, mid as int),
            right@ == old(arr)@.subrange(mid as int, hi as int),
            i <= left.len(),
            j <= right.len(),
            k == lo + i + j,
            halves_sorted == (sorted_between(old(arr)@, lo as int, mid as int) && sorted_between(
                old(arr)@,
                mid as int,
                hi as int,
            )),
            forall|x: i32|
                count_in(arr@, x, lo as int, k as int) == count_in(left@, x, 0, i as int)
                    + count_in(right@, x, 0, j as int),
            forall|m: int| 0 <= m < arr.len() && !(lo <= m < k) ==> arr[m] == old(arr)[m],
            halves_sorted ==> sorted_between(arr@, lo as int, k as int),
            halves_sorted ==> forall|a: int, b: int|
                lo <= a < k && i <= b < left.len() ==> arr[a] <= left[b],
            halves_sorted ==> forall|a: int, b: int|
                lo <= a < k && j <= b < right.len() ==> arr[a] <= right[b],
        decreases left.len() - i + right.len() - j,
    {
        let ghost before = arr@;
        let take_left = if i >= left.len() {
            false
        } else if j >= right.len() {
            true
        } else {
            left[i] <= right[j]
        };
        let value = if take_left {
            left[i]
        } else {
            right[j]
        };
        arr[k] = value;
        proof {
            assert forall|x: i32|
                #[trigger] count_in(arr@, x, lo as int, k + 1) == count_in(
                    left@,
                    x,
                    0,
                    if take_left {
                        i + 1
                    } else {
                        i as int
                    },
                ) + count_in(
                    right@,
                    x,
                    0,
                    if take_left {
                        j as int
                    } else {
                        j + 1
                    },
                ) by {
                lemma_count_same(arr@, before, x, lo as int, k as int);
            }
            if halves_sorted {
                assert forall|a: int, b: int| i <= a <= b < left.len() implies left[a]
                    <= left[b] by {
                    assert(left[a] == old(arr)[lo + a]);
                    assert(left[b] == old(arr)[lo + b]);
                }
                assert forall|a: int, b: int| j <= a <= b < right.len() implies right[a]
                    <= right[b] by {
                    assert(right[a] == old(arr)[mid + a]);
                    assert(right[b] == old(arr)[mid + b]);
                }
                assert forall|a: int, b: int| lo <= a <= b < k + 1 implies arr[a] <= arr[b] by {
                    if b < k {
                        assert(arr[a] == before[a] && arr[b] == before[b]);
                    } else if a < k {
                        assert(arr[a] == before[a]);
                    }
                }
            }
        }
        if take_left {
            i += 1;
        } else {
            j += 1;
        }
        k += 1;
    }
    proof {
        assert forall|x: i32| count_in(arr@, x, lo as int, hi as int) == count_in(
            old(arr)@,
            x,
            lo as int,
            hi as int,
        ) by {
            lemma_count_subrange(old(arr)@, x, lo as int, mid as int, mid - lo);
            lemma_count_subrange(old(arr)@, x, mid as int, hi as int, hi - mid);
            lemma_count_split(old(arr)@, x, lo as int, mid as int, hi as int);
        }
    }
}

/// Sorts the list by putting each element in its place among those before
/// it.
pub fn insertion_sort(arr: &mut Vec<i32>)
    ensures
        sorted(final(arr)@),
        permutation(final(arr)@, old(arr)@),
{
    let len = arr.len();
    let mut i: usize = 1;
    while i < len
        invariant
            1 <= i,
            len == arr.len(),
            permutation(arr@, old(arr)@),
            sorted_between(arr@, 0, if i <= len {
                i as int
            } else {
                len as int
            }),
        decreases len - i,
    {
        let key = arr[i];
        let ghost start = arr@;
        let mut j: usize = i;
        while j > 0 && arr[j - 1] > key
            invariant
                j <= i < len,
                len == arr.len(),
                start.len() == len,
                key == start[i as int],
                sorted_between(start, 0, i as int),
                forall|m: int| 0 <= m < j ==> arr[m] == start[m],
                forall|m: int| j < m <= i ==> arr[m] == start[m - 1],
                forall|m: int| i < m < len ==> arr[m] == start[m],
                forall|m: int| j < m <= i ==> arr[m] > key,
                j < i ==> arr[j as int] == arr[j + 1],
                j == i ==> arr[j as int] == key,
            decreases j,
        {
            arr[j] = arr[j - 1];
            j -= 1;
        }
        let ghost shifted = arr@;
        arr[j] = key;
        proof {
            let done = arr@;
            assert(forall|m: int| 0 <= m < len && m != j ==> done[m] == shifted[m]);
            assert(j > 0 ==> start[j - 1] <= key);
            assert forall|x: i32| count_in(done, x, 0, len as int) == count_in(
                start,
                x,
                0,
                len as int,
            ) by {
                lemma_insert_count(start, done, x, j as int, i as int);
                lemma_count_split(start, x, 0, i + 1, len as int);
                lemma_count_split(done, x, 0, i + 1, len as int);
                lemma_count_same(done, start, x, i + 1, len as int);
            }
            lemma_permutation_chain(done, start, old(arr)@, 0, len as int);
            assert forall|a: int, b: int| 0 <= a <= b < i + 1 implies done[a] <= done[b] by {
                if b < j {
                    assert(done[a] == start[a] && done[b] == start[b]);
                } else if b == j {
                    if a < j {
                        assert(done[a] == start[a]);
                        assert(start[a] <= start[j - 1]);
                    }
                } else {
                    assert(done[b] == start[b - 1]);
                    assert(done[b] > key);
                    if a < j {
                        assert(done[a] == start[a]);
                        assert(start[a] <= start[b - 1]);
                    } else if a > j {
                        assert(done[a] == start[a - 1]);
                        assert(start[a - 1] <= start[b - 1]);
                    }
                }
            }
        }
        i += 1;
    }
    proof {
        if len == 0 {
            assert(sorted(arr@));
        }
    }
}

/// Moving the element at `i` down to `j`, and what stood between up by
/// one, keeps what the first `i + 1` places hold.
proof fn lemma_insert_count(start: Seq<i32>, done: Seq<i32>, x: i32, j: int, i: int)
    requires
        0 <= j <= i < start.len(),
        start.len() == done.len(),
        done[j] == start[i],
        forall|m: int| 0 <= m < j ==> done[m] == start[m],
        forall|m: int| j < m <= i ==> done[m] == start[m - 1],
    ensures
        count_in(done, x, 0, i + 1) == count_in(start, x, 0, i + 1),
{
    lemma_count_split(done, x, 0, j, i + 1);
    lemma_count_split(done, x, j, j + 1, i + 1);
    lemma_count_split(start, x, 0, j, i + 1);
    lemma_count_split(start, x, j, i, i + 1);
    lemma_count_same(done, start, x, 0, j);
    lemma_count_shifted(start, done, x, j, i);
    assert(count_in(done, x, j, j + 1) == count_in(done, x, j, j) + if done[j] == x {
        1nat
    } else {
        0nat
    });
    assert(count_in(start, x, i, i + 1) == count_in(start, x, i, i) + if start[i] == x {
        1nat
    } else {
        0nat
    });
}

/// What stands one place higher is held as often.
proof fn lemma_count_shifted(start: Seq<i32>, done: Seq<i32>, x: i32, j: int, i: int)
    requires
        0 <= j <= i < start.len(),
        start.len() == done.len(),
        forall|m: int| j < m <= i ==> done[m] == start[m - 1],
    ensures
        count_in(done, x, j + 1, i + 1) == count_in(start, x, j, i),
    decreases i - j,
{
    if j < i {
        lemma_count_shifted(start, done, x, j, i - 1);
    }
}

/// Why a list of numbers could not be read: the word at index `word`,
/// counted from zero, is no integer of thirty-two bits.
#[derive(Debug, Clone, Copy, PartialEq, Eq, Structural)]
pub struct ParseNumbersError {
    pub word: usize,
}

/// The integer that the word from `from` up to `to` writes: an optional
/// sign and at least one digit, within the range of thirty-two bits.
pub open spec fn integer_of(s: Seq<char>, from: int, to: int) -> Option<int> {
    let signed = from < to && (s[from] == '-' || s[from] == '+');
    let start = if signed {
        from + 1
    } else {
        from
    };
    let value = if from < to && s[from] == '-' {
        -(numeral(s, start, to) as int)
    } else {
        numeral(s, start, to) as int
    };
    if start < to && (forall|i: int| start <= i < to ==> is_digit(#[trigger] s[i])) && i32::MIN
        <= value <= i32::MAX {
        Some(value)
    } else {
        None
    }
}

/// The integers that the words of `s` from `p` on write, after the
/// integers `read`; the index of the first word that writes none.
pub open spec fn integers_from(s: Seq<char>, p: int, read: Seq<i32>) -> Result<Seq<i32>, int>
    decreases s.len() - p,
{
    let start = word_start(s, p);
    let end = word_end(s, start);
    if start >= s.len() || start < 0 {
        Ok(read)
    } else if end <= start {
        Ok(read)
    } else {
        match integer_of(s, start, end) {
            Some(value) => {
                proof {
                    lemma_word_forward(s, p);
                    lemma_word_forward(s, start);
                }
                integers_from(s, end, read.push(value as i32))
            },
            None => Err(read.len() as int),
        }
    }
}

/// The integer that the word from `from` up to `to` writes.
fn read_integer(s: &Vec<char>, from: usize, to: usize) -> (r: Option<i32>)
    requires
        from < to <= s.len(),
    ensures
        match r {
            Some(value) => integer_of(s@, from as int, to as int) == Some(value as int),
            None => integer_of(s@, from as int, to as int) is None,
        },
{
    let negative = s[from] == '-';
    let start: usize = if negative || s[from] == '+' {
        from + 1
    } else {
        from
    };
    if start >= to {
        return None;
    }
    let mut value: i64 = 0;
    let mut i: usize = start;
    while i < to
        invariant
            from <= start <= i <= to <= s.len(),
            forall|m: int| start <= m < i ==> is_digit(#[trigger] s@[m]),
            value == numeral(s@, start as int, i as int),
            value <= 0x8000_0000,
            start as int == if from < to && (s@[from as int] == '-' || s@[from as int] == '+') {
                from + 1
            } else {
                from as int
            },
        decreases to - i,
    {
        if !char_is_digit(s[i]) {
            proof {
                assert(!is_digit(s@[i as int]));
            }
            return None;
        }
        let d = char_digit_value(s[i]) as i64;
        value = value * 10 + d;
        if value > 0x8000_0000 {
            proof {
                if forall|m: int| start <= m < to ==> is_digit(#[trigger] s@[m]) {
                    lemma_numeral_grows(s@, start as int, i as int + 1, to as int);
                }
            }
            return None;
        }
        i += 1;
    }
    if negative {
        Some((-value) as i32)
    } else if value > 0x7fff_ffff {
        None
    } else {
        Some(value as i32)
    }
}

/// Reads the integers that `input` lists, separated by whitespace.
pub fn parse_numbers(input: &str) -> (r: Result<Vec<i32>, ParseNumbersError>)
    ensures
        match r {
            Ok(numbers) => integers_from(input@, 0, Seq::empty()) == Ok::<Seq<i32>, int>(numbers@),
            Err(e) => integers_from(input@, 0, Seq::empty()) == Err::<Seq<i32>, int>(
                e.word as int,
            ),
        },
{
    let s = chars_of(input);
    let len = s.len();
    let mut numbers: Vec<i32> = Vec::new();
    let mut p: usize = 0;
    loop
        invariant
            p <= len,
            len == s.len(),
            s@ == input@,
            integers_from(input@, 0, Seq::empty()) == integers_from(s@, p as int, numbers@),
        decreases len - p,
    {
        let mut start: usize = p;
        while start < len && char_is_whitespace(s[start])
            invariant
                p <= start <= len,
                len == s.len(),
                word_start(s@, p as int) == word_start(s@, start as int),
            decreases len - start,
        {
            start += 1;
        }
        if start >= len {
            return Ok(numbers);
        }
        let mut end: usize = start;
        while end < len && !char_is_whitespace(s[end])
            invariant
                start <= end <= len,
                len == s.len(),
                word_end(s@, start as int) == word_end(s@, end as int),
            decreases len - end,
        {
            end += 1;
        }
        proof {
            lemma_word_bounds(s@, start as int);
        }
        match read_integer(&s, start, end) {
            Some(value) => {
                numbers.push(value);
            },
            None => {
                return Err(ParseNumbersError { word: numbers.len() });
            },
        }
        p = end;
    }
}

} // verus!
