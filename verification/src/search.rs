//! Binary search over a sorted vector of integers.
use vstd::prelude::*;

verus! {

/// Whether `s` is sorted in non-decreasing order.
pub open spec fn sorted(s: Seq<i32>) -> bool {
    forall|i: int, j: int| 0 <= i <= j < s.len() ==> s[i] <= s[j]
}

/// Whether `target` occurs in `s` at a position from `left` to `right`, both
/// included.
pub open spec fn occurs_between(s: Seq<i32>, left: int, right: int, target: i32) -> bool {
    exists|i: int| left <= i <= right && 0 <= i < s.len() && s[i] == target
}

/// The position that halving the range from `left` to `right`, both
/// included, arrives at: the middle position if it holds `target`, else what
/// the search arrives at in the half on the side of `target`; `None` when the
/// range is empty.
pub open spec fn halving_search(arr: Seq<i32>, left: int, right: int, target: i32) -> Option<
    usize,
>
    decreases right - left + 1,
{
    if left > right {
        None
    } else {
        let mid = left + (right - left) / 2;
        if arr[mid] < target {
            halving_search(arr, mid + 1, right, target)
        } else if arr[mid] > target {
            halving_search(arr, left, mid - 1, target)
        } else {
            Some(mid as usize)
        }
    }
}

/// Searches the sorted vector `arr` for `target` among the positions from
/// `left` to `right`, both included, by halving the range.
///
/// The range must lie inside the vector. The bounds are unsigned 32-bit
/// numbers that the search moves one past the value it has just looked at, so
/// two inputs are left out: a `target` smaller than `arr[0]` when the range
/// starts at 0, and a `target` greater than `arr[right]` when `right` is the
/// largest 32-bit number.
pub fn binary_search(arr: Vec<i32>, left: u32, right: u32, target: i32) -> (found: Option<usize>)
    requires
        sorted(arr@),
        left <= right ==> right < arr.len(),
        left <= right && left == 0 ==> arr[0] <= target,
        left <= right && right == u32::MAX ==> arr[right as int] >= target,
    ensures
        found == halving_search(arr@, left as int, right as int, target),
        match found {
            Some(i) => left <= i <= right && i < arr.len() && arr[i as int] == target,
            None => !occurs_between(arr@, left as int, right as int, target),
        },
{
    let mut lo: u32 = left;
    let mut hi: u32 = right;
    while lo <= hi
        invariant
            sorted(arr@),
            left <= right ==> right < arr.len(),
            left <= right && left == 0 ==> arr[0] <= target,
            left <= right && right == u32::MAX ==> arr[right as int] >= target,
            left <= lo,
            hi <= right,
            halving_search(arr@, lo as int, hi as int, target) == halving_search(
                arr@,
                left as int,
                right as int,
                target,
            ),
            lo <= hi ==> left <= right,
            forall|i: int| left <= i < lo && i <= right ==> arr[i] < target,
            forall|i: int| hi < i <= right && left <= i ==> arr[i] > target,
        decreases hi + 1 - lo,
    {
        let mid_idx: u32 = lo + (hi - lo) / 2;
        let curr_val: i32 = arr[mid_idx as usize];
        if curr_val < target {
            lo = mid_idx + 1;
        } else if curr_val > target {
            hi = mid_idx - 1;
        } else {
            return Some(mid_idx as usize);
        }
    }
    assert forall|i: int| left <= i <= right && 0 <= i < arr@.len() implies arr@[i] != target by {
        if i < lo {
        } else {
        }
    }
    None
}

} // verus!
