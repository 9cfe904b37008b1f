//! Binary search over a sorted slice, in the style of C++'s `lower_bound`.

use vstd::prelude::*;

verus! {

/// Nondecreasing order on a sequence of integers.
pub open spec fn sorted(s: Seq<i32>) -> bool {
    forall|i: int, j: int| 0 <= i <= j < s.len() ==> s[i] <= s[j]
}

/// Returns the first index whose element is not less than `value`, or the
/// length of the slice when every element is less.
pub fn lower_bound(slice: &[i32], value: i32) -> (r: usize)
    requires
        sorted(slice@),
    ensures
        r <= slice@.len(),
        forall|k: int| 0 <= k < r ==> slice@[k] < value,
        r < slice@.len() ==> slice@[r as int] >= value,
        (forall|k: int| 0 <= k < slice@.len() ==> slice@[k] < value) ==> r == slice@.len(),
        slice@.len() == 0 ==> r == 0,
{
    let len = slice.len();
    if len == 0 {
        return 0;
    }

    let mut start: usize = 0;
    let mut end: usize = len;
    let mut mid: usize = end / 2;
    let ghost mut known_less: int = 0;

    while mid != end
        invariant
            0 <= start <= end <= len,
            start <= mid <= end,
            len == slice@.len(),
            start <= known_less <= len,
            forall|k: int| 0 <= k < known_less ==> slice@[k] < value,
            forall|k: int| end <= k < len ==> slice@[k] >= value,
            sorted(slice@),
            mid == end ==> known_less >= end,
        decreases end - start, end - mid,
    {
        if slice[mid] < value {
            start = mid;
            proof {
                known_less = mid + 1;
            }
            mid = start + (end - start) / 2 + (end - start) % 2;
        } else {
            end = mid;
            mid = start + (end - start) / 2;
        }
    }

    proof {
        if end < len {
            assert(slice@[end as int] >= value);
        }
    }
    mid
}

} // verus!
