//! Peak selection over rows of order keys, and clamped index windows.
//!
//! Model outputs are compared only through `<` and `>`; callers hand them in as
//! integer keys that order exactly as the original values do.
use std::ops::Range;
use vstd::prelude::*;

verus! {

/// `r` is the first index of a maximal element of `row`.
pub open spec fn is_first_max(row: Seq<i64>, r: int) -> bool {
    &&& 0 <= r < row.len()
    &&& forall|j: int| 0 <= j < row.len() ==> row[j] <= row[r]
    &&& forall|j: int| 0 <= j < r ==> row[j] < row[r]
}

/// `r` is the last index of a maximal element of `row`.
pub open spec fn is_last_max(row: Seq<i64>, r: int) -> bool {
    &&& 0 <= r < row.len()
    &&& forall|j: int| 0 <= j < row.len() ==> row[j] <= row[r]
    &&& forall|j: int| r < j < row.len() ==> row[j] < row[r]
}

/// Index of the first maximum of `row`; 0 for an empty row.
pub fn argmax_first(row: &[i64]) -> (r: usize)
    ensures
        row@.len() == 0 ==> r == 0,
        row@.len() > 0 ==> is_first_max(row@, r as int),
{
    let mut best: usize = 0;
    let n = row.len();
    if n == 0 {
        return 0;
    }
    let mut i: usize = 1;
    while i < n
        invariant
            n == row@.len(),
            1 <= i <= n,
            is_first_max(row@.take(i as int), best as int),
        decreases n - i,
    {
        if row[i] > row[best] {
            best = i;
        }
        i += 1;
    }
    assert(row@.take(n as int) =~= row@);
    best
}

/// Index of the last maximum of `row`; 0 for an empty row.
pub fn argmax_last(row: &[i64]) -> (r: usize)
    ensures
        row@.len() == 0 ==> r == 0,
        row@.len() > 0 ==> is_last_max(row@, r as int),
{
    let mut best: usize = 0;
    let n = row.len();
    if n == 0 {
        return 0;
    }
    let mut i: usize = 1;
    while i < n
        invariant
            n == row@.len(),
            1 <= i <= n,
            is_last_max(row@.take(i as int), best as int),
        decreases n - i,
    {
        if row[i] >= row[best] {
            best = i;
        }
        i += 1;
    }
    assert(row@.take(n as int) =~= row@);
    best
}

/// First index of the window of half-width `half` around `center`, clipped at 0.
pub open spec fn window_lo(center: int, half: int) -> int {
    if center >= half { center - half } else { 0 }
}

/// One past the last index of that window, clipped at `len`.
pub open spec fn window_hi(center: int, half: int, len: int) -> int {
    if center + half + 1 <= len { center + half + 1 } else { len }
}

/// The indices within `half` of `center`, clipped to `0..len`.
pub fn clamped_window(center: usize, half: usize, len: usize) -> (r: Range<usize>)
    requires
        center + half + 1 <= usize::MAX,
    ensures
        r.start == window_lo(center as int, half as int),
        r.end == window_hi(center as int, half as int, len as int),
{
    let lo = if center >= half { center - half } else { 0 };
    let hi = if center + half + 1 <= len { center + half + 1 } else { len };
    lo..hi
}

} // verus!
