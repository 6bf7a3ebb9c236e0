//! Band structure of the CREPE Viterbi transition kernel.
use crate::crepe::PITCH_BINS;
use crate::select::{argmax_first, argmax_last, clamped_window, is_first_max, is_last_max, window_hi, window_lo};
use std::ops::Range;
use vstd::prelude::*;

verus! {

/// Half-width of the transition kernel: `max(12 - |d|, 0)` vanishes beyond 11 bins.
pub const BAND: usize = 11;

/// The bins reachable in one step from `center`: within `BAND`, clipped to the bin range.
pub fn band(center: usize) -> (r: Range<usize>)
    requires
        center + BAND + 1 <= usize::MAX,
    ensures
        r.start == window_lo(center as int, BAND as int),
        r.end == window_hi(center as int, BAND as int, PITCH_BINS as int),
        center < PITCH_BINS ==> r.start <= center < r.end,
        r.end - r.start <= 2 * BAND + 1,
{
    clamped_window(center, BAND, PITCH_BINS)
}

/// Bin `k` lies in the band of bin `j`.
pub open spec fn in_band(j: int, k: int) -> bool {
    window_lo(j, BAND as int) <= k < window_hi(j, BAND as int, PITCH_BINS as int)
}

/// The band relation is symmetric on the pitch bins: `k` is reachable from `j`
/// exactly when `j` is reachable from `k`, so scanning `band(k)` for the
/// predecessors of `k` visits exactly the states whose transition to `k` is possible.
pub proof fn lemma_band_symmetric(j: int, k: int)
    requires
        0 <= j < PITCH_BINS,
        0 <= k < PITCH_BINS,
    ensures
        in_band(j, k) <==> in_band(k, j),
        in_band(j, k) <==> -(BAND as int) <= j - k <= BAND,
{
}

/// The state that precedes `next` on the best path: the last maximum of the
/// candidate scores, given as order keys for the states of `band(next)` in order.
pub fn predecessor(next: usize, scores: &[i64]) -> (r: usize)
    requires
        next < PITCH_BINS,
        scores@.len() == window_hi(next as int, BAND as int, PITCH_BINS as int) - window_lo(
            next as int,
            BAND as int,
        ),
    ensures
        in_band(next as int, r as int),
        r < PITCH_BINS,
        is_last_max(scores@, r - window_lo(next as int, BAND as int)),
{
    let b = band(next);
    let i = argmax_last(scores);
    b.start + i
}

/// Every row of the predecessor table has a state for each bin, and every
/// entry is a bin.
pub open spec fn is_table(table: Seq<Vec<usize>>) -> bool {
    &&& forall|t: int| 0 <= t < table.len() ==> (#[trigger] table[t])@.len() == PITCH_BINS
    &&& forall|t: int, k: int|
        0 <= t < table.len() && 0 <= k < PITCH_BINS ==> (#[trigger] table[t]@[k]) < PITCH_BINS
}

/// Every entry of the table is reachable in one step from the state it is stored under.
pub open spec fn table_within_band(table: Seq<Vec<usize>>) -> bool {
    forall|t: int, k: int|
        0 <= t < table.len() && 0 <= k < PITCH_BINS ==> in_band(k, #[trigger] table[t]@[k] as int)
}

/// `path` is read back through the table: each state is the stored
/// predecessor of the state one frame later.
pub open spec fn follows(path: Seq<usize>, table: Seq<Vec<usize>>) -> bool {
    &&& path.len() == table.len() + 1
    &&& forall|t: int| 0 <= t < table.len() ==> path[t] == (#[trigger] table[t])@[path[t + 1] as int]
}

/// Reads the best path back from the last frame. The last state is the first
/// maximum of `last`, the final frame's scores as order keys; each earlier
/// state is the predecessor that `table` stores for the state after it
/// (`table[t]` maps a state at frame `t + 1` to one at frame `t`).
pub fn backtrack(last: &[i64], table: &[Vec<usize>]) -> (path: Vec<usize>)
    requires
        last@.len() == PITCH_BINS,
        is_table(table@),
        table@.len() < usize::MAX,
    ensures
        follows(path@, table@),
        is_first_max(last@, path@[table@.len() as int] as int),
        forall|t: int| 0 <= t < path@.len() ==> path@[t] < PITCH_BINS,
{
    let n = table.len();
    let mut path: Vec<usize> = vec![0usize; n + 1];
    let final_state = argmax_first(last);
    path[n] = final_state;
    let mut t: usize = n;
    while t > 0
        invariant
            n == table@.len(),
            is_table(table@),
            path@.len() == n + 1,
            0 <= t <= n,
            is_first_max(last@, path@[n as int] as int),
            forall|i: int| t <= i <= n ==> path@[i] < PITCH_BINS,
            forall|i: int| t <= i < n ==> path@[i] == (#[trigger] table@[i])@[path@[i + 1] as int],
        decreases t,
    {
        let next = path[t];
        let prev = table[t - 1][next];
        path[t - 1] = prev;
        t -= 1;
    }
    path
}

/// The decoded pitch moves at most `BAND` bins from one frame to the next when
/// each stored predecessor lies in the band of its state: in particular a
/// path read back through a table filled by `predecessor`.
pub proof fn lemma_path_steps_within_band(path: Seq<usize>, table: Seq<Vec<usize>>)
    requires
        is_table(table),
        table_within_band(table),
        follows(path, table),
        forall|t: int| 0 <= t < path.len() ==> path[t] < PITCH_BINS,
    ensures
        forall|t: int|
            #![trigger path[t]]
            0 <= t < table.len() ==> -(BAND as int) <= path[t] - path[t + 1] <= BAND as int,
{
    assert forall|t: int| #![trigger path[t]] 0 <= t < table.len() implies -(BAND as int) <= path[t] - path[t + 1]
        <= BAND as int by {
        let k = path[t + 1] as int;
        assert(in_band(k, table[t]@[k] as int));
        lemma_band_symmetric(k, path[t] as int);
    }
}

} // verus!
