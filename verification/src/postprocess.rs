//! Polyphonic note extraction from note and onset posteriorgrams (Basic Pitch).
//!
//! Posteriorgram cells are order keys: integers that compare exactly as the
//! model's activations do. A threshold is the key of the threshold value.
use crate::notegrid::{
    argmax_2d, copy_grid, count_above, gv, is_cell, is_first_max_2d, is_rect, lemma_count_above_mono,
    lemma_first_max_2d_unique, lemma_lowered_trans, lemma_zero_bands_lowered, lowered,
    zero_band_in_row, zero_bands,
};
use vstd::prelude::*;

verus! {

/// Consecutive below-threshold frames that close a note.
pub const ENERGY_TOL: usize = 11;

/// The scan forward from frame `i` along bin `f`, with `k` below-threshold frames
/// seen in a row: it stops at the second-to-last frame, or after `ENERGY_TOL`
/// below-threshold frames in a row. The result is the final `(i, k)`.
pub open spec fn fwd_walk(g: Seq<Seq<i64>>, f: int, thr: i64, i: int, k: int) -> (int, int)
    decreases g.len() - i,
{
    if i < g.len() - 1 && k < ENERGY_TOL {
        fwd_walk(g, f, thr, i + 1, if g[i][f] < thr { k + 1 } else { 0 })
    } else {
        (i, k)
    }
}

/// The scan backward over frames `j - 1, j - 2, ...` along bin `f`: it stops
/// before frame 0 or after `ENERGY_TOL` below-threshold frames in a row. The
/// result is the final `(j, k)`, with `j` one past the last frame visited.
pub open spec fn bwd_walk(g: Seq<Seq<i64>>, f: int, thr: i64, j: int, k: int) -> (int, int)
    decreases j,
{
    if j > 0 && k < ENERGY_TOL {
        bwd_walk(g, f, thr, j - 1, if g[j - 1][f] < thr { k + 1 } else { 0 })
    } else {
        (j, k)
    }
}

/// The forward scan visits frames `i..r.0`, and ends on a run of `r.1` below-threshold frames.
pub proof fn lemma_fwd_walk_bounds(g: Seq<Seq<i64>>, f: int, thr: i64, i: int, k: int)
    requires
        0 <= k <= ENERGY_TOL,
    ensures
        i <= fwd_walk(g, f, thr, i, k).0,
        fwd_walk(g, f, thr, i, k).0 <= if i <= g.len() - 1 { g.len() - 1 } else { i },
        0 <= fwd_walk(g, f, thr, i, k).1 <= ENERGY_TOL,
        fwd_walk(g, f, thr, i, k).1 <= k + (fwd_walk(g, f, thr, i, k).0 - i),
    decreases g.len() - i,
{
    if i < g.len() - 1 && k < ENERGY_TOL {
        lemma_fwd_walk_bounds(g, f, thr, i + 1, if g[i][f] < thr { k + 1 } else { 0 });
    }
}

/// The backward scan visits frames `r.0..j`, and ends on a run of `r.1` below-threshold frames.
pub proof fn lemma_bwd_walk_bounds(g: Seq<Seq<i64>>, f: int, thr: i64, j: int, k: int)
    requires
        0 <= k <= ENERGY_TOL,
        0 <= j,
    ensures
        0 <= bwd_walk(g, f, thr, j, k).0 <= j,
        0 <= bwd_walk(g, f, thr, j, k).1 <= ENERGY_TOL,
        bwd_walk(g, f, thr, j, k).1 <= k + (j - bwd_walk(g, f, thr, j, k).0),
    decreases j,
{
    if j > 0 && k < ENERGY_TOL {
        lemma_bwd_walk_bounds(g, f, thr, j - 1, if g[j - 1][f] < thr { k + 1 } else { 0 });
    }
}

/// One past the last frame of a note found from its onset frame `start`:
/// the first frame of the below-threshold run that ends the forward scan.
pub open spec fn onset_note_end(g: Seq<Seq<i64>>, start: int, f: int, thr: i64) -> int {
    fwd_walk(g, f, thr, start + 1, 0).0 - fwd_walk(g, f, thr, start + 1, 0).1
}

/// Frames `a..b` of bin `f` are all below `thr`.
pub open spec fn all_below(g: Seq<Seq<i64>>, f: int, thr: i64, a: int, b: int) -> bool {
    forall|j: int| a <= j < b ==> #[trigger] g[j][f] < thr
}

proof fn lemma_fwd_walk_law(g: Seq<Seq<i64>>, f: int, thr: i64, s: int, i: int, k: int)
    requires
        s + 1 <= i,
        0 <= k <= ENERGY_TOL,
        k <= i - (s + 1),
        all_below(g, f, thr, i - k, i),
        i - k == s + 1 || !(g[i - k - 1][f] < thr),
        forall|e: int|
            s + 1 <= e && e + ENERGY_TOL <= i && #[trigger] all_below(g, f, thr, e, e + ENERGY_TOL)
                ==> e + ENERGY_TOL == i && k == ENERGY_TOL,
    ensures
        ({
            let r = fwd_walk(g, f, thr, i, k);
            &&& all_below(g, f, thr, r.0 - r.1, r.0)
            &&& r.0 - r.1 == s + 1 || !(g[r.0 - r.1 - 1][f] < thr)
            &&& r.0 >= g.len() - 1 || r.1 == ENERGY_TOL
            &&& forall|e: int|
                s + 1 <= e && e + ENERGY_TOL < r.0 ==> !#[trigger] all_below(g, f, thr, e, e + ENERGY_TOL)
        }),
    decreases g.len() - i,
{
    if i < g.len() - 1 && k < ENERGY_TOL {
        let k2 = if g[i][f] < thr { k + 1 } else { 0 };
        if g[i][f] < thr {
            assert forall|j: int| i + 1 - k2 <= j < i + 1 implies #[trigger] g[j][f] < thr by {
                if j < i {
                    assert(all_below(g, f, thr, i - k, i));
                }
            }
        }
        assert forall|e: int|
            s + 1 <= e && e + ENERGY_TOL <= i + 1 && #[trigger] all_below(g, f, thr, e, e + ENERGY_TOL)
                implies e + ENERGY_TOL == i + 1 && k2 == ENERGY_TOL by {
            if e + ENERGY_TOL <= i {
                assert(e + ENERGY_TOL == i && k == ENERGY_TOL);
            } else {
                assert(g[i][f] < thr);
                if e < i - k {
                    assert(i - k != s + 1);
                    assert(g[i - k - 1][f] < thr);
                }
            }
        }
        lemma_fwd_walk_law(g, f, thr, s, i + 1, k2);
    } else {
        assert forall|e: int|
            s + 1 <= e && e + ENERGY_TOL < i implies !#[trigger] all_below(g, f, thr, e, e + ENERGY_TOL) by {
        }
    }
}

/// The note found from an onset at frame `s` extends until `ENERGY_TOL` frames
/// in a row fall below the threshold, and ends at the first of them: with
/// `(i, k)` the end of the forward scan and `end = i - k`, frames `end..i` are
/// below, frame `end - 1` is not (unless the note is one frame long), the scan
/// stopped on a full run or at the second-to-last frame, and no earlier run of
/// `ENERGY_TOL` below-threshold frames follows the onset.
pub proof fn lemma_onset_note_end(g: Seq<Seq<i64>>, f: int, thr: i64, s: int)
    requires
        0 <= s,
    ensures
        ({
            let r = fwd_walk(g, f, thr, s + 1, 0);
            let end = onset_note_end(g, s, f, thr);
            &&& end == r.0 - r.1
            &&& all_below(g, f, thr, end, r.0)
            &&& end == s + 1 || !(g[end - 1][f] < thr)
            &&& r.0 >= g.len() - 1 || r.0 - end == ENERGY_TOL
            &&& forall|e: int|
                s + 1 <= e && e + ENERGY_TOL < r.0 ==> !#[trigger] all_below(g, f, thr, e, e + ENERGY_TOL)
        }),
{
    assert forall|e: int|
        s + 1 <= e && e + ENERGY_TOL <= s + 1 && #[trigger] all_below(g, f, thr, e, e + ENERGY_TOL)
            implies e + ENERGY_TOL == s + 1 && 0 == ENERGY_TOL by {
    }
    lemma_fwd_walk_law(g, f, thr, s, s + 1, 0);
}

/// Scans forward from `i_mid + 1` along `freq_idx` and returns where the note ends.
fn walk_forward(remaining: &Vec<Vec<i64>>, i_mid: usize, freq_idx: usize, frame_thresh: i64) -> (end: usize)
    requires
        i_mid < remaining@.len(),
        forall|t: int| 0 <= t < remaining@.len() ==> freq_idx < #[trigger] remaining@[t]@.len(),
    ensures
        end == onset_note_end(gv(remaining), i_mid as int, freq_idx as int, frame_thresh),
{
    let ghost g = gv(remaining);
    let n = remaining.len();
    let mut i = i_mid + 1;
    let mut k: usize = 0;
    while i < n - 1 && k < ENERGY_TOL
        invariant
            g == gv(remaining),
            n == g.len(),
            1 <= n,
            i_mid + 1 <= i <= n,
            k <= i - (i_mid + 1),
            forall|t: int| 0 <= t < g.len() ==> freq_idx < #[trigger] g[t].len(),
            fwd_walk(g, freq_idx as int, frame_thresh, i as int, k as int) == fwd_walk(
                g,
                freq_idx as int,
                frame_thresh,
                i_mid + 1,
                0,
            ),
        decreases n - i,
    {
        assert(g[i as int].len() > freq_idx);
        k = if remaining[i][freq_idx] < frame_thresh { k + 1 } else { 0 };
        i += 1;
    }
    i - k
}

/// Where the forward consuming walk from `i_mid` ends its note.
pub open spec fn sweep_note_end(g: Seq<Seq<i64>>, i_mid: int, f: int, thr: i64) -> int {
    let r = fwd_walk(g, f, thr, i_mid + 1, 0);
    if r.0 - 1 - r.1 >= 0 { r.0 - 1 - r.1 } else { 0 }
}

/// The note that the sweep seeds at frame `t` on bin `f` ends at frame `d`
/// (its last frame), just before the first run of `ENERGY_TOL` below-threshold
/// frames after `t`, or before the below-threshold frames that run up to the
/// second-to-last frame: frame `d` is at or above the threshold (unless
/// `d == t`), the frames after it are below the threshold for `ENERGY_TOL`
/// frames or up to the second-to-last frame, and no run of `ENERGY_TOL`
/// below-threshold frames lies in `t + 1..=d`. The forward scan visits
/// exactly the frames from `t + 1` up to the end of that following run.
pub proof fn lemma_sweep_note_end(g: Seq<Seq<i64>>, f: int, thr: i64, t: int)
    requires
        0 <= t < g.len(),
    ensures
        ({
            let d = sweep_note_end(g, t, f, thr);
            let hi = fwd_walk(g, f, thr, t + 1, 0).0;
            let n = g.len() as int;
            &&& t <= d < hi
            &&& d + 1 == onset_note_end(g, t, f, thr)
            &&& hi == if d + 1 + ENERGY_TOL < n - 1 {
                d + 1 + ENERGY_TOL
            } else if t + 1 <= n - 1 {
                n - 1
            } else {
                t + 1
            }
            &&& d == t || !(g[d][f] < thr)
            &&& (d + 1 + ENERGY_TOL < n - 1 && all_below(g, f, thr, d + 1, d + 1 + ENERGY_TOL)) || (d
                + 1 + ENERGY_TOL >= n - 1 && all_below(g, f, thr, d + 1, n - 1))
            &&& forall|e: int|
                t < e && e + ENERGY_TOL <= d + 1 ==> !#[trigger] all_below(g, f, thr, e, e + ENERGY_TOL)
        }),
{
    lemma_fwd_walk_bounds(g, f, thr, t + 1, 0);
    lemma_onset_note_end(g, f, thr, t);
    let r = fwd_walk(g, f, thr, t + 1, 0);
    let d = sweep_note_end(g, t, f, thr);
    assert(d == r.0 - r.1 - 1);
    assert forall|e: int| t < e && e + ENERGY_TOL <= d + 1 implies !#[trigger] all_below(
        g,
        f,
        thr,
        e,
        e + ENERGY_TOL,
    ) by {
        if e + ENERGY_TOL == r.0 {
            assert(!(g[d][f] < thr));
        }
    }
}

/// Scans forward from `i_mid + 1` along `freq_idx`, zeroing the band in every
/// frame it visits, and returns where the note ends.
fn walk_forward_consume(
    remaining: &mut Vec<Vec<i64>>,
    i_mid: usize,
    freq_idx: usize,
    frame_thresh: i64,
    n_freqs: usize,
) -> (end: usize)
    requires
        i_mid < old(remaining)@.len(),
        freq_idx < n_freqs,
        is_rect(gv(old(remaining)), n_freqs as int),
    ensures
        end == sweep_note_end(gv(old(remaining)), i_mid as int, freq_idx as int, frame_thresh),
        i_mid <= end,
        end > i_mid ==> gv(old(remaining))[end as int][freq_idx as int] >= frame_thresh,
        (end + 1 + ENERGY_TOL < old(remaining)@.len() - 1 && all_below(
            gv(old(remaining)),
            freq_idx as int,
            frame_thresh,
            end + 1,
            end + 1 + ENERGY_TOL,
        )) || (end + 1 + ENERGY_TOL >= old(remaining)@.len() - 1 && all_below(
            gv(old(remaining)),
            freq_idx as int,
            frame_thresh,
            end + 1,
            old(remaining)@.len() - 1,
        )),
        forall|e: int|
            i_mid < e && e + ENERGY_TOL <= end + 1 ==> !#[trigger] all_below(
                gv(old(remaining)),
                freq_idx as int,
                frame_thresh,
                e,
                e + ENERGY_TOL,
            ),
        gv(final(remaining)) == zero_bands(
            gv(old(remaining)),
            i_mid + 1,
            if end + 1 + ENERGY_TOL < old(remaining)@.len() - 1 {
                end + 1 + ENERGY_TOL
            } else if i_mid + 1 <= old(remaining)@.len() - 1 {
                old(remaining)@.len() - 1
            } else {
                i_mid + 1
            },
            freq_idx as int,
        ),
        gv(final(remaining)) == zero_bands(
            gv(old(remaining)),
            i_mid + 1,
            fwd_walk(gv(old(remaining)), freq_idx as int, frame_thresh, i_mid + 1, 0).0,
            freq_idx as int,
        ),
{
    let ghost g = gv(remaining);
    let n = remaining.len();
    let mut i = i_mid + 1;
    let mut k: usize = 0;
    assert(gv(remaining) =~= zero_bands(g, i_mid + 1, i as int, freq_idx as int));
    while i < n - 1 && k < ENERGY_TOL
        invariant
            n == g.len(),
            remaining@.len() == g.len(),
            1 <= n,
            i_mid + 1 <= i <= n,
            k <= i - (i_mid + 1),
            freq_idx < n_freqs,
            is_rect(g, n_freqs as int),
            gv(remaining) == zero_bands(g, i_mid + 1, i as int, freq_idx as int),
            fwd_walk(g, freq_idx as int, frame_thresh, i as int, k as int) == fwd_walk(
                g,
                freq_idx as int,
                frame_thresh,
                i_mid + 1,
                0,
            ),
        decreases n - i,
    {
        let ghost before = gv(remaining);
        assert(g[i as int].len() == n_freqs);
        assert(before[i as int] == g[i as int]);
        assert(remaining@[i as int]@ == before[i as int]);
        k = if remaining[i][freq_idx] < frame_thresh { k + 1 } else { 0 };
        proof {
            assert forall|t: int| 0 <= t < before.len() implies #[trigger] before[t].len() == n_freqs by {
                assert(g[t].len() == n_freqs);
            }
        }
        zero_band_in_row(remaining, i, freq_idx, n_freqs);
        assert(gv(remaining) =~= zero_bands(g, i_mid + 1, i + 1, freq_idx as int));
        i += 1;
    }
    proof {
        lemma_sweep_note_end(g, freq_idx as int, frame_thresh, i_mid as int);
    }
    if i - 1 >= k { i - 1 - k } else { 0 }
}

/// Where the backward consuming walk from `i_mid` starts its note.
pub open spec fn sweep_note_start(g: Seq<Seq<i64>>, i_mid: int, f: int, thr: i64) -> int {
    bwd_walk(g, f, thr, i_mid, 0).0 + bwd_walk(g, f, thr, i_mid, 0).1
}

proof fn lemma_bwd_walk_law(g: Seq<Seq<i64>>, f: int, thr: i64, t: int, j: int, k: int)
    requires
        0 <= j <= t,
        0 <= k <= ENERGY_TOL,
        k <= t - j,
        all_below(g, f, thr, j, j + k),
        j + k == t || !(g[j + k][f] < thr),
        forall|e: int|
            j <= e && e + ENERGY_TOL <= t && #[trigger] all_below(g, f, thr, e, e + ENERGY_TOL)
                ==> e == j && k == ENERGY_TOL,
    ensures
        ({
            let r = bwd_walk(g, f, thr, j, k);
            &&& all_below(g, f, thr, r.0, r.0 + r.1)
            &&& r.0 + r.1 == t || !(g[r.0 + r.1][f] < thr)
            &&& r.0 == 0 || r.1 == ENERGY_TOL
            &&& forall|e: int|
                r.0 < e && e + ENERGY_TOL <= t ==> !#[trigger] all_below(g, f, thr, e, e + ENERGY_TOL)
        }),
    decreases j,
{
    if j > 0 && k < ENERGY_TOL {
        let k2 = if g[j - 1][f] < thr { k + 1 } else { 0 };
        if g[j - 1][f] < thr {
            assert forall|i: int| j - 1 <= i < j - 1 + k2 implies #[trigger] g[i][f] < thr by {
                if i >= j {
                    assert(all_below(g, f, thr, j, j + k));
                }
            }
        }
        assert forall|e: int|
            j - 1 <= e && e + ENERGY_TOL <= t && #[trigger] all_below(g, f, thr, e, e + ENERGY_TOL)
                implies e == j - 1 && k2 == ENERGY_TOL by {
            if e >= j {
                assert(e == j && k == ENERGY_TOL);
            } else {
                assert(g[j - 1][f] < thr);
                if k + 1 < ENERGY_TOL {
                    assert(g[j + k][f] < thr);
                }
            }
        }
        lemma_bwd_walk_law(g, f, thr, t, j - 1, k2);
    }
}

/// The note that the sweep seeds at frame `t` on bin `f` starts at `s`, the
/// frame just after the latest run of `ENERGY_TOL` below-threshold frames
/// before `t`, or at frame 0 when there is none: frame `s` is at or above the
/// threshold (unless `s == t`), it is preceded by `ENERGY_TOL` below-threshold
/// frames or, when `s < ENERGY_TOL`, only by below-threshold frames, and no
/// run of `ENERGY_TOL` below-threshold frames lies in `s..t`. The backward
/// scan visits exactly the frames from that preceding run (or frame 0) up to `t`.
pub proof fn lemma_sweep_note_start(g: Seq<Seq<i64>>, f: int, thr: i64, t: int)
    requires
        0 <= t,
    ensures
        ({
            let s = sweep_note_start(g, t, f, thr);
            let lo = bwd_walk(g, f, thr, t, 0).0;
            &&& 0 <= lo <= s <= t
            &&& lo == if s < ENERGY_TOL { 0 } else { s - ENERGY_TOL }
            &&& s == t || !(g[s][f] < thr)
            &&& (s >= ENERGY_TOL && all_below(g, f, thr, s - ENERGY_TOL, s)) || (s < ENERGY_TOL
                && all_below(g, f, thr, 0, s))
            &&& forall|e: int|
                s <= e && e + ENERGY_TOL <= t ==> !#[trigger] all_below(g, f, thr, e, e + ENERGY_TOL)
        }),
{
    lemma_bwd_walk_bounds(g, f, thr, t, 0);
    lemma_bwd_walk_law(g, f, thr, t, t, 0);
    let r = bwd_walk(g, f, thr, t, 0);
    let s = r.0 + r.1;
    assert forall|e: int| s <= e && e + ENERGY_TOL <= t implies !#[trigger] all_below(
        g,
        f,
        thr,
        e,
        e + ENERGY_TOL,
    ) by {
        if e == s {
            assert(!(g[s][f] < thr));
        }
    }
}

/// Scans backward from `i_mid - 1` along `freq_idx`, zeroing the band in every
/// frame it visits, and returns where the note starts.
fn walk_backward_consume(
    remaining: &mut Vec<Vec<i64>>,
    i_mid: usize,
    freq_idx: usize,
    frame_thresh: i64,
    n_freqs: usize,
) -> (start: usize)
    requires
        i_mid < old(remaining)@.len(),
        freq_idx < n_freqs,
        is_rect(gv(old(remaining)), n_freqs as int),
    ensures
        start == sweep_note_start(gv(old(remaining)), i_mid as int, freq_idx as int, frame_thresh),
        start <= i_mid,
        start < i_mid ==> gv(old(remaining))[start as int][freq_idx as int] >= frame_thresh,
        (start >= ENERGY_TOL && all_below(
            gv(old(remaining)),
            freq_idx as int,
            frame_thresh,
            start - ENERGY_TOL,
            start as int,
        )) || (start < ENERGY_TOL && all_below(
            gv(old(remaining)),
            freq_idx as int,
            frame_thresh,
            0,
            start as int,
        )),
        forall|e: int|
            start <= e && e + ENERGY_TOL <= i_mid ==> !#[trigger] all_below(
                gv(old(remaining)),
                freq_idx as int,
                frame_thresh,
                e,
                e + ENERGY_TOL,
            ),
        gv(final(remaining)) == zero_bands(
            gv(old(remaining)),
            if start < ENERGY_TOL { 0 } else { start - ENERGY_TOL },
            i_mid as int,
            freq_idx as int,
        ),
        gv(final(remaining)) == zero_bands(
            gv(old(remaining)),
            bwd_walk(gv(old(remaining)), freq_idx as int, frame_thresh, i_mid as int, 0).0,
            i_mid as int,
            freq_idx as int,
        ),
{
    let ghost g = gv(remaining);
    let mut j = i_mid;
    let mut k: usize = 0;
    assert(gv(remaining) =~= zero_bands(g, j as int, i_mid as int, freq_idx as int));
    while j > 0 && k < ENERGY_TOL
        invariant
            i_mid < g.len(),
            remaining@.len() == g.len(),
            j <= i_mid,
            k <= i_mid - j,
            freq_idx < n_freqs,
            is_rect(g, n_freqs as int),
            gv(remaining) == zero_bands(g, j as int, i_mid as int, freq_idx as int),
            bwd_walk(g, freq_idx as int, frame_thresh, j as int, k as int) == bwd_walk(
                g,
                freq_idx as int,
                frame_thresh,
                i_mid as int,
                0,
            ),
        decreases j,
    {
        let ghost before = gv(remaining);
        let iu = j - 1;
        assert(g[iu as int].len() == n_freqs);
        assert(before[iu as int] == g[iu as int]);
        assert(remaining@[iu as int]@ == before[iu as int]);
        k = if remaining[iu][freq_idx] < frame_thresh { k + 1 } else { 0 };
        proof {
            assert forall|t: int| 0 <= t < before.len() implies #[trigger] before[t].len() == n_freqs by {
                assert(g[t].len() == n_freqs);
            }
        }
        zero_band_in_row(remaining, iu, freq_idx, n_freqs);
        assert(gv(remaining) =~= zero_bands(g, iu as int, i_mid as int, freq_idx as int));
        j = iu;
    }
    proof {
        lemma_sweep_note_start(g, freq_idx as int, frame_thresh, i_mid as int);
    }
    j + k
}

/// Contour bins per semitone.
pub const CONTOURS_BINS_PER_SEMITONE: usize = 3;

/// Number of contour bins (88 piano keys, 3 bins each).
pub const N_FREQ_BINS_CONTOURS: usize = 264;

/// Half-width, in contour bins, of the window searched for pitch bends.
pub const N_BINS_TOLERANCE: usize = 25;

/// The contour bins searched for the pitch bends of a note, and the part of
/// the Gaussian weighting window that lines up with them.
#[derive(Clone, Copy, Debug, PartialEq, Eq, Structural)]
pub struct BendWindow {
    /// First contour bin searched.
    pub freq_start: usize,
    /// One past the last contour bin searched.
    pub freq_end: usize,
    /// First index into the Gaussian window of length `2 * N_BINS_TOLERANCE + 1`.
    pub gauss_lo: usize,
    /// One past the last index into the Gaussian window.
    pub gauss_hi: usize,
    /// Offset subtracted from the index of the weighted maximum to give the bend.
    pub shift: usize,
}

/// The contour bin of a MIDI pitch: three bins per semitone from A0 (MIDI 21).
pub open spec fn contour_bin(midi: int) -> int {
    CONTOURS_BINS_PER_SEMITONE * (midi - MIDI_OFFSET)
}

/// The window of contour bins within `N_BINS_TOLERANCE` of the note's own bin,
/// clipped to the contour range, with the matching slice of the Gaussian window.
pub fn bend_window(midi: u8) -> (w: BendWindow)
    requires
        MIDI_OFFSET <= midi,
        contour_bin(midi as int) <= N_FREQ_BINS_CONTOURS + N_BINS_TOLERANCE,
    ensures
        ({
            let c = contour_bin(midi as int);
            &&& w.freq_start == if c >= N_BINS_TOLERANCE { c - N_BINS_TOLERANCE } else { 0 }
            &&& w.freq_end == if c + N_BINS_TOLERANCE + 1 <= N_FREQ_BINS_CONTOURS { c + N_BINS_TOLERANCE + 1 } else { N_FREQ_BINS_CONTOURS as int }
            &&& w.gauss_lo == w.freq_start - (c - N_BINS_TOLERANCE)
            &&& w.gauss_hi == w.freq_end - (c - N_BINS_TOLERANCE)
            &&& w.shift == N_BINS_TOLERANCE - w.gauss_lo
        }),
        w.freq_start <= w.freq_end <= N_FREQ_BINS_CONTOURS,
        w.gauss_lo <= w.gauss_hi <= 2 * N_BINS_TOLERANCE + 1,
        contour_bin(midi as int) < N_FREQ_BINS_CONTOURS ==> w.freq_start <= contour_bin(midi as int) < w.freq_end,
        w.freq_end - w.freq_start == w.gauss_hi - w.gauss_lo,
{
    let c = CONTOURS_BINS_PER_SEMITONE * ((midi - MIDI_OFFSET) as usize);
    let freq_start = if c >= N_BINS_TOLERANCE { c - N_BINS_TOLERANCE } else { 0 };
    let freq_end = if c + N_BINS_TOLERANCE + 1 <= N_FREQ_BINS_CONTOURS {
        c + N_BINS_TOLERANCE + 1
    } else {
        N_FREQ_BINS_CONTOURS
    };
    let gauss_lo = if N_BINS_TOLERANCE >= c { N_BINS_TOLERANCE - c } else { 0 };
    let over = if c + N_BINS_TOLERANCE + 1 > N_FREQ_BINS_CONTOURS { c + N_BINS_TOLERANCE + 1 - N_FREQ_BINS_CONTOURS } else { 0 };
    let gauss_hi = 2 * N_BINS_TOLERANCE + 1 - over;
    BendWindow { freq_start, freq_end, gauss_lo, gauss_hi, shift: N_BINS_TOLERANCE - gauss_lo }
}

/// MIDI number of frequency bin 0 of the note posteriorgram (A0).
pub const MIDI_OFFSET: u8 = 21;

/// A detected note: frames `start_frame..end_frame` at pitch `midi`.
#[derive(Clone, Copy, Debug, PartialEq, Eq, Structural)]
pub struct NoteEvent {
    pub start_frame: usize,
    pub end_frame: usize,
    pub midi: u8,
}

/// The note of frames `start..end` at frequency bin `f`.
pub open spec fn event_of(start: int, end: int, f: int) -> NoteEvent {
    NoteEvent { start_frame: start as usize, end_frame: end as usize, midi: (f + MIDI_OFFSET) as u8 }
}

fn make_event(start: usize, end: usize, freq_idx: usize) -> (e: NoteEvent)
    requires
        freq_idx + MIDI_OFFSET <= u8::MAX,
    ensures
        e == event_of(start as int, end as int, freq_idx as int),
{
    NoteEvent { start_frame: start, end_frame: end, midi: freq_idx as u8 + MIDI_OFFSET }
}

/// `g` has a first maximal cell.
pub open spec fn has_max(g: Seq<Seq<i64>>) -> bool {
    exists|t: int, f: int| is_first_max_2d(g, t, f)
}

/// The first maximal cell of `g` (meaningful when `has_max(g)`).
pub open spec fn grid_argmax(g: Seq<Seq<i64>>) -> (int, int) {
    choose|t: int, f: int| is_first_max_2d(g, t, f)
}

/// The sweep goes on while the largest cell of the grid is above `thr`.
pub open spec fn sweep_continues(g: Seq<Seq<i64>>, thr: i64) -> bool {
    has_max(g) && g[grid_argmax(g).0][grid_argmax(g).1] > thr
}

/// One step of the sweep: consume the note through the grid's largest cell.
/// The cell is zeroed, then the band around its bin is zeroed forward and
/// backward until `ENERGY_TOL` below-threshold frames in a row. Returns the
/// grid after the step and the note, kept when longer than `min_len` frames.
pub open spec fn sweep_step(g: Seq<Seq<i64>>, thr: i64, min_len: int) -> (Seq<Seq<i64>>, Seq<NoteEvent>) {
    let t = grid_argmax(g).0;
    let f = grid_argmax(g).1;
    let g1 = g.update(t, g[t].update(f, 0));
    let end = sweep_note_end(g1, t, f, thr);
    let g2 = zero_bands(g1, t + 1, fwd_walk(g1, f, thr, t + 1, 0).0, f);
    let start = sweep_note_start(g2, t, f, thr);
    let g3 = zero_bands(g2, bwd_walk(g2, f, thr, t, 0).0, t, f);
    (g3, if end <= start || end - start <= min_len { seq![] } else { seq![event_of(start, end, f)] })
}

/// The notes found by sweeping the grid by global maximum until no cell is above `thr`.
pub open spec fn sweep(g: Seq<Seq<i64>>, thr: i64, min_len: int) -> Seq<NoteEvent>
    decreases count_above(g, thr),
    when thr >= 0
    via sweep_decreases
{
    if sweep_continues(g, thr) {
        sweep_step(g, thr, min_len).1 + sweep(sweep_step(g, thr, min_len).0, thr, min_len)
    } else {
        seq![]
    }
}

/// A sweep step strictly lowers the number of cells above a non-negative threshold.
pub proof fn lemma_sweep_step_decreases(g: Seq<Seq<i64>>, thr: i64, min_len: int)
    requires
        thr >= 0,
        sweep_continues(g, thr),
    ensures
        lowered(sweep_step(g, thr, min_len).0, g, thr),
        count_above(sweep_step(g, thr, min_len).0, thr) < count_above(g, thr),
{
    let t = grid_argmax(g).0;
    let f = grid_argmax(g).1;
    assert(is_first_max_2d(g, t, f));
    let g1 = g.update(t, g[t].update(f, 0));
    let g2 = zero_bands(g1, t + 1, fwd_walk(g1, f, thr, t + 1, 0).0, f);
    let g3 = zero_bands(g2, bwd_walk(g2, f, thr, t, 0).0, t, f);
    assert forall|t1: int, c: int| #[trigger] is_cell(g, t1, c) && g1[t1][c] > thr implies g[t1][c] > thr by {
        if t1 == t && c == f {
        }
    }
    assert(lowered(g1, g, thr));
    lemma_zero_bands_lowered(g1, t + 1, fwd_walk(g1, f, thr, t + 1, 0).0, f, thr);
    lemma_zero_bands_lowered(g2, bwd_walk(g2, f, thr, t, 0).0, t, f, thr);
    lemma_lowered_trans(g3, g2, g1, thr);
    lemma_lowered_trans(g3, g1, g, thr);
    assert(g3[t][f] == 0);
    lemma_count_above_mono(g3, g, thr, t, f);
}

#[via_fn]
proof fn sweep_decreases(g: Seq<Seq<i64>>, thr: i64, min_len: int) {
    if sweep_continues(g, thr) {
        lemma_sweep_step_decreases(g, thr, min_len);
    }
}

proof fn lemma_all_below_same(g: Seq<Seq<i64>>, h: Seq<Seq<i64>>, f: int, thr: i64, a: int, b: int)
    requires
        forall|j: int| a <= j < b ==> #[trigger] g[j] == h[j],
    ensures
        all_below(g, f, thr, a, b) == all_below(h, f, thr, a, b),
{
    if all_below(g, f, thr, a, b) {
        assert forall|j: int| a <= j < b implies #[trigger] h[j][f] < thr by {
            assert(g[j] == h[j]);
            assert(g[j][f] < thr);
        }
    }
    if all_below(h, f, thr, a, b) {
        assert forall|j: int| a <= j < b implies #[trigger] g[j][f] < thr by {
            assert(g[j] == h[j]);
            assert(h[j][f] < thr);
        }
    }
}

/// The note that a sweep step keeps spans the frames around its seed, the
/// grid's largest cell at frame `t` of bin `f`, that are not cut off by
/// `ENERGY_TOL` below-threshold frames in a row, read on the grid the step
/// starts from: its first frame `s` and last frame `d` are at or above the
/// threshold (unless they are the seed), `s` follows `ENERGY_TOL`
/// below-threshold frames (or only such frames back to frame 0), `d` is
/// followed by `ENERGY_TOL` below-threshold frames (or only such frames up to
/// the second-to-last frame), and no run of `ENERGY_TOL` below-threshold frames
/// lies inside `s..=d`.
pub proof fn lemma_sweep_event_span(g: Seq<Seq<i64>>, thr: i64, min_len: int)
    requires
        sweep_continues(g, thr),
        g.len() <= usize::MAX,
    ensures
        ({
            let t = grid_argmax(g).0;
            let f = grid_argmax(g).1;
            let n = g.len() as int;
            let notes = sweep_step(g, thr, min_len).1;
            forall|i: int|
                0 <= i < notes.len() ==> {
                    let s = (#[trigger] notes[i]).start_frame as int;
                    let d = notes[i].end_frame as int;
                    &&& s <= t <= d < n
                    &&& s < t ==> !(g[s][f] < thr)
                    &&& (s >= ENERGY_TOL && all_below(g, f, thr, s - ENERGY_TOL, s)) || (s
                        < ENERGY_TOL && all_below(g, f, thr, 0, s))
                    &&& forall|e: int|
                        s <= e && e + ENERGY_TOL <= t ==> !#[trigger] all_below(
                            g,
                            f,
                            thr,
                            e,
                            e + ENERGY_TOL,
                        )
                    &&& d > t ==> !(g[d][f] < thr)
                    &&& (d + 1 + ENERGY_TOL < n - 1 && all_below(g, f, thr, d + 1, d + 1 + ENERGY_TOL))
                        || (d + 1 + ENERGY_TOL >= n - 1 && all_below(g, f, thr, d + 1, n - 1))
                    &&& forall|e: int|
                        t < e && e + ENERGY_TOL <= d + 1 ==> !#[trigger] all_below(
                            g,
                            f,
                            thr,
                            e,
                            e + ENERGY_TOL,
                        )
                }
        }),
{
    let t = grid_argmax(g).0;
    let f = grid_argmax(g).1;
    assert(is_first_max_2d(g, t, f));
    let n = g.len() as int;
    let g1 = g.update(t, g[t].update(f, 0));
    let end = sweep_note_end(g1, t, f, thr);
    let hi = fwd_walk(g1, f, thr, t + 1, 0).0;
    let g2 = zero_bands(g1, t + 1, hi, f);
    let start = sweep_note_start(g2, t, f, thr);
    lemma_sweep_note_end(g1, f, thr, t);
    lemma_sweep_note_start(g2, f, thr, t);
    assert forall|j: int| t < j < n implies #[trigger] g1[j] == g[j] by {}
    assert forall|j: int| 0 <= j < t implies #[trigger] g2[j] == g[j] by {}
    let notes = sweep_step(g, thr, min_len).1;
    if notes.len() > 0 {
        assert(notes[0] == event_of(start, end, f));
        let s = start;
        let d = end;
        assert(s == notes[0].start_frame as int);
        assert(d == notes[0].end_frame as int);
        if s < t {
            assert(g2[s] == g[s]);
        }
        if s >= ENERGY_TOL {
            lemma_all_below_same(g2, g, f, thr, s - ENERGY_TOL, s);
        }
        lemma_all_below_same(g2, g, f, thr, 0, s);
        assert forall|e: int| s <= e && e + ENERGY_TOL <= t implies !#[trigger] all_below(
            g,
            f,
            thr,
            e,
            e + ENERGY_TOL,
        ) by {
            lemma_all_below_same(g2, g, f, thr, e, e + ENERGY_TOL);
        }
        if d > t {
            assert(g1[d] == g[d]);
        }
        if d + 1 + ENERGY_TOL < n - 1 {
            lemma_all_below_same(g1, g, f, thr, d + 1, d + 1 + ENERGY_TOL);
        } else {
            lemma_all_below_same(g1, g, f, thr, d + 1, n - 1);
        }
        assert forall|e: int| t < e && e + ENERGY_TOL <= d + 1 implies !#[trigger] all_below(
            g,
            f,
            thr,
            e,
            e + ENERGY_TOL,
        ) by {
            lemma_all_below_same(g1, g, f, thr, e, e + ENERGY_TOL);
        }
    }
}

/// Sweeps the remaining energy by global maximum: each cell above `frame_thresh`
/// seeds a note that extends both ways until `ENERGY_TOL` below-threshold frames
/// in a row; notes longer than `min_note_len` frames are appended to `events`.
fn melodia_sweep(
    events: &mut Vec<NoteEvent>,
    remaining: &mut Vec<Vec<i64>>,
    frame_thresh: i64,
    min_note_len: usize,
    n_freqs: usize,
)
    requires
        frame_thresh >= 0,
        n_freqs + MIDI_OFFSET <= u8::MAX,
        is_rect(gv(old(remaining)), n_freqs as int),
    ensures
        final(events)@ == old(events)@ + sweep(gv(old(remaining)), frame_thresh, min_note_len as int),
        lowered(gv(final(remaining)), gv(old(remaining)), frame_thresh),
        !sweep_continues(gv(final(remaining)), frame_thresh),
{
    let ghost g0 = gv(remaining);
    let ghost e0 = events@;
    proof {
        assert forall|t: int, c: int| #[trigger] is_cell(g0, t, c) && g0[t][c] > frame_thresh implies g0[t][c] > frame_thresh by {}
    }
    loop
        invariant
            frame_thresh >= 0,
            n_freqs + MIDI_OFFSET <= u8::MAX,
            is_rect(gv(remaining), n_freqs as int),
            lowered(gv(remaining), g0, frame_thresh),
            events@ + sweep(gv(remaining), frame_thresh, min_note_len as int) == e0 + sweep(
                g0,
                frame_thresh,
                min_note_len as int,
            ),
        ensures
            events@ == e0 + sweep(g0, frame_thresh, min_note_len as int),
            lowered(gv(remaining), g0, frame_thresh),
            !sweep_continues(gv(remaining), frame_thresh),
        decreases count_above(gv(remaining), frame_thresh),
    {
        let ghost g = gv(remaining);
        let found = argmax_2d(remaining);
        match found {
            None => {
                proof {
                    if has_max(g) {
                        let (t, f) = choose|t: int, f: int| is_first_max_2d(g, t, f);
                        assert(is_cell(g, t, f));
                    }
                    assert(sweep(g, frame_thresh, min_note_len as int) == Seq::<NoteEvent>::empty());
                    assert(events@ + sweep(g, frame_thresh, min_note_len as int) =~= events@);
                }
                break;
            },
            Some((i_mid, freq_idx, value)) => {
                proof {
                    assert(has_max(g));
                    let (t, f) = grid_argmax(g);
                    lemma_first_max_2d_unique(g, t, f, i_mid as int, freq_idx as int);
                }
                if value <= frame_thresh {
                    proof {
                        assert(sweep(g, frame_thresh, min_note_len as int) == Seq::<NoteEvent>::empty());
                        assert(events@ + sweep(g, frame_thresh, min_note_len as int) =~= events@);
                    }
                    break;
                }
                proof {
                    lemma_sweep_step_decreases(g, frame_thresh, min_note_len as int);
                    lemma_lowered_trans(sweep_step(g, frame_thresh, min_note_len as int).0, g, g0, frame_thresh);
                }
                assert(g[i_mid as int].len() == n_freqs);
                remaining[i_mid][freq_idx] = 0;
                let ghost g1 = gv(remaining);
                assert(g1 =~= g.update(i_mid as int, g[i_mid as int].update(freq_idx as int, 0)));
                proof {
                    assert forall|t: int| 0 <= t < g1.len() implies #[trigger] g1[t].len() == n_freqs by {
                        assert(g[t].len() == n_freqs);
                    }
                }
                let end = walk_forward_consume(remaining, i_mid, freq_idx, frame_thresh, n_freqs);
                let ghost g2 = gv(remaining);
                proof {
                    assert forall|t: int| 0 <= t < g2.len() implies #[trigger] g2[t].len() == n_freqs by {
                        assert(g1[t].len() == n_freqs);
                    }
                }
                let start = walk_backward_consume(remaining, i_mid, freq_idx, frame_thresh, n_freqs);
                proof {
                    let g3 = gv(remaining);
                    assert(g3 == sweep_step(g, frame_thresh, min_note_len as int).0);
                    assert forall|t: int| 0 <= t < g3.len() implies #[trigger] g3[t].len() == n_freqs by {
                        assert(g2[t].len() == n_freqs);
                    }
                }
                if end <= start || end - start <= min_note_len {
                    proof {
                        assert(sweep_step(g, frame_thresh, min_note_len as int).1 =~= Seq::<NoteEvent>::empty());
                        assert(events@ + sweep(g, frame_thresh, min_note_len as int) =~= events@ + sweep(gv(remaining), frame_thresh, min_note_len as int));
                    }
                    continue;
                }
                let ghost before = events@;
                events.push(make_event(start, end, freq_idx));
                proof {
                    let st = sweep_step(g, frame_thresh, min_note_len as int);
                    assert(st.1 =~= seq![event_of(start as int, end as int, freq_idx as int)]);
                    assert(before + sweep(g, frame_thresh, min_note_len as int) =~= events@ + sweep(gv(remaining), frame_thresh, min_note_len as int));
                }
            },
        }
    }
}

/// Frame `t` is a strict local maximum in time of bin `f`.
pub open spec fn is_peak(g: Seq<Seq<i64>>, t: int, f: int) -> bool {
    g[t][f] > g[t - 1][f] && g[t][f] > g[t + 1][f]
}

/// The peaks of row `t` at bins `f..cols`, in bin order.
pub open spec fn row_peaks(g: Seq<Seq<i64>>, t: int, f: int, cols: int) -> Seq<(usize, usize)>
    decreases cols - f,
{
    if f >= cols {
        seq![]
    } else {
        (if is_peak(g, t, f) { seq![(t as usize, f as usize)] } else { seq![] }) + row_peaks(g, t, f + 1, cols)
    }
}

/// The peaks of rows `t..g.len() - 1`, in row-major order.
pub open spec fn peaks_from(g: Seq<Seq<i64>>, t: int, cols: int) -> Seq<(usize, usize)>
    decreases g.len() - t,
{
    if t >= g.len() - 1 {
        seq![]
    } else {
        row_peaks(g, t, 0, cols) + peaks_from(g, t + 1, cols)
    }
}

/// All strict local maxima along the time axis, in row-major order.
pub open spec fn local_maxima(g: Seq<Seq<i64>>) -> Seq<(usize, usize)> {
    if g.len() < 3 {
        seq![]
    } else {
        peaks_from(g, 1, g[0].len() as int)
    }
}

/// The cells `(t, f)` with `data[t - 1][f] < data[t][f] > data[t + 1][f]`, in
/// row-major order (the first and last frames are never peaks).
pub fn argrelmax_axis0(data: &Vec<Vec<i64>>) -> (peaks: Vec<(usize, usize)>)
    requires
        data@.len() >= 1 ==> is_rect(gv(data), data@[0]@.len() as int),
    ensures
        peaks@ == local_maxima(gv(data)),
        forall|i: int| 0 <= i < peaks@.len() ==> {
            let p = #[trigger] peaks@[i];
            &&& 1 <= p.0 < data@.len() - 1
            &&& p.1 < data@[0]@.len()
            &&& is_peak(gv(data), p.0 as int, p.1 as int)
        },
{
    let ghost g = gv(data);
    let n = data.len();
    if n < 3 {
        return Vec::new();
    }
    let n_freqs = data[0].len();
    let ghost cols = n_freqs as int;
    assert(g[0] == data@[0]@);
    let mut peaks: Vec<(usize, usize)> = Vec::new();
    let mut t: usize = 1;
    assert(peaks@ + peaks_from(g, 1, cols) =~= local_maxima(g));
    while t < n - 1
        invariant
            g == gv(data),
            n == g.len(),
            n >= 3,
            1 <= t <= n - 1,
            cols == n_freqs,
            is_rect(g, cols),
            peaks@ + peaks_from(g, t as int, cols) == local_maxima(g),
        decreases n - t,
    {
        let mut f: usize = 0;
        assert(peaks@ + row_peaks(g, t as int, 0, cols) + peaks_from(g, t + 1, cols) =~= local_maxima(g));
        while f < n_freqs
            invariant
                g == gv(data),
                n == g.len(),
                1 <= t < n - 1,
                f <= n_freqs,
                cols == n_freqs,
                is_rect(g, cols),
                peaks@ + row_peaks(g, t as int, f as int, cols) + peaks_from(g, t + 1, cols) == local_maxima(g),
            decreases n_freqs - f,
        {
            assert(g[t as int].len() == cols && g[t - 1].len() == cols && g[t + 1].len() == cols);
            assert(data@[t as int]@ == g[t as int]);
            assert(data@[t - 1]@ == g[t - 1]);
            assert(data@[t + 1]@ == g[t + 1]);
            let v = data[t][f];
            let ghost before = peaks@;
            if v > data[t - 1][f] && v > data[t + 1][f] {
                peaks.push((t, f));
                assert(before + row_peaks(g, t as int, f as int, cols) =~= peaks@ + row_peaks(g, t as int, f + 1, cols));
            } else {
                assert(before + row_peaks(g, t as int, f as int, cols) =~= peaks@ + row_peaks(g, t as int, f + 1, cols));
            }
            f += 1;
        }
        assert(row_peaks(g, t as int, f as int, cols) =~= Seq::<(usize, usize)>::empty());
        assert(peaks@ + row_peaks(g, t as int, f as int, cols) + peaks_from(g, t + 1, cols) =~= peaks@ + peaks_from(g, t + 1, cols));
        t += 1;
    }
    assert(peaks_from(g, t as int, cols) =~= Seq::<(usize, usize)>::empty());
    assert(peaks@ + peaks_from(g, t as int, cols) =~= peaks@);
    proof {
        lemma_local_maxima_cells(g, cols);
        assert forall|i: int| 0 <= i < peaks@.len() implies {
            let p = #[trigger] peaks@[i];
            &&& 1 <= p.0 < data@.len() - 1
            &&& p.1 < data@[0]@.len()
            &&& is_peak(gv(data), p.0 as int, p.1 as int)
        } by {
            assert(peaks@[i] == local_maxima(g)[i]);
        }
    }
    peaks
}

/// The peaks of `ps` whose cell in `c` is at least `thr`, in order.
pub open spec fn at_least(ps: Seq<(usize, usize)>, c: Seq<Seq<i64>>, thr: i64) -> Seq<(usize, usize)>
    decreases ps.len(),
{
    if ps.len() == 0 {
        seq![]
    } else {
        (if c[ps[0].0 as int][ps[0].1 as int] >= thr { seq![ps[0]] } else { seq![] }) + at_least(ps.drop_first(), c, thr)
    }
}

/// Handles the onset peak `p`: when its note, found by the forward scan, is
/// longer than `min_len` frames, the note's band is zeroed and the note kept.
pub open spec fn onset_step(g: Seq<Seq<i64>>, p: (usize, usize), thr: i64, min_len: int) -> (Seq<Seq<i64>>, Seq<NoteEvent>) {
    let start = p.0 as int;
    let f = p.1 as int;
    if start >= g.len() - 1 {
        (g, seq![])
    } else if onset_note_end(g, start, f, thr) - start <= min_len {
        (g, seq![])
    } else {
        (zero_bands(g, start, onset_note_end(g, start, f, thr), f), seq![event_of(start, onset_note_end(g, start, f, thr), f)])
    }
}

/// Handles the peaks `ps[n - 1], ps[n - 2], ..., ps[0]` in turn: the grid
/// left afterwards and the notes found.
pub open spec fn onset_phase(g: Seq<Seq<i64>>, ps: Seq<(usize, usize)>, thr: i64, min_len: int, n: int) -> (Seq<Seq<i64>>, Seq<NoteEvent>)
    decreases n,
{
    if n <= 0 {
        (g, seq![])
    } else {
        let st = onset_step(g, ps[n - 1], thr, min_len);
        let rest = onset_phase(st.0, ps, thr, min_len, n - 1);
        (rest.0, st.1 + rest.1)
    }
}

/// The notes of a note posteriorgram `note` with combined onsets `comb`: first
/// one note per onset peak at least `onset_thr`, latest peaks first, then the
/// notes of the sweep over the energy those notes left.
pub open spec fn polyphonic_notes(
    note: Seq<Seq<i64>>,
    comb: Seq<Seq<i64>>,
    onset_thr: i64,
    frame_thr: i64,
    min_len: int,
) -> Seq<NoteEvent> {
    let ps = at_least(local_maxima(comb), comb, onset_thr);
    let ph = onset_phase(note, ps, frame_thr, min_len, ps.len() as int);
    ph.1 + sweep(ph.0, frame_thr, min_len)
}

/// A well-formed note of a grid of `n` frames and `cols` bins.
pub open spec fn event_ok(e: NoteEvent, n: int, cols: int, min_len: int) -> bool {
    &&& e.start_frame < e.end_frame <= n
    &&& e.end_frame - e.start_frame > min_len
    &&& MIDI_OFFSET <= e.midi < MIDI_OFFSET + cols
}

/// The peaks of `peaks` whose cell in `combined` is at least `onset_thresh`.
fn peaks_at_least(peaks: &Vec<(usize, usize)>, combined: &Vec<Vec<i64>>, onset_thresh: i64) -> (kept: Vec<(usize, usize)>)
    requires
        forall|i: int| 0 <= i < peaks@.len() ==> #[trigger] is_cell(gv(combined), peaks@[i].0 as int, peaks@[i].1 as int),
    ensures
        kept@ == at_least(peaks@, gv(combined), onset_thresh),
{
    let ghost c = gv(combined);
    let mut kept: Vec<(usize, usize)> = Vec::new();
    let mut i: usize = 0;
    assert(peaks@.skip(0) =~= peaks@);
    while i < peaks.len()
        invariant
            c == gv(combined),
            combined@.len() == c.len(),
            i <= peaks@.len(),
            forall|j: int| 0 <= j < peaks@.len() ==> #[trigger] is_cell(c, peaks@[j].0 as int, peaks@[j].1 as int),
            kept@ + at_least(peaks@.skip(i as int), c, onset_thresh) == at_least(peaks@, c, onset_thresh),
        decreases peaks@.len() - i,
    {
        let (t, f) = peaks[i];
        assert(is_cell(c, t as int, f as int));
        assert(combined@[t as int]@ == c[t as int]);
        let ghost before = kept@;
        let ghost rest = peaks@.skip(i as int);
        assert(rest[0] == (t, f));
        assert(rest.drop_first() =~= peaks@.skip(i + 1));
        if combined[t][f] >= onset_thresh {
            kept.push((t, f));
        }
        assert(before + at_least(rest, c, onset_thresh) =~= kept@ + at_least(peaks@.skip(i + 1), c, onset_thresh));
        i += 1;
    }
    assert(at_least(peaks@.skip(i as int), c, onset_thresh) =~= Seq::<(usize, usize)>::empty());
    assert(kept@ + at_least(peaks@.skip(i as int), c, onset_thresh) =~= kept@);
    kept
}

proof fn lemma_row_peaks_cells(g: Seq<Seq<i64>>, t: int, f: int, cols: int)
    requires
        0 <= f,
        1 <= t < g.len() - 1,
        is_rect(g, cols),
        g.len() <= usize::MAX,
        cols <= usize::MAX,
    ensures
        forall|i: int| 0 <= i < row_peaks(g, t, f, cols).len() ==> {
            let p = #[trigger] row_peaks(g, t, f, cols)[i];
            &&& 1 <= p.0 < g.len() - 1
            &&& p.1 < cols
            &&& is_peak(g, p.0 as int, p.1 as int)
        },
    decreases cols - f,
{
    if f < cols {
        lemma_row_peaks_cells(g, t, f + 1, cols);
        let head: Seq<(usize, usize)> = if is_peak(g, t, f) { seq![(t as usize, f as usize)] } else { seq![] };
        let tail = row_peaks(g, t, f + 1, cols);
        assert(row_peaks(g, t, f, cols) == head + tail);
        assert forall|i: int| 0 <= i < row_peaks(g, t, f, cols).len() implies {
            let p = #[trigger] row_peaks(g, t, f, cols)[i];
            &&& 1 <= p.0 < g.len() - 1
            &&& p.1 < cols
            &&& is_peak(g, p.0 as int, p.1 as int)
        } by {
            if i >= head.len() {
                assert(row_peaks(g, t, f, cols)[i] == tail[i - head.len()]);
            }
        }
    }
}

proof fn lemma_peaks_from_cells(g: Seq<Seq<i64>>, t: int, cols: int)
    requires
        1 <= t,
        is_rect(g, cols),
        g.len() <= usize::MAX,
        cols <= usize::MAX,
    ensures
        forall|i: int| 0 <= i < peaks_from(g, t, cols).len() ==> {
            let p = #[trigger] peaks_from(g, t, cols)[i];
            &&& 1 <= p.0 < g.len() - 1
            &&& p.1 < cols
            &&& is_peak(g, p.0 as int, p.1 as int)
        },
    decreases g.len() - t,
{
    if t < g.len() - 1 {
        lemma_row_peaks_cells(g, t, 0, cols);
        lemma_peaks_from_cells(g, t + 1, cols);
        let a = row_peaks(g, t, 0, cols);
        let b = peaks_from(g, t + 1, cols);
        assert forall|i: int| 0 <= i < peaks_from(g, t, cols).len() implies {
            let p = #[trigger] peaks_from(g, t, cols)[i];
            &&& 1 <= p.0 < g.len() - 1
            &&& p.1 < cols
            &&& is_peak(g, p.0 as int, p.1 as int)
        } by {
            if i < a.len() {
                assert(peaks_from(g, t, cols)[i] == a[i]);
            } else {
                assert(peaks_from(g, t, cols)[i] == b[i - a.len()]);
            }
        }
    }
}

/// Every local maximum is an interior cell of the grid, and a strict local
/// maximum in time of its bin.
pub proof fn lemma_local_maxima_cells(g: Seq<Seq<i64>>, cols: int)
    requires
        g.len() >= 1,
        is_rect(g, cols),
        g.len() <= usize::MAX,
        cols <= usize::MAX,
    ensures
        forall|i: int| 0 <= i < local_maxima(g).len() ==> {
            let p = #[trigger] local_maxima(g)[i];
            &&& 1 <= p.0 < g.len() - 1
            &&& p.1 < cols
            &&& is_peak(g, p.0 as int, p.1 as int)
        },
{
    if g.len() >= 3 {
        assert(g[0].len() == cols);
        lemma_peaks_from_cells(g, 1, cols);
    }
}

/// Filtering keeps only elements of the input.
pub proof fn lemma_at_least_subset(ps: Seq<(usize, usize)>, c: Seq<Seq<i64>>, thr: i64)
    ensures
        forall|i: int| 0 <= i < at_least(ps, c, thr).len() ==> ps.contains(#[trigger] at_least(ps, c, thr)[i]),
    decreases ps.len(),
{
    if ps.len() > 0 {
        lemma_at_least_subset(ps.drop_first(), c, thr);
        let head: Seq<(usize, usize)> = if c[ps[0].0 as int][ps[0].1 as int] >= thr { seq![ps[0]] } else { seq![] };
        let tail = at_least(ps.drop_first(), c, thr);
        assert forall|i: int| 0 <= i < at_least(ps, c, thr).len() implies ps.contains(#[trigger] at_least(ps, c, thr)[i]) by {
            if i < head.len() {
                assert(ps[0] == at_least(ps, c, thr)[i]);
            } else {
                assert(at_least(ps, c, thr)[i] == tail[i - head.len()]);
                let k = choose|k: int| 0 <= k < ps.drop_first().len() && ps.drop_first()[k] == tail[i - head.len()];
                assert(ps[k + 1] == ps.drop_first()[k]);
            }
        }
    }
}

/// Each onset note is well formed, and the grid keeps its shape.
pub proof fn lemma_onset_phase_ok(g: Seq<Seq<i64>>, ps: Seq<(usize, usize)>, thr: i64, min_len: int, n: int, cols: int)
    requires
        g.len() >= 1,
        g.len() <= usize::MAX,
        is_rect(g, cols),
        cols + MIDI_OFFSET <= u8::MAX,
        min_len >= 0,
        n <= ps.len(),
        forall|i: int| 0 <= i < ps.len() ==> #[trigger] ps[i].1 < cols,
    ensures
        onset_phase(g, ps, thr, min_len, n).0.len() == g.len(),
        is_rect(onset_phase(g, ps, thr, min_len, n).0, cols),
        forall|i: int| 0 <= i < onset_phase(g, ps, thr, min_len, n).1.len()
            ==> event_ok(#[trigger] onset_phase(g, ps, thr, min_len, n).1[i], g.len() as int, cols, min_len),
    decreases n,
{
    if n > 0 {
        let p = ps[n - 1];
        let st = onset_step(g, p, thr, min_len);
        let start = p.0 as int;
        let f = p.1 as int;
        if start < g.len() - 1 {
            lemma_fwd_walk_bounds(g, f, thr, start + 1, 0);
        }
        assert forall|t: int| 0 <= t < st.0.len() implies #[trigger] st.0[t].len() == cols by {
            assert(g[t].len() == cols);
        }
        lemma_onset_phase_ok(st.0, ps, thr, min_len, n - 1, cols);
        let rest = onset_phase(st.0, ps, thr, min_len, n - 1);
        assert forall|i: int| 0 <= i < onset_phase(g, ps, thr, min_len, n).1.len()
            implies event_ok(#[trigger] onset_phase(g, ps, thr, min_len, n).1[i], g.len() as int, cols, min_len) by {
            if i < st.1.len() {
                assert(onset_phase(g, ps, thr, min_len, n).1[i] == st.1[i]);
            } else {
                assert(onset_phase(g, ps, thr, min_len, n).1[i] == rest.1[i - st.1.len()]);
            }
        }
    }
}

/// Each note of the sweep is well formed.
pub proof fn lemma_sweep_ok(g: Seq<Seq<i64>>, thr: i64, min_len: int, cols: int)
    requires
        thr >= 0,
        g.len() >= 1,
        g.len() <= usize::MAX,
        is_rect(g, cols),
        cols + MIDI_OFFSET <= u8::MAX,
        min_len >= 0,
    ensures
        forall|i: int| 0 <= i < sweep(g, thr, min_len).len()
            ==> event_ok(#[trigger] sweep(g, thr, min_len)[i], g.len() as int, cols, min_len),
    decreases count_above(g, thr),
{
    if sweep_continues(g, thr) {
        lemma_sweep_step_decreases(g, thr, min_len);
        let t = grid_argmax(g).0;
        let f = grid_argmax(g).1;
        assert(is_first_max_2d(g, t, f));
        assert(g[t].len() == cols);
        let g1 = g.update(t, g[t].update(f, 0));
        lemma_fwd_walk_bounds(g1, f, thr, t + 1, 0);
        let g2 = zero_bands(g1, t + 1, fwd_walk(g1, f, thr, t + 1, 0).0, f);
        lemma_bwd_walk_bounds(g2, f, thr, t, 0);
        let st = sweep_step(g, thr, min_len);
        assert forall|t1: int| 0 <= t1 < st.0.len() implies #[trigger] st.0[t1].len() == cols by {
            assert(g[t1].len() == cols);
        }
        lemma_sweep_ok(st.0, thr, min_len, cols);
        let rest = sweep(st.0, thr, min_len);
        assert(sweep(g, thr, min_len) == st.1 + rest);
        assert forall|i: int| 0 <= i < sweep(g, thr, min_len).len()
            implies event_ok(#[trigger] sweep(g, thr, min_len)[i], g.len() as int, cols, min_len) by {
            if i < st.1.len() {
                assert(sweep(g, thr, min_len)[i] == st.1[i]);
            } else {
                assert(sweep(g, thr, min_len)[i] == rest[i - st.1.len()]);
            }
        }
    }
}

/// Every detected note lies within the grid, is longer than `min_len`
/// frames, and has the pitch of a bin of the grid.
pub proof fn lemma_polyphonic_notes_ok(
    note: Seq<Seq<i64>>,
    comb: Seq<Seq<i64>>,
    onset_thr: i64,
    frame_thr: i64,
    min_len: int,
    cols: int,
)
    requires
        note.len() >= 1,
        note.len() <= usize::MAX,
        cols <= usize::MAX,
        is_rect(note, cols),
        comb.len() == note.len(),
        is_rect(comb, cols),
        cols + MIDI_OFFSET <= u8::MAX,
        frame_thr >= 0,
        min_len >= 0,
    ensures
        forall|i: int| 0 <= i < polyphonic_notes(note, comb, onset_thr, frame_thr, min_len).len()
            ==> event_ok(#[trigger] polyphonic_notes(note, comb, onset_thr, frame_thr, min_len)[i], note.len() as int, cols, min_len),
{
    let ps = at_least(local_maxima(comb), comb, onset_thr);
    lemma_local_maxima_cells(comb, cols);
    lemma_at_least_subset(local_maxima(comb), comb, onset_thr);
    assert forall|i: int| 0 <= i < ps.len() implies #[trigger] ps[i].1 < cols by {
        let k = choose|k: int| 0 <= k < local_maxima(comb).len() && local_maxima(comb)[k] == ps[i];
        let p = local_maxima(comb)[k];
    }
    lemma_onset_phase_ok(note, ps, frame_thr, min_len, ps.len() as int, cols);
    let ph = onset_phase(note, ps, frame_thr, min_len, ps.len() as int);
    lemma_sweep_ok(ph.0, frame_thr, min_len, cols);
    let all = polyphonic_notes(note, comb, onset_thr, frame_thr, min_len);
    assert(all == ph.1 + sweep(ph.0, frame_thr, min_len));
    assert forall|i: int| 0 <= i < all.len() implies event_ok(#[trigger] all[i], note.len() as int, cols, min_len) by {
        if i < ph.1.len() {
            assert(all[i] == ph.1[i]);
        } else {
            assert(all[i] == sweep(ph.0, frame_thr, min_len)[i - ph.1.len()]);
        }
    }
}

/// Polyphonic note detection: one note per onset peak (a strict local maximum in
/// time of `combined_onsets` at least `onset_thresh`), latest peaks first, each
/// extending forward through `note_grid` until `ENERGY_TOL` frames in a row fall
/// below `frame_thresh`; then a sweep over the remaining energy by global
/// maximum. Only notes longer than `min_note_len` frames are kept.
pub fn output_to_notes_polyphonic(
    note_grid: &Vec<Vec<i64>>,
    combined_onsets: &Vec<Vec<i64>>,
    onset_thresh: i64,
    frame_thresh: i64,
    min_note_len: usize,
) -> (events: Vec<NoteEvent>)
    requires
        note_grid@.len() >= 1,
        is_rect(gv(note_grid), note_grid@[0]@.len() as int),
        combined_onsets@.len() == note_grid@.len(),
        is_rect(gv(combined_onsets), note_grid@[0]@.len() as int),
        note_grid@[0]@.len() + MIDI_OFFSET <= u8::MAX,
        frame_thresh >= 0,
    ensures
        events@ == polyphonic_notes(
            gv(note_grid),
            gv(combined_onsets),
            onset_thresh,
            frame_thresh,
            min_note_len as int,
        ),
        forall|i: int| 0 <= i < events@.len() ==> event_ok(
            #[trigger] events@[i],
            note_grid@.len() as int,
            note_grid@[0]@.len() as int,
            min_note_len as int,
        ),
{
    let ghost g0 = gv(note_grid);
    let ghost c = gv(combined_onsets);
    let n_frames = note_grid.len();
    let n_freqs = note_grid[0].len();
    assert(g0[0] == note_grid@[0]@);
    let mut remaining = copy_grid(note_grid);
    assert(c[0].len() == n_freqs);
    assert(c[0] == combined_onsets@[0]@);
    let peaks = argrelmax_axis0(combined_onsets);
    proof {
        lemma_local_maxima_cells(c, n_freqs as int);
        assert forall|i: int| 0 <= i < peaks@.len() implies #[trigger] is_cell(c, peaks@[i].0 as int, peaks@[i].1 as int) by {
            let p = local_maxima(c)[i];
            assert(c[p.0 as int].len() == n_freqs);
        }
    }
    let onsets = peaks_at_least(&peaks, combined_onsets, onset_thresh);
    let ghost ps = onsets@;
    proof {
        lemma_at_least_subset(peaks@, c, onset_thresh);
        assert forall|i: int| 0 <= i < ps.len() implies #[trigger] ps[i].1 < n_freqs && ps[i].0 < n_frames by {
            let k = choose|k: int| 0 <= k < peaks@.len() && peaks@[k] == ps[i];
            let p = local_maxima(c)[k];
        }
    }
    let mut events: Vec<NoteEvent> = Vec::new();
    let mut idx = onsets.len();
    while idx > 0
        invariant
            n_frames == g0.len(),
            n_frames >= 1,
            n_freqs + MIDI_OFFSET <= u8::MAX,
            ps == onsets@,
            forall|i: int| 0 <= i < ps.len() ==> #[trigger] ps[i].1 < n_freqs && ps[i].0 < n_frames,
            idx <= ps.len(),
            is_rect(gv(&remaining), n_freqs as int),
            gv(&remaining).len() == n_frames,
            onset_phase(gv(&remaining), ps, frame_thresh, min_note_len as int, idx as int).0
                == onset_phase(g0, ps, frame_thresh, min_note_len as int, ps.len() as int).0,
            events@ + onset_phase(gv(&remaining), ps, frame_thresh, min_note_len as int, idx as int).1
                == onset_phase(g0, ps, frame_thresh, min_note_len as int, ps.len() as int).1,
        decreases idx,
    {
        let ghost g = gv(&remaining);
        let (start, freq_idx) = onsets[idx - 1];
        assert(ps[idx - 1] == (start, freq_idx));
        let ghost st = onset_step(g, ps[idx - 1], frame_thresh, min_note_len as int);
        assert(onset_phase(g, ps, frame_thresh, min_note_len as int, idx as int).1
            == st.1 + onset_phase(st.0, ps, frame_thresh, min_note_len as int, idx - 1).1);
        if start >= n_frames - 1 {
            assert(events@ + onset_phase(g, ps, frame_thresh, min_note_len as int, idx as int).1 =~= events@ + onset_phase(gv(&remaining), ps, frame_thresh, min_note_len as int, idx - 1).1);
            idx -= 1;
            continue;
        }
        proof {
            assert forall|t: int| 0 <= t < remaining@.len() implies freq_idx < #[trigger] remaining@[t]@.len() by {
                assert(remaining@[t]@ == g[t]);
            }
        }
        let end = walk_forward(&remaining, start, freq_idx, frame_thresh);
        proof {
            lemma_fwd_walk_bounds(g, freq_idx as int, frame_thresh, start + 1, 0);
        }
        if end - start <= min_note_len {
            assert(events@ + onset_phase(g, ps, frame_thresh, min_note_len as int, idx as int).1 =~= events@ + onset_phase(gv(&remaining), ps, frame_thresh, min_note_len as int, idx - 1).1);
            idx -= 1;
            continue;
        }
        let mut t = start;
        while t < end
            invariant
                start <= t <= end,
                end <= n_frames,
                freq_idx < n_freqs,
                g.len() == n_frames,
                is_rect(g, n_freqs as int),
                gv(&remaining) == zero_bands(g, start as int, t as int, freq_idx as int),
            decreases end - t,
        {
            let ghost before = gv(&remaining);
            proof {
                assert forall|t1: int| 0 <= t1 < before.len() implies #[trigger] before[t1].len() == n_freqs by {
                    assert(g[t1].len() == n_freqs);
                }
            }
            zero_band_in_row(&mut remaining, t, freq_idx, n_freqs);
            assert(gv(&remaining) =~= zero_bands(g, start as int, t + 1, freq_idx as int));
            t += 1;
        }
        proof {
            assert(gv(&remaining) == st.0);
            assert forall|t1: int| 0 <= t1 < gv(&remaining).len() implies #[trigger] gv(&remaining)[t1].len() == n_freqs by {
                assert(g[t1].len() == n_freqs);
            }
        }
        let ghost before = events@;
        events.push(make_event(start, end, freq_idx));
        assert(before + onset_phase(g, ps, frame_thresh, min_note_len as int, idx as int).1 =~= events@ + onset_phase(gv(&remaining), ps, frame_thresh, min_note_len as int, idx - 1).1);
        idx -= 1;
    }
    proof {
        assert(events@ =~= events@ + onset_phase(gv(&remaining), ps, frame_thresh, min_note_len as int, 0).1);
    }
    melodia_sweep(&mut events, &mut remaining, frame_thresh, min_note_len, n_freqs);
    proof {
        lemma_polyphonic_notes_ok(g0, c, onset_thresh, frame_thresh, min_note_len as int, n_freqs as int);
        let all = polyphonic_notes(g0, c, onset_thresh, frame_thresh, min_note_len as int);
        assert(events@ == all);
        assert forall|i: int| 0 <= i < events@.len() implies event_ok(
            #[trigger] events@[i],
            note_grid@.len() as int,
            note_grid@[0]@.len() as int,
            min_note_len as int,
        ) by {
            assert(events@[i] == all[i]);
        }
    }
    events
}

} // verus!
