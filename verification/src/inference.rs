//! Windowing of long recordings for Basic Pitch: the audio is cut into
//! overlapping fixed-length windows, and the per-window outputs are trimmed at
//! the overlaps and joined back into one frame sequence.
use vstd::prelude::*;

verus! {

/// Audio sample rate the model expects.
pub const SAMPLE_RATE: u32 = 22_050;

/// Samples between output frames.
pub const HOP: usize = 256;

/// Output frames per second: `SAMPLE_RATE / HOP`, rounded down.
pub const ANNOTATIONS_FPS: u32 = 86;

/// Samples per window (about two seconds).
pub const AUDIO_N_SAMPLES: usize = 43_844;

/// Frames shared by consecutive windows.
pub const OVERLAP_FRAMES: usize = 30;

/// Samples shared by consecutive windows.
pub const OVERLAP_SAMPLES: usize = OVERLAP_FRAMES * HOP;

/// Samples between the starts of consecutive windows.
pub const HOP_SAMPLES: usize = AUDIO_N_SAMPLES - OVERLAP_SAMPLES;

/// Frames trimmed from each end of every window's output.
pub const N_OLAP_TRIM: usize = OVERLAP_FRAMES / 2;

/// Sample `x` of the audio after `OVERLAP_SAMPLES / 2` leading zeros and
/// trailing zeros without end.
pub open spec fn padded_at<T>(audio: Seq<T>, zero: T, x: int) -> T {
    if x < OVERLAP_SAMPLES / 2 {
        zero
    } else if x - OVERLAP_SAMPLES / 2 < audio.len() {
        audio[x - OVERLAP_SAMPLES / 2]
    } else {
        zero
    }
}

/// Number of windows for `len` samples: one per `HOP_SAMPLES` of the padded audio.
pub open spec fn n_windows(len: int) -> int {
    (len + OVERLAP_SAMPLES / 2 + HOP_SAMPLES - 1) / (HOP_SAMPLES as int)
}

/// Cuts `audio`, after `OVERLAP_SAMPLES / 2` leading zeros, into windows of
/// `AUDIO_N_SAMPLES` samples starting every `HOP_SAMPLES` samples while the
/// start lies within the padded audio; the last window is zero-filled.
pub fn split_windows<T: Copy>(audio: &[T], zero: T) -> (windows: Vec<Vec<T>>)
    requires
        audio@.len() + OVERLAP_SAMPLES / 2 + AUDIO_N_SAMPLES + HOP_SAMPLES <= usize::MAX,
    ensures
        windows@.len() == n_windows(audio@.len() as int),
        forall|k: int| 0 <= k < windows@.len() ==> #[trigger] windows@[k]@.len() == AUDIO_N_SAMPLES,
        forall|k: int, j: int|
            0 <= k < windows@.len() && 0 <= j < AUDIO_N_SAMPLES ==> #[trigger] windows@[k]@[j]
                == padded_at(audio@, zero, k * HOP_SAMPLES + j),
{
    let half = OVERLAP_SAMPLES / 2;
    let padded_len = half + audio.len();
    let mut windows: Vec<Vec<T>> = Vec::new();
    let mut start: usize = 0;
    assert(HOP_SAMPLES == 36164);
    assert(windows@.len() == 0);
    while start < padded_len
        invariant
            half == OVERLAP_SAMPLES / 2,
            padded_len == half + audio@.len(),
            padded_len + AUDIO_N_SAMPLES + HOP_SAMPLES <= usize::MAX,
            start == windows@.len() * HOP_SAMPLES,
            start <= padded_len + HOP_SAMPLES,
            windows@.len() * HOP_SAMPLES < padded_len + HOP_SAMPLES,
            forall|k: int| 0 <= k < windows@.len() ==> #[trigger] windows@[k]@.len() == AUDIO_N_SAMPLES,
            forall|k: int, j: int|
                0 <= k < windows@.len() && 0 <= j < AUDIO_N_SAMPLES ==> #[trigger] windows@[k]@[j]
                    == padded_at(audio@, zero, k * HOP_SAMPLES + j),
        decreases padded_len + HOP_SAMPLES - start,
    {
        let mut window: Vec<T> = Vec::new();
        let mut j: usize = 0;
        while j < AUDIO_N_SAMPLES
            invariant
                half == OVERLAP_SAMPLES / 2,
                padded_len == half + audio@.len(),
                start < padded_len,
                padded_len + AUDIO_N_SAMPLES + HOP_SAMPLES <= usize::MAX,
                j <= AUDIO_N_SAMPLES,
                window@.len() == j,
                forall|i: int| 0 <= i < j ==> #[trigger] window@[i] == padded_at(audio@, zero, start + i),
            decreases AUDIO_N_SAMPLES - j,
        {
            let x = start + j;
            let v = if x < half {
                zero
            } else if x - half < audio.len() {
                audio[x - half]
            } else {
                zero
            };
            window.push(v);
            j += 1;
        }
        let ghost k0 = windows@.len() as int;
        windows.push(window);
        proof {
            assert forall|k: int, i: int|
                0 <= k < windows@.len() && 0 <= i < AUDIO_N_SAMPLES implies #[trigger] windows@[k]@[i]
                    == padded_at(audio@, zero, k * HOP_SAMPLES + i) by {
                if k == k0 {
                    assert(windows@[k]@[i] == padded_at(audio@, zero, start + i));
                }
            }
            assert((k0 + 1) * HOP_SAMPLES == k0 * HOP_SAMPLES + HOP_SAMPLES) by (nonlinear_arith);
        }
        start += HOP_SAMPLES;
    }
    proof {
        let w = windows@.len() as int;
        let p = padded_len as int;
        assert(w * HOP_SAMPLES >= p);
        assert(w * HOP_SAMPLES < p + HOP_SAMPLES);
        vstd::arithmetic::div_mod::lemma_fundamental_div_mod_converse_div(
            p + HOP_SAMPLES - 1,
            HOP_SAMPLES as int,
            w,
            p + HOP_SAMPLES - 1 - w * HOP_SAMPLES,
        );
    }
    windows
}

/// Frames of output expected for `audio_len` samples: `audio_len * fps / sr`, rounded down.
pub fn expected_frames(audio_len: usize) -> (n: usize)
    requires
        audio_len * ANNOTATIONS_FPS <= usize::MAX,
    ensures
        n == (audio_len * ANNOTATIONS_FPS) / (SAMPLE_RATE as int),
{
    audio_len * (ANNOTATIONS_FPS as usize) / (SAMPLE_RATE as usize)
}

/// Frames of window `w` after trimming `N_OLAP_TRIM` frames from each end.
pub open spec fn trimmed<R>(w: Seq<R>) -> Seq<R> {
    w.subrange(N_OLAP_TRIM as int, w.len() - N_OLAP_TRIM)
}

/// The trimmed frames of all windows, in order.
pub open spec fn joined<R>(ws: Seq<Seq<R>>) -> Seq<R>
    decreases ws.len(),
{
    if ws.len() == 0 {
        seq![]
    } else {
        joined(ws.drop_last()) + trimmed(ws.last())
    }
}

/// The frames of each window, as sequences.
pub open spec fn frames_view<T>(windows: Seq<Vec<Vec<T>>>) -> Seq<Seq<Seq<T>>> {
    windows.map_values(|w: Vec<Vec<T>>| w@.map_values(|r: Vec<T>| r@))
}

fn copy_row<T: Copy>(row: &Vec<T>) -> (r: Vec<T>)
    ensures
        r@ == row@,
{
    let mut r: Vec<T> = Vec::new();
    let mut i: usize = 0;
    while i < row.len()
        invariant
            i <= row@.len(),
            r@ == row@.take(i as int),
        decreases row@.len() - i,
    {
        r.push(row[i]);
        assert(r@ =~= row@.take(i + 1));
        i += 1;
    }
    assert(row@.take(i as int) =~= row@);
    r
}

/// Joins the per-window outputs (frames of values): trims `N_OLAP_TRIM` frames
/// from each end of every window, concatenates them in order, and keeps the
/// first `n_expected` frames.
pub fn assemble<T: Copy>(windows: &Vec<Vec<Vec<T>>>, n_expected: usize) -> (out: Vec<Vec<T>>)
    requires
        windows@.len() >= 1,
        forall|k: int| 0 <= k < windows@.len() ==> #[trigger] windows@[k]@.len() >= 2 * N_OLAP_TRIM,
    ensures
        out@.map_values(|r: Vec<T>| r@) == joined(frames_view(windows@)).take(
            if n_expected <= joined(frames_view(windows@)).len() {
                n_expected as int
            } else {
                joined(frames_view(windows@)).len() as int
            },
        ),
{
    let ghost ws = frames_view(windows@);
    let mut out: Vec<Vec<T>> = Vec::new();
    let mut k: usize = 0;
    while k < windows.len()
        invariant
            ws == frames_view(windows@),
            ws.len() == windows@.len(),
            k <= windows@.len(),
            forall|k2: int| 0 <= k2 < windows@.len() ==> #[trigger] windows@[k2]@.len() >= 2 * N_OLAP_TRIM,
            out@.map_values(|r: Vec<T>| r@) == joined(ws.take(k as int)),
        decreases windows@.len() - k,
    {
        let w = &windows[k];
        let n = w.len();
        let mut t = N_OLAP_TRIM;
        let ghost base = out@.map_values(|r: Vec<T>| r@);
        assert(ws[k as int] == w@.map_values(|r: Vec<T>| r@));
        while t < n - N_OLAP_TRIM
            invariant
                N_OLAP_TRIM <= t <= n - N_OLAP_TRIM,
                n == w@.len(),
                n >= 2 * N_OLAP_TRIM,
                k < ws.len(),
                ws[k as int] == w@.map_values(|r: Vec<T>| r@),
                out@.map_values(|r: Vec<T>| r@) == base + ws[k as int].subrange(N_OLAP_TRIM as int, t as int),
            decreases n - t,
        {
            let row = copy_row(&w[t]);
            assert(row@ == ws[k as int][t as int]);
            let ghost before = out@;
            out.push(row);
            assert(out@.map_values(|r: Vec<T>| r@) =~= before.map_values(|r: Vec<T>| r@).push(row@));
            assert(out@.map_values(|r: Vec<T>| r@) =~= base + ws[k as int].subrange(N_OLAP_TRIM as int, t + 1));
            t += 1;
        }
        assert(ws.take(k + 1).drop_last() =~= ws.take(k as int));
        assert(ws.take(k + 1).last() == ws[k as int]);
        k += 1;
    }
    assert(ws.take(k as int) =~= ws);
    let total = out.len();
    let keep = if n_expected <= total { n_expected } else { total };
    out.truncate(keep);
    assert(out@.map_values(|r: Vec<T>| r@) =~= joined(ws).take(keep as int));
    out
}

} // verus!
