//! Index arithmetic of the constant-Q front end (Basic Pitch): reflective
//! padding and frame counts.
use vstd::arithmetic::div_mod::{lemma_fundamental_div_mod, lemma_fundamental_div_mod_converse_mod, lemma_mod_bound};
use vstd::prelude::*;

verus! {

/// The index that `i` maps to when a signal of length `len` is mirrored at both
/// ends without repeating the boundary samples (numpy's `reflect` mode).
pub open spec fn reflected(i: int, len: int) -> int {
    let period = 2 * (len - 1);
    let m = i % period;
    if m < len { m } else { period - m }
}

proof fn lemma_euclid_from_trunc(i: int, p: int, r: int)
    requires
        p > 0,
        r == (if i >= 0 { i % p } else { -((-i) % p) }),
    ensures
        (if r + p >= p { r + p - p } else { r + p }) == i % p,
        0 < r + p < 2 * p,
{
    lemma_mod_bound(i, p);
    if i >= 0 {
        lemma_mod_bound(i, p);
    } else {
        let s = (-i) % p;
        lemma_mod_bound(-i, p);
        lemma_fundamental_div_mod(-i, p);
        let q = (-i) / p;
        assert(-i == p * q + s);
        if s == 0 {
            assert(i == (-q) * p + 0) by (nonlinear_arith)
                requires -i == p * q + s, s == 0;
            lemma_fundamental_div_mod_converse_mod(i, p, -q, 0);
        } else {
            assert(i == (-q - 1) * p + (p - s)) by (nonlinear_arith)
                requires -i == p * q + s;
            lemma_fundamental_div_mod_converse_mod(i, p, -q - 1, p - s);
        }
    }
}

/// Where sample `i` of a signal of length `len` comes from under reflective padding.
pub fn reflect_index(i: isize, len: isize) -> (r: usize)
    requires
        len >= 2,
        4 * (len - 1) <= isize::MAX,
    ensures
        r == reflected(i as int, len as int),
        0 <= r < len,
{
    let period = 2 * (len - 1);
    let t = i % period;
    proof {
        lemma_euclid_from_trunc(i as int, period as int, t as int);
    }
    proof {
        let x = (t + period) as int;
        if x >= period {
            lemma_fundamental_div_mod_converse_mod(x, period as int, 1, x - period);
        } else {
            lemma_fundamental_div_mod_converse_mod(x, period as int, 0, x);
        }
    }
    let mut idx = (t + period) % period;
    assert(idx == (i as int) % (period as int));
    if idx >= len {
        idx = period - idx;
    }
    idx as usize
}

/// `audio` padded with `pad` samples on each side, mirrored without repeating
/// the boundary sample: `[a, b, c]` with `pad = 2` gives `[c, b, a, b, c, b, a]`.
pub fn reflect_pad<T: Copy>(audio: &[T], pad: usize) -> (out: Vec<T>)
    requires
        pad == 0 || audio@.len() >= 2,
        audio@.len() + 2 * pad <= isize::MAX,
        4 * audio@.len() <= isize::MAX,
    ensures
        out@.len() == audio@.len() + 2 * pad,
        forall|j: int| pad <= j < pad + audio@.len() ==> #[trigger] out@[j] == audio@[j - pad],
        forall|j: int|
            0 <= j < out@.len() && !(pad <= j < pad + audio@.len()) ==> #[trigger] out@[j] == audio@[reflected(
                j - pad,
                audio@.len() as int,
            )],
{
    let len = audio.len();
    let total = len + 2 * pad;
    let mut out: Vec<T> = Vec::new();
    let mut j: usize = 0;
    while j < total
        invariant
            len == audio@.len(),
            total == len + 2 * pad,
            pad == 0 || len >= 2,
            total <= isize::MAX,
            4 * len <= isize::MAX,
            j <= total,
            out@.len() == j,
            forall|k: int| 0 <= k < j ==> #[trigger] out@[k] == (if pad <= k < pad + len {
                audio@[k - pad]
            } else {
                audio@[reflected(k - pad, len as int)]
            }),
        decreases total - j,
    {
        let i: isize = j as isize - pad as isize;
        let idx: usize = if 0 <= i && i < len as isize {
            i as usize
        } else {
            reflect_index(i, len as isize)
        };
        out.push(audio[idx]);
        j += 1;
    }
    out
}

/// Number of frames of a signal of `audio_len` samples, reflect-padded by half a
/// kernel on each side and framed every `hop` samples with a kernel-length window.
pub fn frames_at_hop(audio_len: usize, hop: usize) -> (n: usize)
    requires
        hop > 0,
        audio_len / hop < usize::MAX,
    ensures
        n == audio_len / hop + 1,
{
    audio_len / hop + 1
}

} // verus!
