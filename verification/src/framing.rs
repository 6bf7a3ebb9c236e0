//! Cutting a signal into overlapping frames after zero padding on both sides
//! (the STFT of Swift-F0, the analysis frames of CREPE).
use vstd::prelude::*;

verus! {

/// Number of frames of `frame_len` samples every `hop` samples that fit in
/// `len` samples with `pad` zeros on each side.
pub open spec fn n_frames(len: int, pad: int, frame_len: int, hop: int) -> int {
    (len + 2 * pad - frame_len) / hop + 1
}

/// Sample `x` of the signal with `pad` zeros before it (and zeros after it).
pub open spec fn padded_sample<T>(audio: Seq<T>, zero: T, pad: int, x: int) -> T {
    if pad <= x < pad + audio.len() {
        audio[x - pad]
    } else {
        zero
    }
}

/// The frames of `audio` padded with `pad` copies of `zero` on each side:
/// `frame_len` samples every `hop` samples, as many as fit.
pub fn padded_frames<T: Copy>(audio: &[T], zero: T, pad: usize, frame_len: usize, hop: usize) -> (frames: Vec<Vec<T>>)
    requires
        hop >= 1,
        audio@.len() + 2 * pad >= frame_len,
        audio@.len() + 2 * pad + frame_len < usize::MAX,
    ensures
        frames@.len() == n_frames(audio@.len() as int, pad as int, frame_len as int, hop as int),
        forall|t: int| 0 <= t < frames@.len() ==> #[trigger] frames@[t]@.len() == frame_len,
        forall|t: int, j: int|
            0 <= t < frames@.len() && 0 <= j < frame_len ==> #[trigger] frames@[t]@[j]
                == padded_sample(audio@, zero, pad as int, t * hop + j),
{
    let len = audio.len();
    let count = (len + 2 * pad - frame_len) / hop + 1;
    let mut frames: Vec<Vec<T>> = Vec::new();
    let mut t: usize = 0;
    while t < count
        invariant
            hop >= 1,
            len == audio@.len(),
            len + 2 * pad >= frame_len,
            len + 2 * pad + frame_len < usize::MAX,
            count == n_frames(len as int, pad as int, frame_len as int, hop as int),
            t <= count,
            frames@.len() == t,
            forall|t2: int| 0 <= t2 < t ==> #[trigger] frames@[t2]@.len() == frame_len,
            forall|t2: int, j: int|
                0 <= t2 < t && 0 <= j < frame_len ==> #[trigger] frames@[t2]@[j]
                    == padded_sample(audio@, zero, pad as int, t2 * hop + j),
        decreases count - t,
    {
        proof {
            let span = (len + 2 * pad - frame_len) as int;
            vstd::arithmetic::div_mod::lemma_fundamental_div_mod(span, hop as int);
            vstd::arithmetic::div_mod::lemma_mod_bound(span, hop as int);
            assert(t * hop <= span) by (nonlinear_arith)
                requires
                    t < count,
                    count == span / (hop as int) + 1,
                    span == hop * (span / (hop as int)) + span % (hop as int),
                    0 <= span % (hop as int),
                    hop >= 1,
            ;
        }
        let frame_start = t * hop;
        let mut frame: Vec<T> = Vec::new();
        let mut j: usize = 0;
        while j < frame_len
            invariant
                len == audio@.len(),
                frame_start + frame_len <= len + 2 * pad,
                len + 2 * pad + frame_len < usize::MAX,
                j <= frame_len,
                frame@.len() == j,
                forall|i: int| 0 <= i < j ==> #[trigger] frame@[i] == padded_sample(audio@, zero, pad as int, frame_start + i),
            decreases frame_len - j,
        {
            let x = frame_start + j;
            let v = if pad <= x && x < pad + len { audio[x - pad] } else { zero };
            frame.push(v);
            j += 1;
        }
        frames.push(frame);
        t += 1;
    }
    frames
}

} // verus!
