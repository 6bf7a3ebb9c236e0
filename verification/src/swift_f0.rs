//! Swift-F0 constants: framing of the short-time spectrum and decoding.
use vstd::prelude::*;

verus! {

/// Audio sample rate the model expects.
pub const SAMPLE_RATE: u32 = 16_000;

/// Samples per STFT frame.
pub const FRAME_LENGTH: usize = 1024;

/// Samples between frames.
pub const HOP_LENGTH: usize = 256;

/// Zeros added before and after the audio.
pub const STFT_PADDING: usize = 384;

/// Number of pitch bins of the model output.
pub const N_PITCH_BINS: usize = 200;

/// Number of spectrum bins the model reads.
pub const N_FREQ_BINS: usize = 132;

/// First spectrum bin the model reads.
pub const K_MIN: usize = 3;

/// Half-width, in bins, of the window around the peak that decoding averages over.
pub const PEAK_WIDTH: usize = 9;

} // verus!
