//! CREPE model parameters: capacities, decoders and framing constants.
use vstd::prelude::*;

verus! {

/// Number of pitch bins in the salience output (20 cents apart, from C1).
pub const PITCH_BINS: usize = 360;

/// Audio sample rate the model expects.
pub const SAMPLE_RATE: u32 = 16_000;

/// Samples per analysis frame.
pub const FRAME_LENGTH: usize = 1024;

/// Samples between frames (10 ms).
pub const HOP_LENGTH: usize = 160;

/// Model size; scales the number of filters of every convolution.
#[derive(Clone, Copy, Debug, PartialEq, Eq, Structural)]
pub enum Capacity {
    Tiny,
    Small,
    Medium,
    Large,
    Full,
}

/// How the per-frame pitch is read off the salience.
#[derive(Clone, Copy, Debug, PartialEq, Eq, Structural)]
pub enum Decoder {
    LocalAverage,
    Viterbi,
}

impl Capacity {
    /// Filter multiplier of this capacity.
    pub open spec fn spec_multiplier(self) -> nat {
        match self {
            Capacity::Tiny => 4,
            Capacity::Small => 8,
            Capacity::Medium => 16,
            Capacity::Large => 24,
            Capacity::Full => 32,
        }
    }

    /// Filter multiplier: 4, 8, 16, 24 or 32 from tiny to full.
    pub fn multiplier(self) -> (m: usize)
        ensures
            m == self.spec_multiplier(),
    {
        match self {
            Capacity::Tiny => 4,
            Capacity::Small => 8,
            Capacity::Medium => 16,
            Capacity::Large => 24,
            Capacity::Full => 32,
        }
    }

    /// Lower-case name of this capacity, as the weight files are named.
    pub open spec fn spec_name(self) -> Seq<char> {
        match self {
            Capacity::Tiny => "tiny"@,
            Capacity::Small => "small"@,
            Capacity::Medium => "medium"@,
            Capacity::Large => "large"@,
            Capacity::Full => "full"@,
        }
    }

    /// Lower-case name: "tiny", "small", "medium", "large" or "full".
    pub fn name(self) -> (s: &'static str)
        ensures
            s@ == self.spec_name(),
    {
        match self {
            Capacity::Tiny => "tiny",
            Capacity::Small => "small",
            Capacity::Medium => "medium",
            Capacity::Large => "large",
            Capacity::Full => "full",
        }
    }
}

} // verus!
