//! Verified decoding and bookkeeping logic for neural pitch trackers
//! (CREPE, Swift-F0 and Basic Pitch): peak picking, windowing, note
//! segmentation and polyphonic note extraction.

pub mod conv;
pub mod cqt;
pub mod crepe;
pub mod framing;
pub mod inference;
pub mod notegrid;
pub mod notes;
pub mod options;
pub mod postprocess;
pub mod select;
pub mod swift_f0;
pub mod viterbi;
