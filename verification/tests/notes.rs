//! Note segmentation scenarios. The per-frame decisions (voiced, pitch jump)
//! and the duration filter are floating point, so they are computed here the
//! way the pitch tool computes them; the runs come from the library.

use candle_pitch::notes::note_runs;

/// (time, frequency, confidence) frames, split into notes the way the pitch
/// tool does: voiced frames, cut at pitch jumps, short notes dropped.
fn segment(
    frames: &[(f32, f32, f32)],
    voicing_threshold: f32,
    max_pitch_jump_cents: f32,
    min_duration_seconds: f32,
) -> Vec<Vec<(f32, f32, f32)>> {
    let voiced: Vec<bool> = frames.iter().map(|f| !(f.2 < voicing_threshold)).collect();
    let jump: Vec<bool> = (0..frames.len())
        .map(|t| t > 0 && 1200.0 * (frames[t].1 / frames[t - 1].1).log2().abs() > max_pitch_jump_cents)
        .collect();
    note_runs(&voiced, &jump)
        .into_iter()
        .filter(|&(s, e)| frames[e - 1].0 - frames[s].0 >= min_duration_seconds)
        .map(|(s, e)| frames[s..e].to_vec())
        .collect()
}

fn frame(t: f32, frequency: f32, c: f32) -> (f32, f32, f32) {
    (t, frequency, c)
}

#[test]
fn empty_input() {
    assert!(segment(&[], 0.5, 100.0, 0.0).is_empty());
}

#[test]
fn all_unvoiced() {
    let frames = vec![frame(0.00, 440.0, 0.1), frame(0.01, 440.0, 0.2)];
    assert!(segment(&frames, 0.5, 100.0, 0.0).is_empty());
}

#[test]
fn single_continuous_note() {
    let frames = vec![frame(0.00, 440.0, 0.9), frame(0.01, 441.0, 0.9), frame(0.02, 442.0, 0.9)];
    let notes = segment(&frames, 0.5, 100.0, 0.0);
    assert_eq!(notes.len(), 1);
    assert_eq!(notes[0].len(), 3);
    assert_eq!(notes[0][0].0, 0.00);
    assert_eq!(notes[0][2].0, 0.02);
}

#[test]
fn split_on_unvoiced() {
    let frames = vec![frame(0.00, 440.0, 0.9), frame(0.01, 440.0, 0.1), frame(0.02, 440.0, 0.9)];
    let notes = segment(&frames, 0.5, 100.0, 0.0);
    assert_eq!(notes.len(), 2);
    assert_eq!(notes[0].len(), 1);
    assert_eq!(notes[1].len(), 1);
}

#[test]
fn split_on_pitch_jump() {
    let frames = vec![
        frame(0.00, 440.0, 0.9),
        frame(0.01, 440.0, 0.9),
        frame(0.02, 880.0, 0.9),
        frame(0.03, 880.0, 0.9),
    ];
    let notes = segment(&frames, 0.5, 100.0, 0.0);
    assert_eq!(notes.len(), 2);
    assert_eq!(notes[0].len(), 2);
    assert_eq!(notes[1].len(), 2);
}

#[test]
fn drops_notes_below_min_duration() {
    let frames = vec![
        frame(0.00, 440.0, 0.9),
        frame(0.01, 440.0, 0.9),
        frame(0.02, 440.0, 0.9),
        frame(0.03, 440.0, 0.1),
        frame(0.04, 880.0, 0.9),
        frame(0.05, 880.0, 0.9),
        frame(0.06, 880.0, 0.9),
        frame(0.07, 880.0, 0.9),
        frame(0.08, 880.0, 0.9),
        frame(0.09, 880.0, 0.9),
    ];
    let notes = segment(&frames, 0.5, 100.0, 0.03);
    assert_eq!(notes.len(), 1);
    assert!((notes[0][0].0 - 0.04).abs() < 1e-6);
}

#[test]
fn small_pitch_drift_stays_one_note() {
    let frames = vec![
        frame(0.00, 440.0, 0.9),
        frame(0.01, 445.0, 0.9),
        frame(0.02, 450.0, 0.9),
        frame(0.03, 455.0, 0.9),
    ];
    let notes = segment(&frames, 0.5, 100.0, 0.0);
    assert_eq!(notes.len(), 1);
    assert_eq!(notes[0].len(), 4);
}

#[test]
fn runs_are_maximal_and_cover_voiced_frames() {
    let voiced = [true, true, false, true, true, true, false, false, true];
    let jump = [false, false, false, true, false, true, false, false, true];
    let runs = note_runs(&voiced, &jump);
    assert_eq!(runs, vec![(0, 2), (3, 5), (5, 6), (8, 9)]);
    for t in 0..voiced.len() {
        let inside = runs.iter().any(|&(s, e)| s <= t && t < e);
        assert_eq!(inside, voiced[t]);
    }
}
