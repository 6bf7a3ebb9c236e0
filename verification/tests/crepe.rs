use candle_pitch::crepe::{Capacity, Decoder, PITCH_BINS};
use candle_pitch::select::{argmax_first, argmax_last, clamped_window};
use candle_pitch::viterbi::{backtrack, band, predecessor, BAND};

#[test]
fn band_clips_at_edges() {
    assert_eq!(band(0), 0..(BAND + 1));
    assert_eq!(band(PITCH_BINS - 1), (PITCH_BINS - 1 - BAND)..PITCH_BINS);
    let mid = band(180);
    assert_eq!(mid.end - mid.start, 2 * BAND + 1);
}

#[test]
fn band_is_symmetric_on_bins() {
    for j in 0..PITCH_BINS {
        for k in 0..PITCH_BINS {
            assert_eq!(band(j).contains(&k), band(k).contains(&j));
            assert_eq!(band(j).contains(&k), j.abs_diff(k) <= BAND);
        }
    }
}

#[test]
fn argmax_first_picks_first_of_ties() {
    assert_eq!(argmax_first(&[]), 0);
    assert_eq!(argmax_first(&[3]), 0);
    assert_eq!(argmax_first(&[1, 5, 2, 5, 0]), 1);
    assert_eq!(argmax_first(&[-4, -2, -9]), 1);
}

#[test]
fn argmax_last_picks_last_of_ties() {
    assert_eq!(argmax_last(&[]), 0);
    assert_eq!(argmax_last(&[1, 5, 2, 5, 0]), 3);
    assert_eq!(argmax_last(&[7, 7, 7]), 2);
}

#[test]
fn clamped_window_clips_both_ends() {
    assert_eq!(clamped_window(2, 4, 360), 0..7);
    assert_eq!(clamped_window(100, 4, 360), 96..105);
    assert_eq!(clamped_window(358, 4, 360), 354..360);
    assert_eq!(clamped_window(5, 9, 8), 0..8);
}

#[test]
fn capacity_multipliers_and_names() {
    let all = [
        (Capacity::Tiny, 4, "tiny"),
        (Capacity::Small, 8, "small"),
        (Capacity::Medium, 16, "medium"),
        (Capacity::Large, 24, "large"),
        (Capacity::Full, 32, "full"),
    ];
    for (c, m, name) in all {
        assert_eq!(c.multiplier(), m);
        assert_eq!(c.name(), name);
    }
    assert_ne!(Decoder::LocalAverage, Decoder::Viterbi);
}

#[test]
fn predecessor_takes_last_best_state_of_the_band() {
    // band(100) is 89..112; the best score appears at offsets 3 and 7.
    let mut scores = vec![0i64; 23];
    scores[3] = 9;
    scores[7] = 9;
    assert_eq!(predecessor(100, &scores), 89 + 7);
    // at the lower edge the band starts at 0 and holds 12 states
    let mut edge = vec![-5i64; 12];
    edge[11] = 4;
    assert_eq!(predecessor(0, &edge), 11);
}

#[test]
fn backtrack_reads_path_through_the_table() {
    let mut last = vec![0i64; PITCH_BINS];
    last[200] = 7;
    last[250] = 7;
    // frame 1 -> frame 0: each state steps down one bin (bin 0 stays)
    let down: Vec<usize> = (0..PITCH_BINS).map(|k| k.saturating_sub(1)).collect();
    // frame 2 -> frame 1: each state steps up two bins (clipped at the top)
    let up: Vec<usize> = (0..PITCH_BINS).map(|k| (k + 2).min(PITCH_BINS - 1)).collect();
    let path = backtrack(&last, &[down, up]);
    assert_eq!(path, vec![201, 202, 200]);
}

#[test]
fn backtracked_path_never_jumps_beyond_band() {
    // a table whose entries pull every state as far down as the band allows
    let row: Vec<usize> = (0..PITCH_BINS).map(|k| band(k).start).collect();
    let table = vec![row; 40];
    let mut last = vec![0i64; PITCH_BINS];
    last[PITCH_BINS - 1] = 1;
    let path = backtrack(&last, &table);
    assert_eq!(path.len(), 41);
    assert_eq!(path[40], PITCH_BINS - 1);
    for t in 0..40 {
        assert!(path[t].abs_diff(path[t + 1]) <= BAND);
    }
    assert_eq!(path[0], 0);
}
