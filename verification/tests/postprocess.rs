use candle_pitch::postprocess::{argrelmax_axis0, bend_window, output_to_notes_polyphonic, NoteEvent};

/// Integer key that orders exactly as the float does (for non-NaN values).
fn key(x: f32) -> i64 {
    let bits = x.to_bits();
    let mag = (bits & 0x7fff_ffff) as i64;
    if bits >> 31 == 1 { -mag } else { mag }
}

fn keys(grid: &[Vec<f32>]) -> Vec<Vec<i64>> {
    grid.iter().map(|row| row.iter().map(|&v| key(v)).collect()).collect()
}

#[test]
fn argrelmax_finds_strict_local_maxima() {
    let grid = vec![
        vec![0.1, 0.2],
        vec![0.5, 0.3],
        vec![0.4, 0.8],
        vec![0.6, 0.1],
        vec![0.0, 0.0],
    ];
    let peaks = argrelmax_axis0(&keys(&grid));
    assert_eq!(peaks, vec![(1, 0), (2, 1), (3, 0)]);
}

#[test]
fn argrelmax_needs_three_frames() {
    assert!(argrelmax_axis0(&vec![vec![1, 2], vec![3, 4]]).is_empty());
    assert!(argrelmax_axis0(&vec![]).is_empty());
}

fn grid(n_frames: usize, n_freqs: usize) -> Vec<Vec<i64>> {
    vec![vec![0; n_freqs]; n_frames]
}

#[test]
fn onset_note_extends_until_energy_tolerance() {
    let mut note = grid(30, 3);
    for row in &mut note[5..15] {
        row[1] = 100;
    }
    let mut onset = grid(30, 3);
    onset[5][1] = 50;
    let events = output_to_notes_polyphonic(&note, &onset, 40, 30, 3);
    assert_eq!(events, vec![NoteEvent { start_frame: 5, end_frame: 15, midi: 22 }]);
}

#[test]
fn weak_onsets_are_ignored_but_sweep_finds_energy() {
    let mut note = grid(30, 3);
    for row in &mut note[3..8] {
        row[0] = 100;
    }
    let mut onset = grid(30, 3);
    onset[3][0] = 20;
    let events = output_to_notes_polyphonic(&note, &onset, 40, 30, 3);
    // forward consuming walk ends one frame earlier than the onset walk would
    assert_eq!(events, vec![NoteEvent { start_frame: 3, end_frame: 7, midi: 21 }]);
}

#[test]
fn short_notes_are_dropped() {
    let mut note = grid(30, 3);
    for row in &mut note[5..8] {
        row[2] = 100;
    }
    let mut onset = grid(30, 3);
    onset[5][2] = 50;
    let events = output_to_notes_polyphonic(&note, &onset, 40, 30, 3);
    assert!(events.is_empty());
}

#[test]
fn later_onsets_come_first() {
    let mut note = grid(40, 3);
    for row in &mut note[2..8] {
        row[0] = 90;
    }
    for row in &mut note[10..18] {
        row[2] = 90;
    }
    let mut onset = grid(40, 3);
    onset[2][0] = 60;
    onset[10][2] = 60;
    let events = output_to_notes_polyphonic(&note, &onset, 40, 30, 2);
    assert_eq!(
        events,
        vec![
            NoteEvent { start_frame: 10, end_frame: 18, midi: 23 },
            NoteEvent { start_frame: 2, end_frame: 8, midi: 21 },
        ]
    );
    for e in &events {
        assert!(e.start_frame < e.end_frame && e.end_frame <= 40);
        assert!(e.end_frame - e.start_frame > 2);
    }
}

#[test]
fn bend_window_is_centered_and_clipped() {
    let w = bend_window(21);
    assert_eq!((w.freq_start, w.freq_end, w.gauss_lo, w.gauss_hi, w.shift), (0, 26, 25, 51, 0));
    let w = bend_window(60);
    // contour bin 3 * 39 = 117
    assert_eq!((w.freq_start, w.freq_end, w.gauss_lo, w.gauss_hi, w.shift), (92, 143, 0, 51, 25));
    let w = bend_window(108);
    // contour bin 261, window clipped at 264
    assert_eq!((w.freq_start, w.freq_end, w.gauss_lo, w.gauss_hi, w.shift), (236, 264, 0, 28, 25));
}

#[test]
fn contour_bin_formula_matches_float_rounding() {
    // 12 * 3 * log2(midi_hz / 27.5), rounded, is 3 * (midi - 21) for every piano key
    for midi in 21u8..=108 {
        let hz = 440.0f32 * 2f32.powf((midi as f32 - 69.0) / 12.0);
        let bin = (36.0 * (hz as f64 / 27.5).log2()).round() as i64;
        assert_eq!(bin, 3 * (midi as i64 - 21));
    }
}
