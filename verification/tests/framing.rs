use candle_pitch::conv::same_padding;
use candle_pitch::cqt::{frames_at_hop, reflect_index, reflect_pad};
use candle_pitch::inference::{assemble, expected_frames, split_windows, AUDIO_N_SAMPLES, HOP_SAMPLES};
use candle_pitch::options::{check_capacity, hub_capacity, Capacity, CapacityMismatch, Decoder, DeviceKind};
use candle_pitch::framing::padded_frames;
use candle_pitch::swift_f0::{FRAME_LENGTH, HOP_LENGTH, STFT_PADDING};
use candle_pitch::crepe;

#[test]
fn reflect_pad_mirrors_without_repeating_edges() {
    assert_eq!(reflect_pad(&['a', 'b', 'c'], 2), vec!['c', 'b', 'a', 'b', 'c', 'b', 'a']);
    assert_eq!(reflect_pad(&[1, 2, 3, 4], 0), vec![1, 2, 3, 4]);
    assert_eq!(reflect_pad(&[1, 2], 3), vec![2, 1, 2, 1, 2, 1, 2, 1]);
}

#[test]
fn reflect_index_is_periodic() {
    assert_eq!(reflect_index(-1, 3), 1);
    assert_eq!(reflect_index(-2, 3), 2);
    assert_eq!(reflect_index(3, 3), 1);
    assert_eq!(reflect_index(4, 3), 0);
    assert_eq!(reflect_index(-7, 5), 1);
    assert_eq!(reflect_index(13, 5), 3);
}

#[test]
fn frame_count_at_hop() {
    assert_eq!(frames_at_hop(43_844, 256), 172);
    assert_eq!(frames_at_hop(0, 4), 1);
}

#[test]
fn windows_cover_padded_audio() {
    let audio: Vec<i32> = (1..=40_000).collect();
    let windows = split_windows(&audio, 0);
    assert_eq!(windows.len(), 2);
    assert!(windows.iter().all(|w| w.len() == AUDIO_N_SAMPLES));
    assert_eq!(windows[0][3839], 0);
    assert_eq!(windows[0][3840], 1);
    assert_eq!(windows[1][0], (HOP_SAMPLES - 3840 + 1) as i32);
    assert_eq!(*windows[1].last().unwrap(), 0);
    assert_eq!(split_windows::<i32>(&[], 0).len(), 1);
}

#[test]
fn assemble_trims_overlaps_and_truncates() {
    let w0: Vec<Vec<u32>> = (0..40).map(|t| vec![t]).collect();
    let w1: Vec<Vec<u32>> = (100..140).map(|t| vec![t]).collect();
    let out = assemble(&vec![w0.clone(), w1.clone()], 100);
    assert_eq!(out.len(), 20);
    assert_eq!(out[0], vec![15]);
    assert_eq!(out[9], vec![24]);
    assert_eq!(out[10], vec![115]);
    let out = assemble(&vec![w0, w1], 12);
    assert_eq!(out.len(), 12);
    assert_eq!(out[11], vec![116]);
}

#[test]
fn expected_frames_rounds_down() {
    assert_eq!(expected_frames(22_050), 86);
    assert_eq!(expected_frames(22_049), 85);
    assert_eq!(expected_frames(0), 0);
}

#[test]
fn stft_frames_are_zero_padded() {
    let audio: Vec<i32> = (1..=1000).collect();
    let frames = padded_frames(&audio, 0, STFT_PADDING, FRAME_LENGTH, HOP_LENGTH);
    assert_eq!(frames.len(), (1000 + 768 - 1024) / 256 + 1);
    assert!(frames.iter().all(|f| f.len() == FRAME_LENGTH));
    assert_eq!(frames[0][383], 0);
    assert_eq!(frames[0][384], 1);
    assert_eq!(frames[1][128], 1);
    assert_eq!(frames[2][0], 129);
}

#[test]
fn same_padding_matches_keras() {
    let p = same_padding(10, 3, 1);
    assert_eq!((p.out_len, p.before, p.after), (10, 1, 1));
    let p = same_padding(264, 39, 3);
    assert_eq!((p.out_len, p.before, p.after), (88, 18, 18));
    let p = same_padding(7, 4, 1);
    assert_eq!((p.out_len, p.before, p.after), (7, 1, 2));
    let p = same_padding(5, 1, 3);
    assert_eq!((p.out_len, p.before, p.after), (2, 0, 0));
}

#[test]
fn cli_options_map_onto_the_model() {
    for c in [Capacity::Tiny, Capacity::Small, Capacity::Medium, Capacity::Large, Capacity::Full] {
        let m: crepe::Capacity = c.into();
        assert_eq!(Capacity::from(m), c);
        assert_eq!(c.name(), m.name());
    }
    assert_eq!(crepe::Decoder::from(Decoder::Local), crepe::Decoder::LocalAverage);
    assert_eq!(crepe::Decoder::from(Decoder::Viterbi), crepe::Decoder::Viterbi);
    assert_eq!(Decoder::Local.name(), "local");
    assert_eq!(DeviceKind::default(), DeviceKind::Auto);
}

#[test]
fn capacity_checks() {
    assert_eq!(hub_capacity(None), Capacity::Tiny);
    assert_eq!(hub_capacity(Some(Capacity::Full)), Capacity::Full);
    assert_eq!(check_capacity(None, Capacity::Small), Ok(()));
    assert_eq!(check_capacity(Some(Capacity::Small), Capacity::Small), Ok(()));
    assert_eq!(
        check_capacity(Some(Capacity::Tiny), Capacity::Small),
        Err(CapacityMismatch { requested: Capacity::Tiny, loaded: Capacity::Small })
    );
}

#[test]
fn crepe_frames_are_centered() {
    let audio: Vec<i32> = (1..=1600).collect();
    let frames = padded_frames(&audio, 0, 512, 1024, 160);
    assert_eq!(frames.len(), 1 + 1600 / 160);
    assert_eq!(frames[0][511], 0);
    assert_eq!(frames[0][512], 1);
    assert_eq!(frames[10][511], 1600);
    assert_eq!(frames[10][512], 0);
}

#[test]
fn device_choices_both_give_a_device() {
    assert!(DeviceKind::Cpu.into_device().is_ok());
    assert!(DeviceKind::Auto.into_device().is_ok());
    assert!(DeviceKind::default() == DeviceKind::Auto);
}
