use neon_invaders::audio::{
    build_game_over, build_march_high, build_march_low, build_wave_clear, build_wav_bytes,
    mix_segments, next_noise,
};

#[test]
fn wav_header_for_two_samples() {
    let bytes = build_wav_bytes(&[1, -1]);
    assert_eq!(bytes.len(), 48);
    assert_eq!(&bytes[0..4], b"RIFF");
    assert_eq!(&bytes[4..8], &40u32.to_le_bytes());
    assert_eq!(&bytes[44..48], &[1, 0, 0xff, 0xff]);
}

#[test]
fn wav_header_fields() {
    let bytes = build_wav_bytes(&[]);
    let mut expected = Vec::new();
    expected.extend_from_slice(b"RIFF");
    expected.extend_from_slice(&36u32.to_le_bytes());
    expected.extend_from_slice(b"WAVEfmt ");
    expected.extend_from_slice(&16u32.to_le_bytes());
    expected.extend_from_slice(&1u16.to_le_bytes());
    expected.extend_from_slice(&1u16.to_le_bytes());
    expected.extend_from_slice(&44_100u32.to_le_bytes());
    expected.extend_from_slice(&88_200u32.to_le_bytes());
    expected.extend_from_slice(&2u16.to_le_bytes());
    expected.extend_from_slice(&16u16.to_le_bytes());
    expected.extend_from_slice(b"data");
    expected.extend_from_slice(&0u32.to_le_bytes());
    assert_eq!(bytes, expected);
}

#[test]
fn wav_samples_are_little_endian() {
    let bytes = build_wav_bytes(&[0x1234, i16::MIN, i16::MAX]);
    assert_eq!(&bytes[40..44], &6u32.to_le_bytes());
    assert_eq!(&bytes[44..], &[0x34, 0x12, 0x00, 0x80, 0xff, 0x7f]);
}

#[test]
fn mixing_clamps_each_step() {
    let out = mix_segments(&[vec![30000, 5], vec![30000], vec![-30000, 1, 7]]);
    assert_eq!(out, vec![2767, 6, 7]);
}

#[test]
fn mixing_nothing_is_silence() {
    assert!(mix_segments(&[]).is_empty());
    assert_eq!(mix_segments(&[vec![], vec![]]), Vec::<i16>::new());
}

#[test]
fn mixing_one_track_gives_it_back() {
    let t = vec![1, -2, i16::MAX, i16::MIN, 0];
    assert_eq!(mix_segments(&[t.clone()]), t);
}

#[test]
fn mixing_in_short_silence_changes_nothing() {
    let t = vec![5, -7, 9];
    assert_eq!(mix_segments(&[t.clone(), vec![0, 0]]), t);
}

#[test]
fn jingles_play_notes_in_order() {
    assert_eq!(build_wave_clear(vec![1], vec![2, 3], vec![4]), vec![1, 2, 3, 4]);
    assert_eq!(build_game_over(vec![], vec![9], vec![8, 7]), vec![9, 8, 7]);
}

#[test]
fn march_steps_mix_their_layers() {
    let low = build_march_low(vec![100, 100, 100], vec![10], vec![1, 1], vec![-1000]);
    assert_eq!(low, vec![-889, 101, 100]);
    let high = build_march_high(vec![32000], vec![32000], vec![-100], vec![]);
    assert_eq!(high, vec![32667]);
}

#[test]
fn noise_generator_steps() {
    let mut state = 0x1234_5678u32;
    let level = next_noise(&mut state);
    let expected = 0x1234_5678u32.wrapping_mul(1_664_525).wrapping_add(1_013_904_223);
    assert_eq!(state, expected);
    assert_eq!(level, expected >> 8);
    let mut zero = 0u32;
    assert_eq!(next_noise(&mut zero), 1_013_904_223 >> 8);
    assert_eq!(zero, 1_013_904_223);
}
