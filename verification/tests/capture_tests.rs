use std::collections::VecDeque;

use airsend::capture::{
    convert_i16, decode_s16le, downmix_i16, drain_chunks, require_stereo, resample_linear,
    resample_supported, after_event_wait, CaptureWait,
    take_whole_frames, u16_to_i16, CaptureError, CaptureFormat,
};

#[test]
fn airplay_default_format() {
    let f = CaptureFormat::airplay_default();
    assert_eq!(f.sample_rate, 44_100);
    assert_eq!(f.channels, 2);
}

#[test]
fn resample_equal_rates_is_identity() {
    let input = vec![1i16, -2, 3, -4];
    assert_eq!(resample_linear(&input, 2, 44_100, 44_100), input);
}

#[test]
fn resample_empty_input_stays_empty() {
    assert_eq!(resample_linear(&[], 2, 48_000, 44_100), Vec::<i16>::new());
}

#[test]
fn resample_doubles_mono_rate_by_interpolation() {
    assert_eq!(resample_linear(&[0, 100], 1, 1, 2), vec![0, 50, 100, 100]);
}

#[test]
fn resample_halves_rate_by_picking_frames() {
    assert_eq!(resample_linear(&[0, 10, 20, 30], 1, 2, 1), vec![0, 20]);
}

#[test]
fn resample_rounds_toward_zero() {
    assert_eq!(resample_linear(&[-3, 0], 1, 1, 2), vec![-3, -1, 0, 0]);
    assert_eq!(resample_linear(&[3, 0], 1, 1, 2), vec![3, 1, 0, 0]);
}

#[test]
fn resample_stereo_keeps_channels_apart() {
    let out = resample_linear(&[0, 1000, 100, 2000], 2, 1, 2);
    assert_eq!(out, vec![0, 1000, 50, 1500, 100, 2000, 100, 2000]);
}

#[test]
fn resample_extremes_stay_in_range() {
    let out = resample_linear(&[i16::MIN, i16::MAX], 1, 1, 3);
    assert_eq!(out, vec![-32768, -10923, 10922, 32767, 32767, 32767]);
}

#[test]
fn resample_short_input_yields_one_frame() {
    assert_eq!(resample_linear(&[7, 8], 2, 48_000, 1), vec![7, 8]);
}

#[test]
fn resample_to_zero_rate_yields_silent_frame() {
    assert_eq!(resample_linear(&[5, 6, 7, 8], 2, 44_100, 0), vec![0, 0]);
}

#[test]
fn resample_48k_to_44k1_frame_count() {
    let input = vec![0i16; 480 * 2];
    let out = resample_linear(&input, 2, 48_000, 44_100);
    assert_eq!(out.len(), 441 * 2);
}

#[test]
fn resample_positions_follow_double_precision() {
    // 147 * (48000 / 44100) is 160 exactly, but the double step puts output
    // frame 147 just past source frame 160, so a sliver of frame 161 is
    // mixed in and the result is rounded toward zero.
    let mut input = vec![0i16; 170];
    input[160] = -31456;
    input[161] = -30219;
    let out = resample_linear(&input, 1, 48_000, 44_100);
    assert_eq!(out.len(), 156);
    assert_eq!(&out[146..149], &[0, -31455, -27546]);
}

#[test]
fn decode_little_endian_samples() {
    let bytes = [0x01, 0x00, 0xFF, 0xFF, 0x00, 0x80, 0xFF, 0x7F, 0x42];
    assert_eq!(decode_s16le(&bytes), vec![1, -1, -32768, 32767]);
    assert_eq!(decode_s16le(&[]), Vec::<i16>::new());
}

#[test]
fn drain_takes_whole_chunks_only() {
    let mut q: VecDeque<u8> = (0u8..10).collect();
    let chunks = drain_chunks(&mut q, 1, 2);
    assert_eq!(chunks, vec![vec![0x0100, 0x0302], vec![0x0504, 0x0706]]);
    assert_eq!(q.into_iter().collect::<Vec<u8>>(), vec![8, 9]);
}

#[test]
fn drain_on_short_queue_takes_nothing() {
    let mut q: VecDeque<u8> = VecDeque::from(vec![1, 2, 3]);
    assert!(drain_chunks(&mut q, 1, 2).is_empty());
    assert_eq!(q.len(), 3);
}

#[test]
fn u16_samples_are_shifted_to_signed() {
    assert_eq!(u16_to_i16(&[0, 32768, 65535, 1]), vec![-32768, 0, 32767, -32767]);
}

#[test]
fn downmix_layouts() {
    assert_eq!(downmix_i16(&[1, 2, 3, 4], 2, 2), vec![1, 2, 3, 4]);
    assert_eq!(downmix_i16(&[1, 2, 3, 4, 5, 6, 7, 8], 4, 2), vec![1, 2, 5, 6]);
    assert_eq!(downmix_i16(&[1, 2, 3], 1, 2), vec![1, 1, 2, 2, 3, 3]);
    assert_eq!(downmix_i16(&[1, 2, 3, 4], 2, 1), vec![1, 3]);
    assert_eq!(downmix_i16(&[1, 2, 3], 2, 2), vec![1, 2]);
    assert_eq!(downmix_i16(&[1, 2, 3, 4], 2, 6), vec![1, 2, 3, 4]);
}

#[test]
fn convert_block_same_rate() {
    let f = convert_i16(&[1, 2, 3, 4, 5, 6], 3, 44_100, 2, 44_100);
    assert_eq!(f.samples, vec![1, 2, 4, 5]);
    assert_eq!(f.channels, 2);
    assert_eq!(f.sample_rate, 44_100);
}

#[test]
fn convert_block_resamples() {
    let data = vec![100i16; 480 * 2];
    let f = convert_i16(&data, 2, 48_000, 2, 44_100);
    assert_eq!(f.samples.len(), 441 * 2);
    assert!(f.samples.iter().all(|&s| s == 100));
}

#[test]
fn capture_error_carries_request() {
    let e = require_stereo(CaptureFormat { sample_rate: 48_000, channels: 6 }).unwrap_err();
    match e {
        CaptureError::UnsupportedConfig { wanted, channels } => {
            assert_eq!(wanted, 48_000);
            assert_eq!(channels, 6);
        }
        _ => panic!("wrong variant"),
    }
}

#[test]
fn stereo_block_in_target_format_passes_through() {
    let data = vec![5i16, -5, 300, -300, i16::MAX, i16::MIN];
    let f = convert_i16(&data, 2, 44_100, 2, 44_100);
    assert_eq!(f.samples, data);
}

#[test]
fn decoding_splits_at_even_offsets() {
    let a = [0x10u8, 0x00, 0x20, 0x80];
    let b = [0x01u8, 0x02, 0x03];
    let whole: Vec<u8> = a.iter().chain(b.iter()).copied().collect();
    let mut parts = decode_s16le(&a);
    parts.extend(decode_s16le(&b));
    assert_eq!(decode_s16le(&whole), parts);
}

#[test]
fn interpolated_samples_stay_between_neighbours() {
    let out = resample_linear(&[-100, 300, 50], 1, 3, 7);
    assert_eq!(out.len(), 7);
    for s in out {
        assert!(s >= -100 && s <= 300);
    }
}

#[test]
fn whole_frames_are_taken_and_partial_ones_wait() {
    let mut q: VecDeque<u8> = VecDeque::from(vec![1, 0, 2, 0, 3, 0, 4, 0, 5, 0, 6]);
    assert_eq!(take_whole_frames(&mut q, 2), vec![1, 2, 3, 4]);
    assert_eq!(q.iter().copied().collect::<Vec<u8>>(), vec![5, 0, 6]);
    q.extend([0u8, 9]);
    assert_eq!(take_whole_frames(&mut q, 2), vec![5, 6]);
    assert_eq!(q.iter().copied().collect::<Vec<u8>>(), vec![9]);
    assert!(take_whole_frames(&mut q, 2).is_empty());
    assert_eq!(q.len(), 1);
}

#[test]
fn resampling_is_supported_where_every_frame_starts_inside_the_input() {
    assert!(resample_supported(960, 2, 48_000, 44_100));
    assert!(resample_supported(0, 0, 48_000, 44_100));
    assert!(resample_supported(4, 2, 44_100, 0));
    assert!(!resample_supported(4, 0, 48_000, 44_100));
    assert!(!resample_supported(4, 2, 0, 44_100));
    assert!(!resample_supported(1, 2, 48_000, 44_100));
    assert!(resample_supported(1 << 20, 1, 1, 4_294_967_295));
    // The last output frame's double position rounds up to 2^24, one past
    // the input.
    assert!(!resample_supported(1 << 24, 1, 1, 4_294_967_295));
}

#[test]
fn event_wait_decisions() {
    assert_eq!(after_event_wait(true, true), CaptureWait::Continue);
    assert_eq!(after_event_wait(true, false), CaptureWait::Continue);
    assert_eq!(after_event_wait(false, true), CaptureWait::Fail);
    assert_eq!(after_event_wait(false, false), CaptureWait::Finish);
}
