use nix_visualizer::audio::{captured, downmix, settles_format, SharedAudio};
use nix_visualizer::fixed::{Fixed, ONE};
use nix_visualizer::scalar::{Sample, Scalar};

fn bytes_of(values: &[f32]) -> Vec<u8> {
    values.iter().flat_map(|v| v.to_le_bytes()).collect()
}

fn halves(n: i64) -> Fixed {
    Fixed { raw: n * (ONE / 2) }
}

#[test]
fn new_buffers_are_empty() {
    let shared: SharedAudio<u8> = SharedAudio::new();
    assert_eq!(shared.len(), 0);
    assert_eq!(shared.sample_rate, 48000);
    assert_eq!(shared.channels, 2);
    assert_eq!(shared.latest(1), None);
    assert_eq!(shared.latest(0), Some(vec![]));
}

#[test]
fn pushing_keeps_the_newest() {
    let mut shared: SharedAudio<u32> = SharedAudio::new();
    shared.push_samples(&[1, 2, 3], 4);
    shared.push_samples(&[4, 5, 6], 4);
    assert_eq!(shared.len(), 4);
    assert_eq!(shared.latest(4), Some(vec![3, 4, 5, 6]));
    assert_eq!(shared.latest(2), Some(vec![5, 6]));
    assert_eq!(shared.latest(2), Some(vec![5, 6]));
    assert_eq!(shared.latest(5), None);
    shared.push_samples(&[7, 8, 9, 10, 11, 12], 4);
    assert_eq!(shared.latest(4), Some(vec![9, 10, 11, 12]));
    shared.push_samples(&[], 0);
    assert_eq!(shared.len(), 0);
}

#[test]
fn chunks_do_not_matter() {
    let mut a: SharedAudio<u32> = SharedAudio::new();
    let mut b: SharedAudio<u32> = SharedAudio::new();
    let all: Vec<u32> = (0..50).collect();
    a.push_samples(&all, 16);
    for chunk in all.chunks(7) {
        b.push_samples(chunk, 16);
    }
    assert_eq!(a.latest(16), b.latest(16));
    assert_eq!(a.latest(16), Some((34..50).collect()));
}

#[test]
fn adopting_a_format_keeps_the_samples() {
    let mut shared: SharedAudio<u32> = SharedAudio::new();
    shared.push_samples(&[1, 2], 4);
    shared.adopt_format(44100, 6);
    assert_eq!((shared.sample_rate, shared.channels), (44100, 6));
    assert_eq!(shared.latest(2), Some(vec![1, 2]));
}

#[test]
fn stereo_is_averaged() {
    let bytes = bytes_of(&[0.25, 0.5, -0.5, 0.5]);
    let mono: Vec<Fixed> = downmix(&bytes, 16, 2);
    assert_eq!(mono, vec![Fixed { raw: 3 * (ONE / 8) }, Fixed { raw: 0 }]);
}

#[test]
fn mono_passes_through() {
    let bytes = bytes_of(&[2.5, -3.5, 0.5]);
    let mono: Vec<Fixed> = downmix(&bytes, 12, 1);
    assert_eq!(mono, vec![halves(5), halves(-7), halves(1)]);
    let none: Vec<Fixed> = downmix(&bytes, 12, 0);
    assert_eq!(none, mono);
}

#[test]
fn missing_bytes_count_as_silence() {
    let bytes = bytes_of(&[0.5, 0.5, 0.5]);
    let mono: Vec<Fixed> = downmix(&bytes, 24, 2);
    assert_eq!(
        mono,
        vec![halves(1), Fixed { raw: ONE / 4 }, Fixed { raw: 0 }]
    );
    let cut: Vec<Fixed> = downmix(&bytes[..7], 8, 1);
    assert_eq!(cut, vec![halves(1), Fixed { raw: 0 }]);
}

#[test]
fn incomplete_frames_are_left_out() {
    let bytes = bytes_of(&[1.0, 2.0, 3.0, 4.0, 5.0]);
    let mono: Vec<Fixed> = downmix(&bytes, 20, 2);
    assert_eq!(mono, vec![halves(3), halves(7)]);
    let short: Vec<Fixed> = downmix(&bytes, 7, 1);
    assert_eq!(short, vec![halves(2)]);
}

#[test]
fn capturing_mixes_and_appends() {
    let mut shared: SharedAudio<Fixed> = SharedAudio::new();
    let bytes = bytes_of(&[1.0, 2.0, 3.0, 4.0]);
    let mono: Vec<Fixed> = captured(false, Some(bytes.as_slice()), 16, 1).unwrap();
    shared.push_samples(&mono, 3);
    assert_eq!(shared.latest(3), Some(vec![halves(4), halves(6), halves(8)]));
    assert_eq!(
        captured(false, Some(bytes.as_slice()), 16, 2),
        Some(vec![halves(3), halves(7)])
    );
}

#[test]
fn nothing_is_mixed_while_paused_or_without_data() {
    let bytes = bytes_of(&[1.0, 2.0]);
    let while_paused: Option<Vec<Fixed>> = captured(true, Some(bytes.as_slice()), 8, 1);
    assert_eq!(while_paused, None);
    let without_data: Option<Vec<Fixed>> = captured(false, None, 8, 1);
    assert_eq!(without_data, None);
    let neither: Option<Vec<Fixed>> = captured(true, None, 8, 1);
    assert_eq!(neither, None);
}

#[test]
fn only_raw_audio_formats_settle() {
    assert!(settles_format(4, 4, Some((1, 1)), (1, 1)));
    assert!(!settles_format(3, 4, Some((1, 1)), (1, 1)));
    assert!(!settles_format(4, 4, None, (1, 1)));
    assert!(!settles_format(4, 4, Some((2, 1)), (1, 1)));
    assert!(!settles_format(4, 4, Some((1, 2)), (1, 1)));
}

#[test]
fn fixed_point_arithmetic() {
    let half = Fixed { raw: ONE / 2 };
    let three = Fixed::from_count(3);
    assert_eq!(three.plus(half), Fixed { raw: 3 * ONE + ONE / 2 });
    assert_eq!(half.minus(three), Fixed { raw: -5 * (ONE / 2) });
    assert_eq!(three.times(half), Fixed { raw: 3 * ONE / 2 });
    assert_eq!(half.minus(three).times(half), Fixed { raw: -5 * (ONE / 4) });
    assert_eq!(three.over(half), Fixed::from_count(6));
    assert_eq!(Fixed::from_count(1).over(three), Fixed { raw: 1431655765 });
    assert_eq!(half.minus(three).over(three), Fixed { raw: -3579139413 });
    assert_eq!(Fixed::from_count(9).sqrt(), three);
    assert_eq!(Fixed::from_count(2).sqrt(), Fixed { raw: 6074000999 });
    assert_eq!(Fixed { raw: -1 }.sqrt(), Fixed { raw: 0 });
    assert_eq!(half.minus(three).abs(), Fixed { raw: 5 * (ONE / 2) });
    assert!(half.lt(three) && half.le(half) && !three.lt(three));
}

#[test]
fn fixed_point_saturates() {
    let top = Fixed { raw: i64::MAX };
    let bottom = Fixed { raw: i64::MIN };
    let one = Fixed::from_count(1);
    assert_eq!(top.plus(one), top);
    assert_eq!(bottom.minus(one), bottom);
    assert_eq!(top.times(top), top);
    assert_eq!(bottom.times(top), bottom);
    assert_eq!(bottom.abs(), top);
    assert_eq!(one.over(Fixed { raw: 0 }), top);
    assert_eq!(bottom.over(Fixed { raw: 0 }), bottom);
    assert_eq!(Fixed { raw: 0 }.over(Fixed { raw: 0 }), Fixed { raw: 0 });
    assert_eq!(Fixed::from_count(usize::MAX), top);
}

#[test]
fn fixed_point_counts() {
    let x = Fixed { raw: 2 * ONE + ONE / 2 };
    assert_eq!((x.floor_count(), x.ceil_count(), x.round_count()), (2, 3, 3));
    let y = Fixed { raw: 2 * ONE + ONE / 2 - 1 };
    assert_eq!((y.floor_count(), y.ceil_count(), y.round_count()), (2, 3, 2));
    let z = Fixed { raw: -ONE };
    assert_eq!((z.floor_count(), z.ceil_count(), z.round_count()), (0, 0, 0));
    assert_eq!(Fixed::from_count(7).ceil_count(), 7);
}

fn sample(v: f32) -> Fixed {
    let b = v.to_le_bytes();
    Fixed::from_le_bytes(b[0], b[1], b[2], b[3])
}

#[test]
fn fixed_point_samples() {
    assert_eq!(sample(1.0), Fixed { raw: ONE });
    assert_eq!(sample(-0.5), Fixed { raw: -ONE / 2 });
    assert_eq!(sample(0.0), Fixed { raw: 0 });
    assert_eq!(sample(-0.0), Fixed { raw: 0 });
    assert_eq!(sample(3.25), Fixed { raw: 13 * (ONE / 4) });
    assert_eq!(sample(0.1), Fixed { raw: 429496736 });
    assert_eq!(sample(-0.1), Fixed { raw: -429496736 });
    assert_eq!(sample(1e-9), Fixed { raw: 4 });
    assert_eq!(sample(-1e-9), Fixed { raw: -4 });
    assert_eq!(sample(1e-30), Fixed { raw: 0 });
    assert_eq!(sample(f32::from_bits(1)), Fixed { raw: 0 });
    assert_eq!(sample(2147483520.0), Fixed { raw: 2147483520 * ONE });
    assert_eq!(sample(2147483648.0), Fixed { raw: i64::MAX });
    assert_eq!(sample(-2147483648.0), Fixed { raw: i64::MIN });
    assert_eq!(sample(1e30), Fixed { raw: i64::MAX });
    assert_eq!(sample(f32::INFINITY), Fixed { raw: i64::MAX });
    assert_eq!(sample(f32::NEG_INFINITY), Fixed { raw: i64::MIN });
    assert_eq!(sample(f32::NAN), Fixed { raw: 0 });
}

#[test]
fn samples_agree_with_floats() {
    for k in 0..20000u32 {
        let v = f32::from_bits(k.wrapping_mul(214_013).wrapping_add(k << 17));
        if v.is_finite() {
            // Casts cut toward zero and saturate.
            let expected = (v as f64 * ONE as f64) as i64;
            assert_eq!(sample(v), Fixed { raw: expected });
        }
    }
}
