use nix_visualizer::bands::{edge_exponent, edge_from, fft_to_log_bars, interpolate_magnitude};
use nix_visualizer::bars::BarState;
use nix_visualizer::fixed::{Fixed, ONE};
use nix_visualizer::frame::hann_weight;
use nix_visualizer::gate::NoiseGate;
use nix_visualizer::normalize::{decibels, level, over_reference, Normalizer};
use nix_visualizer::scalar::{ratio, Scalar};
use nix_visualizer::smooth::spatial_smooth;
use nix_visualizer::text::write_frame_text;

fn raw(values: &[i64]) -> Vec<Fixed> {
    values.iter().map(|v| Fixed { raw: *v }).collect()
}

fn num(n: usize) -> Fixed {
    Fixed::from_count(n)
}

fn part(a: usize, b: usize) -> Fixed {
    ratio(a, b)
}

fn bars(attack: Fixed, gravity: Fixed, boost: Fixed, scale: Fixed) -> BarState<Fixed> {
    BarState::new(3, part(1, 1000), attack, gravity, boost, scale, num(1))
}

#[test]
fn full_attack_arrives_at_once() {
    let mut b = bars(num(1), part(1, 10), num(0), num(0));
    b.update(&[part(1, 2), part(1, 4), num(1)]);
    assert_eq!(b.value, vec![part(1, 2), part(1, 4), num(1)]);
}

#[test]
fn rising_bars_stay_between() {
    let mut slow = bars(part(1, 4), part(1, 10), num(0), num(0));
    let mut fast = bars(part(3, 4), part(1, 10), num(0), num(0));
    let target = vec![num(1); 3];
    let mut before = slow.value[0].raw;
    for _ in 0..20 {
        slow.update(&target);
        fast.update(&target);
        assert!(before <= slow.value[0].raw && slow.value[0].raw <= ONE);
        assert!(slow.value[0].raw <= fast.value[0].raw);
        before = slow.value[0].raw;
    }
}

#[test]
fn falling_bars_accelerate_and_land() {
    let mut b = bars(num(1), part(1, 100), num(0), num(0));
    b.update(&vec![num(1); 3]);
    let target = vec![part(1, 10); 3];
    let gravity = part(1, 100).raw;
    let mut frames = 0;
    while b.value[0] != part(1, 10) {
        let (value, velocity) = (b.value[0].raw, b.velocity[0].raw);
        b.update(&target);
        assert!(b.value[0].raw >= part(1, 10).raw && b.value[0].raw < value);
        if b.value[0] != part(1, 10) {
            assert_eq!(b.velocity[0].raw, velocity + gravity);
            assert_eq!(b.value[0].raw, value - b.velocity[0].raw);
        }
        frames += 1;
        assert!(frames < 100);
    }
    assert_eq!(b.velocity[0].raw, 0);
    assert_eq!(frames, 13);
}

#[test]
fn loud_and_high_bars_fall_harder() {
    let mut b = bars(num(1), part(1, 100), num(1), num(2));
    assert_eq!(b.base_gravity[0], part(1, 100));
    assert_eq!(b.base_gravity[2], part(1, 100).times(num(2)));
    assert!(b.base_gravity[0].raw < b.base_gravity[1].raw);
    b.update(&[num(1), num(1), num(1)]);
    let mut quiet = bars(num(1), part(1, 100), num(1), num(2));
    quiet.update(&[part(1, 2), part(1, 2), part(1, 2)]);
    let floor = vec![part(1, 1000); 3];
    b.update(&floor);
    quiet.update(&floor);
    assert!(b.velocity[0].raw > quiet.velocity[0].raw);
    assert_eq!(b.velocity[0], part(1, 100).times(num(3)));
    let mut flat = bars(num(1), part(1, 100), num(0), num(0));
    flat.update(&vec![num(1); 3]);
    flat.update(&floor);
    assert_eq!(flat.velocity, vec![part(1, 100); 3]);
}

#[test]
fn rising_resets_the_fall() {
    let mut b = bars(num(1), part(1, 100), num(0), num(0));
    b.update(&vec![num(1); 3]);
    b.update(&vec![num(0); 3]);
    assert!(b.velocity[0].raw > 0);
    b.update(&vec![num(1); 3]);
    assert_eq!(b.velocity[0].raw, 0);
}

#[test]
fn output_stays_in_range() {
    let mut b = bars(part(9, 10), part(1, 2), part(4, 10), num(2));
    let (lo, hi) = (part(1, 1000).raw, ONE);
    for k in 0..300i64 {
        let target = raw(&[
            lo + (k * 7919) % (hi - lo),
            lo + (k * k * 104729) % (hi - lo),
            if k % 3 == 0 { hi } else { lo },
        ]);
        b.update(&target);
        for v in &b.value {
            assert!(lo <= v.raw && v.raw <= hi);
        }
    }
}

#[test]
fn floors_snap_down_and_creep_up() {
    let mut gate = NoiseGate::new(1, part(9, 10), part(14, 10));
    gate.apply(&[num(1)]);
    let high = gate.floor[0].raw;
    assert!(0 < high && high < ONE);
    gate.apply(&[part(1, 1000)]);
    assert_eq!(gate.floor[0], part(1, 1000));
    let mut slow = NoiseGate::new(1, part(99, 100), part(14, 10));
    slow.apply(&[num(1)]);
    assert!(slow.floor[0].raw <= high + 1);
}

#[test]
fn gates_only_take_away() {
    let mut narrow = NoiseGate::new(2, part(9, 10), num(1));
    let mut wide = NoiseGate::new(2, part(9, 10), num(3));
    let values = [num(1), num(0)];
    let a = narrow.apply(&values);
    let b = wide.apply(&values);
    assert!(0 <= b[0].raw && b[0].raw <= a[0].raw && a[0].raw <= ONE);
    assert_eq!((a[1].raw, b[1].raw), (0, 0));
}

#[test]
fn levels_cover_the_dynamic_range() {
    let range = num(36);
    let below = |n: usize| num(0).minus(num(n));
    assert_eq!(level(num(0), range, num(1)), num(1));
    assert_eq!(level(num(5), range, num(1)), num(1));
    assert_eq!(level(below(36), range, num(1)), part(1, 1000));
    assert_eq!(level(below(18), range, num(1)), part(1, 2));
    let mut last = part(1, 1000).raw;
    for n in (0..40).rev() {
        let now = level(below(n), range, num(1)).raw;
        assert!(last <= now);
        assert!(now <= level(below(n), num(60), num(1)).raw);
        last = now;
    }
}

#[test]
fn smoothing_stays_between_and_local() {
    let a = raw(&[5, 90, 20, 70, 40, 10, 60, 30]);
    let mut b = a.clone();
    b[7] = Fixed { raw: 1000 };
    let (sa, sb) = (spatial_smooth(&a, 2), spatial_smooth(&b, 2));
    for v in &sa {
        assert!(5 <= v.raw && v.raw <= 90);
    }
    assert_eq!(sa[..5], sb[..5]);
    assert!(sa[5] != sb[5]);
    assert!(sa[7] != sb[7]);
    assert_eq!(sa[0].raw, (5 * 2 + 90) / 3);
    assert_eq!(sa[7].raw, (2 * 10 + 3 * 60 + 4 * 30) / (2 + 3 + 4));
    let level = raw(&[7; 5]);
    assert_eq!(spatial_smooth(&level, 3), level);
}

#[test]
fn interpolation_stays_between() {
    let spectrum = [num(2), num(8), num(4)];
    let half = part(1, 2);
    assert_eq!(interpolate_magnitude(&spectrum, num(1), half), num(5));
    assert_eq!(interpolate_magnitude(&spectrum, num(1), num(1).plus(half)), num(6));
    assert_eq!(interpolate_magnitude(&spectrum, num(1), num(9)), num(4));
}

#[test]
fn silence_stays_silent() {
    let spectrum = vec![num(0); 64];
    let edges = [num(1), num(2), num(9), num(40), num(200)];
    let bars = fft_to_log_bars(&spectrum, num(1), &edges, part(1, 3));
    assert_eq!(bars, vec![num(0); 4]);
}

#[test]
fn peak_mix_runs_from_mean_square_to_peak() {
    let spectrum = [num(0), num(3), num(3), num(3), num(0)];
    let edges = [num(0), num(5)];
    let rms = fft_to_log_bars(&spectrum, num(1), &edges, num(0))[0];
    assert_eq!(rms, num(27).over(num(5)).sqrt());
    assert_eq!(fft_to_log_bars(&spectrum, num(1), &edges, num(1))[0], num(3));
}

#[test]
fn no_bar_past_the_radius_counts() {
    for max_radius in 1..5usize {
        for far in 0..9usize {
            let mut a = raw(&[100; 9]);
            let flat = spatial_smooth(&a, max_radius);
            a[far] = Fixed { raw: 9000 };
            let bumped = spatial_smooth(&a, max_radius);
            for i in 0..9usize {
                if i.abs_diff(far) > max_radius {
                    assert_eq!(bumped[i], flat[i]);
                }
            }
            if far == 8 || far + max_radius >= 8 {
                assert!(bumped[8] != flat[8]);
            }
        }
    }
}

#[test]
fn smoothing_is_linear_and_keeps_order() {
    let a = raw(&[500, -90, 2000, 700, 41, 10]);
    let b = raw(&[501, 90, 2000, 1700, 41, 1000]);
    let sum: Vec<Fixed> = a.iter().zip(&b).map(|(x, y)| x.plus(*y)).collect();
    let half: Vec<Fixed> = a.iter().map(|x| x.times(part(1, 2))).collect();
    let (sa, sb) = (spatial_smooth(&a, 3), spatial_smooth(&b, 3));
    let (ssum, shalf) = (spatial_smooth(&sum, 3), spatial_smooth(&half, 3));
    for i in 0..6 {
        assert!(sa[i].raw <= sb[i].raw);
        assert!((ssum[i].raw - sa[i].raw - sb[i].raw).abs() <= 1);
        assert!((shalf[i].raw - sa[i].times(part(1, 2)).raw).abs() <= 3);
    }
}

#[test]
fn wide_bands_grow_with_the_peak_mix() {
    let spectrum = [num(1), num(5), num(2), num(7), num(3), num(1)];
    let edges = [num(0), num(6)];
    let value = |mix: Fixed| fft_to_log_bars(&spectrum, num(1), &edges, mix)[0];
    let rms = value(num(0)).raw;
    let mut last = rms;
    for k in 0..=10 {
        let now = value(part(k, 10)).raw;
        assert!(last <= now + 1);
        assert!(rms - 1 <= now && now <= num(7).raw);
        last = now;
    }
    assert_eq!(value(num(0).minus(num(3))), value(num(0)));
    assert_eq!(value(num(4)), value(num(1)));
    assert_eq!(value(num(1)), num(7));
}

#[test]
fn bands_scale_with_the_spectrum_and_stay_within_its_peak() {
    let spectrum: Vec<Fixed> = (0..40).map(|i| num((i * 7) % 11)).collect();
    let edges = [num(1), num(2), num(4), num(9), num(20), num(60)];
    let a = fft_to_log_bars(&spectrum, num(1), &edges, part(35, 100));
    for c in [part(1, 3), num(1), part(5, 2), num(3)] {
        let scaled: Vec<Fixed> = spectrum.iter().map(|v| v.times(c)).collect();
        let b = fft_to_log_bars(&scaled, num(1), &edges, part(35, 100));
        for (x, y) in a.iter().zip(&b) {
            assert!(0 <= x.raw && x.raw <= num(10).raw);
            let (x, y, c, one) = (x.raw as i128, y.raw as i128, c.raw as i128, ONE as i128);
            assert!(one * (y - 3) <= c * (x + 0x2_0002));
            assert!(c * (x - 1) <= one * (y + 0x2_0004));
        }
    }
}

#[test]
fn a_flat_spectrum_gives_flat_bands() {
    let spectrum = vec![num(3); 40];
    let edges = [num(1), num(2), num(4), num(9), num(39), num(60)];
    let bars = fft_to_log_bars(&spectrum, num(1), &edges, part(35, 100));
    assert_eq!(bars[0], num(3));
    for bar in &bars {
        assert!(num(3).raw - 0x1_0001 <= bar.raw && bar.raw <= num(3).raw);
    }
}

#[test]
fn a_steady_level_fades() {
    let mut gate = NoiseGate::new(1, part(9, 10), part(14, 10));
    let v = [num(1)];
    let mut out = gate.apply(&v)[0].raw;
    let mut floor = gate.floor[0].raw;
    for _ in 0..300 {
        let next = gate.apply(&v)[0].raw;
        assert!(next <= out + 2);
        assert!(floor - 1 <= gate.floor[0].raw && gate.floor[0].raw <= ONE);
        out = next;
        floor = gate.floor[0].raw;
    }
    assert_eq!(out, 0);
}

#[test]
fn silence_empties_the_floor() {
    let mut gate = NoiseGate::new(1, part(9, 10), part(14, 10));
    gate.apply(&[num(1)]);
    assert!(gate.floor[0].raw > 0);
    assert_eq!(gate.apply(&[num(0)])[0].raw, 0);
    assert_eq!(gate.floor[0].raw, 0);
    assert_eq!(gate.apply(&[num(0)])[0].raw, 0);
    assert_eq!(gate.floor[0].raw, 0);
}

#[test]
fn a_value_below_its_floor_is_held_back() {
    let mut gate = NoiseGate::new(1, part(1, 2), num(1));
    gate.apply(&[num(4)]);
    let floor = gate.floor[0].raw;
    let low = Fixed { raw: floor - 5 };
    assert_eq!(gate.apply(&[low])[0].raw, 0);
    assert_eq!(gate.floor[0], low);
}

#[test]
fn running_peaks_stay_ordered() {
    let mut n = Normalizer::new(3, num(36), part(3, 4));
    let least = part(1, 1_000_000).raw;
    assert_eq!(n.running_max, part(1, 1000));
    for k in 0..200usize {
        let frame = [part(k % 13, 10), part((k * k) % 7, 100), num(0)];
        n.track(&frame);
        for i in 0..3 {
            assert!(frame[i].raw <= n.band_running_max[i].raw);
            assert!(least <= n.band_running_max[i].raw);
            assert!(n.band_running_max[i].raw <= n.running_max.raw);
        }
    }
    let before = (n.running_max, n.band_running_max[0]);
    n.track(&[num(0), num(0), num(0)]);
    assert_eq!(n.running_max, before.0.times(part(995, 1000)));
    assert_eq!(n.band_running_max[0], before.1.times(part(995, 1000)));
    n.track(&[num(2), num(0), num(0)]);
    assert_eq!((n.running_max, n.band_running_max[0]), (num(2), num(2)));
}

#[test]
fn louder_bars_drop_further() {
    let drop_from = |top: Fixed, scale: Fixed| {
        let mut b = bars(num(1), part(1, 100), num(0), scale);
        b.update(&[top, top, top]);
        b.update(&[num(0), num(0), num(0)]);
        top.raw - b.value[0].raw
    };
    assert!(drop_from(part(1, 2), num(2)) < drop_from(num(1), num(2)));
    assert_eq!(drop_from(part(1, 2), num(0)), drop_from(num(1), num(0)));
}

#[test]
fn drops_grow_until_the_bar_rests() {
    let mut b = bars(num(1), part(1, 100), num(0), num(2));
    b.update(&[num(1), num(1), num(1)]);
    let target = [part(1, 10); 3];
    let mut drop = 0;
    loop {
        let before = b.value[0].raw;
        b.update(&target);
        if b.value[0] == target[0] {
            break;
        }
        assert!(drop <= before - b.value[0].raw);
        drop = before - b.value[0].raw;
    }
    for _ in 0..20 {
        b.update(&target);
        assert_eq!((b.value[0], b.velocity[0].raw), (target[0], 0));
    }
}

#[test]
fn what_follows_the_curves_in_fixed_point() {
    assert_eq!(edge_exponent(num(6), part(1, 4)), num(9).over(num(2)));
    assert_eq!(edge_from(num(30), part(5, 2)), num(75));
    assert_eq!(hann_weight(num(1)), num(0));
    assert_eq!(hann_weight(num(0).minus(num(1))), num(1));
    assert_eq!(hann_weight(num(0)), part(1, 2));
    assert_eq!(over_reference(num(3), part(1, 2), num(2)), num(3));
    assert_eq!(over_reference(num(0), num(1), num(1)), part(1, 100_000_000));
    assert_eq!(decibels(num(2)), num(40));
}

#[test]
fn exponents_follow_the_warped_way() {
    let steps = |ways: [i64; 4]| {
        let e: Vec<i64> = ways
            .iter()
            .map(|w| edge_exponent(num(6), Fixed { raw: *w }).raw)
            .collect();
        [e[1] - e[0], e[2] - e[1], e[3] - e[2]]
    };
    let squared = steps([ONE, ONE / 9 * 4, ONE / 9, 0]);
    assert!(squared[0] + 1 >= squared[1] && squared[1] + 1 >= squared[2]);
    let rooted = steps([ONE, ONE / 100 * 82, ONE / 100 * 58, 0]);
    assert!(rooted[0] <= rooted[1] + 1 && rooted[1] <= rooted[2] + 1);
}

fn line_of(bars: &[Fixed], precision: usize) -> String {
    let mut line = String::from("left over");
    write_frame_text(&mut line, bars, precision);
    line
}

#[test]
fn fixed_point_lines() {
    let quarter = num(0).minus(num(5).over(num(4)));
    assert_eq!(line_of(&[part(1, 2), quarter, num(123)], 3), "0.500,-1.250,123.000\n");
    assert_eq!(line_of(&[part(1, 2), num(1), part(1, 1000)], 4), "0.5000,1.0000,0.0010\n");
    assert_eq!(line_of(&[part(2, 3), Fixed { raw: i64::MIN }], 0), "1,-2147483648\n");
    assert_eq!(
        line_of(&[part(2, 3), Fixed { raw: 1 }, Fixed { raw: i64::MAX }], 10),
        "0.6666666665,0.0000000002,2147483647.9999999998\n"
    );
    assert_eq!(line_of(&[], 4), "\n");
}

#[test]
fn texts_are_rounded_to_nearest() {
    assert_eq!(line_of(&[part(15, 16)], 2), "0.94\n");
    assert_eq!(line_of(&[part(99996, 100000)], 4), "1.0000\n");
    assert_eq!(line_of(&[part(19999, 1000)], 2), "20.00\n");
    assert_eq!(line_of(&[Fixed { raw: -1 }], 2), "-0.00\n");
    assert_eq!(line_of(&[Fixed { raw: i64::MAX }], 0), "2147483648\n");
    // Halves go to the even digit.
    assert_eq!(line_of(&[part(1, 2), part(3, 2), part(5, 2)], 0), "0,2,2\n");
    assert_eq!(line_of(&[part(1, 8), part(3, 8), part(1, 4), part(3, 4)], 2), "0.12,0.38,0.25,0.75\n");
    assert_eq!(line_of(&[part(1, 4), part(3, 4), part(19, 4)], 1), "0.2,0.8,4.8\n");
    assert_eq!(
        line_of(&[Fixed { raw: 1 }], 36),
        "0.000000000232830643653869628906250000\n"
    );
}

#[test]
fn texts_agree_with_floats() {
    // Multiples of 2^-20 below 16 are exact in both number types.
    for k in 0..4000i64 {
        let units = (k * 4_194_301) % (16 << 20);
        let x = Fixed { raw: units << 12 };
        let f = units as f64 / (1 << 20) as f64;
        for precision in [0usize, 1, 2, 4, 7, 19, 25] {
            assert_eq!(line_of(&[x], precision), format!("{:.*}\n", precision, f));
        }
    }
}

#[test]
fn a_line_splits_back_into_its_fields() {
    let line = line_of(&[part(1, 10), num(0).minus(num(2)), num(3)], 1);
    assert_eq!(line.matches('\n').count(), 1);
    let back: Vec<&str> = line.trim_end_matches('\n').split(',').collect();
    assert_eq!(back, vec!["0.1", "-2.0", "3.0"]);
}
