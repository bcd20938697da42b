use nix_visualizer::bands::{
    cap_to_stream, edge_exponent, edge_from, fft_to_log_bars, interpolate_magnitude,
    log_band_edges, way_left,
};
use nix_visualizer::bars::BarState;
use nix_visualizer::frame::{bin_width, hann_angle, hann_weight, hann_window, windowed};
use nix_visualizer::gate::NoiseGate;
use nix_visualizer::normalize::{decibels, level, over_reference, Normalizer};
use nix_visualizer::scalar::{
    clamp, filled, max_of, mean, one, peak, ratio, sample_peak, zero, Curves, Sample, Scalar,
};
use nix_visualizer::smooth::{position, spatial_smooth};
use nix_visualizer::text::{write_frame_text, Printed};
use nix_visualizer::visualizer::{Shape, Visualizer};

/// Single-precision scalars, as the program uses them.
#[derive(Clone, Copy, Debug, PartialEq)]
struct Real(f32);

impl Scalar for Real {
    fn from_count(n: usize) -> Self {
        Real(n as f32)
    }
    fn plus(self, rhs: Self) -> Self {
        Real(self.0 + rhs.0)
    }
    fn minus(self, rhs: Self) -> Self {
        Real(self.0 - rhs.0)
    }
    fn times(self, rhs: Self) -> Self {
        Real(self.0 * rhs.0)
    }
    fn over(self, rhs: Self) -> Self {
        Real(self.0 / rhs.0)
    }
    fn sqrt(self) -> Self {
        Real(self.0.sqrt())
    }
    fn abs(self) -> Self {
        Real(self.0.abs())
    }
    fn lt(self, rhs: Self) -> bool {
        self.0 < rhs.0
    }
    fn le(self, rhs: Self) -> bool {
        self.0 <= rhs.0
    }
    fn floor_count(self) -> usize {
        self.0.floor() as usize
    }
    fn ceil_count(self) -> usize {
        self.0.ceil() as usize
    }
    fn round_count(self) -> usize {
        self.0.round() as usize
    }

    // The model of each operation is the operation itself.
    fn spec_from_count(n: usize) -> Self {
        Self::from_count(n)
    }
    fn spec_plus(self, rhs: Self) -> Self {
        self.plus(rhs)
    }
    fn spec_minus(self, rhs: Self) -> Self {
        self.minus(rhs)
    }
    fn spec_times(self, rhs: Self) -> Self {
        self.times(rhs)
    }
    fn spec_over(self, rhs: Self) -> Self {
        self.over(rhs)
    }
    fn spec_sqrt(self) -> Self {
        self.sqrt()
    }
    fn spec_abs(self) -> Self {
        self.abs()
    }
    fn spec_lt(self, rhs: Self) -> bool {
        self.lt(rhs)
    }
    fn spec_le(self, rhs: Self) -> bool {
        self.le(rhs)
    }
    fn spec_floor_count(self) -> usize {
        self.floor_count()
    }
    fn spec_ceil_count(self) -> usize {
        self.ceil_count()
    }
    fn spec_round_count(self) -> usize {
        self.round_count()
    }
    fn lt_implies_le(_x: Self, _y: Self) {}
    fn le_excludes_gt(_x: Self, _y: Self) {}
}

impl Sample for Real {
    fn from_le_bytes(b0: u8, b1: u8, b2: u8, b3: u8) -> Self {
        Real(f32::from_le_bytes([b0, b1, b2, b3]))
    }
    fn spec_from_le_bytes(b0: u8, b1: u8, b2: u8, b3: u8) -> Self {
        Self::from_le_bytes(b0, b1, b2, b3)
    }
}

impl Curves for Real {
    fn ln(self) -> Self {
        Real(self.0.ln())
    }
    fn exp(self) -> Self {
        Real(self.0.exp())
    }
    fn powf(self, exponent: Self) -> Self {
        Real(self.0.powf(exponent.0))
    }
    fn log10(self) -> Self {
        Real(self.0.log10())
    }
    fn cos(self) -> Self {
        Real(self.0.cos())
    }
}

impl Printed for Real {
    fn append_text(self, precision: usize, line: &mut String) {
        line.push_str(&format!("{:.*}", precision, self.0));
    }
    fn spec_text_len(self, precision: usize) -> usize {
        format!("{:.*}", precision, self.0).chars().count()
    }
    fn spec_text_char(self, precision: usize, i: usize) -> char {
        format!("{:.*}", precision, self.0).chars().nth(i).unwrap_or(' ')
    }
}

fn reals(values: &[f32]) -> Vec<Real> {
    values.iter().map(|v| Real(*v)).collect()
}

fn floats(values: &[Real]) -> Vec<f32> {
    values.iter().map(|v| v.0).collect()
}

fn close(a: f32, b: f32) -> bool {
    (a - b).abs() <= 1e-4 * b.abs().max(1.0)
}

#[test]
fn fractions_are_the_literals() {
    assert_eq!(ratio::<Real>(1, 1000).0, 0.001);
    assert_eq!(ratio::<Real>(1, 1_000_000).0, 1e-6);
    assert_eq!(ratio::<Real>(1, 100_000_000).0, 1e-8);
    assert_eq!(ratio::<Real>(995, 1000).0, 0.995);
    assert_eq!(ratio::<Real>(999, 1000).0, 0.999);
    assert_eq!(ratio::<Real>(101, 100).0, 1.01);
    assert_eq!(ratio::<Real>(1, 100).0, 0.01);
    assert_eq!(zero::<Real>().0, 0.0);
    assert_eq!(one::<Real>().0, 1.0);
}

#[test]
fn max_and_clamp_agree_with_floats() {
    let nan = f32::NAN;
    for (a, b) in [(1.0, 2.0), (2.0, 1.0), (nan, 1.0), (1.0, nan), (-1.0, 0.0)] {
        assert_eq!(max_of(Real(a), Real(b)).0, a.max(b));
    }
    assert!(max_of(Real(nan), Real(nan)).0.is_nan());
    for x in [-1.0, 0.0, 0.5, 1.0, 2.0] {
        assert_eq!(clamp(Real(x), Real(0.0), Real(1.0)).0, x.clamp(0.0, 1.0));
    }
    assert!(clamp(Real(nan), Real(0.0), Real(1.0)).0.is_nan());
}

#[test]
fn peaks_and_means() {
    assert_eq!(peak(&reals(&[0.5, 3.0, 1.0])).0, 3.0);
    assert_eq!(peak(&reals(&[-1.0, -2.0])).0, 0.0);
    assert_eq!(peak::<Real>(&[]).0, 0.0);
    assert_eq!(sample_peak(&reals(&[0.5, -3.0, 1.0])).0, 3.0);
    assert_eq!(mean(&reals(&[1.0, 2.0, 6.0])).0, 3.0);
    assert_eq!(filled(Real(2.5), 3), reals(&[2.5, 2.5, 2.5]));
}

#[test]
fn edges_are_log_spaced() {
    let edges = log_band_edges(2, Real(100.0), Real(400.0), Real(1.0));
    assert_eq!(edges.len(), 3);
    assert!(close(edges[0].0, 100.0));
    assert!(close(edges[1].0, 200.0));
    assert!(close(edges[2].0, 400.0));
}

#[test]
fn warp_moves_bars() {
    let plain = log_band_edges(8, Real(30.0), Real(18000.0), Real(1.0));
    let high = log_band_edges(8, Real(30.0), Real(18000.0), Real(2.0));
    let low = log_band_edges(8, Real(30.0), Real(18000.0), Real(0.5));
    assert!(high[4].0 > plain[4].0);
    assert!(low[4].0 < plain[4].0);
    assert!(close(high[8].0, 18000.0));
}

#[test]
fn edges_keep_their_bounds() {
    let edges = log_band_edges(4, Real(-5.0), Real(0.5), Real(1.0));
    assert!(close(edges[0].0, 1.0));
    assert!(close(edges[4].0, 1.01));
}

#[test]
fn interpolation_between_bins() {
    let spectrum = reals(&[0.0, 10.0, 20.0]);
    assert_eq!(interpolate_magnitude(&spectrum, Real(1.0), Real(0.25)).0, 2.5);
    assert_eq!(interpolate_magnitude(&spectrum, Real(2.0), Real(3.0)).0, 15.0);
    assert_eq!(interpolate_magnitude(&spectrum, Real(1.0), Real(2.0)).0, 20.0);
    assert_eq!(interpolate_magnitude(&spectrum, Real(1.0), Real(99.0)).0, 20.0);
    assert_eq!(interpolate_magnitude(&spectrum, Real(1.0), Real(-4.0)).0, 0.0);
    assert_eq!(interpolate_magnitude::<Real>(&[], Real(1.0), Real(1.0)).0, 0.0);
    assert_eq!(interpolate_magnitude(&spectrum, Real(0.0), Real(1.0)).0, 20.0);
}

#[test]
fn narrow_bands_are_read_at_their_center() {
    let spectrum = reals(&[0.0, 1.0, 2.0, 3.0, 4.0, 5.0, 6.0, 7.0, 8.0, 9.0]);
    let bars = fft_to_log_bars(&spectrum, Real(1.0), &reals(&[2.0, 4.0]), Real(0.35));
    assert_eq!(bars.len(), 1);
    let center = (2.0f32 * 4.0).sqrt();
    assert_eq!(bars[0].0, 2.0 + (3.0 - 2.0) * (center - 2.0));
}

#[test]
fn wide_bands_are_averaged() {
    let spectrum = reals(&[0.0, 3.0, 4.0, 5.0, 9.0]);
    let bars = fft_to_log_bars(&spectrum, Real(1.0), &reals(&[1.0, 4.0]), Real(0.25));
    let rms = ((9.0f32 + 16.0 + 25.0) / 3.0).sqrt();
    assert_eq!(bars[0].0, rms * 0.75 + 5.0 * 0.25);
    let clamped = fft_to_log_bars(&spectrum, Real(1.0), &reals(&[1.0, 4.0]), Real(7.0));
    assert_eq!(clamped[0].0, 5.0);
}

#[test]
fn bands_past_the_spectrum_are_silent() {
    let spectrum = reals(&[1.0, 1.0, 1.0]);
    let bars = fft_to_log_bars(&spectrum, Real(1.0), &reals(&[0.0, 3.0, 9.0]), Real(0.0));
    assert_eq!(floats(&bars), vec![1.0, 0.0]);
    assert!(fft_to_log_bars(&spectrum, Real(1.0), &reals(&[1.0]), Real(0.0)).is_empty());
}

#[test]
fn smoothing_weighs_neighbours() {
    let out = spatial_smooth(&reals(&[0.0, 1.0, 0.0]), 1);
    assert_eq!(floats(&out), vec![1.0 / 3.0, 3.0 / 7.0, 2.0 / 5.0]);
    assert_eq!(floats(&spatial_smooth(&reals(&[0.0, 15.0]), 1)), vec![5.0, 9.0]);
    assert_eq!(position::<Real>(1, 3).0, 0.5);
    assert_eq!(position::<Real>(0, 1).0, 0.0);
}

#[test]
fn no_radius_smooths_nothing() {
    let bars = reals(&[0.5, 0.25, 0.75]);
    assert_eq!(spatial_smooth(&bars, 0), bars);
    assert!(spatial_smooth::<Real>(&[], 3).is_empty());
    assert_eq!(floats(&spatial_smooth(&reals(&[0.5]), 2)), vec![0.5]);
}

#[test]
fn gate_follows_and_subtracts() {
    let mut gate = NoiseGate::new(2, Real(0.97), Real(1.4));
    let out = gate.apply(&reals(&[1.0, 0.0]));
    let floor = 1e-6f32 * 0.97 + 1.0 * (1.0 - 0.97);
    assert_eq!(gate.floor[0].0, floor);
    assert_eq!(out[0].0, 1.0 - floor * 1.4);
    assert_eq!(gate.floor[1].0, 0.0);
    assert_eq!(out[1].0, 0.0);
    let quiet = gate.apply(&reals(&[0.001, 0.0]));
    assert_eq!(gate.floor[0].0, 0.001);
    assert_eq!(quiet[0].0, 0.0);
}

#[test]
fn gate_settings_are_bounded() {
    let gate = NoiseGate::new(1, Real(5.0), Real(0.2));
    assert_eq!(gate.rise.0, 0.999);
    assert_eq!(gate.margin.0, 1.0);
    assert_eq!(gate.floor[0].0, 1e-6);
}

#[test]
fn normalizer_tracks_peaks() {
    let mut n = Normalizer::new(2, Real(36.0), Real(0.75));
    let levels = n.normalize(&reals(&[0.5, 0.0]), Real(1.0));
    assert_eq!(n.running_max.0, 0.5);
    assert_eq!(n.band_running_max[0].0, 0.5);
    assert_eq!(n.band_running_max[1].0, 1e-3f32 * 0.995);
    assert!(close(levels[0].0, 1.0));
    assert_eq!(levels[1].0, 0.001);
    let later = n.normalize(&reals(&[0.25, 0.0]), Real(1.0));
    assert_eq!(n.running_max.0, 0.5f32 * 0.995);
    let reference = (0.5f32 * 0.995).powf(0.25) * (0.5f32 * 0.995).powf(0.75);
    let db = 20.0 * (0.25f32 / reference).log10();
    assert_eq!(later[0].0, ((db + 36.0) / 36.0).clamp(0.0, 1.0));
}

#[test]
fn running_peaks_decay_without_louder_values() {
    let mut n = Normalizer::new(1, Real(36.0), Real(0.5));
    n.normalize(&reals(&[2.0]), Real(1.0));
    let mut last = n.running_max.0;
    for _ in 0..50 {
        n.normalize(&reals(&[0.1]), Real(1.0));
        assert!(0.1 <= n.running_max.0 && n.running_max.0 <= last);
        last = n.running_max.0;
    }
    n.normalize(&reals(&[3.0]), Real(1.0));
    assert_eq!(n.running_max.0, 3.0);
}

#[test]
fn normalizer_settings_are_bounded() {
    let n = Normalizer::new(0, Real(0.0), Real(9.0));
    assert_eq!(n.dynamic_range_db.0, 1.0);
    assert_eq!(n.band_independence.0, 1.0);
    assert_eq!(n.decay.0, 0.995);
}

#[test]
fn levels_fill_the_range() {
    assert_eq!(level(Real(0.0), Real(36.0), Real(2.0)).0, 2.0);
    assert_eq!(level(Real(12.0), Real(36.0), Real(2.0)).0, 2.0);
    assert_eq!(level(Real(-18.0), Real(36.0), Real(2.0)).0, 1.0);
    assert_eq!(level(Real(-36.0), Real(36.0), Real(2.0)).0, 0.001);
    assert_eq!(level(Real(-90.0), Real(36.0), Real(2.0)).0, 0.001);
}

#[test]
fn bars_rise_and_fall() {
    let mut bars = BarState::new(
        2,
        Real(0.001),
        Real(0.9),
        Real(0.1),
        Real(0.4),
        Real(2.0),
        Real(1.0),
    );
    assert_eq!(floats(&bars.base_gravity), vec![0.1, 0.1f32 * 1.4]);
    bars.update(&reals(&[1.0, 0.5]));
    let top = 0.001f32 + (1.0 - 0.001) * 0.9;
    assert_eq!(bars.value[0].0, top);
    assert_eq!(bars.velocity[0].0, 0.0);

    bars.update(&reals(&[0.0, 0.5]));
    let gravity = 0.1f32 * (1.0 + 2.0 * top);
    assert_eq!(bars.velocity[0].0, gravity);
    assert_eq!(bars.value[0].0, top - gravity);

    bars.update(&reals(&[0.0, 0.5]));
    bars.update(&reals(&[0.0, 0.5]));
    assert_eq!(bars.value[0].0, 0.0);
    assert_eq!(bars.velocity[0].0, 0.0);
}

#[test]
fn bar_settings_are_bounded() {
    let bars = BarState::new(
        1,
        Real(0.001),
        Real(3.0),
        Real(-1.0),
        Real(0.0),
        Real(-2.0),
        Real(0.0),
    );
    assert_eq!(bars.attack[0].0, 1.0);
    assert_eq!(bars.base_gravity[0].0, 0.0);
    assert_eq!(bars.gravity_db_scale.0, 0.0);
    assert_eq!(bars.bar_max.0, 1e-6);
}

#[test]
fn window_and_padding() {
    let turn = 2.0 * std::f32::consts::PI;
    let window = hann_window(5, Real(turn));
    assert_eq!(window.len(), 5);
    for i in 0..5 {
        let expected = 0.5 - 0.5 * ((turn * i as f32) / 4.0).cos();
        assert_eq!(window[i].0, expected);
    }
    let input = windowed(&reals(&[2.0, 4.0]), &reals(&[0.5, 0.25]), 4);
    assert_eq!(floats(&input), vec![1.0, 1.0, 0.0, 0.0]);
    assert_eq!(bin_width::<Real>(48000, 8192).0, 48000.0 / 8192.0);
}

#[test]
fn lines_are_comma_separated() {
    let mut line = String::from("left over");
    write_frame_text(&mut line, &reals(&[0.001, 0.5, 1.0]), 4);
    assert_eq!(line, "0.0010,0.5000,1.0000\n");
    write_frame_text::<Real>(&mut line, &[], 4);
    assert_eq!(line, "\n");
    write_frame_text(&mut line, &reals(&[0.25]), 1);
    assert_eq!(line, "0.2\n");
}

#[test]
fn the_line_buffer_is_reused() {
    let mut line = String::new();
    write_frame_text(&mut line, &reals(&[0.125; 40]), 8);
    let (place, room) = (line.as_ptr(), line.capacity());
    write_frame_text(&mut line, &reals(&[0.5]), 2);
    assert_eq!(line, "0.50\n");
    assert_eq!((line.as_ptr(), line.capacity()), (place, room));
}

#[test]
fn what_follows_the_curves() {
    assert_eq!(way_left::<Real>(0, 4).0, 1.0);
    assert_eq!(way_left::<Real>(1, 4).0, 0.75);
    assert_eq!(way_left::<Real>(4, 4).0, 0.0);
    assert_eq!(edge_exponent(Real(6.0), Real(0.25)).0, 4.5);
    assert_eq!(edge_from(Real(30.0), Real(2.5)).0, 75.0);
    assert_eq!(hann_angle(1, 5, Real(6.0)).0, 1.5);
    assert_eq!(hann_weight(Real(1.0)).0, 0.0);
    assert_eq!(hann_weight(Real(0.0)).0, 0.5);
    assert_eq!(hann_weight(Real(-1.0)).0, 1.0);
    assert_eq!(over_reference(Real(3.0), Real(0.5), Real(2.0)).0, 3.0);
    assert_eq!(over_reference(Real(0.0), Real(0.5), Real(2.0)).0, 1e-8);
    assert_eq!(decibels(Real(-1.5)).0, -30.0);
}

#[test]
fn a_larger_warp_never_lowers_an_edge() {
    let warps = [0.01, 0.5, 1.0, 1.5, 3.0];
    for pair in warps.windows(2) {
        let weak = log_band_edges(12, Real(30.0), Real(18000.0), Real(pair[0]));
        let strong = log_band_edges(12, Real(30.0), Real(18000.0), Real(pair[1]));
        for (a, b) in weak.iter().zip(&strong) {
            assert!(a.0 <= b.0);
        }
    }
    let low = log_band_edges(3, Real(30.0), Real(18000.0), Real(-2.0));
    assert_eq!(low, log_band_edges(3, Real(30.0), Real(18000.0), Real(0.01)));
}

#[test]
fn edges_run_upward_within_the_stream() {
    for warp in [0.3, 1.0, 2.5] {
        let cap = cap_to_stream(Real(18000.0), 22050);
        let edges = log_band_edges(16, Real(30.0), cap, Real(warp));
        assert_eq!(edges[0].0, 30.0);
        for pair in edges.windows(2) {
            assert!(pair[0].0 <= pair[1].0);
        }
        assert!(close(edges[16].0, 11025.0));
    }
}

#[test]
fn warp_shapes_the_ratios_of_edges() {
    let ratios = |warp: f32| -> Vec<f32> {
        let edges = log_band_edges(12, Real(30.0), Real(18000.0), Real(warp));
        edges.windows(2).map(|pair| pair[1].0 / pair[0].0).collect()
    };
    for pair in ratios(2.0).windows(2) {
        assert!(pair[1] <= pair[0] * 1.00001);
    }
    for pair in ratios(0.5).windows(2) {
        assert!(pair[0] <= pair[1] * 1.00001);
    }
}

#[test]
fn without_independence_louder_bands_stand_higher() {
    let mut n = Normalizer::new(5, Real(36.0), Real(0.0));
    for k in 1..20 {
        let frame = reals(&[0.02, 0.3, 0.1 * k as f32, 0.05, 2.0]);
        let levels = n.normalize(&frame, Real(1.5));
        for i in 0..5 {
            for j in 0..5 {
                if frame[i].0 <= frame[j].0 {
                    assert!(levels[i].0 <= levels[j].0);
                }
            }
        }
        assert_eq!(n.running_max.0, 2.0);
        assert_eq!(levels[4].0, 1.5);
    }
}

#[test]
fn independent_bars_do_not_affect_each_other() {
    let mut a = Normalizer::new(3, Real(36.0), Real(1.0));
    let mut b = Normalizer::new(3, Real(36.0), Real(1.0));
    for k in 1..30 {
        let v = (k % 7) as f32 * 0.1;
        let x = a.normalize(&reals(&[5.0, v, 0.01]), Real(1.0));
        let y = b.normalize(&reals(&[0.0, v, 9.0]), Real(1.0));
        assert_eq!(x[1], y[1]);
        assert_eq!(a.band_running_max[1], b.band_running_max[1]);
    }
    assert!(a.running_max != b.running_max);
}

fn shape() -> Shape<Real> {
    Shape {
        num_bars: 8,
        bar_max: Real(1.0),
        min_freq: Real(30.0),
        max_freq: Real(18000.0),
        freq_warp: Real(1.0),
        attack: Real(0.9),
        release: Real(0.5),
        release_high_boost: Real(0.4),
        gravity_db_scale: Real(2.0),
        spatial_smooth_max_radius: 2,
        peak_mix: Real(0.35),
        dynamic_range_db: Real(36.0),
        noise_gate_rise: Real(0.97),
        noise_gate_margin: Real(1.4),
        band_independence: Real(0.75),
    }
}

#[test]
fn a_frame_runs_every_stage() {
    let s = shape();
    let mut v = Visualizer::new(shape(), 48000);
    assert_eq!(v.edges.len(), 9);
    assert_eq!(v.bar_state.value, filled(Real(0.001), 8));

    let magnitudes: Vec<Real> = (0..512).map(|i| Real(((i * 37) % 101) as f32)).collect();
    let bin_hz = bin_width(48000, 1024);
    let levels = v.frame(&magnitudes, bin_hz);

    let edges = log_band_edges(8, s.min_freq, s.max_freq, s.freq_warp);
    let raw = fft_to_log_bars(&magnitudes, bin_hz, &edges, s.peak_mix);
    let gated = NoiseGate::new(8, s.noise_gate_rise, s.noise_gate_margin).apply(&raw);
    let expected =
        Normalizer::new(8, s.dynamic_range_db, s.band_independence).normalize(&gated, s.bar_max);
    assert_eq!(levels, expected);
    let mut bars = BarState::new(
        8,
        Real(0.001),
        s.attack,
        s.release,
        s.release_high_boost,
        s.gravity_db_scale,
        s.bar_max,
    );
    bars.update(&spatial_smooth(&levels, 2));
    assert_eq!(v.bar_state.value, bars.value);
}

#[test]
fn bands_end_at_half_the_sample_rate() {
    assert_eq!(cap_to_stream(Real(18000.0), 48000).0, 18000.0);
    assert_eq!(cap_to_stream(Real(18000.0), 16000).0, 8000.0);
    let mut v = Visualizer::new(shape(), 48000);
    assert!(close(v.edges[8].0, 18000.0));
    v.retune(48000);
    assert!(close(v.edges[8].0, 18000.0));
    v.retune(16000);
    assert_eq!(v.sample_rate, 16000);
    assert_eq!(v.edges.len(), 9);
    assert!(close(v.edges[0].0, 30.0));
    assert!(close(v.edges[8].0, 8000.0));
}

#[test]
fn bars_stay_between_the_floor_and_the_top() {
    let mut v = Visualizer::new(shape(), 48000);
    for round in 0..200usize {
        let magnitudes: Vec<Real> = (0..512)
            .map(|i| Real((((i + 1) * (round * 31 + 7)) % 997) as f32 * 0.01))
            .collect();
        v.frame(&magnitudes, bin_width(48000, 1024));
        for bar in &v.bar_state.value {
            // Up to the rounding of single precision.
            assert!(bar.0 >= 0.001 - 1e-8 && bar.0 <= 1.0 + 1e-6);
        }
    }
}
