//! The whole way from a spectrum to bars.

use vstd::prelude::*;

use crate::bands::{
    are_edges, cap_to_stream, edge_span, exponential_undoes, fft_to_log_bars,
    law_edges_run_upward, law_edges_stay_within_stream, log_band_edges, lowest_edge, powers_rise,
    spec_band, spec_cap_to_stream, spec_log_bars, warp_in_use,
};
use crate::bars::{
    bars_within, gravity_at, law_bars_stay_in_range, law_fall_never_undershoots, BarState,
};
use crate::fixed::Fixed;
use crate::gate::{above_floor, followed_floor, NoiseGate};
use crate::normalize::{is_level, law_frame_stays_in_range, Normalizer};
use crate::scalar::{
    ordered_arithmetic, ratio, spec_clamp, spec_one, spec_ratio, spec_zero, total_order,
    unit_arithmetic, Curves, Scalar,
};
use crate::smooth::{
    frame_fits, law_smoothed_frame_stays_between, spatial_smooth, spec_spatial_smooth,
};

verus! {

/// What shapes the bars.
pub struct Shape<S> {
    /// The number of bars.
    pub num_bars: usize,
    /// The full bar.
    pub bar_max: S,
    /// The lowest frequency in hertz.
    pub min_freq: S,
    /// The highest frequency in hertz.
    pub max_freq: S,
    /// How bars are shared out between low and high frequencies.
    pub freq_warp: S,
    /// How much of the way up a bar goes in a frame.
    pub attack: S,
    /// The gravity of the lowest bar.
    pub release: S,
    /// How much more gravity the highest bar has.
    pub release_high_boost: S,
    /// How much loudness adds to gravity.
    pub gravity_db_scale: S,
    /// How far away a bar may be and still be mixed into another.
    pub spatial_smooth_max_radius: usize,
    /// The share of the peak in wide bands.
    pub peak_mix: S,
    /// How many decibels below the running peak are shown.
    pub dynamic_range_db: S,
    /// How slowly noise floors rise.
    pub noise_gate_rise: S,
    /// How far above its noise floor a value must be to count.
    pub noise_gate_margin: S,
    /// How much a band is measured against itself rather than against all bands.
    pub band_independence: S,
}

/// The stages and what each remembers between frames.
pub struct Visualizer<S> {
    pub shape: Shape<S>,
    /// The sample rate that the bands are laid out for.
    pub sample_rate: u32,
    pub edges: Vec<S>,
    pub noise_gate: NoiseGate<S>,
    pub normalizer: Normalizer<S>,
    pub bar_state: BarState<S>,
}

/// Whether `edges` lay out the bands that `shape` asks for, as far as a stream with
/// the given sample rate carries them.
pub open spec fn lays_out<S: Curves>(edges: Seq<S>, shape: Shape<S>, sample_rate: u32) -> bool {
    let max_freq = spec_cap_to_stream(shape.max_freq, sample_rate);
    exists|log_span: S|
        {
            &&& #[trigger] call_ensures(S::ln, (edge_span(shape.min_freq, max_freq),), log_span)
            &&& are_edges(edges, shape.num_bars, shape.min_freq, log_span, shape.freq_warp)
        }
}

/// The edges of the bands that `shape` asks for.
fn layout<S: Curves>(shape: &Shape<S>, sample_rate: u32) -> (edges: Vec<S>)
    requires
        shape.num_bars < usize::MAX,
    ensures
        lays_out(edges@, *shape, sample_rate),
{
    let max_freq: S = cap_to_stream(shape.max_freq, sample_rate);
    log_band_edges(shape.num_bars, shape.min_freq, max_freq, shape.freq_warp)
}

impl<S: Curves> Visualizer<S> {
    /// Every stage works on the same number of bars, and the bands are those of the
    /// shape at the sample rate.
    pub open spec fn wf(self) -> bool {
        &&& self.shape.num_bars < usize::MAX
        &&& self.noise_gate.floor.len() == self.shape.num_bars
        &&& self.normalizer.band_running_max.len() == self.shape.num_bars
        &&& self.bar_state.value.len() == self.shape.num_bars
        &&& self.bar_state.wf()
        &&& lays_out(self.edges@, self.shape, self.sample_rate)
    }

    /// Whether a frame with the given spectrum makes this of `before`, with `levels`
    /// as the normalized bands.
    ///
    /// Bands are aggregated, gated, normalized and smoothed across, in that order, and
    /// the bars move toward what comes out.
    pub open spec fn follows(
        self,
        before: Self,
        magnitudes: Seq<S>,
        bin_hz: S,
        levels: Seq<S>,
    ) -> bool {
        let shape = before.shape;
        let raw = spec_log_bars(magnitudes, bin_hz, before.edges@, shape.peak_mix);
        &&& self.shape == shape
        &&& self.sample_rate == before.sample_rate
        &&& self.edges@ == before.edges@
        &&& exists|gated: Seq<S>|
            {
                &&& #[trigger] self.noise_gate.follows(before.noise_gate, raw, gated)
                &&& self.normalizer.follows(before.normalizer, gated, shape.bar_max, levels)
            }
        &&& self.bar_state.follows(
            before.bar_state,
            spec_spatial_smooth(levels, shape.spatial_smooth_max_radius),
        )
    }

    /// The stages as `shape` asks for them, with every bar at 0.001.
    pub fn new(shape: Shape<S>, sample_rate: u32) -> (v: Self)
        requires
            shape.num_bars < usize::MAX,
        ensures
            v.wf(),
            v.shape == shape,
            v.sample_rate == sample_rate,
            exists|log_span: S|
                {
                    &&& #[trigger] call_ensures(
                        S::ln,
                        (edge_span(shape.min_freq, spec_cap_to_stream(shape.max_freq, sample_rate)),),
                        log_span,
                    )
                    &&& are_edges(
                        v.edges@,
                        shape.num_bars,
                        shape.min_freq,
                        log_span,
                        shape.freq_warp,
                    )
                },
            v.noise_gate.is_new(shape.num_bars, shape.noise_gate_rise, shape.noise_gate_margin),
            v.normalizer.is_new(shape.num_bars, shape.dynamic_range_db, shape.band_independence),
            v.bar_state.is_new(
                shape.num_bars,
                spec_ratio(1, 1000),
                shape.attack,
                shape.release,
                shape.release_high_boost,
                shape.gravity_db_scale,
                shape.bar_max,
            ),
    {
        let edges: Vec<S> = layout(&shape, sample_rate);
        let noise_gate: NoiseGate<S> = NoiseGate::new(
            shape.num_bars,
            shape.noise_gate_rise,
            shape.noise_gate_margin,
        );
        let normalizer: Normalizer<S> = Normalizer::new(
            shape.num_bars,
            shape.dynamic_range_db,
            shape.band_independence,
        );
        let bar_state: BarState<S> = BarState::new(
            shape.num_bars,
            ratio(1, 1000),
            shape.attack,
            shape.release,
            shape.release_high_boost,
            shape.gravity_db_scale,
            shape.bar_max,
        );
        Visualizer { shape, sample_rate, edges, noise_gate, normalizer, bar_state }
    }

    /// Lays the bands out anew where the sample rate has changed.
    pub fn retune(&mut self, sample_rate: u32)
        requires
            old(self).wf(),
        ensures
            final(self).wf(),
            final(self).shape == old(self).shape,
            final(self).sample_rate == sample_rate,
            sample_rate == old(self).sample_rate ==> final(self).edges@ == old(self).edges@,
            exists|log_span: S|
                {
                    &&& #[trigger] call_ensures(
                        S::ln,
                        (edge_span(
                            old(self).shape.min_freq,
                            spec_cap_to_stream(old(self).shape.max_freq, sample_rate),
                        ),),
                        log_span,
                    )
                    &&& are_edges(
                        final(self).edges@,
                        old(self).shape.num_bars,
                        old(self).shape.min_freq,
                        log_span,
                        old(self).shape.freq_warp,
                    )
                },
            final(self).noise_gate == old(self).noise_gate,
            final(self).normalizer == old(self).normalizer,
            final(self).bar_state == old(self).bar_state,
    {
        if sample_rate != self.sample_rate {
            self.edges = layout(&self.shape, sample_rate);
            self.sample_rate = sample_rate;
        }
    }

    /// Takes one spectrum through all stages and moves the bars; returns the normalized
    /// bands, which the bars move toward once smoothed.
    pub fn frame(&mut self, magnitudes: &[S], bin_hz: S) -> (levels: Vec<S>)
        requires
            old(self).wf(),
            old(self).shape.num_bars > 0 ==> spec_ratio::<S>(1, 1000).spec_le(
                old(self).shape.bar_max,
            ),
        ensures
            final(self).wf(),
            final(self).follows(*old(self), magnitudes@, bin_hz, levels@),
    {
        let raw: Vec<S> = fft_to_log_bars(
            magnitudes,
            bin_hz,
            self.edges.as_slice(),
            self.shape.peak_mix,
        );
        let gated: Vec<S> = self.noise_gate.apply(raw.as_slice());
        let levels: Vec<S> = self.normalizer.normalize(gated.as_slice(), self.shape.bar_max);
        let targets: Vec<S> = spatial_smooth(
            levels.as_slice(),
            self.shape.spatial_smooth_max_radius,
        );
        self.bar_state.update(targets.as_slice());
        assert(self.noise_gate.follows(old(self).noise_gate, raw@, gated@));
        levels
    }
}

/// No normalized band of a frame is below 0.001 or above the full bar, and there is one
/// for each bar.
pub proof fn law_frame_levels_stay_in_range<S: Curves>(
    before: Visualizer<S>,
    after: Visualizer<S>,
    magnitudes: Seq<S>,
    bin_hz: S,
    levels: Seq<S>,
)
    requires
        before.wf(),
        after.follows(before, magnitudes, bin_hz, levels),
        spec_ratio::<S>(1, 1000).spec_le(before.shape.bar_max),
    ensures
        levels.len() == before.shape.num_bars,
        forall|i: int|
            0 <= i < levels.len() ==> !(#[trigger] levels[i]).spec_lt(spec_ratio(1, 1000))
                && !before.shape.bar_max.spec_lt(levels[i]),
{
    let shape = before.shape;
    let raw = spec_log_bars(magnitudes, bin_hz, before.edges@, shape.peak_mix);
    let gated = choose|gated: Seq<S>|
        {
            &&& #[trigger] after.noise_gate.follows(before.noise_gate, raw, gated)
            &&& after.normalizer.follows(before.normalizer, gated, shape.bar_max, levels)
        };
    law_frame_stays_in_range(levels, gated, after.normalizer, shape.bar_max);
}

/// Bars that lie in a range stay in it through the last two stages of a frame, smoothing
/// and moving, as long as the normalized bands lie in it.
pub proof fn law_smoothed_bars_stay_in_range(
    before: BarState<Fixed>,
    after: BarState<Fixed>,
    levels: Seq<Fixed>,
    max_radius: usize,
    lo: int,
    hi: int,
)
    requires
        bars_within(before, lo, hi),
        after.wf(),
        after.follows(before, spec_spatial_smooth(levels, max_radius)),
        before.value.len() <= levels.len(),
        frame_fits(levels, max_radius),
        forall|i: int| 0 <= i < levels.len() ==> lo <= (#[trigger] levels[i]).raw <= hi,
    ensures
        bars_within(after, lo, hi),
{
    law_smoothed_frame_stays_between(levels, max_radius, lo, hi);
    law_bars_stay_in_range(before, after, spec_spatial_smooth(levels, max_radius), lo, hi);
}

/// What of band `i` of a spectrum passes above its noise floor.
pub open spec fn passed_band<S: Scalar>(
    magnitudes: Seq<S>,
    bin_hz: S,
    edges: Seq<S>,
    peak_mix: S,
    floor: S,
    margin: S,
    i: int,
) -> S {
    above_floor(
        floor,
        spec_band(
            magnitudes,
            bin_hz,
            edges[i],
            edges[i + 1],
            spec_clamp(peak_mix, spec_zero(), spec_one()),
        ),
        margin,
    )
}

/// What a frame leaves behind in each stage. The noise floors have followed the bands of
/// the spectrum. The running peaks have seen what of the bands rose above the floors,
/// and nothing but that, and the levels are measured against them. The bars have moved
/// toward the smoothed levels: one at or below its own is at rest, one above has not
/// dropped below.
pub proof fn law_frame_reaches_every_stage<S: Curves>(
    before: Visualizer<S>,
    after: Visualizer<S>,
    magnitudes: Seq<S>,
    bin_hz: S,
    levels: Seq<S>,
    i: int,
)
    requires
        before.wf(),
        after.follows(before, magnitudes, bin_hz, levels),
        0 <= i < before.shape.num_bars,
    ensures
        levels.len() == before.shape.num_bars,
        after.noise_gate.floor.len() == before.shape.num_bars,
        after.normalizer.band_running_max.len() == before.shape.num_bars,
        after.bar_state.value.len() == before.shape.num_bars,
        after.shape == before.shape,
        after.sample_rate == before.sample_rate,
        after.edges@ == before.edges@,
        after.noise_gate.rise == before.noise_gate.rise,
        after.noise_gate.margin == before.noise_gate.margin,
        after.noise_gate.floor@[i] == followed_floor(
            before.noise_gate.floor@[i],
            spec_band(
                magnitudes,
                bin_hz,
                before.edges@[i],
                before.edges@[i + 1],
                spec_clamp(before.shape.peak_mix, spec_zero(), spec_one()),
            ),
            before.noise_gate.rise,
        ),
        ({
            let passed = Seq::new(
                before.shape.num_bars as nat,
                |j: int|
                    passed_band(
                        magnitudes,
                        bin_hz,
                        before.edges@,
                        before.shape.peak_mix,
                        after.noise_gate.floor@[j],
                        before.noise_gate.margin,
                        j,
                    ),
            );
            &&& after.normalizer.tracks(before.normalizer, passed)
            &&& is_level(
                levels[i],
                passed[i],
                after.normalizer.running_max,
                after.normalizer.band_running_max@[i],
                before.normalizer.dynamic_range_db,
                before.normalizer.band_independence,
                before.shape.bar_max,
            )
        }),
        ({
            let targets = spec_spatial_smooth(levels, before.shape.spatial_smooth_max_radius);
            let s = before.bar_state.value@[i];
            &&& after.bar_state.follows(before.bar_state, targets)
            &&& s.spec_le(targets[i]) ==> after.bar_state.velocity@[i] == spec_zero::<S>()
            &&& !s.spec_le(targets[i]) ==> !after.bar_state.value@[i].spec_lt(targets[i])
        }),
{
    let shape = before.shape;
    let raw = spec_log_bars(magnitudes, bin_hz, before.edges@, shape.peak_mix);
    let gated = choose|gated: Seq<S>|
        {
            &&& #[trigger] after.noise_gate.follows(before.noise_gate, raw, gated)
            &&& after.normalizer.follows(before.normalizer, gated, shape.bar_max, levels)
        };
    assert(raw.len() == shape.num_bars);
    assert(gated.len() == raw.len());
    assert(gated =~= Seq::new(
        shape.num_bars as nat,
        |j: int|
            passed_band(
                magnitudes,
                bin_hz,
                before.edges@,
                shape.peak_mix,
                after.noise_gate.floor@[j],
                before.noise_gate.margin,
                j,
            ),
    ));
    assert(is_level(
        levels[i],
        gated[i],
        after.normalizer.running_max,
        after.normalizer.band_running_max@[i],
        after.normalizer.dynamic_range_db,
        after.normalizer.band_independence,
        shape.bar_max,
    ));
    let targets = spec_spatial_smooth(levels, shape.spatial_smooth_max_radius);
    let s = before.bar_state.value@[i];
    assert(after.bar_state.value@[i] == before.bar_state.step_of(targets, i).0);
    assert(after.bar_state.velocity@[i] == before.bar_state.step_of(targets, i).1);
    law_fall_never_undershoots(
        s,
        targets[i],
        before.bar_state.velocity@[i],
        gravity_at(
            s,
            before.bar_state.base_gravity@[i],
            before.bar_state.gravity_db_scale,
            before.bar_state.bar_max,
        ),
    );
}

/// A logarithm of a span that runs as logarithms do, with what undoes it.
pub open spec fn span_logarithm<S: Curves>(log_span: S, span: S) -> bool {
    &&& unit_arithmetic(log_span)
    &&& spec_zero::<S>().spec_le(log_span)
    &&& exponential_undoes(log_span, span)
}

/// The bands of a layout begin at the lowest frequency asked for, run upward, and end
/// within the stream.
pub proof fn law_layout_stays_within_stream<S: Curves>(
    edges: Seq<S>,
    shape: Shape<S>,
    sample_rate: u32,
    i: int,
)
    requires
        lays_out(edges, shape, sample_rate),
        0 < shape.num_bars,
        total_order::<S>(),
        ordered_arithmetic::<S>(),
        unit_arithmetic(spec_one::<S>()),
        unit_arithmetic(S::spec_from_count(shape.num_bars)),
        unit_arithmetic(lowest_edge(shape.min_freq)),
        spec_zero::<S>().spec_le(lowest_edge(shape.min_freq)),
        powers_rise(shape.num_bars, warp_in_use(shape.freq_warp)),
        ({
            let cap = spec_cap_to_stream(shape.max_freq, sample_rate);
            let lo = lowest_edge(shape.min_freq);
            let span = edge_span(shape.min_freq, cap);
            &&& lo.spec_times(spec_ratio(101, 100)).spec_le(cap)
            &&& lo.spec_times(cap.spec_over(lo)).spec_le(cap)
            &&& forall|log_span: S|
                #[trigger] call_ensures(S::ln, (span,), log_span) ==> span_logarithm(log_span, span)
        }),
        0 <= i <= shape.num_bars,
    ensures
        edges.len() == shape.num_bars + 1,
        edges[0] == lowest_edge(shape.min_freq),
        edges[0].spec_le(edges[i]),
        edges[i].spec_le(
            S::spec_from_count(sample_rate as usize).spec_over(S::spec_from_count(2)),
        ),
{
    let cap = spec_cap_to_stream(shape.max_freq, sample_rate);
    let span = edge_span(shape.min_freq, cap);
    let log_span = choose|log_span: S|
        {
            &&& #[trigger] call_ensures(S::ln, (edge_span(shape.min_freq, cap),), log_span)
            &&& are_edges(edges, shape.num_bars, shape.min_freq, log_span, shape.freq_warp)
        };
    assert(span_logarithm(log_span, span));
    law_edges_run_upward(
        edges,
        shape.num_bars,
        shape.min_freq,
        log_span,
        span,
        shape.freq_warp,
    );
    law_edges_stay_within_stream(
        edges,
        shape.num_bars,
        shape.min_freq,
        shape.max_freq,
        sample_rate,
        log_span,
        shape.freq_warp,
        i,
    );
}

} // verus!
