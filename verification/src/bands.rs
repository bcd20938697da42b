//! From a magnitude spectrum to one value for each log-spaced band.

use vstd::prelude::*;

use crate::fixed::{lemma_one_is_neutral, lemma_times_share, lemma_zero_absorbs, Fixed};
use crate::scalar::{
    clamp, lemma_lt_irreflexive, max_of, one, ordered_arithmetic, peak, ratio, spec_clamp, spec_max,
    spec_one, spec_peak, spec_ratio, spec_total, spec_zero, total_order, unit_arithmetic,
    zero, Curves, Scalar,
};

verus! {

/// The highest frequency that a stream can carry, where `max_freq` lies above it.
pub open spec fn spec_cap_to_stream<S: Scalar>(max_freq: S, sample_rate: u32) -> S {
    let half = S::spec_from_count(sample_rate as usize).spec_over(S::spec_from_count(2));
    if half.spec_lt(max_freq) {
        half
    } else {
        max_freq
    }
}

/// `max_freq`, but no more than half the sample rate.
pub fn cap_to_stream<S: Scalar>(max_freq: S, sample_rate: u32) -> (r: S)
    ensures
        r == spec_cap_to_stream(max_freq, sample_rate),
{
    let half: S = S::from_count(sample_rate as usize).over(S::from_count(2));
    if half.lt(max_freq) {
        half
    } else {
        max_freq
    }
}

/// The lowest edge: no frequency below one.
pub open spec fn lowest_edge<S: Scalar>(min_freq: S) -> S {
    spec_max(min_freq, spec_one())
}

/// How many times the lowest edge the highest one is: it lies at least a hundredth
/// above.
pub open spec fn edge_span<S: Scalar>(min_freq: S, max_freq: S) -> S {
    let lo = lowest_edge(min_freq);
    spec_max(max_freq, lo.spec_times(spec_ratio(101, 100))).spec_over(lo)
}

/// The warp exponent in use: never below a hundredth.
pub open spec fn warp_in_use<S: Scalar>(warp: S) -> S {
    spec_max(warp, spec_ratio(1, 100))
}

/// How much of the way is left at edge `i` of `num_bars` bands.
pub open spec fn spec_way_left<S: Scalar>(i: usize, num_bars: usize) -> S {
    spec_one::<S>().spec_minus(S::spec_from_count(i).spec_over(S::spec_from_count(num_bars)))
}

/// How much of the way is left at edge `i` of `num_bars` bands: all of it at the first
/// edge, none at the last.
pub fn way_left<S: Scalar>(i: usize, num_bars: usize) -> (rest: S)
    ensures
        rest == spec_way_left::<S>(i, num_bars),
{
    one::<S>().minus(S::from_count(i).over(S::from_count(num_bars)))
}

/// The exponent of an edge, given the way left to it after warping.
pub open spec fn spec_edge_exponent<S: Scalar>(log_span: S, bent: S) -> S {
    log_span.spec_times(spec_one::<S>().spec_minus(bent))
}

/// The exponent of an edge: the share of `log_span` that the warped way left to it,
/// `bent`, leaves over.
pub fn edge_exponent<S: Scalar>(log_span: S, bent: S) -> (exponent: S)
    ensures
        exponent == spec_edge_exponent(log_span, bent),
{
    log_span.times(one::<S>().minus(bent))
}

/// The edge that lies `growth` times as high as the lowest.
pub open spec fn spec_edge_from<S: Scalar>(lo: S, growth: S) -> S {
    lo.spec_times(growth)
}

/// The edge that lies `growth` times as high as the lowest edge `lo`.
pub fn edge_from<S: Scalar>(lo: S, growth: S) -> (edge: S)
    ensures
        edge == spec_edge_from(lo, growth),
{
    lo.times(growth)
}

/// `edge` is edge `i` of `num_bars` bands.
///
/// With `t = i / num_bars`, it is the lowest edge times the exponential of
/// `log_span * (1 - (1 - t) ^ warp)`.
pub open spec fn is_edge<S: Curves>(
    edge: S,
    i: int,
    num_bars: usize,
    lo: S,
    log_span: S,
    warp: S,
) -> bool {
    exists|bent: S, growth: S|
        {
            &&& #[trigger] call_ensures(S::powf, (spec_way_left::<S>(i as usize, num_bars), warp), bent)
            &&& #[trigger] call_ensures(S::exp, (spec_edge_exponent(log_span, bent),), growth)
            &&& edge == spec_edge_from(lo, growth)
        }
}

/// Whether `edges` are the edges of `num_bars` bands with the logarithm of their
/// span as given.
pub open spec fn are_edges<S: Curves>(
    edges: Seq<S>,
    num_bars: usize,
    min_freq: S,
    log_span: S,
    warp: S,
) -> bool {
    &&& edges.len() == num_bars + 1
    &&& forall|i: int|
        0 <= i <= num_bars ==> is_edge(
            #[trigger] edges[i],
            i,
            num_bars,
            lowest_edge(min_freq),
            log_span,
            warp_in_use(warp),
        )
}

/// The `num_bars + 1` edges of log-spaced bands between two frequencies.
///
/// `warp` moves bars away from an equal number per octave: above one toward the high
/// frequencies, below one toward the low ones.
pub fn log_band_edges<S: Curves>(num_bars: usize, min_freq: S, max_freq: S, warp: S) -> (edges: Vec<
    S,
>)
    requires
        num_bars < usize::MAX,
    ensures
        exists|log_span: S|
            {
                &&& #[trigger] call_ensures(S::ln, (edge_span(min_freq, max_freq),), log_span)
                &&& are_edges(edges@, num_bars, min_freq, log_span, warp)
            },
{
    let lo: S = max_of(min_freq, one());
    let hi: S = max_of(max_freq, lo.times(ratio(101, 100)));
    let log_span: S = hi.over(lo).ln();
    let bend: S = max_of(warp, ratio(1, 100));
    let mut edges: Vec<S> = Vec::new();
    let mut i: usize = 0;
    while i <= num_bars
        invariant
            num_bars < usize::MAX,
            i <= num_bars + 1,
            edges.len() == i,
            call_ensures(S::ln, (edge_span(min_freq, max_freq),), log_span),
            lo == lowest_edge(min_freq),
            bend == warp_in_use(warp),
            forall|j: int|
                0 <= j < i ==> is_edge(#[trigger] edges@[j], j, num_bars, lo, log_span, bend),
        decreases num_bars + 1 - i,
    {
        let rest: S = way_left(i, num_bars);
        let bent: S = rest.powf(bend);
        let growth: S = edge_exponent(log_span, bent).exp();
        let edge: S = edge_from(lo, growth);
        assert(rest == spec_way_left::<S>((i as int) as usize, num_bars));
        assert(is_edge(edge, i as int, num_bars, lo, log_span, bend));
        edges.push(edge);
        i += 1;
    }
    edges
}

/// The spectrum read at `freq`, in a straight line between the two nearest bins; past
/// the last pair of bins, the last bin.
pub open spec fn spec_interpolate<S: Scalar>(magnitudes: Seq<S>, bin_hz: S, freq: S) -> S {
    let pos = spec_max(freq.spec_over(bin_hz), spec_zero());
    let i0 = pos.spec_floor_count();
    if magnitudes.len() == 0 {
        spec_zero()
    } else if i0 + 1 >= magnitudes.len() {
        magnitudes.last()
    } else {
        let a = magnitudes[i0 as int];
        let b = magnitudes[i0 + 1];
        a.spec_plus(b.spec_minus(a).spec_times(pos.spec_minus(S::spec_from_count(i0))))
    }
}

/// Reads the spectrum at an arbitrary frequency. An empty spectrum reads as zero.
pub fn interpolate_magnitude<S: Scalar>(magnitudes: &[S], bin_hz: S, freq: S) -> (r: S)
    ensures
        r == spec_interpolate(magnitudes@, bin_hz, freq),
{
    if magnitudes.len() == 0 {
        return zero();
    }
    let pos: S = max_of(freq.over(bin_hz), zero());
    let i0: usize = pos.floor_count();
    if i0 >= magnitudes.len() - 1 {
        return magnitudes[magnitudes.len() - 1];
    }
    let frac: S = pos.minus(S::from_count(i0));
    let a: S = magnitudes[i0];
    let b: S = magnitudes[i0 + 1];
    a.plus(b.minus(a).times(frac))
}

/// The root of the mean square of `bins`.
pub open spec fn spec_rms<S: Scalar>(bins: Seq<S>) -> S {
    spec_total(bins.map_values(|v: S| v.spec_times(v))).spec_over(
        S::spec_from_count(bins.len() as usize),
    ).spec_sqrt()
}

/// The value of a band with many bins: their root mean square, with a share of their
/// peak mixed in.
pub open spec fn spec_wide_band<S: Scalar>(bins: Seq<S>, peak_mix: S) -> S {
    spec_rms(bins).spec_times(spec_one::<S>().spec_minus(peak_mix)).spec_plus(
        spec_peak(bins).spec_times(peak_mix),
    )
}

/// The value of the band from `f_lo` to `f_hi`.
///
/// A band that starts past the spectrum is silent. One of two bins or fewer is read
/// at the geometric mean of its edges, a wider one is averaged.
pub open spec fn spec_band<S: Scalar>(
    magnitudes: Seq<S>,
    bin_hz: S,
    f_lo: S,
    f_hi: S,
    peak_mix: S,
) -> S {
    let bin_lo = f_lo.spec_over(bin_hz).spec_floor_count() as int;
    let bin_hi_raw = f_hi.spec_over(bin_hz).spec_ceil_count() as int;
    let bin_hi = if bin_hi_raw < magnitudes.len() {
        bin_hi_raw
    } else {
        magnitudes.len() as int
    };
    if bin_lo >= magnitudes.len() {
        spec_zero()
    } else if bin_hi - bin_lo <= 2 {
        spec_interpolate(magnitudes, bin_hz, f_lo.spec_times(f_hi).spec_sqrt())
    } else {
        spec_wide_band(magnitudes.subrange(bin_lo, bin_hi), peak_mix)
    }
}

/// One value for each band between successive `edges`.
pub open spec fn spec_log_bars<S: Scalar>(
    magnitudes: Seq<S>,
    bin_hz: S,
    edges: Seq<S>,
    peak_mix: S,
) -> Seq<S> {
    Seq::new(
        (edges.len() - 1) as nat,
        |i: int|
            spec_band(
                magnitudes,
                bin_hz,
                edges[i],
                edges[i + 1],
                spec_clamp(peak_mix, spec_zero(), spec_one()),
            ),
    )
}

/// The value of a band with many bins.
fn wide_band<S: Scalar>(bins: &[S], peak_mix: S) -> (r: S)
    ensures
        r == spec_wide_band(bins@, peak_mix),
{
    let ghost squares = bins@.map_values(|v: S| v.spec_times(v));
    let mut sum_sq: S = zero();
    let mut i: usize = 0;
    while i < bins.len()
        invariant
            i <= bins.len(),
            squares == bins@.map_values(|v: S| v.spec_times(v)),
            sum_sq == spec_total(squares.take(i as int)),
        decreases bins.len() - i,
    {
        assert(squares.take(i + 1).drop_last() =~= squares.take(i as int));
        let v: S = bins[i];
        sum_sq = sum_sq.plus(v.times(v));
        i += 1;
    }
    assert(squares.take(i as int) =~= squares);
    let rms: S = sum_sq.over(S::from_count(bins.len())).sqrt();
    let top: S = peak(bins);
    rms.times(one::<S>().minus(peak_mix)).plus(top.times(peak_mix))
}

/// Aggregates a spectrum into one value for each band between successive `edges`.
pub fn fft_to_log_bars<S: Scalar>(
    magnitudes: &[S],
    bin_hz: S,
    edges: &[S],
    peak_mix: S,
) -> (bars: Vec<S>)
    requires
        edges.len() >= 1,
    ensures
        bars@ == spec_log_bars(magnitudes@, bin_hz, edges@, peak_mix),
{
    let num_bars: usize = edges.len() - 1;
    let mix: S = clamp(peak_mix, zero(), one());
    let mut bars: Vec<S> = Vec::new();
    let mut i: usize = 0;
    while i < num_bars
        invariant
            i <= num_bars,
            num_bars == edges.len() - 1,
            mix == spec_clamp(peak_mix, spec_zero(), spec_one()),
            bars@ =~= spec_log_bars(magnitudes@, bin_hz, edges@, peak_mix).take(i as int),
        decreases num_bars - i,
    {
        let f_lo: S = edges[i];
        let f_hi: S = edges[i + 1];
        let bin_lo: usize = f_lo.over(bin_hz).floor_count();
        let bin_hi_raw: usize = f_hi.over(bin_hz).ceil_count();
        let bin_hi: usize = if bin_hi_raw < magnitudes.len() {
            bin_hi_raw
        } else {
            magnitudes.len()
        };
        let bar: S = if bin_lo >= magnitudes.len() {
            zero()
        } else if bin_hi <= bin_lo || bin_hi - bin_lo <= 2 {
            interpolate_magnitude(magnitudes, bin_hz, f_lo.times(f_hi).sqrt())
        } else {
            wide_band(vstd::slice::slice_subrange(magnitudes, bin_lo, bin_hi), mix)
        };
        assert(bar == spec_log_bars(magnitudes@, bin_hz, edges@, peak_mix)[i as int]);
        bars.push(bar);
        i += 1;
    }
    bars
}

/// Zeros add up to zero and peak at zero.
proof fn lemma_zeros(values: Seq<Fixed>)
    requires
        forall|i: int| 0 <= i < values.len() ==> values[i].raw == 0,
    ensures
        spec_total(values).raw == 0,
        spec_peak(values).raw == 0,
    decreases values.len(),
{
    if values.len() > 0 {
        lemma_zeros(values.drop_last());
    }
}

/// In a silent spectrum every band is silent.
pub proof fn law_silence_stays_silent(
    magnitudes: Seq<Fixed>,
    bin_hz: Fixed,
    f_lo: Fixed,
    f_hi: Fixed,
    peak_mix: Fixed,
)
    requires
        forall|i: int| 0 <= i < magnitudes.len() ==> magnitudes[i].raw == 0,
    ensures
        spec_band(magnitudes, bin_hz, f_lo, f_hi, peak_mix).raw == 0,
{
    let zero = Fixed { raw: 0 };
    let bin_lo = f_lo.spec_over(bin_hz).spec_floor_count() as int;
    let bin_hi_raw = f_hi.spec_over(bin_hz).spec_ceil_count() as int;
    let bin_hi = if bin_hi_raw < magnitudes.len() {
        bin_hi_raw
    } else {
        magnitudes.len() as int
    };
    if bin_lo < magnitudes.len() {
        if bin_hi - bin_lo <= 2 {
            let freq = f_lo.spec_times(f_hi).spec_sqrt();
            let pos = spec_max(freq.spec_over(bin_hz), spec_zero());
            let i0 = pos.spec_floor_count();
            assert(magnitudes.last() == zero);
            if i0 + 1 < magnitudes.len() {
                assert(magnitudes[i0 as int] == zero);
                assert(magnitudes[i0 + 1] == zero);
                lemma_zero_absorbs(pos.spec_minus(Fixed::spec_from_count(i0)));
            }
        } else {
            let bins = magnitudes.subrange(bin_lo, bin_hi);
            let squares = bins.map_values(|v: Fixed| v.spec_times(v));
            assert forall|i: int| 0 <= i < squares.len() implies squares[i].raw == 0 by {
                assert(bins[i] == zero);
                lemma_zero_absorbs(zero);
            }
            lemma_zeros(squares);
            lemma_zeros(bins);
            assert(spec_total(squares) == zero);
            assert(spec_peak(bins) == zero);
            lemma_zero_absorbs(Fixed::spec_from_count(bins.len() as usize));
            lemma_zero_absorbs(spec_one::<Fixed>().spec_minus(peak_mix));
            lemma_zero_absorbs(peak_mix);
        }
    }
}

/// Between two bins that are not negative, the spectrum reads no lower than the
/// lower one and no higher than the higher one.
pub proof fn law_interpolation_stays_between(magnitudes: Seq<Fixed>, bin_hz: Fixed, freq: Fixed)
    requires
        forall|i: int| 0 <= i < magnitudes.len() ==> magnitudes[i].raw >= 0,
    ensures
        ({
            let pos = spec_max(freq.spec_over(bin_hz), spec_zero());
            let i0 = pos.spec_floor_count();
            i0 + 1 < magnitudes.len() ==> {
                let a = magnitudes[i0 as int].raw;
                let b = magnitudes[i0 + 1].raw;
                let r = spec_interpolate(magnitudes, bin_hz, freq).raw;
                &&& a <= b ==> a <= r <= b
                &&& b <= a ==> b <= r <= a
            }
        }),
{
    let pos = spec_max(freq.spec_over(bin_hz), spec_zero());
    let i0 = pos.spec_floor_count();
    if i0 + 1 < magnitudes.len() {
        let a = magnitudes[i0 as int];
        let b = magnitudes[i0 + 1];
        let frac = pos.spec_minus(Fixed::spec_from_count(i0));
        assert(pos.raw >= 0);
        assert(i0 == pos.raw as int / 0x1_0000_0000);
        assert(0 <= frac.raw < 0x1_0000_0000);
        lemma_times_share(b.spec_minus(a), frac);
    }
}

/// With none of the peak mixed in, a wide band reads its root mean square; with the
/// peak alone, its peak.
pub proof fn law_peak_mix_endpoints(bins: Seq<Fixed>)
    ensures
        spec_wide_band(bins, spec_zero::<Fixed>()) == spec_rms(bins),
        spec_wide_band(bins, spec_one::<Fixed>()) == spec_peak(bins),
{
    let rms = spec_rms(bins);
    let top = spec_peak(bins);
    assert(spec_zero::<Fixed>() == Fixed { raw: 0 });
    assert(spec_one::<Fixed>().raw == 0x1_0000_0000);
    assert(spec_one::<Fixed>().spec_minus(spec_zero::<Fixed>()) == spec_one::<Fixed>());
    assert(spec_one::<Fixed>().spec_minus(spec_one::<Fixed>()) == spec_zero::<Fixed>());
    lemma_one_is_neutral(rms);
    lemma_one_is_neutral(top);
    lemma_zero_absorbs(rms);
    lemma_zero_absorbs(top);
}

/// No band reaches above half the sample rate on account of `max_freq`.
pub proof fn law_stream_caps_frequency<S: Scalar>(max_freq: S, sample_rate: u32)
    ensures
        !S::spec_from_count(sample_rate as usize).spec_over(S::spec_from_count(2)).spec_lt(
            spec_cap_to_stream(max_freq, sample_rate),
        ),
{
    lemma_lt_irreflexive(
        S::spec_from_count(sample_rate as usize).spec_over(S::spec_from_count(2)),
    );
}

/// A power of the way left to an edge never grows with its exponent.
pub open spec fn powers_fall<S: Curves>(num_bars: usize) -> bool {
    forall|i: usize, e: S, f: S, r: S, s: S|
        i <= num_bars && e.spec_le(f) && #[trigger] call_ensures(
            S::powf,
            (spec_way_left::<S>(i, num_bars), e),
            r,
        ) && #[trigger] call_ensures(S::powf, (spec_way_left::<S>(i, num_bars), f), s)
            ==> s.spec_le(r)
}

/// The exponential function never falls.
pub open spec fn exponential_grows<S: Curves>() -> bool {
    forall|x: S, y: S, r: S, s: S|
        x.spec_le(y) && #[trigger] call_ensures(S::exp, (x,), r) && #[trigger] call_ensures(
            S::exp,
            (y,),
            s,
        ) ==> r.spec_le(s)
}

/// A larger warp never lowers an edge, given curves that run as powers and the
/// exponential function do.
pub proof fn law_larger_warp_raises_edges<S: Curves>(
    weak: Seq<S>,
    strong: Seq<S>,
    num_bars: usize,
    min_freq: S,
    log_span: S,
    small: S,
    large: S,
    i: int,
)
    requires
        ordered_arithmetic::<S>(),
        powers_fall::<S>(num_bars),
        exponential_grows::<S>(),
        spec_zero::<S>().spec_le(lowest_edge(min_freq)),
        spec_zero::<S>().spec_le(log_span),
        warp_in_use(small).spec_le(warp_in_use(large)),
        are_edges(weak, num_bars, min_freq, log_span, small),
        are_edges(strong, num_bars, min_freq, log_span, large),
        0 <= i <= num_bars,
    ensures
        weak[i].spec_le(strong[i]),
{
    let lo = lowest_edge(min_freq);
    let e = warp_in_use(small);
    let f = warp_in_use(large);
    let (b0, g0) = lemma_edge_curves(weak, num_bars, min_freq, log_span, small, i);
    let (b1, g1) = lemma_edge_curves(strong, num_bars, min_freq, log_span, large, i);
    assert(b1.spec_le(b0));
    let one = spec_one::<S>();
    assert(one.spec_minus(b0).spec_le(one.spec_minus(b1)));
    assert(spec_edge_exponent(log_span, b0).spec_le(spec_edge_exponent(log_span, b1)));
    assert(g0.spec_le(g1));
}

/// The values of the curves that one edge was made from.
pub open spec fn edge_from_curves<S: Curves>(
    edge: S,
    i: int,
    num_bars: usize,
    lo: S,
    log_span: S,
    warp: S,
    bent: S,
    growth: S,
) -> bool {
    &&& call_ensures(S::powf, (spec_way_left::<S>(i as usize, num_bars), warp), bent)
    &&& call_ensures(S::exp, (spec_edge_exponent(log_span, bent),), growth)
    &&& edge == spec_edge_from(lo, growth)
}

/// An edge has values of the curves that it was made from.
proof fn lemma_edge_curves<S: Curves>(
    edges: Seq<S>,
    num_bars: usize,
    min_freq: S,
    log_span: S,
    warp: S,
    i: int,
) -> (values: (S, S))
    requires
        are_edges(edges, num_bars, min_freq, log_span, warp),
        0 <= i <= num_bars,
    ensures
        edge_from_curves(
            edges[i],
            i,
            num_bars,
            lowest_edge(min_freq),
            log_span,
            warp_in_use(warp),
            values.0,
            values.1,
        ),
{
    let lo = lowest_edge(min_freq);
    let e = warp_in_use(warp);
    let rest = spec_way_left::<S>(i as usize, num_bars);
    assert(is_edge(edges[i], i, num_bars, lo, log_span, e));
    choose|bent: S, growth: S|
        {
            &&& #[trigger] call_ensures(S::powf, (rest, e), bent)
            &&& #[trigger] call_ensures(S::exp, (spec_edge_exponent(log_span, bent),), growth)
            &&& edges[i] == spec_edge_from(lo, growth)
        }
}

/// Powers with this exponent run as powers do on the ways left to the edges: they grow
/// with their base, from zero at zero to one at one.
pub open spec fn powers_rise<S: Curves>(num_bars: usize, exponent: S) -> bool {
    &&& forall|i: usize, j: usize, r: S, s: S|
        spec_way_left::<S>(i, num_bars).spec_le(spec_way_left::<S>(j, num_bars))
            && #[trigger] call_ensures(S::powf, (spec_way_left::<S>(i, num_bars), exponent), r)
            && #[trigger] call_ensures(S::powf, (spec_way_left::<S>(j, num_bars), exponent), s)
            ==> r.spec_le(s)
    &&& forall|r: S|
        #[trigger] call_ensures(S::powf, (spec_one::<S>(), exponent), r) ==> r == spec_one::<S>()
    &&& forall|r: S|
        #[trigger] call_ensures(S::powf, (spec_zero::<S>(), exponent), r) ==> r == spec_zero::<S>()
}

/// The exponential function is one at zero, grows, and undoes the logarithm of `span`.
pub open spec fn exponential_undoes<S: Curves>(log_span: S, span: S) -> bool {
    &&& exponential_grows::<S>()
    &&& forall|r: S|
        #[trigger] call_ensures(S::exp, (spec_zero::<S>(),), r) ==> r == spec_one::<S>()
    &&& forall|r: S| #[trigger] call_ensures(S::exp, (log_span,), r) ==> r == span
}

/// The edges run upward, from the lowest frequency to as many times that as they span,
/// given curves that run as powers and the exponential function do.
pub proof fn law_edges_run_upward<S: Curves>(
    edges: Seq<S>,
    num_bars: usize,
    min_freq: S,
    log_span: S,
    span: S,
    warp: S,
)
    requires
        0 < num_bars,
        are_edges(edges, num_bars, min_freq, log_span, warp),
        ordered_arithmetic::<S>(),
        unit_arithmetic(spec_one::<S>()),
        unit_arithmetic(S::spec_from_count(num_bars)),
        unit_arithmetic(lowest_edge(min_freq)),
        unit_arithmetic(log_span),
        spec_zero::<S>().spec_le(lowest_edge(min_freq)),
        spec_zero::<S>().spec_le(log_span),
        powers_rise(num_bars, warp_in_use(warp)),
        exponential_undoes(log_span, span),
    ensures
        edges[0] == lowest_edge(min_freq),
        edges[num_bars as int] == spec_edge_from(lowest_edge(min_freq), span),
        forall|i: int, j: int|
            0 <= i <= j <= num_bars ==> (#[trigger] edges[i]).spec_le(#[trigger] edges[j]),
{
    let lo = lowest_edge(min_freq);
    let one = spec_one::<S>();
    let zero = spec_zero::<S>();
    let n = S::spec_from_count(num_bars);
    let first = lemma_edge_curves(edges, num_bars, min_freq, log_span, warp, 0);
    assert(zero.spec_lt(n));
    assert(spec_way_left::<S>(0, num_bars) == one);
    assert(first.0 == one);
    assert(spec_edge_exponent(log_span, one) == zero);
    assert(first.1 == one);
    let last = lemma_edge_curves(edges, num_bars, min_freq, log_span, warp, num_bars as int);
    assert(spec_way_left::<S>(num_bars, num_bars) == zero);
    assert(last.0 == zero);
    assert(spec_edge_exponent(log_span, zero) == log_span);
    assert forall|i: int, j: int| 0 <= i <= j <= num_bars implies (#[trigger] edges[i]).spec_le(
        #[trigger] edges[j],
    ) by {
        let a = lemma_edge_curves(edges, num_bars, min_freq, log_span, warp, i);
        let b = lemma_edge_curves(edges, num_bars, min_freq, log_span, warp, j);
        let p = i as usize;
        let q = j as usize;
        assert(S::spec_from_count(p).spec_le(S::spec_from_count(q)));
        assert(S::spec_from_count(p).spec_over(n).spec_le(S::spec_from_count(q).spec_over(n)));
        assert(spec_way_left::<S>(q, num_bars).spec_le(spec_way_left::<S>(p, num_bars)));
        assert(b.0.spec_le(a.0));
        assert(one.spec_minus(a.0).spec_le(one.spec_minus(b.0)));
        assert(spec_edge_exponent(log_span, a.0).spec_le(spec_edge_exponent(log_span, b.0)));
        assert(a.1.spec_le(b.1));
    }
}

/// No edge lies above half the sample rate, where `max_freq` is capped to the stream and
/// the stream carries more than the lowest frequency.
pub proof fn law_edges_stay_within_stream<S: Curves>(
    edges: Seq<S>,
    num_bars: usize,
    min_freq: S,
    max_freq: S,
    sample_rate: u32,
    log_span: S,
    warp: S,
    i: int,
)
    requires
        0 < num_bars,
        are_edges(edges, num_bars, min_freq, log_span, warp),
        total_order::<S>(),
        ordered_arithmetic::<S>(),
        unit_arithmetic(spec_one::<S>()),
        unit_arithmetic(S::spec_from_count(num_bars)),
        unit_arithmetic(lowest_edge(min_freq)),
        unit_arithmetic(log_span),
        spec_zero::<S>().spec_le(lowest_edge(min_freq)),
        spec_zero::<S>().spec_le(log_span),
        powers_rise(num_bars, warp_in_use(warp)),
        exponential_undoes(
            log_span,
            edge_span(min_freq, spec_cap_to_stream(max_freq, sample_rate)),
        ),
        ({
            let lo = lowest_edge(min_freq);
            let cap = spec_cap_to_stream(max_freq, sample_rate);
            &&& lo.spec_times(spec_ratio(101, 100)).spec_le(cap)
            &&& lo.spec_times(cap.spec_over(lo)).spec_le(cap)
        }),
        0 <= i <= num_bars,
    ensures
        edges[i].spec_le(
            S::spec_from_count(sample_rate as usize).spec_over(S::spec_from_count(2)),
        ),
{
    let lo = lowest_edge(min_freq);
    let cap = spec_cap_to_stream(max_freq, sample_rate);
    let half = S::spec_from_count(sample_rate as usize).spec_over(S::spec_from_count(2));
    let span = edge_span(min_freq, cap);
    law_edges_run_upward(edges, num_bars, min_freq, log_span, span, warp);
    let least = lo.spec_times(spec_ratio(101, 100));
    S::lt_implies_le(cap, cap);
    assert(cap.spec_lt(cap) <==> !cap.spec_le(cap));
    assert(cap.spec_lt(least) <==> !least.spec_le(cap));
    assert(spec_max(cap, least) == cap);
    assert(edges[num_bars as int].spec_le(cap));
    assert(edges[i].spec_le(edges[num_bars as int]));
    S::lt_implies_le(half, half);
    assert(half.spec_lt(half) <==> !half.spec_le(half));
    assert(half.spec_lt(max_freq) <==> !max_freq.spec_le(half));
    assert(cap.spec_le(half));
}

/// Powers with this exponent fall by steps that shrink from edge to edge, or by steps
/// that grow, as `shrink` says: the one with exponents above one, the other below.
pub open spec fn powers_bend<S: Curves>(num_bars: usize, exponent: S, shrink: bool) -> bool {
    forall|i: usize, a: S, b: S, c: S|
        i + 2 <= num_bars && #[trigger] call_ensures(
            S::powf,
            (spec_way_left::<S>(i, num_bars), exponent),
            a,
        ) && #[trigger] call_ensures(
            S::powf,
            (spec_way_left::<S>((i + 1) as usize, num_bars), exponent),
            b,
        ) && #[trigger] call_ensures(
            S::powf,
            (spec_way_left::<S>((i + 2) as usize, num_bars), exponent),
            c,
        ) ==> if shrink {
            b.spec_minus(c).spec_le(a.spec_minus(b))
        } else {
            a.spec_minus(b).spec_le(b.spec_minus(c))
        }
}

/// The further apart two powers, the further apart the exponents made from them.
pub open spec fn exponents_spread<S: Scalar>(log_span: S) -> bool {
    forall|a: S, b: S, c: S, d: S|
        #[trigger] a.spec_minus(b).spec_le(#[trigger] c.spec_minus(d)) ==> spec_edge_exponent(
            log_span,
            b,
        ).spec_minus(spec_edge_exponent(log_span, a)).spec_le(
            spec_edge_exponent(log_span, d).spec_minus(spec_edge_exponent(log_span, c)),
        )
}

/// The further apart two exponents, the larger the quotient of their exponentials.
pub open spec fn exponential_quotients_grow<S: Curves>() -> bool {
    forall|w: S, x: S, y: S, z: S, p: S, q: S, r: S, s: S|
        x.spec_minus(w).spec_le(z.spec_minus(y)) && #[trigger] call_ensures(S::exp, (w,), p)
            && #[trigger] call_ensures(S::exp, (x,), q) && #[trigger] call_ensures(S::exp, (y,), r)
            && #[trigger] call_ensures(S::exp, (z,), s) ==> q.spec_over(p).spec_le(s.spec_over(r))
}

/// The common factor of two edges cancels in their quotient.
pub open spec fn lowest_cancels<S: Scalar>(lo: S) -> bool {
    forall|p: S, q: S|
        #[trigger] spec_edge_from(lo, q).spec_over(spec_edge_from(lo, p)) == q.spec_over(p)
}

/// With a warp above one, where powers fall by shrinking steps, each edge is no more
/// times its predecessor than that one is of its own: bands narrow toward the high
/// frequencies. With a warp below one it is the other way around.
pub proof fn law_warp_shapes_ratios<S: Curves>(
    edges: Seq<S>,
    num_bars: usize,
    min_freq: S,
    log_span: S,
    warp: S,
    shrink: bool,
    i: int,
)
    requires
        are_edges(edges, num_bars, min_freq, log_span, warp),
        powers_bend(num_bars, warp_in_use(warp), shrink),
        exponents_spread(log_span),
        exponential_quotients_grow::<S>(),
        lowest_cancels(lowest_edge(min_freq)),
        0 <= i,
        i + 2 <= num_bars,
    ensures
        shrink ==> edges[i + 2].spec_over(edges[i + 1]).spec_le(edges[i + 1].spec_over(edges[i])),
        !shrink ==> edges[i + 1].spec_over(edges[i]).spec_le(edges[i + 2].spec_over(edges[i + 1])),
{
    let lo = lowest_edge(min_freq);
    let a = lemma_edge_curves(edges, num_bars, min_freq, log_span, warp, i);
    let b = lemma_edge_curves(edges, num_bars, min_freq, log_span, warp, i + 1);
    let c = lemma_edge_curves(edges, num_bars, min_freq, log_span, warp, i + 2);
    let k = i as usize;
    assert(call_ensures(
        S::powf,
        (spec_way_left::<S>((k + 1) as usize, num_bars), warp_in_use(warp)),
        b.0,
    ));
    assert(call_ensures(
        S::powf,
        (spec_way_left::<S>((k + 2) as usize, num_bars), warp_in_use(warp)),
        c.0,
    ));
    let x = spec_edge_exponent(log_span, a.0);
    let y = spec_edge_exponent(log_span, b.0);
    let z = spec_edge_exponent(log_span, c.0);
    if shrink {
        assert(b.0.spec_minus(c.0).spec_le(a.0.spec_minus(b.0)));
        assert(z.spec_minus(y).spec_le(y.spec_minus(x)));
    } else {
        assert(a.0.spec_minus(b.0).spec_le(b.0.spec_minus(c.0)));
        assert(y.spec_minus(x).spec_le(z.spec_minus(y)));
    }
    assert(spec_edge_from(lo, b.1).spec_over(spec_edge_from(lo, a.1)) == b.1.spec_over(a.1));
    assert(spec_edge_from(lo, c.1).spec_over(spec_edge_from(lo, b.1)) == c.1.spec_over(b.1));
}

/// Between successive edges the exponent grows by steps that shrink where the warped
/// way left shrinks by shrinking steps, and that grow where it shrinks by growing ones,
/// but for one unit of rounding.
///
/// An edge is the lowest one times the exponential of its exponent, so these are the
/// ratios of successive edges on a logarithmic scale.
pub proof fn law_exponent_steps_follow_warp(log_span: Fixed, a: Fixed, b: Fixed, c: Fixed)
    requires
        0 <= log_span.raw,
        0 <= a.raw <= 0x1_0000_0000,
        0 <= b.raw <= 0x1_0000_0000,
        0 <= c.raw <= 0x1_0000_0000,
    ensures
        ({
            let first = spec_edge_exponent(log_span, b).raw - spec_edge_exponent(log_span, a).raw;
            let second = spec_edge_exponent(log_span, c).raw - spec_edge_exponent(log_span, b).raw;
            &&& b.raw - c.raw <= a.raw - b.raw ==> second <= first + 1
            &&& a.raw - b.raw <= b.raw - c.raw ==> first <= second + 1
        }),
{
    let one = spec_one::<Fixed>();
    assert(one.raw == 0x1_0000_0000);
    lemma_times_share(log_span, one.spec_minus(a));
    lemma_times_share(log_span, one.spec_minus(b));
    lemma_times_share(log_span, one.spec_minus(c));
    let x = log_span.raw * one.spec_minus(a).raw;
    let y = log_span.raw * one.spec_minus(b).raw;
    let z = log_span.raw * one.spec_minus(c).raw;
    lemma_steps(log_span.raw as int, a.raw as int, b.raw as int, c.raw as int, x, y, z);
}

/// The arithmetic of [`law_exponent_steps_follow_warp`].
proof fn lemma_steps(span: int, a: int, b: int, c: int, x: int, y: int, z: int)
    requires
        0 <= span,
        0 <= a <= 0x1_0000_0000,
        0 <= b <= 0x1_0000_0000,
        0 <= c <= 0x1_0000_0000,
        x == span * (0x1_0000_0000 - a),
        y == span * (0x1_0000_0000 - b),
        z == span * (0x1_0000_0000 - c),
    ensures
        0 <= x / 0x1_0000_0000 <= span,
        0 <= y / 0x1_0000_0000 <= span,
        0 <= z / 0x1_0000_0000 <= span,
        0 <= x && 0 <= y && 0 <= z,
        b - c <= a - b ==> z / 0x1_0000_0000 - y / 0x1_0000_0000 <= y / 0x1_0000_0000 - x
            / 0x1_0000_0000 + 1,
        a - b <= b - c ==> y / 0x1_0000_0000 - x / 0x1_0000_0000 <= z / 0x1_0000_0000 - y
            / 0x1_0000_0000 + 1,
{
    assert(0 <= x <= span * 0x1_0000_0000 && 0 <= y <= span * 0x1_0000_0000 && 0 <= z <= span
        * 0x1_0000_0000) by (nonlinear_arith)
        requires
            0 <= span,
            0 <= a <= 0x1_0000_0000,
            0 <= b <= 0x1_0000_0000,
            0 <= c <= 0x1_0000_0000,
            x == span * (0x1_0000_0000 - a),
            y == span * (0x1_0000_0000 - b),
            z == span * (0x1_0000_0000 - c),
    ;
    let bend = a - 2 * b + c;
    assert(2 * y - x - z == span * bend) by (nonlinear_arith)
        requires
            bend == a - 2 * b + c,
            x == span * (0x1_0000_0000 - a),
            y == span * (0x1_0000_0000 - b),
            z == span * (0x1_0000_0000 - c),
    ;
    assert(bend >= 0 ==> span * bend >= 0) by (nonlinear_arith)
        requires
            0 <= span,
    ;
    assert(bend <= 0 ==> span * bend <= 0) by (nonlinear_arith)
        requires
            0 <= span,
    ;
}

} // verus!
