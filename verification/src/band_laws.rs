//! How bands depend on the spectrum and on the peak mix, mostly in fixed-point arithmetic.

use vstd::prelude::*;

use crate::bands::{
    law_interpolation_stays_between, spec_band, spec_interpolate, spec_log_bars, spec_rms,
    spec_wide_band,
};
use crate::fixed::{
    integer_root, is_integer_root, lemma_mix_grows, lemma_mix_stays_between, lemma_peak_bounds,
    lemma_quotient_between, lemma_quotient_bounds, lemma_quotient_cancels, lemma_quotient_error,
    lemma_root_bounds, lemma_times_commutes, lemma_times_monotone, lemma_times_share, saturated,
    truncated_quotient, Fixed,
};
use crate::scalar::{
    lemma_lt_irreflexive, spec_clamp, spec_max, spec_one, spec_peak, spec_total, spec_zero, Scalar,
};

verus! {

/// The squares of bins.
pub open spec fn squares_of(bins: Seq<Fixed>) -> Seq<Fixed> {
    bins.map_values(|v: Fixed| v.spec_times(v))
}

/// What values add up to without saturation.
spec fn raw_sum(values: Seq<Fixed>) -> int
    decreases values.len(),
{
    if values.len() == 0 {
        0
    } else {
        raw_sum(values.drop_last()) + values.last().raw
    }
}

/// A total of values that are not negative saturates once, at the end.
proof fn lemma_total_saturates(values: Seq<Fixed>)
    requires
        forall|i: int| 0 <= i < values.len() ==> 0 <= (#[trigger] values[i]).raw,
    ensures
        spec_total(values).raw == saturated(raw_sum(values)),
        0 <= raw_sum(values),
    decreases values.len(),
{
    if values.len() > 0 {
        assert(0 <= values[values.len() - 1].raw);
        assert forall|i: int| 0 <= i < values.drop_last().len() implies 0 <= (
        #[trigger] values.drop_last()[i]).raw by {
            assert(0 <= values[i].raw);
        }
        lemma_total_saturates(values.drop_last());
    }
}

/// Squares of bins up to `hi` are not negative and add up to no more than as many
/// squares of `hi`.
proof fn lemma_squares_bounded(bins: Seq<Fixed>, hi: Fixed)
    requires
        forall|i: int| 0 <= i < bins.len() ==> 0 <= (#[trigger] bins[i]).raw <= hi.raw,
        0 <= hi.raw,
    ensures
        0 <= raw_sum(squares_of(bins)) <= bins.len() * hi.spec_times(hi).raw,
        forall|i: int|
            0 <= i < bins.len() ==> 0 <= (#[trigger] squares_of(bins)[i]).raw <= hi.spec_times(hi).raw,
    decreases bins.len(),
{
    let q = hi.spec_times(hi).raw as int;
    assert forall|i: int| 0 <= i < bins.len() implies 0 <= (#[trigger] squares_of(bins)[i]).raw
        <= q by {
        let v = bins[i];
        lemma_times_monotone(v, v, hi);
        lemma_times_commutes(v, hi);
        lemma_times_monotone(hi, v, hi);
    }
    if bins.len() > 0 {
        let rest = bins.drop_last();
        assert forall|i: int| 0 <= i < rest.len() implies 0 <= (#[trigger] rest[i]).raw
            <= hi.raw by {
            assert(rest[i] == bins[i]);
        }
        lemma_squares_bounded(rest, hi);
        assert(squares_of(bins).drop_last() =~= squares_of(rest));
        assert(squares_of(bins).last() == squares_of(bins)[bins.len() - 1]);
        let n = bins.len() as int;
        assert(n * q == (n - 1) * q + q) by (nonlinear_arith);
    } else {
        assert(0 * q == 0) by (nonlinear_arith);
    }
}

/// A root mean square is the root of the rounded mean of the squares.
proof fn lemma_rms_value(bins: Seq<Fixed>)
    requires
        0 < bins.len() < 0x8000_0000,
        forall|i: int| 0 <= i < bins.len() ==> 0 <= (#[trigger] bins[i]).raw,
    ensures
        ({
            let mean = spec_total(squares_of(bins)).raw as int / bins.len() as int;
            &&& 0 <= mean
            &&& is_integer_root(mean * 0x1_0000_0000, spec_rms(bins).raw as int)
        }),
{
    let n = bins.len() as int;
    let top = Fixed { raw: i64::MAX };
    lemma_squares_bounded(bins, top);
    lemma_total_saturates(squares_of(bins));
    let total = spec_total(squares_of(bins));
    let mean = total.raw as int / n;
    assert(0 <= mean <= total.raw) by (nonlinear_arith)
        requires
            mean == total.raw as int / n,
            0 <= total.raw,
            n > 0,
    ;
    let count = Fixed::spec_from_count(bins.len() as usize);
    assert(count.raw == n * 0x1_0000_0000);
    lemma_quotient_cancels(total.raw as int, n);
    let quotient = total.spec_over(count);
    assert(quotient.raw == mean);
    lemma_root_bounds(mean * 0x1_0000_0000);
    let r = integer_root(mean * 0x1_0000_0000);
    assert(r < 0x1_0000_0000_0000) by (nonlinear_arith)
        requires
            0 <= r,
            r * r <= mean * 0x1_0000_0000,
            mean <= 0x7fff_ffff_ffff_ffff,
    ;
    assert(spec_rms(bins) == quotient.spec_sqrt());
}

/// A root mean square lies between zero and every bound on the bins.
proof fn lemma_rms_bounded(bins: Seq<Fixed>, hi: Fixed)
    requires
        0 < bins.len() < 0x8000_0000,
        forall|i: int| 0 <= i < bins.len() ==> 0 <= (#[trigger] bins[i]).raw <= hi.raw,
    ensures
        0 <= spec_rms(bins).raw <= hi.raw,
{
    assert(0 <= bins[0].raw <= hi.raw);
    let n = bins.len() as int;
    lemma_rms_value(bins);
    lemma_squares_bounded(bins, hi);
    lemma_total_saturates(squares_of(bins));
    let total = spec_total(squares_of(bins)).raw as int;
    let mean = total / n;
    let q = hi.spec_times(hi).raw as int;
    assert(mean <= q) by (nonlinear_arith)
        requires
            mean == total / n,
            total <= n * q,
            n > 0,
    ;
    let h = hi.raw as int;
    assert(0 <= h * h) by (nonlinear_arith);
    assert(q <= (h * h) / 0x1_0000_0000);
    assert(mean * 0x1_0000_0000 <= h * h);
    let r = spec_rms(bins).raw as int;
    assert(r <= h) by (nonlinear_arith)
        requires
            r * r <= h * h,
            0 <= h,
            0 <= r,
    ;
}

/// A wide band lies between its root mean square, but for one unit of rounding, and
/// its peak.
pub proof fn law_wide_band_stays_between(bins: Seq<Fixed>, peak_mix: Fixed)
    requires
        0 < bins.len() < 0x8000_0000,
        forall|i: int| 0 <= i < bins.len() ==> 0 <= (#[trigger] bins[i]).raw,
        0 <= peak_mix.raw <= 0x1_0000_0000,
    ensures
        0 <= spec_rms(bins).raw <= spec_peak(bins).raw,
        spec_rms(bins).raw - 1 <= spec_wide_band(bins, peak_mix).raw <= spec_peak(bins).raw,
        0 <= spec_wide_band(bins, peak_mix).raw,
{
    lemma_peak_bounds(bins, Fixed { raw: 0 });
    lemma_rms_bounded(bins, spec_peak(bins));
    let rest = spec_one::<Fixed>().spec_minus(peak_mix);
    assert(rest.raw == 0x1_0000_0000 - peak_mix.raw);
    lemma_mix_stays_between(spec_rms(bins), spec_peak(bins), rest, peak_mix);
}

/// A wide band never falls as more of its peak is mixed in, but for one unit of
/// rounding.
pub proof fn law_wide_band_grows_with_peak_mix(bins: Seq<Fixed>, small: Fixed, large: Fixed)
    requires
        0 < bins.len() < 0x8000_0000,
        forall|i: int| 0 <= i < bins.len() ==> 0 <= (#[trigger] bins[i]).raw,
        0 <= small.raw <= large.raw <= 0x1_0000_0000,
    ensures
        spec_wide_band(bins, small).raw <= spec_wide_band(bins, large).raw + 1,
{
    lemma_peak_bounds(bins, Fixed { raw: 0 });
    lemma_rms_bounded(bins, spec_peak(bins));
    let rest_small = spec_one::<Fixed>().spec_minus(small);
    let rest_large = spec_one::<Fixed>().spec_minus(large);
    assert(rest_small.raw == 0x1_0000_0000 - small.raw);
    assert(rest_large.raw == 0x1_0000_0000 - large.raw);
    lemma_mix_grows(spec_rms(bins), spec_peak(bins), rest_small, small, rest_large, large);
}

/// No bar falls as more of the peak is mixed in, but for one unit of rounding.
pub proof fn law_bars_grow_with_peak_mix(
    magnitudes: Seq<Fixed>,
    bin_hz: Fixed,
    edges: Seq<Fixed>,
    small: Fixed,
    large: Fixed,
    i: int,
)
    requires
        magnitudes.len() < 0x8000_0000,
        forall|j: int| 0 <= j < magnitudes.len() ==> 0 <= (#[trigger] magnitudes[j]).raw,
        small.raw <= large.raw,
        0 <= i < edges.len() - 1,
    ensures
        spec_log_bars(magnitudes, bin_hz, edges, small)[i].raw <= spec_log_bars(
            magnitudes,
            bin_hz,
            edges,
            large,
        )[i].raw + 1,
{
    let bin_lo = edges[i].spec_over(bin_hz).spec_floor_count() as int;
    let bin_hi_raw = edges[i + 1].spec_over(bin_hz).spec_ceil_count() as int;
    let bin_hi = if bin_hi_raw < magnitudes.len() {
        bin_hi_raw
    } else {
        magnitudes.len() as int
    };
    assert(spec_one::<Fixed>().raw == 0x1_0000_0000);
    if bin_lo < magnitudes.len() && bin_hi - bin_lo > 2 {
        law_wide_band_grows_with_peak_mix(
            magnitudes.subrange(bin_lo, bin_hi),
            spec_clamp(small, spec_zero(), spec_one()),
            spec_clamp(large, spec_zero(), spec_one()),
        );
    }
}

/// A peak mix below zero counts as zero, and one above one as one.
pub proof fn law_peak_mix_is_clamped<S: Scalar>(
    magnitudes: Seq<S>,
    bin_hz: S,
    edges: Seq<S>,
    peak_mix: S,
)
    requires
        spec_zero::<S>().spec_le(spec_one()),
    ensures
        peak_mix.spec_lt(spec_zero()) ==> spec_log_bars(magnitudes, bin_hz, edges, peak_mix)
            == spec_log_bars(magnitudes, bin_hz, edges, spec_zero::<S>()),
        spec_one::<S>().spec_lt(peak_mix) && !peak_mix.spec_lt(spec_zero()) ==> spec_log_bars(
            magnitudes,
            bin_hz,
            edges,
            peak_mix,
        ) == spec_log_bars(magnitudes, bin_hz, edges, spec_one::<S>()),
{
    let zero = spec_zero::<S>();
    let one = spec_one::<S>();
    S::le_excludes_gt(zero, one);
    lemma_lt_irreflexive(zero);
    lemma_lt_irreflexive(one);
    if peak_mix.spec_lt(zero) {
        assert(spec_clamp(peak_mix, zero, one) == spec_clamp(zero, zero, one));
    } else if one.spec_lt(peak_mix) {
        assert(spec_clamp(peak_mix, zero, one) == spec_clamp(one, zero, one));
    }
}

/// Every band lies between zero and the peak of the spectrum.
pub proof fn law_bands_stay_within_peak(
    magnitudes: Seq<Fixed>,
    bin_hz: Fixed,
    f_lo: Fixed,
    f_hi: Fixed,
    peak_mix: Fixed,
)
    requires
        magnitudes.len() < 0x8000_0000,
        forall|j: int| 0 <= j < magnitudes.len() ==> 0 <= (#[trigger] magnitudes[j]).raw,
        0 <= peak_mix.raw <= 0x1_0000_0000,
    ensures
        0 <= spec_band(magnitudes, bin_hz, f_lo, f_hi, peak_mix).raw <= spec_peak(magnitudes).raw,
{
    let top = spec_peak(magnitudes);
    lemma_peak_bounds(magnitudes, top);
    let bin_lo = f_lo.spec_over(bin_hz).spec_floor_count() as int;
    let bin_hi_raw = f_hi.spec_over(bin_hz).spec_ceil_count() as int;
    let bin_hi = if bin_hi_raw < magnitudes.len() {
        bin_hi_raw
    } else {
        magnitudes.len() as int
    };
    if bin_lo < magnitudes.len() {
        if bin_hi - bin_lo <= 2 {
            let freq = f_lo.spec_times(f_hi).spec_sqrt();
            let pos = spec_max(freq.spec_over(bin_hz), spec_zero());
            let i0 = pos.spec_floor_count();
            assert(0 <= magnitudes[magnitudes.len() - 1].raw <= top.raw);
            if i0 + 1 < magnitudes.len() {
                assert(0 <= magnitudes[i0 as int].raw <= top.raw);
                assert(0 <= magnitudes[i0 + 1].raw <= top.raw);
                law_interpolation_stays_between(magnitudes, bin_hz, freq);
            }
        } else {
            let bins = magnitudes.subrange(bin_lo, bin_hi);
            assert forall|j: int| 0 <= j < bins.len() implies 0 <= (#[trigger] bins[j]).raw
                <= top.raw by {
                assert(bins[j] == magnitudes[bin_lo + j]);
            }
            lemma_peak_bounds(bins, top);
            law_wide_band_stays_between(bins, peak_mix);
        }
    }
}

/// Equal bins add up to as many squares.
proof fn lemma_flat_squares(bins: Seq<Fixed>, c: Fixed)
    requires
        forall|i: int| 0 <= i < bins.len() ==> #[trigger] bins[i] == c,
    ensures
        raw_sum(squares_of(bins)) == bins.len() * c.spec_times(c).raw,
    decreases bins.len(),
{
    let q = c.spec_times(c).raw as int;
    if bins.len() > 0 {
        let rest = bins.drop_last();
        lemma_flat_squares(rest, c);
        assert(squares_of(bins).drop_last() =~= squares_of(rest));
        assert(bins[bins.len() - 1] == c);
        let n = bins.len() as int;
        assert(n * q == (n - 1) * q + q) by (nonlinear_arith);
    } else {
        assert(0 * q == 0) by (nonlinear_arith);
    }
}

/// Rounding down takes away less than a unit.
proof fn lemma_floor_is_near(x: int, q: int)
    requires
        q == x / 0x1_0000_0000,
    ensures
        x - 0x1_0000_0000 < q * 0x1_0000_0000 <= x,
{
}

/// The root mean square of equal bins is that value, but for what squaring rounds off.
proof fn lemma_flat_rms(bins: Seq<Fixed>, c: Fixed)
    requires
        0 < bins.len() < 0x8000_0000,
        forall|i: int| 0 <= i < bins.len() ==> #[trigger] bins[i] == c,
        0 <= c.raw,
        bins.len() * c.spec_times(c).raw <= i64::MAX,
        c.spec_times(c).raw < i64::MAX,
    ensures
        c.raw - 0x1_0000 <= spec_rms(bins).raw <= c.raw,
{
    let n = bins.len() as int;
    let q = c.spec_times(c).raw as int;
    lemma_rms_bounded(bins, c);
    lemma_rms_value(bins);
    lemma_flat_squares(bins, c);
    lemma_squares_bounded(bins, c);
    lemma_total_saturates(squares_of(bins));
    let total = spec_total(squares_of(bins)).raw as int;
    assert(total / n == q) by (nonlinear_arith)
        requires
            total == n * q,
            n > 0,
    ;
    let v = c.raw as int;
    let r = spec_rms(bins).raw as int;
    let square = v * v;
    assert(0 <= square) by (nonlinear_arith)
        requires
            square == v * v,
    ;
    assert(q == square / 0x1_0000_0000);
    lemma_floor_is_near(square, q);
    assert(v - 0x1_0000 <= r) by (nonlinear_arith)
        requires
            0 <= r,
            0 <= v,
            v * v - 0x1_0000_0000 < (r + 1) * (r + 1),
    {
        if r + 1 <= v - 0x1_0000 {
            assert((r + 1) * (r + 1) <= (v - 0x1_0000) * (v - 0x1_0000));
            assert((v - 0x1_0000) * (v - 0x1_0000) == v * v - 0x2_0000 * v + 0x1_0000_0000);
            assert(v >= 0x1_0001);
        }
    }
}

/// A flat spectrum gives its value in every band that begins inside it: exactly in a
/// narrow band, and within the 2^16 units that squaring rounds off, and one more, in a
/// wide one.
pub proof fn law_flat_spectrum_stays_flat(
    magnitudes: Seq<Fixed>,
    c: Fixed,
    bin_hz: Fixed,
    f_lo: Fixed,
    f_hi: Fixed,
    peak_mix: Fixed,
)
    requires
        magnitudes.len() < 0x8000_0000,
        forall|j: int| 0 <= j < magnitudes.len() ==> #[trigger] magnitudes[j] == c,
        0 <= c.raw,
        magnitudes.len() * c.spec_times(c).raw <= i64::MAX,
        c.spec_times(c).raw < i64::MAX,
        0 <= peak_mix.raw <= 0x1_0000_0000,
        f_lo.spec_over(bin_hz).spec_floor_count() < magnitudes.len(),
    ensures
        c.raw - 0x1_0001 <= spec_band(magnitudes, bin_hz, f_lo, f_hi, peak_mix).raw <= c.raw,
        f_hi.spec_over(bin_hz).spec_ceil_count() - f_lo.spec_over(bin_hz).spec_floor_count() <= 2
            ==> spec_band(magnitudes, bin_hz, f_lo, f_hi, peak_mix) == c,
{
    let bin_lo = f_lo.spec_over(bin_hz).spec_floor_count() as int;
    let bin_hi_raw = f_hi.spec_over(bin_hz).spec_ceil_count() as int;
    let bin_hi = if bin_hi_raw < magnitudes.len() {
        bin_hi_raw
    } else {
        magnitudes.len() as int
    };
    if bin_hi - bin_lo <= 2 {
        let freq = f_lo.spec_times(f_hi).spec_sqrt();
        let pos = spec_max(freq.spec_over(bin_hz), spec_zero());
        let i0 = pos.spec_floor_count();
        assert(magnitudes[magnitudes.len() - 1] == c);
        if i0 + 1 < magnitudes.len() {
            assert(magnitudes[i0 as int] == c);
            assert(magnitudes[i0 + 1] == c);
            assert forall|j: int| 0 <= j < magnitudes.len() implies magnitudes[j].raw >= 0 by {
                assert(magnitudes[j] == c);
            }
            law_interpolation_stays_between(magnitudes, bin_hz, freq);
        }
        assert(spec_band(magnitudes, bin_hz, f_lo, f_hi, peak_mix).raw == c.raw);
    } else {
        let bins = magnitudes.subrange(bin_lo, bin_hi);
        assert forall|j: int| 0 <= j < bins.len() implies #[trigger] bins[j] == c by {
            assert(bins[j] == magnitudes[bin_lo + j]);
        }
        let n = bins.len() as int;
        let whole = magnitudes.len() as int;
        let q = c.spec_times(c).raw as int;
        assert(0 <= c.raw * c.raw) by (nonlinear_arith);
        assert(n * q <= whole * q) by (nonlinear_arith)
            requires
                n <= whole,
                0 <= q,
        ;
        lemma_flat_rms(bins, c);
        lemma_peak_bounds(bins, c);
        law_wide_band_stays_between(bins, peak_mix);
    }
}

/// What the squares of bins add up to without rounding.
pub open spec fn exact_squares(bins: Seq<Fixed>) -> int
    decreases bins.len(),
{
    if bins.len() == 0 {
        0
    } else {
        exact_squares(bins.drop_last()) + bins.last().raw * bins.last().raw
    }
}

/// Rounded squares add up to the exact sum, but for one for each of them.
proof fn lemma_squares_near(bins: Seq<Fixed>, hi: Fixed)
    requires
        forall|j: int| 0 <= j < bins.len() ==> 0 <= (#[trigger] bins[j]).raw <= hi.raw,
        0 <= hi.raw,
        hi.spec_times(hi).raw < i64::MAX,
    ensures
        raw_sum(squares_of(bins)) * 0x1_0000_0000 <= exact_squares(bins),
        exact_squares(bins) <= (raw_sum(squares_of(bins)) + bins.len()) * 0x1_0000_0000,
    decreases bins.len(),
{
    if bins.len() > 0 {
        let rest = bins.drop_last();
        assert forall|j: int| 0 <= j < rest.len() implies 0 <= (#[trigger] rest[j]).raw
            <= hi.raw by {
            assert(rest[j] == bins[j]);
        }
        lemma_squares_near(rest, hi);
        assert(squares_of(bins).drop_last() =~= squares_of(rest));
        lemma_squares_bounded(bins, hi);
        let last = bins.len() - 1;
        assert(squares_of(bins)[last].raw <= hi.spec_times(hi).raw);
        let square = bins[last].raw * bins[last].raw;
        assert(0 <= square) by (nonlinear_arith)
            requires
                square == bins[last].raw * bins[last].raw,
        ;
        let q = squares_of(bins).last().raw as int;
        assert(q == square / 0x1_0000_0000);
        lemma_floor_is_near(square, q);
    }
}

/// A root mean square is the root of the exact mean square, but for 2^17 units.
pub proof fn law_rms_is_near(bins: Seq<Fixed>, hi: Fixed)
    requires
        0 < bins.len() < 0x8000_0000,
        forall|j: int| 0 <= j < bins.len() ==> 0 <= (#[trigger] bins[j]).raw <= hi.raw,
        0 <= hi.raw,
        hi.spec_times(hi).raw < i64::MAX,
        bins.len() * hi.spec_times(hi).raw <= i64::MAX,
    ensures
        ({
            let n = bins.len() as int;
            let r = spec_rms(bins).raw as int;
            &&& 0 <= r
            &&& n * (r * r) <= exact_squares(bins)
            &&& exact_squares(bins) <= n * ((r + 0x2_0000) * (r + 0x2_0000))
        }),
{
    let n = bins.len() as int;
    let r = spec_rms(bins).raw as int;
    lemma_squares_near(bins, hi);
    lemma_squares_bounded(bins, hi);
    lemma_total_saturates(squares_of(bins));
    lemma_rms_value(bins);
    let total = raw_sum(squares_of(bins));
    assert(spec_total(squares_of(bins)).raw == total);
    let mean = total / n;
    vstd::arithmetic::div_mod::lemma_fundamental_div_mod(total, n);
    assert(0 <= total % n < n) by (nonlinear_arith)
        requires
            0 < n,
    ;
    let low = r * r;
    let high = (r + 0x2_0000) * (r + 0x2_0000);
    let next = (r + 1) * (r + 1);
    assert(n * low <= (n * mean) * 0x1_0000_0000) by (nonlinear_arith)
        requires
            0 < n,
            low <= mean * 0x1_0000_0000,
    ;
    assert(high >= next + 0x2_0000_0000) by (nonlinear_arith)
        requires
            0 <= r,
            high == (r + 0x2_0000) * (r + 0x2_0000),
            next == (r + 1) * (r + 1),
    ;
    assert((n * mean + 2 * n) * 0x1_0000_0000 <= n * high) by (nonlinear_arith)
        requires
            0 < n,
            (mean + 2) * 0x1_0000_0000 <= high,
    ;
}

/// Values are nowhere, on the whole, further from `v` than no distance at all.
proof fn lemma_distances(bins: Seq<Fixed>, v: int)
    ensures
        0 <= exact_squares(bins) + bins.len() * (v * v) - 2 * (v * raw_sum(bins)),
    decreases bins.len(),
{
    let n = bins.len() as int;
    if n > 0 {
        let rest = bins.drop_last();
        lemma_distances(rest, v);
        let x = bins.last().raw as int;
        let s = raw_sum(rest);
        let vv = v * v;
        assert(0 <= x * x + vv - 2 * (v * x)) by (nonlinear_arith)
            requires
                vv == v * v,
        ;
        assert(n * vv == (n - 1) * vv + vv) by (nonlinear_arith);
        assert(v * (s + x) == v * s + v * x) by (nonlinear_arith);
    } else {
        assert(0 * (v * v) == 0) by (nonlinear_arith);
        assert(v * 0 == 0) by (nonlinear_arith);
    }
}

/// The square of a sum is at most the sum of the squares times their number.
proof fn lemma_sum_of_squares(bins: Seq<Fixed>)
    ensures
        raw_sum(bins) * raw_sum(bins) <= bins.len() * exact_squares(bins),
    decreases bins.len(),
{
    let n = bins.len() as int;
    if n > 0 {
        let rest = bins.drop_last();
        let x = bins.last().raw as int;
        lemma_sum_of_squares(rest);
        lemma_distances(rest, x);
        let s = raw_sum(rest);
        let q = exact_squares(rest);
        let xx = x * x;
        assert((s + x) * (s + x) == s * s + 2 * (x * s) + xx) by (nonlinear_arith)
            requires
                xx == x * x,
        ;
        assert(n * (q + xx) == (n - 1) * q + q + (n - 1) * xx + xx) by (nonlinear_arith);
    } else {
        assert(0 * exact_squares(bins) == 0) by (nonlinear_arith);
        assert(raw_sum(bins) * raw_sum(bins) == 0) by (nonlinear_arith)
            requires
                raw_sum(bins) == 0,
        ;
    }
}

/// Each value of `scaled` is that of `bins` times `c`, rounded down.
pub open spec fn is_scaled(bins: Seq<Fixed>, scaled: Seq<Fixed>, c: Fixed) -> bool {
    &&& scaled.len() == bins.len()
    &&& forall|j: int|
        0 <= j < bins.len() ==> (#[trigger] scaled[j]).raw == (bins[j].raw * c.raw) / 0x1_0000_0000
}

/// The exact squares of scaled bins, against those of the bins.
proof fn lemma_scaled_squares(bins: Seq<Fixed>, scaled: Seq<Fixed>, c: Fixed)
    requires
        is_scaled(bins, scaled, c),
        0 <= c.raw,
        forall|j: int| 0 <= j < bins.len() ==> 0 <= (#[trigger] bins[j]).raw,
    ensures
        ({
            let one = 0x1_0000_0000int;
            let before = (c.raw * c.raw) * exact_squares(bins);
            &&& (one * one) * exact_squares(scaled) <= before
            &&& before <= (one * one) * (exact_squares(scaled) + 2 * raw_sum(scaled) + bins.len())
        }),
    decreases bins.len(),
{
    let one = 0x1_0000_0000int;
    let cc = c.raw * c.raw;
    let n = bins.len() as int;
    if n > 0 {
        let a = bins.drop_last();
        let b = scaled.drop_last();
        assert forall|j: int| 0 <= j < a.len() implies (#[trigger] b[j]).raw == (a[j].raw * c.raw)
            / 0x1_0000_0000 by {
            assert(scaled[j].raw == (bins[j].raw * c.raw) / 0x1_0000_0000);
        }
        assert forall|j: int| 0 <= j < a.len() implies 0 <= (#[trigger] a[j]).raw by {
            assert(0 <= bins[j].raw);
        }
        lemma_scaled_squares(a, b, c);
        let v = bins[n - 1].raw as int;
        let w = scaled[n - 1].raw as int;
        let k = c.raw as int;
        assert(w == (v * k) / 0x1_0000_0000);
        lemma_floor_is_near(v * k, w);
        assert(0 <= v * k) by (nonlinear_arith)
            requires
                0 <= v,
                0 <= k,
        ;
        assert(0 <= w);
        lemma_scaled_square(v, k, w, one);
        let p = exact_squares(a);
        let q = exact_squares(b);
        let s = raw_sum(b);
        assert(cc * (p + v * v) == cc * p + cc * (v * v)) by (nonlinear_arith);
        assert((one * one) * (q + w * w) == (one * one) * q + (one * one) * (w * w))
            by (nonlinear_arith);
        assert((one * one) * (q + w * w + 2 * (s + w) + n) == (one * one) * (q + 2 * s + (n - 1))
            + (one * one) * (w * w + 2 * w + 1)) by (nonlinear_arith);
    } else {
        assert(cc * 0 == 0) by (nonlinear_arith);
    }
}

/// The square of a scaled value, against that of the value.
proof fn lemma_scaled_square(v: int, k: int, w: int, one: int)
    requires
        0 <= v,
        0 <= k,
        0 <= w,
        0 < one,
        w * one <= v * k <= (w + 1) * one,
    ensures
        (one * one) * (w * w) <= (k * k) * (v * v) <= (one * one) * (w * w + 2 * w + 1),
{
    let x = w * one;
    let y = v * k;
    let z = (w + 1) * one;
    assert(0 <= x) by (nonlinear_arith)
        requires
            x == w * one,
            0 <= w,
            0 < one,
    ;
    assert(x * x <= y * y <= z * z) by (nonlinear_arith)
        requires
            0 <= x <= y <= z,
    ;
    assert(x * x == (one * one) * (w * w)) by (nonlinear_arith)
        requires
            x == w * one,
    ;
    assert(y * y == (k * k) * (v * v)) by (nonlinear_arith)
        requires
            y == v * k,
    ;
    assert(z * z == (one * one) * (w * w + 2 * w + 1)) by (nonlinear_arith)
        requires
            z == (w + 1) * one,
    ;
}

/// Of two numbers that are not negative, the one with the larger square is the larger.
proof fn lemma_square_order(x: int, y: int)
    requires
        0 <= y,
        x * x <= y * y,
    ensures
        x <= y,
{
    assert(x <= y) by (nonlinear_arith)
        requires
            0 <= y,
            x * x <= y * y,
    ;
}

/// The root mean square of scaled bins is the scaled one, but for what squaring and
/// scaling round off.
proof fn lemma_scaled_rms(bins: Seq<Fixed>, scaled: Seq<Fixed>, c: Fixed, hi: Fixed, top: Fixed)
    requires
        is_scaled(bins, scaled, c),
        0 < bins.len() < 0x8000_0000,
        0 <= c.raw,
        forall|j: int| 0 <= j < bins.len() ==> 0 <= (#[trigger] bins[j]).raw <= hi.raw,
        forall|j: int| 0 <= j < bins.len() ==> 0 <= (#[trigger] scaled[j]).raw <= top.raw,
        squares_fit(bins.len() as int, hi),
        squares_fit(bins.len() as int, top),
    ensures
        0x1_0000_0000 * spec_rms(scaled).raw <= c.raw * (spec_rms(bins).raw + 0x2_0000),
        c.raw * spec_rms(bins).raw <= 0x1_0000_0000 * (spec_rms(scaled).raw + 0x2_0001),
{
    let one = 0x1_0000_0000int;
    let n = bins.len() as int;
    let k = c.raw as int;
    let r = spec_rms(bins).raw as int;
    let u = spec_rms(scaled).raw as int;
    assert(0 <= bins[0].raw <= hi.raw);
    assert(0 <= scaled[0].raw <= top.raw);
    law_rms_is_near(bins, hi);
    law_rms_is_near(scaled, top);
    lemma_scaled_squares(bins, scaled, c);
    lemma_sum_of_squares(scaled);
    let s2 = exact_squares(bins);
    let t2 = exact_squares(scaled);
    let t1 = raw_sum(scaled);
    lemma_scaled_rms_above(one, n, k, r, u, s2, t2);
    lemma_scaled_rms_below(one, n, k, r, u, s2, t2, t1);
}

/// The upper half of [`lemma_scaled_rms`].
proof fn lemma_scaled_rms_above(one: int, n: int, k: int, r: int, u: int, s2: int, t2: int)
    requires
        0 < one,
        0 < n,
        0 <= k,
        0 <= r,
        n * (u * u) <= t2,
        s2 <= n * ((r + 0x2_0000) * (r + 0x2_0000)),
        (one * one) * t2 <= (k * k) * s2,
    ensures
        one * u <= k * (r + 0x2_0000),
{
    let x = one * u;
    let y = k * (r + 0x2_0000);
    let uu = u * u;
    let rr = (r + 0x2_0000) * (r + 0x2_0000);
    assert(x * x == (one * one) * uu) by (nonlinear_arith)
        requires
            x == one * u,
            uu == u * u,
    ;
    assert(y * y == (k * k) * rr) by (nonlinear_arith)
        requires
            y == k * (r + 0x2_0000),
            rr == (r + 0x2_0000) * (r + 0x2_0000),
    ;
    let oo = one * one;
    let kk = k * k;
    assert(oo * (n * uu) <= oo * t2) by (nonlinear_arith)
        requires
            n * uu <= t2,
            oo == one * one,
    ;
    assert(kk * s2 <= kk * (n * rr)) by (nonlinear_arith)
        requires
            s2 <= n * rr,
            kk == k * k,
    ;
    assert(oo * (n * uu) == n * (oo * uu)) by (nonlinear_arith);
    assert(kk * (n * rr) == n * (kk * rr)) by (nonlinear_arith);
    let left = oo * uu;
    let right = kk * rr;
    assert(left <= right) by (nonlinear_arith)
        requires
            0 < n,
            n * left <= n * right,
    ;
    assert(0 <= y) by (nonlinear_arith)
        requires
            y == k * (r + 0x2_0000),
            0 <= k,
            0 <= r,
    ;
    lemma_square_order(x, y);
}

/// The lower half of [`lemma_scaled_rms`].
proof fn lemma_scaled_rms_below(
    one: int,
    n: int,
    k: int,
    r: int,
    u: int,
    s2: int,
    t2: int,
    t1: int,
)
    requires
        0 < one,
        0 < n,
        0 <= u,
        n * (r * r) <= s2,
        t2 <= n * ((u + 0x2_0000) * (u + 0x2_0000)),
        t1 * t1 <= n * t2,
        (k * k) * s2 <= (one * one) * (t2 + 2 * t1 + n),
    ensures
        k * r <= one * (u + 0x2_0001),
{
    let e = u + 0x2_0000;
    let ee = e * e;
    let ne = n * e;
    assert(n * t2 <= n * (n * ee)) by (nonlinear_arith)
        requires
            0 < n,
            t2 <= n * ee,
    ;
    assert(ne * ne == n * (n * ee)) by (nonlinear_arith)
        requires
            ne == n * e,
            ee == e * e,
    ;
    assert(0 <= ne) by (nonlinear_arith)
        requires
            ne == n * e,
            0 < n,
            0 <= e,
    ;
    lemma_square_order(t1, ne);
    let rr = r * r;
    let kk = k * k;
    let oo = one * one;
    let ff = (e + 1) * (e + 1);
    assert(n * ff == n * ee + 2 * ne + n) by (nonlinear_arith)
        requires
            ff == (e + 1) * (e + 1),
            ee == e * e,
            ne == n * e,
    ;
    assert(kk * (n * rr) <= kk * s2) by (nonlinear_arith)
        requires
            n * rr <= s2,
            kk == k * k,
    ;
    assert(oo * (t2 + 2 * t1 + n) <= oo * (n * ff)) by (nonlinear_arith)
        requires
            t2 + 2 * t1 + n <= n * ff,
            oo == one * one,
    ;
    assert(kk * (n * rr) == n * (kk * rr)) by (nonlinear_arith);
    assert(oo * (n * ff) == n * (oo * ff)) by (nonlinear_arith);
    let left = kk * rr;
    let right = oo * ff;
    assert(left <= right) by (nonlinear_arith)
        requires
            0 < n,
            n * left <= n * right,
    ;
    let x = k * r;
    let y = one * (e + 1);
    assert(x * x == left) by (nonlinear_arith)
        requires
            x == k * r,
            left == kk * rr,
            kk == k * k,
            rr == r * r,
    ;
    assert(y * y == right) by (nonlinear_arith)
        requires
            y == one * (e + 1),
            right == oo * ff,
            oo == one * one,
            ff == (e + 1) * (e + 1),
    ;
    assert(0 <= y) by (nonlinear_arith)
        requires
            y == one * (e + 1),
            0 < one,
            0 <= e,
    ;
    lemma_square_order(x, y);
}

/// The squares of `n` bins up to `hi` add up to a fixed-point number.
pub open spec fn squares_fit(n: int, hi: Fixed) -> bool {
    &&& hi.spec_times(hi).raw < i64::MAX
    &&& n * hi.spec_times(hi).raw <= i64::MAX
}

/// The peak of scaled bins is the scaled peak.
proof fn lemma_scaled_peak(bins: Seq<Fixed>, scaled: Seq<Fixed>, c: Fixed)
    requires
        is_scaled(bins, scaled, c),
        0 <= c.raw,
    ensures
        spec_peak(scaled).raw == (spec_peak(bins).raw * c.raw) / 0x1_0000_0000,
    decreases bins.len(),
{
    let k = c.raw as int;
    if bins.len() > 0 {
        let a = bins.drop_last();
        let b = scaled.drop_last();
        assert forall|j: int| 0 <= j < a.len() implies (#[trigger] b[j]).raw == (a[j].raw * c.raw)
            / 0x1_0000_0000 by {
            assert(scaled[j].raw == (bins[j].raw * c.raw) / 0x1_0000_0000);
        }
        lemma_scaled_peak(a, b, c);
        let last = bins.len() - 1;
        assert(scaled[last].raw == (bins[last].raw * c.raw) / 0x1_0000_0000);
        let x = spec_peak(a).raw as int;
        let y = bins[last].raw as int;
        let xk = x * k;
        let yk = y * k;
        assert(x <= y ==> xk <= yk) by (nonlinear_arith)
            requires
                0 <= k,
                xk == x * k,
                yk == y * k,
        ;
        assert(y <= x ==> yk <= xk) by (nonlinear_arith)
            requires
                0 <= k,
                xk == x * k,
                yk == y * k,
        ;
    } else {
        assert(0 * k == 0) by (nonlinear_arith);
    }
}

/// A share of at most one never saturates.
proof fn lemma_share_fits(x: Fixed, share: Fixed)
    requires
        0 <= share.raw <= 0x1_0000_0000,
    ensures
        x.spec_times(share).raw == truncated_quotient(x.raw * share.raw, 0x1_0000_0000),
{
    let v = x.raw as int;
    let s = share.raw as int;
    assert(v >= 0 ==> 0 <= v * s <= v * 0x1_0000_0000) by (nonlinear_arith)
        requires
            0 <= s <= 0x1_0000_0000,
    ;
    assert(v <= 0 ==> v * 0x1_0000_0000 <= v * s <= 0) by (nonlinear_arith)
        requires
            0 <= s <= 0x1_0000_0000,
    ;
    if v >= 0 {
        lemma_quotient_between(v * s, 0x1_0000_0000, 0, v);
    } else {
        lemma_quotient_between(v * s, 0x1_0000_0000, v, 0);
    }
}

/// A mix of shares that add up to one never saturates.
proof fn lemma_mix_fits(x: Fixed, y: Fixed, p: Fixed, q: Fixed)
    requires
        0 <= x.raw <= y.raw,
        0 <= p.raw,
        0 <= q.raw,
        p.raw + q.raw == 0x1_0000_0000,
    ensures
        x.spec_times(p).spec_plus(y.spec_times(q)).raw == x.spec_times(p).raw + y.spec_times(q).raw,
{
    lemma_mix_stays_between(x, y, p, q);
    lemma_times_share(x, p);
    lemma_times_share(y, q);
    let a = x.raw * p.raw;
    let b = y.raw * q.raw;
    assert(0 <= a && 0 <= b && a + b <= y.raw * 0x1_0000_0000) by (nonlinear_arith)
        requires
            0 <= x.raw <= y.raw,
            0 <= p.raw,
            0 <= q.raw,
            p.raw + q.raw == 0x1_0000_0000,
            a == x.raw * p.raw,
            b == y.raw * q.raw,
    ;
    lemma_share_fits(x, p);
    lemma_share_fits(y, q);
    assert(a / 0x1_0000_0000 + b / 0x1_0000_0000 <= y.raw);
}

/// A wide band of scaled bins is the scaled band, but for rounding.
proof fn lemma_scaled_wide_band(
    bins: Seq<Fixed>,
    scaled: Seq<Fixed>,
    c: Fixed,
    hi: Fixed,
    top: Fixed,
    peak_mix: Fixed,
)
    requires
        is_scaled(bins, scaled, c),
        0 < bins.len() < 0x8000_0000,
        0 <= c.raw,
        forall|j: int| 0 <= j < bins.len() ==> 0 <= (#[trigger] bins[j]).raw <= hi.raw,
        forall|j: int| 0 <= j < bins.len() ==> 0 <= (#[trigger] scaled[j]).raw <= top.raw,
        squares_fit(bins.len() as int, hi),
        squares_fit(bins.len() as int, top),
        0 <= peak_mix.raw <= 0x1_0000_0000,
    ensures
        ({
            let a = spec_wide_band(bins, peak_mix).raw;
            let b = spec_wide_band(scaled, peak_mix).raw;
            &&& 0x1_0000_0000 * b <= c.raw * (a + 0x2_0002)
            &&& c.raw * a <= 0x1_0000_0000 * (b + 0x2_0004)
        }),
{
    let rest = spec_one::<Fixed>().spec_minus(peak_mix);
    assert(rest.raw == 0x1_0000_0000 - peak_mix.raw);
    lemma_scaled_rms(bins, scaled, c, hi, top);
    lemma_scaled_peak(bins, scaled, c);
    law_wide_band_stays_between(bins, peak_mix);
    law_wide_band_stays_between(scaled, peak_mix);
    let r = spec_rms(bins);
    let t = spec_peak(bins);
    let u = spec_rms(scaled);
    let w = spec_peak(scaled);
    lemma_share_fits(r, rest);
    lemma_share_fits(t, peak_mix);
    lemma_share_fits(u, rest);
    lemma_share_fits(w, peak_mix);
    lemma_mix_fits(r, t, rest, peak_mix);
    lemma_mix_fits(u, w, rest, peak_mix);
    lemma_floor_is_near(t.raw * c.raw, w.raw as int);
    assert(t.raw * c.raw == c.raw * t.raw) by (nonlinear_arith);
    lemma_scaled_mix(
        0x1_0000_0000,
        c.raw as int,
        r.raw as int,
        t.raw as int,
        u.raw as int,
        w.raw as int,
        rest.raw as int,
        peak_mix.raw as int,
    );
}

/// The arithmetic of [`lemma_scaled_wide_band`].
proof fn lemma_scaled_mix(one: int, k: int, r: int, t: int, u: int, w: int, p: int, q: int)
    requires
        0 < one,
        0 <= k,
        0 <= r && 0 <= t && 0 <= u && 0 <= w,
        0 <= p && 0 <= q && p + q == one,
        one * u <= k * (r + 0x2_0000),
        k * r <= one * (u + 0x2_0001),
        one * w <= k * t <= one * (w + 1),
    ensures
        ({
            let a = truncated_quotient(r * p, one) + truncated_quotient(t * q, one);
            let b = truncated_quotient(u * p, one) + truncated_quotient(w * q, one);
            &&& one * b <= k * (a + 0x2_0002)
            &&& k * a <= one * (b + 0x2_0004)
        }),
{
    let a1 = truncated_quotient(r * p, one);
    let a2 = truncated_quotient(t * q, one);
    let b1 = truncated_quotient(u * p, one);
    let b2 = truncated_quotient(w * q, one);
    assert(0 <= r * p && 0 <= t * q && 0 <= u * p && 0 <= w * q) by (nonlinear_arith)
        requires
            0 <= r && 0 <= t && 0 <= u && 0 <= w,
            0 <= p && 0 <= q,
    ;
    lemma_quotient_bounds(r * p, one);
    lemma_quotient_bounds(t * q, one);
    lemma_quotient_bounds(u * p, one);
    lemma_quotient_bounds(w * q, one);
    lemma_scaled_mix_above(one, k, r, t, u, w, p, q, a1, a2, b1, b2);
    lemma_scaled_mix_below(one, k, r, t, u, w, p, q, a1, a2, b1, b2);
}

/// The upper half of [`lemma_scaled_mix`].
proof fn lemma_scaled_mix_above(
    one: int,
    k: int,
    r: int,
    t: int,
    u: int,
    w: int,
    p: int,
    q: int,
    a1: int,
    a2: int,
    b1: int,
    b2: int,
)
    requires
        0 < one,
        0 <= k,
        0 <= p && 0 <= q && p + q == one,
        one * u <= k * (r + 0x2_0000),
        one * w <= k * t,
        r * p < one * a1 + one,
        t * q < one * a2 + one,
        one * b1 <= u * p,
        one * b2 <= w * q,
    ensures
        one * (b1 + b2) <= k * (a1 + a2 + 0x2_0002),
{
    let rp = r * p;
    let tq = t * q;
    let up = u * p;
    let wq = w * q;
    assert(one * up <= k * (rp + 0x2_0000 * p)) by (nonlinear_arith)
        requires
            0 <= p,
            one * u <= k * (r + 0x2_0000),
            rp == r * p,
            up == u * p,
    ;
    assert(one * wq <= k * tq) by (nonlinear_arith)
        requires
            0 <= q,
            one * w <= k * t,
            tq == t * q,
            wq == w * q,
    ;
    assert(k * (rp + 0x2_0000 * p) <= k * (one * a1 + one + 0x2_0000 * one)) by (nonlinear_arith)
        requires
            0 <= k,
            rp + 0x2_0000 * p <= one * a1 + one + 0x2_0000 * one,
    ;
    assert(k * tq <= k * (one * a2 + one)) by (nonlinear_arith)
        requires
            0 <= k,
            tq <= one * a2 + one,
    ;
    let goal = k * (a1 + a2 + 0x2_0002);
    assert(k * (one * a1 + one + 0x2_0000 * one) + k * (one * a2 + one) == one * goal)
        by (nonlinear_arith)
        requires
            goal == k * (a1 + a2 + 0x2_0002),
    ;
    let sum = one * (b1 + b2);
    assert(sum == one * b1 + one * b2) by (nonlinear_arith)
        requires
            sum == one * (b1 + b2),
    ;
    assert(one * sum <= one * up + one * wq) by (nonlinear_arith)
        requires
            0 < one,
            sum <= up + wq,
    ;
    assert(sum <= goal) by (nonlinear_arith)
        requires
            0 < one,
            one * sum <= one * goal,
    ;
}

/// The lower half of [`lemma_scaled_mix`].
proof fn lemma_scaled_mix_below(
    one: int,
    k: int,
    r: int,
    t: int,
    u: int,
    w: int,
    p: int,
    q: int,
    a1: int,
    a2: int,
    b1: int,
    b2: int,
)
    requires
        0 < one,
        0 <= k,
        0 <= p && 0 <= q && p + q == one,
        k * r <= one * (u + 0x2_0001),
        k * t <= one * (w + 1),
        one * a1 <= r * p,
        one * a2 <= t * q,
        u * p < one * b1 + one,
        w * q < one * b2 + one,
    ensures
        k * (a1 + a2) <= one * (b1 + b2 + 0x2_0004),
{
    let rp = r * p;
    let tq = t * q;
    let up = u * p;
    let wq = w * q;
    assert(k * rp <= one * (up + 0x2_0001 * p)) by (nonlinear_arith)
        requires
            0 <= p,
            k * r <= one * (u + 0x2_0001),
            rp == r * p,
            up == u * p,
    ;
    assert(k * tq <= one * (wq + q)) by (nonlinear_arith)
        requires
            0 <= q,
            k * t <= one * (w + 1),
            tq == t * q,
            wq == w * q,
    ;
    assert(one * (up + 0x2_0001 * p) + one * (wq + q) <= one * (one * (b1 + b2 + 0x2_0004)))
        by (nonlinear_arith)
        requires
            0 < one,
            0 <= p && 0 <= q && p + q == one,
            up < one * b1 + one,
            wq < one * b2 + one,
    ;
    let sum = k * (a1 + a2);
    assert(one * sum <= k * rp + k * tq) by (nonlinear_arith)
        requires
            0 <= k,
            one * a1 <= rp,
            one * a2 <= tq,
            sum == k * (a1 + a2),
    ;
    let goal = one * (b1 + b2 + 0x2_0004);
    assert(sum <= goal) by (nonlinear_arith)
        requires
            0 < one,
            one * sum <= one * goal,
    ;
}

/// The spectrum read in a straight line scales with it, but for rounding.
proof fn lemma_scaled_interpolation(
    magnitudes: Seq<Fixed>,
    scaled: Seq<Fixed>,
    c: Fixed,
    bin_hz: Fixed,
    freq: Fixed,
)
    requires
        is_scaled(magnitudes, scaled, c),
        0 < magnitudes.len(),
        0 <= c.raw,
        forall|j: int| 0 <= j < magnitudes.len() ==> 0 <= (#[trigger] magnitudes[j]).raw,
    ensures
        ({
            let a = spec_interpolate(magnitudes, bin_hz, freq).raw;
            let b = spec_interpolate(scaled, bin_hz, freq).raw;
            let one = 0x1_0000_0000int;
            &&& one * b <= c.raw * (a + 1) + 3 * one
            &&& c.raw * a <= one * (b + 3) + c.raw
        }),
{
    let one = 0x1_0000_0000int;
    let k = c.raw as int;
    let pos = spec_max(freq.spec_over(bin_hz), spec_zero());
    let i0 = pos.spec_floor_count();
    let last = magnitudes.len() - 1;
    let v = magnitudes[last].raw as int;
    assert(scaled[last].raw == (v * k) / 0x1_0000_0000);
    lemma_floor_is_near(v * k, scaled[last].raw as int);
    assert(v * k == k * v) by (nonlinear_arith);
    assert(k * (v + 1) == k * v + k) by (nonlinear_arith);
    if i0 + 1 < magnitudes.len() {
        let a = magnitudes[i0 as int];
        let b = magnitudes[i0 + 1];
        let x = scaled[i0 as int];
        let y = scaled[i0 + 1];
        assert(x.raw == (a.raw * k) / 0x1_0000_0000 && y.raw == (b.raw * k) / 0x1_0000_0000);
        assert(0 <= a.raw && 0 <= b.raw);
        assert(0 <= a.raw * k && 0 <= b.raw * k) by (nonlinear_arith)
            requires
                0 <= a.raw,
                0 <= b.raw,
                0 <= k,
        ;
        lemma_floor_is_near(a.raw * k, x.raw as int);
        lemma_floor_is_near(b.raw * k, y.raw as int);
        assert(0 <= x.raw && 0 <= y.raw);
        let frac = pos.spec_minus(Fixed::spec_from_count(i0));
        assert(pos.raw >= 0);
        assert(i0 == pos.raw as int / 0x1_0000_0000);
        assert(0 <= frac.raw < 0x1_0000_0000);
        let way = b.spec_minus(a);
        let long = y.spec_minus(x);
        assert(way.raw == b.raw - a.raw);
        assert(long.raw == y.raw - x.raw);
        lemma_share_fits(way, frac);
        lemma_share_fits(long, frac);
        lemma_times_share(way, frac);
        lemma_times_share(long, frac);
        let p = way.spec_times(frac).raw as int;
        let q = long.spec_times(frac).raw as int;
        lemma_quotient_error(way.raw * frac.raw, one);
        lemma_quotient_error(long.raw * frac.raw, one);
        lemma_scaled_line(
            one,
            k,
            a.raw as int,
            b.raw as int,
            x.raw as int,
            y.raw as int,
            frac.raw as int,
            p,
            q,
        );
    }
}

/// The arithmetic of [`lemma_scaled_interpolation`].
proof fn lemma_scaled_line(
    one: int,
    k: int,
    a: int,
    b: int,
    x: int,
    y: int,
    f: int,
    p: int,
    q: int,
)
    requires
        0 < one,
        0 <= k,
        0 <= f <= one,
        one * x <= a * k <= one * (x + 1),
        one * y <= b * k <= one * (y + 1),
        -one <= one * p - (b - a) * f <= one,
        -one <= one * q - (y - x) * f <= one,
    ensures
        one * (x + q) <= k * (a + p + 1) + 3 * one,
        k * (a + p) <= one * (x + q + 3) + k,
{
    let d = (b - a) * f;
    let g = (y - x) * f;
    let kd = k * d;
    let e = one * (y - x) - k * (b - a);
    assert(-one <= e <= one) by (nonlinear_arith)
        requires
            e == one * (y - x) - k * (b - a),
            one * x <= a * k <= one * (x + 1),
            one * y <= b * k <= one * (y + 1),
    ;
    assert(one * g - kd == e * f) by (nonlinear_arith)
        requires
            e == one * (y - x) - k * (b - a),
            d == (b - a) * f,
            g == (y - x) * f,
            kd == k * d,
    ;
    assert(-(one * one) <= e * f <= one * one) by (nonlinear_arith)
        requires
            -one <= e <= one,
            0 <= f <= one,
    ;
    let kp = k * p;
    assert(-(k * one) <= one * kp - kd <= k * one) by (nonlinear_arith)
        requires
            0 <= k,
            -one <= one * p - d <= one,
            kp == k * p,
            kd == k * d,
    ;
    assert(-(one * one) <= one * (one * q) - one * g <= one * one) by (nonlinear_arith)
        requires
            0 < one,
            -one <= one * q - g <= one,
    ;
    let left = one * (x + q);
    let right = k * (a + p);
    assert(one * left == one * (one * x) + one * (one * q)) by (nonlinear_arith)
        requires
            left == one * (x + q),
    ;
    assert(one * right == one * (a * k) + one * kp) by (nonlinear_arith)
        requires
            right == k * (a + p),
            kp == k * p,
    ;
    assert(one * (one * x) <= one * (a * k) <= one * (one * x) + one * one) by (nonlinear_arith)
        requires
            0 < one,
            one * x <= a * k <= one * (x + 1),
    ;
    let gap = left - right;
    assert(one * gap == one * left - one * right) by (nonlinear_arith)
        requires
            gap == left - right,
    ;
    assert(-(3 * (one * one) + k * one) <= one * gap <= 3 * (one * one) + k * one);
    assert(-(3 * one + k) <= gap <= 3 * one + k) by (nonlinear_arith)
        requires
            0 < one,
            -(3 * (one * one) + k * one) <= one * gap <= 3 * (one * one) + k * one,
    ;
    assert(k * (a + p + 1) == right + k) by (nonlinear_arith)
        requires
            right == k * (a + p),
    ;
    assert(one * (x + q + 3) == left + 3 * one) by (nonlinear_arith)
        requires
            left == one * (x + q),
    ;
}

/// Scaling a spectrum scales its bands, but for rounding: with `b` the band of the
/// scaled spectrum and `a` that of the spectrum, `b` lies within what `c * a` comes to
/// when `a` is off by 2^17 units and two more, and `b` by 2^17 and four more, those
/// being what squaring rounds off. The squares of both spectra have to add up to
/// fixed-point numbers.
pub proof fn law_bands_scale(
    magnitudes: Seq<Fixed>,
    scaled: Seq<Fixed>,
    c: Fixed,
    bin_hz: Fixed,
    f_lo: Fixed,
    f_hi: Fixed,
    peak_mix: Fixed,
)
    requires
        is_scaled(magnitudes, scaled, c),
        magnitudes.len() < 0x8000_0000,
        0 <= c.raw,
        forall|j: int| 0 <= j < magnitudes.len() ==> 0 <= (#[trigger] magnitudes[j]).raw,
        squares_fit(magnitudes.len() as int, spec_peak(magnitudes)),
        squares_fit(magnitudes.len() as int, spec_peak(scaled)),
        0 <= peak_mix.raw <= 0x1_0000_0000,
    ensures
        ({
            let a = spec_band(magnitudes, bin_hz, f_lo, f_hi, peak_mix).raw;
            let b = spec_band(scaled, bin_hz, f_lo, f_hi, peak_mix).raw;
            &&& 0x1_0000_0000 * (b - 3) <= c.raw * (a + 0x2_0002)
            &&& c.raw * (a - 1) <= 0x1_0000_0000 * (b + 0x2_0004)
        }),
{
    let one = 0x1_0000_0000int;
    let k = c.raw as int;
    let bin_lo = f_lo.spec_over(bin_hz).spec_floor_count() as int;
    let bin_hi_raw = f_hi.spec_over(bin_hz).spec_ceil_count() as int;
    let bin_hi = if bin_hi_raw < magnitudes.len() {
        bin_hi_raw
    } else {
        magnitudes.len() as int
    };
    let a = spec_band(magnitudes, bin_hz, f_lo, f_hi, peak_mix).raw as int;
    let b = spec_band(scaled, bin_hz, f_lo, f_hi, peak_mix).raw as int;
    assert(k * a <= k * (a + 1) <= k * (a + 0x2_0002)) by (nonlinear_arith)
        requires
            0 <= k,
    ;
    assert(k * (a - 1) == k * a - k) by (nonlinear_arith);
    if bin_lo >= magnitudes.len() {
        assert(k * 0 == 0) by (nonlinear_arith);
        assert(a == 0 && b == 0);
    } else if bin_hi - bin_lo <= 2 {
        lemma_scaled_interpolation(
            magnitudes,
            scaled,
            c,
            bin_hz,
            f_lo.spec_times(f_hi).spec_sqrt(),
        );
    } else {
        let hi = spec_peak(magnitudes);
        let top = spec_peak(scaled);
        lemma_peak_bounds(magnitudes, hi);
        lemma_peak_bounds(scaled, top);
        let bins = magnitudes.subrange(bin_lo, bin_hi);
        let large = scaled.subrange(bin_lo, bin_hi);
        assert forall|j: int| 0 <= j < bins.len() implies 0 <= (#[trigger] bins[j]).raw
            <= hi.raw by {
            assert(bins[j] == magnitudes[bin_lo + j]);
        }
        assert forall|j: int| 0 <= j < bins.len() implies (#[trigger] large[j]).raw == (bins[j].raw
            * c.raw) / 0x1_0000_0000 && 0 <= large[j].raw <= top.raw by {
            let v = bins[j].raw as int;
            assert(large[j] == scaled[bin_lo + j]);
            assert(bins[j] == magnitudes[bin_lo + j]);
            assert(0 <= v * k) by (nonlinear_arith)
                requires
                    0 <= k,
                    0 <= v,
            ;
        }
        let n = bins.len() as int;
        let whole = scaled.len() as int;
        lemma_part_fits(n, whole, hi);
        lemma_part_fits(n, whole, top);
        lemma_scaled_wide_band(bins, large, c, hi, top, peak_mix);
    }
}

/// Where the squares of bins fit, those of fewer bins do.
proof fn lemma_part_fits(n: int, whole: int, hi: Fixed)
    requires
        0 <= n <= whole,
        0 <= hi.raw,
        squares_fit(whole, hi),
    ensures
        squares_fit(n, hi),
{
    let q = hi.spec_times(hi).raw as int;
    assert(0 <= hi.raw * hi.raw) by (nonlinear_arith);
    assert(n * q <= whole * q) by (nonlinear_arith)
        requires
            n <= whole,
            0 <= q,
    ;
}

} // verus!
