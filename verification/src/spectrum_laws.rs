//! Which part of the spectrum a band reads, and how, in whole numbers.

use vstd::prelude::*;

use crate::band_laws::{exact_squares, law_rms_is_near, law_wide_band_stays_between, squares_fit};
use crate::bands::{
    edge_span, lowest_edge, spec_band, spec_cap_to_stream, spec_edge_exponent, spec_edge_from,
    spec_interpolate, spec_log_bars, spec_rms, spec_way_left, spec_wide_band, warp_in_use,
};
use crate::fixed::{
    lemma_over_sign, lemma_peak_bounds, lemma_quotient_between, lemma_quotient_bounds,
    lemma_times_share, lemma_zero_absorbs, truncated_quotient, Fixed,
};
use crate::fixed_laws::{
    law_counts_are_whole_parts, law_fractions, law_product_is_near, law_quotient_is_near,
    law_root_squares_back, law_share_is_near,
};
use crate::normalize::lemma_level_chain;
use crate::scalar::{spec_clamp, spec_max, spec_one, spec_peak, spec_ratio, spec_zero, Scalar};

verus! {

/// Where a frequency lies among the bins, rounded down to one part in 2^32; frequencies
/// that are past every bin may be anywhere past them.
proof fn lemma_bin_position(freq: Fixed, bin_hz: Fixed, k: int)
    requires
        0 <= freq.raw,
        0 < bin_hz.raw,
        k * bin_hz.raw <= freq.raw < (k + 1) * bin_hz.raw,
    ensures
        ({
            let pos = freq.spec_over(bin_hz).raw;
            let one = 0x1_0000_0000int;
            &&& 0 <= k
            &&& 0 <= pos
            &&& k < 0x7fff_ffff ==> {
                &&& bin_hz.raw * pos <= freq.raw * one < bin_hz.raw * (pos + 1)
                &&& k * one <= pos < (k + 1) * one
            }
            &&& k >= 0x7fff_ffff ==> pos >= 0x7fff_ffff * one
        }),
{
    let one = 0x1_0000_0000int;
    let x = freq.raw * one;
    let b = bin_hz.raw as int;
    let p = truncated_quotient(x, b);
    lemma_quotient_bounds(x, b);
    assert(0 <= k) by (nonlinear_arith)
        requires
            0 <= freq.raw,
            freq.raw < (k + 1) * b,
            0 < b,
    ;
    assert(k * one <= p) by (nonlinear_arith)
        requires
            k * b <= freq.raw,
            x == freq.raw * one,
            x < b * p + b,
            0 < b,
            one == 0x1_0000_0000,
    {
        assert(b * (k * one) <= x) by {
            assert(b * (k * one) == (k * b) * one);
        }
        assert(b * (k * one) < b * (p + 1));
    }
    assert(p < (k + 1) * one) by (nonlinear_arith)
        requires
            freq.raw < (k + 1) * b,
            x == freq.raw * one,
            b * p <= x,
            0 < b,
            one == 0x1_0000_0000,
    {
        assert(x < ((k + 1) * b) * one);
        assert(((k + 1) * b) * one == b * ((k + 1) * one));
    }
    assert(b * (p + 1) == b * p + b) by (nonlinear_arith);
}

/// The spectrum read at a frequency between bins `k` and `k + 1`, at `p` parts in 2^32 of
/// a bin: on the straight line between the two, but for less than one unit. Past the
/// last pair it is the last bin.
pub proof fn law_interpolation_in_numbers(
    magnitudes: Seq<Fixed>,
    bin_hz: Fixed,
    freq: Fixed,
    k: int,
    p: int,
)
    requires
        0 < magnitudes.len() < 0x7fff_ffff,
        forall|j: int| 0 <= j < magnitudes.len() ==> 0 <= (#[trigger] magnitudes[j]).raw,
        0 < bin_hz.raw,
        0 <= freq.raw,
        k * bin_hz.raw <= freq.raw < (k + 1) * bin_hz.raw,
        p * bin_hz.raw <= freq.raw * 0x1_0000_0000 < (p + 1) * bin_hz.raw,
    ensures
        0 <= k,
        k + 1 >= magnitudes.len() ==> spec_interpolate(magnitudes, bin_hz, freq)
            == magnitudes.last(),
        k + 1 < magnitudes.len() ==> {
            let a = magnitudes[k].raw;
            let b = magnitudes[k + 1].raw;
            let r = spec_interpolate(magnitudes, bin_hz, freq).raw;
            let part = p - k * 0x1_0000_0000;
            &&& 0 <= part < 0x1_0000_0000
            &&& -0x1_0000_0000 < 0x1_0000_0000 * (r - a) - (b - a) * part < 0x1_0000_0000
            &&& part == 0 ==> r == a
        },
{
    let one = 0x1_0000_0000int;
    lemma_bin_position(freq, bin_hz, k);
    let pos = spec_max(freq.spec_over(bin_hz), spec_zero::<Fixed>());
    assert(pos == freq.spec_over(bin_hz));
    let i0 = pos.spec_floor_count();
    law_counts_are_whole_parts(pos);
    if k + 1 < magnitudes.len() {
        let q = pos.raw as int;
        let b = bin_hz.raw as int;
        assert(p == q) by (nonlinear_arith)
            requires
                p * b <= freq.raw * one < (p + 1) * b,
                b * q <= freq.raw * one < b * (q + 1),
                0 < b,
        ;
        assert(i0 == k);
        let x = magnitudes[k];
        let y = magnitudes[k + 1];
        assert(0 <= x.raw && 0 <= y.raw);
        let frac = pos.spec_minus(Fixed::spec_from_count(i0));
        assert(frac.raw == p - k * one);
        let way = y.spec_minus(x);
        assert(way.raw == y.raw - x.raw);
        law_share_is_near(way, frac);
        lemma_times_share(way, frac);
        if frac.raw == 0 {
            assert(frac == Fixed { raw: 0 });
            lemma_zero_absorbs(way);
        }
    } else {
        assert(i0 + 1 >= magnitudes.len());
    }
}

/// At the frequency of a bin the spectrum reads that bin.
pub proof fn law_bins_read_back(magnitudes: Seq<Fixed>, bin_hz: Fixed, freq: Fixed, k: int)
    requires
        0 < magnitudes.len() < 0x7fff_ffff,
        forall|j: int| 0 <= j < magnitudes.len() ==> 0 <= (#[trigger] magnitudes[j]).raw,
        0 < bin_hz.raw,
        0 <= k < magnitudes.len(),
        freq.raw == k * bin_hz.raw,
    ensures
        spec_interpolate(magnitudes, bin_hz, freq) == magnitudes[k],
{
    let one = 0x1_0000_0000int;
    let b = bin_hz.raw as int;
    assert(0 <= k * b) by (nonlinear_arith)
        requires
            0 <= k,
            0 < b,
    ;
    assert((k + 1) * b == k * b + b) by (nonlinear_arith);
    assert((k * one) * b == (k * b) * one && (k * one + 1) * b == (k * b) * one + b)
        by (nonlinear_arith);
    law_interpolation_in_numbers(magnitudes, bin_hz, freq, k, k * one);
}

/// What lies below the first bin reads as the first bin, and an empty spectrum as zero.
pub proof fn law_interpolation_ends(magnitudes: Seq<Fixed>, bin_hz: Fixed, freq: Fixed)
    requires
        0 < bin_hz.raw,
        freq.raw <= 0,
        forall|j: int| 0 <= j < magnitudes.len() ==> 0 <= (#[trigger] magnitudes[j]).raw,
    ensures
        magnitudes.len() == 0 ==> spec_interpolate(magnitudes, bin_hz, freq).raw == 0,
        magnitudes.len() > 0 ==> spec_interpolate(magnitudes, bin_hz, freq) == magnitudes[0],
{
    lemma_over_sign(freq, bin_hz);
    let pos = spec_max(freq.spec_over(bin_hz), spec_zero::<Fixed>());
    assert(pos.raw == 0);
    let i0 = pos.spec_floor_count();
    assert(i0 == 0);
    if magnitudes.len() > 1 {
        assert(0 <= magnitudes[0].raw && 0 <= magnitudes[1].raw);
        let frac = pos.spec_minus(Fixed::spec_from_count(i0));
        assert(frac == Fixed { raw: 0 });
        lemma_zero_absorbs(magnitudes[1].spec_minus(magnitudes[0]));
    }
}

/// What is read depends on the frequency only relative to the width of a bin: both times
/// the same number read the same.
pub proof fn law_interpolation_is_relative(
    magnitudes: Seq<Fixed>,
    bin_hz: Fixed,
    freq: Fixed,
    wider: Fixed,
    higher: Fixed,
    k: int,
)
    requires
        0 < bin_hz.raw,
        0 <= freq.raw,
        1 <= k,
        wider.raw == k * bin_hz.raw,
        higher.raw == k * freq.raw,
    ensures
        spec_interpolate(magnitudes, wider, higher) == spec_interpolate(magnitudes, bin_hz, freq),
{
    lemma_relative(freq, bin_hz, higher, wider, k);
}

/// A quotient of multiples is the quotient.
proof fn lemma_relative(x: Fixed, d: Fixed, kx: Fixed, kd: Fixed, k: int)
    requires
        0 < d.raw,
        0 <= x.raw,
        1 <= k,
        kd.raw == k * d.raw,
        kx.raw == k * x.raw,
    ensures
        kx.spec_over(kd) == x.spec_over(d),
        0 < kd.raw,
{
    let a = x.raw * 0x1_0000_0000;
    let b = d.raw as int;
    let ka = kx.raw * 0x1_0000_0000;
    let kb = kd.raw as int;
    assert(ka == k * a && 0 <= ka && 0 < kb) by (nonlinear_arith)
        requires
            ka == kx.raw * 0x1_0000_0000,
            a == x.raw * 0x1_0000_0000,
            kx.raw == k * x.raw,
            kb == k * b,
            0 < b,
            1 <= k,
            0 <= x.raw,
    ;
    assert(ka / kb == a / b) by (nonlinear_arith)
        requires
            ka == k * a,
            kb == k * b,
            0 < b,
            1 <= k,
            0 <= a,
    {
        vstd::arithmetic::div_mod::lemma_div_multiples_vanish_quotient(k, a, b);
    }
}

/// The center of a band: the frequency whose square is the product of the edges, rounded
/// down twice. It lies in the band.
proof fn lemma_center(f_lo: Fixed, f_hi: Fixed)
    requires
        0x1_0000_0000 <= f_lo.raw < f_hi.raw,
        f_lo.raw * f_hi.raw <= i64::MAX * 0x1_0000_0000,
    ensures
        ({
            let c = f_lo.spec_times(f_hi).spec_sqrt().raw;
            let product = f_lo.raw * f_hi.raw;
            &&& f_lo.raw <= c <= f_hi.raw
            &&& c * c <= product
            &&& product < (c + 1) * (c + 1) + 0x1_0000_0000
        }),
{
    let one = 0x1_0000_0000int;
    let a = f_lo.raw as int;
    let b = f_hi.raw as int;
    let product = a * b;
    assert(0 <= product) by (nonlinear_arith)
        requires
            0 <= a,
            0 <= b,
            product == a * b,
    ;
    law_product_is_near(f_lo, f_hi);
    let t = f_lo.spec_times(f_hi);
    law_root_squares_back(t);
    let c = t.spec_sqrt().raw as int;
    assert(product >= a * (a + 1)) by (nonlinear_arith)
        requires
            product == a * b,
            0 <= a < b,
    ;
    assert(a * (a + 1) == a * a + a) by (nonlinear_arith);
    assert(a <= c) by (nonlinear_arith)
        requires
            a * a < (c + 1) * (c + 1),
            0 <= c,
    ;
    assert(c <= b) by (nonlinear_arith)
        requires
            c * c <= product,
            product == a * b,
            a <= b,
            0 <= b,
    ;
}

/// The first and the last bin that a band reads, given the width of a bin.
pub open spec fn reads_bin(bin_hz: Fixed, f_lo: Fixed, f_hi: Fixed, j: int) -> bool {
    &&& f_lo.raw < (j + 1) * bin_hz.raw
    &&& (j - 1) * bin_hz.raw < f_hi.raw
}

/// How many whole bins lie below a frequency.
proof fn lemma_bin_exists(freq: Fixed, bin_hz: Fixed) -> (k: int)
    requires
        0 <= freq.raw,
        0 < bin_hz.raw,
    ensures
        0 <= k,
        k * bin_hz.raw <= freq.raw < (k + 1) * bin_hz.raw,
{
    let b = bin_hz.raw as int;
    let k = freq.raw as int / b;
    vstd::arithmetic::div_mod::lemma_fundamental_div_mod(freq.raw as int, b);
    assert(0 <= freq.raw as int % b < b) by (nonlinear_arith)
        requires
            0 < b,
    ;
    assert(b * k == k * b && (k + 1) * b == k * b + b) by (nonlinear_arith);
    assert(0 <= k) by (nonlinear_arith)
        requires
            k == freq.raw as int / b,
            0 <= freq.raw,
            0 < b,
    ;
    k
}

/// The first bin of a band that begins inside the spectrum.
proof fn lemma_first_bin(magnitudes_len: int, bin_hz: Fixed, f_lo: Fixed, k: int)
    requires
        0 < bin_hz.raw,
        0 <= f_lo.raw,
        magnitudes_len < 0x7fff_ffff,
        k * bin_hz.raw <= f_lo.raw < (k + 1) * bin_hz.raw,
    ensures
        0 <= k,
        k < magnitudes_len ==> f_lo.spec_over(bin_hz).spec_floor_count() == k,
        k >= magnitudes_len ==> f_lo.spec_over(bin_hz).spec_floor_count() >= magnitudes_len,
{
    lemma_bin_position(f_lo, bin_hz, k);
    law_counts_are_whole_parts(f_lo.spec_over(bin_hz));
}

/// Two spectra that agree on the bins around the frequencies of a band, from the one at
/// or below its lower edge to the one at or above its upper edge, give it the same value.
pub proof fn law_band_is_local(
    a: Seq<Fixed>,
    b: Seq<Fixed>,
    bin_hz: Fixed,
    f_lo: Fixed,
    f_hi: Fixed,
    peak_mix: Fixed,
)
    requires
        a.len() == b.len() < 0x7fff_ffff,
        forall|j: int| 0 <= j < a.len() ==> 0 <= (#[trigger] a[j]).raw,
        forall|j: int| 0 <= j < b.len() ==> 0 <= (#[trigger] b[j]).raw,
        0 < bin_hz.raw,
        0x1_0000_0000 <= f_lo.raw < f_hi.raw,
        f_lo.raw * f_hi.raw <= i64::MAX * 0x1_0000_0000,
        forall|j: int| 0 <= j < a.len() && #[trigger] reads_bin(bin_hz, f_lo, f_hi, j) ==> a[j] == b[j],
    ensures
        spec_band(a, bin_hz, f_lo, f_hi, peak_mix) == spec_band(b, bin_hz, f_lo, f_hi, peak_mix),
{
    let one = 0x1_0000_0000int;
    let w = bin_hz.raw as int;
    let n = a.len() as int;
    let first = lemma_bin_exists(f_lo, bin_hz);
    lemma_first_bin(n, bin_hz, f_lo, first);
    let bin_lo = f_lo.spec_over(bin_hz).spec_floor_count() as int;
    let bin_hi_raw = f_hi.spec_over(bin_hz).spec_ceil_count() as int;
    let bin_hi = if bin_hi_raw < n {
        bin_hi_raw
    } else {
        n
    };
    if bin_lo < n {
        let last = lemma_bin_exists(f_hi, bin_hz);
        if bin_hi - bin_lo <= 2 {
            let c = f_lo.spec_times(f_hi).spec_sqrt();
            lemma_center(f_lo, f_hi);
            let k = lemma_bin_exists(c, bin_hz);
            let pos = c.spec_over(bin_hz);
            lemma_bin_position(c, bin_hz, k);
            assert(first <= k) by (nonlinear_arith)
                requires
                    first * w <= f_lo.raw,
                    f_lo.raw <= c.raw,
                    c.raw < (k + 1) * w,
                    0 < w,
            ;
            if k + 1 >= n {
                assert(pos.raw >= (n - 1) * one);
                law_counts_are_whole_parts(pos);
                assert(spec_interpolate(a, bin_hz, c) == a.last());
                assert(spec_interpolate(b, bin_hz, c) == b.last());
                assert((n - 1 - 1) * w < f_hi.raw) by (nonlinear_arith)
                    requires
                        k * w <= c.raw,
                        c.raw <= f_hi.raw,
                        n - 1 <= k,
                        0 < w,
                ;
                assert(f_lo.raw < (n - 1 + 1) * w) by (nonlinear_arith)
                    requires
                        f_lo.raw < (first + 1) * w,
                        first < n,
                        0 < w,
                ;
                assert(reads_bin(bin_hz, f_lo, f_hi, n - 1));
                assert(a[n - 1] == b[n - 1]);
            } else {
                let p = pos.raw as int;
                assert(p * w == w * p && (p + 1) * w == w * (p + 1)) by (nonlinear_arith);
                law_interpolation_in_numbers(a, bin_hz, c, k, p);
                law_interpolation_in_numbers(b, bin_hz, c, k, p);
                assert(f_lo.raw < (k + 1) * w);
                assert((k - 1) * w < f_hi.raw) by (nonlinear_arith)
                    requires
                        k * w <= c.raw,
                        c.raw <= f_hi.raw,
                        0 < w,
                ;
                assert(reads_bin(bin_hz, f_lo, f_hi, k));
                assert(a[k] == b[k]);
                if p > k * one {
                    assert(k * w < f_hi.raw) by (nonlinear_arith)
                        requires
                            p > k * one,
                            p * w <= c.raw * one,
                            c.raw <= f_hi.raw,
                            0 < w,
                            one == 0x1_0000_0000,
                    {
                        assert((k * one) * w < p * w);
                        assert((k * one) * w == (k * w) * one);
                    }
                    assert(f_lo.raw < (k + 1 + 1) * w) by (nonlinear_arith)
                        requires
                            f_lo.raw < (k + 1) * w,
                            0 < w,
                    ;
                    assert(reads_bin(bin_hz, f_lo, f_hi, k + 1));
                    assert(a[k + 1] == b[k + 1]);
                }
                lemma_same_reading(a, b, bin_hz, c, k, p);
            }
        } else {
            lemma_bin_position(f_hi, bin_hz, last);
            law_counts_are_whole_parts(f_hi.spec_over(bin_hz));
            let x = a.subrange(bin_lo, bin_hi);
            let y = b.subrange(bin_lo, bin_hi);
            assert forall|j: int| 0 <= j < x.len() implies x[j] == y[j] by {
                let m = bin_lo + j;
                assert(f_lo.raw < (m + 1) * w) by (nonlinear_arith)
                    requires
                        f_lo.raw < (first + 1) * w,
                        first <= m,
                        0 < w,
                ;
                assert((m - 1) * w < f_hi.raw) by {
                    if last >= 0x7fff_ffff {
                        assert((m - 1) * w < last * w) by (nonlinear_arith)
                            requires
                                m - 1 < last,
                                0 < w,
                        ;
                    } else {
                        assert(m <= last + 1);
                        assert((m - 1) * w < last * w + w) by (nonlinear_arith)
                            requires
                                m - 1 <= last,
                                0 < w,
                        ;
                        assert(m < bin_hi_raw);
                        assert(m <= last) by (nonlinear_arith)
                            requires
                                m < bin_hi_raw,
                                (bin_hi_raw - 1) * one < f_hi.spec_over(bin_hz).raw,
                                f_hi.spec_over(bin_hz).raw < (last + 1) * one,
                                one == 0x1_0000_0000,
                        ;
                        assert((m - 1) * w < last * w) by (nonlinear_arith)
                            requires
                                m - 1 < last,
                                0 < w,
                        ;
                    }
                }
                assert(reads_bin(bin_hz, f_lo, f_hi, m));
                assert(a[m] == b[m]);
            }
            assert(x =~= y);
        }
    }
}

/// Two spectra that agree where they are read, read the same.
proof fn lemma_same_reading(
    a: Seq<Fixed>,
    b: Seq<Fixed>,
    bin_hz: Fixed,
    freq: Fixed,
    k: int,
    p: int,
)
    requires
        a.len() == b.len() < 0x7fff_ffff,
        forall|j: int| 0 <= j < a.len() ==> 0 <= (#[trigger] a[j]).raw,
        forall|j: int| 0 <= j < b.len() ==> 0 <= (#[trigger] b[j]).raw,
        0 < bin_hz.raw,
        0 <= freq.raw,
        0 <= k,
        k + 1 < a.len(),
        k * bin_hz.raw <= freq.raw < (k + 1) * bin_hz.raw,
        p * bin_hz.raw <= freq.raw * 0x1_0000_0000 < (p + 1) * bin_hz.raw,
        a[k] == b[k],
        p > k * 0x1_0000_0000 ==> a[k + 1] == b[k + 1],
    ensures
        spec_interpolate(a, bin_hz, freq) == spec_interpolate(b, bin_hz, freq),
{
    law_interpolation_in_numbers(a, bin_hz, freq, k, p);
    law_interpolation_in_numbers(b, bin_hz, freq, k, p);
    if p > k * 0x1_0000_0000 {
        lemma_bin_position(freq, bin_hz, k);
        law_counts_are_whole_parts(freq.spec_over(bin_hz));
    }
}

/// A band that begins past the spectrum is silent.
pub proof fn law_band_past_spectrum_is_silent(
    magnitudes: Seq<Fixed>,
    bin_hz: Fixed,
    f_lo: Fixed,
    f_hi: Fixed,
    peak_mix: Fixed,
)
    requires
        magnitudes.len() < 0x7fff_ffff,
        0 < bin_hz.raw,
        0 <= f_lo.raw,
        magnitudes.len() * bin_hz.raw <= f_lo.raw,
    ensures
        spec_band(magnitudes, bin_hz, f_lo, f_hi, peak_mix).raw == 0,
{
    let n = magnitudes.len() as int;
    let w = bin_hz.raw as int;
    let k = lemma_bin_exists(f_lo, bin_hz);
    lemma_first_bin(n, bin_hz, f_lo, k);
    assert(n <= k) by (nonlinear_arith)
        requires
            n * w <= f_lo.raw,
            f_lo.raw < (k + 1) * w,
            0 < w,
    ;
}

/// A band that spans two bins at most is the spectrum read at its center, the frequency
/// whose square is the product of its edges.
pub proof fn law_narrow_band_reads_center(
    magnitudes: Seq<Fixed>,
    bin_hz: Fixed,
    f_lo: Fixed,
    f_hi: Fixed,
    peak_mix: Fixed,
    first: int,
) -> (center: Fixed)
    requires
        0 < magnitudes.len() < 0x7fff_ffff,
        0 < bin_hz.raw,
        0x1_0000_0000 <= f_lo.raw < f_hi.raw,
        f_lo.raw * f_hi.raw <= i64::MAX * 0x1_0000_0000,
        first * bin_hz.raw <= f_lo.raw < (first + 1) * bin_hz.raw,
        first < magnitudes.len(),
        f_hi.raw <= (first + 2) * bin_hz.raw,
    ensures
        f_lo.raw <= center.raw <= f_hi.raw,
        center.raw * center.raw <= f_lo.raw * f_hi.raw,
        f_lo.raw * f_hi.raw < (center.raw + 1) * (center.raw + 1) + 0x1_0000_0000,
        spec_band(magnitudes, bin_hz, f_lo, f_hi, peak_mix) == spec_interpolate(
            magnitudes,
            bin_hz,
            center,
        ),
{
    let one = 0x1_0000_0000int;
    let w = bin_hz.raw as int;
    let n = magnitudes.len() as int;
    lemma_center(f_lo, f_hi);
    lemma_first_bin(n, bin_hz, f_lo, first);
    let last = lemma_bin_exists(f_hi, bin_hz);
    lemma_bin_position(f_hi, bin_hz, last);
    let pos = f_hi.spec_over(bin_hz);
    law_counts_are_whole_parts(pos);
    let x = f_hi.raw * one;
    let top = (first + 2) * one;
    assert(x <= top * w) by (nonlinear_arith)
        requires
            f_hi.raw <= (first + 2) * w,
            x == f_hi.raw * one,
            top == (first + 2) * one,
            one == 0x1_0000_0000,
    ;
    assert(0 * w <= x) by (nonlinear_arith)
        requires
            0 <= x,
    ;
    lemma_quotient_between(x, w, 0, top);
    assert(pos.raw <= top);
    let h = pos.spec_ceil_count() as int;
    assert(h <= first + 2);
    f_lo.spec_times(f_hi).spec_sqrt()
}

/// A band that spans more is averaged over its bins: from the one at or below its lower
/// edge on, as far as the upper edge and the spectrum go.
pub proof fn law_wide_band_reads_its_bins(
    magnitudes: Seq<Fixed>,
    bin_hz: Fixed,
    f_lo: Fixed,
    f_hi: Fixed,
    peak_mix: Fixed,
    first: int,
) -> (end: int)
    requires
        0 < magnitudes.len() < 0x7fff_ffff,
        0 < bin_hz.raw,
        0 <= f_lo.raw < f_hi.raw,
        first * bin_hz.raw <= f_lo.raw < (first + 1) * bin_hz.raw,
        first + 3 <= magnitudes.len(),
        (first + 2) * bin_hz.raw + bin_hz.raw / 2 < f_hi.raw,
        2 <= bin_hz.raw,
    ensures
        first + 3 <= end <= magnitudes.len(),
        end == magnitudes.len() || (end - 1) * bin_hz.raw < f_hi.raw && f_hi.raw * 0x1_0000_0000 < (
        end * 0x1_0000_0000 + 1) * bin_hz.raw,
        spec_band(magnitudes, bin_hz, f_lo, f_hi, peak_mix) == spec_wide_band(
            magnitudes.subrange(first, end),
            peak_mix,
        ),
{
    let one = 0x1_0000_0000int;
    let w = bin_hz.raw as int;
    let n = magnitudes.len() as int;
    lemma_first_bin(n, bin_hz, f_lo, first);
    let last = lemma_bin_exists(f_hi, bin_hz);
    lemma_bin_position(f_hi, bin_hz, last);
    let pos = f_hi.spec_over(bin_hz);
    law_counts_are_whole_parts(pos);
    let h = pos.spec_ceil_count() as int;
    let end = if h < n {
        h
    } else {
        n
    };
    assert(first + 2 <= last) by (nonlinear_arith)
        requires
            (first + 2) * w < f_hi.raw,
            f_hi.raw < (last + 1) * w,
            0 < w,
    ;
    if last < 0x7fff_ffff {
        let q = pos.raw as int;
        assert(q > (first + 2) * one) by (nonlinear_arith)
            requires
                w * (q + 1) > f_hi.raw * one,
                f_hi.raw > (first + 2) * w + w / 2,
                2 <= w,
                one == 0x1_0000_0000,
        {
            assert(2 * (w / 2) >= w - 1);
            assert(2 * f_hi.raw >= 2 * ((first + 2) * w) + w + 1);
            assert(2 * (f_hi.raw * one) >= (2 * ((first + 2) * w) + w + 1) * one);
            assert((2 * ((first + 2) * w) + w + 1) * one == 2 * (w * ((first + 2) * one)) + (w
                + 1) * one);
            assert((w + 1) * one >= 2 * w);
            assert(w * (q + 1) > w * ((first + 2) * one) + w);
        }
        assert(h >= first + 3);
        if h < n {
            assert((h - 1) * w < f_hi.raw) by (nonlinear_arith)
                requires
                    (h - 1) * one < q,
                    w * q <= f_hi.raw * one,
                    0 < w,
                    one == 0x1_0000_0000,
            {
                assert(w * ((h - 1) * one) < w * q);
                assert(w * ((h - 1) * one) == ((h - 1) * w) * one);
            }
            assert(f_hi.raw * one < (h * one + 1) * w) by (nonlinear_arith)
                requires
                    q <= h * one,
                    f_hi.raw * one < w * (q + 1),
                    0 < w,
            ;
        }
    }
    end
}

/// The value of a wide band in whole numbers: with `rms` the root of the exact mean
/// square of its bins, but for 2^17 units, and their peak, it is their mean weighed by
/// the peak mix, but for two units.
pub proof fn law_wide_band_in_numbers(bins: Seq<Fixed>, peak_mix: Fixed, top: int) -> (rms: int)
    requires
        0 < bins.len() < 0x8000_0000,
        forall|j: int| 0 <= j < bins.len() ==> 0 <= (#[trigger] bins[j]).raw <= top,
        exists|j: int| 0 <= j < bins.len() && (#[trigger] bins[j]).raw == top,
        squares_fit(bins.len() as int, Fixed { raw: top as i64 }),
        0 <= peak_mix.raw <= 0x1_0000_0000,
    ensures
        ({
            let n = bins.len() as int;
            let v = spec_wide_band(bins, peak_mix).raw;
            let one = 0x1_0000_0000int;
            let exact = rms * (one - peak_mix.raw) + top * peak_mix.raw;
            &&& 0 <= rms <= top
            &&& n * (rms * rms) <= exact_squares(bins) <= n * ((rms + 0x2_0000) * (rms + 0x2_0000))
            &&& one * v <= exact < one * (v + 2)
        }),
{
    let one = 0x1_0000_0000int;
    let j = choose|j: int| 0 <= j < bins.len() && (#[trigger] bins[j]).raw == top;
    let hi = Fixed { raw: top as i64 };
    assert(hi.raw == bins[j].raw);
    lemma_peak_bounds(bins, hi);
    assert(spec_peak(bins).raw == top);
    law_rms_is_near(bins, hi);
    law_wide_band_stays_between(bins, peak_mix);
    let r = spec_rms(bins);
    let t = spec_peak(bins);
    let rest = spec_one::<Fixed>().spec_minus(peak_mix);
    assert(rest.raw == one - peak_mix.raw);
    law_share_is_near(r, rest);
    law_share_is_near(t, peak_mix);
    let a = r.raw * rest.raw;
    let b = t.raw * peak_mix.raw;
    assert(0 <= a && 0 <= b && a + b <= top * one) by (nonlinear_arith)
        requires
            0 <= r.raw <= top,
            t.raw == top,
            0 <= rest.raw,
            0 <= peak_mix.raw,
            rest.raw == one - peak_mix.raw,
            a == r.raw * rest.raw,
            b == t.raw * peak_mix.raw,
    ;
    lemma_quotient_bounds(a, one);
    lemma_quotient_bounds(b, one);
    let x = r.spec_times(rest).raw as int;
    let y = t.spec_times(peak_mix).raw as int;
    assert(x + y <= top);
    assert(spec_wide_band(bins, peak_mix).raw == x + y);
    r.raw as int
}

/// There is one bar for each pair of successive edges, and it depends on no others.
pub proof fn law_bars_lie_between_edges<S: Scalar>(
    magnitudes: Seq<S>,
    bin_hz: S,
    edges: Seq<S>,
    peak_mix: S,
    i: int,
)
    requires
        0 <= i < edges.len() - 1,
    ensures
        spec_log_bars(magnitudes, bin_hz, edges, peak_mix).len() == edges.len() - 1,
        spec_log_bars(magnitudes, bin_hz, edges, peak_mix)[i] == spec_log_bars(
            magnitudes,
            bin_hz,
            seq![edges[i], edges[i + 1]],
            peak_mix,
        )[0],
        spec_log_bars(magnitudes, bin_hz, edges, peak_mix)[i] == spec_band(
            magnitudes,
            bin_hz,
            edges[i],
            edges[i + 1],
            spec_clamp(peak_mix, spec_zero(), spec_one()),
        ),
{
}

/// The highest frequency shown is the smaller of the one asked for and half the sample
/// rate.
pub proof fn law_cap_in_numbers(max_freq: Fixed, sample_rate: u32)
    requires
        sample_rate < 0x8000_0000,
    ensures
        ({
            let cap = spec_cap_to_stream(max_freq, sample_rate).raw;
            let twice = sample_rate * 0x1_0000_0000;
            &&& 2 * max_freq.raw <= twice ==> cap == max_freq.raw
            &&& 2 * max_freq.raw >= twice ==> 2 * cap == twice
        }),
{
    law_fractions(sample_rate as usize, 2);
    let half = Fixed::spec_from_count(sample_rate as usize).spec_over(Fixed::spec_from_count(2));
    assert(half == spec_ratio::<Fixed>(sample_rate as usize, 2));
    assert(2 * half.raw == sample_rate * 0x1_0000_0000);
}

/// Where the edges begin, how far they span and which warp is in use, in whole numbers:
/// no lower than one hertz, a hundredth more than the lowest at least, and no warp below
/// a hundredth.
pub proof fn law_edge_settings_in_numbers(min_freq: Fixed, max_freq: Fixed, warp: Fixed)
    requires
        min_freq.raw <= 0x4000_0000_0000_0000,
        0 <= max_freq.raw,
    ensures
        min_freq.raw >= 0x1_0000_0000 ==> lowest_edge(min_freq) == min_freq,
        min_freq.raw <= 0x1_0000_0000 ==> lowest_edge(min_freq).raw == 0x1_0000_0000,
        100 * (warp.raw + 1) > 0x1_0000_0000 ==> warp_in_use(warp) == warp,
        100 * warp.raw <= 0x1_0000_0000 ==> warp_in_use(warp).raw == 0x1_0000_0000int / 100,
        ({
            let lo = lowest_edge(min_freq).raw;
            let span = edge_span(min_freq, max_freq).raw;
            let one = 0x1_0000_0000int;
            &&& 100 * max_freq.raw >= 101 * lo ==> lo * span <= max_freq.raw * one < lo * (span + 1)
            &&& 100 * (one * (max_freq.raw + 1) + lo) <= 101 * (lo * one) ==> 100 * span <= 101 * one
                && 101 * one < 100 * (span + 3)
        }),
{
    let one = 0x1_0000_0000int;
    law_fractions(1, 100);
    law_fractions(101, 100);
    let low = lowest_edge(min_freq);
    let lo = low.raw as int;
    assert(spec_ratio::<Fixed>(1, 100).raw == one / 100);
    let ratio = spec_ratio::<Fixed>(101, 100);
    assert(ratio.raw == (101 * one) / 100);
    let rr = ratio.raw as int;
    let p = lo * rr;
    assert(100 * p <= 101 * (lo * one)) by (nonlinear_arith)
        requires
            100 * rr <= 101 * one,
            p == lo * rr,
            0 <= lo,
    ;
    assert(0 <= p) by (nonlinear_arith)
        requires
            p == lo * rr,
            0 <= lo,
            0 <= rr,
    ;
    law_product_is_near(low, ratio);
    let least = low.spec_times(ratio);
    let hi = spec_max(max_freq, least);
    let h = hi.raw as int;
    assert(lo >= one);
    assert(h * one <= i64::MAX * lo) by (nonlinear_arith)
        requires
            h <= i64::MAX,
            lo >= one,
            one > 0,
    ;
    assert(i64::MIN * lo <= 0) by (nonlinear_arith)
        requires
            lo >= 0,
    ;
    law_quotient_is_near(hi, low);
    let span = edge_span(min_freq, max_freq).raw as int;
    assert(lo * (span + 1) == lo * span + lo) by (nonlinear_arith);
    if 100 * max_freq.raw >= 101 * lo {
        assert(100 * least.raw <= 101 * lo);
        assert(hi.raw == max_freq.raw);
    }
    let l = least.raw as int;
    assert(lo * (101 * one - 100) < 100 * (one * (l + 1))) by (nonlinear_arith)
        requires
            101 * one < 100 * (rr + 1),
            p < one * (l + 1),
            p == lo * rr,
            0 < lo,
    ;
    if 100 * (one * (max_freq.raw + 1) + lo) <= 101 * (lo * one) {
        assert(lo * (101 * one - 100) == 101 * (lo * one) - 100 * lo) by (nonlinear_arith);
        assert(max_freq.raw <= l);
        assert(h == l);
        assert(100 * (lo * span) <= lo * (101 * one)) by (nonlinear_arith)
            requires
                lo * span <= l * one,
                100 * l <= 101 * lo,
                0 < one,
        ;
        assert(100 * span <= 101 * one) by (nonlinear_arith)
            requires
                100 * (lo * span) <= lo * (101 * one),
                0 < lo,
        ;
        assert(101 * one < 100 * (span + 3)) by (nonlinear_arith)
            requires
                lo * (101 * one - 100) < 100 * (one * (l + 1)),
                l * one < lo * span + lo,
                one <= lo,
                0 < one,
        {
            assert(one * (l + 1) == l * one + one);
            assert(100 * (one * (l + 1)) < 100 * (lo * span + lo + lo));
            assert(100 * (lo * span + lo + lo) == lo * (100 * (span + 2)));
            assert(101 * one - 100 < 100 * (span + 2));
        }
    }
}

/// The way left at an edge, in whole numbers: what is gone of it is the edge's place
/// among the bands, but for less than one unit.
pub proof fn law_way_left_in_numbers(i: usize, num_bars: usize)
    requires
        0 < num_bars < 0x8000_0000,
        i <= num_bars,
    ensures
        ({
            let gone = 0x1_0000_0000 - spec_way_left::<Fixed>(i, num_bars).raw;
            &&& 0 <= gone <= 0x1_0000_0000
            &&& num_bars * gone <= i * 0x1_0000_0000 < num_bars * (gone + 1)
        }),
{
    law_fractions(i, num_bars);
    let t = spec_ratio::<Fixed>(i, num_bars).raw as int;
    assert(0 <= t <= 0x1_0000_0000) by (nonlinear_arith)
        requires
            num_bars * t <= i * 0x1_0000_0000,
            i * 0x1_0000_0000 < num_bars * (t + 1),
            0 <= i <= num_bars,
            0 < num_bars,
    ;
}

/// The exponent and the edge itself, in whole numbers: the share of the span that the
/// warped way has left behind, and the lowest edge times the growth, but for less than
/// one unit each.
pub proof fn law_edge_in_numbers(log_span: Fixed, bent: Fixed, lo: Fixed, growth: Fixed)
    requires
        0 <= log_span.raw,
        0 <= bent.raw <= 0x1_0000_0000,
        0 <= lo.raw,
        0 <= growth.raw,
        lo.raw * growth.raw <= i64::MAX * 0x1_0000_0000,
    ensures
        ({
            let one = 0x1_0000_0000int;
            let exponent = spec_edge_exponent(log_span, bent).raw;
            let edge = spec_edge_from(lo, growth).raw;
            let share = log_span.raw * (one - bent.raw);
            &&& one * exponent <= share < one * (exponent + 1)
            &&& one * edge <= lo.raw * growth.raw < one * (edge + 1)
        }),
{
    let one = 0x1_0000_0000int;
    let rest = spec_one::<Fixed>().spec_minus(bent);
    assert(rest.raw == one - bent.raw);
    law_share_is_near(log_span, rest);
    assert(0 <= log_span.raw * rest.raw && 0 <= lo.raw * growth.raw) by (nonlinear_arith)
        requires
            0 <= log_span.raw,
            0 <= rest.raw,
            0 <= lo.raw,
            0 <= growth.raw,
    ;
    lemma_quotient_bounds(log_span.raw * rest.raw, one);
    law_product_is_near(lo, growth);
}

/// Without a warp, where a power is its base, the exponents of the edges are even steps
/// up the span, but for rounding: there are as many bands to every octave.
pub proof fn law_exponents_are_even_without_warp(i: usize, num_bars: usize, log_span: Fixed)
    requires
        0 < num_bars < 0x8000_0000,
        i <= num_bars,
        0 <= log_span.raw,
    ensures
        ({
            let one = 0x1_0000_0000int;
            let exponent = spec_edge_exponent(
                log_span,
                spec_way_left::<Fixed>(i, num_bars),
            ).raw;
            let exact = i * log_span.raw;
            &&& num_bars * exponent <= exact
            &&& one * exact <= one * (num_bars * (exponent + 1)) + num_bars * log_span.raw
        }),
{
    let one = 0x1_0000_0000int;
    let bent = spec_way_left::<Fixed>(i, num_bars);
    law_way_left_in_numbers(i, num_bars);
    lemma_zero_absorbs(log_span);
    assert(0 * 0 <= i64::MAX * one) by (nonlinear_arith)
        requires
            0 <= one,
    ;
    law_edge_in_numbers(log_span, bent, Fixed { raw: 0 }, Fixed { raw: 0 });
    let gone = one - bent.raw;
    let e = spec_edge_exponent(log_span, bent).raw as int;
    assert(num_bars * (gone + 1) == num_bars * gone + num_bars) by (nonlinear_arith);
    lemma_level_chain(one, num_bars as int, i as int, log_span.raw as int, gone, e, e);
}

/// A band of more than three bins depends on its edges only relative to the width of a
/// bin: all three times the same number give the same value. That of a narrower one is
/// read at its center, see [`law_narrow_band_reads_center`] and
/// [`law_interpolation_is_relative`].
pub proof fn law_wide_band_is_relative(
    magnitudes: Seq<Fixed>,
    bin_hz: Fixed,
    f_lo: Fixed,
    f_hi: Fixed,
    wider: Fixed,
    g_lo: Fixed,
    g_hi: Fixed,
    k: int,
    peak_mix: Fixed,
    first: int,
)
    requires
        0 < magnitudes.len() < 0x7fff_ffff,
        2 <= bin_hz.raw,
        0 <= f_lo.raw < f_hi.raw,
        1 <= k,
        wider.raw == k * bin_hz.raw,
        g_lo.raw == k * f_lo.raw,
        g_hi.raw == k * f_hi.raw,
        first * bin_hz.raw <= f_lo.raw < (first + 1) * bin_hz.raw,
        first + 3 <= magnitudes.len(),
        (first + 3) * bin_hz.raw <= f_hi.raw,
    ensures
        spec_band(magnitudes, wider, g_lo, g_hi, peak_mix) == spec_band(
            magnitudes,
            bin_hz,
            f_lo,
            f_hi,
            peak_mix,
        ),
{
    let w = bin_hz.raw as int;
    lemma_relative(f_lo, bin_hz, g_lo, wider, k);
    lemma_relative(f_hi, bin_hz, g_hi, wider, k);
    assert((first + 3) * w == (first + 2) * w + w) by (nonlinear_arith);
    let end = law_wide_band_reads_its_bins(magnitudes, bin_hz, f_lo, f_hi, peak_mix, first);
    lemma_first_bin(magnitudes.len() as int, bin_hz, f_lo, first);
    let last = lemma_bin_exists(f_hi, bin_hz);
    lemma_bin_position(f_hi, bin_hz, last);
    law_counts_are_whole_parts(f_hi.spec_over(bin_hz));
    assert(first + 3 <= last) by (nonlinear_arith)
        requires
            (first + 3) * w <= f_hi.raw,
            f_hi.raw < (last + 1) * w,
            0 < w,
    ;
}

} // verus!
