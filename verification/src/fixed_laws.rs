//! What fixed-point operations come to, in whole numbers.

use vstd::arithmetic::power2::{lemma2_to64, lemma_pow2_unfold, pow2};
use vstd::prelude::*;

use crate::fixed::{
    integer_root, lemma_peak_bounds, lemma_quotient_between, lemma_quotient_bounds,
    lemma_quotient_cancels, lemma_quotient_error, lemma_quotient_shrinks, lemma_root_bounds,
    single_size, single_value, truncated_quotient, Fixed,
};
use crate::scalar::{
    spec_clamp, spec_max, spec_one, spec_peak, spec_ratio, spec_total, spec_zero, Scalar,
};

verus! {

/// A product is off by less than one unit, and lies on the side of zero of the exact
/// one.
pub proof fn law_product_is_near(x: Fixed, y: Fixed)
    requires
        i64::MIN * 0x1_0000_0000 <= x.raw * y.raw <= i64::MAX * 0x1_0000_0000,
    ensures
        -0x1_0000_0000 < 0x1_0000_0000 * x.spec_times(y).raw - x.raw * y.raw < 0x1_0000_0000,
        x.raw * y.raw >= 0 ==> x.spec_times(y).raw >= 0 && 0x1_0000_0000 * x.spec_times(y).raw
            <= x.raw * y.raw,
        x.raw * y.raw <= 0 ==> x.spec_times(y).raw <= 0 && 0x1_0000_0000 * x.spec_times(y).raw
            >= x.raw * y.raw,
        x.spec_times(y).raw == truncated_quotient(x.raw * y.raw, 0x1_0000_0000),
{
    let p = x.raw * y.raw;
    lemma_quotient_between(p, 0x1_0000_0000, i64::MIN as int, i64::MAX as int);
    lemma_quotient_bounds(p, 0x1_0000_0000);
}

/// Numbers of at most one in size never leave the range of the other factor.
pub proof fn law_share_is_near(x: Fixed, share: Fixed)
    requires
        -0x1_0000_0000 <= share.raw <= 0x1_0000_0000,
        i64::MIN < x.raw,
    ensures
        -0x1_0000_0000 < 0x1_0000_0000 * x.spec_times(share).raw - x.raw * share.raw
            < 0x1_0000_0000,
        x.spec_times(share).raw == truncated_quotient(x.raw * share.raw, 0x1_0000_0000),
        -vstd::math::abs(x.raw as int) <= x.spec_times(share).raw <= vstd::math::abs(x.raw as int),
{
    let v = x.raw as int;
    let s = share.raw as int;
    let size = vstd::math::abs(v) as int;
    assert(-(size * 0x1_0000_0000) <= v * s <= size * 0x1_0000_0000) by (nonlinear_arith)
        requires
            -0x1_0000_0000 <= s <= 0x1_0000_0000,
            -size <= v <= size,
    ;
    law_product_is_near(x, share);
    lemma_quotient_between(v * s, 0x1_0000_0000, -size, size);
}

/// A quotient by a positive number is off by less than one unit.
pub proof fn law_quotient_is_near(x: Fixed, y: Fixed)
    requires
        0 < y.raw,
        i64::MIN * y.raw <= x.raw * 0x1_0000_0000 <= i64::MAX * y.raw,
    ensures
        -y.raw < y.raw * x.spec_over(y).raw - x.raw * 0x1_0000_0000 < y.raw,
        x.raw >= 0 ==> x.spec_over(y).raw >= 0 && y.raw * x.spec_over(y).raw <= x.raw
            * 0x1_0000_0000,
        x.raw <= 0 ==> x.spec_over(y).raw <= 0 && y.raw * x.spec_over(y).raw >= x.raw
            * 0x1_0000_0000,
        x.spec_over(y).raw == truncated_quotient(x.raw * 0x1_0000_0000, y.raw as int),
{
    let p = x.raw * 0x1_0000_0000;
    let w = y.raw as int;
    lemma_quotient_between(p, w, i64::MIN as int, i64::MAX as int);
    lemma_quotient_bounds(p, w);
    let q = truncated_quotient(p, w);
    assert(p >= 0 ==> q >= 0) by (nonlinear_arith)
        requires
            w > 0,
            p >= 0 ==> p < w * q + w,
    ;
    assert(p <= 0 ==> q <= 0) by (nonlinear_arith)
        requires
            w > 0,
            p <= 0 ==> w * q - w < p,
    ;
}

/// Sums and differences are exact where they fit, and else the bound that they pass.
pub proof fn law_sums_are_exact(x: Fixed, y: Fixed)
    ensures
        i64::MIN <= x.raw + y.raw <= i64::MAX ==> x.spec_plus(y).raw == x.raw + y.raw,
        x.raw + y.raw > i64::MAX ==> x.spec_plus(y).raw == i64::MAX,
        x.raw + y.raw < i64::MIN ==> x.spec_plus(y).raw == i64::MIN,
        i64::MIN <= x.raw - y.raw <= i64::MAX ==> x.spec_minus(y).raw == x.raw - y.raw,
        x.raw - y.raw > i64::MAX ==> x.spec_minus(y).raw == i64::MAX,
        x.raw - y.raw < i64::MIN ==> x.spec_minus(y).raw == i64::MIN,
{
}

/// The whole numbers at or below, at or above, and nearest to a number.
pub proof fn law_counts_are_whole_parts(x: Fixed)
    requires
        0 <= x.raw,
    ensures
        x.spec_floor_count() * 0x1_0000_0000 <= x.raw < (x.spec_floor_count() + 1) * 0x1_0000_0000,
        (x.spec_ceil_count() - 1) * 0x1_0000_0000 < x.raw <= x.spec_ceil_count() * 0x1_0000_0000,
        -0x1_0000_0000 < 2 * (x.raw - x.spec_round_count() * 0x1_0000_0000) + 1 <= 0x1_0000_0000,
{
    let raw = x.raw as int;
    assert(0 <= raw / 0x1_0000_0000 <= 0x8000_0000);
    assert(0 <= (raw + 0xffff_ffff) / 0x1_0000_0000 <= 0x8000_0000);
    assert(0 <= (raw + 0x8000_0000) / 0x1_0000_0000 <= 0x8000_0000);
}

/// A whole number of less than 2^31 is that many units of one.
pub proof fn law_counts_are_exact(n: usize)
    requires
        n < 0x8000_0000,
    ensures
        Fixed::spec_from_count(n).raw == n * 0x1_0000_0000,
{
}

/// A root is the largest number whose square does not exceed the number.
pub proof fn law_root_squares_back(x: Fixed)
    requires
        0 <= x.raw,
    ensures
        ({
            let r = x.spec_sqrt().raw;
            &&& 0 <= r
            &&& r * r <= x.raw * 0x1_0000_0000
            &&& x.raw * 0x1_0000_0000 < (r + 1) * (r + 1)
        }),
{
    let n = x.raw * 0x1_0000_0000;
    lemma_root_bounds(n);
    let r = integer_root(n);
    assert(r < 0x1_0000_0000_0000) by (nonlinear_arith)
        requires
            0 <= r,
            r * r <= n,
            n <= 0x7fff_ffff_ffff_ffff * 0x1_0000_0000,
    ;
}

/// The absolute value is the number without its sign.
pub proof fn law_abs_drops_sign(x: Fixed)
    requires
        i64::MIN < x.raw,
    ensures
        x.spec_abs().raw == (if x.raw < 0 {
            -x.raw
        } else {
            x.raw as int
        }),
{
}

/// The larger of two numbers, and a number brought into a range.
pub proof fn law_max_and_clamp(x: Fixed, y: Fixed, lo: Fixed, hi: Fixed)
    ensures
        spec_max(x, y).raw >= x.raw,
        spec_max(x, y).raw >= y.raw,
        spec_max(x, y) == x || spec_max(x, y) == y,
        lo.raw <= hi.raw ==> lo.raw <= spec_clamp(x, lo, hi).raw <= hi.raw,
        lo.raw <= x.raw <= hi.raw ==> spec_clamp(x, lo, hi) == x,
        x.raw < lo.raw <= hi.raw ==> spec_clamp(x, lo, hi) == lo,
        lo.raw <= hi.raw < x.raw ==> spec_clamp(x, lo, hi) == hi,
{
}

/// Zero, one, and a fraction of whole numbers.
pub proof fn law_fractions(num: usize, den: usize)
    requires
        num < 0x8000_0000,
        0 < den < 0x8000_0000,
    ensures
        spec_zero::<Fixed>().raw == 0,
        spec_one::<Fixed>().raw == 0x1_0000_0000,
        den * spec_ratio::<Fixed>(num, den).raw <= num * 0x1_0000_0000,
        num * 0x1_0000_0000 < den * (spec_ratio::<Fixed>(num, den).raw + 1),
{
    let x = Fixed::spec_from_count(num);
    let y = Fixed::spec_from_count(den);
    let one = 0x1_0000_0000int;
    assert(x.raw == num * one);
    assert(y.raw == den * one);
    assert(0 <= x.raw * one <= i64::MAX * y.raw) by (nonlinear_arith)
        requires
            x.raw == num * one,
            y.raw == den * one,
            num < 0x8000_0000,
            0 < den,
            one == 0x1_0000_0000,
    ;
    assert(i64::MIN * y.raw <= 0) by (nonlinear_arith)
        requires
            0 < y.raw,
    ;
    law_quotient_is_near(x, y);
    let r = spec_ratio::<Fixed>(num, den).raw as int;
    assert(y.raw * r == one * (den * r)) by (nonlinear_arith)
        requires
            y.raw == den * one,
    ;
    assert(den * (r + 1) == den * r + den) by (nonlinear_arith);
}

/// A peak is a value that no other exceeds, or zero where none is above zero.
pub proof fn law_peak_is_largest(values: Seq<Fixed>)
    ensures
        0 <= spec_peak(values).raw,
        forall|i: int| 0 <= i < values.len() ==> (#[trigger] values[i]).raw <= spec_peak(values).raw,
        spec_peak(values).raw == 0 || exists|i: int|
            0 <= i < values.len() && #[trigger] values[i] == spec_peak(values),
    decreases values.len(),
{
    lemma_peak_bounds(values, Fixed { raw: 0 });
    if values.len() > 0 {
        let rest = values.drop_last();
        law_peak_is_largest(rest);
        if spec_peak(values) == values.last() {
            assert(values[values.len() - 1] == spec_peak(values));
        } else if spec_peak(values).raw != 0 {
            let i = choose|i: int| 0 <= i < rest.len() && #[trigger] rest[i] == spec_peak(rest);
            assert(values[i] == spec_peak(values));
        }
    }
}

/// What values add up to.
pub open spec fn exact_sum(values: Seq<Fixed>) -> int
    decreases values.len(),
{
    if values.len() == 0 {
        0
    } else {
        exact_sum(values.drop_last()) + values.last().raw
    }
}

/// What the sizes of values add up to.
pub open spec fn exact_size(values: Seq<Fixed>) -> int
    decreases values.len(),
{
    if values.len() == 0 {
        0
    } else {
        exact_size(values.drop_last()) + vstd::math::abs(values.last().raw as int)
    }
}

/// Values add up exactly as long as their sizes fit into a fixed-point number.
pub proof fn law_total_is_exact(values: Seq<Fixed>)
    requires
        exact_size(values) <= i64::MAX,
    ensures
        spec_total(values).raw == exact_sum(values),
        -exact_size(values) <= exact_sum(values) <= exact_size(values),
        0 <= exact_size(values),
    decreases values.len(),
{
    if values.len() > 0 {
        lemma_size_is_positive(values.drop_last());
        law_total_is_exact(values.drop_last());
    }
}

/// Sizes add up to no less than zero.
proof fn lemma_size_is_positive(values: Seq<Fixed>)
    ensures
        0 <= exact_size(values),
    decreases values.len(),
{
    if values.len() > 0 {
        lemma_size_is_positive(values.drop_last());
    }
}

/// A total over the number of values is their mean: that many times it, they add up,
/// but for less than one unit each.
pub proof fn law_mean_is_near(values: Seq<Fixed>)
    requires
        0 < values.len() < 0x8000_0000,
        exact_size(values) <= i64::MAX,
    ensures
        ({
            let n = values.len() as int;
            let m = spec_total(values).spec_over(Fixed::spec_from_count(values.len() as usize)).raw;
            &&& -n < n * m - exact_sum(values) < n
            &&& m == truncated_quotient(exact_sum(values), n)
        }),
{
    let n = values.len() as int;
    let total = spec_total(values);
    law_total_is_exact(values);
    let count = Fixed::spec_from_count(values.len() as usize);
    assert(count.raw == n * 0x1_0000_0000);
    lemma_quotient_cancels(total.raw as int, n);
    lemma_quotient_shrinks(total.raw as int, n);
    lemma_quotient_error(total.raw as int, n);
}

/// A single-precision number of one's binade is one and its mantissa in units of 2^-23.
pub proof fn law_singles_of_one(mantissa: int)
    requires
        0 <= mantissa < 0x80_0000,
    ensures
        single_size(127, mantissa) == 0x1_0000_0000 + 0x200 * mantissa,
{
    lemma2_to64();
    let factor = pow2(9) as int;
    assert(factor == 0x200);
    assert((0x80_0000 + mantissa) * factor == 0x1_0000_0000 + 0x200 * mantissa) by (nonlinear_arith)
        requires
            factor == 0x200,
    ;
}

/// One more in the exponent is twice the number, but for the half unit that the smaller
/// one is cut by.
pub proof fn law_exponent_doubles(exponent: int, mantissa: int)
    requires
        1 <= exponent < 254,
        0 <= mantissa < 0x80_0000,
    ensures
        2 * single_size(exponent, mantissa) <= single_size(exponent + 1, mantissa) <= 2
            * single_size(exponent, mantissa) + 1,
{
    let s = 0x80_0000 + mantissa;
    if exponent >= 118 {
        let k = (exponent - 118) as nat;
        lemma_pow2_unfold(k + 1);
        let f = pow2(k) as int;
        assert(s * (2 * f) == 2 * (s * f)) by (nonlinear_arith);
    } else {
        let k = (118 - exponent) as nat;
        lemma_pow2_unfold(k);
        lemma2_to64();
        let f = pow2((k - 1) as nat) as int;
        vstd::arithmetic::power2::lemma_pow2_pos((k - 1) as nat);
        assert(2 * (s / (2 * f)) <= s / f <= 2 * (s / (2 * f)) + 1) by (nonlinear_arith)
            requires
                0 <= s,
                0 < f,
        {
            vstd::arithmetic::div_mod::lemma_div_denominator(s, f, 2);
            assert(f * 2 == 2 * f);
        }
        if exponent == 117 {
            assert(f == 1);
            assert(s / 1 == s);
            assert(s * 1 == s) by (nonlinear_arith);
            assert(pow2(0) == 1);
        }
    }
}

/// The bytes of a number with its sign bit flipped hold its negative.
pub proof fn law_sign_bit_negates(b0: u8, b1: u8, b2: u8, b3: u8)
    requires
        b3 < 0x80,
        single_value(b0, b1, b2, b3).raw < i64::MAX,
    ensures
        single_value(b0, b1, b2, (b3 + 0x80) as u8).raw == -single_value(b0, b1, b2, b3).raw,
        0 <= single_value(b0, b1, b2, b3).raw,
{
    let exponent = 2 * (b3 as int % 0x80) + b2 as int / 0x80;
    let mantissa = 0x1_0000 * (b2 as int % 0x80) + 0x100 * b1 + b0;
    lemma_single_is_positive(exponent, mantissa);
}

/// Sizes of single-precision numbers are not negative.
proof fn lemma_single_is_positive(exponent: int, mantissa: int)
    requires
        0 <= exponent,
        0 <= mantissa,
    ensures
        0 <= single_size(exponent, mantissa),
{
    let s = if exponent == 0 {
        mantissa
    } else {
        0x80_0000 + mantissa
    };
    let scale = if exponent == 0 {
        1
    } else {
        exponent
    };
    if scale >= 118 {
        let f = pow2((scale - 118) as nat) as int;
        assert(0 <= s * f) by (nonlinear_arith)
            requires
                0 <= s,
                0 <= f,
        ;
    } else {
        let f = pow2((118 - scale) as nat) as int;
        vstd::arithmetic::power2::lemma_pow2_pos((118 - scale) as nat);
        assert(0 <= s / f) by (nonlinear_arith)
            requires
                0 <= s,
                0 < f,
        ;
    }
}

/// The four bytes of a number in one's binade.
pub proof fn law_bytes_of_ones_binade(b0: u8, b1: u8, b2: u8)
    requires
        b2 < 0x80,
    ensures
        single_value(b0, b1, (b2 + 0x80) as u8, 0x3f).raw == 0x1_0000_0000 + 0x200 * (b0 + 0x100
            * b1 + 0x1_0000 * b2),
{
    law_singles_of_one(b0 + 0x100 * b1 + 0x1_0000 * b2);
}

} // verus!
