//! Fixed-point numbers: a scalar with integer arithmetic throughout.

use vstd::arithmetic::power2::{
    lemma2_to64, lemma2_to64_rest, lemma_pow2_strictly_increases, lemma_pow2_unfold, pow2,
};
use vstd::prelude::*;

use crate::scalar::{
    ordered_arithmetic, spec_one, spec_peak, spec_zero, total_order, unit_arithmetic, Sample,
    Scalar,
};

verus! {

/// A number in units of one part in 2^32. Results that do not fit saturate.
#[derive(Clone, Copy, Debug, PartialEq, Eq, Structural)]
pub struct Fixed {
    pub raw: i64,
}

/// The raw value of one.
pub const ONE: i64 = 0x1_0000_0000;

/// `x` brought into the range of `i64`.
pub open spec fn saturated(x: int) -> i64 {
    if x > i64::MAX {
        i64::MAX
    } else if x < i64::MIN {
        i64::MIN
    } else {
        x as i64
    }
}

/// The quotient rounded toward zero.
pub open spec fn truncated_quotient(a: int, b: int) -> int
    recommends
        b != 0,
{
    let q = vstd::math::abs(a) as int / vstd::math::abs(b) as int;
    if (a < 0) == (b < 0) {
        q
    } else {
        -q
    }
}

/// `r` is the square root of `n`, rounded down.
pub open spec fn is_integer_root(n: int, r: int) -> bool {
    &&& 0 <= r
    &&& r * r <= n
    &&& n < (r + 1) * (r + 1)
}

/// The square root of `n`, rounded down.
pub open spec fn integer_root(n: int) -> int {
    choose|r: int| is_integer_root(n, r)
}

/// A number has one root at most.
proof fn lemma_root_unique(n: int, r: int, s: int)
    requires
        is_integer_root(n, r),
        is_integer_root(n, s),
    ensures
        r == s,
{
    if r < s {
        assert((r + 1) * (r + 1) <= s * s) by (nonlinear_arith)
            requires
                0 <= r < s,
        ;
    } else if s < r {
        assert((s + 1) * (s + 1) <= r * r) by (nonlinear_arith)
            requires
                0 <= s < r,
        ;
    }
}

/// The square root of `n`, rounded down.
fn root_of(n: u128) -> (r: u64)
    requires
        n < 0x1_0000_0000_0000_0000_0000_0000,
    ensures
        r == integer_root(n as int),
        r <= 0x1_0000_0000_0000,
{
    let mut lo: u128 = 0;
    let mut hi: u128 = 0x1_0000_0000_0000;
    while hi - lo > 1
        invariant
            n < 0x1_0000_0000_0000_0000_0000_0000,
            lo < hi <= 0x1_0000_0000_0000,
            lo * lo <= n < hi * hi,
        decreases hi - lo,
    {
        let mid: u128 = lo + (hi - lo) / 2;
        assert(mid * mid <= 0x1_0000_0000_0000 * 0x1_0000_0000_0000) by (nonlinear_arith)
            requires
                mid <= 0x1_0000_0000_0000,
        ;
        if mid * mid <= n {
            lo = mid;
        } else {
            hi = mid;
        }
    }
    assert(hi == lo + 1);
    proof {
        assert(is_integer_root(n as int, lo as int));
        lemma_root_unique(n as int, lo as int, integer_root(n as int));
    }
    lo as u64
}

/// `x` brought into the range of `i64`.
fn saturate(x: i128) -> (r: i64)
    ensures
        r == saturated(x as int),
{
    if x > i64::MAX as i128 {
        i64::MAX
    } else if x < i64::MIN as i128 {
        i64::MIN
    } else {
        x as i64
    }
}

/// The quotient rounded toward zero.
fn truncated(a: i128, b: i128) -> (r: i128)
    requires
        b != 0,
        i128::MIN < a,
        i128::MIN < b,
    ensures
        r == truncated_quotient(a as int, b as int),
{
    let size_a: u128 = if a < 0 {
        (-a) as u128
    } else {
        a as u128
    };
    let size_b: u128 = if b < 0 {
        (-b) as u128
    } else {
        b as u128
    };
    let q: u128 = size_a / size_b;
    assert(q <= size_a) by (nonlinear_arith)
        requires
            q == size_a / size_b,
            size_b > 0,
    ;
    if (a < 0) == (b < 0) {
        q as i128
    } else {
        -(q as i128)
    }
}

impl Scalar for Fixed {
    open spec fn spec_from_count(n: usize) -> Self {
        Fixed { raw: saturated(n * ONE) }
    }

    open spec fn spec_plus(self, rhs: Self) -> Self {
        Fixed { raw: saturated(self.raw + rhs.raw) }
    }

    open spec fn spec_minus(self, rhs: Self) -> Self {
        Fixed { raw: saturated(self.raw - rhs.raw) }
    }

    open spec fn spec_times(self, rhs: Self) -> Self {
        Fixed { raw: saturated(truncated_quotient(self.raw * rhs.raw, ONE as int)) }
    }

    /// A quotient by zero is the largest number with the sign of the dividend, and
    /// zero where the dividend is zero.
    open spec fn spec_over(self, rhs: Self) -> Self {
        if rhs.raw == 0 {
            if self.raw > 0 {
                Fixed { raw: i64::MAX }
            } else if self.raw < 0 {
                Fixed { raw: i64::MIN }
            } else {
                self
            }
        } else {
            Fixed { raw: saturated(truncated_quotient(self.raw * ONE, rhs.raw as int)) }
        }
    }

    /// The root of a negative number is zero.
    open spec fn spec_sqrt(self) -> Self {
        if self.raw < 0 {
            Fixed { raw: 0 }
        } else {
            Fixed { raw: integer_root(self.raw * ONE) as i64 }
        }
    }

    open spec fn spec_abs(self) -> Self {
        Fixed { raw: saturated(vstd::math::abs(self.raw as int) as int) }
    }

    open spec fn spec_lt(self, rhs: Self) -> bool {
        self.raw < rhs.raw
    }

    open spec fn spec_le(self, rhs: Self) -> bool {
        self.raw <= rhs.raw
    }

    open spec fn spec_floor_count(self) -> usize {
        if self.raw < 0 {
            0
        } else {
            (self.raw as int / ONE as int) as usize
        }
    }

    open spec fn spec_ceil_count(self) -> usize {
        if self.raw < 0 {
            0
        } else {
            ((self.raw + ONE - 1) / ONE as int) as usize
        }
    }

    open spec fn spec_round_count(self) -> usize {
        if self.raw < 0 {
            0
        } else {
            ((self.raw + ONE as int / 2) / ONE as int) as usize
        }
    }

    fn from_count(n: usize) -> (r: Self) {
        Fixed { raw: saturate(n as i128 * ONE as i128) }
    }

    fn plus(self, rhs: Self) -> (r: Self) {
        Fixed { raw: saturate(self.raw as i128 + rhs.raw as i128) }
    }

    fn minus(self, rhs: Self) -> (r: Self) {
        Fixed { raw: saturate(self.raw as i128 - rhs.raw as i128) }
    }

    fn times(self, rhs: Self) -> (r: Self) {
        let a: i128 = self.raw as i128;
        let b: i128 = rhs.raw as i128;
        assert(-0x4000_0000_0000_0000_0000_0000_0000_0000 <= a * b
            <= 0x4000_0000_0000_0000_0000_0000_0000_0000) by (nonlinear_arith)
            requires
                -0x8000_0000_0000_0000 <= a <= 0x7fff_ffff_ffff_ffff,
                -0x8000_0000_0000_0000 <= b <= 0x7fff_ffff_ffff_ffff,
        ;
        Fixed { raw: saturate(truncated(a * b, ONE as i128)) }
    }

    fn over(self, rhs: Self) -> (r: Self) {
        if rhs.raw == 0 {
            if self.raw > 0 {
                Fixed { raw: i64::MAX }
            } else if self.raw < 0 {
                Fixed { raw: i64::MIN }
            } else {
                self
            }
        } else {
            let a: i128 = self.raw as i128;
            assert(ONE as i128 == 0x1_0000_0000);
            Fixed { raw: saturate(truncated(a * ONE as i128, rhs.raw as i128)) }
        }
    }

    fn sqrt(self) -> (r: Self) {
        if self.raw < 0 {
            Fixed { raw: 0 }
        } else {
            Fixed { raw: root_of(self.raw as u128 * ONE as u128) as i64 }
        }
    }

    fn abs(self) -> (r: Self) {
        let x: i128 = self.raw as i128;
        Fixed {
            raw: saturate(
                if x < 0 {
                    -x
                } else {
                    x
                },
            ),
        }
    }

    fn lt(self, rhs: Self) -> (r: bool) {
        self.raw < rhs.raw
    }

    fn le(self, rhs: Self) -> (r: bool) {
        self.raw <= rhs.raw
    }

    fn floor_count(self) -> (r: usize) {
        if self.raw < 0 {
            0
        } else {
            (self.raw as u64 / ONE as u64) as usize
        }
    }

    fn ceil_count(self) -> (r: usize) {
        if self.raw < 0 {
            0
        } else {
            ((self.raw as u64 + (ONE as u64 - 1)) / ONE as u64) as usize
        }
    }

    fn round_count(self) -> (r: usize) {
        if self.raw < 0 {
            0
        } else {
            ((self.raw as u64 + ONE as u64 / 2) / ONE as u64) as usize
        }
    }

    proof fn lt_implies_le(x: Self, y: Self) {
    }

    proof fn le_excludes_gt(x: Self, y: Self) {
    }
}

/// How far a quotient is from its dividend, and on which side.
pub proof fn lemma_quotient_bounds(a: int, w: int)
    requires
        w > 0,
    ensures
        a >= 0 ==> w * truncated_quotient(a, w) <= a < w * truncated_quotient(a, w) + w,
        a <= 0 ==> w * truncated_quotient(a, w) - w < a <= w * truncated_quotient(a, w),
{
    let size = vstd::math::abs(a) as int;
    vstd::arithmetic::div_mod::lemma_fundamental_div_mod(size, w);
    let q = size / w;
    assert(0 <= size % w < w) by (nonlinear_arith)
        requires
            w > 0,
    ;
    assert(w * (-q) == -(w * q)) by (nonlinear_arith);
    if a == 0 {
        assert(q == 0) by (nonlinear_arith)
            requires
                q == 0int / w,
                w > 0,
        ;
    }
}

/// A quotient times its divisor differs from the dividend by less than the divisor.
pub proof fn lemma_quotient_error(a: int, w: int)
    requires
        w > 0,
    ensures
        -w < w * truncated_quotient(a, w) - a < w,
{
    lemma_quotient_bounds(a, w);
}

/// A quotient is no larger in size than its dividend.
pub proof fn lemma_quotient_shrinks(a: int, w: int)
    requires
        w > 0,
    ensures
        -vstd::math::abs(a) <= truncated_quotient(a, w) <= vstd::math::abs(a),
{
    let size = vstd::math::abs(a) as int;
    assert(0 <= size / w <= size) by (nonlinear_arith)
        requires
            w > 0,
            size >= 0,
    ;
}

/// A larger dividend has no smaller quotient.
pub proof fn lemma_quotient_monotone(a: int, b: int, w: int)
    requires
        w > 0,
        a <= b,
    ensures
        truncated_quotient(a, w) <= truncated_quotient(b, w),
{
    lemma_quotient_bounds(a, w);
    lemma_quotient_bounds(b, w);
    let p = truncated_quotient(a, w);
    let q = truncated_quotient(b, w);
    if a >= 0 || b <= 0 {
        assert(p <= q) by (nonlinear_arith)
            requires
                w > 0,
                w * p < w * q + w,
        ;
    } else {
        assert(p <= 0) by (nonlinear_arith)
            requires
                w > 0,
                w * p - w < 0,
        ;
        assert(q >= 0) by (nonlinear_arith)
            requires
                w > 0,
                0 < w * q + w,
        ;
    }
}

/// A dividend between multiples of its divisor has its quotient between the factors.
pub proof fn lemma_quotient_between(a: int, w: int, lo: int, hi: int)
    requires
        w > 0,
        lo * w <= a <= hi * w,
    ensures
        lo <= truncated_quotient(a, w) <= hi,
{
    lemma_quotient_monotone(lo * w, a, w);
    lemma_quotient_monotone(a, hi * w, w);
    lemma_quotient_exact(lo, w);
    lemma_quotient_exact(hi, w);
}

/// A multiple divides exactly.
pub proof fn lemma_quotient_exact(q: int, w: int)
    requires
        w > 0,
    ensures
        truncated_quotient(q * w, w) == q,
{
    let r = truncated_quotient(q * w, w);
    lemma_quotient_error(q * w, w);
    assert(r == q) by (nonlinear_arith)
        requires
            w > 0,
            -w < w * r - q * w < w,
    ;
}

/// Quotients add up within one.
pub proof fn lemma_quotient_adds(a: int, b: int, w: int)
    requires
        w > 0,
    ensures
        -1 <= truncated_quotient(a + b, w) - (truncated_quotient(a, w) + truncated_quotient(b, w))
            <= 1,
{
    lemma_quotient_bounds(a, w);
    lemma_quotient_bounds(b, w);
    lemma_quotient_bounds(a + b, w);
    let p = truncated_quotient(a, w);
    let q = truncated_quotient(b, w);
    let r = truncated_quotient(a + b, w);
    let d = r - (p + q);
    let gap = w * r - (w * p + w * q);
    assert(w * d == gap) by (nonlinear_arith)
        requires
            d == r - (p + q),
            gap == w * r - (w * p + w * q),
    ;
    assert(-2 * w < gap < 2 * w);
    assert(-1 <= d <= 1) by (nonlinear_arith)
        requires
            w > 0,
            -2 * w < w * d < 2 * w,
    ;
}

/// A common factor of dividend and divisor cancels.
pub proof fn lemma_quotient_cancels(t: int, w: int)
    requires
        w > 0,
    ensures
        truncated_quotient(t * 0x1_0000_0000, w * 0x1_0000_0000) == truncated_quotient(t, w),
{
    let size = vstd::math::abs(t) as int;
    let num = size * 0x1_0000_0000;
    let den = w * 0x1_0000_0000;
    assert(num / den == size / w) by (nonlinear_arith)
        requires
            num == size * 0x1_0000_0000,
            den == w * 0x1_0000_0000,
            w > 0,
            size >= 0,
    ;
    assert(vstd::math::abs(t * 0x1_0000_0000) == num);
}

/// A number times a whole number.
pub proof fn lemma_times_whole(x: Fixed, w: int)
    requires
        0 <= w * 0x1_0000_0000 <= i64::MAX,
        i64::MIN <= x.raw * w <= i64::MAX,
    ensures
        x.spec_times(Fixed { raw: (w * 0x1_0000_0000) as i64 }).raw == x.raw * w,
{
    let p = x.raw * w;
    assert(x.raw * (w * 0x1_0000_0000) == p * 0x1_0000_0000) by (nonlinear_arith)
        requires
            p == x.raw * w,
    ;
    lemma_quotient_exact(p, 0x1_0000_0000);
}

/// A number times one, or divided by one, is itself.
pub proof fn lemma_one_is_neutral(x: Fixed)
    ensures
        x.spec_times(Fixed::spec_from_count(1)) == x,
        x.spec_over(Fixed::spec_from_count(1)) == x,
{
    assert(Fixed::spec_from_count(1).raw == 0x1_0000_0000);
    let size = vstd::math::abs(x.raw as int) as int;
    assert(vstd::math::abs(x.raw * 0x1_0000_0000) == size * 0x1_0000_0000);
    assert((size * 0x1_0000_0000) / 0x1_0000_0000 == size);
    assert(truncated_quotient(x.raw * 0x1_0000_0000, 0x1_0000_0000) == x.raw);
}

/// A share of at most one of `x` lies between zero and `x`.
pub proof fn lemma_times_share(x: Fixed, share: Fixed)
    requires
        0 <= share.raw <= ONE,
    ensures
        x.raw >= 0 ==> 0 <= x.spec_times(share).raw <= x.raw,
        x.raw <= 0 ==> x.raw <= x.spec_times(share).raw <= 0,
{
    let size = vstd::math::abs(x.raw as int) as int;
    let product = vstd::math::abs(x.raw * share.raw) as int;
    assert(product == size * share.raw) by (nonlinear_arith)
        requires
            share.raw >= 0,
            size == vstd::math::abs(x.raw as int),
            product == vstd::math::abs(x.raw * share.raw),
    ;
    assert(0 <= product <= size * 0x1_0000_0000) by (nonlinear_arith)
        requires
            product == size * share.raw,
            size >= 0,
            0 <= share.raw <= 0x1_0000_0000,
    ;
    assert(0 <= product / 0x1_0000_0000 <= size);
    assert(x.raw >= 0 ==> x.raw * share.raw >= 0) by (nonlinear_arith)
        requires
            share.raw >= 0,
    ;
    assert(x.raw <= 0 ==> x.raw * share.raw <= 0) by (nonlinear_arith)
        requires
            share.raw >= 0,
    ;
}

/// A product of numbers that are not negative is not negative, and grows with its
/// second factor.
pub proof fn lemma_times_monotone(x: Fixed, y: Fixed, z: Fixed)
    requires
        0 <= x.raw,
        0 <= y.raw <= z.raw,
    ensures
        0 <= x.spec_times(y).raw <= x.spec_times(z).raw,
{
    let xy = x.raw * y.raw;
    let xz = x.raw * z.raw;
    assert(0 <= xy <= xz) by (nonlinear_arith)
        requires
            0 <= x.raw,
            0 <= y.raw <= z.raw,
            xy == x.raw * y.raw,
            xz == x.raw * z.raw,
    ;
    assert(xy / 0x1_0000_0000 <= xz / 0x1_0000_0000);
}

/// A quotient by a positive number grows with its dividend.
pub proof fn lemma_over_monotone(x: Fixed, y: Fixed, d: Fixed)
    requires
        0 <= x.raw <= y.raw,
        0 < d.raw,
    ensures
        0 <= x.spec_over(d).raw <= y.spec_over(d).raw,
{
    let a = x.raw * 0x1_0000_0000;
    let b = y.raw * 0x1_0000_0000;
    assert(0 <= a / d.raw as int <= b / d.raw as int) by (nonlinear_arith)
        requires
            0 <= a <= b,
            0 < d.raw,
    ;
}

/// A positive number over itself is one.
pub proof fn lemma_over_self(x: Fixed)
    requires
        0 < x.raw,
    ensures
        x.spec_over(x) == Fixed::spec_from_count(1),
{
    assert((x.raw * 0x1_0000_0000) / x.raw as int == 0x1_0000_0000) by (nonlinear_arith)
        requires
            0 < x.raw,
    ;
    assert(Fixed::spec_from_count(1).raw == 0x1_0000_0000);
}

/// A quotient by a positive number has the sign of its dividend, or is zero.
pub proof fn lemma_over_sign(x: Fixed, d: Fixed)
    requires
        0 < d.raw,
    ensures
        0 <= x.raw ==> 0 <= x.spec_over(d).raw,
        x.raw <= 0 ==> x.spec_over(d).raw <= 0,
{
    let size = vstd::math::abs(x.raw * 0x1_0000_0000) as int;
    assert(0 <= size / d.raw as int) by (nonlinear_arith)
        requires
            0 <= size,
            0 < d.raw,
    ;
    if x.raw == 0 {
        lemma_zero_absorbs(d);
    }
}

/// The factors of a product may change places.
pub proof fn lemma_times_commutes(x: Fixed, y: Fixed)
    ensures
        x.spec_times(y) == y.spec_times(x),
{
    assert(x.raw * y.raw == y.raw * x.raw) by (nonlinear_arith);
}

/// Zero times anything is zero, and so is zero over anything.
pub proof fn lemma_zero_absorbs(x: Fixed)
    ensures
        (Fixed { raw: 0 }).spec_times(x) == (Fixed { raw: 0 }),
        x.spec_times(Fixed { raw: 0 }) == (Fixed { raw: 0 }),
        (Fixed { raw: 0 }).spec_over(x) == (Fixed { raw: 0 }),
        (Fixed { raw: 0 }).spec_sqrt() == (Fixed { raw: 0 }),
{
    assert(0 * x.raw == 0) by (nonlinear_arith);
    assert(x.raw * 0 == 0) by (nonlinear_arith);
    if x.raw != 0 {
        let size = vstd::math::abs(x.raw as int) as int;
        assert(0int / size == 0) by (nonlinear_arith)
            requires
                size > 0,
        ;
    }
    assert(is_integer_root(0, 0));
    lemma_root_unique(0, 0, integer_root(0));
}

/// Rounding the two parts of a sum down makes a difference of less than two.
proof fn lemma_rounded_sums(a: int, b: int, c: int, d: int)
    requires
        c + d <= a + b,
    ensures
        c / 0x1_0000_0000 + d / 0x1_0000_0000 <= a / 0x1_0000_0000 + b / 0x1_0000_0000 + 1,
{
}

/// Shares of two numbers that add up to one: the mix lies between the numbers, but for
/// one unit of rounding.
pub proof fn lemma_mix_stays_between(x: Fixed, y: Fixed, p: Fixed, q: Fixed)
    requires
        0 <= x.raw <= y.raw,
        0 <= p.raw,
        0 <= q.raw,
        p.raw + q.raw == ONE,
    ensures
        x.raw - 1 <= x.spec_times(p).spec_plus(y.spec_times(q)).raw <= y.raw,
        0 <= x.spec_times(p).spec_plus(y.spec_times(q)).raw,
{
    lemma_times_share(x, p);
    lemma_times_share(y, q);
    let a = x.raw * p.raw;
    let b = y.raw * q.raw;
    let c = x.raw * q.raw;
    assert(0 <= a && 0 <= c <= b) by (nonlinear_arith)
        requires
            0 <= x.raw <= y.raw,
            0 <= p.raw,
            0 <= q.raw,
            a == x.raw * p.raw,
            b == y.raw * q.raw,
            c == x.raw * q.raw,
    ;
    assert(a + c == x.raw * 0x1_0000_0000) by (nonlinear_arith)
        requires
            a == x.raw * p.raw,
            c == x.raw * q.raw,
            p.raw + q.raw == 0x1_0000_0000,
    ;
    assert(a + b <= y.raw * 0x1_0000_0000) by (nonlinear_arith)
        requires
            0 <= x.raw <= y.raw,
            0 <= p.raw,
            a == x.raw * p.raw,
            b == y.raw * q.raw,
            p.raw + q.raw == 0x1_0000_0000,
    ;
    assert(a / 0x1_0000_0000 + b / 0x1_0000_0000 <= y.raw);
    assert(a / 0x1_0000_0000 + b / 0x1_0000_0000 >= x.raw - 1);
}

/// The larger the share of the larger number, the larger the mix, but for one unit of
/// rounding.
pub proof fn lemma_mix_grows(x: Fixed, y: Fixed, p: Fixed, q: Fixed, r: Fixed, t: Fixed)
    requires
        0 <= x.raw <= y.raw,
        0 <= p.raw,
        0 <= r.raw,
        0 <= q.raw <= t.raw,
        p.raw + q.raw == ONE,
        r.raw + t.raw == ONE,
    ensures
        x.spec_times(p).spec_plus(y.spec_times(q)).raw <= x.spec_times(r).spec_plus(
            y.spec_times(t),
        ).raw + 1,
{
    lemma_times_share(x, p);
    lemma_times_share(y, q);
    lemma_times_share(x, r);
    lemma_times_share(y, t);
    lemma_mix_stays_between(x, y, p, q);
    lemma_mix_stays_between(x, y, r, t);
    let a = x.raw * p.raw;
    let b = y.raw * q.raw;
    let c = x.raw * r.raw;
    let d = y.raw * t.raw;
    assert(0 <= a && 0 <= b && 0 <= c && 0 <= d && a + b <= c + d) by (nonlinear_arith)
        requires
            0 <= x.raw <= y.raw,
            0 <= p.raw,
            0 <= r.raw,
            0 <= q.raw <= t.raw,
            p.raw + q.raw == 0x1_0000_0000,
            r.raw + t.raw == 0x1_0000_0000,
            a == x.raw * p.raw,
            b == y.raw * q.raw,
            c == x.raw * r.raw,
            d == y.raw * t.raw,
    ;
    lemma_rounded_sums(c, d, a, b);
}

/// A peak covers every value and exceeds no bound that they all keep.
pub proof fn lemma_peak_bounds(values: Seq<Fixed>, hi: Fixed)
    ensures
        0 <= spec_peak(values).raw,
        forall|i: int| 0 <= i < values.len() ==> (#[trigger] values[i]).raw <= spec_peak(values).raw,
        0 <= hi.raw && (forall|i: int|
            0 <= i < values.len() ==> (#[trigger] values[i]).raw <= hi.raw) ==> spec_peak(
            values,
        ).raw <= hi.raw,
    decreases values.len(),
{
    if values.len() > 0 {
        let rest = values.drop_last();
        lemma_peak_bounds(rest, hi);
        assert forall|i: int| 0 <= i < values.len() implies (#[trigger] values[i]).raw <= spec_peak(
            values,
        ).raw by {
            if i < rest.len() {
                assert(values[i] == rest[i]);
            }
        }
        assert(forall|i: int| 0 <= i < rest.len() ==> #[trigger] rest[i] == values[i]);
        assert(values.last() == values[values.len() - 1]);
    }
}

/// Every number that is not negative has a root.
pub proof fn lemma_root_bounds(n: int)
    requires
        0 <= n,
    ensures
        is_integer_root(n, integer_root(n)),
    decreases n,
{
    if n == 0 {
        assert(is_integer_root(0, 0));
    } else {
        lemma_root_bounds(n - 1);
        let r = integer_root(n - 1);
        let s = r + 1;
        if n == s * s {
            assert(s * s < (s + 1) * (s + 1)) by (nonlinear_arith)
                requires
                    s > 0,
            ;
            assert(is_integer_root(n, s));
        } else {
            assert(is_integer_root(n, r));
        }
    }
}

/// Fixed-point numbers are in order, and their arithmetic keeps it.
pub proof fn law_fixed_arithmetic_is_ordered()
    ensures
        total_order::<Fixed>(),
        ordered_arithmetic::<Fixed>(),
{
    assert(spec_zero::<Fixed>() == Fixed { raw: 0 });
    assert forall|c: Fixed, x: Fixed, y: Fixed|
        spec_zero::<Fixed>().spec_le(c) && x.spec_le(y) implies #[trigger] c.spec_times(x).spec_le(
        #[trigger] c.spec_times(y),
    ) by {
        let a = c.raw * x.raw;
        let b = c.raw * y.raw;
        assert(a <= b) by (nonlinear_arith)
            requires
                0 <= c.raw,
                x.raw <= y.raw,
                a == c.raw * x.raw,
                b == c.raw * y.raw,
        ;
        lemma_quotient_monotone(a, b, 0x1_0000_0000);
    }
    assert forall|c: Fixed, x: Fixed, y: Fixed|
        spec_zero::<Fixed>().spec_le(c) && x.spec_le(y) implies #[trigger] x.spec_times(c).spec_le(
        #[trigger] y.spec_times(c),
    ) by {
        lemma_times_commutes(x, c);
        lemma_times_commutes(y, c);
        assert(c.spec_times(x).spec_le(c.spec_times(y)));
    }
    assert forall|c: Fixed, x: Fixed, y: Fixed|
        spec_zero::<Fixed>().spec_lt(c) && x.spec_le(y) implies #[trigger] x.spec_over(c).spec_le(
        #[trigger] y.spec_over(c),
    ) by {
        lemma_quotient_monotone(x.raw * 0x1_0000_0000, y.raw * 0x1_0000_0000, c.raw as int);
    }
}

/// Zero and one do to fixed-point numbers what they do to every number.
pub proof fn law_fixed_units(x: Fixed)
    ensures
        unit_arithmetic(x),
{
    assert(spec_zero::<Fixed>() == Fixed { raw: 0 });
    lemma_zero_absorbs(x);
    lemma_one_is_neutral(x);
    lemma_times_commutes(x, spec_one::<Fixed>());
    if 0 < x.raw {
        lemma_over_self(x);
    }
}

/// The size of a single-precision number in units of one part in 2^32, cut to whole
/// units, given its exponent and mantissa fields.
pub open spec fn single_size(exponent: int, mantissa: int) -> int {
    let significand = if exponent == 0 {
        mantissa
    } else {
        0x80_0000 + mantissa
    };
    let scale = if exponent == 0 {
        1
    } else {
        exponent
    };
    if scale >= 118 {
        significand * pow2((scale - 118) as nat)
    } else {
        significand / pow2((118 - scale) as nat) as int
    }
}

/// The single-precision number that four bytes hold, least significant byte first. An
/// infinity is the largest number with its sign, and what is not a number is zero.
pub open spec fn single_value(b0: u8, b1: u8, b2: u8, b3: u8) -> Fixed {
    let exponent = 2 * (b3 as int % 0x80) + b2 as int / 0x80;
    let mantissa = 0x1_0000 * (b2 as int % 0x80) + 0x100 * b1 + b0;
    let size = single_size(exponent, mantissa);
    if exponent == 0xff && mantissa != 0 {
        Fixed { raw: 0 }
    } else if b3 >= 0x80 {
        Fixed { raw: saturated(-size) }
    } else {
        Fixed { raw: saturated(size) }
    }
}

/// Two to the power `k`.
fn two_to(k: u32) -> (r: i128)
    requires
        k < 64,
    ensures
        r == pow2(k as nat),
        0 < r <= 0x8000_0000_0000_0000,
{
    let mut r: i128 = 1;
    let mut i: u32 = 0;
    proof {
        lemma2_to64();
        lemma2_to64_rest();
    }
    while i < k
        invariant
            i <= k < 64,
            r == pow2(i as nat),
            0 < r <= 0x8000_0000_0000_0000,
            pow2(63) == 0x8000_0000_0000_0000,
        decreases k - i,
    {
        proof {
            lemma_pow2_unfold((i + 1) as nat);
            if i + 1 < 63 {
                lemma_pow2_strictly_increases((i + 1) as nat, 63);
            }
        }
        r = 2 * r;
        i += 1;
    }
    r
}

impl Sample for Fixed {
    open spec fn spec_from_le_bytes(b0: u8, b1: u8, b2: u8, b3: u8) -> Self {
        single_value(b0, b1, b2, b3)
    }

    fn from_le_bytes(b0: u8, b1: u8, b2: u8, b3: u8) -> (r: Self) {
        let exponent: u32 = 2 * (b3 as u32 % 0x80) + b2 as u32 / 0x80;
        let mantissa: i128 = 0x1_0000 * (b2 as i128 % 0x80) + 0x100 * b1 as i128 + b0 as i128;
        if exponent == 0xff && mantissa != 0 {
            return Fixed { raw: 0 };
        }
        let significand: i128 = if exponent == 0 {
            mantissa
        } else {
            0x80_0000 + mantissa
        };
        let scale: u32 = if exponent == 0 {
            1
        } else {
            exponent
        };
        let size: i128 = if scale >= 118 + 40 {
            proof {
                lemma_large_exponent(significand as int, (scale - 118) as nat);
            }
            0x1_0000_0000_0000_0000
        } else if scale >= 118 {
            let factor: i128 = two_to(scale - 118);
            assert(0 <= significand * factor <= 0x100_0000 * 0x8000_0000_0000_0000)
                by (nonlinear_arith)
                requires
                    0 <= significand <= 0x100_0000,
                    0 <= factor <= 0x8000_0000_0000_0000,
            ;
            significand * factor
        } else if scale > 118 - 40 {
            significand / two_to(118 - scale)
        } else {
            proof {
                lemma_small_exponent(significand as int, (118 - scale) as nat);
            }
            0
        };
        if b3 >= 0x80 {
            Fixed { raw: saturate(-size) }
        } else {
            Fixed { raw: saturate(size) }
        }
    }
}

/// A significand times two to the power of forty or more is beyond every fixed-point
/// number.
proof fn lemma_large_exponent(significand: int, k: nat)
    requires
        0x80_0000 <= significand,
        40 <= k,
    ensures
        significand * pow2(k) >= 0x8000_0000_0000_0000,
        significand * pow2(k) > i64::MAX,
{
    lemma2_to64_rest();
    if k > 40 {
        lemma_pow2_strictly_increases(40, k);
    }
    let factor = pow2(k) as int;
    assert(significand * factor >= 0x80_0000 * 0x100_0000_0000) by (nonlinear_arith)
        requires
            0x80_0000 <= significand,
            0x100_0000_0000 <= factor,
    ;
}

/// A significand over two to the power of forty or more is less than a unit.
proof fn lemma_small_exponent(significand: int, k: nat)
    requires
        0 <= significand <= 0x100_0000,
        40 <= k,
    ensures
        significand / pow2(k) as int == 0,
{
    lemma2_to64_rest();
    if k > 40 {
        lemma_pow2_strictly_increases(40, k);
    }
    let d = pow2(k) as int;
    assert(significand / d == 0) by (nonlinear_arith)
        requires
            0 <= significand < d,
    ;
}

} // verus!
