//! The arithmetic that the analysis runs on.
//!
//! Every stage of the pipeline is written over a type `S: Scalar`, so that one
//! text serves hardware floating point and the integer type
//! [`Fixed`](crate::fixed::Fixed) alike.

use vstd::prelude::*;

verus! {

/// A number type whose operations are functions of their operands.
///
/// Each operation comes with a specification function of the same name behind
/// `spec_`, and the contracts of the pipeline are stated over those. Nothing is
/// asked of the arithmetic itself: it may round, saturate, or hold values that
/// compare to nothing. Of the order only two facts are asked, and both hold with
/// incomparable values present.
pub trait Scalar: Copy {
    spec fn spec_from_count(n: usize) -> Self;

    spec fn spec_plus(self, rhs: Self) -> Self;

    spec fn spec_minus(self, rhs: Self) -> Self;

    spec fn spec_times(self, rhs: Self) -> Self;

    spec fn spec_over(self, rhs: Self) -> Self;

    spec fn spec_sqrt(self) -> Self;

    spec fn spec_abs(self) -> Self;

    spec fn spec_lt(self, rhs: Self) -> bool;

    spec fn spec_le(self, rhs: Self) -> bool;

    spec fn spec_floor_count(self) -> usize;

    spec fn spec_ceil_count(self) -> usize;

    spec fn spec_round_count(self) -> usize;

    /// The number `n`.
    fn from_count(n: usize) -> (r: Self)
        ensures
            r == Self::spec_from_count(n),
    ;

    /// `self + rhs`.
    fn plus(self, rhs: Self) -> (r: Self)
        ensures
            r == self.spec_plus(rhs),
    ;

    /// `self - rhs`.
    fn minus(self, rhs: Self) -> (r: Self)
        ensures
            r == self.spec_minus(rhs),
    ;

    /// `self * rhs`.
    fn times(self, rhs: Self) -> (r: Self)
        ensures
            r == self.spec_times(rhs),
    ;

    /// `self / rhs`.
    fn over(self, rhs: Self) -> (r: Self)
        ensures
            r == self.spec_over(rhs),
    ;

    /// The square root.
    fn sqrt(self) -> (r: Self)
        ensures
            r == self.spec_sqrt(),
    ;

    /// The absolute value.
    fn abs(self) -> (r: Self)
        ensures
            r == self.spec_abs(),
    ;

    /// `self < rhs`.
    fn lt(self, rhs: Self) -> (r: bool)
        ensures
            r == self.spec_lt(rhs),
    ;

    /// `self <= rhs`.
    fn le(self, rhs: Self) -> (r: bool)
        ensures
            r == self.spec_le(rhs),
    ;

    /// The whole number at or below `self`, brought into the range of `usize`.
    fn floor_count(self) -> (r: usize)
        ensures
            r == self.spec_floor_count(),
    ;

    /// The whole number at or above `self`, brought into the range of `usize`.
    fn ceil_count(self) -> (r: usize)
        ensures
            r == self.spec_ceil_count(),
    ;

    /// The nearest whole number, halves away from zero, brought into the range of
    /// `usize`.
    fn round_count(self) -> (r: usize)
        ensures
            r == self.spec_round_count(),
    ;

    /// What is below is also at or below.
    proof fn lt_implies_le(x: Self, y: Self)
        ensures
            x.spec_lt(y) ==> x.spec_le(y),
    ;

    /// What is at or below is not above.
    proof fn le_excludes_gt(x: Self, y: Self)
        ensures
            x.spec_le(y) ==> !y.spec_lt(x),
    ;
}

/// A scalar that audio samples decode to.
pub trait Sample: Scalar {
    spec fn spec_from_le_bytes(b0: u8, b1: u8, b2: u8, b3: u8) -> Self;

    /// The sample that four bytes hold, least significant byte first.
    fn from_le_bytes(b0: u8, b1: u8, b2: u8, b3: u8) -> (r: Self)
        ensures
            r == Self::spec_from_le_bytes(b0, b1, b2, b3),
    ;
}

/// The functions beyond arithmetic that shape the bands and the levels.
///
/// Nothing is promised of their results. A contract that depends on one says which
/// arguments it was called on and what was made of the value that came back.
pub trait Curves: Scalar {
    /// The natural logarithm.
    fn ln(self) -> Self;

    /// The exponential function.
    fn exp(self) -> Self;

    /// `self` to the power `exponent`.
    fn powf(self, exponent: Self) -> Self;

    /// The logarithm to base ten.
    fn log10(self) -> Self;

    /// The cosine.
    fn cos(self) -> Self;
}

pub open spec fn spec_zero<S: Scalar>() -> S {
    S::spec_from_count(0)
}

pub open spec fn spec_one<S: Scalar>() -> S {
    S::spec_from_count(1)
}

pub open spec fn spec_ratio<S: Scalar>(num: usize, den: usize) -> S {
    S::spec_from_count(num).spec_over(S::spec_from_count(den))
}

/// Zero.
pub fn zero<S: Scalar>() -> (r: S)
    ensures
        r == spec_zero::<S>(),
{
    S::from_count(0)
}

/// One.
pub fn one<S: Scalar>() -> (r: S)
    ensures
        r == spec_one::<S>(),
{
    S::from_count(1)
}

/// The fraction `num / den`.
pub fn ratio<S: Scalar>(num: usize, den: usize) -> (r: S)
    ensures
        r == spec_ratio::<S>(num, den),
{
    S::from_count(num).over(S::from_count(den))
}

/// The larger of two values; of a value that compares to nothing and another, the
/// other.
pub open spec fn spec_max<S: Scalar>(a: S, b: S) -> S {
    if a.spec_lt(b) || !a.spec_le(a) {
        b
    } else {
        a
    }
}

/// The larger of `a` and `b`; a value that compares to nothing gives way.
pub fn max_of<S: Scalar>(a: S, b: S) -> (r: S)
    ensures
        r == spec_max(a, b),
{
    if a.lt(b) || !a.le(a) {
        b
    } else {
        a
    }
}

/// `x` raised to `lo` where it is below, then lowered to `hi` where it is above.
pub open spec fn spec_clamp<S: Scalar>(x: S, lo: S, hi: S) -> S {
    let raised = if x.spec_lt(lo) {
        lo
    } else {
        x
    };
    if hi.spec_lt(raised) {
        hi
    } else {
        raised
    }
}

/// `x` brought into `lo..=hi`.
pub fn clamp<S: Scalar>(x: S, lo: S, hi: S) -> (r: S)
    ensures
        r == spec_clamp(x, lo, hi),
{
    let raised = if x.lt(lo) {
        lo
    } else {
        x
    };
    if hi.lt(raised) {
        hi
    } else {
        raised
    }
}

/// Any two values compare, and the order is transitive.
pub open spec fn total_order<S: Scalar>() -> bool {
    &&& forall|x: S, y: S| #[trigger] x.spec_lt(y) <==> !y.spec_le(x)
    &&& forall|x: S, y: S, z: S|
        #[trigger] x.spec_le(y) && #[trigger] y.spec_le(z) ==> x.spec_le(z)
}

/// Arithmetic keeps the order: sums, quotients by what is positive and products by what
/// is not negative grow with their operand, differences fall as more is taken away, and
/// larger counts are larger numbers.
pub open spec fn ordered_arithmetic<S: Scalar>() -> bool {
    &&& forall|c: S, x: S, y: S|
        x.spec_le(y) ==> #[trigger] x.spec_plus(c).spec_le(#[trigger] y.spec_plus(c))
    &&& forall|c: S, x: S, y: S|
        x.spec_le(y) ==> #[trigger] c.spec_plus(x).spec_le(#[trigger] c.spec_plus(y))
    &&& forall|c: S, x: S, y: S|
        x.spec_le(y) ==> #[trigger] c.spec_minus(y).spec_le(#[trigger] c.spec_minus(x))
    &&& forall|c: S, x: S, y: S|
        spec_zero::<S>().spec_le(c) && x.spec_le(y) ==> #[trigger] c.spec_times(x).spec_le(
            #[trigger] c.spec_times(y),
        )
    &&& forall|c: S, x: S, y: S|
        spec_zero::<S>().spec_le(c) && x.spec_le(y) ==> #[trigger] x.spec_times(c).spec_le(
            #[trigger] y.spec_times(c),
        )
    &&& forall|c: S, x: S, y: S|
        spec_zero::<S>().spec_lt(c) && x.spec_le(y) ==> #[trigger] x.spec_over(c).spec_le(
            #[trigger] y.spec_over(c),
        )
    &&& forall|i: usize, j: usize|
        i <= j ==> #[trigger] S::spec_from_count(i).spec_le(#[trigger] S::spec_from_count(j))
    &&& forall|i: usize| 0 < i ==> spec_zero::<S>().spec_lt(#[trigger] S::spec_from_count(i))
}

/// Zero and one do to `x` what they do to every number.
pub open spec fn unit_arithmetic<S: Scalar>(x: S) -> bool {
    let zero = spec_zero::<S>();
    let one = spec_one::<S>();
    &&& x.spec_times(zero) == zero
    &&& x.spec_times(one) == x
    &&& one.spec_times(x) == x
    &&& zero.spec_plus(x) == x
    &&& x.spec_minus(zero) == x
    &&& x.spec_minus(x) == zero
    &&& zero.spec_lt(x) ==> zero.spec_over(x) == zero && x.spec_over(x) == one
}

/// The larger of a value and a bound grows with the value.
pub proof fn lemma_max_keeps_order<S: Scalar>(x: S, y: S, bound: S)
    requires
        total_order::<S>(),
        x.spec_le(y),
    ensures
        spec_max(x, bound).spec_le(spec_max(y, bound)),
        bound.spec_le(spec_max(x, bound)),
        x.spec_le(spec_max(x, bound)),
{
    S::lt_implies_le(x, x);
    S::lt_implies_le(y, y);
    S::lt_implies_le(bound, bound);
    S::lt_implies_le(x, bound);
    S::lt_implies_le(bound, x);
    S::lt_implies_le(bound, y);
    assert(x.spec_lt(x) <==> !x.spec_le(x));
    assert(y.spec_lt(y) <==> !y.spec_le(y));
    assert(bound.spec_lt(bound) <==> !bound.spec_le(bound));
    assert(x.spec_lt(bound) <==> !bound.spec_le(x));
    assert(y.spec_lt(bound) <==> !bound.spec_le(y));
}

/// A clamped value grows with the value.
pub proof fn lemma_clamp_keeps_order<S: Scalar>(x: S, y: S, lo: S, hi: S)
    requires
        total_order::<S>(),
        x.spec_le(y),
    ensures
        spec_clamp(x, lo, hi).spec_le(spec_clamp(y, lo, hi)),
{
    lemma_max_keeps_order(x, y, lo);
    let a = spec_max(x, lo);
    let b = spec_max(y, lo);
    assert(x.spec_lt(x) <==> !x.spec_le(x));
    assert(y.spec_lt(y) <==> !y.spec_le(y));
    S::lt_implies_le(x, x);
    S::lt_implies_le(y, y);
    S::lt_implies_le(hi, hi);
    assert(hi.spec_lt(hi) <==> !hi.spec_le(hi));
    assert(hi.spec_lt(a) <==> !a.spec_le(hi));
    assert(hi.spec_lt(b) <==> !b.spec_le(hi));
    S::lt_implies_le(hi, a);
    S::lt_implies_le(hi, b);
}

/// No value is below itself.
pub proof fn lemma_lt_irreflexive<S: Scalar>(x: S)
    ensures
        !x.spec_lt(x),
{
    S::lt_implies_le(x, x);
    S::le_excludes_gt(x, x);
}

/// A clamped value is never below the lower bound and never above the upper one.
pub proof fn lemma_clamp_bounds<S: Scalar>(x: S, lo: S, hi: S)
    requires
        lo.spec_le(hi),
    ensures
        !spec_clamp(x, lo, hi).spec_lt(lo),
        !hi.spec_lt(spec_clamp(x, lo, hi)),
{
    S::le_excludes_gt(lo, hi);
    lemma_lt_irreflexive(lo);
    lemma_lt_irreflexive(hi);
}

/// The larger of a value and a bound is never below the bound.
pub proof fn lemma_max_bound<S: Scalar>(x: S, bound: S)
    ensures
        !spec_max(x, bound).spec_lt(bound),
{
    lemma_lt_irreflexive(bound);
}

/// The largest element, never below zero.
pub open spec fn spec_peak<S: Scalar>(values: Seq<S>) -> S
    decreases values.len(),
{
    if values.len() == 0 {
        spec_zero()
    } else {
        spec_max(spec_peak(values.drop_last()), values.last())
    }
}

/// The elements added up from the left, starting at zero.
pub open spec fn spec_total<S: Scalar>(values: Seq<S>) -> S
    decreases values.len(),
{
    if values.len() == 0 {
        spec_zero()
    } else {
        spec_total(values.drop_last()).spec_plus(values.last())
    }
}

/// Larger values have the larger total.
pub proof fn lemma_total_keeps_order<S: Scalar>(a: Seq<S>, b: Seq<S>)
    requires
        total_order::<S>(),
        ordered_arithmetic::<S>(),
        a.len() == b.len(),
        forall|i: int| 0 <= i < a.len() ==> (#[trigger] a[i]).spec_le(b[i]),
    ensures
        spec_total(a).spec_le(spec_total(b)),
    decreases a.len(),
{
    if a.len() == 0 {
        assert(spec_zero::<S>().spec_le(spec_zero()));
    } else {
        let p = a.drop_last();
        let q = b.drop_last();
        assert forall|i: int| 0 <= i < p.len() implies (#[trigger] p[i]).spec_le(q[i]) by {
            assert(a[i].spec_le(b[i]));
        }
        lemma_total_keeps_order(p, q);
        let last = a.len() - 1;
        assert(a[last].spec_le(b[last]));
        let mid = spec_total(q).spec_plus(a.last());
        assert(spec_total(p).spec_plus(a.last()).spec_le(mid));
        assert(mid.spec_le(spec_total(q).spec_plus(b.last())));
    }
}

/// A peak covers every value.
pub proof fn lemma_peak_covers<S: Scalar>(values: Seq<S>, i: int)
    requires
        total_order::<S>(),
        0 <= i < values.len(),
    ensures
        values[i].spec_le(spec_peak(values)),
    decreases values.len(),
{
    let before = spec_peak(values.drop_last());
    S::lt_implies_le(before, before);
    assert(before.spec_lt(before) <==> !before.spec_le(before));
    lemma_max_keeps_order(before, before, values.last());
    if i < values.len() - 1 {
        lemma_peak_covers(values.drop_last(), i);
        assert(values.drop_last()[i] == values[i]);
    }
}

/// The largest of `values`, or zero where none is above zero.
pub fn peak<S: Scalar>(values: &[S]) -> (r: S)
    ensures
        r == spec_peak(values@),
{
    let mut acc: S = zero();
    let mut i: usize = 0;
    while i < values.len()
        invariant
            i <= values.len(),
            acc == spec_peak(values@.take(i as int)),
        decreases values.len() - i,
    {
        assert(values@.take(i + 1).drop_last() =~= values@.take(i as int));
        acc = max_of(acc, values[i]);
        i += 1;
    }
    assert(values@.take(i as int) =~= values@);
    acc
}

/// The largest absolute value in `samples`, or zero where there is none.
pub fn sample_peak<S: Scalar>(samples: &[S]) -> (r: S)
    ensures
        r == spec_peak(samples@.map_values(|x: S| x.spec_abs())),
{
    let ghost sizes = samples@.map_values(|x: S| x.spec_abs());
    let mut acc: S = zero();
    let mut i: usize = 0;
    while i < samples.len()
        invariant
            i <= samples.len(),
            sizes == samples@.map_values(|x: S| x.spec_abs()),
            acc == spec_peak(sizes.take(i as int)),
        decreases samples.len() - i,
    {
        assert(sizes.take(i + 1).drop_last() =~= sizes.take(i as int));
        acc = max_of(acc, samples[i].abs());
        i += 1;
    }
    assert(sizes.take(i as int) =~= sizes);
    acc
}

/// The sum of `values` over their number.
pub fn mean<S: Scalar>(values: &[S]) -> (r: S)
    ensures
        r == spec_total(values@).spec_over(S::spec_from_count(values.len())),
{
    let mut acc: S = zero();
    let mut i: usize = 0;
    while i < values.len()
        invariant
            i <= values.len(),
            acc == spec_total(values@.take(i as int)),
        decreases values.len() - i,
    {
        assert(values@.take(i + 1).drop_last() =~= values@.take(i as int));
        acc = acc.plus(values[i]);
        i += 1;
    }
    assert(values@.take(i as int) =~= values@);
    acc.over(S::from_count(values.len()))
}

/// `n` copies of `x`.
pub fn filled<S: Scalar>(x: S, n: usize) -> (r: Vec<S>)
    ensures
        r@ == Seq::new(n as nat, |i: int| x),
{
    let mut out: Vec<S> = Vec::new();
    let mut i: usize = 0;
    while i < n
        invariant
            i <= n,
            out@ == Seq::new(i as nat, |j: int| x),
        decreases n - i,
    {
        out.push(x);
        i += 1;
    }
    out
}

} // verus!
