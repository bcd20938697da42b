//! Smoothing across neighbouring bars.

use vstd::prelude::*;

use crate::fixed::{
    lemma_one_is_neutral, lemma_over_monotone, lemma_over_self, lemma_quotient_adds,
    lemma_quotient_between, lemma_quotient_bounds, lemma_quotient_cancels, lemma_quotient_error,
    lemma_quotient_monotone, lemma_quotient_shrinks, lemma_times_commutes, lemma_times_monotone,
    lemma_times_whole,
    lemma_zero_absorbs, truncated_quotient, Fixed,
};
use crate::fixed_laws::law_counts_are_whole_parts;
use crate::scalar::{
    lemma_max_keeps_order, lemma_total_keeps_order, max_of, one, ordered_arithmetic, spec_max,
    spec_one, spec_total, spec_zero, total_order, zero, Scalar,
};

verus! {

/// How far along the bars bar `i` of `n` lies: zero at the first, one at the last.
pub open spec fn spec_position<S: Scalar>(i: usize, n: usize) -> S {
    S::spec_from_count(i).spec_over(
        spec_max(S::spec_from_count(n).spec_minus(spec_one()), spec_one()),
    )
}

/// How far along the bars bar `i` of `n` lies.
pub fn position<S: Scalar>(i: usize, n: usize) -> (t: S)
    ensures
        t == spec_position::<S>(i, n),
{
    S::from_count(i).over(max_of(S::from_count(n).minus(one()), one()))
}

/// The radius that the weights of bar `i` of `n` are drawn with: one, and up to
/// `max_radius` more with growing frequency.
pub open spec fn spec_radius<S: Scalar>(i: usize, n: usize, max_radius: usize) -> usize {
    let extra = S::spec_from_count(max_radius).spec_times(
        spec_position::<S>(i, n),
    ).spec_round_count();
    if extra < usize::MAX {
        (extra + 1) as usize
    } else {
        usize::MAX
    }
}

/// How many neighbours on either side are mixed into bar `i` of `n`: as many as lie
/// within the radius, and never more than `max_radius`.
pub open spec fn spec_reach<S: Scalar>(i: usize, n: usize, max_radius: usize) -> usize {
    let radius = spec_radius::<S>(i, n, max_radius);
    if radius < max_radius {
        radius
    } else {
        max_radius
    }
}

/// The weight of a neighbour at distance `dist`, falling in a straight line to zero
/// just past the radius.
pub open spec fn spec_weight<S: Scalar>(radius: usize, dist: int) -> S {
    spec_max(
        S::spec_from_count(radius).spec_plus(spec_one()).spec_minus(
            S::spec_from_count(dist as usize),
        ),
        spec_zero(),
    )
}

/// The first bar that is mixed into bar `i`.
pub open spec fn window_start(i: int, reach: int) -> int {
    if i >= reach {
        i - reach
    } else {
        0
    }
}

/// The last of `n` bars that is mixed into bar `i`.
pub open spec fn window_end(i: int, reach: int, n: int) -> int {
    if i + reach < n {
        i + reach
    } else {
        n - 1
    }
}

/// The weights of the bars `first..first + count` as seen from bar `i`.
pub open spec fn window_weights<S: Scalar>(first: int, count: int, i: int, radius: usize) -> Seq<
    S,
> {
    Seq::new(
        count as nat,
        |k: int| spec_weight::<S>(radius, vstd::math::abs(first + k - i) as int),
    )
}

/// The bars `first..first + count`, each times its weight as seen from bar `i`.
pub open spec fn window_terms<S: Scalar>(
    bars: Seq<S>,
    first: int,
    count: int,
    i: int,
    radius: usize,
) -> Seq<S> {
    Seq::new(
        count as nat,
        |k: int|
            bars[first + k].spec_times(
                spec_weight::<S>(radius, vstd::math::abs(first + k - i) as int),
            ),
    )
}

/// How many bars are mixed into bar `i` of `n`.
pub open spec fn window_count(i: int, reach: int, n: int) -> int {
    window_end(i, reach, n) + 1 - window_start(i, reach)
}

/// The mean of the bars within `reach` of bar `i`, with weights drawn with `radius`.
pub open spec fn spec_smoothed<S: Scalar>(bars: Seq<S>, i: int, radius: usize, reach: usize) -> S {
    let first = window_start(i, reach as int);
    let count = window_count(i, reach as int, bars.len() as int);
    let weight_sum = spec_total(window_weights::<S>(first, count, i, radius));
    if spec_zero::<S>().spec_lt(weight_sum) {
        spec_total(window_terms(bars, first, count, i, radius)).spec_over(weight_sum)
    } else {
        bars[i]
    }
}

/// Every bar smoothed with the radius and reach at its place; a maximum of zero leaves
/// the bars as they are.
pub open spec fn spec_spatial_smooth<S: Scalar>(bars: Seq<S>, max_radius: usize) -> Seq<S> {
    if max_radius == 0 {
        bars
    } else {
        Seq::new(
            bars.len(),
            |i: int|
                spec_smoothed(
                    bars,
                    i,
                    spec_radius::<S>(i as usize, bars.len() as usize, max_radius),
                    spec_reach::<S>(i as usize, bars.len() as usize, max_radius),
                ),
        )
    }
}

/// The radius that the weights of bar `i` of `n` are drawn with.
fn radius_at<S: Scalar>(i: usize, n: usize, max_radius: usize) -> (radius: usize)
    ensures
        radius == spec_radius::<S>(i, n, max_radius),
{
    let extra: usize = S::from_count(max_radius).times(position::<S>(i, n)).round_count();
    if extra < usize::MAX {
        extra + 1
    } else {
        usize::MAX
    }
}

/// The mean of the bars within `reach` of bar `i`, with weights drawn with `radius`.
fn smoothed<S: Scalar>(bars: &[S], i: usize, radius: usize, reach: usize) -> (r: S)
    requires
        i < bars.len(),
    ensures
        r == spec_smoothed(bars@, i as int, radius, reach),
{
    let n: usize = bars.len();
    let first: usize = if i >= reach {
        i - reach
    } else {
        0
    };
    let end: usize = if reach < n - i {
        i + reach
    } else {
        n - 1
    };
    let ghost count = end + 1 - first;
    let ghost weights = window_weights::<S>(first as int, count, i as int, radius);
    let ghost terms = window_terms(bars@, first as int, count, i as int, radius);
    let mut sum: S = zero();
    let mut weight_sum: S = zero();
    let mut j: usize = first;
    while j <= end
        invariant
            first <= i <= end < n,
            n == bars.len(),
            first <= j <= end + 1,
            count == end + 1 - first,
            weights == window_weights::<S>(first as int, count, i as int, radius),
            terms == window_terms(bars@, first as int, count, i as int, radius),
            sum == spec_total(terms.take(j - first)),
            weight_sum == spec_total(weights.take(j - first)),
        decreases end + 1 - j,
    {
        let dist: usize = if j >= i {
            j - i
        } else {
            i - j
        };
        assert(terms.take(j + 1 - first).drop_last() =~= terms.take(j - first));
        assert(weights.take(j + 1 - first).drop_last() =~= weights.take(j - first));
        let w: S = max_of(S::from_count(radius).plus(one()).minus(S::from_count(dist)), zero());
        sum = sum.plus(bars[j].times(w));
        weight_sum = weight_sum.plus(w);
        j += 1;
    }
    assert(terms.take(count) =~= terms);
    assert(weights.take(count) =~= weights);
    if zero::<S>().lt(weight_sum) {
        sum.over(weight_sum)
    } else {
        bars[i]
    }
}

/// Smooths across bars, more so toward the high frequencies. No bar is mixed with one
/// further away than `max_radius`.
pub fn spatial_smooth<S: Scalar>(bars: &[S], max_radius: usize) -> (out: Vec<S>)
    ensures
        out@ == spec_spatial_smooth(bars@, max_radius),
{
    let n: usize = bars.len();
    if n == 0 || max_radius == 0 {
        let out: Vec<S> = vstd::slice::slice_to_vec(bars);
        assert(out@ =~= spec_spatial_smooth(bars@, max_radius));
        return out;
    }
    let mut out: Vec<S> = Vec::new();
    let mut i: usize = 0;
    while i < n
        invariant
            n == bars.len(),
            max_radius != 0,
            i <= n,
            out@ =~= spec_spatial_smooth(bars@, max_radius).take(i as int),
        decreases n - i,
    {
        let radius: usize = radius_at::<S>(i, n, max_radius);
        let reach: usize = if radius < max_radius {
            radius
        } else {
            max_radius
        };
        out.push(smoothed(bars, i, radius, reach));
        i += 1;
    }
    out
}

/// A smoothed bar depends on nothing outside its window.
pub proof fn law_smoothing_is_local<S: Scalar>(
    a: Seq<S>,
    b: Seq<S>,
    i: int,
    radius: usize,
    reach: usize,
)
    requires
        a.len() == b.len(),
        0 <= i < a.len(),
        forall|j: int|
            window_start(i, reach as int) <= j <= window_end(i, reach as int, a.len() as int)
                ==> a[j] == b[j],
    ensures
        spec_smoothed(a, i, radius, reach) == spec_smoothed(b, i, radius, reach),
{
    let first = window_start(i, reach as int);
    let count = window_count(i, reach as int, a.len() as int);
    assert(window_terms(a, first, count, i, radius) =~= window_terms(b, first, count, i, radius));
}

/// No bar further away than `max_radius` affects a smoothed bar.
pub proof fn law_max_radius_bounds_influence<S: Scalar>(
    a: Seq<S>,
    b: Seq<S>,
    max_radius: usize,
    i: int,
)
    requires
        a.len() == b.len(),
        0 <= i < a.len(),
        forall|j: int|
            0 <= j < a.len() && vstd::math::abs(i - j) <= max_radius ==> a[j] == b[j],
    ensures
        spec_spatial_smooth(a, max_radius)[i] == spec_spatial_smooth(b, max_radius)[i],
{
    if max_radius > 0 {
        let n = a.len() as usize;
        law_smoothing_is_local(
            a,
            b,
            i,
            spec_radius::<S>(i as usize, n, max_radius),
            spec_reach::<S>(i as usize, n, max_radius),
        );
    }
}

/// Later bars are never mixed with fewer neighbours than earlier ones, and the first
/// with no more than its nearest.
pub proof fn law_reach_grows(i: usize, j: usize, n: usize, max_radius: usize)
    requires
        i <= j,
    ensures
        spec_radius::<Fixed>(i, n, max_radius) <= spec_radius::<Fixed>(j, n, max_radius),
        spec_reach::<Fixed>(i, n, max_radius) <= spec_reach::<Fixed>(j, n, max_radius),
        spec_radius::<Fixed>(0, n, max_radius) == 1,
        spec_reach::<Fixed>(0, n, max_radius) <= 1,
{
    let d = spec_max(Fixed::spec_from_count(n).spec_minus(spec_one()), spec_one::<Fixed>());
    assert(d.raw >= 0x1_0000_0000);
    let a = Fixed::spec_from_count(i);
    let b = Fixed::spec_from_count(j);
    assert(0 <= a.raw <= b.raw);
    lemma_over_monotone(a, b, d);
    let m = Fixed::spec_from_count(max_radius);
    lemma_times_monotone(m, a.spec_over(d), b.spec_over(d));
    lemma_zero_absorbs(d);
    lemma_zero_absorbs(m);
    assert(Fixed::spec_from_count(0) == Fixed { raw: 0 });
}

/// The last of two or more bars is mixed with all neighbours within `max_radius`.
///
/// Counts of 2^31 and more are beyond what fixed-point numbers hold.
pub proof fn law_last_reach_is_max_radius(n: usize, max_radius: usize)
    requires
        2 <= n < 0x8000_0000,
        max_radius < 0x8000_0000,
    ensures
        spec_reach::<Fixed>((n - 1) as usize, n, max_radius) == max_radius,
{
    let d = spec_max(Fixed::spec_from_count(n).spec_minus(spec_one()), spec_one::<Fixed>());
    let a = Fixed::spec_from_count((n - 1) as usize);
    assert(a == d);
    lemma_over_self(a);
    let m = Fixed::spec_from_count(max_radius);
    assert(m.raw == max_radius * 0x1_0000_0000);
    lemma_one_is_neutral(m);
}

/// What the weights of the first `count` bars of a window add up to.
pub open spec fn weight_mass(first: int, count: int, i: int, radius: int) -> int
    decreases count,
{
    if count <= 0 {
        0
    } else {
        weight_mass(first, count - 1, i, radius) + (radius + 1 - vstd::math::abs(
            first + count - 1 - i,
        ))
    }
}

/// What the first `count` bars of a window add up to, each times its weight.
pub open spec fn term_mass(bars: Seq<Fixed>, first: int, count: int, i: int, radius: int) -> int
    decreases count,
{
    if count <= 0 {
        0
    } else {
        term_mass(bars, first, count - 1, i, radius) + bars[first + count - 1].raw * (radius + 1
            - vstd::math::abs(first + count - 1 - i))
    }
}

/// What the sizes of the first `count` bars of a window add up to, each times its
/// weight.
pub open spec fn size_mass(bars: Seq<Fixed>, first: int, count: int, i: int, radius: int) -> int
    decreases count,
{
    if count <= 0 {
        0
    } else {
        size_mass(bars, first, count - 1, i, radius) + vstd::math::abs(
            bars[first + count - 1].raw as int,
        ) * (radius + 1 - vstd::math::abs(first + count - 1 - i))
    }
}

/// The sums that smoothing bar `i` forms fit into a fixed-point number.
pub open spec fn sums_fit(bars: Seq<Fixed>, i: int, radius: usize, reach: usize) -> bool {
    let first = window_start(i, reach as int);
    let count = window_count(i, reach as int, bars.len() as int);
    &&& weight_mass(first, count, i, radius as int) * 0x1_0000_0000 <= i64::MAX
    &&& size_mass(bars, first, count, i, radius as int) <= i64::MAX
}

/// A window lies around bar `i` and holds no bar past the radius.
spec fn is_window(n: int, first: int, count: int, i: int, radius: int) -> bool {
    &&& 0 <= first
    &&& 0 <= count
    &&& first + count <= n
    &&& i - radius <= first
    &&& first + count - 1 <= i + radius
}

/// The weights of a window are positive, and no part of a sum is larger than the whole.
proof fn lemma_masses(bars: Seq<Fixed>, first: int, count: int, whole: int, i: int, radius: int)
    requires
        is_window(bars.len() as int, first, whole, i, radius),
        0 <= count <= whole,
    ensures
        count <= weight_mass(first, count, i, radius) <= weight_mass(first, whole, i, radius),
        0 <= size_mass(bars, first, count, i, radius) <= size_mass(bars, first, whole, i, radius),
        vstd::math::abs(term_mass(bars, first, count, i, radius)) <= size_mass(
            bars,
            first,
            count,
            i,
            radius,
        ),
    decreases whole, count,
{
    if count < whole {
        lemma_masses(bars, first, whole - 1, whole - 1, i, radius);
        lemma_masses(bars, first, count, whole - 1, i, radius);
        let w = radius + 1 - vstd::math::abs(first + whole - 1 - i);
        let size = vstd::math::abs(bars[first + whole - 1].raw as int);
        assert(size * w >= 0) by (nonlinear_arith)
            requires
                size >= 0,
                w >= 0,
        ;
    } else if count > 0 {
        lemma_masses(bars, first, count - 1, count - 1, i, radius);
        let w = radius + 1 - vstd::math::abs(first + count - 1 - i);
        let b = bars[first + count - 1].raw;
        let size = vstd::math::abs(b as int);
        assert(-(size * w) <= b * w <= size * w) by (nonlinear_arith)
            requires
                -size <= b <= size,
                w >= 0,
        ;
        assert(size * w >= 0) by (nonlinear_arith)
            requires
                size >= 0,
                w >= 0,
        ;
    }
}

/// A window that holds its own bar weighs at least as much as that bar does.
proof fn lemma_center_weight(bars: Seq<Fixed>, first: int, count: int, i: int, radius: int)
    requires
        is_window(bars.len() as int, first, count, i, radius),
        first <= i < first + count,
    ensures
        weight_mass(first, count, i, radius) >= radius + 1,
    decreases count,
{
    if first + count - 1 > i {
        lemma_center_weight(bars, first, count - 1, i, radius);
    } else {
        lemma_masses(bars, first, count - 1, count - 1, i, radius);
    }
}

/// The sums that smoothing forms are the masses of the window, where those fit.
proof fn lemma_totals(bars: Seq<Fixed>, first: int, count: int, whole: int, i: int, radius: usize)
    requires
        is_window(bars.len() as int, first, whole, i, radius as int),
        0 <= count <= whole,
        0 <= i,
        weight_mass(first, whole, i, radius as int) * 0x1_0000_0000 <= i64::MAX,
        size_mass(bars, first, whole, i, radius as int) <= i64::MAX,
        radius + 1 < 0x8000_0000,
    ensures
        spec_total(window_weights::<Fixed>(first, count, i, radius)).raw == weight_mass(
            first,
            count,
            i,
            radius as int,
        ) * 0x1_0000_0000,
        spec_total(window_terms(bars, first, count, i, radius)).raw == term_mass(
            bars,
            first,
            count,
            i,
            radius as int,
        ),
    decreases count,
{
    let r = radius as int;
    let weights = window_weights::<Fixed>(first, count, i, radius);
    let terms = window_terms(bars, first, count, i, radius);
    if count > 0 {
        lemma_totals(bars, first, count - 1, whole, i, radius);
        assert(weights.drop_last() =~= window_weights::<Fixed>(first, count - 1, i, radius));
        assert(terms.drop_last() =~= window_terms(bars, first, count - 1, i, radius));
        lemma_masses(bars, first, count, whole, i, r);
        lemma_masses(bars, first, count - 1, whole, i, r);
        let dist = vstd::math::abs(first + count - 1 - i) as int;
        let w = r + 1 - dist;
        let weight = spec_weight::<Fixed>(radius, dist);
        assert(weight.raw == w * 0x1_0000_0000);
        let b = bars[first + count - 1];
        let size = vstd::math::abs(b.raw as int) as int;
        assert(-(size * w) <= b.raw * w <= size * w) by (nonlinear_arith)
            requires
                -size <= b.raw <= size,
                w >= 0,
        ;
        assert(size * w <= i64::MAX);
        lemma_times_whole(b, w);
        assert(b.spec_times(weight).raw == b.raw * w);
        assert(terms.last() == b.spec_times(weight));
        assert(weights.last() == weight);
    }
}

/// A smoothed bar is the quotient of its masses, where the sums fit.
proof fn lemma_smoothed_value(bars: Seq<Fixed>, i: int, radius: usize, reach: usize)
    requires
        0 <= i < bars.len(),
        reach <= radius,
        sums_fit(bars, i, radius, reach),
    ensures
        ({
            let first = window_start(i, reach as int);
            let count = window_count(i, reach as int, bars.len() as int);
            let w = weight_mass(first, count, i, radius as int);
            let t = term_mass(bars, first, count, i, radius as int);
            &&& is_window(bars.len() as int, first, count, i, radius as int)
            &&& w > 0
            &&& spec_smoothed(bars, i, radius, reach).raw == truncated_quotient(t, w)
        }),
{
    let r = radius as int;
    let first = window_start(i, reach as int);
    let count = window_count(i, reach as int, bars.len() as int);
    lemma_masses(bars, first, count, count, i, r);
    lemma_center_weight(bars, first, count, i, r);
    lemma_totals(bars, first, count, count, i, radius);
    let w = weight_mass(first, count, i, r);
    let t = term_mass(bars, first, count, i, r);
    lemma_quotient_cancels(t, w);
    lemma_quotient_shrinks(t, w);
}

/// Weighted values between `lo` and `hi` add up to between `lo` and `hi` times the
/// weights.
proof fn lemma_mass_between(
    bars: Seq<Fixed>,
    first: int,
    count: int,
    i: int,
    radius: int,
    lo: int,
    hi: int,
)
    requires
        is_window(bars.len() as int, first, count, i, radius),
        forall|j: int| first <= j < first + count ==> lo <= #[trigger] bars[j].raw <= hi,
    ensures
        lo * weight_mass(first, count, i, radius) <= term_mass(bars, first, count, i, radius),
        term_mass(bars, first, count, i, radius) <= hi * weight_mass(first, count, i, radius),
    decreases count,
{
    if count > 0 {
        lemma_mass_between(bars, first, count - 1, i, radius, lo, hi);
        let w = radius + 1 - vstd::math::abs(first + count - 1 - i);
        let b = bars[first + count - 1].raw;
        let before = weight_mass(first, count - 1, i, radius);
        assert(lo * w <= b * w <= hi * w) by (nonlinear_arith)
            requires
                lo <= b <= hi,
                w >= 0,
        ;
        assert(lo * (before + w) == lo * before + lo * w) by (nonlinear_arith);
        assert(hi * (before + w) == hi * before + hi * w) by (nonlinear_arith);
    } else {
        assert(lo * 0 == 0) by (nonlinear_arith);
        assert(hi * 0 == 0) by (nonlinear_arith);
    }
}

/// A smoothed bar is no lower than the lowest and no higher than the highest bar of
/// its window, as long as the weighted sums fit into a fixed-point number.
pub proof fn law_smoothing_stays_between(
    bars: Seq<Fixed>,
    i: int,
    radius: usize,
    reach: usize,
    lo: int,
    hi: int,
)
    requires
        0 <= i < bars.len(),
        reach <= radius,
        sums_fit(bars, i, radius, reach),
        forall|j: int|
            window_start(i, reach as int) <= j <= window_end(i, reach as int, bars.len() as int)
                ==> lo <= #[trigger] bars[j].raw <= hi,
    ensures
        lo <= spec_smoothed(bars, i, radius, reach).raw <= hi,
{
    let first = window_start(i, reach as int);
    let count = window_count(i, reach as int, bars.len() as int);
    lemma_smoothed_value(bars, i, radius, reach);
    lemma_mass_between(bars, first, count, i, radius as int, lo, hi);
    lemma_quotient_between(
        term_mass(bars, first, count, i, radius as int),
        weight_mass(first, count, i, radius as int),
        lo,
        hi,
    );
}

/// A frame that lies in a range stays in it when smoothed, as long as the weighted
/// sums fit.
pub proof fn law_smoothed_frame_stays_between(
    bars: Seq<Fixed>,
    max_radius: usize,
    lo: int,
    hi: int,
)
    requires
        frame_fits(bars, max_radius),
        forall|j: int| 0 <= j < bars.len() ==> lo <= #[trigger] bars[j].raw <= hi,
    ensures
        spec_spatial_smooth(bars, max_radius).len() == bars.len(),
        forall|i: int|
            0 <= i < bars.len() ==> lo <= (#[trigger] spec_spatial_smooth(bars, max_radius)[i]).raw
                <= hi,
{
    if max_radius > 0 {
        assert forall|i: int| 0 <= i < bars.len() implies lo <= (#[trigger] spec_spatial_smooth(
            bars,
            max_radius,
        )[i]).raw <= hi by {
            let radius = spec_radius::<Fixed>(i as usize, bars.len() as usize, max_radius);
            let reach = spec_reach::<Fixed>(i as usize, bars.len() as usize, max_radius);
            assert(sums_fit(bars, i, radius, reach));
            law_smoothing_stays_between(bars, i, radius, reach, lo, hi);
        }
    }
}

/// All sums that smoothing a frame forms fit into a fixed-point number.
pub open spec fn frame_fits(bars: Seq<Fixed>, max_radius: usize) -> bool {
    forall|i: int|
        0 <= i < bars.len() ==> #[trigger] sums_fit(
            bars,
            i,
            spec_radius::<Fixed>(i as usize, bars.len() as usize, max_radius),
            spec_reach::<Fixed>(i as usize, bars.len() as usize, max_radius),
        )
}

/// Larger bars have the larger mass.
proof fn lemma_mass_monotone(
    a: Seq<Fixed>,
    b: Seq<Fixed>,
    first: int,
    count: int,
    i: int,
    radius: int,
)
    requires
        a.len() == b.len(),
        is_window(a.len() as int, first, count, i, radius),
        forall|j: int| first <= j < first + count ==> #[trigger] a[j].raw <= b[j].raw,
    ensures
        term_mass(a, first, count, i, radius) <= term_mass(b, first, count, i, radius),
    decreases count,
{
    if count > 0 {
        lemma_mass_monotone(a, b, first, count - 1, i, radius);
        let w = radius + 1 - vstd::math::abs(first + count - 1 - i);
        let x = a[first + count - 1].raw;
        let y = b[first + count - 1].raw;
        assert(x * w <= y * w) by (nonlinear_arith)
            requires
                x <= y,
                w >= 0,
        ;
    }
}

/// Smoothing keeps the order of two frames.
pub proof fn law_smoothing_keeps_order(
    a: Seq<Fixed>,
    b: Seq<Fixed>,
    i: int,
    radius: usize,
    reach: usize,
)
    requires
        a.len() == b.len(),
        0 <= i < a.len(),
        reach <= radius,
        sums_fit(a, i, radius, reach),
        sums_fit(b, i, radius, reach),
        forall|j: int| 0 <= j < a.len() ==> #[trigger] a[j].raw <= b[j].raw,
    ensures
        spec_smoothed(a, i, radius, reach).raw <= spec_smoothed(b, i, radius, reach).raw,
{
    let r = radius as int;
    let first = window_start(i, reach as int);
    let count = window_count(i, reach as int, a.len() as int);
    lemma_smoothed_value(a, i, radius, reach);
    lemma_smoothed_value(b, i, radius, reach);
    lemma_mass_monotone(a, b, first, count, i, r);
    lemma_quotient_monotone(
        term_mass(a, first, count, i, r),
        term_mass(b, first, count, i, r),
        weight_mass(first, count, i, r),
    );
}

/// In every arithmetic that keeps the order, smoothing keeps the order of two frames.
pub proof fn law_smoothed_frames_keep_order<S: Scalar>(
    a: Seq<S>,
    b: Seq<S>,
    max_radius: usize,
    i: int,
)
    requires
        total_order::<S>(),
        ordered_arithmetic::<S>(),
        a.len() == b.len(),
        0 <= i < a.len(),
        forall|j: int| 0 <= j < a.len() ==> (#[trigger] a[j]).spec_le(b[j]),
    ensures
        spec_spatial_smooth(a, max_radius)[i].spec_le(spec_spatial_smooth(b, max_radius)[i]),
{
    assert(a[i].spec_le(b[i]));
    if max_radius > 0 {
        let n = a.len() as usize;
        let radius = spec_radius::<S>(i as usize, n, max_radius);
        let reach = spec_reach::<S>(i as usize, n, max_radius);
        let first = window_start(i, reach as int);
        let count = window_count(i, reach as int, a.len() as int);
        let x = window_terms(a, first, count, i, radius);
        let y = window_terms(b, first, count, i, radius);
        assert forall|k: int| 0 <= k < x.len() implies (#[trigger] x[k]).spec_le(y[k]) by {
            let dist = vstd::math::abs(first + k - i) as int;
            let w = spec_weight::<S>(radius, dist);
            let free = S::spec_from_count(radius).spec_plus(spec_one()).spec_minus(
                S::spec_from_count(dist as usize),
            );
            S::lt_implies_le(free, free);
            assert(free.spec_lt(free) <==> !free.spec_le(free));
            lemma_max_keeps_order(free, free, spec_zero::<S>());
            assert(spec_zero::<S>().spec_le(w));
            assert(a[first + k].spec_le(b[first + k]));
        }
        lemma_total_keeps_order(x, y);
    }
}

/// The mass of a sum is the sum of the masses.
proof fn lemma_mass_adds(
    a: Seq<Fixed>,
    b: Seq<Fixed>,
    sum: Seq<Fixed>,
    first: int,
    count: int,
    i: int,
    radius: int,
)
    requires
        a.len() == b.len() == sum.len(),
        is_window(a.len() as int, first, count, i, radius),
        forall|j: int| 0 <= j < a.len() ==> #[trigger] sum[j].raw == a[j].raw + b[j].raw,
    ensures
        term_mass(sum, first, count, i, radius) == term_mass(a, first, count, i, radius)
            + term_mass(b, first, count, i, radius),
    decreases count,
{
    if count > 0 {
        lemma_mass_adds(a, b, sum, first, count - 1, i, radius);
        let w = radius + 1 - vstd::math::abs(first + count - 1 - i);
        let j = first + count - 1;
        assert(sum[j].raw == a[j].raw + b[j].raw);
        assert(sum[j].raw * w == a[j].raw * w + b[j].raw * w) by (nonlinear_arith)
            requires
                sum[j].raw == a[j].raw + b[j].raw,
        ;
    }
}

/// Smoothing a sum of two frames gives the sum of the smoothed frames, within one unit
/// of rounding.
pub proof fn law_smoothing_adds(
    a: Seq<Fixed>,
    b: Seq<Fixed>,
    sum: Seq<Fixed>,
    i: int,
    radius: usize,
    reach: usize,
)
    requires
        a.len() == b.len() == sum.len(),
        0 <= i < a.len(),
        reach <= radius,
        sums_fit(a, i, radius, reach),
        sums_fit(b, i, radius, reach),
        sums_fit(sum, i, radius, reach),
        forall|j: int| 0 <= j < a.len() ==> #[trigger] sum[j].raw == a[j].raw + b[j].raw,
    ensures
        -1 <= spec_smoothed(sum, i, radius, reach).raw - (spec_smoothed(a, i, radius, reach).raw
            + spec_smoothed(b, i, radius, reach).raw) <= 1,
{
    let r = radius as int;
    let first = window_start(i, reach as int);
    let count = window_count(i, reach as int, a.len() as int);
    lemma_smoothed_value(a, i, radius, reach);
    lemma_smoothed_value(b, i, radius, reach);
    lemma_smoothed_value(sum, i, radius, reach);
    lemma_mass_adds(a, b, sum, first, count, i, r);
    lemma_quotient_adds(
        term_mass(a, first, count, i, r),
        term_mass(b, first, count, i, r),
        weight_mass(first, count, i, r),
    );
}

/// The mass of a scaled frame is the scaled mass, within one unit per weight.
proof fn lemma_mass_scales(
    a: Seq<Fixed>,
    scaled: Seq<Fixed>,
    c: int,
    first: int,
    count: int,
    i: int,
    radius: int,
)
    requires
        a.len() == scaled.len(),
        is_window(a.len() as int, first, count, i, radius),
        forall|j: int|
            0 <= j < a.len() ==> #[trigger] scaled[j].raw == truncated_quotient(
                a[j].raw * c,
                0x1_0000_0000,
            ),
    ensures
        vstd::math::abs(
            0x1_0000_0000 * term_mass(scaled, first, count, i, radius) - c * term_mass(
                a,
                first,
                count,
                i,
                radius,
            ),
        ) <= 0x1_0000_0000 * weight_mass(first, count, i, radius),
    decreases count,
{
    if count > 0 {
        lemma_mass_scales(a, scaled, c, first, count - 1, i, radius);
        let w = radius + 1 - vstd::math::abs(first + count - 1 - i);
        let j = first + count - 1;
        let x = a[j].raw as int;
        let y = scaled[j].raw as int;
        assert(scaled[j].raw == truncated_quotient(a[j].raw * c, 0x1_0000_0000));
        lemma_quotient_error(x * c, 0x1_0000_0000);
        let e = 0x1_0000_0000 * y - x * c;
        assert(-(0x1_0000_0000 * w) <= e * w <= 0x1_0000_0000 * w) by (nonlinear_arith)
            requires
                -0x1_0000_0000 <= e <= 0x1_0000_0000,
                w >= 0,
        ;
        let before = term_mass(a, first, count - 1, i, radius);
        assert(e * w == 0x1_0000_0000 * (y * w) - c * (x * w)) by (nonlinear_arith)
            requires
                e == 0x1_0000_0000 * y - x * c,
        ;
        assert(c * (before + x * w) == c * before + c * (x * w)) by (nonlinear_arith);
    } else {
        assert(c * 0 == 0) by (nonlinear_arith);
    }
}

/// Smoothing a scaled frame scales the smoothed frame, within three units of rounding
/// and one for each whole unit of the factor.
pub proof fn law_smoothing_scales(
    a: Seq<Fixed>,
    scaled: Seq<Fixed>,
    c: Fixed,
    i: int,
    radius: usize,
    reach: usize,
)
    requires
        a.len() == scaled.len(),
        0 <= i < a.len(),
        reach <= radius,
        sums_fit(a, i, radius, reach),
        sums_fit(scaled, i, radius, reach),
        forall|j: int|
            0 <= j < a.len() ==> #[trigger] scaled[j].raw == truncated_quotient(
                a[j].raw * c.raw,
                0x1_0000_0000,
            ),
    ensures
        ({
            let direct = spec_smoothed(scaled, i, radius, reach).raw;
            let after = truncated_quotient(
                spec_smoothed(a, i, radius, reach).raw * c.raw,
                0x1_0000_0000,
            );
            0x1_0000_0000 * vstd::math::abs(direct - after) <= 3 * 0x1_0000_0000 + vstd::math::abs(
                c.raw as int,
            )
        }),
{
    let one = 0x1_0000_0000int;
    let r = radius as int;
    let first = window_start(i, reach as int);
    let count = window_count(i, reach as int, a.len() as int);
    lemma_smoothed_value(a, i, radius, reach);
    lemma_smoothed_value(scaled, i, radius, reach);
    lemma_mass_scales(a, scaled, c.raw as int, first, count, i, r);
    let w = weight_mass(first, count, i, r);
    let ta = term_mass(a, first, count, i, r);
    let tb = term_mass(scaled, first, count, i, r);
    let sa = spec_smoothed(a, i, radius, reach).raw as int;
    let sb = spec_smoothed(scaled, i, radius, reach).raw as int;
    let k = c.raw as int;
    let p = truncated_quotient(sa * k, one);
    lemma_quotient_error(ta, w);
    lemma_quotient_error(tb, w);
    lemma_quotient_error(sa * k, one);
    lemma_scale_chain(one, w, ta, tb, sa, sb, k, p);
}

/// The arithmetic of [`law_smoothing_scales`].
proof fn lemma_scale_chain(one: int, w: int, ta: int, tb: int, sa: int, sb: int, k: int, p: int)
    requires
        one > 0,
        w > 0,
        -w <= w * sa - ta <= w,
        -w <= w * sb - tb <= w,
        -(one * w) <= one * tb - k * ta <= one * w,
        -one <= one * p - sa * k <= one,
    ensures
        one * vstd::math::abs(sb - p) <= 3 * one + vstd::math::abs(k),
{
    let size = vstd::math::abs(k) as int;
    let ea = w * sa - ta;
    let eb = w * sb - tb;
    let ep = one * p - sa * k;
    assert(-(size * w) <= k * ea <= size * w) by (nonlinear_arith)
        requires
            -w <= ea <= w,
            size == vstd::math::abs(k),
            w > 0,
    ;
    assert(-(one * w) <= one * eb <= one * w) by (nonlinear_arith)
        requires
            -w <= eb <= w,
            one > 0,
    ;
    assert(-(one * w) <= w * ep <= one * w) by (nonlinear_arith)
        requires
            -one <= ep <= one,
            w > 0,
    ;
    assert(one * eb == one * (w * sb) - one * tb) by (nonlinear_arith)
        requires
            eb == w * sb - tb,
    ;
    assert(k * ea == k * (w * sa) - k * ta) by (nonlinear_arith)
        requires
            ea == w * sa - ta,
    ;
    assert(w * ep == one * (w * p) - k * (w * sa)) by (nonlinear_arith)
        requires
            ep == one * p - sa * k,
    ;
    let gap = one * (w * sb) - one * (w * p);
    assert(-(3 * (one * w) + size * w) <= gap <= 3 * (one * w) + size * w);
    assert(gap == w * (one * (sb - p))) by (nonlinear_arith)
        requires
            gap == one * (w * sb) - one * (w * p),
    ;
    assert(3 * (one * w) + size * w == w * (3 * one + size)) by (nonlinear_arith);
    let d = one * (sb - p);
    assert(-(3 * one + size) <= d <= 3 * one + size) by (nonlinear_arith)
        requires
            w > 0,
            -(w * (3 * one + size)) <= w * d <= w * (3 * one + size),
    ;
    assert(one * vstd::math::abs(sb - p) == vstd::math::abs(d)) by (nonlinear_arith)
        requires
            one > 0,
            d == one * (sb - p),
    ;
}

/// The reach is the smaller of the radius and `max_radius`.
pub proof fn law_reach_is_bounded_radius<S: Scalar>(i: usize, n: usize, max_radius: usize)
    ensures
        spec_reach::<S>(i, n, max_radius) <= spec_radius::<S>(i, n, max_radius),
        spec_reach::<S>(i, n, max_radius) <= max_radius,
        spec_reach::<S>(i, n, max_radius) == spec_radius::<S>(i, n, max_radius) || spec_reach::<S>(
            i,
            n,
            max_radius,
        ) == max_radius,
{
}

/// The radius grows in proportion to a bar's place: less one, it is the whole number
/// nearest to `max_radius * i / (n - 1)`, but for what rounding may move a half. Bars
/// in the lowest part of the range, where that is below a half, are mixed with no more
/// than their nearest neighbours.
pub proof fn law_radius_is_proportional(i: usize, n: usize, max_radius: usize)
    requires
        2 <= n < 0x8000_0000,
        i < n,
        max_radius < 0x7fff_ffff,
    ensures
        ({
            let gap = (spec_radius::<Fixed>(i, n, max_radius) - 1) * (n - 1) - max_radius * i;
            let slack = (n - 1) * (0x1_0000_0000 + 2 * max_radius);
            -slack <= 2 * (0x1_0000_0000 * gap) <= slack
        }),
        2 * (max_radius * i) < n - 1 ==> spec_radius::<Fixed>(i, n, max_radius) == 1 && spec_reach::<
            Fixed,
        >(i, n, max_radius) <= 1,
{
    let one = 0x1_0000_0000int;
    let d = n - 1;
    let m = max_radius as int;
    let place = Fixed::spec_from_count(i);
    let whole = spec_max(Fixed::spec_from_count(n).spec_minus(spec_one()), spec_one::<Fixed>());
    assert(place.raw == i * one);
    assert(whole.raw == d * one);
    let t = spec_position::<Fixed>(i, n).raw as int;
    lemma_quotient_cancels(i * one, d);
    lemma_quotient_bounds(i * one, d);
    lemma_quotient_between_shares(i as int, d);
    assert(t == truncated_quotient(i * one, d));
    assert(0 <= t <= one);
    let count = Fixed::spec_from_count(max_radius);
    let p = m * t;
    assert(0 <= p <= m * one) by (nonlinear_arith)
        requires
            0 <= t <= one,
            0 <= m,
            p == m * t,
    ;
    assert(t * m == p) by (nonlinear_arith)
        requires
            p == m * t,
    ;
    lemma_times_whole(spec_position::<Fixed>(i, n), m);
    lemma_times_commutes(count, spec_position::<Fixed>(i, n));
    let product = count.spec_times(spec_position::<Fixed>(i, n));
    assert(product.raw == p);
    law_counts_are_whole_parts(product);
    let extra = product.spec_round_count() as int;
    lemma_radius_chain(one, d, m, i as int, t, p, extra);
    assert(extra <= m + 1);
    assert(spec_radius::<Fixed>(i, n, max_radius) == extra + 1);
}

/// A place of at most the whole is a share of at most one.
proof fn lemma_quotient_between_shares(i: int, d: int)
    requires
        0 <= i <= d,
        0 < d,
    ensures
        0 <= truncated_quotient(i * 0x1_0000_0000, d) <= 0x1_0000_0000,
{
    assert(0 * d <= i * 0x1_0000_0000 <= 0x1_0000_0000 * d) by (nonlinear_arith)
        requires
            0 <= i <= d,
    ;
    lemma_quotient_between(i * 0x1_0000_0000, d, 0, 0x1_0000_0000);
}

/// The arithmetic of [`law_radius_is_proportional`].
proof fn lemma_radius_chain(one: int, d: int, m: int, i: int, t: int, p: int, extra: int)
    requires
        one == 0x1_0000_0000,
        0 < d,
        0 <= m,
        0 <= i,
        0 <= t <= one,
        p == m * t,
        0 <= p <= m * one,
        d * t <= i * one < d * t + d,
        -one < 2 * (p - extra * one) + 1 <= one,
        0 <= extra,
    ensures
        -(d * (one + 2 * m)) <= 2 * (one * (extra * d - m * i)) <= d * (one + 2 * m),
        2 * (m * i) < d ==> extra == 0,
        extra <= m + 1,
{
    let mi = m * i;
    assert(d * p <= mi * one <= d * p + m * d) by (nonlinear_arith)
        requires
            0 <= m,
            d * t <= i * one < d * t + d,
            p == m * t,
            mi == m * i,
    ;
    let e = extra * one - p;
    assert(-one <= 2 * e <= one);
    assert(-(d * one) <= 2 * (d * e) <= d * one) by (nonlinear_arith)
        requires
            0 < d,
            -one <= 2 * e <= one,
    ;
    assert(d * e == one * (extra * d) - d * p) by (nonlinear_arith)
        requires
            e == extra * one - p,
    ;
    assert(one * (extra * d - mi) == one * (extra * d) - mi * one) by (nonlinear_arith);
    assert(d * (one + 2 * m) == d * one + 2 * (m * d)) by (nonlinear_arith);
    assert(0 <= m * d) by (nonlinear_arith)
        requires
            0 <= m,
            0 < d,
    ;
    if 2 * mi < d {
        assert(2 * p < one) by (nonlinear_arith)
            requires
                0 < d,
                d * p <= mi * one,
                2 * mi < d,
                0 < one,
        ;
    }
}

/// How much bar `j` counts for bar `i`: the more the nearer, and nothing past the reach.
pub open spec fn pull(i: int, j: int, radius: int, reach: int) -> int {
    let dist = if i <= j {
        j - i
    } else {
        i - j
    };
    if dist <= reach {
        radius + 1 - dist
    } else {
        0
    }
}

/// What the first `count` bars count for bar `i`.
pub open spec fn pull_sum(i: int, radius: int, reach: int, count: int) -> int
    decreases count,
{
    if count <= 0 {
        0
    } else {
        pull_sum(i, radius, reach, count - 1) + pull(i, count - 1, radius, reach)
    }
}

/// What the first `count` bars add up to, each times what it counts for bar `i`.
pub open spec fn pulled_sum(bars: Seq<Fixed>, i: int, radius: int, reach: int, count: int) -> int
    decreases count,
{
    if count <= 0 {
        0
    } else {
        pulled_sum(bars, i, radius, reach, count - 1) + bars[count - 1].raw * pull(
            i,
            count - 1,
            radius,
            reach,
        )
    }
}

/// The sums over all bars are those over the window.
proof fn lemma_pulls(bars: Seq<Fixed>, i: int, radius: int, reach: int, count: int)
    requires
        0 <= i < bars.len(),
        0 <= reach <= radius,
        0 <= count <= bars.len(),
    ensures
        ({
            let first = window_start(i, reach);
            let whole = window_count(i, reach, bars.len() as int);
            let seen = if count <= first {
                0
            } else if count <= first + whole {
                count - first
            } else {
                whole
            };
            &&& pull_sum(i, radius, reach, count) == weight_mass(first, seen, i, radius)
            &&& pulled_sum(bars, i, radius, reach, count) == term_mass(
                bars,
                first,
                seen,
                i,
                radius,
            )
        }),
    decreases count,
{
    if count > 0 {
        lemma_pulls(bars, i, radius, reach, count - 1);
        let first = window_start(i, reach);
        let whole = window_count(i, reach, bars.len() as int);
        let j = count - 1;
        let p = pull(i, j, radius, reach);
        if first <= j < first + whole {
            assert(p == radius + 1 - vstd::math::abs(j - i));
            assert(first + (count - first) - 1 == j);
        } else {
            assert(p == 0);
            assert(bars[j].raw * 0 == 0) by (nonlinear_arith);
        }
    }
}

/// A smoothed bar is the mean of the bars, weighed by how much each counts for it: times
/// what all of them count, it is what they add up to, but for less than one unit of
/// each.
pub proof fn law_smoothed_is_weighted_mean(bars: Seq<Fixed>, max_radius: usize, i: int)
    requires
        0 <= i < bars.len() < 0x8000_0000,
        max_radius > 0 ==> sums_fit(
            bars,
            i,
            spec_radius::<Fixed>(i as usize, bars.len() as usize, max_radius),
            spec_reach::<Fixed>(i as usize, bars.len() as usize, max_radius),
        ),
    ensures
        spec_spatial_smooth(bars, max_radius).len() == bars.len(),
        max_radius == 0 ==> spec_spatial_smooth(bars, max_radius)[i] == bars[i],
        max_radius > 0 ==> {
            let n = bars.len() as int;
            let radius = spec_radius::<Fixed>(i as usize, n as usize, max_radius) as int;
            let reach = spec_reach::<Fixed>(i as usize, n as usize, max_radius) as int;
            let out = spec_spatial_smooth(bars, max_radius)[i].raw;
            let w = pull_sum(i, radius, reach, n);
            &&& 0 < w
            &&& -w < w * out - pulled_sum(bars, i, radius, reach, n) < w
        },
{
    if max_radius > 0 {
        let n = bars.len() as int;
        let radius = spec_radius::<Fixed>(i as usize, n as usize, max_radius);
        let reach = spec_reach::<Fixed>(i as usize, n as usize, max_radius);
        lemma_smoothed_value(bars, i, radius, reach);
        lemma_pulls(bars, i, radius as int, reach as int, n);
        lemma_quotient_error(
            pulled_sum(bars, i, radius as int, reach as int, n),
            pull_sum(i, radius as int, reach as int, n),
        );
    }
}

/// How far along the bars a bar lies, in whole numbers.
pub proof fn law_position_is_proportional(i: usize, n: usize)
    requires
        2 <= n < 0x8000_0000,
        i < n,
    ensures
        ({
            let t = spec_position::<Fixed>(i, n).raw;
            (n - 1) * t <= i * 0x1_0000_0000 < (n - 1) * (t + 1)
        }),
{
    let one = 0x1_0000_0000int;
    let d = n - 1;
    let whole = spec_max(Fixed::spec_from_count(n).spec_minus(spec_one()), spec_one::<Fixed>());
    assert(Fixed::spec_from_count(i).raw == i * one);
    assert(whole.raw == d * one);
    lemma_quotient_cancels(i * one, d);
    lemma_quotient_bounds(i * one, d);
    lemma_quotient_between_shares(i as int, d);
    let t = spec_position::<Fixed>(i, n).raw as int;
    assert(d * (t + 1) == d * t + d) by (nonlinear_arith);
}

} // verus!
