//! How bars move, in whole numbers.

use vstd::prelude::*;

use crate::bars::{gravity_at, law_louder_falls_harder, risen, spec_base_gravity, BarState};
use crate::fixed::{
    lemma_one_is_neutral, lemma_quotient_between, lemma_quotient_bounds, lemma_quotient_exact,
    lemma_quotient_monotone, truncated_quotient, Fixed,
};
use crate::fixed_laws::{law_fractions, law_product_is_near, law_share_is_near};
use crate::scalar::{spec_clamp, spec_one, spec_ratio, spec_zero, Scalar};
use crate::smooth::{law_position_is_proportional, spec_position};

verus! {

/// A bar whose parts are as [`BarState::new`] sets them up and frames keep them.
pub open spec fn sound_bar(bars: BarState<Fixed>, i: int) -> bool {
    &&& 0 <= bars.value@[i].raw
    &&& 0 <= bars.velocity@[i].raw
    &&& 0 <= bars.attack@[i].raw <= 0x1_0000_0000
    &&& 0 <= bars.base_gravity@[i].raw
    &&& 0 <= bars.gravity_db_scale.raw
    &&& 0 < bars.bar_max.raw
}

/// A product with what is not negative, where it fits.
proof fn lemma_product(x: Fixed, y: Fixed)
    requires
        0 <= x.raw,
        0 <= y.raw,
        x.raw * y.raw <= i64::MAX * 0x1_0000_0000,
    ensures
        0 <= x.spec_times(y).raw,
        0x1_0000_0000 * x.spec_times(y).raw <= x.raw * y.raw,
        x.raw * y.raw < 0x1_0000_0000 * (x.spec_times(y).raw + 1),
{
    assert(0 <= x.raw * y.raw) by (nonlinear_arith)
        requires
            0 <= x.raw,
            0 <= y.raw,
    ;
    law_product_is_near(x, y);
}

/// A number times one and a boost, where the boost is `scale` times a share that is `s`
/// parts in `b` but for less than one unit.
proof fn lemma_boosted(base: Fixed, scale: Fixed, share: Fixed, s: int, b: int)
    requires
        0 <= base.raw,
        0 <= scale.raw,
        0 <= share.raw <= 0x1_0000_0000,
        0 < b,
        b * share.raw <= s * 0x1_0000_0000 < b * (share.raw + 1),
        base.raw * (0x1_0000_0000 + scale.raw) <= i64::MAX * 0x1_0000_0000,
        0x1_0000_0000 + scale.raw <= i64::MAX,
    ensures
        ({
            let one = 0x1_0000_0000int;
            let g = base.spec_times(spec_one::<Fixed>().spec_plus(scale.spec_times(share))).raw;
            let exact = base.raw * (one * b + scale.raw * s);
            &&& 0 <= g
            &&& one * (b * g) <= exact
            &&& one * exact <= (one * one) * (b * (g + 1)) + base.raw * (b * (scale.raw + one))
        }),
{
    let one = 0x1_0000_0000int;
    law_share_is_near(scale, share);
    let sl = scale.spec_times(share);
    let l = share.raw as int;
    let c = scale.raw as int;
    let cl = c * l;
    assert(0 <= cl <= c * one) by (nonlinear_arith)
        requires
            0 <= c,
            0 <= l <= one,
            cl == c * l,
    ;
    lemma_product(scale, share);
    let f = spec_one::<Fixed>().spec_plus(sl);
    assert(spec_one::<Fixed>().raw == one);
    assert(f.raw == one + sl.raw);
    let v = base.raw as int;
    assert(v * f.raw <= v * (one + c)) by (nonlinear_arith)
        requires
            0 <= v,
            f.raw <= one + c,
    ;
    lemma_product(base, f);
    let g = base.spec_times(f).raw as int;
    lemma_boost_chain(one, v, c, l, s, b, sl.raw as int, g);
}

/// The arithmetic of [`lemma_boosted`].
proof fn lemma_boost_chain(one: int, v: int, c: int, l: int, s: int, b: int, sl: int, g: int)
    requires
        0 < one,
        0 <= v,
        0 <= c,
        0 <= l,
        0 < b,
        b * l <= s * one < b * (l + 1),
        one * sl <= c * l < one * (sl + 1),
        one * g <= v * (one + sl) < one * (g + 1),
    ensures
        one * (b * g) <= v * (one * b + c * s),
        one * (v * (one * b + c * s)) <= (one * one) * (b * (g + 1)) + v * (b * (c + one)),
{
    let cs = c * s;
    let bsl = b * sl;
    assert(one * bsl <= c * (b * l)) by (nonlinear_arith)
        requires
            0 < b,
            one * sl <= c * l,
            bsl == b * sl,
    ;
    assert(c * (b * l) <= one * cs) by (nonlinear_arith)
        requires
            0 <= c,
            b * l <= s * one,
            cs == c * s,
    ;
    assert(bsl <= cs) by (nonlinear_arith)
        requires
            0 < one,
            one * bsl <= one * cs,
    ;
    assert(b * (one * g) <= v * (one * b + bsl)) by (nonlinear_arith)
        requires
            0 < b,
            one * g <= v * (one + sl),
            bsl == b * sl,
    ;
    assert(v * (one * b + bsl) <= v * (one * b + cs)) by (nonlinear_arith)
        requires
            0 <= v,
            bsl <= cs,
    ;
    assert(b * (one * g) == one * (b * g)) by (nonlinear_arith);
    assert(one * cs <= c * (b * (l + 1))) by (nonlinear_arith)
        requires
            0 <= c,
            s * one < b * (l + 1),
            cs == c * s,
    ;
    assert(c * (b * (l + 1)) == b * (c * l) + b * c) by (nonlinear_arith);
    assert(b * (c * l) <= b * (one * (sl + 1))) by (nonlinear_arith)
        requires
            0 < b,
            c * l < one * (sl + 1),
    ;
    assert(b * (one * (sl + 1)) == one * bsl + b * one) by (nonlinear_arith)
        requires
            bsl == b * sl,
    ;
    assert(one * cs <= one * bsl + b * (c + one)) by (nonlinear_arith)
        requires
            one * cs <= b * (c * l) + b * c,
            b * (c * l) <= one * bsl + b * one,
    ;
    let bco = b * (c + one);
    assert(v * (one * cs) <= v * (one * bsl + bco)) by (nonlinear_arith)
        requires
            0 <= v,
            one * cs <= one * bsl + bco,
    ;
    assert(one * (v * (one * b + cs)) == one * (v * (one * b)) + v * (one * cs))
        by (nonlinear_arith);
    assert(v * (one * bsl + bco) == one * (v * bsl) + v * bco) by (nonlinear_arith);
    assert(one * (v * (one * b)) + one * (v * bsl) == one * (b * (v * (one + sl))))
        by (nonlinear_arith)
        requires
            bsl == b * sl,
    ;
    assert(b * (v * (one + sl)) <= b * (one * (g + 1))) by (nonlinear_arith)
        requires
            0 < b,
            v * (one + sl) < one * (g + 1),
    ;
    let x = b * (v * (one + sl));
    let y = b * (one * (g + 1));
    assert(one * x <= one * y) by (nonlinear_arith)
        requires
            0 < one,
            x <= y,
    ;
    assert(one * y == (one * one) * (b * (g + 1))) by (nonlinear_arith)
        requires
            y == b * (one * (g + 1)),
    ;
}

/// The loudness of a bar between zero and the full bar, in whole numbers.
proof fn lemma_loudness_share(s: Fixed, bar_max: Fixed)
    requires
        0 <= s.raw <= bar_max.raw,
        0 < bar_max.raw,
    ensures
        ({
            let share = spec_clamp(s.spec_over(bar_max), spec_zero(), spec_one::<Fixed>());
            let b = bar_max.raw;
            &&& 0 <= share.raw <= 0x1_0000_0000
            &&& b * share.raw <= s.raw * 0x1_0000_0000 < b * (share.raw + 1)
        }),
{
    let b = bar_max.raw as int;
    let x = s.raw * 0x1_0000_0000;
    assert(0 * b <= x <= 0x1_0000_0000 * b);
    lemma_quotient_between(x, b, 0, 0x1_0000_0000);
    lemma_quotient_bounds(x, b);
    let q = truncated_quotient(x, b);
    assert(b * (q + 1) == b * q + b) by (nonlinear_arith);
}

/// The gravity of a bar in whole numbers. At `s` of a full bar of `bar_max` it is the base
/// gravity times one and `db_scale * s / bar_max`, but for rounding; at the full bar and
/// above, times one and the whole scale.
pub proof fn law_gravity_in_numbers(s: Fixed, base: Fixed, db_scale: Fixed, bar_max: Fixed)
    requires
        0 <= s.raw,
        0 < bar_max.raw,
        0 <= base.raw,
        0 <= db_scale.raw,
        base.raw * (0x1_0000_0000 + db_scale.raw) <= i64::MAX * 0x1_0000_0000,
        0x1_0000_0000 + db_scale.raw <= i64::MAX,
    ensures
        ({
            let one = 0x1_0000_0000int;
            let g = gravity_at(s, base, db_scale, bar_max).raw;
            let b = bar_max.raw;
            let exact = base.raw * (one * b + db_scale.raw * s.raw);
            let full = base.raw * (one + db_scale.raw);
            &&& 0 <= g
            &&& s.raw <= b ==> one * (b * g) <= exact && one * exact <= (one * one) * (b * (g + 1))
                + base.raw * (b * (db_scale.raw + one))
            &&& s.raw >= b ==> one * g <= full < one * (g + 1)
        }),
{
    let one = 0x1_0000_0000int;
    if s.raw <= bar_max.raw {
        lemma_loudness_share(s, bar_max);
        lemma_boosted(
            base,
            db_scale,
            spec_clamp(s.spec_over(bar_max), spec_zero(), spec_one::<Fixed>()),
            s.raw as int,
            bar_max.raw as int,
        );
    }
    if s.raw >= bar_max.raw {
        let b = bar_max.raw as int;
        let x = s.raw * one;
        lemma_quotient_monotone(b * one, x, b);
        assert(b * one == one * b);
        lemma_quotient_exact(one, b);
        assert(spec_clamp(s.spec_over(bar_max), spec_zero(), spec_one::<Fixed>()).raw == one);
        assert(spec_clamp(s.spec_over(bar_max), spec_zero(), spec_one::<Fixed>())
            == spec_one::<Fixed>());
        lemma_one_is_neutral(db_scale);
        lemma_product(base, spec_one::<Fixed>().spec_plus(db_scale));
    }
}

/// The gravity of a bar depends on its value only relative to the full bar: both times
/// the same number leave it as it is.
pub proof fn law_gravity_is_relative(
    s: Fixed,
    larger: Fixed,
    bar_max: Fixed,
    larger_max: Fixed,
    k: int,
    base: Fixed,
    db_scale: Fixed,
)
    requires
        0 <= s.raw,
        0 < bar_max.raw,
        1 <= k,
        larger.raw == k * s.raw,
        larger_max.raw == k * bar_max.raw,
    ensures
        gravity_at(larger, base, db_scale, larger_max) == gravity_at(s, base, db_scale, bar_max),
{
    let a = s.raw * 0x1_0000_0000;
    let b = bar_max.raw as int;
    let ka = larger.raw * 0x1_0000_0000;
    let kb = larger_max.raw as int;
    assert(ka == k * a) by (nonlinear_arith)
        requires
            ka == larger.raw * 0x1_0000_0000,
            a == s.raw * 0x1_0000_0000,
            larger.raw == k * s.raw,
    ;
    assert(ka / kb == a / b) by (nonlinear_arith)
        requires
            ka == k * a,
            kb == k * b,
            0 < b,
            1 <= k,
            0 <= a,
    {
        vstd::arithmetic::div_mod::lemma_div_multiples_vanish_quotient(k, a, b);
    }
    assert(0 <= ka && 0 < kb) by (nonlinear_arith)
        requires
            ka == k * a,
            kb == k * b,
            0 < b,
            1 <= k,
            0 <= a,
    ;
}

/// The base gravity of a bar in whole numbers: that of the lowest times one and the part
/// of the boost that the bar's place has, but for rounding.
pub proof fn law_base_gravity_in_numbers(i: int, num_bars: usize, base: Fixed, boost: Fixed)
    requires
        2 <= num_bars < 0x8000_0000,
        0 <= i < num_bars,
        0 <= base.raw,
        0 <= boost.raw,
        base.raw * (0x1_0000_0000 + boost.raw) <= i64::MAX * 0x1_0000_0000,
        0x1_0000_0000 + boost.raw <= i64::MAX,
    ensures
        ({
            let one = 0x1_0000_0000int;
            let g = spec_base_gravity(i, num_bars, base, boost).raw;
            let d = num_bars - 1;
            let exact = base.raw * (one * d + boost.raw * i);
            &&& one * (d * g) <= exact
            &&& one * exact <= (one * one) * (d * (g + 1)) + base.raw * (d * (boost.raw + one))
        }),
{
    let d = num_bars - 1;
    let t = spec_position::<Fixed>(i as usize, num_bars);
    law_position_is_proportional(i as usize, num_bars);
    let p = t.raw as int;
    assert(p <= 0x1_0000_0000) by (nonlinear_arith)
        requires
            d * p <= i * 0x1_0000_0000,
            0 <= i <= d,
            0 < d,
    ;
    assert(0 <= p) by (nonlinear_arith)
        requires
            i * 0x1_0000_0000 < d * (p + 1),
            0 <= i,
            0 < d,
    ;
    lemma_boosted(base, boost, t, i, d);
}

/// A rising bar goes the part of the way that the attack says, but for less than one
/// unit.
pub proof fn law_rise_in_numbers(s: Fixed, n: Fixed, attack: Fixed)
    requires
        0 <= s.raw <= n.raw,
        0 <= attack.raw <= 0x1_0000_0000,
    ensures
        ({
            let way = risen(s, n, attack).raw - s.raw;
            0x1_0000_0000 * way <= (n.raw - s.raw) * attack.raw < 0x1_0000_0000 * (way + 1)
        }),
{
    let way = n.spec_minus(s);
    assert(way.raw == n.raw - s.raw);
    law_share_is_near(way, attack);
    let p = way.raw * attack.raw;
    assert(0 <= p) by (nonlinear_arith)
        requires
            0 <= way.raw,
            0 <= attack.raw,
            p == way.raw * attack.raw,
    ;
    lemma_share(way, attack);
}

/// A share of what is not negative, rounded down.
proof fn lemma_share(x: Fixed, share: Fixed)
    requires
        0 <= x.raw,
        0 <= share.raw <= 0x1_0000_0000,
    ensures
        0 <= x.spec_times(share).raw <= x.raw,
        0x1_0000_0000 * x.spec_times(share).raw <= x.raw * share.raw,
        x.raw * share.raw < 0x1_0000_0000 * (x.spec_times(share).raw + 1),
{
    let p = x.raw * share.raw;
    assert(0 <= p <= x.raw * 0x1_0000_0000) by (nonlinear_arith)
        requires
            0 <= x.raw,
            0 <= share.raw <= 0x1_0000_0000,
            p == x.raw * share.raw,
    ;
    lemma_product(x, share);
}

/// How a frame moves each bar, and that it changes nothing else. A bar at or below its
/// level goes up the part of the way that its attack says and comes to rest. One above
/// drops by its velocity and its own gravity at its own loudness, and keeps that as its
/// velocity; where that would take it to its level or past, it is at rest there.
pub proof fn law_bar_moves(
    before: BarState<Fixed>,
    after: BarState<Fixed>,
    new: Seq<Fixed>,
    i: int,
)
    requires
        before.wf(),
        after.follows(before, new),
        before.value.len() <= new.len(),
        0 <= i < before.value.len(),
        sound_bar(before, i),
        0 <= new[i].raw,
    ensures
        after.value.len() == before.value.len(),
        after.velocity.len() == before.value.len(),
        after.attack@ == before.attack@,
        after.base_gravity@ == before.base_gravity@,
        after.gravity_db_scale == before.gravity_db_scale,
        after.bar_max == before.bar_max,
        ({
            let s = before.value@[i].raw;
            let n = new[i].raw;
            let way = after.value@[i].raw - s;
            s <= n ==> {
                &&& after.velocity@[i].raw == 0
                &&& 0x1_0000_0000 * way <= (n - s) * before.attack@[i].raw < 0x1_0000_0000 * (way
                    + 1)
            }
        }),
        ({
            let s = before.value@[i].raw;
            let n = new[i].raw;
            let g = gravity_at(
                before.value@[i],
                before.base_gravity@[i],
                before.gravity_db_scale,
                before.bar_max,
            ).raw;
            let speed = before.velocity@[i].raw + g;
            s > n && s - speed > n ==> {
                &&& after.velocity@[i].raw == speed
                &&& after.value@[i].raw == s - speed
            }
        }),
        ({
            let s = before.value@[i].raw;
            let n = new[i].raw;
            let g = gravity_at(
                before.value@[i],
                before.base_gravity@[i],
                before.gravity_db_scale,
                before.bar_max,
            ).raw;
            let speed = before.velocity@[i].raw + g;
            s > n && s - speed <= n ==> {
                &&& after.velocity@[i].raw == 0
                &&& after.value@[i].raw == n
            }
        }),
{
    let s = before.value@[i];
    let n = new[i];
    assert(after.value@[i] == before.step_of(new, i).0);
    assert(after.velocity@[i] == before.step_of(new, i).1);
    if s.raw <= n.raw {
        law_rise_in_numbers(s, n, before.attack@[i]);
    } else {
        law_louder_falls_harder(
            s,
            s,
            before.base_gravity@[i],
            before.gravity_db_scale,
            before.bar_max,
        );
    }
}

/// No bar affects another: two frames of bars that agree at a bar, with levels that do,
/// agree there afterwards.
pub proof fn law_bars_do_not_affect_each_other<S: Scalar>(
    before_a: BarState<S>,
    before_b: BarState<S>,
    after_a: BarState<S>,
    after_b: BarState<S>,
    new_a: Seq<S>,
    new_b: Seq<S>,
    i: int,
)
    requires
        after_a.follows(before_a, new_a),
        after_b.follows(before_b, new_b),
        0 <= i < before_a.value.len(),
        i < before_b.value.len(),
        before_a.value@[i] == before_b.value@[i],
        before_a.velocity@[i] == before_b.velocity@[i],
        before_a.attack@[i] == before_b.attack@[i],
        before_a.base_gravity@[i] == before_b.base_gravity@[i],
        before_a.gravity_db_scale == before_b.gravity_db_scale,
        before_a.bar_max == before_b.bar_max,
        new_a[i] == new_b[i],
    ensures
        after_a.value@[i] == after_b.value@[i],
        after_a.velocity@[i] == after_b.velocity@[i],
{
    assert(after_a.value@[i] == before_a.step_of(new_a, i).0);
    assert(after_b.value@[i] == before_b.step_of(new_b, i).0);
    assert(after_a.velocity@[i] == before_a.step_of(new_a, i).1);
    assert(after_b.velocity@[i] == before_b.step_of(new_b, i).1);
}

/// How new bars are set up, in whole numbers: at rest at the floor, with the attack
/// brought between zero and one, no gravity below zero, a scale of zero or more and a
/// full bar of a millionth or more.
pub proof fn law_new_bars(
    bars: BarState<Fixed>,
    num_bars: usize,
    floor: Fixed,
    base_attack: Fixed,
    base_gravity: Fixed,
    gravity_high_boost: Fixed,
    gravity_db_scale: Fixed,
    bar_max: Fixed,
    i: int,
)
    requires
        bars.is_new(
            num_bars,
            floor,
            base_attack,
            base_gravity,
            gravity_high_boost,
            gravity_db_scale,
            bar_max,
        ),
        0 <= i < num_bars,
    ensures
        bars.value.len() == num_bars,
        bars.velocity.len() == num_bars,
        bars.attack.len() == num_bars,
        bars.base_gravity.len() == num_bars,
        bars.value@[i] == floor,
        bars.velocity@[i].raw == 0,
        0 <= base_attack.raw <= 0x1_0000_0000 ==> bars.attack@[i] == base_attack,
        base_attack.raw <= 0 ==> bars.attack@[i].raw == 0,
        base_attack.raw >= 0x1_0000_0000 ==> bars.attack@[i].raw == 0x1_0000_0000,
        bars.base_gravity@[i] == spec_base_gravity(i, num_bars, base_gravity, gravity_high_boost),
        0 <= bars.base_gravity@[i].raw,
        gravity_db_scale.raw >= 0 ==> bars.gravity_db_scale == gravity_db_scale,
        gravity_db_scale.raw <= 0 ==> bars.gravity_db_scale.raw == 0,
        bar_max.raw >= 0x1_0000_0000int / 1_000_000 ==> bars.bar_max == bar_max,
        bar_max.raw <= 0x1_0000_0000int / 1_000_000 ==> bars.bar_max.raw == 0x1_0000_0000int
            / 1_000_000,
{
    law_fractions(1, 1_000_000);
    assert(spec_ratio::<Fixed>(1, 1_000_000).raw == 0x1_0000_0000int / 1_000_000);
}

} // verus!
