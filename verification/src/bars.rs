//! The bars that are drawn: a quick rise and a fall under gravity.
//!
//! A bar rises toward a higher level by a fixed share of the way. It falls like a
//! thrown object: gravity adds to its velocity every frame, the velocity takes away
//! from its value, and once it reaches the level it rests there. Gravity is stronger
//! for higher bands, and for louder bars.

use vstd::prelude::*;

use crate::fixed::{
    lemma_one_is_neutral, lemma_over_monotone, lemma_over_self, lemma_times_commutes,
    lemma_times_monotone, lemma_times_share, lemma_zero_absorbs, Fixed, ONE,
};
use crate::scalar::{
    clamp, filled, lemma_lt_irreflexive, max_of, one, ratio, spec_clamp, spec_max, spec_one,
    spec_ratio, spec_zero, zero, Scalar,
};
use crate::smooth::{position, spec_position};

verus! {

/// The bars and how they move.
pub struct BarState<S> {
    pub value: Vec<S>,
    pub velocity: Vec<S>,
    pub attack: Vec<S>,
    /// The gravity of each bar before its loudness counts.
    pub base_gravity: Vec<S>,
    /// How much loudness adds to gravity.
    pub gravity_db_scale: S,
    pub bar_max: S,
}

/// A bar that rises from `s` to a level `n` at or above it.
pub open spec fn risen<S: Scalar>(s: S, n: S, attack: S) -> S {
    s.spec_plus(n.spec_minus(s).spec_times(attack))
}

/// The gravity that a bar at `s` falls under.
pub open spec fn gravity_at<S: Scalar>(s: S, base_gravity: S, db_scale: S, bar_max: S) -> S {
    let loudness = spec_clamp(s.spec_over(bar_max), spec_zero(), spec_one());
    base_gravity.spec_times(spec_one::<S>().spec_plus(db_scale.spec_times(loudness)))
}

/// Value and velocity of a bar that falls from `s` toward a level `n` below it.
pub open spec fn fallen<S: Scalar>(s: S, n: S, velocity: S, gravity: S) -> (S, S) {
    let faster = velocity.spec_plus(gravity);
    let v = s.spec_minus(faster);
    if v.spec_le(n) {
        (n, spec_zero())
    } else {
        (v, faster)
    }
}

/// Value and velocity of a bar after a frame with the level `n`.
pub open spec fn spec_bar_step<S: Scalar>(
    s: S,
    velocity: S,
    n: S,
    attack: S,
    base_gravity: S,
    db_scale: S,
    bar_max: S,
) -> (S, S) {
    if s.spec_le(n) {
        (risen(s, n, attack), spec_zero())
    } else {
        fallen(s, n, velocity, gravity_at(s, base_gravity, db_scale, bar_max))
    }
}

/// The base gravity of bar `i` of `num_bars`.
pub open spec fn spec_base_gravity<S: Scalar>(i: int, num_bars: usize, base: S, high_boost: S) -> S {
    let t = spec_position::<S>(
        i as usize,
        if num_bars == 0 {
            1
        } else {
            num_bars
        },
    );
    spec_max(
        base.spec_times(spec_one::<S>().spec_plus(high_boost.spec_times(t))),
        spec_zero(),
    )
}

impl<S: Scalar> BarState<S> {
    /// There is one entry of each kind for each bar.
    pub open spec fn wf(self) -> bool {
        &&& self.velocity.len() == self.value.len()
        &&& self.attack.len() == self.value.len()
        &&& self.base_gravity.len() == self.value.len()
    }

    /// The bars rest at `floor`; the attack lies within `0..=1`, no gravity is
    /// negative, and the full bar is at least a millionth.
    pub open spec fn is_new(
        self,
        num_bars: usize,
        floor: S,
        base_attack: S,
        base_gravity: S,
        gravity_high_boost: S,
        gravity_db_scale: S,
        bar_max: S,
    ) -> bool {
        &&& self.value@ == Seq::new(num_bars as nat, |i: int| floor)
        &&& self.velocity@ == Seq::new(num_bars as nat, |i: int| spec_zero::<S>())
        &&& self.attack@ == Seq::new(
            num_bars as nat,
            |i: int| spec_clamp(base_attack, spec_zero(), spec_one()),
        )
        &&& self.base_gravity@ == Seq::new(
            num_bars as nat,
            |i: int| spec_base_gravity(i, num_bars, base_gravity, gravity_high_boost),
        )
        &&& self.gravity_db_scale == spec_max(gravity_db_scale, spec_zero())
        &&& self.bar_max == spec_max(bar_max, spec_ratio(1, 1_000_000))
    }

    /// Value and velocity of bar `i` after a frame with the levels `new`.
    pub open spec fn step_of(self, new: Seq<S>, i: int) -> (S, S) {
        spec_bar_step(
            self.value@[i],
            self.velocity@[i],
            new[i],
            self.attack@[i],
            self.base_gravity@[i],
            self.gravity_db_scale,
            self.bar_max,
        )
    }

    /// Whether this is what a frame with the levels `new` makes of `before`.
    pub open spec fn follows(self, before: Self, new: Seq<S>) -> bool {
        &&& self.value@ == Seq::new(before.value@.len(), |i: int| before.step_of(new, i).0)
        &&& self.velocity@ == Seq::new(before.value@.len(), |i: int| before.step_of(new, i).1)
        &&& self.attack@ == before.attack@
        &&& self.base_gravity@ == before.base_gravity@
        &&& self.gravity_db_scale == before.gravity_db_scale
        &&& self.bar_max == before.bar_max
    }

    /// Bars that rest at `floor`.
    pub fn new(
        num_bars: usize,
        floor: S,
        base_attack: S,
        base_gravity: S,
        gravity_high_boost: S,
        gravity_db_scale: S,
        bar_max: S,
    ) -> (bars: Self)
        ensures
            bars.wf(),
            bars.is_new(
                num_bars,
                floor,
                base_attack,
                base_gravity,
                gravity_high_boost,
                gravity_db_scale,
                bar_max,
            ),
    {
        let n: usize = if num_bars == 0 {
            1
        } else {
            num_bars
        };
        let mut gravities: Vec<S> = Vec::new();
        let mut i: usize = 0;
        while i < num_bars
            invariant
                i <= num_bars,
                n == (if num_bars == 0 {
                    1
                } else {
                    num_bars
                }),
                gravities@ =~= Seq::new(
                    i as nat,
                    |j: int| spec_base_gravity(j, num_bars, base_gravity, gravity_high_boost),
                ),
            decreases num_bars - i,
        {
            let t: S = position(i, n);
            gravities.push(
                max_of(base_gravity.times(one::<S>().plus(gravity_high_boost.times(t))), zero()),
            );
            i += 1;
        }
        BarState {
            value: filled(floor, num_bars),
            velocity: filled(zero(), num_bars),
            attack: filled(clamp(base_attack, zero(), one()), num_bars),
            base_gravity: gravities,
            gravity_db_scale: max_of(gravity_db_scale, zero()),
            bar_max: max_of(bar_max, ratio(1, 1_000_000)),
        }
    }

    /// Moves every bar by one frame toward its level in `new`.
    pub fn update(&mut self, new: &[S])
        requires
            old(self).wf(),
            old(self).value.len() <= new.len(),
        ensures
            final(self).wf(),
            final(self).follows(*old(self), new@),
    {
        let count: usize = self.value.len();
        let ghost values = Seq::new(count as nat, |i: int| self.step_of(new@, i).0);
        let ghost velocities = Seq::new(count as nat, |i: int| self.step_of(new@, i).1);
        let mut i: usize = 0;
        while i < count
            invariant
                count == old(self).value.len(),
                count <= new.len(),
                i <= count,
                old(self).wf(),
                self.wf(),
                values == Seq::new(count as nat, |j: int| old(self).step_of(new@, j).0),
                velocities == Seq::new(count as nat, |j: int| old(self).step_of(new@, j).1),
                self.value@ =~= values.take(i as int) + old(self).value@.skip(i as int),
                self.velocity@ =~= velocities.take(i as int) + old(self).velocity@.skip(i as int),
                self.attack@ == old(self).attack@,
                self.base_gravity@ == old(self).base_gravity@,
                self.gravity_db_scale == old(self).gravity_db_scale,
                self.bar_max == old(self).bar_max,
            decreases count - i,
        {
            let n: S = new[i];
            let s: S = self.value[i];
            assert(s == old(self).value@[i as int]);
            assert(self.velocity@[i as int] == old(self).velocity@[i as int]);
            if s.le(n) {
                self.value.set(i, s.plus(n.minus(s).times(self.attack[i])));
                self.velocity.set(i, zero());
            } else {
                let loudness: S = clamp(s.over(self.bar_max), zero(), one());
                let gravity: S = self.base_gravity[i].times(
                    one::<S>().plus(self.gravity_db_scale.times(loudness)),
                );
                let faster: S = self.velocity[i].plus(gravity);
                let v: S = s.minus(faster);
                if v.le(n) {
                    self.value.set(i, n);
                    self.velocity.set(i, zero());
                } else {
                    self.value.set(i, v);
                    self.velocity.set(i, faster);
                }
            }
            assert(self.value@[i as int] == values[i as int]);
            assert(self.velocity@[i as int] == velocities[i as int]);
            i += 1;
        }
        assert(self.value@ =~= values);
        assert(self.velocity@ =~= velocities);
    }
}

/// A falling bar never drops below its level.
pub proof fn law_fall_never_undershoots<S: Scalar>(s: S, n: S, velocity: S, gravity: S)
    ensures
        !fallen(s, n, velocity, gravity).0.spec_lt(n),
{
    let v = s.spec_minus(velocity.spec_plus(gravity));
    lemma_lt_irreflexive(n);
    S::lt_implies_le(v, n);
}

/// A falling bar has either come to rest exactly at its level, or moves on at a
/// velocity that gravity has added to.
pub proof fn law_fall_lands_or_moves_on<S: Scalar>(s: S, n: S, velocity: S, gravity: S)
    ensures
        ({
            let after = fallen(s, n, velocity, gravity);
            ||| after == (n, spec_zero::<S>())
            ||| after.1 == velocity.spec_plus(gravity) && after.0 == s.spec_minus(after.1)
                && !after.0.spec_le(n)
        }),
{
}

/// A bar that rises starts its next fall from rest.
pub proof fn law_rise_rests<S: Scalar>(before: BarState<S>, after: BarState<S>, new: Seq<S>, i: int)
    requires
        after.follows(before, new),
        0 <= i < before.value.len(),
        before.value@[i].spec_le(new[i]),
    ensures
        after.velocity@[i] == spec_zero::<S>(),
{
}

/// A rising bar stays between where it was and its level, and with a full attack it
/// reaches the level at once.
pub proof fn law_rise_stays_between(s: Fixed, n: Fixed, attack: Fixed)
    requires
        0 <= s.raw <= n.raw,
        0 <= attack.raw <= ONE,
    ensures
        s.raw <= risen(s, n, attack).raw <= n.raw,
        attack.raw == ONE ==> risen(s, n, attack) == n,
{
    let way = n.spec_minus(s);
    lemma_times_share(way, attack);
    if attack.raw == ONE {
        assert(attack == spec_one::<Fixed>());
        lemma_one_is_neutral(way);
    }
}

/// The loudness of a bar that is not negative lies between zero and one and grows
/// with its value.
proof fn lemma_loudness(a: Fixed, b: Fixed, bar_max: Fixed)
    requires
        0 <= a.raw <= b.raw,
        0 < bar_max.raw,
    ensures
        0 <= spec_clamp(a.spec_over(bar_max), spec_zero(), spec_one()).raw <= spec_clamp(
            b.spec_over(bar_max),
            spec_zero(),
            spec_one(),
        ).raw <= ONE,
{
    lemma_over_monotone(a, b, bar_max);
    assert(spec_one::<Fixed>().raw == 0x1_0000_0000);
}

/// The louder a bar, the stronger the gravity it falls under, and never weaker than
/// its base gravity.
pub proof fn law_louder_falls_harder(
    a: Fixed,
    b: Fixed,
    base_gravity: Fixed,
    db_scale: Fixed,
    bar_max: Fixed,
)
    requires
        0 <= a.raw <= b.raw,
        0 <= base_gravity.raw,
        0 <= db_scale.raw,
        0 < bar_max.raw,
    ensures
        base_gravity.raw <= gravity_at(a, base_gravity, db_scale, bar_max).raw <= gravity_at(
            b,
            base_gravity,
            db_scale,
            bar_max,
        ).raw,
{
    let one = spec_one::<Fixed>();
    let loud_a = spec_clamp(a.spec_over(bar_max), spec_zero(), one);
    let loud_b = spec_clamp(b.spec_over(bar_max), spec_zero(), one);
    lemma_loudness(a, b, bar_max);
    lemma_times_monotone(db_scale, loud_a, loud_b);
    let factor_a = one.spec_plus(db_scale.spec_times(loud_a));
    let factor_b = one.spec_plus(db_scale.spec_times(loud_b));
    assert(one.raw == 0x1_0000_0000);
    assert(one.raw <= factor_a.raw <= factor_b.raw);
    lemma_times_monotone(base_gravity, factor_a, factor_b);
    lemma_times_monotone(base_gravity, one, factor_a);
    lemma_one_is_neutral(base_gravity);
}

/// A falling bar stays between its level and where it was, and never turns upward.
pub proof fn law_fall_stays_between(s: Fixed, n: Fixed, velocity: Fixed, gravity: Fixed)
    requires
        n.raw < s.raw,
        0 <= velocity.raw,
        0 <= gravity.raw,
    ensures
        n.raw <= fallen(s, n, velocity, gravity).0.raw <= s.raw,
        0 <= fallen(s, n, velocity, gravity).1.raw,
{
}

/// The gravity of a higher bar is at least that of a lower one, and without a boost
/// it is the same for all.
pub proof fn law_higher_bars_fall_harder(
    i: int,
    j: int,
    num_bars: usize,
    base: Fixed,
    high_boost: Fixed,
)
    requires
        0 <= i <= j < num_bars,
        0 <= base.raw,
        0 <= high_boost.raw,
    ensures
        base.raw <= spec_base_gravity(i, num_bars, base, high_boost).raw <= spec_base_gravity(
            j,
            num_bars,
            base,
            high_boost,
        ).raw,
        high_boost.raw == 0 ==> spec_base_gravity(i, num_bars, base, high_boost) == base,
{
    let one = spec_one::<Fixed>();
    let d = spec_max(Fixed::spec_from_count(num_bars).spec_minus(one), one);
    let t_i = spec_position::<Fixed>(i as usize, num_bars);
    let t_j = spec_position::<Fixed>(j as usize, num_bars);
    assert(one.raw == 0x1_0000_0000);
    lemma_over_monotone(
        Fixed::spec_from_count(i as usize),
        Fixed::spec_from_count(j as usize),
        d,
    );
    lemma_times_monotone(high_boost, t_i, t_j);
    let factor_i = one.spec_plus(high_boost.spec_times(t_i));
    let factor_j = one.spec_plus(high_boost.spec_times(t_j));
    assert(one.raw <= factor_i.raw <= factor_j.raw);
    lemma_times_monotone(base, factor_i, factor_j);
    lemma_times_monotone(base, one, factor_i);
    lemma_one_is_neutral(base);
    if high_boost.raw == 0 {
        lemma_zero_absorbs(t_i);
        assert(high_boost == Fixed { raw: 0 });
        assert(factor_i == one);
    }
}

/// The lowest bar has the base gravity itself, and the highest of two or more has it
/// with the whole boost.
///
/// Counts of 2^31 and more are beyond what fixed-point numbers hold.
pub proof fn law_gravity_endpoints(num_bars: usize, base: Fixed, high_boost: Fixed)
    requires
        2 <= num_bars < 0x8000_0000,
        0 <= base.raw,
        0 <= high_boost.raw,
    ensures
        spec_base_gravity(0, num_bars, base, high_boost) == base,
        spec_base_gravity(num_bars - 1, num_bars, base, high_boost) == base.spec_times(
            spec_one::<Fixed>().spec_plus(high_boost),
        ),
{
    let one = spec_one::<Fixed>();
    let last = Fixed::spec_from_count((num_bars - 1) as usize);
    let d = spec_max(Fixed::spec_from_count(num_bars).spec_minus(one), one);
    assert(one.raw == 0x1_0000_0000);
    assert(Fixed::spec_from_count(0) == Fixed { raw: 0 });
    lemma_zero_absorbs(d);
    lemma_zero_absorbs(high_boost);
    assert(one.spec_plus(Fixed { raw: 0 }) == one);
    lemma_one_is_neutral(base);
    assert(last == d);
    lemma_over_self(d);
    lemma_one_is_neutral(high_boost);
    let factor = one.spec_plus(high_boost);
    lemma_times_monotone(base, one, factor);
}

/// Without a volume scale, gravity is the base gravity however loud the bar; and a
/// larger scale never makes it weaker.
pub proof fn law_volume_scales_gravity(
    s: Fixed,
    base_gravity: Fixed,
    small: Fixed,
    large: Fixed,
    bar_max: Fixed,
)
    requires
        0 <= s.raw,
        0 <= base_gravity.raw,
        0 <= small.raw <= large.raw,
        0 < bar_max.raw,
    ensures
        gravity_at(s, base_gravity, Fixed { raw: 0 }, bar_max) == base_gravity,
        gravity_at(s, base_gravity, small, bar_max).raw <= gravity_at(
            s,
            base_gravity,
            large,
            bar_max,
        ).raw,
{
    let one = spec_one::<Fixed>();
    let loud = spec_clamp(s.spec_over(bar_max), spec_zero(), one);
    lemma_loudness(s, s, bar_max);
    lemma_zero_absorbs(loud);
    assert(one.spec_plus(Fixed { raw: 0 }) == one);
    lemma_one_is_neutral(base_gravity);
    lemma_times_commutes(small, loud);
    lemma_times_commutes(large, loud);
    lemma_times_monotone(loud, small, large);
    lemma_times_monotone(
        base_gravity,
        one.spec_plus(small.spec_times(loud)),
        one.spec_plus(large.spec_times(loud)),
    );
}

/// A larger attack takes a bar at least as far up.
pub proof fn law_larger_attack_rises_further(s: Fixed, n: Fixed, slow: Fixed, fast: Fixed)
    requires
        0 <= s.raw <= n.raw,
        0 <= slow.raw <= fast.raw,
    ensures
        risen(s, n, slow).raw <= risen(s, n, fast).raw,
{
    lemma_times_monotone(n.spec_minus(s), slow, fast);
}

/// Under stronger gravity a bar falls at least as far.
pub proof fn law_stronger_gravity_falls_further(
    s: Fixed,
    n: Fixed,
    velocity: Fixed,
    weak: Fixed,
    strong: Fixed,
)
    requires
        n.raw < s.raw,
        weak.raw <= strong.raw,
    ensures
        fallen(s, n, velocity, strong).0.raw <= fallen(s, n, velocity, weak).0.raw,
{
}

/// Bars whose movement is set up as [`BarState::new`] does it, and that lie between
/// `lo` and `hi`.
pub open spec fn bars_within(bars: BarState<Fixed>, lo: int, hi: int) -> bool {
    &&& bars.wf()
    &&& 0 <= lo
    &&& 0 <= bars.gravity_db_scale.raw
    &&& 0 < bars.bar_max.raw
    &&& forall|i: int|
        0 <= i < bars.value.len() ==> {
            &&& lo <= (#[trigger] bars.value@[i]).raw <= hi
            &&& 0 <= bars.velocity@[i].raw
            &&& 0 <= bars.attack@[i].raw <= ONE
            &&& 0 <= bars.base_gravity@[i].raw
        }
}

/// However they are set up, new bars lie in every range that holds their floor.
pub proof fn law_new_bars_are_within(
    bars: BarState<Fixed>,
    num_bars: usize,
    floor: Fixed,
    base_attack: Fixed,
    base_gravity: Fixed,
    gravity_high_boost: Fixed,
    gravity_db_scale: Fixed,
    bar_max: Fixed,
    lo: int,
    hi: int,
)
    requires
        bars.wf(),
        bars.is_new(
            num_bars,
            floor,
            base_attack,
            base_gravity,
            gravity_high_boost,
            gravity_db_scale,
            bar_max,
        ),
        0 <= lo <= floor.raw <= hi,
    ensures
        bars_within(bars, lo, hi),
{
    assert(Fixed::spec_from_count(1).raw == 0x1_0000_0000);
    assert(Fixed::spec_from_count(1_000_000).raw == 1_000_000 * 0x1_0000_0000);
    assert((0x1_0000_0000int * 0x1_0000_0000) / (1_000_000int * 0x1_0000_0000) == 4294);
    assert(spec_ratio::<Fixed>(1, 1_000_000).raw == 4294);
}

/// Bars that lie in a range stay in it for as long as their levels do.
pub proof fn law_bars_stay_in_range(
    before: BarState<Fixed>,
    after: BarState<Fixed>,
    new: Seq<Fixed>,
    lo: int,
    hi: int,
)
    requires
        bars_within(before, lo, hi),
        after.wf(),
        after.follows(before, new),
        before.value.len() <= new.len(),
        forall|i: int| 0 <= i < new.len() ==> lo <= (#[trigger] new[i]).raw <= hi,
    ensures
        bars_within(after, lo, hi),
{
    assert forall|i: int| 0 <= i < after.value.len() implies {
        &&& lo <= (#[trigger] after.value@[i]).raw <= hi
        &&& 0 <= after.velocity@[i].raw
        &&& 0 <= after.attack@[i].raw <= ONE
        &&& 0 <= after.base_gravity@[i].raw
    } by {
        let s = before.value@[i];
        let n = new[i];
        assert(after.value@[i] == before.step_of(new, i).0);
        assert(after.velocity@[i] == before.step_of(new, i).1);
        if s.raw <= n.raw {
            law_rise_stays_between(s, n, before.attack@[i]);
        } else {
            let gravity = gravity_at(
                s,
                before.base_gravity@[i],
                before.gravity_db_scale,
                before.bar_max,
            );
            law_louder_falls_harder(
                s,
                s,
                before.base_gravity@[i],
                before.gravity_db_scale,
                before.bar_max,
            );
            law_fall_stays_between(s, n, before.velocity@[i], gravity);
        }
    }
}

/// Value and velocity of a bar after `frames` frames with the same level `n`.
pub open spec fn bar_after(
    s: Fixed,
    velocity: Fixed,
    n: Fixed,
    attack: Fixed,
    base_gravity: Fixed,
    db_scale: Fixed,
    bar_max: Fixed,
    frames: nat,
) -> (Fixed, Fixed)
    decreases frames,
{
    if frames == 0 {
        (s, velocity)
    } else {
        let next = spec_bar_step(s, velocity, n, attack, base_gravity, db_scale, bar_max);
        bar_after(
            next.0,
            next.1,
            n,
            attack,
            base_gravity,
            db_scale,
            bar_max,
            (frames - 1) as nat,
        )
    }
}

/// Under any gravity at all, a bar above a level that holds still comes to rest
/// exactly there after finitely many frames.
pub proof fn law_fall_lands(
    s: Fixed,
    velocity: Fixed,
    n: Fixed,
    attack: Fixed,
    base_gravity: Fixed,
    db_scale: Fixed,
    bar_max: Fixed,
) -> (frames: nat)
    requires
        0 <= n.raw < s.raw,
        0 <= velocity.raw,
        0 < base_gravity.raw,
        0 <= db_scale.raw,
        0 < bar_max.raw,
    ensures
        bar_after(s, velocity, n, attack, base_gravity, db_scale, bar_max, frames) == (
            n,
            spec_zero::<Fixed>(),
        ),
    decreases s.raw - n.raw,
{
    let gravity = gravity_at(s, base_gravity, db_scale, bar_max);
    law_louder_falls_harder(s, s, base_gravity, db_scale, bar_max);
    let next = spec_bar_step(s, velocity, n, attack, base_gravity, db_scale, bar_max);
    assert(next == fallen(s, n, velocity, gravity));
    if next.0.raw <= n.raw {
        assert(bar_after(next.0, next.1, n, attack, base_gravity, db_scale, bar_max, 0) == next);
        1
    } else {
        let rest = law_fall_lands(next.0, next.1, n, attack, base_gravity, db_scale, bar_max);
        rest + 1
    }
}

/// A fall is slow at first and faster with every frame: as long as the bar is under
/// way, a frame adds at least the base gravity to its velocity.
pub proof fn law_fall_accelerates(
    s: Fixed,
    velocity: Fixed,
    n: Fixed,
    attack: Fixed,
    base_gravity: Fixed,
    db_scale: Fixed,
    bar_max: Fixed,
)
    requires
        0 <= n.raw < s.raw,
        0 <= velocity.raw,
        0 <= base_gravity.raw,
        0 <= db_scale.raw,
        0 < bar_max.raw,
        spec_bar_step(s, velocity, n, attack, base_gravity, db_scale, bar_max).0 != n,
    ensures
        ({
            let after = spec_bar_step(s, velocity, n, attack, base_gravity, db_scale, bar_max);
            &&& velocity.raw + base_gravity.raw <= after.1.raw
            &&& after.0.raw == s.raw - after.1.raw
        }),
{
    law_louder_falls_harder(s, s, base_gravity, db_scale, bar_max);
}

/// From the first frame on, and for as long as every level that the bars move toward
/// lies between the floor and the full bar, so does every bar.
pub proof fn law_output_stays_in_range(
    states: Seq<BarState<Fixed>>,
    levels: Seq<Seq<Fixed>>,
    num_bars: usize,
    floor: Fixed,
    base_attack: Fixed,
    base_gravity: Fixed,
    gravity_high_boost: Fixed,
    gravity_db_scale: Fixed,
    bar_max: Fixed,
    k: int,
)
    requires
        0 <= floor.raw <= bar_max.raw,
        0 <= k < states.len(),
        levels.len() + 1 == states.len(),
        states[0].is_new(
            num_bars,
            floor,
            base_attack,
            base_gravity,
            gravity_high_boost,
            gravity_db_scale,
            bar_max,
        ),
        forall|j: int| 0 <= j < states.len() ==> (#[trigger] states[j]).wf(),
        forall|j: int|
            0 <= j < levels.len() ==> {
                &&& states[j + 1].follows(states[j], #[trigger] levels[j])
                &&& levels[j].len() >= num_bars
            },
        forall|j: int, i: int|
            0 <= j < levels.len() && 0 <= i < levels[j].len() ==> floor.raw
                <= (#[trigger] levels[j][i]).raw <= bar_max.raw,
    ensures
        states[k].value.len() == num_bars,
        bars_within(states[k], floor.raw as int, bar_max.raw as int),
    decreases k,
{
    if k == 0 {
        law_new_bars_are_within(
            states[0],
            num_bars,
            floor,
            base_attack,
            base_gravity,
            gravity_high_boost,
            gravity_db_scale,
            bar_max,
            floor.raw as int,
            bar_max.raw as int,
        );
    } else {
        law_output_stays_in_range(
            states,
            levels,
            num_bars,
            floor,
            base_attack,
            base_gravity,
            gravity_high_boost,
            gravity_db_scale,
            bar_max,
            k - 1,
        );
        let shown = levels[k - 1];
        assert(states[k - 1 + 1].follows(states[k - 1], shown));
        law_bars_stay_in_range(
            states[k - 1],
            states[k],
            shown,
            floor.raw as int,
            bar_max.raw as int,
        );
    }
}

/// Of two bars under way at the same velocity toward the same level, the louder drops
/// at least as far, and just as far where volume does not scale gravity.
pub proof fn law_louder_drops_further(
    quiet: Fixed,
    loud: Fixed,
    velocity: Fixed,
    n: Fixed,
    attack: Fixed,
    base_gravity: Fixed,
    db_scale: Fixed,
    bar_max: Fixed,
)
    requires
        0 <= n.raw < quiet.raw <= loud.raw,
        0 <= velocity.raw,
        0 <= base_gravity.raw,
        0 <= db_scale.raw,
        0 < bar_max.raw,
        spec_bar_step(quiet, velocity, n, attack, base_gravity, db_scale, bar_max).0 != n,
        spec_bar_step(loud, velocity, n, attack, base_gravity, db_scale, bar_max).0 != n,
    ensures
        ({
            let a = spec_bar_step(quiet, velocity, n, attack, base_gravity, db_scale, bar_max).0;
            let b = spec_bar_step(loud, velocity, n, attack, base_gravity, db_scale, bar_max).0;
            &&& quiet.raw - a.raw <= loud.raw - b.raw
            &&& db_scale.raw == 0 ==> quiet.raw - a.raw == loud.raw - b.raw
        }),
{
    law_louder_falls_harder(quiet, loud, base_gravity, db_scale, bar_max);
    law_volume_scales_gravity(quiet, base_gravity, db_scale, db_scale, bar_max);
    law_volume_scales_gravity(loud, base_gravity, db_scale, db_scale, bar_max);
    if db_scale.raw == 0 {
        assert(db_scale == Fixed { raw: 0 });
    }
}

/// As long as a bar is under way toward a level that holds still, it drops at least as
/// far in a frame as in the frame before.
pub proof fn law_drops_grow(
    s: Fixed,
    velocity: Fixed,
    n: Fixed,
    attack: Fixed,
    base_gravity: Fixed,
    db_scale: Fixed,
    bar_max: Fixed,
)
    requires
        0 <= n.raw < s.raw,
        0 <= velocity.raw,
        0 <= base_gravity.raw,
        0 <= db_scale.raw,
        0 < bar_max.raw,
        ({
            let once = spec_bar_step(s, velocity, n, attack, base_gravity, db_scale, bar_max);
            let twice = spec_bar_step(once.0, once.1, n, attack, base_gravity, db_scale, bar_max);
            once.0 != n && twice.0 != n
        }),
    ensures
        ({
            let once = spec_bar_step(s, velocity, n, attack, base_gravity, db_scale, bar_max);
            let twice = spec_bar_step(once.0, once.1, n, attack, base_gravity, db_scale, bar_max);
            s.raw - once.0.raw <= once.0.raw - twice.0.raw
        }),
{
    let once = spec_bar_step(s, velocity, n, attack, base_gravity, db_scale, bar_max);
    law_fall_accelerates(s, velocity, n, attack, base_gravity, db_scale, bar_max);
    law_fall_accelerates(once.0, once.1, n, attack, base_gravity, db_scale, bar_max);
}

/// A bar at rest at its level stays there for as long as the level holds still.
pub proof fn law_landed_bar_stays(
    n: Fixed,
    attack: Fixed,
    base_gravity: Fixed,
    db_scale: Fixed,
    bar_max: Fixed,
    frames: nat,
)
    ensures
        bar_after(
            n,
            spec_zero::<Fixed>(),
            n,
            attack,
            base_gravity,
            db_scale,
            bar_max,
            frames,
        ) == (n, spec_zero::<Fixed>()),
    decreases frames,
{
    if frames > 0 {
        assert(n.spec_minus(n) == Fixed { raw: 0 });
        lemma_zero_absorbs(attack);
        assert(risen(n, n, attack) == n);
        law_landed_bar_stays(
            n,
            attack,
            base_gravity,
            db_scale,
            bar_max,
            (frames - 1) as nat,
        );
    }
}

/// Frames may be counted in two parts.
proof fn lemma_bar_after_adds(
    s: Fixed,
    velocity: Fixed,
    n: Fixed,
    attack: Fixed,
    base_gravity: Fixed,
    db_scale: Fixed,
    bar_max: Fixed,
    first: nat,
    more: nat,
)
    ensures
        ({
            let mid = bar_after(s, velocity, n, attack, base_gravity, db_scale, bar_max, first);
            bar_after(s, velocity, n, attack, base_gravity, db_scale, bar_max, first + more)
                == bar_after(mid.0, mid.1, n, attack, base_gravity, db_scale, bar_max, more)
        }),
    decreases first,
{
    if first > 0 {
        let next = spec_bar_step(s, velocity, n, attack, base_gravity, db_scale, bar_max);
        lemma_bar_after_adds(
            next.0,
            next.1,
            n,
            attack,
            base_gravity,
            db_scale,
            bar_max,
            (first - 1) as nat,
            more,
        );
        assert((first + more - 1) as nat == (first - 1) as nat + more);
    }
}

/// Under any gravity at all, a bar above a level that holds still is at rest exactly
/// there from some frame on.
pub proof fn law_fall_lands_for_good(
    s: Fixed,
    velocity: Fixed,
    n: Fixed,
    attack: Fixed,
    base_gravity: Fixed,
    db_scale: Fixed,
    bar_max: Fixed,
) -> (frames: nat)
    requires
        0 <= n.raw < s.raw,
        0 <= velocity.raw,
        0 < base_gravity.raw,
        0 <= db_scale.raw,
        0 < bar_max.raw,
    ensures
        forall|later: nat|
            frames <= later ==> #[trigger] bar_after(
                s,
                velocity,
                n,
                attack,
                base_gravity,
                db_scale,
                bar_max,
                later,
            ) == (n, spec_zero::<Fixed>()),
{
    let frames = law_fall_lands(s, velocity, n, attack, base_gravity, db_scale, bar_max);
    assert forall|later: nat| frames <= later implies #[trigger] bar_after(
        s,
        velocity,
        n,
        attack,
        base_gravity,
        db_scale,
        bar_max,
        later,
    ) == (n, spec_zero::<Fixed>()) by {
        let more = (later - frames) as nat;
        lemma_bar_after_adds(
            s,
            velocity,
            n,
            attack,
            base_gravity,
            db_scale,
            bar_max,
            frames,
            more,
        );
        law_landed_bar_stays(n, attack, base_gravity, db_scale, bar_max, more);
    }
    frames
}

} // verus!
