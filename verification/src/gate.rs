//! A noise gate for each band.

use vstd::prelude::*;

use crate::fixed::{
    lemma_mix_grows, lemma_mix_stays_between, lemma_one_is_neutral, lemma_quotient_bounds,
    lemma_times_monotone, truncated_quotient, Fixed, ONE,
};
use crate::fixed_laws::{law_fractions, law_product_is_near, law_share_is_near};
use crate::scalar::{
    clamp, filled, lemma_max_bound, max_of, one, ratio, spec_clamp, spec_max, spec_one, spec_ratio,
    spec_zero, zero, Scalar,
};

verus! {

/// Follows the quiet level of each band and passes on what rises above it.
pub struct NoiseGate<S> {
    pub floor: Vec<S>,
    pub rise: S,
    pub margin: S,
}

/// The floor after a value: it drops to a lower value at once and creeps toward any
/// other.
pub open spec fn followed_floor<S: Scalar>(floor: S, v: S, rise: S) -> S {
    if v.spec_lt(floor) {
        v
    } else {
        floor.spec_times(rise).spec_plus(v.spec_times(spec_one::<S>().spec_minus(rise)))
    }
}

/// What of a value rises above the floor times the margin.
pub open spec fn above_floor<S: Scalar>(floor: S, v: S, margin: S) -> S {
    spec_max(v.spec_minus(floor.spec_times(margin)), spec_zero())
}

/// The floors after a frame; bands without a value keep theirs.
pub open spec fn floors_after<S: Scalar>(floor: Seq<S>, raw: Seq<S>, rise: S) -> Seq<S> {
    Seq::new(
        floor.len(),
        |i: int|
            if i < raw.len() {
                followed_floor(floor[i], raw[i], rise)
            } else {
                floor[i]
            },
    )
}

/// A frame after gating, given the floors after it.
pub open spec fn gated<S: Scalar>(floor: Seq<S>, raw: Seq<S>, margin: S) -> Seq<S> {
    Seq::new(raw.len(), |i: int| above_floor(floor[i], raw[i], margin))
}

impl<S: Scalar> NoiseGate<S> {
    /// Every floor is at a millionth, `rise` lies within `0..=0.999`, and `margin` is
    /// one or above.
    pub open spec fn is_new(self, num_bars: usize, rise: S, margin: S) -> bool {
        &&& self.floor@ == Seq::new(num_bars as nat, |i: int| spec_ratio::<S>(1, 1_000_000))
        &&& self.rise == spec_clamp(rise, spec_zero(), spec_ratio(999, 1000))
        &&& self.margin == spec_max(margin, spec_one())
    }

    /// Whether this is what a frame makes of `before`, with `out` coming out.
    pub open spec fn follows(self, before: Self, raw: Seq<S>, out: Seq<S>) -> bool {
        &&& self.floor@ == floors_after(before.floor@, raw, before.rise)
        &&& self.rise == before.rise
        &&& self.margin == before.margin
        &&& out == gated(self.floor@, raw, before.margin)
    }

    /// A gate with every floor at a millionth. `rise` is kept within `0..=0.999` and
    /// `margin` at one or above.
    pub fn new(num_bars: usize, rise: S, margin: S) -> (gate: Self)
        ensures
            gate.is_new(num_bars, rise, margin),
    {
        NoiseGate {
            floor: filled(ratio(1, 1_000_000), num_bars),
            rise: clamp(rise, zero(), ratio(999, 1000)),
            margin: max_of(margin, one()),
        }
    }

    /// Gates one frame. Each floor follows its value first.
    pub fn apply(&mut self, raw: &[S]) -> (out: Vec<S>)
        requires
            raw.len() <= old(self).floor.len(),
        ensures
            final(self).follows(*old(self), raw@, out@),
    {
        let ghost floors = floors_after(self.floor@, raw@, self.rise);
        let mut out: Vec<S> = Vec::new();
        let mut i: usize = 0;
        while i < raw.len()
            invariant
                i <= raw.len() <= old(self).floor.len(),
                floors == floors_after(old(self).floor@, raw@, old(self).rise),
                self.floor@ =~= floors.take(i as int) + old(self).floor@.skip(i as int),
                self.rise == old(self).rise,
                self.margin == old(self).margin,
                out@ =~= gated(floors, raw@, old(self).margin).take(i as int),
            decreases raw.len() - i,
        {
            let v: S = raw[i];
            let floor: S = self.floor[i];
            let followed: S = if v.lt(floor) {
                v
            } else {
                floor.times(self.rise).plus(v.times(one::<S>().minus(self.rise)))
            };
            assert(followed == floors[i as int]);
            self.floor.set(i, followed);
            out.push(max_of(v.minus(followed.times(self.margin)), zero()));
            i += 1;
        }
        assert(self.floor@ =~= floors);
        assert(out@ =~= gated(floors, raw@, self.margin));
        out
    }
}

/// A value below its floor becomes the floor at once.
pub proof fn law_floor_snaps_down<S: Scalar>(floor: S, v: S, rise: S)
    requires
        v.spec_lt(floor),
    ensures
        followed_floor(floor, v, rise) == v,
{
}

/// A gated value is never below zero.
pub proof fn law_gate_is_never_negative<S: Scalar>(floor: S, v: S, margin: S)
    ensures
        !above_floor(floor, v, margin).spec_lt(spec_zero()),
{
    lemma_max_bound(v.spec_minus(floor.spec_times(margin)), spec_zero::<S>());
}

/// A floor that creeps up never overtakes the value it follows, and gives way by no
/// more than one unit of rounding.
pub proof fn law_floor_stays_below_value(floor: Fixed, v: Fixed, rise: Fixed)
    requires
        0 <= floor.raw <= v.raw,
        0 <= rise.raw <= ONE,
    ensures
        floor.raw - 1 <= followed_floor(floor, v, rise).raw <= v.raw,
        0 <= followed_floor(floor, v, rise).raw,
{
    let rest = spec_one::<Fixed>().spec_minus(rise);
    assert(rest.raw == 0x1_0000_0000 - rise.raw);
    lemma_mix_stays_between(floor, v, rise, rest);
}

/// Gating only ever takes away: what passes is no more than the value, and nothing
/// passes of a value that does not exceed the floor times the margin.
pub proof fn law_gate_takes_away(floor: Fixed, v: Fixed, margin: Fixed)
    requires
        0 <= floor.raw,
        0 <= v.raw,
        0 <= margin.raw,
    ensures
        0 <= above_floor(floor, v, margin).raw <= v.raw,
        v.raw <= floor.spec_times(margin).raw ==> above_floor(floor, v, margin).raw == 0,
{
    assert(floor.raw * margin.raw >= 0) by (nonlinear_arith)
        requires
            0 <= floor.raw,
            0 <= margin.raw,
    ;
}

/// A larger margin never lets more pass.
pub proof fn law_larger_margin_passes_less(floor: Fixed, v: Fixed, narrow: Fixed, wide: Fixed)
    requires
        0 <= floor.raw,
        0 <= narrow.raw <= wide.raw,
    ensures
        above_floor(floor, v, wide).raw <= above_floor(floor, v, narrow).raw,
{
    lemma_times_monotone(floor, narrow, wide);
}

/// A floor with a slower rise is never ahead of one with a faster rise, but for one
/// unit of rounding.
pub proof fn law_slower_rise_lags(floor: Fixed, v: Fixed, fast: Fixed, slow: Fixed)
    requires
        0 <= floor.raw <= v.raw,
        0 <= fast.raw <= slow.raw <= ONE,
    ensures
        followed_floor(floor, v, slow).raw <= followed_floor(floor, v, fast).raw + 1,
{
    let rest_fast = spec_one::<Fixed>().spec_minus(fast);
    let rest_slow = spec_one::<Fixed>().spec_minus(slow);
    assert(rest_fast.raw == 0x1_0000_0000 - fast.raw);
    assert(rest_slow.raw == 0x1_0000_0000 - slow.raw);
    lemma_mix_grows(floor, v, slow, rest_slow, fast, rest_fast);
}

/// A noise gate as [`NoiseGate::new`] sets it up and frames that are not negative keep it.
pub open spec fn sound_gate(gate: NoiseGate<Fixed>) -> bool {
    &&& 0 <= gate.rise.raw <= ONE
    &&& ONE <= gate.margin.raw
    &&& forall|i: int| 0 <= i < gate.floor.len() ==> 0 <= (#[trigger] gate.floor@[i]).raw
}

/// However it is set up, a new noise gate is sound.
pub proof fn law_new_gate_is_sound(
    gate: NoiseGate<Fixed>,
    num_bars: usize,
    rise: Fixed,
    margin: Fixed,
)
    requires
        gate.is_new(num_bars, rise, margin),
    ensures
        sound_gate(gate),
{
    assert(Fixed::spec_from_count(1).raw == 0x1_0000_0000);
    assert(Fixed::spec_from_count(999).raw == 999 * 0x1_0000_0000);
    assert(Fixed::spec_from_count(1000).raw == 1000 * 0x1_0000_0000);
    assert(Fixed::spec_from_count(1_000_000).raw == 1_000_000 * 0x1_0000_0000);
    assert((0x1_0000_0000int * 0x1_0000_0000) / (1_000_000int * 0x1_0000_0000) == 4294);
    assert((999int * 0x1_0000_0000 * 0x1_0000_0000) / (1000int * 0x1_0000_0000) == 4290672328);
    assert(spec_ratio::<Fixed>(1, 1_000_000).raw == 4294);
    assert(spec_ratio::<Fixed>(999, 1000).raw == 4290672328);
}

/// What a frame does to a band. Its floor ends up no higher than the value, a value
/// below the floor becomes the floor and is held back whole, any other moves the floor
/// no further away than one unit of rounding, and a silent band goes to a silent floor
/// at once. Soundness is kept.
pub proof fn law_gate_follows_band(
    before: NoiseGate<Fixed>,
    after: NoiseGate<Fixed>,
    raw: Seq<Fixed>,
    out: Seq<Fixed>,
    i: int,
)
    requires
        sound_gate(before),
        after.follows(before, raw, out),
        0 <= i < raw.len() <= before.floor.len(),
        forall|j: int| 0 <= j < raw.len() ==> 0 <= (#[trigger] raw[j]).raw,
    ensures
        sound_gate(after),
        after.floor.len() == before.floor.len(),
        0 <= after.floor@[i].raw <= raw[i].raw,
        0 <= out[i].raw <= raw[i].raw,
        raw[i].raw < before.floor@[i].raw ==> after.floor@[i] == raw[i] && out[i].raw == 0,
        raw[i].raw >= before.floor@[i].raw ==> before.floor@[i].raw - 1 <= after.floor@[i].raw,
        raw[i].raw == 0 ==> after.floor@[i].raw == 0 && out[i].raw == 0,
{
    assert forall|j: int| 0 <= j < after.floor.len() implies 0 <= (
    #[trigger] after.floor@[j]).raw by {
        assert(0 <= before.floor@[j].raw);
        if j < raw.len() {
            assert(0 <= raw[j].raw);
            if raw[j].raw >= before.floor@[j].raw {
                law_floor_stays_below_value(before.floor@[j], raw[j], before.rise);
            }
        }
    }
    let floor = before.floor@[i];
    let followed = after.floor@[i];
    let v = raw[i];
    assert(0 <= floor.raw);
    assert(0 <= v.raw);
    assert(followed == followed_floor(floor, v, before.rise));
    assert(out[i] == above_floor(followed, v, before.margin));
    if v.raw < floor.raw {
        assert(spec_one::<Fixed>().raw == 0x1_0000_0000);
        lemma_times_monotone(v, spec_one::<Fixed>(), before.margin);
        lemma_one_is_neutral(v);
    } else {
        law_floor_stays_below_value(floor, v, before.rise);
    }
    law_gate_takes_away(followed, v, before.margin);
}

/// While a level holds still, its floor never falls and what passes never grows, but
/// for rounding: one unit of the floor, and the units that the margin makes of it.
pub proof fn law_steady_level_fades(floor: Fixed, v: Fixed, rise: Fixed, margin: Fixed)
    requires
        0 <= floor.raw,
        0 <= v.raw,
        0 <= rise.raw <= ONE,
        0 <= margin.raw,
    ensures
        ({
            let once = followed_floor(floor, v, rise);
            let twice = followed_floor(once, v, rise);
            &&& once.raw - 1 <= twice.raw <= v.raw
            &&& above_floor(twice, v, margin).raw <= above_floor(once, v, margin).raw + margin.raw
                as int / 0x1_0000_0000 + 1
        }),
{
    let once = followed_floor(floor, v, rise);
    let twice = followed_floor(once, v, rise);
    if floor.raw <= v.raw {
        law_floor_stays_below_value(floor, v, rise);
    }
    assert(0 <= once.raw <= v.raw);
    law_floor_stays_below_value(once, v, rise);
    let a = once.raw * margin.raw;
    let b = twice.raw * margin.raw;
    assert(0 <= a && 0 <= b && a - margin.raw <= b) by (nonlinear_arith)
        requires
            0 <= margin.raw,
            0 <= once.raw,
            0 <= twice.raw,
            once.raw - 1 <= twice.raw,
            a == once.raw * margin.raw,
            b == twice.raw * margin.raw,
    ;
    let m = margin.raw as int;
    assert(a / 0x1_0000_0000 <= b / 0x1_0000_0000 + m / 0x1_0000_0000 + 1);
}

/// In successive frames with the same values, no floor moves away from its value and
/// nothing more passes than the frame before, but for the rounding of
/// [`law_steady_level_fades`].
pub proof fn law_steady_frames_fade(
    before: NoiseGate<Fixed>,
    once: NoiseGate<Fixed>,
    twice: NoiseGate<Fixed>,
    raw: Seq<Fixed>,
    first: Seq<Fixed>,
    second: Seq<Fixed>,
    i: int,
)
    requires
        sound_gate(before),
        once.follows(before, raw, first),
        twice.follows(once, raw, second),
        0 <= i < raw.len() <= before.floor.len(),
        forall|j: int| 0 <= j < raw.len() ==> 0 <= (#[trigger] raw[j]).raw,
    ensures
        once.floor@[i].raw - 1 <= twice.floor@[i].raw <= raw[i].raw,
        second[i].raw <= first[i].raw + before.margin.raw as int / 0x1_0000_0000 + 1,
{
    assert(0 <= before.floor@[i].raw);
    assert(0 <= raw[i].raw);
    law_steady_level_fades(before.floor@[i], raw[i], before.rise, before.margin);
}

/// Where a floor is after a value, in whole numbers: at a lower value, or at the mean of
/// floor and value weighed by the rise, but for two units.
pub proof fn law_floor_is_weighed_mean(floor: Fixed, v: Fixed, rise: Fixed)
    requires
        0 <= floor.raw,
        0 <= v.raw,
        0 <= rise.raw <= ONE,
    ensures
        ({
            let followed = followed_floor(floor, v, rise).raw;
            let exact = floor.raw * rise.raw + v.raw * (0x1_0000_0000 - rise.raw);
            &&& v.raw < floor.raw ==> followed == v.raw
            &&& floor.raw <= v.raw ==> 0x1_0000_0000 * followed <= exact < 0x1_0000_0000 * (followed
                + 2)
        }),
{
    if floor.raw <= v.raw {
        let rest = spec_one::<Fixed>().spec_minus(rise);
        assert(rest.raw == 0x1_0000_0000 - rise.raw);
        law_share_is_near(floor, rise);
        law_share_is_near(v, rest);
        assert(0 <= floor.raw * rise.raw && 0 <= v.raw * rest.raw) by (nonlinear_arith)
            requires
                0 <= floor.raw,
                0 <= v.raw,
                0 <= rise.raw,
                0 <= rest.raw,
        ;
        let a = floor.spec_times(rise).raw as int;
        let b = v.spec_times(rest).raw as int;
        lemma_quotient_bounds(floor.raw * rise.raw, 0x1_0000_0000);
        lemma_quotient_bounds(v.raw * rest.raw, 0x1_0000_0000);
        let x = floor.raw * rise.raw;
        let y = v.raw * rest.raw;
        assert(x + y <= v.raw * 0x1_0000_0000) by (nonlinear_arith)
            requires
                0 <= floor.raw <= v.raw,
                0 <= rise.raw,
                x == floor.raw * rise.raw,
                y == v.raw * rest.raw,
                rest.raw == 0x1_0000_0000 - rise.raw,
        ;
        assert(a + b <= v.raw);
        assert(followed_floor(floor, v, rise).raw == a + b);
    }
}

/// What passes is the value less the floor times the margin, but for less than one unit,
/// and nothing where that is below zero.
pub proof fn law_passes_what_is_above(floor: Fixed, v: Fixed, margin: Fixed)
    requires
        0 <= floor.raw,
        0 <= v.raw,
        0 <= margin.raw,
    ensures
        ({
            let out = above_floor(floor, v, margin).raw;
            let exact = 0x1_0000_0000 * v.raw - floor.raw * margin.raw;
            &&& 0 <= out
            &&& exact <= 0 ==> out == 0
            &&& exact >= 0 ==> 0x1_0000_0000 * (out - 1) < exact <= 0x1_0000_0000 * out
        }),
{
    let p = floor.raw * margin.raw;
    assert(0 <= p) by (nonlinear_arith)
        requires
            0 <= floor.raw,
            0 <= margin.raw,
            p == floor.raw * margin.raw,
    ;
    lemma_quotient_bounds(p, 0x1_0000_0000);
    let q = truncated_quotient(p, 0x1_0000_0000);
    assert(0 <= q);
    if p <= i64::MAX * 0x1_0000_0000 {
        law_product_is_near(floor, margin);
    } else {
        assert(q >= i64::MAX);
    }
}

/// How a new noise gate is set up, in whole numbers.
pub proof fn law_new_gate(gate: NoiseGate<Fixed>, num_bars: usize, rise: Fixed, margin: Fixed)
    requires
        gate.is_new(num_bars, rise, margin),
    ensures
        gate.floor.len() == num_bars,
        forall|i: int|
            0 <= i < num_bars ==> (#[trigger] gate.floor@[i]).raw == 0x1_0000_0000int / 1_000_000,
        0 <= rise.raw && 1000 * (rise.raw + 1) <= 999 * 0x1_0000_0000 ==> gate.rise == rise,
        rise.raw <= 0 ==> gate.rise.raw == 0,
        0 <= gate.rise.raw,
        1000 * gate.rise.raw <= 999 * 0x1_0000_0000,
        1000 * rise.raw >= 999 * 0x1_0000_0000 ==> 1000 * (gate.rise.raw + 1) > 999 * 0x1_0000_0000,
        margin.raw >= 0x1_0000_0000 ==> gate.margin == margin,
        margin.raw <= 0x1_0000_0000 ==> gate.margin.raw == 0x1_0000_0000,
{
    law_fractions(1, 1_000_000);
    law_fractions(999, 1000);
    assert(spec_ratio::<Fixed>(1, 1_000_000).raw == 0x1_0000_0000int / 1_000_000);
}

/// What a frame does to each band, in whole numbers, and that nothing else changes.
pub proof fn law_gate_frame_in_numbers(
    before: NoiseGate<Fixed>,
    after: NoiseGate<Fixed>,
    raw: Seq<Fixed>,
    out: Seq<Fixed>,
    i: int,
)
    requires
        sound_gate(before),
        after.follows(before, raw, out),
        0 <= i < before.floor.len(),
        raw.len() <= before.floor.len(),
        forall|j: int| 0 <= j < raw.len() ==> 0 <= (#[trigger] raw[j]).raw,
    ensures
        out.len() == raw.len(),
        after.floor.len() == before.floor.len(),
        after.rise == before.rise,
        after.margin == before.margin,
        i >= raw.len() ==> after.floor@[i] == before.floor@[i],
        i < raw.len() ==> {
            let floor = before.floor@[i].raw;
            let v = raw[i].raw;
            let next = after.floor@[i].raw;
            let mixed = floor * before.rise.raw + v * (0x1_0000_0000 - before.rise.raw);
            let above = 0x1_0000_0000 * v - next * before.margin.raw;
            &&& v < floor ==> next == v
            &&& v >= floor ==> 0x1_0000_0000 * next <= mixed < 0x1_0000_0000 * (next + 2)
            &&& above <= 0 ==> out[i].raw == 0
            &&& above >= 0 ==> 0x1_0000_0000 * (out[i].raw - 1) < above <= 0x1_0000_0000
                * out[i].raw
        },
{
    if i < raw.len() {
        assert(0 <= before.floor@[i].raw);
        assert(0 <= raw[i].raw);
        law_gate_follows_band(before, after, raw, out, i);
        law_floor_is_weighed_mean(before.floor@[i], raw[i], before.rise);
        law_passes_what_is_above(after.floor@[i], raw[i], before.margin);
    }
}

} // verus!
