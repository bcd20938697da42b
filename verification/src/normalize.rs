//! From gated band values to levels, measured against running peaks.

use vstd::prelude::*;

use crate::fixed::{
    lemma_one_is_neutral, lemma_over_monotone, lemma_over_self, lemma_over_sign, lemma_peak_bounds,
    lemma_quotient_between, lemma_quotient_bounds, lemma_times_commutes, lemma_times_monotone,
    lemma_times_share, lemma_times_whole, lemma_zero_absorbs, truncated_quotient, Fixed, ONE,
};
use crate::fixed_laws::{
    law_fractions, law_product_is_near, law_quotient_is_near, law_share_is_near,
};
use crate::scalar::{
    clamp, filled, lemma_clamp_bounds, lemma_clamp_keeps_order, lemma_lt_irreflexive,
    lemma_max_bound, lemma_max_keeps_order, lemma_peak_covers, max_of, one, ordered_arithmetic,
    peak, ratio, spec_clamp, spec_max, spec_one, spec_peak, spec_ratio, spec_zero, total_order,
    unit_arithmetic, zero, Curves, Scalar,
};

verus! {

/// Compresses the range of the bands against their running peaks.
pub struct Normalizer<S> {
    /// The running peak over all bands.
    pub running_max: S,
    /// The running peak of each band.
    pub band_running_max: Vec<S>,
    pub decay: S,
    pub dynamic_range_db: S,
    pub band_independence: S,
}

/// A running peak after a value: it decays, and never falls below the value.
pub open spec fn decayed_peak<S: Scalar>(running: S, decay: S, v: S) -> S {
    spec_max(running.spec_times(decay), v)
}

/// The running peaks of the bands after a frame; bands without a value keep theirs.
pub open spec fn band_peaks_after<S: Scalar>(peaks: Seq<S>, raw: Seq<S>, decay: S) -> Seq<S> {
    Seq::new(
        peaks.len(),
        |i: int|
            if i < raw.len() {
                decayed_peak(peaks[i], decay, spec_max(raw[i], spec_ratio(1, 1_000_000)))
            } else {
                peaks[i]
            },
    )
}

/// The running peak over all bands after a frame.
pub open spec fn peak_after<S: Scalar>(running: S, raw: Seq<S>, decay: S) -> S {
    decayed_peak(running, decay, spec_max(spec_peak(raw), spec_ratio(1, 1_000_000)))
}

/// The bar for a value `db` decibels against its reference: zero decibels fill the
/// bar, and the dynamic range below that is all that is shown.
pub open spec fn spec_level<S: Scalar>(db: S, dynamic_range_db: S, bar_max: S) -> S {
    let norm = spec_clamp(
        db.spec_plus(dynamic_range_db).spec_over(dynamic_range_db),
        spec_zero(),
        spec_one(),
    );
    spec_clamp(norm.spec_times(bar_max), spec_ratio(1, 1000), bar_max)
}

/// A value over its reference, the product of a share of the global peak and one of
/// the band's own.
pub open spec fn spec_over_reference<S: Scalar>(v: S, shared: S, own: S) -> S {
    spec_max(v, spec_ratio(1, 100_000_000)).spec_over(shared.spec_times(own))
}

/// The decibels of a ratio with the decimal logarithm `exponent`.
pub open spec fn spec_decibels<S: Scalar>(exponent: S) -> S {
    S::spec_from_count(20).spec_times(exponent)
}

/// `level` is the bar for the value `v`, whose reference is a geometric mean of the
/// global peak and the band's own, weighed by `independence`.
pub open spec fn is_level<S: Curves>(
    level: S,
    v: S,
    running_max: S,
    band_max: S,
    dynamic_range_db: S,
    independence: S,
    bar_max: S,
) -> bool {
    exists|shared: S, own: S, exponent: S|
        {
            &&& #[trigger] call_ensures(
                S::powf,
                (running_max, spec_one::<S>().spec_minus(independence)),
                shared,
            )
            &&& #[trigger] call_ensures(S::powf, (band_max, independence), own)
            &&& #[trigger] call_ensures(S::log10, (spec_over_reference(v, shared, own),), exponent)
            &&& level == spec_level(spec_decibels(exponent), dynamic_range_db, bar_max)
        }
}

/// `levels` are the bars for `raw`, measured by a normalizer that has seen them.
pub open spec fn are_levels<S: Curves>(
    levels: Seq<S>,
    raw: Seq<S>,
    normalizer: Normalizer<S>,
    bar_max: S,
) -> bool {
    &&& levels.len() == raw.len()
    &&& forall|i: int|
        0 <= i < raw.len() ==> is_level(
            #[trigger] levels[i],
            raw[i],
            normalizer.running_max,
            normalizer.band_running_max@[i],
            normalizer.dynamic_range_db,
            normalizer.band_independence,
            bar_max,
        )
}

/// A value over its reference, where `shared` and `own` are the shares that the global
/// peak and the band's own have in it. Values below a hundred-millionth count as that.
pub fn over_reference<S: Scalar>(v: S, shared: S, own: S) -> (r: S)
    ensures
        r == spec_over_reference(v, shared, own),
{
    max_of(v, ratio(1, 100_000_000)).over(shared.times(own))
}

/// The decibels of a ratio with the decimal logarithm `exponent`.
pub fn decibels<S: Scalar>(exponent: S) -> (db: S)
    ensures
        db == spec_decibels(exponent),
{
    S::from_count(20).times(exponent)
}

/// The bar for a value `db` decibels against its reference.
pub fn level<S: Scalar>(db: S, dynamic_range_db: S, bar_max: S) -> (r: S)
    requires
        spec_ratio::<S>(1, 1000).spec_le(bar_max),
    ensures
        r == spec_level(db, dynamic_range_db, bar_max),
{
    let norm: S = clamp(db.plus(dynamic_range_db).over(dynamic_range_db), zero(), one());
    clamp(norm.times(bar_max), ratio(1, 1000), bar_max)
}

impl<S: Scalar> Normalizer<S> {
    /// Every running peak is at a thousandth and loses five thousandths a frame; the
    /// dynamic range is one or above, and the independence within `0..=1`.
    pub open spec fn is_new(self, num_bars: usize, dynamic_range_db: S, band_independence: S) -> bool {
        &&& self.running_max == spec_ratio::<S>(1, 1000)
        &&& self.band_running_max@ == Seq::new(num_bars as nat, |i: int| spec_ratio::<S>(1, 1000))
        &&& self.decay == spec_ratio::<S>(995, 1000)
        &&& self.dynamic_range_db == spec_max(dynamic_range_db, spec_one())
        &&& self.band_independence == spec_clamp(band_independence, spec_zero(), spec_one())
    }

    /// Whether this is `before` with a frame taken into the running peaks.
    pub open spec fn tracks(self, before: Self, raw: Seq<S>) -> bool {
        &&& self.running_max == peak_after(before.running_max, raw, before.decay)
        &&& self.band_running_max@ == band_peaks_after(before.band_running_max@, raw, before.decay)
        &&& self.decay == before.decay
        &&& self.dynamic_range_db == before.dynamic_range_db
        &&& self.band_independence == before.band_independence
    }

    /// A normalizer with every running peak at a thousandth. The dynamic range is
    /// kept at one or above, the independence within `0..=1`.
    pub fn new(num_bars: usize, dynamic_range_db: S, band_independence: S) -> (normalizer: Self)
        ensures
            normalizer.is_new(num_bars, dynamic_range_db, band_independence),
    {
        Normalizer {
            running_max: ratio(1, 1000),
            band_running_max: filled(ratio(1, 1000), num_bars),
            decay: ratio(995, 1000),
            dynamic_range_db: max_of(dynamic_range_db, one()),
            band_independence: clamp(band_independence, zero(), one()),
        }
    }

    /// Takes one frame into the running peaks.
    pub fn track(&mut self, raw: &[S])
        requires
            raw.len() <= old(self).band_running_max.len(),
        ensures
            final(self).tracks(*old(self), raw@),
    {
        let frame_max: S = max_of(peak(raw), ratio(1, 1_000_000));
        self.running_max = max_of(self.running_max.times(self.decay), frame_max);
        let ghost peaks = band_peaks_after(self.band_running_max@, raw@, self.decay);
        let mut i: usize = 0;
        while i < raw.len()
            invariant
                i <= raw.len() <= old(self).band_running_max.len(),
                peaks == band_peaks_after(old(self).band_running_max@, raw@, old(self).decay),
                self.running_max == peak_after(old(self).running_max, raw@, old(self).decay),
                self.band_running_max@ =~= peaks.take(i as int)
                    + old(self).band_running_max@.skip(i as int),
                self.decay == old(self).decay,
                self.dynamic_range_db == old(self).dynamic_range_db,
                self.band_independence == old(self).band_independence,
            decreases raw.len() - i,
        {
            let v: S = max_of(raw[i], ratio(1, 1_000_000));
            let band_max: S = max_of(self.band_running_max[i].times(self.decay), v);
            assert(band_max == peaks[i as int]);
            self.band_running_max.set(i, band_max);
            i += 1;
        }
        assert(self.band_running_max@ =~= peaks);
    }
}

impl<S: Curves> Normalizer<S> {
    /// Whether this is what a frame makes of the normalizer `before`, with `levels`
    /// coming out.
    pub open spec fn follows(self, before: Self, raw: Seq<S>, bar_max: S, levels: Seq<S>) -> bool {
        &&& self.tracks(before, raw)
        &&& are_levels(levels, raw, self, bar_max)
    }

    /// Takes one frame into the running peaks and measures it against them.
    pub fn normalize(&mut self, raw: &[S], bar_max: S) -> (levels: Vec<S>)
        requires
            raw.len() <= old(self).band_running_max.len(),
            raw.len() > 0 ==> spec_ratio::<S>(1, 1000).spec_le(bar_max),
        ensures
            final(self).follows(*old(self), raw@, bar_max, levels@),
    {
        self.track(raw);
        let b: S = self.band_independence;
        let mut levels: Vec<S> = Vec::new();
        let mut i: usize = 0;
        while i < raw.len()
            invariant
                i <= raw.len() <= self.band_running_max.len(),
                raw.len() > 0 ==> spec_ratio::<S>(1, 1000).spec_le(bar_max),
                b == self.band_independence,
                levels.len() == i,
                forall|j: int|
                    0 <= j < i ==> is_level(
                        #[trigger] levels@[j],
                        raw@[j],
                        self.running_max,
                        self.band_running_max@[j],
                        self.dynamic_range_db,
                        b,
                        bar_max,
                    ),
            decreases raw.len() - i,
        {
            let v: S = raw[i];
            let band_max: S = self.band_running_max[i];
            let shared: S = self.running_max.powf(one::<S>().minus(b));
            let own: S = band_max.powf(b);
            let exponent: S = over_reference(v, shared, own).log10();
            let bar: S = level(decibels(exponent), self.dynamic_range_db, bar_max);
            assert(is_level(
                bar,
                v,
                self.running_max,
                band_max,
                self.dynamic_range_db,
                b,
                bar_max,
            ));
            levels.push(bar);
            i += 1;
        }
        levels
    }
}

/// No bar is below 0.001 or above `bar_max`.
pub proof fn law_levels_stay_in_range<S: Scalar>(db: S, dynamic_range_db: S, bar_max: S)
    requires
        spec_ratio::<S>(1, 1000).spec_le(bar_max),
    ensures
        !spec_level(db, dynamic_range_db, bar_max).spec_lt(spec_ratio(1, 1000)),
        !bar_max.spec_lt(spec_level(db, dynamic_range_db, bar_max)),
{
    let norm = spec_clamp(
        db.spec_plus(dynamic_range_db).spec_over(dynamic_range_db),
        spec_zero(),
        spec_one(),
    );
    lemma_clamp_bounds(norm.spec_times(bar_max), spec_ratio::<S>(1, 1000), bar_max);
}

/// A running peak is never below the value just seen.
pub proof fn law_peak_covers_value<S: Scalar>(running: S, decay: S, v: S)
    ensures
        !decayed_peak(running, decay, v).spec_lt(v),
{
    lemma_max_bound(running.spec_times(decay), v);
}

/// Without a louder value, a running peak never rises.
pub proof fn law_peak_decays(running: Fixed, decay: Fixed, v: Fixed)
    requires
        0 <= running.raw,
        0 <= decay.raw <= ONE,
        v.raw <= running.raw,
    ensures
        v.raw <= decayed_peak(running, decay, v).raw <= running.raw,
{
    lemma_times_share(running, decay);
}

/// No bar of a normalized frame is below 0.001 or above `bar_max`.
pub proof fn law_frame_stays_in_range<S: Curves>(
    levels: Seq<S>,
    raw: Seq<S>,
    normalizer: Normalizer<S>,
    bar_max: S,
)
    requires
        spec_ratio::<S>(1, 1000).spec_le(bar_max),
        are_levels(levels, raw, normalizer, bar_max),
    ensures
        forall|i: int|
            0 <= i < levels.len() ==> !(#[trigger] levels[i]).spec_lt(spec_ratio(1, 1000))
                && !bar_max.spec_lt(levels[i]),
{
    assert forall|i: int| 0 <= i < levels.len() implies !(#[trigger] levels[i]).spec_lt(
        spec_ratio(1, 1000),
    ) && !bar_max.spec_lt(levels[i]) by {
        let range = normalizer.dynamic_range_db;
        assert(is_level(
            levels[i],
            raw[i],
            normalizer.running_max,
            normalizer.band_running_max@[i],
            range,
            normalizer.band_independence,
            bar_max,
        ));
        let db = choose|db: S| levels[i] == #[trigger] spec_level(db, range, bar_max);
        law_levels_stay_in_range(db, range, bar_max);
    }
}

/// A value at its reference or above fills the bar; one that lies the whole dynamic
/// range below, or further, leaves it at 0.001.
pub proof fn law_level_endpoints(db: Fixed, dynamic_range_db: Fixed, bar_max: Fixed)
    requires
        0 < dynamic_range_db.raw,
        spec_ratio::<Fixed>(1, 1000).spec_le(bar_max),
    ensures
        0 <= db.raw ==> spec_level(db, dynamic_range_db, bar_max) == bar_max,
        db.raw <= -dynamic_range_db.raw ==> spec_level(db, dynamic_range_db, bar_max)
            == spec_ratio::<Fixed>(1, 1000),
{
    let range = dynamic_range_db;
    let above = db.spec_plus(range);
    let norm = spec_clamp(above.spec_over(range), spec_zero(), spec_one());
    lemma_thousandth();
    if 0 <= db.raw {
        lemma_over_self(range);
        lemma_over_monotone(range, above, range);
        assert(norm == spec_one::<Fixed>());
        lemma_one_is_neutral(bar_max);
        lemma_times_commutes(norm, bar_max);
    }
    if db.raw <= -range.raw {
        lemma_over_sign(above, range);
        assert(norm == spec_zero::<Fixed>());
        lemma_zero_absorbs(bar_max);
    }
}

/// A louder value never gets a lower bar.
pub proof fn law_level_grows(a: Fixed, b: Fixed, dynamic_range_db: Fixed, bar_max: Fixed)
    requires
        a.raw <= b.raw,
        0 < dynamic_range_db.raw,
        spec_ratio::<Fixed>(1, 1000).spec_le(bar_max),
    ensures
        spec_level(a, dynamic_range_db, bar_max).raw <= spec_level(
            b,
            dynamic_range_db,
            bar_max,
        ).raw,
{
    let range = dynamic_range_db;
    let above_a = a.spec_plus(range);
    let above_b = b.spec_plus(range);
    let norm_a = spec_clamp(above_a.spec_over(range), spec_zero(), spec_one());
    let norm_b = spec_clamp(above_b.spec_over(range), spec_zero(), spec_one());
    lemma_thousandth();
    lemma_over_sign(above_a, range);
    if 0 <= above_a.raw {
        lemma_over_monotone(above_a, above_b, range);
    }
    assert(0 <= norm_a.raw <= norm_b.raw);
    lemma_times_commutes(norm_a, bar_max);
    lemma_times_commutes(norm_b, bar_max);
    lemma_times_monotone(bar_max, norm_a, norm_b);
}

/// With a wider dynamic range, a value below its reference never gets a lower bar.
pub proof fn law_wider_range_shows_more(db: Fixed, narrow: Fixed, wide: Fixed, bar_max: Fixed)
    requires
        db.raw <= 0,
        0 < narrow.raw <= wide.raw,
        spec_ratio::<Fixed>(1, 1000).spec_le(bar_max),
    ensures
        spec_level(db, narrow, bar_max).raw <= spec_level(db, wide, bar_max).raw,
{
    let above_n = db.spec_plus(narrow);
    let above_w = db.spec_plus(wide);
    let norm_n = spec_clamp(above_n.spec_over(narrow), spec_zero(), spec_one());
    let norm_w = spec_clamp(above_w.spec_over(wide), spec_zero(), spec_one());
    lemma_thousandth();
    lemma_over_sign(above_n, narrow);
    lemma_over_sign(above_w, wide);
    if 0 < above_n.raw {
        let d = db.raw as int;
        let p = narrow.raw as int;
        let q = wide.raw as int;
        let one = 0x1_0000_0000int;
        assert(above_n.raw == d + p);
        assert(above_w.raw == d + q);
        assert(((d + p) * one) / p <= ((d + q) * one) / q) by (nonlinear_arith)
            requires
                d <= 0,
                0 < p <= q,
                0 < d + p,
                one == 0x1_0000_0000,
        {
            let a = ((d + p) * one) / p;
            assert(a * p <= (d + p) * one);
            assert(a >= 0);
            assert(a <= one) by {
                assert(a * p <= one * p);
            }
            assert(a * q <= (d + q) * one) by {
                assert((one - a) * (q - p) >= 0);
            }
        }
    }
    assert(0 <= norm_n.raw <= norm_w.raw);
    lemma_times_commutes(norm_n, bar_max);
    lemma_times_commutes(norm_w, bar_max);
    lemma_times_monotone(bar_max, norm_n, norm_w);
}

/// The lowest bar is a small positive number.
proof fn lemma_thousandth()
    ensures
        0 < spec_ratio::<Fixed>(1, 1000).raw < ONE,
{
    assert(Fixed::spec_from_count(1).raw == 0x1_0000_0000);
    assert(Fixed::spec_from_count(1000).raw == 1000 * 0x1_0000_0000);
    assert((0x1_0000_0000int * 0x1_0000_0000) / (1000int * 0x1_0000_0000) == 4294967);
}

/// The smallest running peak is a small positive number.
proof fn lemma_millionth()
    ensures
        spec_ratio::<Fixed>(1, 1_000_000).raw == 4294,
{
    assert(Fixed::spec_from_count(1).raw == 0x1_0000_0000);
    assert(Fixed::spec_from_count(1_000_000).raw == 1_000_000 * 0x1_0000_0000);
    assert((0x1_0000_0000int * 0x1_0000_0000) / (1_000_000int * 0x1_0000_0000) == 4294);
}

/// No running peak is below a millionth, and that of no band exceeds the global one.
pub open spec fn peaks_ordered(normalizer: Normalizer<Fixed>) -> bool {
    &&& 0 <= normalizer.decay.raw <= ONE
    &&& spec_ratio::<Fixed>(1, 1_000_000).raw <= normalizer.running_max.raw
    &&& forall|i: int|
        0 <= i < normalizer.band_running_max.len() ==> spec_ratio::<Fixed>(1, 1_000_000).raw <= (
        #[trigger] normalizer.band_running_max@[i]).raw <= normalizer.running_max.raw
}

/// However it is set up, the peaks of a new normalizer are ordered.
pub proof fn law_new_peaks_are_ordered(
    normalizer: Normalizer<Fixed>,
    num_bars: usize,
    dynamic_range_db: Fixed,
    band_independence: Fixed,
)
    requires
        normalizer.is_new(num_bars, dynamic_range_db, band_independence),
    ensures
        peaks_ordered(normalizer),
{
    lemma_millionth();
    assert(Fixed::spec_from_count(995).raw == 995 * 0x1_0000_0000);
    assert(Fixed::spec_from_count(1000).raw == 1000 * 0x1_0000_0000);
    assert((995int * 0x1_0000_0000 * 0x1_0000_0000) / (1000int * 0x1_0000_0000) == 4273492459);
    assert(spec_ratio::<Fixed>(995, 1000).raw == 4273492459);
    assert(Fixed::spec_from_count(1).raw == 0x1_0000_0000);
    assert((0x1_0000_0000int * 0x1_0000_0000) / (1000int * 0x1_0000_0000) == 4294967);
    assert(spec_ratio::<Fixed>(1, 1000).raw == 4294967);
}

/// Every frame keeps the peaks ordered, and leaves no value above the peak of its band.
pub proof fn law_peaks_stay_ordered(
    before: Normalizer<Fixed>,
    after: Normalizer<Fixed>,
    raw: Seq<Fixed>,
)
    requires
        peaks_ordered(before),
        after.tracks(before, raw),
        raw.len() == before.band_running_max.len(),
    ensures
        peaks_ordered(after),
        after.band_running_max.len() == before.band_running_max.len(),
        forall|i: int|
            0 <= i < raw.len() ==> (#[trigger] raw[i]).raw <= after.band_running_max@[i].raw
                <= after.running_max.raw,
{
    lemma_millionth();
    lemma_peak_bounds(raw, Fixed { raw: 0 });
    let decay = before.decay;
    lemma_times_commutes(before.running_max, decay);
    lemma_times_monotone(decay, Fixed { raw: 0 }, before.running_max);
    assert forall|i: int| 0 <= i < raw.len() implies spec_ratio::<Fixed>(1, 1_000_000).raw <= (
    #[trigger] after.band_running_max@[i]).raw <= after.running_max.raw && raw[i].raw
        <= after.band_running_max@[i].raw by {
        let own = before.band_running_max@[i];
        assert(raw[i].raw <= spec_peak(raw).raw);
        lemma_times_commutes(own, decay);
        lemma_times_monotone(decay, own, before.running_max);
    }
    assert forall|i: int| 0 <= i < raw.len() implies (#[trigger] raw[i]).raw
        <= after.band_running_max@[i].raw <= after.running_max.raw by {
        assert(raw[i].raw <= after.band_running_max@[i].raw);
    }
}

/// The peak of a band depends on nothing but its own earlier peak and its own value.
pub proof fn law_band_peak_is_its_own<S: Scalar>(
    peaks_a: Seq<S>,
    peaks_b: Seq<S>,
    raw_a: Seq<S>,
    raw_b: Seq<S>,
    decay: S,
    i: int,
)
    requires
        0 <= i < peaks_a.len(),
        i < peaks_b.len(),
        i < raw_a.len(),
        i < raw_b.len(),
        peaks_a[i] == peaks_b[i],
        raw_a[i] == raw_b[i],
    ensures
        band_peaks_after(peaks_a, raw_a, decay)[i] == band_peaks_after(peaks_b, raw_b, decay)[i],
{
}

/// Powers and logarithms give one result for one set of arguments.
pub open spec fn curves_are_functions<S: Curves>() -> bool {
    &&& forall|x: S, e: S, r: S, s: S|
        #[trigger] call_ensures(S::powf, (x, e), r) && #[trigger] call_ensures(S::powf, (x, e), s)
            ==> r == s
    &&& forall|x: S, r: S, s: S|
        #[trigger] call_ensures(S::log10, (x,), r) && #[trigger] call_ensures(S::log10, (x,), s)
            ==> r == s
}

/// Every power with this exponent is one, as with an exponent of zero.
pub open spec fn powers_are_one<S: Curves>(exponent: S) -> bool {
    forall|x: S, r: S| #[trigger] call_ensures(S::powf, (x, exponent), r) ==> r == spec_one::<S>()
}

/// Where the exponent of the global peak makes every power one, the level of a band
/// depends on nothing but its own value and its own peak.
pub proof fn law_level_is_its_own<S: Curves>(
    level_a: S,
    level_b: S,
    v: S,
    running_a: S,
    running_b: S,
    band_max: S,
    dynamic_range_db: S,
    independence: S,
    bar_max: S,
)
    requires
        curves_are_functions::<S>(),
        powers_are_one(spec_one::<S>().spec_minus(independence)),
        is_level(level_a, v, running_a, band_max, dynamic_range_db, independence, bar_max),
        is_level(level_b, v, running_b, band_max, dynamic_range_db, independence, bar_max),
    ensures
        level_a == level_b,
{
}

/// Each of `states` but the first is what one of the `frames` made of the one before,
/// with the `levels` of that frame coming out.
pub open spec fn saw_frames<S: Curves>(
    states: Seq<Normalizer<S>>,
    frames: Seq<Seq<S>>,
    levels: Seq<Seq<S>>,
    num_bars: usize,
    bar_max: S,
) -> bool {
    &&& states.len() == frames.len() + 1
    &&& levels.len() == frames.len()
    &&& forall|j: int|
        0 <= j < frames.len() ==> {
            &&& states[j + 1].follows(states[j], #[trigger] frames[j], bar_max, levels[j])
            &&& frames[j].len() == num_bars
        }
}

/// With full independence, no bar affects another: two normalizers that saw the same
/// values in a band, whatever they saw in the others, have given it the same levels.
///
/// Full independence leaves the global peak with an exponent of zero; that powers with
/// that exponent are one is what the law takes from the number type.
pub proof fn law_independent_bands<S: Curves>(
    states_a: Seq<Normalizer<S>>,
    states_b: Seq<Normalizer<S>>,
    frames_a: Seq<Seq<S>>,
    frames_b: Seq<Seq<S>>,
    levels_a: Seq<Seq<S>>,
    levels_b: Seq<Seq<S>>,
    num_bars: usize,
    dynamic_range_db: S,
    band_independence: S,
    bar_max: S,
    i: int,
    k: int,
)
    requires
        curves_are_functions::<S>(),
        powers_are_one(
            spec_one::<S>().spec_minus(spec_clamp(band_independence, spec_zero(), spec_one())),
        ),
        saw_frames(states_a, frames_a, levels_a, num_bars, bar_max),
        saw_frames(states_b, frames_b, levels_b, num_bars, bar_max),
        frames_a.len() == frames_b.len(),
        states_a[0].is_new(num_bars, dynamic_range_db, band_independence),
        states_b[0].is_new(num_bars, dynamic_range_db, band_independence),
        forall|j: int| 0 <= j < frames_a.len() ==> #[trigger] frames_a[j][i] == frames_b[j][i],
        0 <= i < num_bars,
        0 <= k < frames_a.len(),
    ensures
        levels_a[k][i] == levels_b[k][i],
{
    lemma_independent_peaks(
        states_a,
        states_b,
        frames_a,
        frames_b,
        levels_a,
        levels_b,
        num_bars,
        dynamic_range_db,
        band_independence,
        bar_max,
        i,
        k + 1,
    );
    let b = spec_clamp(band_independence, spec_zero(), spec_one());
    assert(states_a[k + 1].follows(states_a[k], frames_a[k], bar_max, levels_a[k]));
    assert(states_b[k + 1].follows(states_b[k], frames_b[k], bar_max, levels_b[k]));
    assert(frames_a[k][i] == frames_b[k][i]);
    assert(is_level(
        levels_a[k][i],
        frames_a[k][i],
        states_a[k + 1].running_max,
        states_a[k + 1].band_running_max@[i],
        states_a[k + 1].dynamic_range_db,
        b,
        bar_max,
    ));
    assert(is_level(
        levels_b[k][i],
        frames_b[k][i],
        states_b[k + 1].running_max,
        states_b[k + 1].band_running_max@[i],
        states_b[k + 1].dynamic_range_db,
        b,
        bar_max,
    ));
    law_level_is_its_own(
        levels_a[k][i],
        levels_b[k][i],
        frames_a[k][i],
        states_a[k + 1].running_max,
        states_b[k + 1].running_max,
        states_a[k + 1].band_running_max@[i],
        states_a[k + 1].dynamic_range_db,
        b,
        bar_max,
    );
}

/// Two normalizers that saw the same values in a band have the same peak for it.
proof fn lemma_independent_peaks<S: Curves>(
    states_a: Seq<Normalizer<S>>,
    states_b: Seq<Normalizer<S>>,
    frames_a: Seq<Seq<S>>,
    frames_b: Seq<Seq<S>>,
    levels_a: Seq<Seq<S>>,
    levels_b: Seq<Seq<S>>,
    num_bars: usize,
    dynamic_range_db: S,
    band_independence: S,
    bar_max: S,
    i: int,
    k: int,
)
    requires
        saw_frames(states_a, frames_a, levels_a, num_bars, bar_max),
        saw_frames(states_b, frames_b, levels_b, num_bars, bar_max),
        frames_a.len() == frames_b.len(),
        states_a[0].is_new(num_bars, dynamic_range_db, band_independence),
        states_b[0].is_new(num_bars, dynamic_range_db, band_independence),
        forall|j: int| 0 <= j < frames_a.len() ==> #[trigger] frames_a[j][i] == frames_b[j][i],
        0 <= i < num_bars,
        0 <= k <= frames_a.len(),
    ensures
        states_a[k].band_running_max.len() == num_bars,
        states_b[k].band_running_max.len() == num_bars,
        states_a[k].band_running_max@[i] == states_b[k].band_running_max@[i],
        states_a[k].decay == states_b[k].decay,
        states_a[k].dynamic_range_db == states_b[k].dynamic_range_db,
        states_a[k].band_independence == spec_clamp(band_independence, spec_zero(), spec_one()),
        states_b[k].band_independence == spec_clamp(band_independence, spec_zero(), spec_one()),
    decreases k,
{
    if k > 0 {
        lemma_independent_peaks(
            states_a,
            states_b,
            frames_a,
            frames_b,
            levels_a,
            levels_b,
            num_bars,
            dynamic_range_db,
            band_independence,
            bar_max,
            i,
            k - 1,
        );
        assert(states_a[k - 1 + 1].tracks(states_a[k - 1], frames_a[k - 1]));
        assert(states_b[k - 1 + 1].tracks(states_b[k - 1], frames_b[k - 1]));
        assert(frames_a[k - 1][i] == frames_b[k - 1][i]);
        law_band_peak_is_its_own(
            states_a[k - 1].band_running_max@,
            states_b[k - 1].band_running_max@,
            frames_a[k - 1],
            frames_b[k - 1],
            states_a[k - 1].decay,
            i,
        );
    }
}

/// A louder value never gets a lower bar, in every arithmetic that keeps the order.
pub proof fn law_level_keeps_order<S: Scalar>(a: S, b: S, dynamic_range_db: S, bar_max: S)
    requires
        total_order::<S>(),
        ordered_arithmetic::<S>(),
        a.spec_le(b),
        spec_zero::<S>().spec_lt(dynamic_range_db),
        spec_zero::<S>().spec_le(bar_max),
    ensures
        spec_level(a, dynamic_range_db, bar_max).spec_le(spec_level(b, dynamic_range_db, bar_max)),
{
    let range = dynamic_range_db;
    let x = a.spec_plus(range).spec_over(range);
    let y = b.spec_plus(range).spec_over(range);
    assert(a.spec_plus(range).spec_le(b.spec_plus(range)));
    assert(x.spec_le(y));
    lemma_clamp_keeps_order(x, y, spec_zero(), spec_one());
    let p = spec_clamp(x, spec_zero::<S>(), spec_one());
    let q = spec_clamp(y, spec_zero::<S>(), spec_one());
    assert(p.spec_times(bar_max).spec_le(q.spec_times(bar_max)));
    lemma_clamp_keeps_order(
        p.spec_times(bar_max),
        q.spec_times(bar_max),
        spec_ratio::<S>(1, 1000),
        bar_max,
    );
}

/// Every power with this exponent is its base, as with an exponent of one.
pub open spec fn powers_are_bases<S: Curves>(exponent: S) -> bool {
    forall|x: S, r: S| #[trigger] call_ensures(S::powf, (x, exponent), r) ==> r == x
}

/// The logarithm grows, and is zero at one.
pub open spec fn logarithm_grows<S: Curves>() -> bool {
    &&& forall|x: S, y: S, r: S, s: S|
        x.spec_le(y) && #[trigger] call_ensures(S::log10, (x,), r) && #[trigger] call_ensures(
            S::log10,
            (y,),
            s,
        ) ==> r.spec_le(s)
    &&& forall|r: S|
        #[trigger] call_ensures(S::log10, (spec_one::<S>(),), r) ==> r == spec_zero::<S>()
}

/// The logarithm that a level was made from, where all bands share the global peak.
proof fn lemma_shared_exponent<S: Curves>(
    levels: Seq<S>,
    raw: Seq<S>,
    normalizer: Normalizer<S>,
    bar_max: S,
    i: int,
) -> (exponent: S)
    requires
        are_levels(levels, raw, normalizer, bar_max),
        powers_are_bases(spec_one::<S>().spec_minus(normalizer.band_independence)),
        powers_are_one(normalizer.band_independence),
        0 <= i < raw.len(),
    ensures
        call_ensures(
            S::log10,
            (spec_over_reference(raw[i], normalizer.running_max, spec_one::<S>()),),
            exponent,
        ),
        levels[i] == spec_level(spec_decibels(exponent), normalizer.dynamic_range_db, bar_max),
{
    let b = normalizer.band_independence;
    assert(is_level(
        levels[i],
        raw[i],
        normalizer.running_max,
        normalizer.band_running_max@[i],
        normalizer.dynamic_range_db,
        b,
        bar_max,
    ));
    let (shared, own, exponent) = choose|shared: S, own: S, exponent: S|
        {
            &&& #[trigger] call_ensures(
                S::powf,
                (normalizer.running_max, spec_one::<S>().spec_minus(b)),
                shared,
            )
            &&& #[trigger] call_ensures(S::powf, (normalizer.band_running_max@[i], b), own)
            &&& #[trigger] call_ensures(
                S::log10,
                (spec_over_reference(raw[i], shared, own),),
                exponent,
            )
            &&& levels[i] == spec_level(
                spec_decibels(exponent),
                normalizer.dynamic_range_db,
                bar_max,
            )
        };
    exponent
}

/// Without independence all bands are measured against the global peak: of two values
/// the larger never gets the lower bar.
///
/// No independence leaves the global peak with an exponent of one and the band's own
/// with zero; what powers with these exponents are is what the law takes from the number
/// type, with how the logarithm runs.
pub proof fn law_shared_reference_keeps_order<S: Curves>(
    levels: Seq<S>,
    raw: Seq<S>,
    normalizer: Normalizer<S>,
    bar_max: S,
    i: int,
    j: int,
)
    requires
        are_levels(levels, raw, normalizer, bar_max),
        total_order::<S>(),
        ordered_arithmetic::<S>(),
        powers_are_bases(spec_one::<S>().spec_minus(normalizer.band_independence)),
        powers_are_one(normalizer.band_independence),
        logarithm_grows::<S>(),
        unit_arithmetic(normalizer.running_max),
        spec_zero::<S>().spec_lt(normalizer.running_max),
        spec_zero::<S>().spec_lt(normalizer.dynamic_range_db),
        spec_zero::<S>().spec_le(bar_max),
        0 <= i < raw.len(),
        0 <= j < raw.len(),
        raw[i].spec_le(raw[j]),
    ensures
        levels[i].spec_le(levels[j]),
{
    let least = spec_ratio::<S>(1, 100_000_000);
    let peak = normalizer.running_max;
    let a = lemma_shared_exponent(levels, raw, normalizer, bar_max, i);
    let b = lemma_shared_exponent(levels, raw, normalizer, bar_max, j);
    lemma_max_keeps_order(raw[i], raw[j], least);
    assert(peak.spec_times(spec_one()) == peak);
    assert(spec_max(raw[i], least).spec_over(peak).spec_le(
        spec_max(raw[j], least).spec_over(peak),
    ));
    assert(a.spec_le(b));
    let twenty = S::spec_from_count(20);
    assert(spec_zero::<S>().spec_le(twenty));
    assert(twenty.spec_times(a).spec_le(twenty.spec_times(b)));
    law_level_keeps_order(
        spec_decibels(a),
        spec_decibels(b),
        normalizer.dynamic_range_db,
        bar_max,
    );
}

/// Without independence, a band at the global peak fills its bar.
pub proof fn law_global_peak_fills_bar<S: Curves>(
    levels: Seq<S>,
    raw: Seq<S>,
    normalizer: Normalizer<S>,
    bar_max: S,
    i: int,
)
    requires
        are_levels(levels, raw, normalizer, bar_max),
        total_order::<S>(),
        ordered_arithmetic::<S>(),
        powers_are_bases(spec_one::<S>().spec_minus(normalizer.band_independence)),
        powers_are_one(normalizer.band_independence),
        logarithm_grows::<S>(),
        unit_arithmetic(normalizer.running_max),
        unit_arithmetic(normalizer.dynamic_range_db),
        unit_arithmetic(S::spec_from_count(20)),
        unit_arithmetic(bar_max),
        spec_zero::<S>().spec_lt(normalizer.running_max),
        spec_ratio::<S>(1, 100_000_000).spec_le(normalizer.running_max),
        spec_zero::<S>().spec_lt(normalizer.dynamic_range_db),
        spec_ratio::<S>(1, 1000).spec_le(bar_max),
        0 <= i < raw.len(),
        raw[i] == normalizer.running_max,
    ensures
        levels[i] == bar_max,
{
    let least = spec_ratio::<S>(1, 100_000_000);
    let peak = normalizer.running_max;
    let range = normalizer.dynamic_range_db;
    let zero = spec_zero::<S>();
    let one = spec_one::<S>();
    let a = lemma_shared_exponent(levels, raw, normalizer, bar_max, i);
    S::lt_implies_le(peak, peak);
    assert(peak.spec_lt(peak) <==> !peak.spec_le(peak));
    S::le_excludes_gt(least, peak);
    assert(spec_over_reference(peak, peak, one) == one);
    assert(a == zero);
    assert(spec_decibels(a) == zero);
    assert(zero.spec_plus(range).spec_over(range) == one);
    assert(zero.spec_le(one));
    S::le_excludes_gt(zero, one);
    lemma_lt_irreflexive(one);
    assert(spec_clamp(one, zero, one) == one);
    S::le_excludes_gt(spec_ratio::<S>(1, 1000), bar_max);
    lemma_lt_irreflexive(bar_max);
}

/// In every arithmetic that keeps the order, a frame leaves no value above the peak of
/// its band, and no band's peak above the global one if none was.
pub proof fn law_peaks_keep_order<S: Scalar>(
    before: Normalizer<S>,
    after: Normalizer<S>,
    raw: Seq<S>,
    i: int,
)
    requires
        total_order::<S>(),
        ordered_arithmetic::<S>(),
        after.tracks(before, raw),
        spec_zero::<S>().spec_le(before.decay),
        0 <= i < raw.len(),
        i < before.band_running_max.len(),
        before.band_running_max@[i].spec_le(before.running_max),
    ensures
        raw[i].spec_le(after.band_running_max@[i]),
        spec_ratio::<S>(1, 1_000_000).spec_le(after.band_running_max@[i]),
        after.band_running_max@[i].spec_le(after.running_max),
{
    let least = spec_ratio::<S>(1, 1_000_000);
    let top = spec_peak(raw);
    let old_own = before.band_running_max@[i].spec_times(before.decay);
    let old_top = before.running_max.spec_times(before.decay);
    lemma_peak_covers(raw, i);
    lemma_max_keeps_order(raw[i], top, least);
    let v = spec_max(raw[i], least);
    let w = spec_max(top, least);
    assert(old_own.spec_le(old_top));
    assert(after.band_running_max@[i] == spec_max(old_own, v));
    assert(after.running_max == spec_max(old_top, w));
    S::lt_implies_le(old_own, old_own);
    assert(old_own.spec_lt(old_own) <==> !old_own.spec_le(old_own));
    lemma_max_keeps_order(old_own, old_own, v);
    S::lt_implies_le(old_top, old_top);
    assert(old_top.spec_lt(old_top) <==> !old_top.spec_le(old_top));
    lemma_max_keeps_order(old_top, old_top, w);
    let shown = spec_max(old_own, v);
    let all = spec_max(old_top, w);
    assert(raw[i].spec_le(v) && v.spec_le(shown));
    assert(least.spec_le(v));
    assert(old_own.spec_le(old_top) && old_top.spec_le(all));
    assert(v.spec_le(w) && w.spec_le(all));
}

/// A level in whole numbers. Between the whole dynamic range below the reference and the
/// reference it is the part of the full bar that `db` is up the range, but for rounding,
/// and no lower than 0.001.
pub proof fn law_level_in_numbers(db: Fixed, range: Fixed, bar_max: Fixed)
    requires
        0 < range.raw,
        -range.raw <= db.raw <= 0,
        spec_ratio::<Fixed>(1, 1000).spec_le(bar_max),
    ensures
        ({
            let one = 0x1_0000_0000int;
            let level = spec_level(db, range, bar_max).raw;
            let exact = (db.raw + range.raw) * bar_max.raw;
            &&& one / 1000 <= level <= bar_max.raw
            &&& level == one / 1000 || range.raw * level <= exact
            &&& one * exact <= one * (range.raw * (level + 1)) + range.raw * bar_max.raw
        }),
{
    let one = 0x1_0000_0000int;
    law_fractions(1, 1000);
    assert(spec_ratio::<Fixed>(1, 1000).raw == one / 1000);
    let up = db.spec_plus(range);
    assert(up.raw == db.raw + range.raw);
    let r = range.raw as int;
    let x = up.raw * one;
    assert(0 * r <= x <= one * r);
    lemma_quotient_between(x, r, 0, one);
    lemma_quotient_bounds(x, r);
    let norm = spec_clamp(up.spec_over(range), spec_zero(), spec_one::<Fixed>());
    assert(norm.raw == truncated_quotient(x, r));
    lemma_times_commutes(norm, bar_max);
    law_share_is_near(bar_max, norm);
    let b = bar_max.raw as int;
    let m = norm.raw as int;
    let bm = b * m;
    assert(0 <= bm) by (nonlinear_arith)
        requires
            0 <= b,
            0 <= m,
            bm == b * m,
    ;
    let l = norm.spec_times(bar_max).raw as int;
    lemma_quotient_bounds(bm, one);
    lemma_level_chain(one, r, up.raw as int, b, m, l, spec_level(db, range, bar_max).raw as int);
}

/// A part of a number, where the part is `u` parts in `r` but for less than one unit.
pub proof fn lemma_level_chain(one: int, r: int, u: int, b: int, m: int, l: int, level: int)
    requires
        0 < one,
        0 < r,
        0 <= u,
        0 <= b,
        r * m <= u * one < r * m + r,
        one * l <= b * m < one * l + one,
        l <= level,
    ensures
        r * l <= u * b,
        one * (u * b) <= one * (r * (level + 1)) + r * b,
{
    let rl = r * l;
    let ub = u * b;
    assert(one * rl <= b * (r * m)) by (nonlinear_arith)
        requires
            0 < r,
            one * l <= b * m,
            rl == r * l,
    ;
    assert(b * (r * m) <= one * ub) by (nonlinear_arith)
        requires
            0 <= b,
            r * m <= u * one,
            ub == u * b,
    ;
    assert(rl <= ub) by (nonlinear_arith)
        requires
            0 < one,
            one * rl <= one * ub,
    ;
    assert(one * ub <= b * (r * m) + b * r) by (nonlinear_arith)
        requires
            0 <= b,
            u * one < r * m + r,
            ub == u * b,
    ;
    assert(b * (r * m) <= r * (one * l + one)) by (nonlinear_arith)
        requires
            0 < r,
            b * m < one * l + one,
    ;
    assert(r * (one * l + one) <= one * (r * (level + 1))) by (nonlinear_arith)
        requires
            0 < r,
            0 < one,
            l <= level,
    ;
    assert(b * r == r * b) by (nonlinear_arith);
}

/// A value over its reference in whole numbers: times the product of the two shares it
/// is the value, but for less than one unit. Values below a hundred-millionth count as
/// that.
pub proof fn law_over_reference_in_numbers(v: Fixed, shared: Fixed, own: Fixed)
    requires
        0 < shared.raw,
        0 < own.raw,
        0x1_0000_0000 <= shared.raw * own.raw <= i64::MAX * 0x1_0000_0000,
        v.raw * (0x1_0000_0000 * 0x1_0000_0000) <= i64::MAX * (shared.raw * own.raw
            - 0x1_0000_0000),
        42 * (0x1_0000_0000 * 0x1_0000_0000) <= i64::MAX * (shared.raw * own.raw - 0x1_0000_0000),
    ensures
        ({
            let one = 0x1_0000_0000int;
            let r = spec_over_reference(v, shared, own).raw;
            let top = if v.raw < one / 100_000_000 {
                one / 100_000_000
            } else {
                v.raw as int
            };
            let product = shared.raw * own.raw;
            &&& 0 <= r
            &&& (product - one) * r <= (one * one) * top
            &&& (one * one) * top < product * (r + 1)
        }),
{
    let one = 0x1_0000_0000int;
    law_fractions(1, 100_000_000);
    assert(spec_ratio::<Fixed>(1, 100_000_000).raw == one / 100_000_000);
    let product = shared.raw * own.raw;
    law_product_is_near(shared, own);
    let m = shared.spec_times(own);
    assert(0 < m.raw);
    let top = spec_max(v, spec_ratio::<Fixed>(1, 100_000_000));
    let x = top.raw as int;
    assert(x * one <= i64::MAX * m.raw) by (nonlinear_arith)
        requires
            x * (one * one) <= i64::MAX * (product - one),
            product - one < one * m.raw,
            one == 0x1_0000_0000,
            0 < m.raw,
    ;
    assert(i64::MIN * m.raw <= 0) by (nonlinear_arith)
        requires
            0 < m.raw,
    ;
    law_quotient_is_near(top, m);
    let r = spec_over_reference(v, shared, own).raw as int;
    let q = m.raw as int;
    assert((product - one) * r <= one * (q * r)) by (nonlinear_arith)
        requires
            product - one < one * q,
            0 <= r,
    ;
    assert(one * (q * r) <= one * (x * one)) by (nonlinear_arith)
        requires
            q * r <= x * one,
            0 < one,
    ;
    assert(one * (x * one) == (one * one) * x) by (nonlinear_arith);
    assert(one * (x * one) < one * (q * (r + 1))) by (nonlinear_arith)
        requires
            x * one < q * r + q,
            0 < one,
    ;
    assert(one * (q * (r + 1)) <= product * (r + 1)) by (nonlinear_arith)
        requires
            one * q <= product,
            0 <= r,
    ;
}

/// A ratio of ten to the power of `exponent` is twenty times that in decibels.
pub proof fn law_decibels_in_numbers(exponent: Fixed)
    requires
        i64::MIN <= 20 * exponent.raw <= i64::MAX,
    ensures
        spec_decibels(exponent).raw == 20 * exponent.raw,
{
    let twenty = Fixed::spec_from_count(20);
    assert(twenty.raw == 20 * 0x1_0000_0000);
    lemma_times_whole(exponent, 20);
    lemma_times_commutes(twenty, exponent);
}

/// How a frame moves the running peaks, in whole numbers, and that it changes nothing
/// else: each decays, and rises to its own value, the global one to the largest of all,
/// and none lies below a millionth. Bands without a value keep theirs.
pub proof fn law_peaks_in_numbers(
    before: Normalizer<Fixed>,
    after: Normalizer<Fixed>,
    raw: Seq<Fixed>,
    i: int,
)
    requires
        after.tracks(before, raw),
        0 <= before.decay.raw <= ONE,
        0 <= before.running_max.raw,
        0 <= i < before.band_running_max.len(),
        0 <= before.band_running_max@[i].raw,
    ensures
        after.band_running_max.len() == before.band_running_max.len(),
        after.decay == before.decay,
        after.dynamic_range_db == before.dynamic_range_db,
        after.band_independence == before.band_independence,
        i >= raw.len() ==> after.band_running_max@[i] == before.band_running_max@[i],
        i < raw.len() ==> peak_in_numbers(
            before.band_running_max@[i].raw as int,
            before.decay.raw as int,
            raw[i].raw as int,
            after.band_running_max@[i].raw as int,
        ),
        peak_in_numbers(
            before.running_max.raw as int,
            before.decay.raw as int,
            spec_peak(raw).raw as int,
            after.running_max.raw as int,
        ),
{
    law_fractions(1, 1_000_000);
    assert(spec_ratio::<Fixed>(1, 1_000_000).raw == 0x1_0000_0000int / 1_000_000);
    lemma_decayed(before.running_max, before.decay);
    lemma_decayed(before.band_running_max@[i], before.decay);
}

/// `next` is the largest of what has decayed of `peak`, but for less than one unit, the
/// value `v` and a millionth.
pub open spec fn peak_in_numbers(peak: int, decay: int, v: int, next: int) -> bool {
    &&& v <= next
    &&& 0x1_0000_0000int / 1_000_000 <= next
    &&& peak * decay < 0x1_0000_0000 * (next + 1)
    &&& next == v || next == 0x1_0000_0000int / 1_000_000 || 0x1_0000_0000 * next <= peak * decay
}

/// What decays of a peak, rounded down.
proof fn lemma_decayed(peak: Fixed, decay: Fixed)
    requires
        0 <= peak.raw,
        0 <= decay.raw <= ONE,
    ensures
        0x1_0000_0000 * peak.spec_times(decay).raw <= peak.raw * decay.raw,
        peak.raw * decay.raw < 0x1_0000_0000 * (peak.spec_times(decay).raw + 1),
{
    let p = peak.raw * decay.raw;
    assert(0 <= p <= peak.raw * 0x1_0000_0000) by (nonlinear_arith)
        requires
            0 <= peak.raw,
            0 <= decay.raw <= 0x1_0000_0000,
            p == peak.raw * decay.raw,
    ;
    law_product_is_near(peak, decay);
}

/// How a new normalizer is set up, in whole numbers.
pub proof fn law_new_normalizer(
    normalizer: Normalizer<Fixed>,
    num_bars: usize,
    dynamic_range_db: Fixed,
    band_independence: Fixed,
)
    requires
        normalizer.is_new(num_bars, dynamic_range_db, band_independence),
    ensures
        normalizer.running_max.raw == 0x1_0000_0000int / 1000,
        normalizer.band_running_max.len() == num_bars,
        forall|i: int|
            0 <= i < num_bars ==> (#[trigger] normalizer.band_running_max@[i]).raw
                == 0x1_0000_0000int / 1000,
        normalizer.decay.raw == 995 * 0x1_0000_0000int / 1000,
        dynamic_range_db.raw >= 0x1_0000_0000 ==> normalizer.dynamic_range_db == dynamic_range_db,
        dynamic_range_db.raw <= 0x1_0000_0000 ==> normalizer.dynamic_range_db.raw == 0x1_0000_0000,
        0 <= band_independence.raw <= 0x1_0000_0000 ==> normalizer.band_independence
            == band_independence,
        band_independence.raw <= 0 ==> normalizer.band_independence.raw == 0,
        band_independence.raw >= 0x1_0000_0000 ==> normalizer.band_independence.raw
            == 0x1_0000_0000,
{
    law_fractions(1, 1000);
    law_fractions(995, 1000);
    assert(spec_ratio::<Fixed>(1, 1000).raw == 0x1_0000_0000int / 1000);
    assert(spec_ratio::<Fixed>(995, 1000).raw == 995 * 0x1_0000_0000int / 1000);
}

/// Powers of one base with two exponents that make up one multiply to the base.
pub open spec fn powers_recombine<S: Curves>(independence: S) -> bool {
    forall|x: S, r: S, s: S|
        #[trigger] call_ensures(S::powf, (x, spec_one::<S>().spec_minus(independence)), r)
            && #[trigger] call_ensures(S::powf, (x, independence), s) ==> r.spec_times(s) == x
}

/// Whatever the independence, where the peak of a band is the global one the reference
/// is that peak, and a value at it fills the bar.
pub proof fn law_equal_peaks_fill_bar<S: Curves>(
    levels: Seq<S>,
    raw: Seq<S>,
    normalizer: Normalizer<S>,
    bar_max: S,
    i: int,
)
    requires
        are_levels(levels, raw, normalizer, bar_max),
        total_order::<S>(),
        ordered_arithmetic::<S>(),
        powers_recombine(normalizer.band_independence),
        logarithm_grows::<S>(),
        unit_arithmetic(normalizer.running_max),
        unit_arithmetic(normalizer.dynamic_range_db),
        unit_arithmetic(S::spec_from_count(20)),
        unit_arithmetic(bar_max),
        spec_zero::<S>().spec_lt(normalizer.running_max),
        spec_ratio::<S>(1, 100_000_000).spec_le(normalizer.running_max),
        spec_zero::<S>().spec_lt(normalizer.dynamic_range_db),
        spec_ratio::<S>(1, 1000).spec_le(bar_max),
        0 <= i < raw.len(),
        normalizer.band_running_max@[i] == normalizer.running_max,
        raw[i] == normalizer.running_max,
    ensures
        levels[i] == bar_max,
{
    let least = spec_ratio::<S>(1, 100_000_000);
    let peak = normalizer.running_max;
    let range = normalizer.dynamic_range_db;
    let b = normalizer.band_independence;
    let zero = spec_zero::<S>();
    let one = spec_one::<S>();
    assert(is_level(levels[i], raw[i], peak, peak, range, b, bar_max));
    let (shared, own, exponent) = choose|shared: S, own: S, exponent: S|
        {
            &&& #[trigger] call_ensures(S::powf, (peak, one.spec_minus(b)), shared)
            &&& #[trigger] call_ensures(S::powf, (peak, b), own)
            &&& #[trigger] call_ensures(
                S::log10,
                (spec_over_reference(peak, shared, own),),
                exponent,
            )
            &&& levels[i] == spec_level(spec_decibels(exponent), range, bar_max)
        };
    assert(shared.spec_times(own) == peak);
    S::lt_implies_le(peak, peak);
    assert(peak.spec_lt(peak) <==> !peak.spec_le(peak));
    S::le_excludes_gt(least, peak);
    assert(spec_over_reference(peak, shared, own) == one);
    assert(exponent == zero);
    assert(spec_decibels(exponent) == zero);
    assert(zero.spec_plus(range).spec_over(range) == one);
    assert(zero.spec_le(one));
    S::le_excludes_gt(zero, one);
    lemma_lt_irreflexive(one);
    assert(spec_clamp(one, zero, one) == one);
    S::le_excludes_gt(spec_ratio::<S>(1, 1000), bar_max);
    lemma_lt_irreflexive(bar_max);
}

} // verus!
