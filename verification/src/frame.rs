//! What a frame needs before and after the transform, and when it is due.

use vstd::prelude::*;

use crate::fixed::{
    lemma_one_is_neutral, lemma_quotient_adds, lemma_quotient_bounds, lemma_quotient_cancels,
    lemma_quotient_exact, lemma_quotient_shrinks, lemma_times_whole, Fixed,
};
use crate::fixed_laws::{law_fractions, law_product_is_near, law_share_is_near};
use crate::scalar::{one, ratio, spec_one, spec_ratio, spec_zero, zero, Curves, Scalar};

verus! {

/// The angle of entry `i` of a window of `size` entries: its share of a full turn.
pub open spec fn spec_hann_angle<S: Scalar>(i: usize, size: usize, turn: S) -> S {
    turn.spec_times(S::spec_from_count(i)).spec_over(S::spec_from_count(size).spec_minus(spec_one()))
}

/// The angle of entry `i` of a window of `size` entries, where `turn` is that of a full
/// turn.
pub fn hann_angle<S: Scalar>(i: usize, size: usize, turn: S) -> (angle: S)
    ensures
        angle == spec_hann_angle(i, size, turn),
{
    turn.times(S::from_count(i)).over(S::from_count(size).minus(one()))
}

/// The weight of an entry whose angle has the cosine `c`.
pub open spec fn spec_hann_weight<S: Scalar>(c: S) -> S {
    spec_ratio::<S>(1, 2).spec_minus(spec_ratio::<S>(1, 2).spec_times(c))
}

/// The weight of an entry whose angle has the cosine `c`: half of one less the cosine.
pub fn hann_weight<S: Scalar>(c: S) -> (weight: S)
    ensures
        weight == spec_hann_weight(c),
{
    ratio::<S>(1, 2).minus(ratio::<S>(1, 2).times(c))
}

/// `weight` is entry `i` of a Hann window of `size` entries.
pub open spec fn is_hann_weight<S: Curves>(weight: S, i: int, size: usize, turn: S) -> bool {
    exists|c: S|
        {
            &&& #[trigger] call_ensures(S::cos, (spec_hann_angle(i as usize, size, turn),), c)
            &&& weight == spec_hann_weight(c)
        }
}

/// The Hann window of `size` entries; `turn` is the angle of a full turn.
pub fn hann_window<S: Curves>(size: usize, turn: S) -> (window: Vec<S>)
    ensures
        window.len() == size,
        forall|i: int| 0 <= i < size ==> is_hann_weight(#[trigger] window@[i], i, size, turn),
{
    let mut window: Vec<S> = Vec::new();
    let mut i: usize = 0;
    while i < size
        invariant
            i <= size,
            window.len() == i,
            forall|j: int| 0 <= j < i ==> is_hann_weight(#[trigger] window@[j], j, size, turn),
        decreases size - i,
    {
        let angle: S = hann_angle(i, size, turn);
        let c: S = angle.cos();
        let weight: S = hann_weight(c);
        assert(angle == spec_hann_angle((i as int) as usize, size, turn));
        assert(is_hann_weight(weight, i as int, size, turn));
        window.push(weight);
        i += 1;
    }
    window
}

/// The samples under the window, and zeros up to `padded_size`.
pub open spec fn spec_windowed<S: Scalar>(samples: Seq<S>, window: Seq<S>, padded_size: usize) -> Seq<
    S,
> {
    Seq::new(
        padded_size as nat,
        |i: int|
            if i < samples.len() {
                samples[i].spec_times(window[i])
            } else {
                spec_zero()
            },
    )
}

/// The input of the transform: the samples under the window, padded with zeros.
pub fn windowed<S: Scalar>(samples: &[S], window: &[S], padded_size: usize) -> (out: Vec<S>)
    requires
        samples.len() <= window.len(),
        samples.len() <= padded_size,
    ensures
        out@ == spec_windowed(samples@, window@, padded_size),
{
    let mut out: Vec<S> = Vec::new();
    let mut i: usize = 0;
    while i < padded_size
        invariant
            samples.len() <= window.len(),
            samples.len() <= padded_size,
            i <= padded_size,
            out@ =~= spec_windowed(samples@, window@, padded_size).take(i as int),
        decreases padded_size - i,
    {
        if i < samples.len() {
            out.push(samples[i].times(window[i]));
        } else {
            out.push(zero());
        }
        i += 1;
    }
    out
}

/// How many hertz one bin of the transform spans.
pub fn bin_width<S: Scalar>(sample_rate: u32, padded_size: usize) -> (hz: S)
    ensures
        hz == S::spec_from_count(sample_rate as usize).spec_over(S::spec_from_count(padded_size)),
{
    S::from_count(sample_rate as usize).over(S::from_count(padded_size))
}

/// How long to sleep after a frame that took `elapsed`, so that frames start
/// `interval` apart; `None` where the frame took that long or longer.
pub fn time_to_sleep(elapsed: u128, interval: u128) -> (rest: Option<u128>)
    ensures
        match rest {
            Some(t) => elapsed < interval && t == interval - elapsed,
            None => interval <= elapsed,
        },
{
    if elapsed < interval {
        Some(interval - elapsed)
    } else {
        None
    }
}

/// Counts frames, and says at every `every`th that diagnostics are due.
pub struct DebugTicker {
    pub count: u64,
    pub every: u64,
}

/// Whether diagnostics are due at frame `count`.
pub open spec fn due(count: int, every: int) -> bool {
    count % every == 0
}

impl DebugTicker {
    /// A ticker before its first frame.
    pub fn new(every: u64) -> (ticker: Self)
        requires
            every > 0,
        ensures
            ticker.count == 0,
            ticker.every == every,
    {
        DebugTicker { count: 0, every }
    }

    /// Counts a frame.
    pub fn tick(&mut self) -> (r: bool)
        requires
            old(self).every > 0,
            old(self).count < u64::MAX,
        ensures
            final(self).count == old(self).count + 1,
            final(self).every == old(self).every,
            r == due(final(self).count as int, old(self).every as int),
    {
        self.count = self.count + 1;
        self.count % self.every == 0
    }
}

/// Among any `every` successive frames, diagnostics are due at exactly one.
pub proof fn law_due_once_in_every(start: int, every: int) -> (at: int)
    requires
        every > 0,
    ensures
        start <= at < start + every,
        due(at, every),
        forall|k: int| start <= k < start + every && #[trigger] due(k, every) ==> k == at,
{
    let r = start % every;
    let at = if r == 0 {
        start
    } else {
        start + every - r
    };
    vstd::arithmetic::div_mod::lemma_fundamental_div_mod(start, every);
    let q = start / every;
    let m = if r == 0 {
        q
    } else {
        q + 1
    };
    assert(at == every * m) by (nonlinear_arith)
        requires
            start == every * q + r,
            r == 0 ==> at == start && m == q,
            r != 0 ==> at == start + every - r && m == q + 1,
    ;
    assert((every * m) % every == 0) by {
        vstd::arithmetic::div_mod::lemma_mod_multiples_basic(m, every);
        vstd::arithmetic::mul::lemma_mul_is_commutative(m, every);
    }
    assert forall|k: int| start <= k < start + every && #[trigger] due(k, every) implies k
        == at by {
        vstd::arithmetic::div_mod::lemma_fundamental_div_mod(k, every);
        let p = k / every;
        assert(p == m) by (nonlinear_arith)
            requires
                k == every * p,
                at == every * m,
                -every < k - at < every,
                every > 0,
        ;
    }
    at
}

/// What comes out of the window: a sample times its weight, but for less than one unit,
/// and silence past the samples.
pub proof fn law_windowed_samples(
    samples: Seq<Fixed>,
    window: Seq<Fixed>,
    padded_size: usize,
    i: int,
)
    requires
        samples.len() <= window.len(),
        samples.len() <= padded_size,
        0 <= i < padded_size,
        i < samples.len() ==> i64::MIN < samples[i].raw && -0x1_0000_0000 <= window[i].raw
            <= 0x1_0000_0000,
    ensures
        spec_windowed(samples, window, padded_size).len() == padded_size,
        i < samples.len() ==> -0x1_0000_0000 < 0x1_0000_0000 * spec_windowed(
            samples,
            window,
            padded_size,
        )[i].raw - samples[i].raw * window[i].raw < 0x1_0000_0000,
        i >= samples.len() ==> spec_windowed(samples, window, padded_size)[i].raw == 0,
{
    if i < samples.len() {
        law_share_is_near(samples[i], window[i]);
    }
}

/// Turning the samples over turns over what comes out of the window.
pub proof fn law_windowing_is_odd(
    samples: Seq<Fixed>,
    negated: Seq<Fixed>,
    window: Seq<Fixed>,
    padded_size: usize,
    i: int,
)
    requires
        samples.len() == negated.len(),
        samples.len() <= window.len(),
        samples.len() <= padded_size,
        0 <= i < padded_size,
        forall|j: int|
            0 <= j < samples.len() ==> #[trigger] negated[j].raw == -samples[j].raw
                && i64::MIN < samples[j].raw,
        forall|j: int|
            0 <= j < window.len() ==> -0x1_0000_0000 <= (#[trigger] window[j]).raw
                <= 0x1_0000_0000,
    ensures
        spec_windowed(negated, window, padded_size)[i].raw == -spec_windowed(
            samples,
            window,
            padded_size,
        )[i].raw,
{
    if i < samples.len() {
        let x = samples[i];
        let y = negated[i];
        let w = window[i];
        assert(y.raw == -x.raw);
        law_share_is_near(x, w);
        law_share_is_near(y, w);
        assert(y.raw * w.raw == -(x.raw * w.raw)) by (nonlinear_arith)
            requires
                y.raw == -x.raw,
        ;
    }
}

/// The window of a sum is the sum of the windows, but for one unit.
pub proof fn law_windowing_adds(
    a: Seq<Fixed>,
    b: Seq<Fixed>,
    sum: Seq<Fixed>,
    window: Seq<Fixed>,
    padded_size: usize,
    i: int,
)
    requires
        a.len() == b.len() == sum.len(),
        a.len() <= window.len(),
        a.len() <= padded_size,
        0 <= i < padded_size,
        forall|j: int|
            0 <= j < a.len() ==> #[trigger] sum[j].raw == a[j].raw + b[j].raw && i64::MIN
                < a[j].raw && i64::MIN < b[j].raw && i64::MIN < sum[j].raw,
        forall|j: int|
            0 <= j < window.len() ==> -0x1_0000_0000 <= (#[trigger] window[j]).raw
                <= 0x1_0000_0000,
    ensures
        ({
            let x = spec_windowed(a, window, padded_size)[i].raw;
            let y = spec_windowed(b, window, padded_size)[i].raw;
            let z = spec_windowed(sum, window, padded_size)[i].raw;
            -1 <= z - (x + y) <= 1
        }),
{
    if i < a.len() {
        let w = window[i];
        assert(sum[i].raw == a[i].raw + b[i].raw);
        law_share_is_near(a[i], w);
        law_share_is_near(b[i], w);
        law_share_is_near(sum[i], w);
        assert(sum[i].raw * w.raw == a[i].raw * w.raw + b[i].raw * w.raw) by (nonlinear_arith)
            requires
                sum[i].raw == a[i].raw + b[i].raw,
        ;
        lemma_quotient_adds(a[i].raw * w.raw, b[i].raw * w.raw, 0x1_0000_0000);
    }
}

/// A window of ones passes the samples on, followed by zeros.
pub proof fn law_open_window_passes_samples(
    samples: Seq<Fixed>,
    window: Seq<Fixed>,
    padded_size: usize,
)
    requires
        samples.len() <= window.len(),
        samples.len() <= padded_size,
        forall|j: int| 0 <= j < window.len() ==> (#[trigger] window[j]).raw == 0x1_0000_0000,
    ensures
        spec_windowed(samples, window, padded_size).len() == padded_size,
        forall|i: int|
            0 <= i < samples.len() ==> #[trigger] spec_windowed(samples, window, padded_size)[i]
                == samples[i],
        forall|i: int|
            samples.len() <= i < padded_size ==> (#[trigger] spec_windowed(
                samples,
                window,
                padded_size,
            )[i]).raw == 0,
{
    assert forall|i: int| 0 <= i < samples.len() implies #[trigger] spec_windowed(
        samples,
        window,
        padded_size,
    )[i] == samples[i] by {
        assert(window[i].raw == 0x1_0000_0000);
        assert(Fixed::spec_from_count(1) == window[i]);
        lemma_one_is_neutral(samples[i]);
    }
}

/// A weight is half of one less the cosine, but for one unit; it lies between zero and
/// one, falls as the cosine grows, and that of the opposite cosine makes it up to one.
pub proof fn law_hann_weight(c: Fixed, d: Fixed)
    requires
        -0x1_0000_0000 <= c.raw <= 0x1_0000_0000,
        -0x1_0000_0000 <= d.raw <= 0x1_0000_0000,
    ensures
        -1 <= 2 * spec_hann_weight(c).raw - (0x1_0000_0000 - c.raw) <= 1,
        0 <= spec_hann_weight(c).raw <= 0x1_0000_0000,
        c.raw <= d.raw ==> spec_hann_weight(d).raw <= spec_hann_weight(c).raw,
        d.raw == -c.raw ==> spec_hann_weight(c).raw + spec_hann_weight(d).raw == 0x1_0000_0000,
{
    law_fractions(1, 2);
    let half = spec_ratio::<Fixed>(1, 2);
    assert(half.raw == 0x8000_0000);
    lemma_half(c);
    lemma_half(d);
}

/// Half of a number between minus one and one.
proof fn lemma_half(c: Fixed)
    requires
        -0x1_0000_0000 <= c.raw <= 0x1_0000_0000,
    ensures
        c.raw >= 0 ==> (Fixed { raw: 0x8000_0000 }).spec_times(c).raw == c.raw as int / 2,
        c.raw <= 0 ==> (Fixed { raw: 0x8000_0000 }).spec_times(c).raw == -((-c.raw) / 2),
{
    let half = Fixed { raw: 0x8000_0000 };
    law_share_is_near(half, c);
    law_product_is_near(half, c);
}

/// The angles of a window are even steps from zero to a full turn, but for less than one
/// unit.
pub proof fn law_hann_angle(i: usize, size: usize, turn: Fixed)
    requires
        2 <= size < 0x8000_0000,
        i < size,
        0 <= turn.raw,
        turn.raw * size <= i64::MAX,
    ensures
        ({
            let angle = spec_hann_angle(i, size, turn).raw;
            &&& (size - 1) * angle <= turn.raw * i < (size - 1) * (angle + 1)
            &&& i == 0 ==> angle == 0
            &&& i == size - 1 ==> angle == turn.raw
        }),
{
    let n = size - 1;
    let steps = turn.raw * i;
    assert(0 <= steps <= turn.raw * size) by (nonlinear_arith)
        requires
            0 <= i <= size,
            0 <= turn.raw,
            steps == turn.raw * i,
    ;
    lemma_times_whole(turn, i as int);
    let many = turn.spec_times(Fixed::spec_from_count(i));
    assert(many.raw == steps);
    assert(Fixed::spec_from_count(size).spec_minus(spec_one()).raw == n * 0x1_0000_0000);
    lemma_quotient_cancels(steps, n);
    lemma_quotient_shrinks(steps, n);
    lemma_quotient_bounds(steps, n);
    let angle = spec_hann_angle(i, size, turn).raw as int;
    assert(n * (angle + 1) == n * angle + n) by (nonlinear_arith);
    if i == 0 {
        assert(turn.raw * 0 == 0) by (nonlinear_arith);
        assert(angle == 0) by (nonlinear_arith)
            requires
                n * angle <= 0,
                0 < n * angle + n,
                n > 0,
        ;
    }
    if i == n {
        lemma_quotient_exact(turn.raw as int, n);
        assert(turn.raw * i == turn.raw * n);
    }
}

/// As many bins as the transform is long span the sample rate, but for less than one
/// unit each.
pub proof fn law_bins_span_sample_rate(sample_rate: u32, padded_size: usize)
    requires
        sample_rate < 0x8000_0000,
        0 < padded_size < 0x8000_0000,
    ensures
        ({
            let hz = Fixed::spec_from_count(sample_rate as usize).spec_over(
                Fixed::spec_from_count(padded_size),
            ).raw;
            padded_size * hz <= sample_rate * 0x1_0000_0000 < padded_size * (hz + 1)
        }),
{
    law_fractions(sample_rate as usize, padded_size);
}

/// Diagnostics are due at the multiples of `every`.
pub proof fn law_due_at_multiples(count: int, every: int, k: int)
    requires
        every > 0,
    ensures
        count == every * k ==> due(count, every),
        every * k < count < every * (k + 1) ==> !due(count, every),
{
    vstd::arithmetic::div_mod::lemma_fundamental_div_mod(count, every);
    let q = count / every;
    let r = count % every;
    assert(0 <= r < every) by (nonlinear_arith)
        requires
            r == count % every,
            every > 0,
    ;
    assert(every * (k + 1) == every * k + every) by (nonlinear_arith);
    let d = q - k;
    assert(every * d == every * q - every * k) by (nonlinear_arith)
        requires
            d == q - k,
    ;
    if count == every * k {
        assert(d == 0) by (nonlinear_arith)
            requires
                -every < every * d <= 0,
                every > 0,
        ;
    }
    if every * k < count < every * (k + 1) {
        assert(d == 0) by (nonlinear_arith)
            requires
                -every < every * d < every,
                every > 0,
        ;
    }
}

} // verus!
