//! Captured audio: from the bytes of a capture buffer to the newest mono samples.

use std::collections::VecDeque;

use vstd::prelude::*;

use crate::fixed::{
    lemma_one_is_neutral, lemma_quotient_between, lemma_quotient_cancels, lemma_quotient_error,
    lemma_quotient_shrinks, single_value, truncated_quotient, Fixed,
};
use crate::scalar::{spec_total, spec_zero, zero, Sample, Scalar};

verus! {

/// The last `n` elements of `s`, or all of it where it is shorter.
pub open spec fn tail<T>(s: Seq<T>, n: nat) -> Seq<T> {
    if s.len() <= n {
        s
    } else {
        s.skip(s.len() - n)
    }
}

/// The samples that lie whole in `bytes`.
pub open spec fn decoded<S: Sample>(bytes: Seq<u8>) -> Seq<S> {
    Seq::new(
        bytes.len() / 4,
        |i: int|
            S::spec_from_le_bytes(bytes[4 * i], bytes[4 * i + 1], bytes[4 * i + 2], bytes[4 * i + 3]),
    )
}

/// `x`, but no more than `bound`.
pub open spec fn at_most(x: int, bound: int) -> int {
    if x <= bound {
        x
    } else {
        bound
    }
}

/// The samples of frame `f`, as far as `samples` reaches.
pub open spec fn frame_samples<S: Sample>(samples: Seq<S>, f: int, channels: int) -> Seq<S> {
    samples.subrange(
        at_most(f * channels, samples.len() as int),
        at_most((f + 1) * channels, samples.len() as int),
    )
}

/// The channels that a stream is read with: none counts as one.
pub open spec fn channel_count(channels: u32) -> int {
    if channels == 0 {
        1
    } else {
        channels as int
    }
}

/// One sample for each frame of the chunk: the sum of its channels over their number.
pub open spec fn spec_downmix<S: Sample>(bytes: Seq<u8>, chunk_size: usize, channels: u32) -> Seq<
    S,
> {
    let n = channel_count(channels);
    Seq::new(
        ((chunk_size as int / 4) / n) as nat,
        |f: int|
            spec_total(frame_samples(decoded::<S>(bytes), f, n)).spec_over(
                S::spec_from_count(n as usize),
            ),
    )
}

/// Mixes the first `chunk_size` bytes of interleaved samples down to one channel.
///
/// Samples that `bytes` does not hold in full count as silence.
pub fn downmix<S: Sample>(bytes: &[u8], chunk_size: usize, channels: u32) -> (mono: Vec<S>)
    ensures
        mono@ == spec_downmix::<S>(bytes@, chunk_size, channels),
{
    let n_channels: usize = if channels == 0 {
        1
    } else {
        channels as usize
    };
    let n_samples_total: usize = chunk_size / 4;
    let n_frames: usize = n_samples_total / n_channels;
    let ghost n = n_channels as int;
    let ghost samples = decoded::<S>(bytes@);
    assert(n_frames * n <= n_samples_total) by (nonlinear_arith)
        requires
            n_frames == n_samples_total / n_channels,
            n == n_channels,
            n_channels > 0,
    ;

    let mut mono: Vec<S> = Vec::new();
    let mut f: usize = 0;
    while f < n_frames
        invariant
            n == n_channels,
            n == channel_count(channels),
            n_frames == (chunk_size as int / 4) / n,
            n_frames * n <= n_samples_total,
            n_samples_total == chunk_size / 4,
            samples == decoded::<S>(bytes@),
            f <= n_frames,
            mono@ =~= spec_downmix::<S>(bytes@, chunk_size, channels).take(f as int),
        decreases n_frames - f,
    {
        assert((f + 1) * n <= n_frames * n) by (nonlinear_arith)
            requires
                f < n_frames,
                n > 0,
        ;
        assert((f + 1) * n == f * n + n) by (nonlinear_arith);
        assert(0 <= f * n) by (nonlinear_arith)
            requires
                0 <= f,
                n > 0,
        ;
        let first: usize = f * n_channels;
        let ghost lo = at_most(first as int, samples.len() as int);
        let mut sum: S = zero();
        let mut c: usize = 0;
        proof {
            assert(samples.subrange(lo, lo) =~= Seq::<S>::empty());
        }
        while c < n_channels
            invariant
                n == n_channels,
                first == f * n,
                first + n <= n_samples_total,
                n_samples_total == chunk_size / 4,
                samples == decoded::<S>(bytes@),
                lo == at_most(first as int, samples.len() as int),
                c <= n_channels,
                sum == spec_total(
                    samples.subrange(lo, at_most(first + c, samples.len() as int)),
                ),
            ensures
                sum == spec_total(
                    samples.subrange(lo, at_most(first + n, samples.len() as int)),
                ),
            decreases n_channels - c,
        {
            let start: usize = (first + c) * 4;
            if start > bytes.len() || bytes.len() - start < 4 {
                break;
            }
            let ghost upto = samples.subrange(lo, first + c + 1);
            assert(upto.drop_last() =~= samples.subrange(lo, first + c));
            sum = sum.plus(
                S::from_le_bytes(bytes[start], bytes[start + 1], bytes[start + 2], bytes[start + 3]),
            );
            assert(sum == spec_total(upto));
            c += 1;
        }
        mono.push(sum.over(S::from_count(n_channels)));
        f += 1;
    }
    assert(mono@ =~= spec_downmix::<S>(bytes@, chunk_size, channels));
    mono
}

/// What the capture side writes and the analysis side reads: a bounded run of the
/// newest samples, and the format they came in.
pub struct SharedAudio<T> {
    pub buffer: VecDeque<T>,
    pub sample_rate: u32,
    pub channels: u32,
}

impl<T> View for SharedAudio<T> {
    type V = Seq<T>;

    /// The samples held, oldest first.
    open spec fn view(&self) -> Seq<T> {
        self.buffer@
    }
}

impl<T: Copy> SharedAudio<T> {
    /// No samples yet; 48 kHz stereo until the stream says otherwise.
    pub fn new() -> (shared: Self)
        ensures
            shared@ == Seq::<T>::empty(),
            shared.sample_rate == 48000,
            shared.channels == 2,
    {
        SharedAudio { buffer: VecDeque::with_capacity(65536), sample_rate: 48000, channels: 2 }
    }

    /// How many samples are held.
    pub fn len(&self) -> (n: usize)
        ensures
            n == self@.len(),
    {
        self.buffer.len()
    }

    /// Appends `mono` and drops the oldest samples beyond `max_len`.
    pub fn push_samples(&mut self, mono: &[T], max_len: usize)
        ensures
            final(self)@ == tail(old(self)@ + mono@, max_len as nat),
            final(self).sample_rate == old(self).sample_rate,
            final(self).channels == old(self).channels,
    {
        let mut i: usize = 0;
        while i < mono.len()
            invariant
                i <= mono.len(),
                self.buffer@ =~= old(self).buffer@ + mono@.take(i as int),
                self.sample_rate == old(self).sample_rate,
                self.channels == old(self).channels,
            decreases mono.len() - i,
        {
            self.buffer.push_back(mono[i]);
            i += 1;
        }
        assert(mono@.take(i as int) =~= mono@);
        let len: usize = self.buffer.len();
        if len > max_len {
            let newest = self.buffer.split_off(len - max_len);
            self.buffer = newest;
        }
    }

    /// The newest `n` samples, or `None` where fewer are held. Nothing is consumed:
    /// successive frames may overlap.
    pub fn latest(&self, n: usize) -> (samples: Option<Vec<T>>)
        ensures
            match samples {
                Some(v) => n <= self@.len() && v@ == tail(self@, n as nat),
                None => self@.len() < n,
            },
    {
        let len: usize = self.buffer.len();
        if len < n {
            return None;
        }
        let skip: usize = len - n;
        let mut out: Vec<T> = Vec::new();
        let mut i: usize = skip;
        while i < len
            invariant
                skip <= i <= len,
                len == self.buffer@.len(),
                out@ =~= self.buffer@.subrange(skip as int, i as int),
            decreases len - i,
        {
            out.push(self.buffer[i]);
            i += 1;
        }
        assert(out@ =~= tail(self@, n as nat));
        Some(out)
    }

    /// Takes over the format that the stream has settled on.
    pub fn adopt_format(&mut self, rate: u32, channels: u32)
        ensures
            final(self)@ == old(self)@,
            final(self).sample_rate == rate,
            final(self).channels == channels,
    {
        self.sample_rate = rate;
        self.channels = channels;
    }
}

/// The samples that one buffer of the capture stream brings, mixed down.
///
/// While paused, or where the buffer carries no data, nothing is mixed and there is
/// nothing to append. What is mixed touches nothing shared, so that a host takes its
/// lock to append and for no longer.
pub fn captured<S: Sample>(
    paused: bool,
    data: Option<&[u8]>,
    chunk_size: usize,
    channels: u32,
) -> (mono: Option<Vec<S>>)
    ensures
        match (mono, data) {
            (Some(samples), Some(bytes)) => !paused && samples@ == spec_downmix::<S>(
                bytes@,
                chunk_size,
                channels,
            ),
            (Some(samples), None) => false,
            (None, Some(bytes)) => paused,
            (None, None) => true,
        },
{
    if paused {
        return None;
    }
    match data {
        Some(bytes) => Some(downmix(bytes, chunk_size, channels)),
        None => None,
    }
}

/// Whether a changed stream parameter settles the audio format.
///
/// `id` is the parameter's own id and `format_id` that of format parameters; `media`
/// is the media type and subtype found in it, if it could be read, and `audio_raw`
/// the pair that stands for raw audio.
pub fn settles_format(
    id: u32,
    format_id: u32,
    media: Option<(u32, u32)>,
    audio_raw: (u32, u32),
) -> (r: bool)
    ensures
        r <==> id == format_id && media == Some(audio_raw),
{
    if id != format_id {
        return false;
    }
    match media {
        Some(found) => found.0 == audio_raw.0 && found.1 == audio_raw.1,
        None => false,
    }
}

/// Everything captured: the chunks one after the other.
pub open spec fn stream<T>(chunks: Seq<Seq<T>>) -> Seq<T>
    decreases chunks.len(),
{
    if chunks.len() == 0 {
        Seq::empty()
    } else {
        stream(chunks.drop_last()) + chunks.last()
    }
}

/// What a new buffer holds after the chunks were pushed in turn.
pub open spec fn held_after<T>(chunks: Seq<Seq<T>>, max_len: nat) -> Seq<T>
    decreases chunks.len(),
{
    if chunks.len() == 0 {
        Seq::empty()
    } else {
        tail(held_after(chunks.drop_last(), max_len) + chunks.last(), max_len)
    }
}

/// However a stream is cut into chunks, the buffer holds its newest `max_len`
/// samples, and never more than those.
pub proof fn law_buffer_holds_newest<T>(chunks: Seq<Seq<T>>, max_len: nat)
    ensures
        held_after(chunks, max_len) == tail(stream(chunks), max_len),
        held_after(chunks, max_len).len() <= max_len,
    decreases chunks.len(),
{
    if chunks.len() > 0 {
        law_buffer_holds_newest(chunks.drop_last(), max_len);
        let before = stream(chunks.drop_last());
        assert(tail(tail(before, max_len) + chunks.last(), max_len) =~= tail(
            before + chunks.last(),
            max_len,
        ));
    }
}

/// A frame no longer than the buffer is there as soon as that many samples were
/// captured, and consists of the newest of them.
pub proof fn law_frame_is_newest<T>(chunks: Seq<Seq<T>>, max_len: nat, n: nat)
    requires
        n <= max_len,
    ensures
        held_after(chunks, max_len).len() >= n <==> stream(chunks).len() >= n,
        stream(chunks).len() >= n ==> tail(held_after(chunks, max_len), n) == tail(
            stream(chunks),
            n,
        ),
{
    law_buffer_holds_newest(chunks, max_len);
    let all = stream(chunks);
    assert(tail(tail(all, max_len), n) =~= tail(all, n));
}

/// A single channel passes through unchanged, sample for sample.
pub proof fn law_mono_passes_through(bytes: Seq<u8>, chunk_size: usize, f: int)
    requires
        0 <= f < chunk_size as int / 4,
        4 * f + 4 <= bytes.len(),
    ensures
        spec_downmix::<Fixed>(bytes, chunk_size, 1).len() == chunk_size as int / 4,
        spec_downmix::<Fixed>(bytes, chunk_size, 1)[f] == decoded::<Fixed>(bytes)[f],
{
    let samples = decoded::<Fixed>(bytes);
    let frame = frame_samples(samples, f, 1);
    assert(frame =~= seq![samples[f]]);
    assert(frame.drop_last() =~= Seq::<Fixed>::empty());
    assert(spec_total(frame.drop_last()) == spec_zero::<Fixed>());
    assert(spec_total(frame) == samples[f]);
    lemma_one_is_neutral(samples[f]);
}

/// A stream read with no channels is read as one with a single channel.
pub proof fn law_no_channels_is_mono<S: Sample>(bytes: Seq<u8>, chunk_size: usize)
    ensures
        spec_downmix::<S>(bytes, chunk_size, 0) == spec_downmix::<S>(bytes, chunk_size, 1),
{
    assert(spec_downmix::<S>(bytes, chunk_size, 0) =~= spec_downmix::<S>(bytes, chunk_size, 1));
}

/// Whether sample `k` lies whole in `bytes`.
pub open spec fn holds_sample(bytes: Seq<u8>, k: int) -> bool {
    0 <= k && 4 * k + 4 <= bytes.len()
}

/// The number that sample `k` of a stream stands for; nothing where it is not held.
pub open spec fn sample_raw(bytes: Seq<u8>, k: int) -> int {
    if holds_sample(bytes, k) {
        single_value(bytes[4 * k], bytes[4 * k + 1], bytes[4 * k + 2], bytes[4 * k + 3]).raw as int
    } else {
        0
    }
}

/// What `count` successive samples from `first` on add up to.
pub open spec fn sample_sum(bytes: Seq<u8>, first: int, count: int) -> int
    decreases count,
{
    if count <= 0 {
        0
    } else {
        sample_sum(bytes, first, count - 1) + sample_raw(bytes, first + count - 1)
    }
}

/// What the sizes of `count` successive samples from `first` on add up to.
pub open spec fn sample_size(bytes: Seq<u8>, first: int, count: int) -> int
    decreases count,
{
    if count <= 0 {
        0
    } else {
        sample_size(bytes, first, count - 1) + vstd::math::abs(
            sample_raw(bytes, first + count - 1),
        )
    }
}

/// The samples of a frame add up to what its bytes hold.
proof fn lemma_frame_total(bytes: Seq<u8>, first: int, count: int)
    requires
        0 <= first,
        0 <= count,
        sample_size(bytes, first, count) <= i64::MAX,
    ensures
        ({
            let samples = decoded::<Fixed>(bytes);
            let lo = at_most(first, samples.len() as int);
            let hi = at_most(first + count, samples.len() as int);
            &&& spec_total(samples.subrange(lo, hi)).raw == sample_sum(bytes, first, count)
            &&& -sample_size(bytes, first, count) <= sample_sum(bytes, first, count)
                <= sample_size(bytes, first, count)
            &&& 0 <= sample_size(bytes, first, count)
        }),
    decreases count,
{
    let samples = decoded::<Fixed>(bytes);
    let lo = at_most(first, samples.len() as int);
    let hi = at_most(first + count, samples.len() as int);
    if count == 0 {
        assert(samples.subrange(lo, hi) =~= Seq::<Fixed>::empty());
    } else {
        let k = first + count - 1;
        lemma_sample_size(bytes, first, count - 1);
        lemma_frame_total(bytes, first, count - 1);
        let before = at_most(k, samples.len() as int);
        if holds_sample(bytes, k) {
            assert(k < samples.len());
            assert(samples.subrange(lo, hi).drop_last() =~= samples.subrange(lo, before));
            assert(samples.subrange(lo, hi).last() == samples[k]);
        } else {
            assert(samples.len() <= k);
            assert(hi == before);
        }
    }
}

/// Sizes add up to no less than zero.
proof fn lemma_sample_size(bytes: Seq<u8>, first: int, count: int)
    ensures
        0 <= sample_size(bytes, first, count),
    decreases count,
{
    if count > 0 {
        lemma_sample_size(bytes, first, count - 1);
    }
}

/// There is one mixed sample for each frame that lies whole in the chunk.
pub proof fn law_mix_has_a_sample_for_each_frame(
    bytes: Seq<u8>,
    chunk_size: usize,
    channels: u32,
    n: int,
)
    requires
        n == channels || channels == 0 && n == 1,
        0 < n,
    ensures
        ({
            let frames = spec_downmix::<Fixed>(bytes, chunk_size, channels).len();
            4 * (n * frames) <= chunk_size < 4 * (n * (frames + 1))
        }),
{
    let total = chunk_size as int / 4;
    let frames = total / n;
    vstd::arithmetic::div_mod::lemma_fundamental_div_mod(total, n);
    assert(0 <= total % n < n) by (nonlinear_arith)
        requires
            0 < n,
    ;
    assert(0 <= frames) by (nonlinear_arith)
        requires
            frames == total / n,
            0 <= total,
            0 < n,
    ;
    assert(n * (frames + 1) == n * frames + n) by (nonlinear_arith);
}

/// A mixed sample times the number of channels is what the samples of its frame add up
/// to, but for less than one unit for each channel. Samples that the bytes do not hold
/// in full count as silence.
pub proof fn law_mix_is_mean(bytes: Seq<u8>, chunk_size: usize, channels: u32, n: int, f: int)
    requires
        n == channels || channels == 0 && n == 1,
        0 < n < 0x8000_0000,
        0 <= f < spec_downmix::<Fixed>(bytes, chunk_size, channels).len(),
        sample_size(bytes, n * f, n) <= i64::MAX,
    ensures
        ({
            let mixed = spec_downmix::<Fixed>(bytes, chunk_size, channels)[f].raw;
            &&& -n < n * mixed - sample_sum(bytes, n * f, n) < n
            &&& mixed == truncated_quotient(sample_sum(bytes, n * f, n), n)
        }),
{
    let first = n * f;
    assert(f * n == first && (f + 1) * n == first + n) by (nonlinear_arith)
        requires
            first == n * f,
    ;
    assert(0 <= first) by (nonlinear_arith)
        requires
            first == n * f,
            0 < n,
            0 <= f,
    ;
    lemma_frame_total(bytes, first, n);
    let sum = sample_sum(bytes, first, n);
    assert(Fixed::spec_from_count(n as usize).raw == n * 0x1_0000_0000);
    lemma_quotient_cancels(sum, n);
    lemma_quotient_shrinks(sum, n);
    lemma_quotient_error(sum, n);
}

/// Samples that lie in a range add up to that many times something in it.
proof fn lemma_sample_sum_between(bytes: Seq<u8>, first: int, count: int, lo: int, hi: int)
    requires
        0 <= count,
        forall|k: int| first <= k < first + count ==> lo <= #[trigger] sample_raw(bytes, k) <= hi,
    ensures
        lo * count <= sample_sum(bytes, first, count) <= hi * count,
    decreases count,
{
    if count > 0 {
        lemma_sample_sum_between(bytes, first, count - 1, lo, hi);
        assert(lo <= sample_raw(bytes, first + count - 1) <= hi);
        assert(lo * count == lo * (count - 1) + lo) by (nonlinear_arith);
        assert(hi * count == hi * (count - 1) + hi) by (nonlinear_arith);
    } else {
        assert(lo * count == 0 && hi * count == 0) by (nonlinear_arith)
            requires
                count == 0,
        ;
    }
}

/// A mixed sample is no lower than the lowest channel of its frame and no higher than
/// the highest; where all channels carry the same sample, it is that sample.
pub proof fn law_mix_stays_between_channels(
    bytes: Seq<u8>,
    chunk_size: usize,
    channels: u32,
    n: int,
    f: int,
    lo: int,
    hi: int,
)
    requires
        n == channels || channels == 0 && n == 1,
        0 < n < 0x8000_0000,
        0 <= f < spec_downmix::<Fixed>(bytes, chunk_size, channels).len(),
        sample_size(bytes, n * f, n) <= i64::MAX,
        forall|k: int|
            n * f <= k < n * f + n ==> lo <= #[trigger] sample_raw(bytes, k) <= hi,
    ensures
        lo <= spec_downmix::<Fixed>(bytes, chunk_size, channels)[f].raw <= hi,
{
    law_mix_is_mean(bytes, chunk_size, channels, n, f);
    lemma_sample_sum_between(bytes, n * f, n, lo, hi);
    lemma_quotient_between(sample_sum(bytes, n * f, n), n, lo, hi);
}

/// A mixed sample depends on nothing but the bytes of its own frame.
pub proof fn law_mix_is_local<S: Sample>(
    a: Seq<u8>,
    b: Seq<u8>,
    chunk_size: usize,
    channels: u32,
    n: int,
    f: int,
)
    requires
        n == channels || channels == 0 && n == 1,
        0 < n,
        a.len() == b.len(),
        0 <= f < spec_downmix::<S>(a, chunk_size, channels).len(),
        forall|k: int| 4 * (n * f) <= k < 4 * (n * f + n) && k < a.len() ==> a[k] == b[k],
    ensures
        spec_downmix::<S>(a, chunk_size, channels)[f] == spec_downmix::<S>(
            b,
            chunk_size,
            channels,
        )[f],
{
    let first = n * f;
    assert(f * n == first && (f + 1) * n == first + n) by (nonlinear_arith)
        requires
            first == n * f,
    ;
    assert(0 <= first) by (nonlinear_arith)
        requires
            first == n * f,
            0 < n,
            0 <= f,
    ;
    let x = decoded::<S>(a);
    let y = decoded::<S>(b);
    assert forall|k: int| first <= k < first + n && k < x.len() implies x[k] == y[k] by {
        assert(a[4 * k] == b[4 * k]);
        assert(a[4 * k + 1] == b[4 * k + 1]);
        assert(a[4 * k + 2] == b[4 * k + 2]);
        assert(a[4 * k + 3] == b[4 * k + 3]);
    }
    assert(frame_samples(x, f, n) =~= frame_samples(y, f, n));
}

/// The tail of a sequence: no longer than asked for, as long as can be, and element for
/// element the end of the sequence.
pub proof fn law_tail_is_the_end<T>(s: Seq<T>, n: nat)
    ensures
        tail(s, n).len() <= n,
        tail(s, n).len() == n || tail(s, n).len() == s.len() < n,
        forall|k: int|
            1 <= k <= tail(s, n).len() ==> #[trigger] tail(s, n)[tail(s, n).len() - k]
                == s[s.len() - k],
{
}

} // verus!
