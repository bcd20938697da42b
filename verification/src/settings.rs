//! What the user asks for, checked and put to use.

use vstd::arithmetic::power2::is_pow2;
use vstd::prelude::*;

verus! {

/// The ending that names a sink's monitor rather than the sink.
pub const MONITOR_SUFFIX: &'static str = ".monitor";

/// Why settings are refused.
#[derive(Clone, Copy, Debug, PartialEq, Eq, Structural)]
pub enum SettingsError {
    FftSizeNotPowerOfTwo,
    FftPadZero,
}

/// How long the pieces of a frame are.
#[derive(Clone, Copy, Debug, PartialEq, Eq, Structural)]
pub struct FrameLayout {
    /// The samples that a frame is made of.
    pub fft_size: usize,
    /// The length of the transform: the samples and the zeros after them.
    pub padded_size: usize,
    /// The bins of the transform that belong to positive frequencies.
    pub spectrum_len: usize,
    /// The samples that are kept at most.
    pub max_buffer_len: usize,
}

impl SettingsError {
    /// What the user is told.
    pub fn message(&self) -> (text: &'static str)
        ensures
            text@ == (match self {
                SettingsError::FftSizeNotPowerOfTwo =>
                    "--fft-size must be a power of two (e.g. 1024, 2048, 4096)"@,
                SettingsError::FftPadZero => "--fft-pad must be at least 1"@,
            }),
    {
        match self {
            SettingsError::FftSizeNotPowerOfTwo =>
                "--fft-size must be a power of two (e.g. 1024, 2048, 4096)",
            SettingsError::FftPadZero => "--fft-pad must be at least 1",
        }
    }
}

/// Whether `n` is a power of two.
pub fn is_power_of_two(n: usize) -> (r: bool)
    ensures
        r == is_pow2(n as int),
{
    proof {
        reveal(is_pow2);
    }
    if n == 0 {
        return false;
    }
    let mut rest: usize = n;
    while rest % 2 == 0
        invariant
            rest > 0,
            is_pow2(rest as int) == is_pow2(n as int),
        decreases rest,
    {
        proof {
            reveal(is_pow2);
        }
        rest = rest / 2;
    }
    rest == 1
}

impl FrameLayout {
    /// Whether this is the layout for `fft_size` samples padded to `fft_pad` times
    /// their number.
    pub open spec fn is_for(self, fft_size: usize, fft_pad: usize) -> bool {
        &&& self.fft_size == fft_size
        &&& self.padded_size == fft_size * fft_pad
        &&& self.spectrum_len == self.padded_size as int / 2
        &&& self.max_buffer_len == fft_size * 8
    }

    /// The layout for `fft_size` samples padded to `fft_pad` times their number.
    ///
    /// The size is looked at first: where both are wrong, it is what is reported.
    pub fn new(fft_size: usize, fft_pad: usize) -> (layout: Result<Self, SettingsError>)
        requires
            is_pow2(fft_size as int) && fft_pad > 0 ==> fft_size * fft_pad <= usize::MAX,
            is_pow2(fft_size as int) && fft_pad > 0 ==> fft_size * 8 <= usize::MAX,
        ensures
            match layout {
                Ok(l) => is_pow2(fft_size as int) && fft_pad > 0 && l.is_for(fft_size, fft_pad)
                    && l.fft_size == fft_size && l.padded_size == fft_size * fft_pad && 2
                    * l.spectrum_len <= l.padded_size < 2 * l.spectrum_len + 2 && l.max_buffer_len
                    == 8 * fft_size,
                Err(SettingsError::FftSizeNotPowerOfTwo) => !is_pow2(fft_size as int),
                Err(SettingsError::FftPadZero) => is_pow2(fft_size as int) && fft_pad == 0,
            },
    {
        if !is_power_of_two(fft_size) {
            return Err(SettingsError::FftSizeNotPowerOfTwo);
        }
        if fft_pad == 0 {
            return Err(SettingsError::FftPadZero);
        }
        let padded_size: usize = fft_size * fft_pad;
        Ok(
            FrameLayout {
                fft_size,
                padded_size,
                spectrum_len: padded_size / 2,
                max_buffer_len: fft_size * 8,
            },
        )
    }
}

/// A layout leaves room: the samples of a frame fit into the transform, and into the
/// buffer.
pub proof fn law_layout_leaves_room(layout: FrameLayout, fft_size: usize, fft_pad: usize)
    requires
        fft_pad > 0,
        layout.is_for(fft_size, fft_pad),
    ensures
        layout.fft_size <= layout.padded_size,
        layout.fft_size <= layout.max_buffer_len,
{
    assert(fft_size <= fft_size * fft_pad) by (nonlinear_arith)
        requires
            fft_pad > 0,
    ;
}

/// The sink that a name stands for: one ending in the monitor suffix stands for the
/// sink before it.
pub open spec fn node_name(sink: Seq<char>) -> Seq<char> {
    if MONITOR_SUFFIX@.is_suffix_of(sink) {
        sink.take(sink.len() - MONITOR_SUFFIX@.len())
    } else {
        sink
    }
}

/// The node to capture from, given the name of a sink or of its monitor.
pub fn sink_node_name(sink: &str) -> (name: String)
    ensures
        name@ == node_name(sink@),
{
    let suffix: &str = MONITOR_SUFFIX;
    let len: usize = sink.unicode_len();
    let tail_len: usize = suffix.unicode_len();
    if len < tail_len {
        return sink.to_owned();
    }
    let kept: usize = len - tail_len;
    let mut i: usize = 0;
    while i < tail_len
        invariant
            suffix@ == MONITOR_SUFFIX@,
            len == sink@.len(),
            tail_len == suffix@.len(),
            kept == len - tail_len,
            i <= tail_len,
            forall|j: int| 0 <= j < i ==> sink@[kept + j] == suffix@[j],
        decreases tail_len - i,
    {
        if sink.get_char(kept + i) != suffix.get_char(i) {
            assert(sink@.subrange(kept as int, len as int)[i as int] != suffix@[i as int]);
            return sink.to_owned();
        }
        i += 1;
    }
    assert(suffix@ =~= sink@.subrange(kept as int, len as int));
    let name: &str = sink.substring_char(0, kept);
    assert(name@ =~= sink@.take(kept as int));
    name.to_owned()
}

/// Naming a sink's monitor is naming the sink.
pub proof fn law_monitor_names_its_sink(sink: Seq<char>)
    ensures
        node_name(sink + MONITOR_SUFFIX@) == sink,
{
    let name = sink + MONITOR_SUFFIX@;
    assert(MONITOR_SUFFIX@ =~= name.subrange(sink.len() as int, name.len() as int));
    assert(name.take(sink.len() as int) =~= sink);
}

/// A name either is that of a monitor, and the sink's name with the suffix gives it
/// back, or it is left alone and no sink's monitor has it.
pub proof fn law_name_is_kept_or_loses_suffix(name: Seq<char>, sink: Seq<char>)
    ensures
        node_name(name) + MONITOR_SUFFIX@ == name || node_name(name) == name,
        name == sink + MONITOR_SUFFIX@ ==> node_name(name) == sink,
        (forall|s: Seq<char>| #[trigger] (s + MONITOR_SUFFIX@) != name) ==> node_name(name)
            == name,
        MONITOR_SUFFIX@.len() == 8,
{
    reveal_strlit(".monitor");
    law_monitor_names_its_sink(sink);
    if MONITOR_SUFFIX@.is_suffix_of(name) {
        let kept = name.len() - MONITOR_SUFFIX@.len();
        assert(MONITOR_SUFFIX@ =~= name.subrange(kept, name.len() as int));
        assert(name.take(kept) + MONITOR_SUFFIX@ =~= name);
    }
}

} // verus!
