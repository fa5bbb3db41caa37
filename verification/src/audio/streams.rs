//! How streams are opened, and how much sound may wait for them.
use crate::audio::blocks::unsupported;
use crate::audio::devices::{SampleFormat, WaveFormat};
use crate::error::{AppResult, ReasonCode};
use crate::text::{noted, push_decimal, push_text, surrounded};
use vstd::prelude::*;

verus! {

/// How a host stores samples.
#[derive(Debug, Clone, Copy, PartialEq, Eq, Structural)]
pub enum HostFormat {
    Float32,
    Signed16,
    Unsigned16,
    Other,
}

/// Formats that a device offers.
#[derive(Debug, Clone, Copy, PartialEq, Eq, Structural)]
pub struct ConfigRange {
    pub channels: u16,
    pub format: HostFormat,
    pub min_rate: u32,
    pub max_rate: u32,
}

/// The way in which a host stores the samples of a stream.
pub open spec fn host_format(format: SampleFormat) -> HostFormat {
    match format {
        SampleFormat::Float32 => HostFormat::Float32,
        SampleFormat::Pcm16 => HostFormat::Signed16,
    }
}

/// The way in which a host stores the samples of a stream.
pub fn wave_format_to_host(format: &WaveFormat) -> (host: HostFormat)
    ensures
        host == host_format(format.sample_format),
{
    match format.sample_format {
        SampleFormat::Float32 => HostFormat::Float32,
        SampleFormat::Pcm16 => HostFormat::Signed16,
    }
}

/// The range holds just the format.
pub open spec fn offers(range: ConfigRange, format: WaveFormat) -> bool {
    &&& range.channels == format.channels
    &&& range.format == host_format(format.sample_format)
    &&& range.min_rate <= format.sample_rate <= range.max_rate
}

/// The first of the ranges that holds just the format.
pub fn matching_config(ranges: &[ConfigRange], format: &WaveFormat) -> (outcome: AppResult<usize>)
    ensures
        match outcome {
            Ok(at) => {
                &&& at < ranges@.len()
                &&& offers(ranges@[at as int], *format)
                &&& forall|k: int| 0 <= k < at ==> !offers(#[trigger] ranges@[k], *format)
            },
            Err(error) => {
                &&& forall|k: int| 0 <= k < ranges@.len() ==> !offers(#[trigger] ranges@[k], *format)
                &&& error.code == ReasonCode::RcAudioUnsupported
            },
        },
{
    let wanted: HostFormat = wave_format_to_host(format);
    let mut i: usize = 0;
    while i < ranges.len()
        invariant
            i <= ranges.len(),
            wanted == host_format(format.sample_format),
            forall|k: int| 0 <= k < i ==> !offers(#[trigger] ranges@[k], *format),
        decreases ranges.len() - i,
    {
        let range: ConfigRange = ranges[i];
        if range.channels == format.channels && range.format == wanted && format.sample_rate
            >= range.min_rate && format.sample_rate <= range.max_rate {
            return Ok(i);
        }
        i += 1;
    }
    let mut message: String = noted(
        "no supported audio config matches ",
        format.channels as u64,
        " channels, ",
    );
    push_decimal(&mut message, format.sample_rate as u64);
    push_text(
        &mut message,
        match format.sample_format {
            SampleFormat::Float32 => " Hz, Float32",
            SampleFormat::Pcm16 => " Hz, Pcm16",
        },
    );
    unsupported(&message)
}

/// Says whether streams of a host format can be fed or listened to. The host
/// calls the format by `name`.
pub fn check_host_format(format: HostFormat, direction: &str, name: &str) -> (outcome: AppResult<
    (),
>)
    ensures
        match outcome {
            Ok(()) => format != HostFormat::Other,
            Err(error) => format == HostFormat::Other && error.code
                == ReasonCode::RcAudioUnsupported,
        },
{
    match format {
        HostFormat::Other => {
            let mut message: String = surrounded("unsupported host ", direction, " sample format ");
            push_text(&mut message, name);
            unsupported(&message)
        },
        _ => Ok(()),
    }
}

/// The sizes of buffers, in frames, that are tried for a client that has a
/// device for itself, the smallest first.
pub const BUFFER_CANDIDATES: [u32; 8] = [64, 96, 128, 160, 192, 256, 384, 512];

/// What to do next while a stream is opened for a client that has the device
/// for itself.
#[derive(Debug, Clone, Copy, PartialEq, Eq, Structural)]
pub enum ExclusiveAction {
    /// Try a buffer of this many frames.
    Try(u32),
    /// The stream has a buffer of this many frames.
    Opened(u32),
    /// No size of buffer will do.
    Failed,
}

/// What to do after `attempts` sizes have been tried, the last of which was
/// taken or not.
pub open spec fn next_action(attempts: int, taken: bool) -> ExclusiveAction {
    if taken && 1 <= attempts <= 8 {
        ExclusiveAction::Opened(BUFFER_CANDIDATES@[attempts - 1])
    } else if 0 <= attempts < 8 {
        ExclusiveAction::Try(BUFFER_CANDIDATES@[attempts])
    } else {
        ExclusiveAction::Failed
    }
}

/// What to do after `attempts` sizes have been tried, the last of which was
/// taken or not.
pub fn exclusive_step(attempts: usize, taken: bool) -> (action: ExclusiveAction)
    ensures
        action == next_action(attempts as int, taken),
{
    if taken && 1 <= attempts && attempts <= 8 {
        ExclusiveAction::Opened(BUFFER_CANDIDATES[attempts - 1])
    } else if attempts < 8 {
        ExclusiveAction::Try(BUFFER_CANDIDATES[attempts])
    } else {
        ExclusiveAction::Failed
    }
}

/// The samples that may wait for a device: those of four seconds.
pub open spec fn queue_limit(sample_rate: u32, channels: u16) -> int {
    sample_rate * channels * 4
}

/// How many of the samples that wait are too many.
pub fn queue_excess(queued: usize, sample_rate: u32, channels: u16) -> (excess: usize)
    ensures
        excess == (if queued > queue_limit(sample_rate, channels) {
            queued - queue_limit(sample_rate, channels)
        } else {
            0
        }),
{
    assert(0 <= sample_rate * channels <= 0x1_0000_0000 * 0x1_0000) by (nonlinear_arith)
        requires
            0 <= sample_rate <= 0x1_0000_0000,
            0 <= channels <= 0x1_0000,
    ;
    let limit: u64 = sample_rate as u64 * channels as u64 * 4;
    if queued as u64 > limit {
        (queued as u64 - limit) as usize
    } else {
        0
    }
}

/// Sizes are tried from small to large, each once. The size that was tried last
/// is the one that is opened once it is taken; when none is left, no size will
/// do.
pub proof fn lemma_sizes_tried_in_order(attempts: int)
    requires
        0 <= attempts,
    ensures
        next_action(attempts, false) is Try <==> attempts < 8,
        attempts >= 8 ==> next_action(attempts, false) == ExclusiveAction::Failed,
        next_action(attempts, false) matches ExclusiveAction::Try(size) ==> {
            &&& next_action(attempts + 1, true) == ExclusiveAction::Opened(size)
            &&& next_action(attempts + 1, false) matches ExclusiveAction::Try(larger) ==> size
                < larger
            &&& 64 <= size <= 512 && size % 32 == 0
        },
        next_action(0, false) == ExclusiveAction::Try(64),
        next_action(7, false) == ExclusiveAction::Try(512),
{
}

/// A queue holds four seconds of sound.
pub proof fn lemma_queue_holds_seconds(sample_rate: u32, channels: u16)
    ensures
        queue_limit(sample_rate, 1) == 4 * sample_rate,
        queue_limit(sample_rate, 0) == 0,
        channels > 0 ==> queue_limit(sample_rate, channels) == queue_limit(
            sample_rate,
            (channels - 1) as u16,
        ) + 4 * sample_rate,
{
    assert(sample_rate * channels * 4 == sample_rate * (channels - 1) * 4 + 4 * sample_rate)
        by (nonlinear_arith);
}

/// A range of rates holds both its ends; it offers a format only with the same
/// number of channels and the same kind of samples.
pub proof fn lemma_offers(range: ConfigRange, format: WaveFormat)
    ensures
        offers(range, format) ==> range.channels == format.channels && range.min_rate
            <= format.sample_rate <= range.max_rate,
        offers(range, format) ==> (format.sample_format == SampleFormat::Float32 <==> range.format
            == HostFormat::Float32),
        offers(range, format) ==> (format.sample_format == SampleFormat::Pcm16 <==> range.format
            == HostFormat::Signed16),
        range.channels == format.channels && range.format == host_format(format.sample_format) && (
        format.sample_rate == range.min_rate || format.sample_rate == range.max_rate)
            && range.min_rate <= range.max_rate ==> offers(range, format),
{
}

} // verus!
