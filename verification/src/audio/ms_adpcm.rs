//! Microsoft ADPCM: four bits a sample on top of a prediction from the two
//! samples before.
use crate::audio::blocks::{
    clamped, lemma_block_inside, nibble_at, read_nibble, read_signed16, signed16, unsupported,
};
use crate::bytes::{bytes16, holds_at, lemma_held16, lemma_held16_first};
use crate::error::{AppResult, ReasonCode};
use crate::text::{noted, push_decimal};
use vstd::prelude::*;

verus! {

/// The weights of the last but one and the last sample in a prediction, in
/// units of 1/256.
pub const MS_ADPCM_COEFFICIENTS: [(i16, i16); 7] = [
    (256, 0),
    (512, -256),
    (0, 0),
    (192, 64),
    (240, 0),
    (460, -208),
    (392, -232),
];

/// How each value of four bits makes the step grow or shrink, in units of
/// 1/256.
pub const MS_ADPCM_ADAPTATION: [i16; 16] = [
    230, 230, 230, 230, 307, 409, 512, 614, 768, 614, 512, 409, 307, 230, 230, 230,
];

/// The bytes in front of the samples of a block, for each channel.
pub const MS_HEADER_SIZE: usize = 8;

/// What a decoder remembers of a channel: how it predicts, its step, and its
/// last two samples.
#[derive(Clone, Copy)]
pub struct MsChannel {
    pub predictor: usize,
    pub delta: i32,
    pub older: i16,
    pub newer: i16,
}

/// `value / 256`, what is left over being dropped.
pub open spec fn in_units(value: int) -> int {
    if value >= 0 {
        value / 256
    } else {
        -((-value) / 256)
    }
}

/// The number fits into 32 bits.
pub open spec fn fits(value: int) -> bool {
    i32::MIN <= value <= i32::MAX
}

/// The sample that is predicted from the last two.
pub open spec fn predicted(channel: MsChannel) -> int {
    in_units(
        MS_ADPCM_COEFFICIENTS@[channel.predictor as int].0 * channel.older
            + MS_ADPCM_COEFFICIENTS@[channel.predictor as int].1 * channel.newer,
    )
}

/// The channel after one more sample.
pub open spec fn with_sample(channel: MsChannel, sample: int, delta: int) -> MsChannel {
    MsChannel {
        predictor: channel.predictor,
        delta: delta as i32,
        older: channel.newer,
        newer: clamped(sample, i16::MIN as int, i16::MAX as int) as i16,
    }
}

/// The channel after one more value of four bits: it counts steps, up to 7
/// upwards and up to 8 downwards, and sets the next step. There is none where a
/// number grows out of 32 bits.
pub open spec fn ms_next(channel: MsChannel, nibble: int) -> Option<MsChannel> {
    let count = if nibble >= 8 {
        nibble - 16
    } else {
        nibble
    };
    let moved = channel.delta * count;
    let grown = MS_ADPCM_ADAPTATION@[nibble] * channel.delta;
    if fits(moved) && fits(predicted(channel) + moved) && fits(grown) {
        let delta = if in_units(grown) < 16 {
            16
        } else {
            in_units(grown)
        };
        Some(with_sample(channel, predicted(channel) + moved, delta))
    } else {
        None
    }
}

/// The channel after a sample of which the data holds nothing: it is as
/// predicted.
pub open spec fn ms_guess(channel: MsChannel) -> MsChannel {
    with_sample(channel, predicted(channel), channel.delta as int)
}

/// The channel that a header of a block describes.
pub open spec fn ms_start(bytes: Seq<u8>, at: int) -> Option<MsChannel> {
    let predictor = bytes[at] + 0x100 * bytes[at + 1];
    let delta = bytes[at + 2] + 0x100 * bytes[at + 3];
    if predictor >= 7 {
        None
    } else {
        Some(
            MsChannel {
                predictor: predictor as usize,
                delta: if delta < 16 {
                    16
                } else {
                    delta as i32
                },
                older: signed16(bytes, at + 4) as i16,
                newer: signed16(bytes, at + 6) as i16,
            },
        )
    }
}

/// The channels that the first `count` headers of a block describe.
pub open spec fn ms_starts(bytes: Seq<u8>, start: int, count: int) -> Option<Seq<MsChannel>>
    decreases count,
{
    if count <= 0 {
        Some(Seq::empty())
    } else {
        match (
            ms_starts(bytes, start, count - 1),
            ms_start(bytes, start + (count - 1) * MS_HEADER_SIZE),
        ) {
            (Some(channels), Some(channel)) => Some(channels.push(channel)),
            _ => None,
        }
    }
}

/// The channels and their samples after `count` values of four bits, which
/// the channels take in turn.
pub open spec fn ms_run(
    channels: Seq<MsChannel>,
    bytes: Seq<u8>,
    start: int,
    count: int,
) -> Option<(Seq<MsChannel>, Seq<i16>)>
    decreases count,
{
    if count <= 0 {
        Some((channels, Seq::empty()))
    } else {
        match ms_run(channels, bytes, start, count - 1) {
            None => None,
            Some((before, samples)) => {
                let turn = (count - 1) % channels.len() as int;
                match ms_next(before[turn], nibble_at(bytes, start, count - 1)) {
                    None => None,
                    Some(channel) => Some(
                        (before.update(turn, channel), samples.push(channel.newer)),
                    ),
                }
            },
        }
    }
}

/// The channels and their samples after `count` samples as predicted, which
/// the channels take in turn.
pub open spec fn ms_guesses(channels: Seq<MsChannel>, count: int) -> (Seq<MsChannel>, Seq<i16>)
    decreases count,
{
    if count <= 0 {
        (channels, Seq::empty())
    } else {
        let (before, samples) = ms_guesses(channels, count - 1);
        let turn = (count - 1) % channels.len() as int;
        let channel = ms_guess(before[turn]);
        (before.update(turn, channel), samples.push(channel.newer))
    }
}

/// The samples that a block holds beyond the two in each header: in all, and
/// those of which it holds a value.
pub open spec fn ms_wanted(channels: int, samples_per_block: int) -> int {
    if samples_per_block <= 2 {
        0
    } else {
        (samples_per_block - 2) * channels
    }
}

pub open spec fn ms_held(channels: int, block_size: int, samples_per_block: int) -> int {
    let held = 2 * (block_size - channels * MS_HEADER_SIZE);
    if held < ms_wanted(channels, samples_per_block) {
        held
    } else {
        ms_wanted(channels, samples_per_block)
    }
}

/// The samples of the block that begins at `start`: the two of each header,
/// then those of which it holds a value, then as many as predicted as are
/// missing.
pub open spec fn ms_block(
    bytes: Seq<u8>,
    start: int,
    channels: int,
    block_size: int,
    samples_per_block: int,
) -> Option<Seq<i16>> {
    match ms_starts(bytes, start, channels) {
        None => None,
        Some(starts) => {
            let held = ms_held(channels, block_size, samples_per_block);
            match ms_run(starts, bytes, start + channels * MS_HEADER_SIZE, held) {
                None => None,
                Some((after, samples)) => Some(
                    starts.map_values(|channel: MsChannel| channel.older) + starts.map_values(
                        |channel: MsChannel| channel.newer,
                    ) + samples + ms_guesses(
                        after,
                        ms_wanted(channels, samples_per_block) - held,
                    ).1,
                ),
            }
        },
    }
}

/// The samples of the first `count` blocks.
pub open spec fn ms_blocks(
    bytes: Seq<u8>,
    channels: int,
    block_size: int,
    samples_per_block: int,
    count: int,
) -> Option<Seq<i16>>
    decreases count,
{
    if count <= 0 {
        Some(Seq::empty())
    } else {
        match (
            ms_blocks(bytes, channels, block_size, samples_per_block, count - 1),
            ms_block(bytes, (count - 1) * block_size, channels, block_size, samples_per_block),
        ) {
            (Some(before), Some(block)) => Some(before + block),
            _ => None,
        }
    }
}

/// What the data decodes to. There are one or two channels, a block holds a
/// header for each, and data that is not empty holds a whole block; bytes
/// behind the last whole block do not count.
pub open spec fn ms_decoded(
    bytes: Seq<u8>,
    channels: int,
    block_size: int,
    samples_per_block: int,
) -> Option<Seq<i16>> {
    if channels != 1 && channels != 2 {
        None
    } else if block_size < channels * MS_HEADER_SIZE {
        None
    } else if 0 < bytes.len() < block_size {
        None
    } else {
        ms_blocks(
            bytes,
            channels,
            block_size,
            samples_per_block,
            bytes.len() as int / block_size,
        )
    }
}

// ---------------------------------------------------------------------------
// How much comes out
// ---------------------------------------------------------------------------

proof fn lemma_starts(bytes: Seq<u8>, start: int, count: int)
    ensures
        ms_starts(bytes, start, count) matches Some(channels) ==> channels.len() == (if count > 0 {
            count
        } else {
            0
        }),
    decreases count,
{
    if count > 0 {
        lemma_starts(bytes, start, count - 1);
    }
}

proof fn lemma_turn(index: int, count: int)
    requires
        count > 0,
    ensures
        0 <= index % count < count,
{
    assert(0 <= index % count < count) by (nonlinear_arith)
        requires
            count > 0,
    ;
}

proof fn lemma_run(channels: Seq<MsChannel>, bytes: Seq<u8>, start: int, count: int)
    requires
        count >= 0,
        channels.len() > 0,
    ensures
        ms_run(channels, bytes, start, count) matches Some((after, samples)) ==> after.len()
            == channels.len() && samples.len() == count,
    decreases count,
{
    if count > 0 {
        lemma_run(channels, bytes, start, count - 1);
        lemma_turn(count - 1, channels.len() as int);
    }
}

proof fn lemma_guesses(channels: Seq<MsChannel>, count: int)
    requires
        count >= 0,
        channels.len() > 0,
    ensures
        ms_guesses(channels, count).0.len() == channels.len(),
        ms_guesses(channels, count).1.len() == count,
    decreases count,
{
    if count > 0 {
        lemma_guesses(channels, count - 1);
        lemma_turn(count - 1, channels.len() as int);
    }
}

/// Each channel of a block gives as many samples as asked for, and its two
/// first ones in any case.
pub open spec fn ms_frames(samples_per_block: int) -> int {
    if samples_per_block < 2 {
        2
    } else {
        samples_per_block
    }
}

proof fn lemma_block_length(
    bytes: Seq<u8>,
    start: int,
    channels: int,
    block_size: int,
    samples_per_block: int,
)
    requires
        channels == 1 || channels == 2,
        block_size >= channels * MS_HEADER_SIZE,
    ensures
        ms_block(bytes, start, channels, block_size, samples_per_block) matches Some(samples)
            ==> samples.len() == ms_frames(samples_per_block) * channels,
{
    if let Some(starts) = ms_starts(bytes, start, channels) {
        lemma_starts(bytes, start, channels);
        let wanted = ms_wanted(channels, samples_per_block);
        let held = ms_held(channels, block_size, samples_per_block);
        assert(wanted >= 0) by (nonlinear_arith)
            requires
                wanted == (if samples_per_block <= 2 {
                    0
                } else {
                    (samples_per_block - 2) * channels
                }),
                channels == 1 || channels == 2,
        ;
        lemma_run(starts, bytes, start + channels * MS_HEADER_SIZE, held);
        if let Some((after, samples)) = ms_run(
            starts,
            bytes,
            start + channels * MS_HEADER_SIZE,
            held,
        ) {
            lemma_guesses(after, wanted - held);
            assert(2 * channels + wanted == ms_frames(samples_per_block) * channels)
                by (nonlinear_arith)
                requires
                    wanted == (if samples_per_block <= 2 {
                        0
                    } else {
                        (samples_per_block - 2) * channels
                    }),
                    ms_frames(samples_per_block) == (if samples_per_block < 2 {
                        2
                    } else {
                        samples_per_block
                    }),
            ;
        }
    }
}

proof fn lemma_blocks_length(
    bytes: Seq<u8>,
    channels: int,
    block_size: int,
    samples_per_block: int,
    count: int,
)
    requires
        channels == 1 || channels == 2,
        block_size >= channels * MS_HEADER_SIZE,
        count >= 0,
    ensures
        ms_blocks(bytes, channels, block_size, samples_per_block, count) matches Some(samples)
            ==> samples.len() == count * (ms_frames(samples_per_block) * channels),
    decreases count,
{
    let each = ms_frames(samples_per_block) * channels;
    if count > 0 {
        lemma_blocks_length(bytes, channels, block_size, samples_per_block, count - 1);
        lemma_block_length(
            bytes,
            (count - 1) * block_size,
            channels,
            block_size,
            samples_per_block,
        );
        assert((count - 1) * each + each == count * each) by (nonlinear_arith);
    } else {
        assert(0 * each == 0) by (nonlinear_arith);
    }
}

/// Every whole block gives as many samples for each channel as asked for.
pub proof fn lemma_ms_length(
    bytes: Seq<u8>,
    channels: int,
    block_size: int,
    samples_per_block: int,
)
    ensures
        ms_decoded(bytes, channels, block_size, samples_per_block) matches Some(samples)
            ==> samples.len() == (bytes.len() as int / block_size) * (ms_frames(samples_per_block)
            * channels),
{
    if (channels == 1 || channels == 2) && block_size >= channels * MS_HEADER_SIZE {
        let count = bytes.len() as int / block_size;
        assert(count >= 0) by (nonlinear_arith)
            requires
                block_size > 0,
                count == bytes.len() as int / block_size,
                bytes.len() >= 0,
        ;
        lemma_blocks_length(bytes, channels, block_size, samples_per_block, count);
    }
}

// ---------------------------------------------------------------------------
// Decoding
// ---------------------------------------------------------------------------

fn units(value: i64) -> (part: i64)
    requires
        -0x100_0000_0000 <= value <= 0x100_0000_0000,
    ensures
        part == in_units(value as int),
{
    if value >= 0 {
        value / 256
    } else {
        -((-value) / 256)
    }
}

fn clamp_sample(value: i64) -> (sample: i16)
    ensures
        sample == clamped(value as int, i16::MIN as int, i16::MAX as int),
{
    if value < i16::MIN as i64 {
        i16::MIN
    } else if value > i16::MAX as i64 {
        i16::MAX
    } else {
        value as i16
    }
}

fn predict(channel: MsChannel) -> (sample: i64)
    requires
        channel.predictor < 7,
    ensures
        sample == predicted(channel),
        -0x100_0000 <= sample <= 0x100_0000,
{
    let weights: (i16, i16) = MS_ADPCM_COEFFICIENTS[channel.predictor];
    let first: i64 = weights.0 as i64;
    let second: i64 = weights.1 as i64;
    let older: i64 = channel.older as i64;
    let newer: i64 = channel.newer as i64;
    assert(-0x4000_0000 <= first * older <= 0x4000_0000) by (nonlinear_arith)
        requires
            -0x8000 <= first <= 0x8000,
            -0x8000 <= older <= 0x8000,
    ;
    assert(-0x4000_0000 <= second * newer <= 0x4000_0000) by (nonlinear_arith)
        requires
            -0x8000 <= second <= 0x8000,
            -0x8000 <= newer <= 0x8000,
    ;
    units(first * older + second * newer)
}

fn advance(channel: MsChannel, nibble: u8) -> (next: Option<MsChannel>)
    requires
        channel.predictor < 7,
        nibble < 16,
    ensures
        next == ms_next(channel, nibble as int),
{
    let sample: i64 = predict(channel);
    let delta: i64 = channel.delta as i64;
    let count: i64 = if nibble >= 8 {
        nibble as i64 - 16
    } else {
        nibble as i64
    };
    let factor: i64 = MS_ADPCM_ADAPTATION[nibble as usize] as i64;
    assert(-0x8_0000_0000 <= delta * count <= 0x8_0000_0000) by (nonlinear_arith)
        requires
            -0x8000_0000 <= delta <= 0x8000_0000,
            -16 <= count <= 16,
    ;
    assert(-0x4000_0000_0000 <= factor * delta <= 0x4000_0000_0000) by (nonlinear_arith)
        requires
            -0x8000_0000 <= delta <= 0x8000_0000,
            -0x8000 <= factor <= 0x8000,
    ;
    let moved: i64 = delta * count;
    let grown: i64 = factor * delta;
    if moved < i32::MIN as i64 || moved > i32::MAX as i64 {
        return None;
    }
    if sample + moved < i32::MIN as i64 || sample + moved > i32::MAX as i64 {
        return None;
    }
    if grown < i32::MIN as i64 || grown > i32::MAX as i64 {
        return None;
    }
    let part: i64 = units(grown);
    let next_delta: i32 = if part < 16 {
        16
    } else {
        part as i32
    };
    Some(
        MsChannel {
            predictor: channel.predictor,
            delta: next_delta,
            older: channel.newer,
            newer: clamp_sample(sample + moved),
        },
    )
}

fn guess(channel: MsChannel) -> (next: MsChannel)
    requires
        channel.predictor < 7,
    ensures
        next == ms_guess(channel),
{
    MsChannel {
        predictor: channel.predictor,
        delta: channel.delta,
        older: channel.newer,
        newer: clamp_sample(predict(channel)),
    }
}

fn read_start(bytes: &[u8], at: usize) -> (channel: Option<MsChannel>)
    requires
        at + MS_HEADER_SIZE <= bytes.len(),
    ensures
        channel == ms_start(bytes@, at as int),
        channel matches Some(inner) ==> inner.predictor < 7,
{
    let predictor: usize = bytes[at] as usize + 0x100 * bytes[at + 1] as usize;
    if predictor >= 7 {
        return None;
    }
    let delta: i32 = bytes[at + 2] as i32 + 0x100 * bytes[at + 3] as i32;
    Some(
        MsChannel {
            predictor,
            delta: if delta < 16 {
                16
            } else {
                delta
            },
            older: read_signed16(bytes, at + 4),
            newer: read_signed16(bytes, at + 6),
        },
    )
}

/// The predictors of all channels are in the table.
pub open spec fn usable(channels: Seq<MsChannel>) -> bool {
    forall|i: int| 0 <= i < channels.len() ==> (#[trigger] channels[i]).predictor < 7
}

fn read_starts(bytes: &[u8], start: usize, count: usize) -> (channels: Option<Vec<MsChannel>>)
    requires
        count <= 2,
        start + count * MS_HEADER_SIZE <= bytes.len(),
    ensures
        match channels {
            Some(list) => ms_starts(bytes@, start as int, count as int) == Some(list@)
                && list@.len() == count && usable(list@),
            None => ms_starts(bytes@, start as int, count as int) is None,
        },
{
    let length: usize = bytes.len();
    let mut list: Vec<MsChannel> = Vec::new();
    let mut done: usize = 0;
    while done < count
        invariant
            done <= count <= 2,
            length == bytes@.len(),
            start + count * MS_HEADER_SIZE <= length,
            ms_starts(bytes@, start as int, done as int) == Some(list@),
            list@.len() == done,
            usable(list@),
        decreases count - done,
    {
        match read_start(bytes, start + done * MS_HEADER_SIZE) {
            None => {
                proof {
                    lemma_starts_stuck(bytes@, start as int, done + 1, count as int);
                }
                return None;
            },
            Some(channel) => {
                list.push(channel);
            },
        }
        done += 1;
    }
    Some(list)
}

proof fn lemma_starts_stuck(bytes: Seq<u8>, start: int, first: int, count: int)
    requires
        0 <= first <= count,
        ms_starts(bytes, start, first) is None,
    ensures
        ms_starts(bytes, start, count) is None,
    decreases count,
{
    if first < count {
        lemma_starts_stuck(bytes, start, first, count - 1);
    }
}

proof fn lemma_run_stuck(
    channels: Seq<MsChannel>,
    bytes: Seq<u8>,
    start: int,
    first: int,
    count: int,
)
    requires
        0 <= first <= count,
        ms_run(channels, bytes, start, first) is None,
    ensures
        ms_run(channels, bytes, start, count) is None,
    decreases count,
{
    if first < count {
        lemma_run_stuck(channels, bytes, start, first, count - 1);
    }
}

/// Decodes `count` values of four bits; false where a number grew too large.
fn run(
    channels: &mut Vec<MsChannel>,
    bytes: &[u8],
    start: usize,
    count: usize,
    output: &mut Vec<i16>,
) -> (decoded: bool)
    requires
        old(channels)@.len() > 0,
        usable(old(channels)@),
        start + (count + 1) / 2 <= bytes.len(),
        count < usize::MAX,
    ensures
        match ms_run(old(channels)@, bytes@, start as int, count as int) {
            Some((after, samples)) => decoded && final(channels)@ == after && final(output)@ == old(
                output,
            )@ + samples && usable(after),
            None => !decoded,
        },
{
    let ghost first = channels@;
    let ghost before = output@;
    let length: usize = bytes.len();
    let mut done: usize = 0;
    let ghost mut samples = Seq::<i16>::empty();
    assert(before + samples =~= before);
    while done < count
        invariant
            done <= count < usize::MAX,
            length == bytes@.len(),
            start + (count + 1) / 2 <= length,
            first == old(channels)@,
            before == old(output)@,
            first.len() > 0,
            channels@.len() == first.len(),
            usable(channels@),
            ms_run(first, bytes@, start as int, done as int) == Some((channels@, samples)),
            output@ == before + samples,
        decreases count - done,
    {
        let turn: usize = done % channels.len();
        let nibble: u8 = read_nibble(bytes, start, done);
        match advance(channels[turn], nibble) {
            None => {
                proof {
                    lemma_run_stuck(first, bytes@, start as int, done + 1, count as int);
                }
                return false;
            },
            Some(channel) => {
                output.push(channel.newer);
                proof {
                    samples = samples.push(channel.newer);
                    assert(output@ =~= before + samples);
                }
                channels.set(turn, channel);
            },
        }
        done += 1;
    }
    true
}

/// Adds `count` samples as predicted.
fn fill(channels: &mut Vec<MsChannel>, count: usize, output: &mut Vec<i16>)
    requires
        old(channels)@.len() > 0,
        usable(old(channels)@),
    ensures
        final(output)@ == old(output)@ + ms_guesses(old(channels)@, count as int).1,
{
    let ghost first = channels@;
    let ghost before = output@;
    let mut done: usize = 0;
    assert(before + Seq::<i16>::empty() =~= before);
    while done < count
        invariant
            done <= count,
            first == old(channels)@,
            before == old(output)@,
            first.len() > 0,
            channels@.len() == first.len(),
            usable(channels@),
            channels@ == ms_guesses(first, done as int).0,
            output@ == before + ms_guesses(first, done as int).1,
        decreases count - done,
    {
        let turn: usize = done % channels.len();
        let channel: MsChannel = guess(channels[turn]);
        output.push(channel.newer);
        assert(output@ =~= before + ms_guesses(first, done as int).1.push(channel.newer));
        channels.set(turn, channel);
        done += 1;
    }
}

/// Adds the samples of one block to the output; false where it cannot be
/// decoded.
fn push_block(
    bytes: &[u8],
    start: usize,
    channels: usize,
    block_size: usize,
    samples_per_block: usize,
    output: &mut Vec<i16>,
) -> (decoded: bool)
    requires
        channels == 1 || channels == 2,
        channels * MS_HEADER_SIZE <= block_size <= 0xffff,
        samples_per_block <= 0xffff,
        start + block_size <= bytes.len(),
    ensures
        match ms_block(
            bytes@,
            start as int,
            channels as int,
            block_size as int,
            samples_per_block as int,
        ) {
            Some(samples) => decoded && final(output)@ == old(output)@ + samples,
            None => !decoded,
        },
{
    assert(bytes.len() == bytes@.len());
    let ghost before = output@;
    let header: usize = channels * MS_HEADER_SIZE;
    let mut states: Vec<MsChannel> = match read_starts(bytes, start, channels) {
        None => {
            return false;
        },
        Some(states) => states,
    };
    let ghost starts = states@;
    let ghost older = starts.map_values(|channel: MsChannel| channel.older);
    let ghost newer = starts.map_values(|channel: MsChannel| channel.newer);
    output.push(states[0].older);
    if channels == 2 {
        output.push(states[1].older);
    }
    assert(output@ =~= before + older);
    output.push(states[0].newer);
    if channels == 2 {
        output.push(states[1].newer);
    }
    assert(output@ =~= before + (older + newer));
    let wanted: usize = if samples_per_block <= 2 {
        0
    } else if channels == 1 {
        samples_per_block - 2
    } else {
        2 * (samples_per_block - 2)
    };
    assert(wanted == ms_wanted(channels as int, samples_per_block as int)) by {
        if channels == 1 {
            assert((samples_per_block - 2) * 1 == samples_per_block - 2) by (nonlinear_arith);
        } else {
            assert((samples_per_block - 2) * 2 == 2 * (samples_per_block - 2)) by (nonlinear_arith);
        }
    }
    let available: usize = 2 * (block_size - header);
    let held: usize = if available < wanted {
        available
    } else {
        wanted
    };
    assert(held == ms_held(channels as int, block_size as int, samples_per_block as int));
    if !run(&mut states, bytes, start + header, held, output) {
        return false;
    }
    let ghost after = states@;
    let ghost pair = ms_run(starts, bytes@, start + header, held as int)->0;
    let ghost samples = pair.1;
    assert(output@ == before + (older + newer) + samples);
    proof {
        lemma_run(starts, bytes@, start + header, held as int);
    }
    fill(&mut states, wanted - held, output);
    let ghost rest = ms_guesses(after, wanted - held).1;
    assert(output@ =~= before + (older + newer + samples + rest));
    true
}

proof fn lemma_ms_blocks_stuck(
    bytes: Seq<u8>,
    channels: int,
    block_size: int,
    samples_per_block: int,
    first: int,
    count: int,
)
    requires
        0 <= first <= count,
        ms_blocks(bytes, channels, block_size, samples_per_block, first) is None,
    ensures
        ms_blocks(bytes, channels, block_size, samples_per_block, count) is None,
    decreases count,
{
    if first < count {
        lemma_ms_blocks_stuck(bytes, channels, block_size, samples_per_block, first, count - 1);
    }
}

/// The number of the predictor in a header.
pub open spec fn predictor_at(bytes: Seq<u8>, at: int) -> int {
    bytes[at] + 0x100 * bytes[at + 1]
}

/// The first predictor of a block that is not in the table.
fn wrong_predictor(bytes: &[u8], start: usize, channels: usize) -> (predictor: Option<usize>)
    requires
        channels == 1 || channels == 2,
        start + channels * MS_HEADER_SIZE <= bytes.len(),
    ensures
        predictor == (if predictor_at(bytes@, start as int) >= 7 {
            Some(predictor_at(bytes@, start as int) as usize)
        } else if channels == 2 && predictor_at(bytes@, start + MS_HEADER_SIZE) >= 7 {
            Some(predictor_at(bytes@, start + MS_HEADER_SIZE) as usize)
        } else {
            None
        }),
{
    assert(bytes.len() == bytes@.len());
    let first: usize = bytes[start] as usize + 0x100 * bytes[start + 1] as usize;
    if first >= 7 {
        return Some(first);
    }
    if channels == 2 {
        let at: usize = start + MS_HEADER_SIZE;
        let second: usize = bytes[at] as usize + 0x100 * bytes[at + 1] as usize;
        if second >= 7 {
            return Some(second);
        }
    }
    None
}

/// Decodes Microsoft ADPCM to samples whose channels take turns.
///
/// A block begins with a header for each channel: the number of its predictor,
/// its first step, and its first two samples, each in two bytes. The values of
/// four bits follow, which the channels take in turn. Each channel gives
/// `samples_per_block` samples; where the block holds fewer values, the rest
/// is as predicted. Data whose steps grow out of 32 bits is refused.
pub fn decode_ms_adpcm(
    adpcm_data: &[u8],
    block_size: u16,
    num_channels: u16,
    samples_per_block: u16,
) -> (outcome: AppResult<Vec<i16>>)
    ensures
        ({
            let expected = ms_decoded(
                adpcm_data@,
                num_channels as int,
                block_size as int,
                samples_per_block as int,
            );
            match outcome {
                Ok(samples) => expected == Some(samples@),
                Err(error) => expected is None && error.code == ReasonCode::RcAudioUnsupported,
            }
        }),
{
    let channels: usize = num_channels as usize;
    let size: usize = block_size as usize;
    if channels != 1 && channels != 2 {
        return unsupported(
            &noted("MS ADPCM unsupported channel count: ", num_channels as u64, ""),
        );
    }
    if size < MS_HEADER_SIZE {
        return unsupported(&noted("MS ADPCM block size too small: ", size as u64, ""));
    }
    if size < channels * MS_HEADER_SIZE {
        let mut message: String = noted("MS ADPCM block size ", size as u64, " < header size ");
        push_decimal(&mut message, (channels * MS_HEADER_SIZE) as u64);
        return unsupported(&message);
    }
    let length: usize = adpcm_data.len();
    if length > 0 && length < size {
        return unsupported("MS ADPCM data truncated: fewer bytes than one block");
    }
    let count: usize = length / size;
    let mut output: Vec<i16> = Vec::new();
    let mut done: usize = 0;
    while done < count
        invariant
            channels == 1 || channels == 2,
            channels == num_channels,
            size == block_size,
            channels * MS_HEADER_SIZE <= size <= 0xffff,
            length == adpcm_data@.len(),
            !(0 < length < size),
            count == length / size,
            done <= count,
            ms_blocks(
                adpcm_data@,
                channels as int,
                size as int,
                samples_per_block as int,
                done as int,
            ) == Some(output@),
        decreases count - done,
    {
        proof {
            lemma_block_inside(done as int, count as int, size as int, length as int);
        }
        if !push_block(
            adpcm_data,
            done * size,
            channels,
            size,
            samples_per_block as usize,
            &mut output,
        ) {
            proof {
                lemma_ms_blocks_stuck(
                    adpcm_data@,
                    channels as int,
                    size as int,
                    samples_per_block as int,
                    done + 1,
                    count as int,
                );
            }
            return match wrong_predictor(adpcm_data, done * size, channels) {
                Some(predictor) => unsupported(
                    &noted("MS ADPCM invalid predictor index: ", predictor as u64, ""),
                ),
                None => unsupported("MS ADPCM block cannot be decoded"),
            };
        }
        done += 1;
    }
    Ok(output)
}

/// A 256th part is rounded towards zero, alike for both signs.
pub proof fn lemma_in_units(value: int)
    ensures
        in_units(-value) == -in_units(value),
        value >= 0 ==> 256 * in_units(value) <= value < 256 * in_units(value) + 256,
        value >= 0 ==> in_units(value) >= 0,
{
}

/// The seven ways to predict a sample from the last but one and the last:
/// the last but one again; the line through both, backwards; silence; three
/// quarters of it and one of the last; 15/16 of it; 115/64 of it less 52/64 of
/// the last; 49/32 of it less 29/32 of the last.
pub proof fn lemma_predictions(channel: MsChannel)
    requires
        channel.predictor < 7,
    ensures
        channel.predictor == 0 ==> predicted(channel) == channel.older,
        channel.predictor == 1 ==> predicted(channel) == 2 * channel.older - channel.newer,
        channel.predictor == 2 ==> predicted(channel) == 0,
        channel.predictor == 3 ==> -4 < 3 * channel.older + channel.newer - 4 * predicted(channel)
            < 4,
        channel.predictor == 4 ==> -16 < 15 * channel.older - 16 * predicted(channel) < 16,
        channel.predictor == 5 ==> -64 < 115 * channel.older - 52 * channel.newer - 64 * predicted(
            channel,
        ) < 64,
        channel.predictor == 6 ==> -32 < 49 * channel.older - 29 * channel.newer - 32 * predicted(
            channel,
        ) < 32,
{
    let weights = MS_ADPCM_COEFFICIENTS@[channel.predictor as int];
    let first = weights.0 as int;
    let second = weights.1 as int;
    let older = channel.older as int;
    let newer = channel.newer as int;
    let sum = first * older + second * newer;
    assert((first == 256 && second == 0 ==> sum == 256 * older) && (first == 512 && second == -256
        ==> sum == 512 * older - 256 * newer) && (first == 0 && second == 0 ==> sum == 0) && (first
        == 192 && second == 64 ==> sum == 192 * older + 64 * newer) && (first == 240 && second == 0
        ==> sum == 240 * older) && (first == 460 && second == -208 ==> sum == 460 * older - 208
        * newer) && (first == 392 && second == -232 ==> sum == 392 * older - 232 * newer))
        by (nonlinear_arith)
        requires
            sum == first * older + second * newer,
    ;
    lemma_in_units(sum);
}

/// Values that are as far from zero on either side make the step grow alike,
/// small ones make it shrink and large ones grow, the more the larger; the one
/// value without a counterpart makes it grow threefold.
pub proof fn lemma_adaptation(nibble: int)
    requires
        0 <= nibble < 8,
    ensures
        nibble > 0 ==> MS_ADPCM_ADAPTATION@[nibble] == MS_ADPCM_ADAPTATION@[16 - nibble],
        nibble < 7 ==> MS_ADPCM_ADAPTATION@[nibble] <= MS_ADPCM_ADAPTATION@[nibble + 1],
        nibble < 4 <==> MS_ADPCM_ADAPTATION@[nibble] < 256,
        nibble < 4 ==> MS_ADPCM_ADAPTATION@[nibble] == 230,
        MS_ADPCM_ADAPTATION@[8] == 3 * 256,
        nibble >= 4 ==> -256 < 5 * MS_ADPCM_ADAPTATION@[nibble] - 256 * (2 * nibble - 2) < 256,
{
}

/// A value counts steps from the prediction, those from eight on downwards: one
/// more is one step more. What comes out is held inside 16 bits; the last
/// sample becomes the last but one; and the step is never below sixteen.
pub proof fn lemma_ms_next(channel: MsChannel, nibble: int)
    requires
        channel.predictor < 7,
        0 <= nibble < 16,
    ensures
        ms_next(channel, nibble) matches Some(next) ==> {
            let steps = if nibble < 8 {
                nibble
            } else {
                nibble - 16
            };
            let exact = predicted(channel) + channel.delta * steps;
            &&& next.predictor == channel.predictor
            &&& next.older == channel.newer
            &&& exact < -32768 ==> next.newer == -32768
            &&& -32768 <= exact <= 32767 ==> next.newer == exact
            &&& exact > 32767 ==> next.newer == 32767
            &&& next.delta >= 16
            &&& next.delta > 16 && channel.delta >= 0 ==> 256 * next.delta
                <= MS_ADPCM_ADAPTATION@[nibble] * channel.delta < 256 * next.delta + 256
            &&& MS_ADPCM_ADAPTATION@[nibble] * channel.delta < 4352 ==> next.delta == 16
        },
        ms_next(channel, 0) matches Some(next) ==> next.newer == ms_guess(channel).newer,
        ms_guess(channel).predictor == channel.predictor,
        ms_guess(channel).delta == channel.delta,
        ms_guess(channel).older == channel.newer,
{
    assert(channel.delta * 0 == 0);
}

/// The header of a channel is read as it was written: the way to predict, the
/// step, which is sixteen at least, the last but one sample and the last.
pub proof fn lemma_ms_start_reads_back(
    bytes: Seq<u8>,
    at: int,
    predictor: u16,
    delta: u16,
    older: u16,
    newer: u16,
)
    requires
        holds_at(
            bytes,
            at,
            bytes16(predictor) + (bytes16(delta) + (bytes16(older) + bytes16(newer))),
        ),
    ensures
        predictor < 7 <==> ms_start(bytes, at) is Some,
        ms_start(bytes, at) matches Some(channel) ==> {
            &&& channel.predictor == predictor
            &&& channel.delta == delta || delta < 16 && channel.delta == 16
            &&& channel.delta >= 16
            &&& channel.older as int % 0x1_0000 == older
            &&& channel.newer as int % 0x1_0000 == newer
        },
{
    lemma_held16_first(
        bytes,
        at,
        predictor,
        bytes16(delta) + (bytes16(older) + bytes16(newer)),
    );
    lemma_held16_first(bytes, at + 2, delta, bytes16(older) + bytes16(newer));
    lemma_held16_first(bytes, at + 4, older, bytes16(newer));
    lemma_held16(bytes, at + 6, newer);
}

/// Each value moves the channel whose turn it is and no other, and gives its
/// new sample; the turns go round.
pub proof fn lemma_ms_turns(channels: Seq<MsChannel>, bytes: Seq<u8>, start: int, count: int)
    requires
        channels.len() > 0,
        0 <= count,
        ms_run(channels, bytes, start, count + 1) is Some,
    ensures
        ms_run(channels, bytes, start, count) is Some,
        ({
            let (before, sooner) = ms_run(channels, bytes, start, count)->0;
            let (after, samples) = ms_run(channels, bytes, start, count + 1)->0;
            let turn = count % channels.len() as int;
            let nibble = if count % 2 == 0 {
                bytes[start + count / 2] as int % 16
            } else {
                bytes[start + count / 2] as int / 16
            };
            &&& samples.len() == count + 1
            &&& sooner == samples.take(count)
            &&& ms_next(before[turn], nibble) == Some(after[turn])
            &&& samples[count] == after[turn].newer
            &&& before.len() == channels.len()
            &&& after.len() == channels.len()
            &&& forall|i: int|
                0 <= i < channels.len() && i != turn ==> #[trigger] after[i] == before[i]
        }),
{
    lemma_ms_run_shape(channels, bytes, start, count);
    let (before, sooner) = ms_run(channels, bytes, start, count)->0;
    let (after, samples) = ms_run(channels, bytes, start, count + 1)->0;
    assert(sooner =~= samples.take(count));
}

proof fn lemma_ms_run_shape(channels: Seq<MsChannel>, bytes: Seq<u8>, start: int, count: int)
    requires
        channels.len() > 0,
        0 <= count,
        ms_run(channels, bytes, start, count) is Some,
    ensures
        (ms_run(channels, bytes, start, count)->0).0.len() == channels.len(),
        (ms_run(channels, bytes, start, count)->0).1.len() == count,
    decreases count,
{
    if count > 0 {
        lemma_ms_run_shape(channels, bytes, start, count - 1);
    }
}

/// A block gives the two samples of every channel's header first, the older
/// ones and then the newer ones, and then what its values give.
pub proof fn lemma_ms_block_begins(
    bytes: Seq<u8>,
    start: int,
    channels: int,
    block_size: int,
    samples_per_block: int,
    channel: int,
)
    requires
        0 <= channel < channels <= 2,
        ms_block(bytes, start, channels, block_size, samples_per_block) is Some,
    ensures
        ({
            let block = ms_block(bytes, start, channels, block_size, samples_per_block)->0;
            let header = ms_start(bytes, start + 8 * channel);
            &&& header is Some
            &&& block.len() >= 2 * channels
            &&& block[channel] == header->0.older
            &&& block[channels + channel] == header->0.newer
        }),
{
    reveal_with_fuel(ms_starts, 3);
}

proof fn lemma_ms_run_inside(
    channels: Seq<MsChannel>,
    bytes: Seq<u8>,
    from: int,
    size: int,
    at: int,
    count: int,
)
    requires
        0 <= from,
        from + size <= bytes.len(),
        0 <= at,
        0 <= count,
        at + (count + 1) / 2 <= size,
        channels.len() > 0,
    ensures
        ms_run(channels, bytes, from + at, count) == ms_run(
            channels,
            bytes.subrange(from, from + size),
            at,
            count,
        ),
        ms_run(channels, bytes, from + at, count) matches Some((after, samples)) ==> after.len()
            == channels.len() && samples.len() == count,
    decreases count,
{
    if count > 0 {
        lemma_ms_run_inside(channels, bytes, from, size, at, count - 1);
        let place = at + (count - 1) / 2;
        assert(bytes.subrange(from, from + size)[place] == bytes[from + place]);
        assert(from + at + (count - 1) / 2 == from + place);
    }
}

proof fn lemma_ms_guessed(channels: Seq<MsChannel>, count: int)
    requires
        0 <= count,
    ensures
        ms_guesses(channels, count).1.len() == count,
    decreases count,
{
    if count > 0 {
        lemma_ms_guessed(channels, count - 1);
    }
}

proof fn lemma_ms_starts_inside(bytes: Seq<u8>, from: int, size: int, count: int)
    requires
        0 <= from,
        from + size <= bytes.len(),
        0 <= count <= 2,
        count * MS_HEADER_SIZE <= size,
    ensures
        ms_starts(bytes, from, count) == ms_starts(bytes.subrange(from, from + size), 0, count),
        ms_starts(bytes, from, count) matches Some(list) ==> list.len() == count,
    decreases count,
{
    if count > 0 {
        lemma_ms_starts_inside(bytes, from, size, count - 1);
        let part = bytes.subrange(from, from + size);
        let at = (count - 1) * MS_HEADER_SIZE;
        assert(part[at] == bytes[from + at]);
        assert(part[at + 1] == bytes[from + at + 1]);
        assert(part[at + 2] == bytes[from + at + 2]);
        assert(part[at + 3] == bytes[from + at + 3]);
        assert(part[at + 4] == bytes[from + at + 4]);
        assert(part[at + 5] == bytes[from + at + 5]);
        assert(part[at + 6] == bytes[from + at + 6]);
        assert(part[at + 7] == bytes[from + at + 7]);
        assert(ms_start(bytes, from + at) == ms_start(part, at));
    }
}

proof fn lemma_ms_block_inside(
    bytes: Seq<u8>,
    from: int,
    channels: int,
    block_size: int,
    samples_per_block: int,
)
    requires
        channels == 1 || channels == 2,
        0 <= from,
        from + block_size <= bytes.len(),
        block_size >= channels * MS_HEADER_SIZE,
    ensures
        ms_block(bytes, from, channels, block_size, samples_per_block) == ms_block(
            bytes.subrange(from, from + block_size),
            0,
            channels,
            block_size,
            samples_per_block,
        ),
        ms_block(bytes, from, channels, block_size, samples_per_block) matches Some(samples)
            ==> samples.len() == 2 * channels + ms_wanted(channels, samples_per_block),
{
    let part = bytes.subrange(from, from + block_size);
    let held = ms_held(channels, block_size, samples_per_block);
    let wanted = ms_wanted(channels, samples_per_block);
    assert(wanted >= 0) by (nonlinear_arith)
        requires
            channels > 0,
            wanted == (if samples_per_block <= 2 {
                0
            } else {
                (samples_per_block - 2) * channels
            }),
    ;
    lemma_ms_starts_inside(bytes, from, block_size, channels);
    if let Some(starts) = ms_starts(bytes, from, channels) {
        let at = channels * MS_HEADER_SIZE;
        lemma_ms_run_inside(starts, bytes, from, block_size, at, held);
        if let Some((after, samples)) = ms_run(starts, bytes, from + at, held) {
            lemma_ms_guessed(after, wanted - held);
        }
    }
}

proof fn lemma_ms_blocks_in_order(
    bytes: Seq<u8>,
    channels: int,
    block_size: int,
    samples_per_block: int,
    count: int,
    block: int,
)
    requires
        channels == 1 || channels == 2,
        block_size >= channels * MS_HEADER_SIZE,
        0 <= block < count,
        count * block_size <= bytes.len(),
        ms_blocks(bytes, channels, block_size, samples_per_block, count) is Some,
    ensures
        ({
            let own = 2 * channels + ms_wanted(channels, samples_per_block);
            let all = ms_blocks(bytes, channels, block_size, samples_per_block, count)->0;
            &&& own >= 0
            &&& 0 <= block * own <= (block + 1) * own <= all.len()
            &&& all.len() == count * own
            &&& ms_block(bytes, block * block_size, channels, block_size, samples_per_block)
                == Some(all.subrange(block * own, (block + 1) * own))
        }),
    decreases count,
{
    let own = 2 * channels + ms_wanted(channels, samples_per_block);
    assert(ms_wanted(channels, samples_per_block) >= 0) by (nonlinear_arith)
        requires
            channels > 0,
            ms_wanted(channels, samples_per_block) == (if samples_per_block <= 2 {
                0
            } else {
                (samples_per_block - 2) * channels
            }),
    ;
    let from = (count - 1) * block_size;
    assert(0 <= from && from + block_size <= bytes.len() && (count - 1) * block_size
        <= bytes.len()) by (nonlinear_arith)
        requires
            from == (count - 1) * block_size,
            count >= 1,
            block_size >= 0,
            count * block_size <= bytes.len(),
    ;
    lemma_ms_block_inside(bytes, from, channels, block_size, samples_per_block);
    let before = ms_blocks(bytes, channels, block_size, samples_per_block, count - 1)->0;
    let last = ms_block(bytes, from, channels, block_size, samples_per_block)->0;
    let all = ms_blocks(bytes, channels, block_size, samples_per_block, count)->0;
    assert(all == before + last);
    assert((block + 1) * own == block * own + own && block * own >= 0 && count * own == (count - 1)
        * own + own) by (nonlinear_arith)
        requires
            own >= 0,
            block >= 0,
    ;
    if count == 1 {
        assert(before.len() == 0);
        assert(0 * own == 0) by (nonlinear_arith);
        assert(all.subrange(0, own) =~= last);
    } else if block < count - 1 {
        lemma_ms_blocks_in_order(
            bytes,
            channels,
            block_size,
            samples_per_block,
            count - 1,
            block,
        );
        assert(all.subrange(block * own, (block + 1) * own) =~= before.subrange(
            block * own,
            (block + 1) * own,
        ));
    } else {
        lemma_ms_blocks_in_order(
            bytes,
            channels,
            block_size,
            samples_per_block,
            count - 1,
            count - 2,
        );
        assert(all.subrange(block * own, (block + 1) * own) =~= last);
    }
}

/// The blocks are decoded one behind the other, and each to what it decodes to
/// alone: as many samples of each channel as a block is said to have, and two at
/// least.
pub proof fn lemma_ms_blocks_alone(
    bytes: Seq<u8>,
    channels: int,
    block_size: int,
    samples_per_block: int,
    block: int,
)
    requires
        channels == 1 || channels == 2,
        block_size >= channels * MS_HEADER_SIZE,
        0 <= block,
        (block + 1) * block_size <= bytes.len(),
        ms_decoded(bytes, channels, block_size, samples_per_block) is Some,
    ensures
        ({
            let part = bytes.subrange(block * block_size, (block + 1) * block_size);
            let all = ms_decoded(bytes, channels, block_size, samples_per_block)->0;
            let alone = ms_decoded(part, channels, block_size, samples_per_block);
            &&& alone is Some
            &&& alone->0.len() == channels * (if samples_per_block < 2 {
                2
            } else {
                samples_per_block
            })
            &&& all.len() == (bytes.len() as int / block_size) * alone->0.len()
            &&& all.subrange(block * alone->0.len(), (block + 1) * alone->0.len()) == alone->0
        }),
{
    let count = bytes.len() as int / block_size;
    let from = block * block_size;
    assert((block + 1) * block_size == from + block_size && 0 <= from && block < count && count
        * block_size <= bytes.len()) by (nonlinear_arith)
        requires
            from == block * block_size,
            block_size > 0,
            0 <= block,
            (block + 1) * block_size <= bytes.len(),
            count == bytes.len() as int / block_size,
    ;
    let part = bytes.subrange(from, from + block_size);
    lemma_ms_block_inside(bytes, from, channels, block_size, samples_per_block);
    lemma_ms_blocks_in_order(bytes, channels, block_size, samples_per_block, count, block);
    assert(part.len() as int / block_size == 1) by (nonlinear_arith)
        requires
            part.len() == block_size,
            block_size > 0,
    ;
    let alone = ms_blocks(part, channels, block_size, samples_per_block, 1);
    assert(0 * block_size == 0) by (nonlinear_arith);
    let block_samples = ms_block(part, 0, channels, block_size, samples_per_block);
    assert(ms_blocks(part, channels, block_size, samples_per_block, 0) == Some(
        Seq::<i16>::empty(),
    ));
    assert(Seq::<i16>::empty() + block_samples->0 =~= block_samples->0);
    assert(alone == block_samples);
    assert(2 * channels + ms_wanted(channels, samples_per_block) == channels * (if samples_per_block
        < 2 {
        2
    } else {
        samples_per_block
    })) by (nonlinear_arith)
        requires
            ms_wanted(channels, samples_per_block) == (if samples_per_block <= 2 {
                0
            } else {
                (samples_per_block - 2) * channels
            }),
    ;
}

} // verus!
