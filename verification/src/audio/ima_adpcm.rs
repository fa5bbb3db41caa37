//! IMA/DVI ADPCM: four bits a sample, with a step that grows and shrinks.
use crate::audio::blocks::{
    clamped, lemma_block_inside, lemma_signed16_of_bytes, nibble_at, read_nibble, read_signed16, signed16, unsupported,
};
use crate::error::{AppResult, ReasonCode};
use crate::text::noted;
use vstd::prelude::*;

verus! {

/// The step sizes.
pub const IMA_ADPCM_STEP_TABLE: [u16; 89] = [
    7, 8, 9, 10, 11, 12, 13, 14, 16, 17, 19, 21, 23, 25, 28, 31, 34, 37, 41, 45, 50, 55, 60, 66,
    73, 80, 88, 97, 107, 118, 130, 143, 157, 173, 190, 209, 230, 253, 279, 307, 337, 371, 408, 449,
    494, 544, 598, 658, 724, 796, 876, 963, 1060, 1166, 1282, 1411, 1552, 1707, 1878, 2066, 2272,
    2499, 2749, 3024, 3327, 3660, 4026, 4428, 4871, 5358, 5894, 6484, 7132, 7845, 8630, 9493,
    10442, 11487, 12635, 13899, 15289, 16818, 18500, 20350, 22385, 24623, 27086, 29794, 32767,
];

/// How far each value of four bits moves the place in the step table.
pub const IMA_ADPCM_INDEX_TABLE: [i16; 16] = [
    -1, -1, -1, -1, 2, 4, 6, 8, -1, -1, -1, -1, 2, 4, 6, 8,
];

/// The bytes in front of the samples of a channel.
pub const IMA_HEADER_SIZE: usize = 4;

/// What a decoder remembers: the last sample and the place in the step table.
pub struct ImaState {
    pub predictor: int,
    pub index: int,
}

/// How far a value of four bits moves the sample.
pub open spec fn ima_difference(step: int, nibble: int) -> int {
    let size = step / 8 + (if nibble % 2 == 1 {
        step / 4
    } else {
        0
    }) + (if nibble / 2 % 2 == 1 {
        step / 2
    } else {
        0
    }) + (if nibble / 4 % 2 == 1 {
        step
    } else {
        0
    });
    if nibble >= 8 {
        -size
    } else {
        size
    }
}

/// The state after one more value of four bits.
pub open spec fn ima_next(state: ImaState, nibble: int) -> ImaState {
    let step = IMA_ADPCM_STEP_TABLE@[state.index] as int;
    ImaState {
        predictor: clamped(
            state.predictor + ima_difference(step, nibble),
            i16::MIN as int,
            i16::MAX as int,
        ),
        index: clamped(state.index + IMA_ADPCM_INDEX_TABLE@[nibble], 0, 88),
    }
}

/// The state of the channel whose data begins at `start`, after `count` values.
pub open spec fn ima_state(bytes: Seq<u8>, start: int, count: int) -> ImaState
    decreases count,
{
    if count <= 0 {
        ImaState {
            predictor: signed16(bytes, start),
            index: clamped(bytes[start + 2] as int, 0, 88),
        }
    } else {
        ima_next(
            ima_state(bytes, start, count - 1),
            nibble_at(bytes, start + IMA_HEADER_SIZE, count - 1),
        )
    }
}

/// The number of samples that each channel of a block holds.
pub open spec fn ima_frames(channels: int, block_size: int) -> int {
    2 * (block_size / channels - IMA_HEADER_SIZE) + 1
}

/// Sample `index` of the block that begins at `start`: the channels take turns.
pub open spec fn ima_sample(
    bytes: Seq<u8>,
    start: int,
    channels: int,
    block_size: int,
    index: int,
) -> i16 {
    ima_state(
        bytes,
        start + (index % channels) * (block_size / channels),
        index / channels,
    ).predictor as i16
}

/// The samples of the block that begins at `start`.
pub open spec fn ima_block(bytes: Seq<u8>, start: int, channels: int, block_size: int) -> Seq<i16> {
    Seq::new(
        (ima_frames(channels, block_size) * channels) as nat,
        |index: int| ima_sample(bytes, start, channels, block_size, index),
    )
}

/// The samples of the first `count` blocks.
pub open spec fn ima_blocks(bytes: Seq<u8>, channels: int, block_size: int, count: int) -> Seq<i16>
    decreases count,
{
    if count <= 0 {
        Seq::empty()
    } else {
        ima_blocks(bytes, channels, block_size, count - 1) + ima_block(
            bytes,
            (count - 1) * block_size,
            channels,
            block_size,
        )
    }
}

/// What the data decodes to. There are one or two channels, and a block holds
/// a header for each; bytes behind the last whole block do not count.
pub open spec fn ima_decoded(bytes: Seq<u8>, channels: int, block_size: int) -> Option<Seq<i16>> {
    if channels != 1 && channels != 2 {
        None
    } else if block_size < IMA_HEADER_SIZE || block_size / channels < IMA_HEADER_SIZE {
        None
    } else {
        Some(ima_blocks(bytes, channels, block_size, bytes.len() as int / block_size))
    }
}

/// The bit of weight eight is a sign: with it a sample moves down by as much as
/// it moves up without it. The other three bits `n` move it by `2n + 1` eighths
/// of the step, less than three lost to rounding, and by more for a larger `n`.
pub proof fn lemma_ima_difference(step: int, nibble: int)
    requires
        step >= 0,
        0 <= nibble < 8,
    ensures
        ima_difference(step, nibble + 8) == -ima_difference(step, nibble),
        0 <= ima_difference(step, nibble),
        (2 * nibble + 1) * step - 24 < 8 * ima_difference(step, nibble) <= (2 * nibble + 1) * step,
        step % 8 == 0 ==> 8 * ima_difference(step, nibble) == (2 * nibble + 1) * step,
        nibble < 7 ==> ima_difference(step, nibble) <= ima_difference(step, nibble + 1),
{
    assert((2 * nibble + 1) * step == (if nibble == 0 {
        step
    } else if nibble == 1 {
        3 * step
    } else if nibble == 2 {
        5 * step
    } else if nibble == 3 {
        7 * step
    } else if nibble == 4 {
        9 * step
    } else if nibble == 5 {
        11 * step
    } else if nibble == 6 {
        13 * step
    } else {
        15 * step
    })) by (nonlinear_arith)
        requires
            0 <= nibble < 8,
    ;
}

/// A value below eight never lowers the sample and one from eight on never
/// raises it; the two that differ in that bit alone move it equally far, unless
/// an end of the range is in the way. Both move the place in the step table
/// alike: a small value one back, a large one ahead by twice what it is above
/// three, inside the table.
pub proof fn lemma_ima_next(state: ImaState, nibble: int)
    requires
        i16::MIN <= state.predictor <= i16::MAX,
        0 <= state.index <= 88,
        0 <= nibble < 8,
    ensures
        ({
            let up = ima_next(state, nibble);
            let down = ima_next(state, nibble + 8);
            &&& down.predictor <= state.predictor <= up.predictor
            &&& i16::MIN < down.predictor && up.predictor < i16::MAX ==> up.predictor
                - state.predictor == state.predictor - down.predictor
            &&& i16::MIN <= down.predictor
            &&& up.predictor <= i16::MAX
            &&& up.index == down.index
            &&& 0 <= up.index <= 88
            &&& nibble < 4 ==> up.index == (if state.index == 0 {
                0
            } else {
                state.index - 1
            })
            &&& nibble >= 4 && state.index + 2 * (nibble - 3) <= 88 ==> up.index == state.index + 2
                * (nibble - 3)
            &&& nibble >= 4 && state.index + 2 * (nibble - 3) > 88 ==> up.index == 88
        }),
{
    lemma_ima_difference(IMA_ADPCM_STEP_TABLE@[state.index] as int, nibble);
}

/// The steps rise from 7 to 32767, each to eleven tenths of the one before it
/// as nearly as whole numbers allow.
pub proof fn lemma_ima_steps_rise(index: int)
    requires
        0 <= index < 88,
    ensures
        IMA_ADPCM_STEP_TABLE@[0] == 7,
        IMA_ADPCM_STEP_TABLE@[88] == 32767,
        IMA_ADPCM_STEP_TABLE@[index] < IMA_ADPCM_STEP_TABLE@[index + 1],
        index < 87 ==> -8 <= 10 * IMA_ADPCM_STEP_TABLE@[index + 1] - 11
            * IMA_ADPCM_STEP_TABLE@[index] <= 8,
{
}

/// The first sample of a channel is the one that its header gives; each
/// further one comes from the one before it by the next value of four bits.
pub proof fn lemma_ima_samples_follow(bytes: Seq<u8>, start: int, index: int)
    requires
        0 <= index,
    ensures
        ima_state(bytes, start, 0).predictor % 0x1_0000 == bytes[start] + 0x100 * bytes[start + 1],
        bytes[start + 2] <= 88 ==> ima_state(bytes, start, 0).index == bytes[start + 2],
        bytes[start + 2] > 88 ==> ima_state(bytes, start, 0).index == 88,
        ima_state(bytes, start, 2 * index + 1) == ima_next(
            ima_state(bytes, start, 2 * index),
            bytes[start + 4 + index] as int % 16,
        ),
        ima_state(bytes, start, 2 * index + 2) == ima_next(
            ima_state(bytes, start, 2 * index + 1),
            bytes[start + 4 + index] as int / 16,
        ),
{
    lemma_signed16_of_bytes(bytes, start);
}

/// A block of two channels holds the samples of two blocks of one channel, in
/// turn: the first half of it is the left one.
pub proof fn lemma_ima_channels_take_turns(bytes: Seq<u8>, start: int, size: int, index: int)
    requires
        size >= IMA_HEADER_SIZE,
        0 <= index < ima_block(bytes, start, 1, size).len(),
    ensures
        ima_block(bytes, start, 2, 2 * size).len() == 2 * ima_block(bytes, start, 1, size).len(),
        ima_block(bytes, start, 2, 2 * size)[2 * index] == ima_block(bytes, start, 1, size)[index],
        ima_block(bytes, start, 2, 2 * size)[2 * index + 1] == ima_block(
            bytes,
            start + size,
            1,
            size,
        )[index],
{
    assert(2 * size / 2 == size && size / 1 == size);
    assert(0 * size == 0 && 1 * size == size) by (nonlinear_arith);
}

proof fn lemma_ima_state(bytes: Seq<u8>, start: int, count: int)
    ensures
        i16::MIN <= ima_state(bytes, start, count).predictor <= i16::MAX,
        0 <= ima_state(bytes, start, count).index <= 88,
    decreases count,
{
    if count > 0 {
        lemma_ima_state(bytes, start, count - 1);
    }
}

/// Data decodes to as many samples as its whole blocks hold.
pub proof fn lemma_ima_length(bytes: Seq<u8>, channels: int, block_size: int)
    requires
        channels == 1 || channels == 2,
        block_size >= IMA_HEADER_SIZE,
        block_size / channels >= IMA_HEADER_SIZE,
    ensures
        ima_decoded(bytes, channels, block_size)->0.len() == (bytes.len() as int / block_size) * (
        ima_frames(channels, block_size) * channels),
{
    let count = bytes.len() as int / block_size;
    assert(count >= 0) by (nonlinear_arith)
        requires
            block_size > 0,
            count == bytes.len() as int / block_size,
            bytes.len() >= 0,
    ;
    lemma_ima_blocks_length(bytes, channels, block_size, count);
}

proof fn lemma_ima_blocks_length(bytes: Seq<u8>, channels: int, block_size: int, count: int)
    requires
        count >= 0,
        channels == 1 || channels == 2,
        block_size / channels >= IMA_HEADER_SIZE,
    ensures
        ima_blocks(bytes, channels, block_size, count).len() == count * (ima_frames(
            channels,
            block_size,
        ) * channels),
    decreases count,
{
    let each = ima_frames(channels, block_size) * channels;
    assert(each >= 0) by (nonlinear_arith)
        requires
            each == ima_frames(channels, block_size) * channels,
            ima_frames(channels, block_size) >= 0,
            channels >= 0,
    ;
    if count > 0 {
        lemma_ima_blocks_length(bytes, channels, block_size, count - 1);
        assert((count - 1) * each + each == count * each) by (nonlinear_arith);
    } else {
        assert(0 * each == 0) by (nonlinear_arith);
    }
}

/// The sample and the place in the step table after one more value.
fn ima_advance(predictor: i16, index: usize, nibble: u8) -> (next: (i16, usize))
    requires
        index <= 88,
        nibble < 16,
    ensures
        ima_next(ImaState { predictor: predictor as int, index: index as int }, nibble as int) == (
        ImaState { predictor: next.0 as int, index: next.1 as int }),
        next.1 <= 88,
{
    let step: i32 = IMA_ADPCM_STEP_TABLE[index] as i32;
    let mut size: i32 = step / 8;
    if nibble % 2 == 1 {
        size += step / 4;
    }
    if nibble / 2 % 2 == 1 {
        size += step / 2;
    }
    if nibble / 4 % 2 == 1 {
        size += step;
    }
    let moved: i32 = if nibble >= 8 {
        predictor as i32 - size
    } else {
        predictor as i32 + size
    };
    let sample: i16 = if moved < i16::MIN as i32 {
        i16::MIN
    } else if moved > i16::MAX as i32 {
        i16::MAX
    } else {
        moved as i16
    };
    let place: i32 = index as i32 + IMA_ADPCM_INDEX_TABLE[nibble as usize] as i32;
    let next: usize = if place < 0 {
        0
    } else if place > 88 {
        88
    } else {
        place as usize
    };
    (sample, next)
}

/// The samples of the channel whose data begins at `start`.
fn ima_channel(bytes: &[u8], start: usize, frames: usize) -> (samples: Vec<i16>)
    requires
        frames >= 1,
        start + IMA_HEADER_SIZE + frames / 2 <= bytes.len(),
        frames % 2 == 1,
    ensures
        samples@.len() == frames,
        forall|n: int|
            0 <= n < frames ==> (#[trigger] samples@[n]) == ima_state(
                bytes@,
                start as int,
                n,
            ).predictor,
{
    let length: usize = bytes.len();
    let mut predictor: i16 = read_signed16(bytes, start);
    let mut index: usize = if bytes[start + 2] > 88 {
        88
    } else {
        bytes[start + 2] as usize
    };
    let mut samples: Vec<i16> = Vec::new();
    samples.push(predictor);
    let mut done: usize = 0;
    while done + 1 < frames
        invariant
            frames >= 1,
            done + 1 <= frames,
            frames % 2 == 1,
            length == bytes@.len(),
            start + IMA_HEADER_SIZE + frames / 2 <= length,
            index <= 88,
            ima_state(bytes@, start as int, done as int) == (ImaState {
                predictor: predictor as int,
                index: index as int,
            }),
            samples@.len() == done + 1,
            forall|n: int|
                0 <= n <= done ==> (#[trigger] samples@[n]) == ima_state(
                    bytes@,
                    start as int,
                    n,
                ).predictor,
        decreases frames - done,
    {
        let nibble: u8 = read_nibble(bytes, start + IMA_HEADER_SIZE, done);
        let next: (i16, usize) = ima_advance(predictor, index, nibble);
        predictor = next.0;
        index = next.1;
        samples.push(predictor);
        done += 1;
    }
    samples
}

/// Adds the samples of one block to the output.
fn push_ima_block(
    bytes: &[u8],
    start: usize,
    channels: usize,
    block_size: usize,
    output: &mut Vec<i16>,
)
    requires
        channels == 1 || channels == 2,
        IMA_HEADER_SIZE <= block_size <= 0xffff,
        block_size / channels >= IMA_HEADER_SIZE,
        start + block_size <= bytes.len(),
    ensures
        final(output)@ == old(output)@ + ima_block(
            bytes@,
            start as int,
            channels as int,
            block_size as int,
        ),
{
    let size: usize = block_size / channels;
    let frames: usize = 2 * (size - IMA_HEADER_SIZE) + 1;
    let ghost before = output@;
    let ghost block = ima_block(bytes@, start as int, channels as int, block_size as int);
    let first: Vec<i16> = ima_channel(bytes, start, frames);
    if channels == 1 {
        assert(block.len() == frames) by {
            assert(ima_frames(1, block_size as int) * 1 == frames) by (nonlinear_arith)
                requires
                    ima_frames(1, block_size as int) == frames,
            ;
        }
        assert forall|k: int| 0 <= k < frames implies first@[k] == block[k] by {
            assert(k % 1 == 0 && k / 1 == k);
            assert((k % 1) * (block_size as int / 1) == 0) by (nonlinear_arith)
                requires
                    k % 1 == 0,
            ;
        }
        let mut first: Vec<i16> = first;
        output.append(&mut first);
        assert(output@ =~= before + block);
        return;
    }
    let second: Vec<i16> = ima_channel(bytes, start + size, frames);
    let mut frame: usize = 0;
    while frame < frames
        invariant
            channels == 2,
            frame <= frames,
            frames == ima_frames(channels as int, block_size as int),
            size == block_size / channels,
            first@.len() == frames,
            second@.len() == frames,
            forall|n: int|
                0 <= n < frames ==> (#[trigger] first@[n]) == ima_state(
                    bytes@,
                    start as int,
                    n,
                ).predictor,
            forall|n: int|
                0 <= n < frames ==> (#[trigger] second@[n]) == ima_state(
                    bytes@,
                    start + size,
                    n,
                ).predictor,
            block == ima_block(bytes@, start as int, channels as int, block_size as int),
            output@ == before + block.take(2 * frame as int),
        decreases frames - frame,
    {
        output.push(first[frame]);
        output.push(second[frame]);
        proof {
            let k = 2 * frame as int;
            assert(k % 2 == 0 && k / 2 == frame);
            assert((k + 1) % 2 == 1 && (k + 1) / 2 == frame);
            assert(0 * (block_size as int / 2) == 0 && 1 * (block_size as int / 2) == size)
                by (nonlinear_arith)
                requires
                    block_size as int / 2 == size,
            ;
            assert(block[k] == first@[frame as int]);
            assert(ima_sample(bytes@, start as int, 2, block_size as int, k + 1) == ima_state(
                bytes@,
                start + size,
                frame as int,
            ).predictor as i16);
            assert(block[k + 1] == second@[frame as int]);
            assert(output@ =~= before + block.take(2 * (frame + 1)));
        }
        frame += 1;
    }
    assert(block.take(2 * frame as int) =~= block);
}

/// Decodes IMA/DVI ADPCM to samples whose channels take turns.
///
/// Each channel of a block has a header, its first sample (two bytes), its
/// place in the step table (one byte) and one unused byte, and then its values
/// of four bits. The channels of a block follow each other.
pub fn decode_ima_adpcm(adpcm_data: &[u8], num_channels: u16, block_size: u16) -> (outcome: AppResult<
    Vec<i16>,
>)
    ensures
        match outcome {
            Ok(samples) => ima_decoded(adpcm_data@, num_channels as int, block_size as int) == Some(
                samples@,
            ),
            Err(error) => {
                &&& ima_decoded(adpcm_data@, num_channels as int, block_size as int) is None
                &&& error.code == ReasonCode::RcAudioUnsupported
            },
        },
{
    let channels: usize = num_channels as usize;
    let size: usize = block_size as usize;
    if channels != 1 && channels != 2 {
        return unsupported(
            &noted("IMA ADPCM unsupported channel count: ", num_channels as u64, ""),
        );
    }
    if size < IMA_HEADER_SIZE {
        return unsupported(&noted("IMA ADPCM block size too small: ", block_size as u64, ""));
    }
    if size / channels < IMA_HEADER_SIZE {
        return unsupported(
            &noted("IMA ADPCM per-channel data size ", (size / channels) as u64, " < header 4"),
        );
    }
    let length: usize = adpcm_data.len();
    let count: usize = length / size;
    let mut output: Vec<i16> = Vec::new();
    let mut done: usize = 0;
    while done < count
        invariant
            channels == 1 || channels == 2,
            channels == num_channels,
            size == block_size,
            IMA_HEADER_SIZE <= size <= 0xffff,
            size / channels >= IMA_HEADER_SIZE,
            length == adpcm_data@.len(),
            count == length / size,
            done <= count,
            output@ == ima_blocks(adpcm_data@, channels as int, size as int, done as int),
        decreases count - done,
    {
        proof {
            lemma_block_inside(done as int, count as int, size as int, length as int);
        }
        push_ima_block(adpcm_data, done * size, channels, size, &mut output);
        done += 1;
    }
    Ok(output)
}

proof fn lemma_ima_state_inside(bytes: Seq<u8>, from: int, size: int, at: int, count: int)
    requires
        0 <= from,
        from + size <= bytes.len(),
        0 <= at,
        0 <= count,
        at + IMA_HEADER_SIZE + (count + 1) / 2 <= size,
    ensures
        ima_state(bytes, from + at, count) == ima_state(
            bytes.subrange(from, from + size),
            at,
            count,
        ),
    decreases count,
{
    let part = bytes.subrange(from, from + size);
    if count > 0 {
        lemma_ima_state_inside(bytes, from, size, at, count - 1);
        let place = at + IMA_HEADER_SIZE + (count - 1) / 2;
        assert(part[place] == bytes[from + place]);
        assert(from + at + IMA_HEADER_SIZE + (count - 1) / 2 == from + place);
    } else {
        assert(part[at] == bytes[from + at]);
        assert(part[at + 1] == bytes[from + at + 1]);
        assert(part[at + 2] == bytes[from + at + 2]);
    }
}

proof fn lemma_ima_block_inside(bytes: Seq<u8>, from: int, channels: int, block_size: int)
    requires
        channels == 1 || channels == 2,
        0 <= from,
        from + block_size <= bytes.len(),
        block_size / channels >= IMA_HEADER_SIZE,
    ensures
        ima_block(bytes, from, channels, block_size) == ima_block(
            bytes.subrange(from, from + block_size),
            0,
            channels,
            block_size,
        ),
{
    let part = bytes.subrange(from, from + block_size);
    let whole = ima_block(bytes, from, channels, block_size);
    let alone = ima_block(part, 0, channels, block_size);
    assert forall|i: int| 0 <= i < whole.len() implies whole[i] == alone[i] by {
        let own = block_size / channels;
        let frames = ima_frames(channels, block_size);
        if channels == 1 {
            assert(frames * channels == frames) by (nonlinear_arith)
                requires
                    channels == 1,
            ;
            assert(own == block_size);
            assert(i % channels == 0 && i / channels == i);
            assert(0 * own == 0);
            lemma_ima_state_inside(bytes, from, block_size, 0, i);
        } else {
            assert(frames * channels == 2 * frames) by (nonlinear_arith)
                requires
                    channels == 2,
            ;
            assert(2 * own <= block_size);
            let turn = i % 2;
            assert(turn == 0 ==> turn * own == 0);
            assert(turn == 1 ==> turn * own == own);
            lemma_ima_state_inside(bytes, from, block_size, turn * own, i / 2);
        }
    }
    assert(whole =~= alone);
}

proof fn lemma_ima_blocks_in_order(
    bytes: Seq<u8>,
    channels: int,
    block_size: int,
    count: int,
    block: int,
)
    requires
        channels == 1 || channels == 2,
        block_size / channels >= IMA_HEADER_SIZE,
        0 <= block < count,
    ensures
        ({
            let own = ima_frames(channels, block_size) * channels;
            let all = ima_blocks(bytes, channels, block_size, count);
            &&& own >= 0
            &&& 0 <= block * own <= (block + 1) * own <= all.len()
            &&& all.len() == count * own
            &&& all.subrange(block * own, (block + 1) * own) == ima_block(
                bytes,
                block * block_size,
                channels,
                block_size,
            )
        }),
    decreases count,
{
    let own = ima_frames(channels, block_size) * channels;
    assert(own >= 0) by {
        assert(channels == 1 ==> own == ima_frames(channels, block_size));
        assert(channels == 2 ==> own == 2 * ima_frames(channels, block_size));
    }
    let before = ima_blocks(bytes, channels, block_size, count - 1);
    let last = ima_block(bytes, (count - 1) * block_size, channels, block_size);
    let all = ima_blocks(bytes, channels, block_size, count);
    assert(all == before + last);
    assert(last.len() == own);
    assert((block + 1) * own == block * own + own && block * own >= 0 && count * own == (count - 1)
        * own + own) by (nonlinear_arith)
        requires
            own >= 0,
            block >= 0,
    ;
    if count == 1 {
        assert(before.len() == 0);
        assert(0 * own == 0) by (nonlinear_arith);
        assert(all.subrange(0, own) =~= last);
    } else if block < count - 1 {
        lemma_ima_blocks_in_order(bytes, channels, block_size, count - 1, block);
        assert(all.subrange(block * own, (block + 1) * own) =~= before.subrange(
            block * own,
            (block + 1) * own,
        ));
    } else {
        lemma_ima_blocks_in_order(bytes, channels, block_size, count - 1, count - 2);
        assert(all.subrange(block * own, (block + 1) * own) =~= last);
    }
}

/// The blocks are decoded one behind the other, and each to what it decodes to
/// alone; what is left of the data behind the last whole block adds nothing.
pub proof fn lemma_ima_blocks_alone(bytes: Seq<u8>, channels: int, block_size: int, block: int)
    requires
        channels == 1 || channels == 2,
        block_size / channels >= 4,
        0 <= block,
        (block + 1) * block_size <= bytes.len(),
    ensures
        ({
            let part = bytes.subrange(block * block_size, (block + 1) * block_size);
            let all = ima_decoded(bytes, channels, block_size);
            let alone = ima_decoded(part, channels, block_size);
            &&& all is Some
            &&& alone is Some
            &&& alone->0.len() == (2 * (block_size / channels - 4) + 1) * channels
            &&& all->0.len() == (bytes.len() as int / block_size) * alone->0.len()
            &&& all->0.subrange(block * alone->0.len(), (block + 1) * alone->0.len()) == alone->0
        }),
{
    assert(block_size >= 4) by {
        assert(channels == 1 ==> block_size / channels == block_size);
    }
    let count = bytes.len() as int / block_size;
    let from = block * block_size;
    assert((block + 1) * block_size == from + block_size && 0 <= from && block < count)
        by (nonlinear_arith)
        requires
            from == block * block_size,
            block_size > 0,
            0 <= block,
            (block + 1) * block_size <= bytes.len(),
            count == bytes.len() as int / block_size,
    ;
    let part = bytes.subrange(from, from + block_size);
    lemma_ima_block_inside(bytes, from, channels, block_size);
    lemma_ima_blocks_in_order(bytes, channels, block_size, count, block);
    assert(part.len() as int / block_size == 1) by (nonlinear_arith)
        requires
            part.len() == block_size,
            block_size > 0,
    ;
    lemma_ima_blocks_in_order(part, channels, block_size, 1, 0);
    let alone = ima_blocks(part, channels, block_size, 1);
    let own = ima_frames(channels, block_size) * channels;
    assert(0 * own == 0 && 1 * own == own && 0 * block_size == 0) by (nonlinear_arith);
    assert(alone.subrange(0, own) =~= alone);
}

} // verus!
