//! Samples as whole numbers, and their bytes.
use crate::audio::blocks::{lemma_signed16_of_bytes, read_signed16, signed16};
use crate::audio::format::{format_of, AudioFormat};
use crate::audio::ima_adpcm::{decode_ima_adpcm, ima_decoded};
use crate::audio::ms_adpcm::{decode_ms_adpcm, ms_decoded};
use crate::audio::xma::{all_readable, decode_xma, in_order, taken_apart, XmaDecoding};
use crate::bytes::le32;
use crate::error::{AppResult, ReasonCode};
use vstd::prelude::*;
use vstd::slice::slice_to_vec;

verus! {

// ---------------------------------------------------------------------------
// Single samples
// ---------------------------------------------------------------------------

/// The 24-bit signed number at `at`, low byte first.
pub open spec fn signed24(bytes: Seq<u8>, at: int) -> int {
    let value = bytes[at] + 0x100 * bytes[at + 1] + 0x1_0000 * bytes[at + 2];
    if value >= 0x80_0000 {
        value - 0x100_0000
    } else {
        value
    }
}

/// The 32-bit signed number at `at`, low byte first.
pub open spec fn signed32(bytes: Seq<u8>, at: int) -> int {
    let value = bytes[at] + 0x100 * bytes[at + 1] + 0x1_0000 * bytes[at + 2] + 0x100_0000
        * bytes[at + 3];
    if value >= 0x8000_0000 {
        value - 0x1_0000_0000
    } else {
        value
    }
}

fn read_signed24(bytes: &[u8], at: usize) -> (value: i32)
    requires
        at + 2 < bytes.len(),
    ensures
        value == signed24(bytes@, at as int),
{
    let value: i32 = bytes[at] as i32 + 0x100 * bytes[at + 1] as i32 + 0x1_0000 * bytes[at
        + 2] as i32;
    if value >= 0x80_0000 {
        value - 0x100_0000
    } else {
        value
    }
}

fn read_word(bytes: &[u8], at: usize) -> (value: u32)
    requires
        at + 3 < bytes.len(),
    ensures
        value == le32(bytes@, at as int),
        value == bytes@[at as int] + 0x100 * bytes@[at + 1] + 0x1_0000 * bytes@[at + 2]
            + 0x100_0000 * bytes@[at + 3],
{
    bytes[at] as u32 + 0x100 * bytes[at + 1] as u32 + 0x1_0000 * bytes[at + 2] as u32 + 0x100_0000
        * bytes[at + 3] as u32
}

fn read_signed32(bytes: &[u8], at: usize) -> (value: i32)
    requires
        at + 3 < bytes.len(),
    ensures
        value == signed32(bytes@, at as int),
{
    let word: i64 = read_word(bytes, at) as i64;
    if word >= 0x8000_0000 {
        (word - 0x1_0000_0000) as i32
    } else {
        word as i32
    }
}

/// `value` without its sign, in the given number of values.
pub open spec fn unsigned(value: int, range: int) -> int {
    if value < 0 {
        value + range
    } else {
        value
    }
}

// ---------------------------------------------------------------------------
// Lists of samples
// ---------------------------------------------------------------------------

/// The 16-bit samples in the data; an odd byte at the end does not count.
pub open spec fn samples16(bytes: Seq<u8>) -> Seq<i16> {
    Seq::new(bytes.len() / 2, |i: int| signed16(bytes, 2 * i) as i16)
}

/// The 24-bit samples in the data, one in every `stride` bytes.
pub open spec fn samples24(bytes: Seq<u8>, stride: nat) -> Seq<i32> {
    Seq::new(bytes.len() / stride, |i: int| signed24(bytes, stride * i) as i32)
}

/// The 32-bit samples in the data.
pub open spec fn samples32(bytes: Seq<u8>) -> Seq<i32> {
    Seq::new(bytes.len() / 4, |i: int| signed32(bytes, 4 * i) as i32)
}

/// The words of 32 bits in the data.
pub open spec fn words(bytes: Seq<u8>) -> Seq<u32> {
    Seq::new(bytes.len() / 4, |i: int| le32(bytes, 4 * i))
}

/// The 16-bit samples in the data.
pub fn read_samples16(data: &[u8]) -> (samples: Vec<i16>)
    ensures
        samples@ == samples16(data@),
{
    let count: usize = data.len() / 2;
    let mut samples: Vec<i16> = Vec::new();
    let mut i: usize = 0;
    while i < count
        invariant
            count == data@.len() / 2,
            i <= count,
            samples@ == samples16(data@).take(i as int),
        decreases count - i,
    {
        let length: usize = data.len();
        samples.push(read_signed16(data, 2 * i));
        assert(samples@ =~= samples16(data@).take(i + 1));
        i += 1;
    }
    assert(samples16(data@).take(i as int) =~= samples16(data@));
    samples
}

/// The 24-bit samples in the data, in packs of three bytes.
pub fn read_samples24(data: &[u8]) -> (samples: Vec<i32>)
    ensures
        samples@ == samples24(data@, 3),
{
    let count: usize = data.len() / 3;
    let mut samples: Vec<i32> = Vec::new();
    let mut i: usize = 0;
    while i < count
        invariant
            count == data@.len() / 3,
            i <= count,
            samples@ == samples24(data@, 3).take(i as int),
        decreases count - i,
    {
        let length: usize = data.len();
        samples.push(read_signed24(data, 3 * i));
        assert(samples@ =~= samples24(data@, 3).take(i + 1));
        i += 1;
    }
    assert(samples24(data@, 3).take(i as int) =~= samples24(data@, 3));
    samples
}

/// The 24-bit samples in the data, in packs of four bytes.
pub fn read_samples24_in_32(data: &[u8]) -> (samples: Vec<i32>)
    ensures
        samples@ == samples24(data@, 4),
{
    let count: usize = data.len() / 4;
    let mut samples: Vec<i32> = Vec::new();
    let mut i: usize = 0;
    while i < count
        invariant
            count == data@.len() / 4,
            i <= count,
            samples@ == samples24(data@, 4).take(i as int),
        decreases count - i,
    {
        let length: usize = data.len();
        samples.push(read_signed24(data, 4 * i));
        assert(samples@ =~= samples24(data@, 4).take(i + 1));
        i += 1;
    }
    assert(samples24(data@, 4).take(i as int) =~= samples24(data@, 4));
    samples
}

/// The 32-bit samples in the data.
pub fn read_samples32(data: &[u8]) -> (samples: Vec<i32>)
    ensures
        samples@ == samples32(data@),
{
    let count: usize = data.len() / 4;
    let mut samples: Vec<i32> = Vec::new();
    let mut i: usize = 0;
    while i < count
        invariant
            count == data@.len() / 4,
            i <= count,
            samples@ == samples32(data@).take(i as int),
        decreases count - i,
    {
        let length: usize = data.len();
        samples.push(read_signed32(data, 4 * i));
        assert(samples@ =~= samples32(data@).take(i + 1));
        i += 1;
    }
    assert(samples32(data@).take(i as int) =~= samples32(data@));
    samples
}

/// The words of 32 bits in the data.
pub fn read_words(data: &[u8]) -> (list: Vec<u32>)
    ensures
        list@ == words(data@),
{
    let count: usize = data.len() / 4;
    let mut list: Vec<u32> = Vec::new();
    let mut i: usize = 0;
    while i < count
        invariant
            count == data@.len() / 4,
            i <= count,
            list@ == words(data@).take(i as int),
        decreases count - i,
    {
        let length: usize = data.len();
        list.push(read_word(data, 4 * i));
        assert(list@ =~= words(data@).take(i + 1));
        i += 1;
    }
    assert(words(data@).take(i as int) =~= words(data@));
    list
}

// ---------------------------------------------------------------------------
// Samples by format
// ---------------------------------------------------------------------------

/// Samples as they stand in the data.
#[derive(Debug)]
pub enum PcmSamples {
    /// 8-bit samples, with 128 for silence.
    Eight(Vec<u8>),
    /// 16-bit samples.
    Sixteen(Vec<i16>),
    /// 24-bit samples.
    TwentyFour(Vec<i32>),
    /// 32-bit samples.
    ThirtyTwo(Vec<i32>),
    /// The bits of 32-bit floating-point samples.
    FloatBits(Vec<u32>),
    /// Samples of a format that is not known.
    Unknown,
}

/// The model of [`PcmSamples`].
#[verifier::ext_equal]
pub enum PcmSamplesModel {
    Eight(Seq<u8>),
    Sixteen(Seq<i16>),
    TwentyFour(Seq<i32>),
    ThirtyTwo(Seq<i32>),
    FloatBits(Seq<u32>),
    Unknown,
}

impl View for PcmSamples {
    type V = PcmSamplesModel;

    open spec fn view(&self) -> PcmSamplesModel {
        match self {
            PcmSamples::Eight(list) => PcmSamplesModel::Eight(list@),
            PcmSamples::Sixteen(list) => PcmSamplesModel::Sixteen(list@),
            PcmSamples::TwentyFour(list) => PcmSamplesModel::TwentyFour(list@),
            PcmSamples::ThirtyTwo(list) => PcmSamplesModel::ThirtyTwo(list@),
            PcmSamples::FloatBits(list) => PcmSamplesModel::FloatBits(list@),
            PcmSamples::Unknown => PcmSamplesModel::Unknown,
        }
    }
}

/// The samples in data of the given wave format.
pub open spec fn pcm_samples(bytes: Seq<u8>, tag: u16, bits: u16) -> PcmSamplesModel {
    if tag == 0x0003 {
        PcmSamplesModel::FloatBits(words(bytes))
    } else if tag == 0x0001 && bits == 8 {
        PcmSamplesModel::Eight(bytes)
    } else if tag == 0x0001 && bits == 16 {
        PcmSamplesModel::Sixteen(samples16(bytes))
    } else if tag == 0x0001 && bits == 24 {
        PcmSamplesModel::TwentyFour(samples24(bytes, 3))
    } else if tag == 0x0001 && bits == 32 {
        PcmSamplesModel::ThirtyTwo(samples32(bytes))
    } else {
        PcmSamplesModel::Unknown
    }
}

/// The samples in data of the given wave format.
pub fn split_pcm_bytes(data: &[u8], wave_format_tag: u16, bits_per_sample: u16) -> (samples:
    PcmSamples)
    ensures
        samples@ == pcm_samples(data@, wave_format_tag, bits_per_sample),
{
    if wave_format_tag == 0x0003 {
        PcmSamples::FloatBits(read_words(data))
    } else if wave_format_tag == 0x0001 {
        match bits_per_sample {
            8 => PcmSamples::Eight(slice_to_vec(data)),
            16 => PcmSamples::Sixteen(read_samples16(data)),
            24 => PcmSamples::TwentyFour(read_samples24(data)),
            32 => PcmSamples::ThirtyTwo(read_samples32(data)),
            _ => PcmSamples::Unknown,
        }
    } else {
        PcmSamples::Unknown
    }
}

/// The bytes of samples: each with its low byte first.
pub open spec fn pcm_bytes(samples: PcmSamplesModel) -> Seq<u8> {
    match samples {
        PcmSamplesModel::Eight(list) => list,
        PcmSamplesModel::Sixteen(list) => Seq::new(
            2 * list.len(),
            |i: int| byte_of(unsigned(list[i / 2] as int, 0x1_0000), i % 2),
        ),
        PcmSamplesModel::TwentyFour(list) => Seq::new(
            3 * list.len(),
            |i: int| byte_of(unsigned(list[i / 3] as int, 0x1_0000_0000), i % 3),
        ),
        PcmSamplesModel::ThirtyTwo(list) => Seq::new(
            4 * list.len(),
            |i: int| byte_of(unsigned(list[i / 4] as int, 0x1_0000_0000), i % 4),
        ),
        PcmSamplesModel::FloatBits(list) => Seq::new(
            4 * list.len(),
            |i: int| byte_of(list[i / 4] as int, i % 4),
        ),
        PcmSamplesModel::Unknown => Seq::empty(),
    }
}

/// Byte `index` of a number, the low one being the first.
pub open spec fn byte_of(value: int, index: int) -> u8 {
    if index == 0 {
        (value % 0x100) as u8
    } else if index == 1 {
        (value / 0x100 % 0x100) as u8
    } else if index == 2 {
        (value / 0x1_0000 % 0x100) as u8
    } else {
        (value / 0x100_0000 % 0x100) as u8
    }
}

/// The format of samples: its tag and its bits.
pub open spec fn wave_format(samples: PcmSamplesModel) -> (u16, u16) {
    match samples {
        PcmSamplesModel::Eight(_) => (0x0001, 8),
        PcmSamplesModel::Sixteen(_) => (0x0001, 16),
        PcmSamplesModel::TwentyFour(_) => (0x0001, 24),
        PcmSamplesModel::ThirtyTwo(_) => (0x0001, 32),
        PcmSamplesModel::FloatBits(_) => (0x0003, 32),
        PcmSamplesModel::Unknown => (0, 0),
    }
}

/// Samples of 24 bits lie in their range.
pub open spec fn in_range24(samples: PcmSamplesModel) -> bool {
    samples matches PcmSamplesModel::TwentyFour(list) ==> forall|i: int|
        0 <= i < list.len() ==> -0x80_0000 <= #[trigger] list[i] < 0x80_0000
}

/// Samples that were turned into bytes read back as they were.
pub proof fn lemma_pcm_round_trip(samples: PcmSamplesModel)
    requires
        in_range24(samples),
    ensures
        pcm_samples(pcm_bytes(samples), wave_format(samples).0, wave_format(samples).1) == samples,
{
    let bytes = pcm_bytes(samples);
    match samples {
        PcmSamplesModel::Sixteen(list) => {
            assert forall|i: int| 0 <= i < list.len() implies samples16(bytes)[i] == list[i] by {
                let value = unsigned(list[i] as int, 0x1_0000);
                lemma_place(i, 2);
                assert(bytes[2 * i] == byte_of(value, 0));
                assert(bytes[2 * i + 1] == byte_of(value, 1));
                lemma_bytes_of_value(value);
            }
            assert(samples16(bytes) =~= list);
        },
        PcmSamplesModel::TwentyFour(list) => {
            assert forall|i: int| 0 <= i < list.len() implies samples24(bytes, 3)[i] == list[i] by {
                let value = unsigned(list[i] as int, 0x1_0000_0000);
                lemma_place(i, 3);
                assert(bytes[3 * i] == byte_of(value, 0));
                assert(bytes[3 * i + 1] == byte_of(value, 1));
                assert(bytes[3 * i + 2] == byte_of(value, 2));
                lemma_bytes_of_value(value);
            }
            assert(samples24(bytes, 3) =~= list);
        },
        PcmSamplesModel::ThirtyTwo(list) => {
            assert forall|i: int| 0 <= i < list.len() implies samples32(bytes)[i] == list[i] by {
                let value = unsigned(list[i] as int, 0x1_0000_0000);
                lemma_place(i, 4);
                assert(bytes[4 * i] == byte_of(value, 0));
                assert(bytes[4 * i + 1] == byte_of(value, 1));
                assert(bytes[4 * i + 2] == byte_of(value, 2));
                assert(bytes[4 * i + 3] == byte_of(value, 3));
                lemma_bytes_of_value(value);
            }
            assert(samples32(bytes) =~= list);
        },
        PcmSamplesModel::FloatBits(list) => {
            assert forall|i: int| 0 <= i < list.len() implies words(bytes)[i] == list[i] by {
                let value = list[i] as int;
                lemma_place(i, 4);
                assert(bytes[4 * i] == byte_of(value, 0));
                assert(bytes[4 * i + 1] == byte_of(value, 1));
                assert(bytes[4 * i + 2] == byte_of(value, 2));
                assert(bytes[4 * i + 3] == byte_of(value, 3));
                lemma_bytes_of_value(value);
            }
            assert(words(bytes) =~= list);
        },
        _ => {},
    }
}

proof fn lemma_place(index: int, size: int)
    requires
        index >= 0,
        size == 2 || size == 3 || size == 4,
    ensures
        forall|k: int|
            0 <= k < size ==> #[trigger] ((size * index + k) / size) == index && (size * index + k)
                % size == k,
{
    assert forall|k: int| 0 <= k < size implies #[trigger] ((size * index + k) / size) == index && (
    size * index + k) % size == k by {
        vstd::arithmetic::div_mod::lemma_fundamental_div_mod_converse(
            size * index + k,
            size,
            index,
            k,
        );
    }
}

proof fn lemma_bytes_of_value(value: int)
    requires
        0 <= value < 0x1_0000_0000,
    ensures
        byte_of(value, 0) + 0x100 * byte_of(value, 1) + 0x1_0000 * byte_of(value, 2) + 0x100_0000
            * byte_of(value, 3) == value,
        value < 0x1_0000 ==> byte_of(value, 0) + 0x100 * byte_of(value, 1) == value,
        value < 0x80_0000 ==> byte_of(value, 0) + 0x100 * byte_of(value, 1) + 0x1_0000 * byte_of(
            value,
            2,
        ) == value,
        value >= 0xff80_0000 ==> byte_of(value, 0) + 0x100 * byte_of(value, 1) + 0x1_0000 * byte_of(
            value,
            2,
        ) == value - 0xff00_0000,
{
}

fn push_bytes(bytes: &mut Vec<u8>, value: u32, count: usize)
    requires
        count == 2 || count == 3 || count == 4,
    ensures
        final(bytes)@ == old(bytes)@ + Seq::new(count as nat, |i: int| byte_of(value as int, i)),
{
    let ghost before = bytes@;
    bytes.push((value % 0x100) as u8);
    bytes.push((value / 0x100 % 0x100) as u8);
    if count >= 3 {
        bytes.push((value / 0x1_0000 % 0x100) as u8);
    }
    if count == 4 {
        bytes.push((value / 0x100_0000 % 0x100) as u8);
    }
    assert(bytes@ =~= before + Seq::new(count as nat, |i: int| byte_of(value as int, i)));
}

/// The bits of a number, with its sign.
fn bits_of(value: i32) -> (bits: u32)
    ensures
        bits == unsigned(value as int, 0x1_0000_0000),
{
    if value < 0 {
        (value as i64 + 0x1_0000_0000) as u32
    } else {
        value as u32
    }
}

fn join_wide(list: &Vec<i32>, size: usize) -> (bytes: Vec<u8>)
    requires
        size == 3 || size == 4,
    ensures
        bytes@ == Seq::new(
            (size * list@.len()) as nat,
            |i: int| byte_of(unsigned(list@[i / size as int] as int, 0x1_0000_0000), i % size as int),
        ),
{
    let ghost whole = Seq::new(
        (size * list@.len()) as nat,
        |i: int| byte_of(unsigned(list@[i / size as int] as int, 0x1_0000_0000), i % size as int),
    );
    let mut bytes: Vec<u8> = Vec::new();
    let mut i: usize = 0;
    assert(whole.take(0) =~= Seq::<u8>::empty());
    while i < list.len()
        invariant
            size == 3 || size == 4,
            i <= list.len(),
            whole == Seq::new(
                (size * list@.len()) as nat,
                |k: int|
                    byte_of(unsigned(list@[k / size as int] as int, 0x1_0000_0000), k % size as int),
            ),
            bytes@ == whole.take(size * i),
        decreases list.len() - i,
    {
        push_bytes(&mut bytes, bits_of(list[i]), size);
        proof {
            lemma_place(i as int, size as int);
            assert forall|k: int| 0 <= k < size implies whole[size * i + k] == byte_of(
                unsigned(list@[i as int] as int, 0x1_0000_0000),
                k,
            ) by {
                assert((size * i + k) / size as int == i);
            }
            assert(size * (i + 1) == size * i + size) by (nonlinear_arith);
            assert(size * (i + 1) <= size * list@.len()) by (nonlinear_arith)
                requires
                    i + 1 <= list@.len(),
                    size >= 0,
            ;
            assert(bytes@ =~= whole.take(size * (i + 1)));
        }
        i += 1;
    }
    assert(whole.take(size * i) =~= whole);
    bytes
}

fn join_narrow(list: &Vec<i16>) -> (bytes: Vec<u8>)
    ensures
        bytes@ == pcm_bytes(PcmSamplesModel::Sixteen(list@)),
{
    let ghost whole = pcm_bytes(PcmSamplesModel::Sixteen(list@));
    let mut bytes: Vec<u8> = Vec::new();
    let mut i: usize = 0;
    assert(whole.take(0) =~= Seq::<u8>::empty());
    while i < list.len()
        invariant
            i <= list.len(),
            whole == pcm_bytes(PcmSamplesModel::Sixteen(list@)),
            bytes@ == whole.take(2 * i),
        decreases list.len() - i,
    {
        let value: i32 = list[i] as i32;
        let bits: u32 = if value < 0 {
            (value + 0x1_0000) as u32
        } else {
            value as u32
        };
        push_bytes(&mut bytes, bits, 2);
        proof {
            lemma_place(i as int, 2);
            assert(whole[2 * i] == byte_of(bits as int, 0));
            assert(whole[2 * i + 1] == byte_of(bits as int, 1));
            assert(bytes@ =~= whole.take(2 * (i + 1)));
        }
        i += 1;
    }
    assert(whole.take(2 * i) =~= whole);
    bytes
}

fn join_words(list: &Vec<u32>) -> (bytes: Vec<u8>)
    ensures
        bytes@ == pcm_bytes(PcmSamplesModel::FloatBits(list@)),
{
    let ghost whole = pcm_bytes(PcmSamplesModel::FloatBits(list@));
    let mut bytes: Vec<u8> = Vec::new();
    let mut i: usize = 0;
    assert(whole.take(0) =~= Seq::<u8>::empty());
    while i < list.len()
        invariant
            i <= list.len(),
            whole == pcm_bytes(PcmSamplesModel::FloatBits(list@)),
            bytes@ == whole.take(4 * i),
        decreases list.len() - i,
    {
        push_bytes(&mut bytes, list[i], 4);
        proof {
            lemma_place(i as int, 4);
            assert(whole[4 * i] == byte_of(list@[i as int] as int, 0));
            assert(whole[4 * i + 1] == byte_of(list@[i as int] as int, 1));
            assert(whole[4 * i + 2] == byte_of(list@[i as int] as int, 2));
            assert(whole[4 * i + 3] == byte_of(list@[i as int] as int, 3));
            assert(bytes@ =~= whole.take(4 * (i + 1)));
        }
        i += 1;
    }
    assert(whole.take(4 * i) =~= whole);
    bytes
}

/// The bytes of samples.
pub fn join_pcm_bytes(samples: &PcmSamples) -> (bytes: Vec<u8>)
    ensures
        bytes@ == pcm_bytes(samples@),
{
    match samples {
        PcmSamples::Eight(list) => slice_to_vec(list.as_slice()),
        PcmSamples::Sixteen(list) => join_narrow(list),
        PcmSamples::TwentyFour(list) => join_wide(list, 3),
        PcmSamples::ThirtyTwo(list) => join_wide(list, 4),
        PcmSamples::FloatBits(list) => join_words(list),
        PcmSamples::Unknown => Vec::new(),
    }
}

// ---------------------------------------------------------------------------
// The sound of games
// ---------------------------------------------------------------------------

/// Sound that has been decoded as far as whole numbers go.
#[derive(Debug)]
pub enum GameAudio {
    /// Samples.
    Samples(PcmSamples),
    /// A stream of spectral coefficients.
    Spectral(XmaDecoding),
}

/// Decodes sound of any format as far as whole numbers go. Samples of 24 bits
/// stand in packs of three bytes.
pub fn decode_game_audio(
    data: &[u8],
    format: AudioFormat,
    num_channels: u16,
    block_size: u16,
    samples_per_block: u16,
) -> (outcome: AppResult<GameAudio>)
    ensures
        match format {
            AudioFormat::Pcm16 => outcome matches Ok(GameAudio::Samples(samples)) && samples@
                == PcmSamplesModel::Sixteen(samples16(data@)),
            AudioFormat::Pcm24 => outcome matches Ok(GameAudio::Samples(samples)) && samples@
                == PcmSamplesModel::TwentyFour(samples24(data@, 3)),
            AudioFormat::Pcm32 => outcome matches Ok(GameAudio::Samples(samples)) && samples@
                == PcmSamplesModel::ThirtyTwo(samples32(data@)),
            AudioFormat::Float32 => outcome matches Ok(GameAudio::Samples(samples)) && samples@
                == PcmSamplesModel::FloatBits(words(data@)),
            AudioFormat::MsAdpcm => match ms_decoded(
                data@,
                num_channels as int,
                block_size as int,
                samples_per_block as int,
            ) {
                Some(list) => outcome matches Ok(GameAudio::Samples(samples)) && samples@
                    == PcmSamplesModel::Sixteen(list),
                None => outcome matches Err(error) && error.code == ReasonCode::RcAudioUnsupported,
            },
            AudioFormat::ImaAdpcm => match ima_decoded(
                data@,
                num_channels as int,
                block_size as int,
            ) {
                Some(list) => outcome matches Ok(GameAudio::Samples(samples)) && samples@
                    == PcmSamplesModel::Sixteen(list),
                None => outcome matches Err(error) && error.code == ReasonCode::RcAudioUnsupported,
            },
            AudioFormat::Xma => match taken_apart(data@, num_channels as int) {
                Some((subframes, samples)) => outcome matches Ok(GameAudio::Spectral(decoding))
                    && decoding.subframes@ == subframes && decoding.samples@ == samples
                    && decoding.data@ == in_order(data@) && all_readable(
                    decoding.data@,
                    decoding.subframes@,
                ),
                None => outcome matches Err(error) && error.code == ReasonCode::RcAudioUnsupported,
            },
        },
{
    match format {
        AudioFormat::Pcm16 => Ok(GameAudio::Samples(PcmSamples::Sixteen(read_samples16(data)))),
        AudioFormat::Pcm24 => Ok(GameAudio::Samples(PcmSamples::TwentyFour(read_samples24(data)))),
        AudioFormat::Pcm32 => Ok(GameAudio::Samples(PcmSamples::ThirtyTwo(read_samples32(data)))),
        AudioFormat::Float32 => Ok(GameAudio::Samples(PcmSamples::FloatBits(read_words(data)))),
        AudioFormat::MsAdpcm => match decode_ms_adpcm(
            data,
            block_size,
            num_channels,
            samples_per_block,
        ) {
            Ok(list) => Ok(GameAudio::Samples(PcmSamples::Sixteen(list))),
            Err(error) => Err(error),
        },
        AudioFormat::ImaAdpcm => match decode_ima_adpcm(data, num_channels, block_size) {
            Ok(list) => Ok(GameAudio::Samples(PcmSamples::Sixteen(list))),
            Err(error) => Err(error),
        },
        AudioFormat::Xma => match decode_xma(data, num_channels) {
            Ok(decoding) => Ok(GameAudio::Spectral(decoding)),
            Err(error) => Err(error),
        },
    }
}

/// The number that three bytes write, low byte first, up to a multiple of their
/// range; the top bit of the last makes it negative.
pub proof fn lemma_signed24_of_bytes(bytes: Seq<u8>, at: int)
    ensures
        -0x80_0000 <= signed24(bytes, at) < 0x80_0000,
        signed24(bytes, at) % 0x100 == bytes[at],
        signed24(bytes, at) % 0x1_0000 == bytes[at] + 0x100 * bytes[at + 1],
        signed24(bytes, at) % 0x100_0000 == bytes[at] + 0x100 * bytes[at + 1] + 0x1_0000 * bytes[at
            + 2],
        signed24(bytes, at) < 0 <==> bytes[at + 2] >= 128,
{
}

/// The same of four bytes.
pub proof fn lemma_signed32_of_bytes(bytes: Seq<u8>, at: int)
    ensures
        -0x8000_0000 <= signed32(bytes, at) < 0x8000_0000,
        signed32(bytes, at) % 0x1_0000_0000 == le32(bytes, at),
        signed32(bytes, at) < 0 <==> bytes[at + 3] >= 128,
{
}

/// A sample is the number that its bytes write, low byte first, up to a
/// multiple of their range; samples follow each other, and bytes that make no
/// whole sample are left out.
pub proof fn lemma_narrow_samples_of_bytes(bytes: Seq<u8>, index: int)
    requires
        0 <= index < samples16(bytes).len(),
    ensures
        2 * samples16(bytes).len() <= bytes.len() < 2 * samples16(bytes).len() + 2,
        samples16(bytes)[index] as int % 0x1_0000 == bytes[2 * index] + 0x100 * bytes[2 * index
            + 1],
{
    lemma_signed16_of_bytes(bytes, 2 * index);
}

/// The same of samples of 24 bits that lie three bytes or four bytes apart.
pub proof fn lemma_middle_samples_of_bytes(bytes: Seq<u8>, stride: nat, index: int)
    requires
        stride == 3 || stride == 4,
        0 <= index < samples24(bytes, stride).len(),
    ensures
        stride * samples24(bytes, stride).len() <= bytes.len() < stride * samples24(
            bytes,
            stride,
        ).len() + stride,
        -0x80_0000 <= samples24(bytes, stride)[index] < 0x80_0000,
        samples24(bytes, stride)[index] as int % 0x100_0000 == bytes[stride * index] + 0x100
            * bytes[stride * index + 1] + 0x1_0000 * bytes[stride * index + 2],
{
    let count = bytes.len() / stride;
    assert(stride * count <= bytes.len() < stride * count + stride) by (nonlinear_arith)
        requires
            stride == 3 || stride == 4,
            count == bytes.len() / stride,
    ;
    lemma_signed24_of_bytes(bytes, stride * index);
}

/// The same of samples of 32 bits, whole numbers or not.
pub proof fn lemma_wide_samples_of_bytes(bytes: Seq<u8>, index: int)
    requires
        0 <= index < samples32(bytes).len(),
    ensures
        4 * samples32(bytes).len() <= bytes.len() < 4 * samples32(bytes).len() + 4,
        words(bytes).len() == samples32(bytes).len(),
        samples32(bytes)[index] as int % 0x1_0000_0000 == words(bytes)[index],
        words(bytes)[index] == bytes[4 * index] + 0x100 * bytes[4 * index + 1] + 0x1_0000 * bytes[4
            * index + 2] + 0x100_0000 * bytes[4 * index + 3],
{
    lemma_signed32_of_bytes(bytes, 4 * index);
}

/// The format that is detected reads the bytes as the tag and the size of a
/// sample say; a size that is not known to it is read as 16 bits.
pub proof fn lemma_detected_format(tag: u16, bits: u16)
    ensures
        tag == 3 <==> format_of(tag, bits) == AudioFormat::Float32,
        tag == 2 <==> format_of(tag, bits) == AudioFormat::MsAdpcm,
        tag == 17 <==> format_of(tag, bits) == AudioFormat::ImaAdpcm,
        tag == 357 <==> format_of(tag, bits) == AudioFormat::Xma,
        forall|bytes: Seq<u8>|
            #![trigger pcm_samples(bytes, tag, bits)]
            match pcm_samples(bytes, tag, bits) {
                PcmSamplesModel::Unknown => tag != 3 && (tag != 1 || bits != 8 && bits != 16 && bits
                    != 24 && bits != 32),
                PcmSamplesModel::Eight(list) => tag == 1 && bits == 8 && list == bytes && format_of(
                    tag,
                    bits,
                ) == AudioFormat::Pcm16,
                PcmSamplesModel::Sixteen(list) => tag == 1 && bits == 16 && list == samples16(bytes)
                    && format_of(tag, bits) == AudioFormat::Pcm16,
                PcmSamplesModel::TwentyFour(list) => tag == 1 && bits == 24 && list == samples24(
                    bytes,
                    3,
                ) && format_of(tag, bits) == AudioFormat::Pcm24,
                PcmSamplesModel::ThirtyTwo(list) => tag == 1 && bits == 32 && list == samples32(
                    bytes,
                ) && format_of(tag, bits) == AudioFormat::Pcm32,
                PcmSamplesModel::FloatBits(list) => tag == 3 && list == words(bytes),
            },
{
}

} // verus!
