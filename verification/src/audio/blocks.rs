//! What the decoders of blocks of samples share.
use crate::error::{AppError, AppResult, ReasonCode};
use vstd::prelude::*;

verus! {

/// `value`, brought between `low` and `high`.
pub open spec fn clamped(value: int, low: int, high: int) -> int {
    if value < low {
        low
    } else if value > high {
        high
    } else {
        value
    }
}

/// The 16-bit signed number at `at`, low byte first.
pub open spec fn signed16(bytes: Seq<u8>, at: int) -> int {
    let value = bytes[at] + 0x100 * bytes[at + 1];
    if value >= 0x8000 {
        value - 0x1_0000
    } else {
        value
    }
}

/// The 16-bit signed number at `at`, low byte first.
pub fn read_signed16(bytes: &[u8], at: usize) -> (value: i16)
    requires
        at + 1 < bytes.len(),
    ensures
        value == signed16(bytes@, at as int),
{
    let value: i32 = bytes[at] as i32 + 0x100 * bytes[at + 1] as i32;
    if value >= 0x8000 {
        (value - 0x1_0000) as i16
    } else {
        value as i16
    }
}

/// The four bits number `index` from `start` on: the low half of each byte
/// comes first.
pub open spec fn nibble_at(bytes: Seq<u8>, start: int, index: int) -> int {
    if index % 2 == 0 {
        bytes[start + index / 2] as int % 16
    } else {
        bytes[start + index / 2] as int / 16
    }
}

/// The four bits number `index` from `start` on.
pub fn read_nibble(bytes: &[u8], start: usize, index: usize) -> (nibble: u8)
    requires
        start + index / 2 < bytes.len(),
    ensures
        nibble == nibble_at(bytes@, start as int, index as int),
        nibble < 16,
{
    let byte: u8 = bytes[start + index / 2];
    if index % 2 == 0 {
        byte % 16
    } else {
        byte / 16
    }
}

/// A byte is made of its two values of four bits: the one that comes first is
/// what is left over of sixteenths, the other counts them.
pub proof fn lemma_nibbles_make_byte(bytes: Seq<u8>, start: int, index: int)
    requires
        0 <= index,
    ensures
        0 <= nibble_at(bytes, start, 2 * index) < 16,
        0 <= nibble_at(bytes, start, 2 * index + 1) < 16,
        bytes[start + index] == nibble_at(bytes, start, 2 * index) + 16 * nibble_at(
            bytes,
            start,
            2 * index + 1,
        ),
{
}

/// A signed number fits into 16 bits, and its two bytes write it, low byte
/// first, up to a multiple of their range.
pub proof fn lemma_signed16_of_bytes(bytes: Seq<u8>, at: int)
    ensures
        -0x8000 <= signed16(bytes, at) <= 0x7fff,
        signed16(bytes, at) % 0x100 == bytes[at],
        signed16(bytes, at) % 0x1_0000 == bytes[at] + 0x100 * bytes[at + 1],
        signed16(bytes, at) < 0 <==> bytes[at + 1] >= 0x80,
{
}

/// What lies between the limits is kept; else the nearer limit is taken. The
/// order of two values is never turned round.
pub proof fn lemma_clamped(a: int, b: int, low: int, high: int)
    requires
        low <= high,
        a <= b,
    ensures
        low <= clamped(a, low, high) <= clamped(b, low, high) <= high,
        low <= a <= high ==> clamped(a, low, high) == a,
        clamped(b, low, high) - clamped(a, low, high) <= b - a,
{
}

/// A whole block lies inside the data.
pub proof fn lemma_block_inside(index: int, count: int, block_size: int, length: int)
    requires
        0 <= index < count,
        block_size > 0,
        count == length / block_size,
        0 <= length,
    ensures
        0 <= index * block_size,
        index * block_size + block_size <= length,
{
    assert(index * block_size + block_size <= length && 0 <= index * block_size)
        by (nonlinear_arith)
        requires
            0 <= index < count,
            block_size > 0,
            count == length / block_size,
            0 <= length,
    ;
}

/// The refusal of sound that cannot be decoded.
pub fn unsupported<T>(message: &str) -> (outcome: AppResult<T>)
    ensures
        outcome matches Err(error) && error.code == ReasonCode::RcAudioUnsupported
            && error.message@ == message@,
{
    Err(AppError::new(ReasonCode::RcAudioUnsupported, message))
}

} // verus!
