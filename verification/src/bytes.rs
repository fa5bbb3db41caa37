//! Little-endian numbers and checked ranges in byte sequences.
use crate::error::{AppError, AppResult, ReasonCode};
use crate::text::joined;
use vstd::prelude::*;

verus! {

/// The `size` bytes from `offset` on lie inside `bytes`.
pub open spec fn in_range(bytes: Seq<u8>, offset: int, size: int) -> bool {
    0 <= offset && 0 <= size && offset + size <= bytes.len()
}

/// The 16-bit number at `at`, low byte first.
pub open spec fn le16(bytes: Seq<u8>, at: int) -> u16 {
    (bytes[at] + 0x100 * bytes[at + 1]) as u16
}

/// The 32-bit number at `at`, low byte first.
pub open spec fn le32(bytes: Seq<u8>, at: int) -> u32 {
    (bytes[at] + 0x100 * bytes[at + 1] + 0x1_0000 * bytes[at + 2] + 0x100_0000 * bytes[at
        + 3]) as u32
}

/// The 64-bit number at `at`, low byte first.
pub open spec fn le64(bytes: Seq<u8>, at: int) -> u64 {
    (le32(bytes, at) + 0x1_0000_0000 * le32(bytes, at + 4)) as u64
}

/// The 16-bit number at `at`, if it lies inside `bytes`.
pub open spec fn u16_at(bytes: Seq<u8>, at: int) -> Option<u16> {
    if in_range(bytes, at, 2) {
        Some(le16(bytes, at))
    } else {
        None
    }
}

/// The 32-bit number at `at`, if it lies inside `bytes`.
pub open spec fn u32_at(bytes: Seq<u8>, at: int) -> Option<u32> {
    if in_range(bytes, at, 4) {
        Some(le32(bytes, at))
    } else {
        None
    }
}

/// The 64-bit number at `at`, if it lies inside `bytes`.
pub open spec fn u64_at(bytes: Seq<u8>, at: int) -> Option<u64> {
    if in_range(bytes, at, 8) {
        Some(le64(bytes, at))
    } else {
        None
    }
}

/// The two bytes of `value`, low byte first.
pub open spec fn bytes16(value: u16) -> Seq<u8> {
    seq![(value % 0x100) as u8, (value / 0x100) as u8]
}

/// The four bytes of `value`, low byte first.
pub open spec fn bytes32(value: u32) -> Seq<u8> {
    seq![
        (value % 0x100) as u8,
        (value / 0x100 % 0x100) as u8,
        (value / 0x1_0000 % 0x100) as u8,
        (value / 0x100_0000) as u8,
    ]
}

/// The eight bytes of `value`, low byte first.
pub open spec fn bytes64(value: u64) -> Seq<u8> {
    bytes32((value % 0x1_0000_0000) as u32) + bytes32((value / 0x1_0000_0000) as u32)
}

/// `bytes` with `part` written over it from `at` on.
pub open spec fn overwritten(bytes: Seq<u8>, at: int, part: Seq<u8>) -> Seq<u8> {
    Seq::new(
        bytes.len(),
        |i: int|
            if at <= i < at + part.len() {
                part[i - at]
            } else {
                bytes[i]
            },
    )
}

/// A 16-bit number reads back as it was written.
pub proof fn lemma_le16_reads_back(bytes: Seq<u8>, at: int, value: u16)
    requires
        in_range(bytes, at, 2),
    ensures
        u16_at(overwritten(bytes, at, bytes16(value)), at) == Some(value),
{
}

/// A 32-bit number reads back as it was written.
pub proof fn lemma_le32_reads_back(bytes: Seq<u8>, at: int, value: u32)
    requires
        in_range(bytes, at, 4),
    ensures
        u32_at(overwritten(bytes, at, bytes32(value)), at) == Some(value),
{
    let after = overwritten(bytes, at, bytes32(value));
    assert(after[at] == value % 0x100);
    assert(after[at + 1] == value / 0x100 % 0x100);
    assert(after[at + 2] == value / 0x1_0000 % 0x100);
    assert(after[at + 3] == value / 0x100_0000);
    assert(value % 0x100 + 0x100 * (value / 0x100 % 0x100) + 0x1_0000 * (value / 0x1_0000 % 0x100)
        + 0x100_0000 * (value / 0x100_0000) == value) by (bit_vector);
}

/// A 64-bit number reads back as it was written.
pub proof fn lemma_le64_reads_back(bytes: Seq<u8>, at: int, value: u64)
    requires
        in_range(bytes, at, 8),
    ensures
        u64_at(overwritten(bytes, at, bytes64(value)), at) == Some(value),
{
    let low = (value % 0x1_0000_0000) as u32;
    let high = (value / 0x1_0000_0000) as u32;
    let after = overwritten(bytes, at, bytes64(value));
    let first = overwritten(bytes, at, bytes32(low));
    lemma_le32_reads_back(bytes, at, low);
    lemma_le32_reads_back(first, at + 4, high);
    assert(after =~= overwritten(first, at + 4, bytes32(high)));
    assert(le32(after, at) == le32(first, at));
}

/// The first byte of a number counts ones, and each further one counts 256 times
/// as much as the one before it.
pub proof fn lemma_low_byte_first(bytes: Seq<u8>, at: int)
    ensures
        le16(bytes, at) % 0x100 == bytes[at],
        le16(bytes, at) / 0x100 == bytes[at + 1],
        le32(bytes, at) % 0x1_0000 == le16(bytes, at),
        le32(bytes, at) / 0x1_0000 == le16(bytes, at + 2),
        le64(bytes, at) % 0x1_0000_0000 == le32(bytes, at),
        le64(bytes, at) / 0x1_0000_0000 == le32(bytes, at + 4),
{
}

/// `part` lies in `bytes` from `at` on.
#[verifier::opaque]
pub open spec fn holds_at(bytes: Seq<u8>, at: int, part: Seq<u8>) -> bool {
    &&& 0 <= at
    &&& at + part.len() <= bytes.len()
    &&& forall|i: int| 0 <= i < part.len() ==> bytes[at + i] == #[trigger] part[i]
}

/// What is made of two parts holds the second right behind the first.
pub proof fn lemma_holds_both(bytes: Seq<u8>, at: int, first: Seq<u8>, second: Seq<u8>)
    requires
        holds_at(bytes, at, first + second),
    ensures
        holds_at(bytes, at, first),
        holds_at(bytes, at + first.len(), second),
{
    reveal(holds_at);
    let whole = first + second;
    assert forall|i: int| 0 <= i < first.len() implies bytes[at + i] == #[trigger] first[i] by {
        assert(whole[i] == first[i]);
    }
    assert forall|i: int| 0 <= i < second.len() implies bytes[at + first.len() + i]
        == #[trigger] second[i] by {
        assert(whole[first.len() + i] == second[i]);
    }
}

/// A 16-bit number is read where its bytes lie.
pub proof fn lemma_held16(bytes: Seq<u8>, at: int, value: u16)
    requires
        holds_at(bytes, at, bytes16(value)),
    ensures
        u16_at(bytes, at) == Some(value),
{
    reveal(holds_at);
    let part = bytes16(value);
    assert(bytes[at + 0] == part[0] && bytes[at + 1] == part[1]);
}

/// A 32-bit number is read where its bytes lie.
pub proof fn lemma_held32(bytes: Seq<u8>, at: int, value: u32)
    requires
        holds_at(bytes, at, bytes32(value)),
    ensures
        u32_at(bytes, at) == Some(value),
{
    reveal(holds_at);
    let part = bytes32(value);
    lemma_le32_reads_back(bytes, at, value);
    let after = overwritten(bytes, at, part);
    assert(bytes[at + 0] == part[0] && bytes[at + 1] == part[1] && bytes[at + 2] == part[2]
        && bytes[at + 3] == part[3]);
    assert(after =~= bytes) by {
        assert forall|i: int| at <= i < at + 4 implies after[i] == bytes[i] by {
            assert(bytes[at + (i - at)] == part[i - at]);
        }
    }
}

/// A 64-bit number is read where its bytes lie.
pub proof fn lemma_held64(bytes: Seq<u8>, at: int, value: u64)
    requires
        holds_at(bytes, at, bytes64(value)),
    ensures
        u64_at(bytes, at) == Some(value),
{
    reveal(holds_at);
    let part = bytes64(value);
    lemma_le64_reads_back(bytes, at, value);
    let after = overwritten(bytes, at, part);
    assert(after =~= bytes) by {
        assert forall|i: int| at <= i < at + 8 implies after[i] == bytes[i] by {
            assert(bytes[at + (i - at)] == part[i - at]);
        }
    }
}

/// A 16-bit number is read where its bytes lie in front of others, which follow
/// right behind it.
pub proof fn lemma_held16_first(bytes: Seq<u8>, at: int, value: u16, rest: Seq<u8>)
    requires
        holds_at(bytes, at, bytes16(value) + rest),
    ensures
        u16_at(bytes, at) == Some(value),
        holds_at(bytes, at + 2, rest),
{
    lemma_holds_both(bytes, at, bytes16(value), rest);
    lemma_held16(bytes, at, value);
}

/// A 32-bit number is read where its bytes lie in front of others, which follow
/// right behind it.
pub proof fn lemma_held32_first(bytes: Seq<u8>, at: int, value: u32, rest: Seq<u8>)
    requires
        holds_at(bytes, at, bytes32(value) + rest),
    ensures
        u32_at(bytes, at) == Some(value),
        holds_at(bytes, at + 4, rest),
{
    lemma_holds_both(bytes, at, bytes32(value), rest);
    lemma_held32(bytes, at, value);
}

/// A 64-bit number is read where its bytes lie in front of others, which follow
/// right behind it.
pub proof fn lemma_held64_first(bytes: Seq<u8>, at: int, value: u64, rest: Seq<u8>)
    requires
        holds_at(bytes, at, bytes64(value) + rest),
    ensures
        u64_at(bytes, at) == Some(value),
        holds_at(bytes, at + 8, rest),
{
    lemma_holds_both(bytes, at, bytes64(value), rest);
    lemma_held64(bytes, at, value);
}

/// The refusal of a malformed image.
pub fn pe_error(message: &str) -> (error: AppError)
    ensures
        error.code == ReasonCode::RcPeParseInvalid,
        error.message@ == message@,
{
    AppError::new(ReasonCode::RcPeParseInvalid, message)
}

/// The refusal of a malformed image, as the outcome of an operation.
pub fn invalid<T>(message: &str) -> (outcome: AppResult<T>)
    ensures
        outcome matches Err(error) && error.code == ReasonCode::RcPeParseInvalid && error.message@
            == message@,
{
    Err(pe_error(message))
}

/// The refusal of a malformed image with advice, as the outcome of an operation.
pub fn invalid_for<T>(message: &str, hint: String) -> (outcome: AppResult<T>)
    ensures
        outcome matches Err(error) && error.code == ReasonCode::RcPeParseInvalid && error.message@
            == message@ && error.hint == Some(hint),
{
    Err(pe_error(message).with_hint(hint))
}

/// Checks that `size` bytes from `offset` on lie inside `bytes`.
pub fn checked_range(bytes: &[u8], offset: usize, size: usize, label: &str) -> (outcome: AppResult<
    (),
>)
    ensures
        match outcome {
            Ok(()) => in_range(bytes@, offset as int, size as int),
            Err(error) => !in_range(bytes@, offset as int, size as int) && error.code
                == ReasonCode::RcPeParseInvalid,
        },
{
    let length: usize = bytes.len();
    match offset.checked_add(size) {
        None => invalid(&joined(label, " range overflow")),
        Some(end) => {
            if end > length {
                return invalid(&joined(label, " exceeds file size"));
            }
            Ok(())
        },
    }
}

/// The `size` bytes from `offset` on.
pub fn slice<'a>(bytes: &'a [u8], offset: usize, size: usize, label: &str) -> (outcome: AppResult<
    &'a [u8],
>)
    ensures
        match outcome {
            Ok(part) => in_range(bytes@, offset as int, size as int) && part@ == bytes@.subrange(
                offset as int,
                offset + size,
            ),
            Err(error) => !in_range(bytes@, offset as int, size as int) && error.code
                == ReasonCode::RcPeParseInvalid,
        },
{
    match checked_range(bytes, offset, size, label) {
        Err(error) => Err(error),
        Ok(()) => {
            let length: usize = bytes.len();
            assert(offset + size <= length);
            Ok(vstd::slice::slice_subrange(bytes, offset, offset + size))
        },
    }
}

/// The 16-bit number at `offset`.
pub fn read_u16(bytes: &[u8], offset: usize, label: &str) -> (outcome: AppResult<u16>)
    ensures
        crate::error::agrees(
            outcome,
            ReasonCode::RcPeParseInvalid,
            u16_at(bytes@, offset as int),
        ),
{
    match checked_range(bytes, offset, 2, label) {
        Err(error) => Err(error),
        Ok(()) => Ok(bytes[offset] as u16 + 0x100 * (bytes[offset + 1] as u16)),
    }
}

/// The 32-bit number at `offset`.
pub fn read_u32(bytes: &[u8], offset: usize, label: &str) -> (outcome: AppResult<u32>)
    ensures
        crate::error::agrees(
            outcome,
            ReasonCode::RcPeParseInvalid,
            u32_at(bytes@, offset as int),
        ),
{
    match checked_range(bytes, offset, 4, label) {
        Err(error) => Err(error),
        Ok(()) => Ok(
            bytes[offset] as u32 + 0x100 * (bytes[offset + 1] as u32) + 0x1_0000 * (bytes[offset
                + 2] as u32) + 0x100_0000 * (bytes[offset + 3] as u32),
        ),
    }
}

/// The 64-bit number at `offset`.
pub fn read_u64(bytes: &[u8], offset: usize, label: &str) -> (outcome: AppResult<u64>)
    ensures
        crate::error::agrees(
            outcome,
            ReasonCode::RcPeParseInvalid,
            u64_at(bytes@, offset as int),
        ),
{
    match checked_range(bytes, offset, 8, label) {
        Err(error) => Err(error),
        Ok(()) => {
            let length: usize = bytes.len();
            assert(offset + 8 <= length);
            let low: AppResult<u32> = read_u32(bytes, offset, label);
            let high: AppResult<u32> = read_u32(bytes, offset + 4, label);
            match (low, high) {
                (Ok(low), Ok(high)) => Ok(low as u64 + 0x1_0000_0000 * (high as u64)),
                (Err(error), _) => Err(error),
                (_, Err(error)) => Err(error),
            }
        },
    }
}

/// The 16-bit number `distance` bytes after `base`.
pub fn field_u16(bytes: &[u8], base: usize, distance: usize, label: &str) -> (outcome: AppResult<
    u16,
>)
    ensures
        crate::error::agrees(
            outcome,
            ReasonCode::RcPeParseInvalid,
            u16_at(bytes@, base + distance),
        ),
{
    assert(bytes.len() == bytes@.len());
    match base.checked_add(distance) {
        Some(offset) => read_u16(bytes, offset, label),
        None => invalid(&joined(label, " range overflow")),
    }
}

/// The 32-bit number `distance` bytes after `base`.
pub fn field_u32(bytes: &[u8], base: usize, distance: usize, label: &str) -> (outcome: AppResult<
    u32,
>)
    ensures
        crate::error::agrees(
            outcome,
            ReasonCode::RcPeParseInvalid,
            u32_at(bytes@, base + distance),
        ),
{
    assert(bytes.len() == bytes@.len());
    match base.checked_add(distance) {
        Some(offset) => read_u32(bytes, offset, label),
        None => invalid(&joined(label, " range overflow")),
    }
}

/// Writes `part` over `bytes` from `offset` on.
pub fn overwrite(bytes: &mut Vec<u8>, offset: usize, part: &[u8])
    requires
        in_range(old(bytes)@, offset as int, part@.len() as int),
    ensures
        final(bytes)@ == overwritten(old(bytes)@, offset as int, part@),
{
    let ghost start = bytes@;
    let mut i: usize = 0;
    while i < part.len()
        invariant
            i <= part.len(),
            in_range(start, offset as int, part@.len() as int),
            bytes.len() == start.len(),
            bytes@ == overwritten(start, offset as int, part@.take(i as int)),
        decreases part.len() - i,
    {
        bytes.set(offset + i, part[i]);
        i += 1;
    }
    assert(part@.take(i as int) == part@);
}

/// Writes a 16-bit number at `offset`.
pub fn write_u16(bytes: &mut Vec<u8>, offset: usize, value: u16) -> (outcome: AppResult<()>)
    ensures
        outcome is Ok <==> in_range(old(bytes)@, offset as int, 2),
        outcome is Ok ==> final(bytes)@ == overwritten(
            old(bytes)@,
            offset as int,
            bytes16(value),
        ),
        outcome matches Err(error) ==> error.code == ReasonCode::RcPeParseInvalid 
            && final(bytes)@ == old(bytes)@,
{
    match checked_range(bytes, offset, 2, "write_u16") {
        Err(error) => Err(error),
        Ok(()) => {
            let part: [u8; 2] = [(value % 0x100) as u8, (value / 0x100) as u8];
            overwrite(bytes, offset, &part);
            assert(part@ == bytes16(value));
            Ok(())
        },
    }
}

/// Writes a 32-bit number at `offset`.
pub fn write_u32(bytes: &mut Vec<u8>, offset: usize, value: u32) -> (outcome: AppResult<()>)
    ensures
        outcome is Ok <==> in_range(old(bytes)@, offset as int, 4),
        outcome is Ok ==> final(bytes)@ == overwritten(
            old(bytes)@,
            offset as int,
            bytes32(value),
        ),
        outcome matches Err(error) ==> error.code == ReasonCode::RcPeParseInvalid 
            && final(bytes)@ == old(bytes)@,
{
    match checked_range(bytes, offset, 4, "write_u32") {
        Err(error) => Err(error),
        Ok(()) => {
            let part: [u8; 4] = [
                (value % 0x100) as u8,
                (value / 0x100 % 0x100) as u8,
                (value / 0x1_0000 % 0x100) as u8,
                (value / 0x100_0000) as u8,
            ];
            overwrite(bytes, offset, &part);
            assert(part@ == bytes32(value));
            Ok(())
        },
    }
}

/// Writes a 64-bit number at `offset`.
pub fn write_u64(bytes: &mut Vec<u8>, offset: usize, value: u64) -> (outcome: AppResult<()>)
    ensures
        outcome is Ok <==> in_range(old(bytes)@, offset as int, 8),
        outcome is Ok ==> final(bytes)@ == overwritten(
            old(bytes)@,
            offset as int,
            bytes64(value),
        ),
        outcome matches Err(error) ==> error.code == ReasonCode::RcPeParseInvalid 
            && final(bytes)@ == old(bytes)@,
{
    match checked_range(bytes, offset, 8, "write_u64") {
        Err(error) => Err(error),
        Ok(()) => {
            let low: u32 = (value % 0x1_0000_0000) as u32;
            let high: u32 = (value / 0x1_0000_0000) as u32;
            let part: [u8; 8] = [
                (low % 0x100) as u8,
                (low / 0x100 % 0x100) as u8,
                (low / 0x1_0000 % 0x100) as u8,
                (low / 0x100_0000) as u8,
                (high % 0x100) as u8,
                (high / 0x100 % 0x100) as u8,
                (high / 0x1_0000 % 0x100) as u8,
                (high / 0x100_0000) as u8,
            ];
            overwrite(bytes, offset, &part);
            assert(part@ == bytes64(value));
            Ok(())
        },
    }
}

} // verus!
