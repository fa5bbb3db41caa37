//! Reading from a file that is mapped into memory.
use crate::error::{AppError, AppResult, ReasonCode};
use crate::text::{noted, push_decimal, push_text};
use vstd::prelude::*;

verus! {

/// Fills `buffer` with the bytes that stand at `offset` of a mapped file.
/// A file that is not mapped is an error, and so is a range that the file does
/// not cover; the buffer is left as it is then.
pub fn read_mapped(contents: Option<&[u8]>, offset: usize, buffer: &mut Vec<u8>) -> (outcome:
    AppResult<()>)
    ensures
        outcome matches Err(error) ==> error.code == (if contents is None {
            ReasonCode::RcIo
        } else {
            ReasonCode::RcMemoryAccessViolation
        }) && final(buffer)@ == old(buffer)@,
        outcome is Ok <==> contents is Some && offset + old(buffer)@.len() <= contents->0@.len(),
        outcome is Ok ==> final(buffer)@ == contents->0@.subrange(
            offset as int,
            offset + old(buffer)@.len(),
        ),
{
    let mapped: &[u8] = match contents {
        Some(mapped) => mapped,
        None => {
            return Err(AppError::new(ReasonCode::RcIo, "mmap: file is not mapped"));
        },
    };
    let count: usize = buffer.len();
    let size: usize = mapped.len();
    if offset > size || count > size - offset {
        let mut message: String = noted("mmap: read at offset ", offset as u64, " + ");
        push_decimal(&mut message, count as u64);
        push_text(&mut message, &noted(" exceeds file size ", size as u64, ""));
        return Err(AppError::new(ReasonCode::RcMemoryAccessViolation, &message));
    }
    let mut i: usize = 0;
    while i < count
        invariant
            i <= count,
            contents == Some(mapped),
            count == old(buffer)@.len(),
            buffer@.len() == count,
            offset + count <= size,
            size == mapped@.len(),
            forall|j: int| 0 <= j < i ==> buffer@[j] == mapped@[offset + j],
        decreases count - i,
    {
        buffer.set(i, mapped[offset + i]);
        i += 1;
    }
    assert(buffer@ =~= mapped@.subrange(offset as int, offset + count));
    Ok(())
}

} // verus!
