//! The base relocation directory.
use crate::bytes::{checked_range, field_u16, field_u32, in_range, invalid, le16, u32_at};
use crate::error::{agrees, AppResult, ReasonCode};
use crate::pe::imports::{
    absent, directory_entry, directory_or_none, lemma_prepended_nothing, lemma_prepended_push,
    prepended,
};
use crate::pe::rva::{file_offset, rva_to_file_offset};
use crate::pe::types::{
    DataDirectory, PeSection, PeSectionModel, RelocationBlock, RelocationBlockModel,
    RelocationEntry, RelocationType,
};
use vstd::prelude::*;

verus! {

pub const IMAGE_DIRECTORY_ENTRY_BASERELOC: usize = 5;

pub const IMAGE_REL_BASED_ABSOLUTE: u16 = 0;

pub const IMAGE_REL_BASED_HIGHLOW: u16 = 3;

pub const IMAGE_REL_BASED_DIR64: u16 = 10;

/// The kind of relocation with the given number.
pub open spec fn relocation_type(number: u16) -> RelocationType {
    if number == IMAGE_REL_BASED_ABSOLUTE {
        RelocationType::Absolute
    } else if number == IMAGE_REL_BASED_HIGHLOW {
        RelocationType::HighLow
    } else if number == IMAGE_REL_BASED_DIR64 {
        RelocationType::Dir64
    } else {
        RelocationType::Unsupported(number)
    }
}

/// A relocation entry: its kind in the top four bits, its place in the rest.
pub open spec fn relocation_entry(raw: u16) -> RelocationEntry {
    RelocationEntry { kind: relocation_type(raw / 0x1000), offset: raw % 0x1000 }
}

/// The relocation block of `size` bytes at `offset`, whose entries the file
/// must hold.
pub open spec fn relocation_block(bytes: Seq<u8>, offset: int, page_rva: u32, size: int) -> Option<
    RelocationBlockModel,
> {
    if size > 8 && !in_range(bytes, offset + 8, size - 8) {
        None
    } else {
        Some(
            RelocationBlockModel {
                page_rva,
                entries: Seq::new(
                    ((size - 8) / 2) as nat,
                    |i: int| relocation_entry(le16(bytes, offset + 8 + 2 * i)),
                ),
            },
        )
    }
}

/// The blocks of the table of `size` bytes at `start`, from position `at` in
/// it, up to a block without page and size or the end of the table.
pub open spec fn blocks_from(bytes: Seq<u8>, start: int, size: int, at: int) -> Option<
    Seq<RelocationBlockModel>,
>
    decreases size - at,
{
    if at + 8 > size {
        Some(Seq::empty())
    } else {
        match (u32_at(bytes, start + at), u32_at(bytes, start + (at + 4))) {
            (Some(page_rva), Some(block_size)) => if page_rva == 0 && block_size == 0 {
                Some(Seq::empty())
            } else if block_size < 8 || at + block_size > size || block_size % 2 != 0 {
                None
            } else {
                match relocation_block(bytes, start + at, page_rva, block_size as int) {
                    None => None,
                    Some(block) => prepended(
                        seq![block],
                        blocks_from(bytes, start, size, at + block_size),
                    ),
                }
            },
            _ => None,
        }
    }
}

/// The relocation blocks of the image.
pub open spec fn relocations(
    bytes: Seq<u8>,
    sections: Seq<PeSectionModel>,
    directory: DataDirectory,
) -> Option<Seq<RelocationBlockModel>> {
    if absent(directory) {
        Some(Seq::empty())
    } else {
        match file_offset(directory.virtual_address, directory.size, sections, 0) {
            None => None,
            Some(start) => blocks_from(bytes, start, directory.size as int, 0),
        }
    }
}

fn entry_of(raw: u16) -> (entry: RelocationEntry)
    ensures
        entry == relocation_entry(raw),
{
    let number: u16 = raw / 0x1000;
    let kind: RelocationType = if number == IMAGE_REL_BASED_ABSOLUTE {
        RelocationType::Absolute
    } else if number == IMAGE_REL_BASED_HIGHLOW {
        RelocationType::HighLow
    } else if number == IMAGE_REL_BASED_DIR64 {
        RelocationType::Dir64
    } else {
        RelocationType::Unsupported(number)
    };
    RelocationEntry { kind, offset: raw % 0x1000 }
}

fn read_block(bytes: &[u8], start: usize, at: u32, page_rva: u32, size: u32) -> (outcome: AppResult<
    RelocationBlock,
>)
    requires
        size >= 8,
        at + size <= u32::MAX,
    ensures
        agrees(
            outcome,
            ReasonCode::RcPeParseInvalid,
            relocation_block(bytes@, start + at, page_rva, size as int),
        ),
{
    let mut entries: Vec<RelocationEntry> = Vec::new();
    let count: u32 = (size - 8) / 2;
    if size > 8 {
        let length: usize = bytes.len();
        match start.checked_add((at + 8) as usize) {
            None => {
                return invalid("relocation entry range overflow");
            },
            Some(first) => match checked_range(
                bytes,
                first,
                (size - 8) as usize,
                "relocation entry",
            ) {
                Err(error) => {
                    return Err(error);
                },
                Ok(()) => {},
            },
        }
    }
    let mut index: u32 = 0;
    while index < count
        invariant
            index <= count,
            count == (size - 8) / 2,
            size >= 8,
            at + size <= u32::MAX,
            size > 8 ==> in_range(bytes@, start + at + 8, size - 8),
            entries@ == Seq::new(
                index as nat,
                |i: int| relocation_entry(le16(bytes@, start + at + 8 + 2 * i)),
            ),
        decreases count - index,
    {
        match field_u16(bytes, start, (at + 8 + 2 * index) as usize, "relocation entry") {
            Err(error) => {
                assert(false);
            },
            Ok(raw) => {
                entries.push(entry_of(raw));
            },
        }
        index += 1;
    }
    assert(entries.deep_view() =~= entries@);
    Ok(RelocationBlock { page_rva, entries })
}

/// The relocation blocks of the image.
pub fn parse_relocations(bytes: &[u8], sections: &[PeSection], directories: &[DataDirectory]) -> (outcome:
    AppResult<Vec<RelocationBlock>>)
    ensures
        agrees(
            outcome,
            ReasonCode::RcPeParseInvalid,
            relocations(
                bytes@,
                sections.deep_view(),
                directory_entry(directories@, IMAGE_DIRECTORY_ENTRY_BASERELOC as int),
            ),
        ),
{
    let directory: DataDirectory = directory_or_none(directories, IMAGE_DIRECTORY_ENTRY_BASERELOC);
    let mut blocks: Vec<RelocationBlock> = Vec::new();
    assert(blocks.deep_view() =~= Seq::<RelocationBlockModel>::empty());
    if directory.virtual_address == 0 || directory.size == 0 {
        return Ok(blocks);
    }
    let start: usize = match rva_to_file_offset(
        directory.virtual_address,
        directory.size,
        sections,
        0,
    ) {
        Err(error) => {
            return Err(error);
        },
        Ok(start) => start,
    };
    let size: u32 = directory.size;
    let mut at: u32 = 0;
    let ghost whole = blocks_from(bytes@, start as int, size as int, 0);
    proof {
        lemma_prepended_nothing(whole);
    }
    while size - at >= 8
        invariant
            at <= size,
            whole == relocations(
                bytes@,
                sections.deep_view(),
                directory_entry(directories@, IMAGE_DIRECTORY_ENTRY_BASERELOC as int),
            ),
            whole == prepended(
                blocks.deep_view(),
                blocks_from(bytes@, start as int, size as int, at as int),
            ),
        decreases size - at,
    {
        let page_rva: u32 = match field_u32(bytes, start, at as usize, "relocation page RVA") {
            Err(error) => {
                return Err(error);
            },
            Ok(value) => value,
        };
        let block_size: u32 = match field_u32(
            bytes,
            start,
            (at + 4) as usize,
            "relocation block size",
        ) {
            Err(error) => {
                return Err(error);
            },
            Ok(value) => value,
        };
        if page_rva == 0 && block_size == 0 {
            assert(blocks.deep_view() + Seq::<RelocationBlockModel>::empty()
                =~= blocks.deep_view());
            return Ok(blocks);
        }
        if block_size < 8 || block_size > size - at {
            return invalid("relocation block exceeds directory bounds");
        }
        if block_size % 2 != 0 {
            return invalid("relocation block has a truncated entry");
        }
        let block: RelocationBlock = match read_block(bytes, start, at, page_rva, block_size) {
            Err(error) => {
                return Err(error);
            },
            Ok(block) => block,
        };
        let ghost before = blocks.deep_view();
        proof {
            lemma_prepended_push(
                before,
                block.deep_view(),
                blocks_from(bytes@, start as int, size as int, at + block_size),
            );
        }
        blocks.push(block);
        assert(blocks.deep_view() =~= before.push(block.deep_view()));
        at += block_size;
    }
    assert(blocks.deep_view() + Seq::<RelocationBlockModel>::empty() =~= blocks.deep_view());
    Ok(blocks)
}

} // verus!
