//! From addresses in the loaded image to positions in the file.
use crate::bytes::{invalid, invalid_for, read_u16, read_u32, read_u64, u16_at, u32_at, u64_at};
use crate::error::{agrees, AppResult, ReasonCode};
use crate::pe::types::{PeSection, PeSectionModel};
use crate::text::{joined, noted, padded_hex, padded_hexadecimal, surrounded};
use vstd::prelude::*;
use vstd::utf8::{decode_utf8, valid_utf8};

verus! {

/// `a + b`, held at the largest 32-bit number.
pub open spec fn capped(a: u32, b: u32) -> int {
    if a + b > u32::MAX {
        u32::MAX as int
    } else {
        a + b
    }
}

/// The larger of two numbers.
pub open spec fn larger(a: u32, b: u32) -> u32 {
    if a < b {
        b
    } else {
        a
    }
}

/// `section` holds the `size` bytes from `rva` on, in the file or, with
/// `padded`, in memory.
pub open spec fn covers(section: PeSectionModel, rva: u32, size: u32, padded: bool) -> bool {
    let extent = if padded {
        larger(section.virtual_size, section.raw_data_size)
    } else {
        section.raw_data_size
    };
    rva >= section.virtual_address && capped(rva, size) <= capped(section.virtual_address, extent)
}

/// The first section that holds the `size` bytes from `rva` on.
pub open spec fn covering(sections: Seq<PeSectionModel>, rva: u32, size: u32, padded: bool) -> Option<
    PeSectionModel,
>
    decreases sections.len(),
{
    if sections.len() == 0 {
        None
    } else if covers(sections[0], rva, size, padded) {
        Some(sections[0])
    } else {
        covering(sections.drop_first(), rva, size, padded)
    }
}

/// The first section that holds the `size` bytes from `rva` on.
pub fn section_for_rva<'a>(
    sections: &'a [PeSection],
    rva: u32,
    size: u32,
    allow_virtual_padding: bool,
) -> (found: Option<&'a PeSection>)
    ensures
        match found {
            Some(section) => covering(sections.deep_view(), rva, size, allow_virtual_padding) == Some(
                section.deep_view(),
            ),
            None => covering(sections.deep_view(), rva, size, allow_virtual_padding) is None,
        },
{
    let requested_end: u32 = rva.saturating_add(size);
    let ghost all = sections.deep_view();
    let mut i: usize = 0;
    assert(all.skip(0) == all);
    while i < sections.len()
        invariant
            i <= sections.len(),
            requested_end == capped(rva, size),
            all == sections.deep_view(),
            covering(all, rva, size, allow_virtual_padding) == covering(
                all.skip(i as int),
                rva,
                size,
                allow_virtual_padding,
            ),
        decreases sections.len() - i,
    {
        let section: &PeSection = &sections[i];
        let extent: u32 = if allow_virtual_padding {
            if section.virtual_size < section.raw_data_size {
                section.raw_data_size
            } else {
                section.virtual_size
            }
        } else {
            section.raw_data_size
        };
        let end: u32 = section.virtual_address.saturating_add(extent);
        assert(all.skip(i as int)[0] == section.deep_view());
        assert(all.skip(i as int).drop_first() == all.skip(i + 1));
        if rva >= section.virtual_address && requested_end <= end {
            return Some(section);
        }
        i += 1;
    }
    None
}

/// The position in the file of the `size` bytes from `rva` on. The first
/// `headers` bytes of the image lie in the file as they lie in memory.
pub open spec fn file_offset(rva: u32, size: u32, sections: Seq<PeSectionModel>, headers: u32) -> Option<
    int,
> {
    if headers > 0 && rva + size > u32::MAX {
        None
    } else if headers > 0 && rva < headers && rva + size <= headers {
        Some(rva as int)
    } else {
        match covering(sections, rva, size, false) {
            None => None,
            Some(section) => {
                let position = section.raw_data_ptr + (rva - section.virtual_address);
                if position <= usize::MAX {
                    Some(position)
                } else {
                    None
                }
            },
        }
    }
}

/// A section that covers an address begins at or before it.
pub proof fn lemma_covering(sections: Seq<PeSectionModel>, rva: u32, size: u32, padded: bool)
    ensures
        covering(sections, rva, size, padded) matches Some(section) ==> covers(
            section,
            rva,
            size,
            padded,
        ),
    decreases sections.len(),
{
    if sections.len() != 0 {
        lemma_covering(sections.drop_first(), rva, size, padded);
    }
}

/// The refusal of an address that no data of the file stands behind.
fn not_backed<T>(rva: u32) -> (outcome: AppResult<T>)
    ensures
        outcome matches Err(error) && error.code == ReasonCode::RcPeParseInvalid && error.message@
            == "RVA 0x"@ + padded_hexadecimal(rva as nat, 8) + " is not backed by file data"@,
{
    invalid(&surrounded("RVA 0x", &padded_hex(rva as u64, 8), " is not backed by file data"))
}

/// The position in the file of the `size` bytes from `rva` on.
pub fn rva_to_file_offset(rva: u32, size: u32, sections: &[PeSection], size_of_headers: u32) -> (outcome:
    AppResult<usize>)
    ensures
        match outcome {
            Ok(offset) => file_offset(rva, size, sections.deep_view(), size_of_headers) == Some(offset as int),
            Err(error) => file_offset(rva, size, sections.deep_view(), size_of_headers) is None && error.code
                == ReasonCode::RcPeParseInvalid,
        },
{
    if size_of_headers > 0 {
        match rva.checked_add(size) {
            None => {
                return invalid("RVA range overflow");
            },
            Some(end) => {
                if rva < size_of_headers && end <= size_of_headers {
                    return Ok(rva as usize);
                }
            },
        }
    }
    proof {
        lemma_covering(sections.deep_view(), rva, size, false);
    }
    match section_for_rva(sections, rva, size, false) {
        None => not_backed(rva),
        Some(section) => {
            let relative: u32 = rva - section.virtual_address;
            match (section.raw_data_ptr as usize).checked_add(relative as usize) {
                None => not_backed(rva),
                Some(position) => Ok(position),
            }
        },
    }
}

/// The address of element `index` of a table of `width`-byte elements.
pub open spec fn element_rva(rva: u32, index: int, width: int) -> Option<u32> {
    if rva + index * width <= u32::MAX {
        Some((rva + index * width) as u32)
    } else {
        None
    }
}

/// The file position of element `index` of a table of `width`-byte elements.
pub open spec fn element_offset(
    sections: Seq<PeSectionModel>,
    rva: u32,
    index: int,
    width: u32,
) -> Option<int> {
    match element_rva(rva, index, width as int) {
        None => None,
        Some(at) => file_offset(at, width, sections, 0),
    }
}

/// Element `index` of the table of 16-bit numbers at `rva`.
pub open spec fn table_u16(bytes: Seq<u8>, sections: Seq<PeSectionModel>, rva: u32, index: int) -> Option<
    u16,
> {
    match element_offset(sections, rva, index, 2) {
        None => None,
        Some(offset) => u16_at(bytes, offset),
    }
}

/// Element `index` of the table of 32-bit numbers at `rva`.
pub open spec fn table_u32(bytes: Seq<u8>, sections: Seq<PeSectionModel>, rva: u32, index: int) -> Option<
    u32,
> {
    match element_offset(sections, rva, index, 4) {
        None => None,
        Some(offset) => u32_at(bytes, offset),
    }
}

/// Element `index` of the table of 64-bit numbers at `rva`.
pub open spec fn table_u64(bytes: Seq<u8>, sections: Seq<PeSectionModel>, rva: u32, index: int) -> Option<
    u64,
> {
    match element_offset(sections, rva, index, 8) {
        None => None,
        Some(offset) => u64_at(bytes, offset),
    }
}

/// Element `index` of the table of pointers at `rva`.
pub open spec fn table_pointer(
    bytes: Seq<u8>,
    sections: Seq<PeSectionModel>,
    rva: u32,
    index: int,
    pointer_bytes: int,
) -> Option<u64> {
    if pointer_bytes == 4 {
        match table_u32(bytes, sections, rva, index) {
            None => None,
            Some(value) => Some(value as u64),
        }
    } else if pointer_bytes == 8 {
        table_u64(bytes, sections, rva, index)
    } else {
        None
    }
}

/// The pointer at `offset`.
pub open spec fn pointer_at(bytes: Seq<u8>, offset: int, pointer_bytes: int) -> Option<u64> {
    if pointer_bytes == 4 {
        match u32_at(bytes, offset) {
            None => None,
            Some(value) => Some(value as u64),
        }
    } else if pointer_bytes == 8 {
        u64_at(bytes, offset)
    } else {
        None
    }
}

fn offset_of_element(sections: &[PeSection], rva: u32, index: usize, width: u32) -> (outcome:
    AppResult<usize>)
    requires
        width == 2 || width == 4 || width == 8,
    ensures
        match outcome {
            Ok(offset) => element_offset(sections.deep_view(), rva, index as int, width) == Some(offset as int),
            Err(error) => element_offset(sections.deep_view(), rva, index as int, width) is None && error.code
                == ReasonCode::RcPeParseInvalid,
        },
{
    if index > 0x8000_0000 {
        assert(rva + index * (width as int) > u32::MAX) by (nonlinear_arith)
            requires
                index > 0x8000_0000,
                width >= 2,
                rva >= 0,
        ;
        return invalid("table element overflow");
    }
    assert(0 <= index * (width as int) <= 0x4_0000_0000) by (nonlinear_arith)
        requires
            index <= 0x8000_0000,
            width <= 8,
    ;
    let distance: u64 = index as u64 * width as u64;
    let at: u64 = rva as u64 + distance;
    if at > 0xffff_ffff {
        return invalid("table element overflow");
    }
    rva_to_file_offset(at as u32, width, sections, 0)
}

/// Element `index` of the table of 16-bit numbers at `rva`.
pub fn read_u16_at_rva(
    bytes: &[u8],
    sections: &[PeSection],
    rva: u32,
    index: usize,
    label: &str,
) -> (outcome: AppResult<u16>)
    ensures
        agrees(
            outcome,
            ReasonCode::RcPeParseInvalid,
            table_u16(bytes@, sections.deep_view(), rva, index as int),
        ),
{
    match offset_of_element(sections, rva, index, 2) {
        Err(error) => Err(error),
        Ok(offset) => read_u16(bytes, offset, label),
    }
}

/// Element `index` of the table of 32-bit numbers at `rva`.
pub fn read_u32_at_rva(
    bytes: &[u8],
    sections: &[PeSection],
    rva: u32,
    index: usize,
    label: &str,
) -> (outcome: AppResult<u32>)
    ensures
        agrees(
            outcome,
            ReasonCode::RcPeParseInvalid,
            table_u32(bytes@, sections.deep_view(), rva, index as int),
        ),
{
    match offset_of_element(sections, rva, index, 4) {
        Err(error) => Err(error),
        Ok(offset) => read_u32(bytes, offset, label),
    }
}

/// Element `index` of the table of 64-bit numbers at `rva`.
pub fn read_u64_at_rva(
    bytes: &[u8],
    sections: &[PeSection],
    rva: u32,
    index: usize,
    label: &str,
) -> (outcome: AppResult<u64>)
    ensures
        agrees(
            outcome,
            ReasonCode::RcPeParseInvalid,
            table_u64(bytes@, sections.deep_view(), rva, index as int),
        ),
{
    match offset_of_element(sections, rva, index, 8) {
        Err(error) => Err(error),
        Ok(offset) => read_u64(bytes, offset, label),
    }
}

/// Element `index` of the table of pointers at `rva`.
pub fn read_pointer_at_rva(
    bytes: &[u8],
    sections: &[PeSection],
    rva: u32,
    index: usize,
    pointer_bytes: usize,
    label: &str,
) -> (outcome: AppResult<u64>)
    ensures
        agrees(
            outcome,
            ReasonCode::RcPeParseInvalid,
            table_pointer(bytes@, sections.deep_view(), rva, index as int, pointer_bytes as int),
        ),
{
    if pointer_bytes == 4 {
        match read_u32_at_rva(bytes, sections, rva, index, label) {
            Ok(value) => Ok(value as u64),
            Err(error) => Err(error),
        }
    } else if pointer_bytes == 8 {
        read_u64_at_rva(bytes, sections, rva, index, label)
    } else {
        invalid(&noted("unsupported pointer width ", pointer_bytes as u64, ""))
    }
}

/// The pointer at `offset`.
pub fn read_pointer(bytes: &[u8], offset: usize, pointer_bytes: usize, label: &str) -> (outcome:
    AppResult<u64>)
    ensures
        agrees(
            outcome,
            ReasonCode::RcPeParseInvalid,
            pointer_at(bytes@, offset as int, pointer_bytes as int),
        ),
{
    if pointer_bytes == 4 {
        match read_u32(bytes, offset, label) {
            Ok(value) => Ok(value as u64),
            Err(error) => Err(error),
        }
    } else if pointer_bytes == 8 {
        read_u64(bytes, offset, label)
    } else {
        invalid(&noted("unsupported pointer width ", pointer_bytes as u64, ""))
    }
}

// ---------------------------------------------------------------------------
// Text
// ---------------------------------------------------------------------------

/// The first position at or after `from` that holds a zero byte.
pub open spec fn first_zero(bytes: Seq<u8>, from: int) -> Option<int>
    decreases bytes.len() - from,
{
    if from < 0 || from >= bytes.len() {
        None
    } else if bytes[from] == 0 {
        Some(from)
    } else {
        first_zero(bytes, from + 1)
    }
}

/// The UTF-8 text from `offset` to the next zero byte.
pub open spec fn c_string_at(bytes: Seq<u8>, offset: int) -> Option<Seq<char>> {
    match first_zero(bytes, offset) {
        None => None,
        Some(end) => {
            let part = bytes.subrange(offset, end);
            if valid_utf8(part) {
                Some(decode_utf8(part))
            } else {
                None
            }
        },
    }
}

/// The UTF-8 text at `rva`.
pub open spec fn c_string_at_rva(bytes: Seq<u8>, sections: Seq<PeSectionModel>, rva: u32) -> Option<
    Seq<char>,
> {
    match file_offset(rva, 1, sections, 0) {
        None => None,
        Some(offset) => c_string_at(bytes, offset),
    }
}

/// The end of a zero-terminated text lies between its start and the end of the
/// bytes.
pub proof fn lemma_first_zero(bytes: Seq<u8>, from: int)
    ensures
        first_zero(bytes, from) matches Some(end) ==> from <= end < bytes.len() && bytes[end] == 0,
    decreases bytes.len() - from,
{
    if 0 <= from < bytes.len() && bytes[from] != 0 {
        lemma_first_zero(bytes, from + 1);
    }
}

/// `str::from_utf8`: what its error says of bytes that are not well-formed
/// UTF-8.
pub uninterp spec fn utf8_fault(bytes: Seq<u8>) -> Seq<char>;

/// `str::from_utf8`: the text that the bytes encode, if they are well-formed
/// UTF-8; else what the error says, of which it claims that it depends on the
/// bytes alone.
#[verifier::external_body]
pub(crate) fn decode_text(bytes: &[u8]) -> (text: Result<String, String>)
    ensures
        match text {
            Ok(text) => valid_utf8(bytes@) && text@ == decode_utf8(bytes@),
            Err(fault) => !valid_utf8(bytes@) && fault@ == utf8_fault(bytes@),
        },
{
    std::str::from_utf8(bytes).map(String::from).map_err(|error| error.to_string())
}

/// The UTF-8 text from `offset` to the next zero byte.
pub fn read_c_string(bytes: &[u8], offset: usize, label: &str) -> (outcome: AppResult<String>)
    ensures
        agrees(outcome, ReasonCode::RcPeParseInvalid, c_string_at(bytes@, offset as int)),
{
    if offset > bytes.len() {
        return invalid(&joined(label, " starts past end of file"));
    }
    let mut end: usize = offset;
    while end < bytes.len() && bytes[end] != 0
        invariant
            offset <= end <= bytes.len(),
            first_zero(bytes@, offset as int) == first_zero(bytes@, end as int),
        decreases bytes.len() - end,
    {
        end += 1;
    }
    if end >= bytes.len() {
        return invalid(&joined(label, " is not NUL-terminated"));
    }
    match decode_text(vstd::slice::slice_subrange(bytes, offset, end)) {
        Ok(text) => Ok(text),
        Err(fault) => invalid_for(&joined(label, " is not valid UTF-8"), fault),
    }
}

/// The UTF-8 text at `rva`.
pub fn read_c_string_from_rva(bytes: &[u8], sections: &[PeSection], rva: u32, label: &str) -> (outcome:
    AppResult<String>)
    ensures
        agrees(outcome, ReasonCode::RcPeParseInvalid, c_string_at_rva(bytes@, sections.deep_view(), rva)),
{
    match rva_to_file_offset(rva, 1, sections, 0) {
        Err(error) => Err(error),
        Ok(offset) => read_c_string(bytes, offset, label),
    }
}

/// Element `index` of a table stands `index` widths behind the first one.
pub proof fn lemma_table_elements(
    bytes: Seq<u8>,
    sections: Seq<PeSectionModel>,
    rva: u32,
    index: int,
)
    requires
        0 <= index,
        rva + 8 * index <= u32::MAX,
    ensures
        table_u16(bytes, sections, rva, index) == table_u16(
            bytes,
            sections,
            (rva + 2 * index) as u32,
            0,
        ),
        table_u32(bytes, sections, rva, index) == table_u32(
            bytes,
            sections,
            (rva + 4 * index) as u32,
            0,
        ),
        table_u64(bytes, sections, rva, index) == table_u64(
            bytes,
            sections,
            (rva + 8 * index) as u32,
            0,
        ),
        table_pointer(bytes, sections, rva, index, 4) == table_pointer(
            bytes,
            sections,
            (rva + 4 * index) as u32,
            0,
            4,
        ),
        table_pointer(bytes, sections, rva, index, 8) == table_pointer(
            bytes,
            sections,
            (rva + 8 * index) as u32,
            0,
            8,
        ),
{
}

/// A section holds an address of the image where it lies between its start and
/// its end; the end is that of its data or, with padding, the larger one of its
/// two sizes. Of several the first is taken.
pub proof fn lemma_first_covering(
    sections: Seq<PeSectionModel>,
    rva: u32,
    size: u32,
    padded: bool,
)
    requires
        rva + size <= u32::MAX,
        forall|i: int|
            0 <= i < sections.len() ==> (#[trigger] sections[i]).virtual_address
                + sections[i].raw_data_size <= u32::MAX && sections[i].virtual_address
                + sections[i].virtual_size <= u32::MAX,
    ensures
        match covering(sections, rva, size, padded) {
            Some(section) => exists|i: int| is_first_covering(sections, rva, size, padded, i)
                && sections[i] == section,
            None => forall|i: int|
                0 <= i < sections.len() ==> !spans(#[trigger] sections[i], rva, size, padded),
        },
    decreases sections.len(),
{
    if sections.len() > 0 {
        let rest = sections.drop_first();
        if covers(sections[0], rva, size, padded) {
            assert(is_first_covering(sections, rva, size, padded, 0));
        } else {
            assert(!spans(sections[0], rva, size, padded));
            assert forall|i: int| 0 <= i < rest.len() implies (
            #[trigger] rest[i]).virtual_address + rest[i].raw_data_size <= u32::MAX
                && rest[i].virtual_address + rest[i].virtual_size <= u32::MAX by {
                assert(rest[i] == sections[i + 1]);
            }
            lemma_first_covering(rest, rva, size, padded);
            match covering(rest, rva, size, padded) {
                Some(section) => {
                    let i = choose|i: int|
                        is_first_covering(rest, rva, size, padded, i) && rest[i] == section;
                    assert forall|j: int| 0 <= j < i + 1 implies !spans(
                        #[trigger] sections[j],
                        rva,
                        size,
                        padded,
                    ) by {
                        if j > 0 {
                            assert(rest[j - 1] == sections[j]);
                        }
                    }
                    assert(is_first_covering(sections, rva, size, padded, i + 1));
                },
                None => {
                    assert forall|i: int| 0 <= i < sections.len() implies !spans(
                        #[trigger] sections[i],
                        rva,
                        size,
                        padded,
                    ) by {
                        if i > 0 {
                            assert(rest[i - 1] == sections[i]);
                        }
                    }
                },
            }
        }
    }
}

/// The `size` bytes from `rva` on lie between the start and the end of the
/// section.
pub open spec fn spans(section: PeSectionModel, rva: u32, size: u32, padded: bool) -> bool {
    &&& section.virtual_address <= rva
    &&& rva + size <= section.virtual_address + section.raw_data_size || padded && rva + size
        <= section.virtual_address + section.virtual_size
}

/// Section `i` is the first that spans the bytes.
pub open spec fn is_first_covering(
    sections: Seq<PeSectionModel>,
    rva: u32,
    size: u32,
    padded: bool,
    i: int,
) -> bool {
    &&& 0 <= i < sections.len()
    &&& spans(sections[i], rva, size, padded)
    &&& forall|j: int| 0 <= j < i ==> !spans(#[trigger] sections[j], rva, size, padded)
}

} // verus!
