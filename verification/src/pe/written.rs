//! How the structures of an image are written, and that they are read as such.
use crate::bytes::{
    bytes16, bytes32, bytes64, holds_at, lemma_held16, lemma_held32, lemma_held64, lemma_holds_both,
};
use crate::pe::imports::{
    delay_descriptor_at, import_descriptor_at, prepended, thunk_symbol, thunks_from, DescriptorTable,
    DESCRIPTOR_LIMIT, THUNK_LIMIT,
};
use crate::pe::rva::{
    c_string_at, c_string_at_rva, covering, covers, file_offset, first_zero, table_pointer, table_u16,
    table_u32, table_u64,
};
use crate::pe::types::{ImportDescriptorModel, ImportSymbolModel, PeSectionModel};
use vstd::prelude::*;
use vstd::utf8::encode_utf8;

verus! {

// ---------------------------------------------------------------------------
// Places
// ---------------------------------------------------------------------------

/// The data of `section` in the file holds the `size` bytes from `rva` on.
pub open spec fn backs(section: PeSectionModel, rva: int, size: int) -> bool {
    &&& section.virtual_address <= rva
    &&& rva + size <= section.virtual_address + section.raw_data_size
}

/// The `size` bytes from `rva` on lie in the file from `at` on: section `index`
/// is the first that backs them.
pub open spec fn placed(
    sections: Seq<PeSectionModel>,
    index: int,
    rva: int,
    size: int,
    at: int,
) -> bool {
    &&& 0 <= index < sections.len()
    &&& 0 <= rva && 0 <= size && rva + size <= u32::MAX
    &&& backs(sections[index], rva, size)
    &&& forall|i: int| 0 <= i < index ==> !backs(#[trigger] sections[i], rva, size)
    &&& sections[index].virtual_address + sections[index].raw_data_size <= u32::MAX
    &&& at == sections[index].raw_data_ptr + (rva - sections[index].virtual_address)
    &&& at <= usize::MAX
}

/// An address leads into the data of the first section that backs it, as far
/// from the start of that data as it is from the start of the section.
pub proof fn lemma_placed(
    sections: Seq<PeSectionModel>,
    index: int,
    rva: int,
    size: int,
    at: int,
)
    requires
        placed(sections, index, rva, size, at),
    ensures
        file_offset(rva as u32, size as u32, sections, 0) == Some(at),
{
    lemma_first_backing(sections, index, rva, size);
}

proof fn lemma_first_backing(sections: Seq<PeSectionModel>, index: int, rva: int, size: int)
    requires
        0 <= index < sections.len(),
        0 <= rva && 0 <= size && rva + size <= u32::MAX,
        backs(sections[index], rva, size),
        sections[index].virtual_address + sections[index].raw_data_size <= u32::MAX,
        forall|i: int| 0 <= i < index ==> !backs(#[trigger] sections[i], rva, size),
    ensures
        covering(sections, rva as u32, size as u32, false) == Some(sections[index]),
    decreases index,
{
    if index > 0 {
        assert(!backs(sections[0], rva, size));
        assert(!covers(sections[0], rva as u32, size as u32, false));
        let rest = sections.drop_first();
        assert forall|i: int| 0 <= i < index - 1 implies !backs(#[trigger] rest[i], rva, size) by {
            assert(rest[i] == sections[i + 1]);
        }
        lemma_first_backing(rest, index - 1, rva, size);
    }
}

/// Inside the headers an address is the position in the file.
pub proof fn lemma_placed_in_headers(
    sections: Seq<PeSectionModel>,
    rva: u32,
    size: u32,
    headers: u32,
)
    requires
        rva < headers,
        rva + size <= headers,
    ensures
        file_offset(rva, size, sections, headers) == Some(rva as int),
{
}

// ---------------------------------------------------------------------------
// Text
// ---------------------------------------------------------------------------

/// The bytes that write a text: its characters in UTF-8 and a zero.
pub open spec fn text_bytes(text: Seq<char>) -> Seq<u8> {
    encode_utf8(text).push(0)
}

/// A text without a zero byte is read as it was written.
pub proof fn lemma_text_reads_back(bytes: Seq<u8>, at: int, text: Seq<char>)
    requires
        holds_at(bytes, at, text_bytes(text)),
        !encode_utf8(text).contains(0),
    ensures
        c_string_at(bytes, at) == Some(text),
{
    reveal(holds_at);
    let part = encode_utf8(text);
    lemma_zero_behind(bytes, at, part, 0);
    assert(bytes.subrange(at, at + part.len()) =~= part) by {
        assert forall|i: int| 0 <= i < part.len() implies bytes.subrange(at, at + part.len())[i]
            == part[i] by {
            assert(bytes[at + i] == text_bytes(text)[i]);
        }
    }
    vstd::utf8::encode_utf8_valid_utf8(text);
    vstd::utf8::encode_utf8_decode_utf8(text);
}

proof fn lemma_zero_behind(bytes: Seq<u8>, at: int, part: Seq<u8>, done: int)
    requires
        holds_at(bytes, at, part.push(0)),
        !part.contains(0),
        0 <= done <= part.len(),
    ensures
        first_zero(bytes, at + done) == Some(at + part.len()),
    decreases part.len() - done,
{
    reveal(holds_at);
    assert(bytes[at + done] == part.push(0)[done]);
    if done < part.len() {
        assert(part.contains(part[done]));
        lemma_zero_behind(bytes, at, part, done + 1);
    }
}

// ---------------------------------------------------------------------------
// Imports
// ---------------------------------------------------------------------------

/// The bytes of the entry that a thunk leads to: a hint and a name.
pub open spec fn hint_name_bytes(hint: u16, name: Seq<char>) -> Seq<u8> {
    bytes16(hint) + text_bytes(name)
}

/// A thunk that holds the address of an entry, with or without the image base,
/// stands for the hint and the name that were written there.
pub proof fn lemma_named_thunk_reads_back(
    bytes: Seq<u8>,
    sections: Seq<PeSectionModel>,
    index: int,
    rva: u32,
    at: int,
    image_base: u64,
    pointer_bytes: int,
    hint: u16,
    name: Seq<char>,
)
    requires
        pointer_bytes == 4 || pointer_bytes == 8,
        placed(sections, index, rva as int, 2, at),
        holds_at(bytes, at, hint_name_bytes(hint, name)),
        !encode_utf8(name).contains(0),
        image_base <= u64::MAX - rva,
    ensures
        rva < 0x8000_0000 && rva < image_base ==> thunk_symbol(
            bytes,
            sections,
            rva as u64,
            image_base,
            pointer_bytes,
        ) == Some(ImportSymbolModel::ByName { hint, name }),
        pointer_bytes == 8 && image_base + rva < 0x8000_0000_0000_0000 || image_base + rva
            < 0x8000_0000 ==> thunk_symbol(
            bytes,
            sections,
            (image_base + rva) as u64,
            image_base,
            pointer_bytes,
        ) == Some(ImportSymbolModel::ByName { hint, name }),
{
    lemma_placed(sections, index, rva as int, 2, at);
    lemma_holds_both(bytes, at, bytes16(hint), text_bytes(name));
    lemma_held16(bytes, at, hint);
    lemma_text_reads_back(bytes, at + 2, name);
}

/// A thunk with its top bit set stands for the ordinal in its low 16 bits,
/// whatever the file holds.
pub proof fn lemma_ordinal_thunk_reads_back(
    bytes: Seq<u8>,
    sections: Seq<PeSectionModel>,
    image_base: u64,
    ordinal: u16,
)
    ensures
        thunk_symbol(bytes, sections, (0x8000_0000 + ordinal) as u64, image_base, 4) == Some(
            ImportSymbolModel::ByOrdinal { ordinal },
        ),
        thunk_symbol(bytes, sections, (0x8000_0000_0000_0000 + ordinal) as u64, image_base, 8)
            == Some(ImportSymbolModel::ByOrdinal { ordinal }),
{
}

/// The thunks of a table are its pointers in order, up to the first zero: each
/// gives its symbol, and fills the slot that stands as far behind the first
/// slot as the pointer stands behind the first pointer.
pub proof fn lemma_thunks_in_order(
    bytes: Seq<u8>,
    sections: Seq<PeSectionModel>,
    table_rva: u32,
    iat_rva: u32,
    image_base: u64,
    pointer_bytes: int,
)
    requires
        pointer_bytes == 4 || pointer_bytes == 8,
        thunks_from(bytes, sections, table_rva, iat_rva, image_base, pointer_bytes, 0) is Some,
    ensures
        ({
            let list = thunks_from(
                bytes,
                sections,
                table_rva,
                iat_rva,
                image_base,
                pointer_bytes,
                0,
            )->0;
            &&& list.len() <= THUNK_LIMIT
            &&& table_pointer(bytes, sections, table_rva, list.len() as int, pointer_bytes) == Some(
                0u64,
            )
            &&& forall|i: int|
                0 <= i < list.len() ==> {
                    let pointer = table_pointer(bytes, sections, table_rva, i, pointer_bytes);
                    &&& pointer is Some && pointer->0 != 0
                    &&& thunk_symbol(bytes, sections, pointer->0, image_base, pointer_bytes)
                        == Some((#[trigger] list[i]).symbol)
                    &&& list[i].iat_rva == iat_rva + i * pointer_bytes
                }
        }),
{
    lemma_thunks_from(bytes, sections, table_rva, iat_rva, image_base, pointer_bytes, 0);
}

proof fn lemma_thunks_from(
    bytes: Seq<u8>,
    sections: Seq<PeSectionModel>,
    table_rva: u32,
    iat_rva: u32,
    image_base: u64,
    pointer_bytes: int,
    index: int,
)
    requires
        pointer_bytes == 4 || pointer_bytes == 8,
        0 <= index <= THUNK_LIMIT + 1,
        thunks_from(bytes, sections, table_rva, iat_rva, image_base, pointer_bytes, index) is Some,
    ensures
        ({
            let list = thunks_from(
                bytes,
                sections,
                table_rva,
                iat_rva,
                image_base,
                pointer_bytes,
                index,
            )->0;
            &&& index + list.len() <= THUNK_LIMIT
            &&& table_pointer(bytes, sections, table_rva, index + list.len(), pointer_bytes)
                == Some(0u64)
            &&& forall|i: int|
                0 <= i < list.len() ==> {
                    let pointer = table_pointer(
                        bytes,
                        sections,
                        table_rva,
                        index + i,
                        pointer_bytes,
                    );
                    &&& pointer is Some && pointer->0 != 0
                    &&& thunk_symbol(bytes, sections, pointer->0, image_base, pointer_bytes)
                        == Some((#[trigger] list[i]).symbol)
                    &&& list[i].iat_rva == iat_rva + (index + i) * pointer_bytes
                }
        }),
    decreases THUNK_LIMIT + 1 - index,
{
    let list = thunks_from(
        bytes,
        sections,
        table_rva,
        iat_rva,
        image_base,
        pointer_bytes,
        index,
    )->0;
    if list.len() > 0 {
        lemma_thunks_from(
            bytes,
            sections,
            table_rva,
            iat_rva,
            image_base,
            pointer_bytes,
            index + 1,
        );
        let rest = thunks_from(
            bytes,
            sections,
            table_rva,
            iat_rva,
            image_base,
            pointer_bytes,
            index + 1,
        )->0;
        assert(list.len() == rest.len() + 1);
        assert forall|i: int| 0 <= i < list.len() implies {
            let pointer = table_pointer(bytes, sections, table_rva, index + i, pointer_bytes);
            &&& pointer is Some && pointer->0 != 0
            &&& thunk_symbol(bytes, sections, pointer->0, image_base, pointer_bytes) == Some(
                (#[trigger] list[i]).symbol,
            )
            &&& list[i].iat_rva == iat_rva + (index + i) * pointer_bytes
        } by {
            if i > 0 {
                assert(list[i] == rest[i - 1]);
                assert(index + 1 + (i - 1) == index + i);
            } else {
                assert(0 <= index * pointer_bytes) by (nonlinear_arith)
                    requires
                        index >= 0,
                        pointer_bytes > 0,
                ;
            }
        }
    }
}

/// The bytes of an import descriptor.
pub open spec fn import_descriptor_bytes(
    lookup: u32,
    time: u32,
    chain: u32,
    name: u32,
    slots: u32,
) -> Seq<u8> {
    bytes32(lookup) + bytes32(time) + bytes32(chain) + bytes32(name) + bytes32(slots)
}

/// The bytes of a delay-import descriptor.
pub open spec fn delay_descriptor_bytes(
    attributes: u32,
    name: u32,
    handle: u32,
    slots: u32,
    lookup: u32,
    bound: u32,
    unload: u32,
    time: u32,
) -> Seq<u8> {
    bytes32(attributes) + bytes32(name) + bytes32(handle) + bytes32(slots) + bytes32(lookup)
        + bytes32(bound) + bytes32(unload) + bytes32(time)
}

/// The library that a descriptor gives: its name is the text at `name`, its
/// thunks are those of the lookup table, or of the slots where there is none,
/// and fill the slots.
pub open spec fn is_library(
    library: ImportDescriptorModel,
    bytes: Seq<u8>,
    sections: Seq<PeSectionModel>,
    lookup: u32,
    name: u32,
    slots: u32,
    delay_load: bool,
    image_base: u64,
    pointer_bytes: int,
) -> bool {
    &&& c_string_at_rva(bytes, sections, name) == Some(library.dll_name)
    &&& library.delay_load == delay_load
    &&& thunks_from(
        bytes,
        sections,
        if lookup != 0 {
            lookup
        } else {
            slots
        },
        slots,
        image_base,
        pointer_bytes,
        0,
    ) == Some(library.imports)
}

/// An import descriptor is read as it was written: one that is all zeros in
/// what is read ends the table.
pub proof fn lemma_import_descriptor_reads_back(
    bytes: Seq<u8>,
    sections: Seq<PeSectionModel>,
    at: int,
    lookup: u32,
    time: u32,
    chain: u32,
    name: u32,
    slots: u32,
    delay_load: bool,
    image_base: u64,
    pointer_bytes: int,
)
    requires
        holds_at(bytes, at, import_descriptor_bytes(lookup, time, chain, name, slots)),
    ensures
        ({
            let read = import_descriptor_at(
                bytes,
                sections,
                at,
                delay_load,
                image_base,
                pointer_bytes,
            );
            &&& lookup == 0 && name == 0 && slots == 0 <==> read == Some(
                None::<ImportDescriptorModel>,
            )
            &&& lookup != 0 || name != 0 || slots != 0 ==> (read is Some <==> c_string_at_rva(
                bytes,
                sections,
                name,
            ) is Some && thunks_from(
                bytes,
                sections,
                if lookup != 0 {
                    lookup
                } else {
                    slots
                },
                slots,
                image_base,
                pointer_bytes,
                0,
            ) is Some)
            &&& read matches Some(Some(library)) ==> is_library(
                library,
                bytes,
                sections,
                lookup,
                name,
                slots,
                delay_load,
                image_base,
                pointer_bytes,
            )
        }),
{
    let a = bytes32(lookup);
    let b = a + bytes32(time);
    let c = b + bytes32(chain);
    let d = c + bytes32(name);
    lemma_holds_both(bytes, at, d, bytes32(slots));
    lemma_holds_both(bytes, at, c, bytes32(name));
    lemma_holds_both(bytes, at, b, bytes32(chain));
    lemma_holds_both(bytes, at, a, bytes32(time));
    lemma_held32(bytes, at, lookup);
    lemma_held32(bytes, at + 12, name);
    lemma_held32(bytes, at + 16, slots);
}

/// A delay-import descriptor is read as it was written.
pub proof fn lemma_delay_descriptor_reads_back(
    bytes: Seq<u8>,
    sections: Seq<PeSectionModel>,
    at: int,
    attributes: u32,
    name: u32,
    handle: u32,
    slots: u32,
    lookup: u32,
    bound: u32,
    unload: u32,
    time: u32,
    image_base: u64,
    pointer_bytes: int,
)
    requires
        holds_at(
            bytes,
            at,
            delay_descriptor_bytes(attributes, name, handle, slots, lookup, bound, unload, time),
        ),
    ensures
        ({
            let read = delay_descriptor_at(bytes, sections, at, image_base, pointer_bytes);
            &&& lookup == 0 && name == 0 && slots == 0 <==> read == Some(
                None::<ImportDescriptorModel>,
            )
            &&& lookup != 0 || name != 0 || slots != 0 ==> (read is Some <==> c_string_at_rva(
                bytes,
                sections,
                name,
            ) is Some && thunks_from(
                bytes,
                sections,
                if lookup != 0 {
                    lookup
                } else {
                    slots
                },
                slots,
                image_base,
                pointer_bytes,
                0,
            ) is Some)
            &&& read matches Some(Some(library)) ==> is_library(
                library,
                bytes,
                sections,
                lookup,
                name,
                slots,
                true,
                image_base,
                pointer_bytes,
            )
        }),
{
    let a = bytes32(attributes);
    let b = a + bytes32(name);
    let c = b + bytes32(handle);
    let d = c + bytes32(slots);
    let e = d + bytes32(lookup);
    let f = e + bytes32(bound);
    let g = f + bytes32(unload);
    lemma_holds_both(bytes, at, g, bytes32(time));
    lemma_holds_both(bytes, at, f, bytes32(unload));
    lemma_holds_both(bytes, at, e, bytes32(bound));
    lemma_holds_both(bytes, at, d, bytes32(lookup));
    lemma_holds_both(bytes, at, c, bytes32(slots));
    lemma_holds_both(bytes, at, b, bytes32(handle));
    lemma_holds_both(bytes, at, a, bytes32(name));
    lemma_held32(bytes, at + 4, name);
    lemma_held32(bytes, at + 12, slots);
    lemma_held32(bytes, at + 16, lookup);
}

/// How far apart the descriptors of a table are written.
pub open spec fn descriptor_size(table: DescriptorTable) -> int {
    if table is DelayImport {
        32
    } else {
        20
    }
}

/// Descriptor number `index` of a table that begins at `start`.
#[verifier::opaque]
pub open spec fn descriptor_number(
    table: DescriptorTable,
    bytes: Seq<u8>,
    sections: Seq<PeSectionModel>,
    start: int,
    image_base: u64,
    pointer_bytes: int,
    index: int,
) -> Option<Option<ImportDescriptorModel>> {
    table.at(bytes, sections, start + index * descriptor_size(table), image_base, pointer_bytes)
}

/// The descriptors of a table are read in their order, one behind the other, up
/// to the empty one or up to the end of the table.
pub proof fn lemma_descriptors_in_order(
    table: DescriptorTable,
    bytes: Seq<u8>,
    sections: Seq<PeSectionModel>,
    start: int,
    size: int,
    image_base: u64,
    pointer_bytes: int,
    list: Seq<ImportDescriptorModel>,
)
    requires
        list.len() < DESCRIPTOR_LIMIT,
        list.len() * descriptor_size(table) <= size,
        forall|i: int|
            0 <= i < list.len() ==> #[trigger] descriptor_number(
                table,
                bytes,
                sections,
                start,
                image_base,
                pointer_bytes,
                i,
            ) == Some(Some(list[i])),
        (list.len() + 1) * descriptor_size(table) > size || descriptor_number(
            table,
            bytes,
            sections,
            start,
            image_base,
            pointer_bytes,
            list.len() as int,
        ) == Some(None::<ImportDescriptorModel>),
    ensures
        table.from(bytes, sections, start, size, image_base, pointer_bytes, 0) == Some(list),
{
    lemma_descriptors_from(
        table,
        bytes,
        sections,
        start,
        size,
        image_base,
        pointer_bytes,
        list,
        0,
    );
    assert(list.skip(0) =~= list);
}

#[verifier::spinoff_prover]
#[verifier::rlimit(50)]
proof fn lemma_descriptor_step(
    table: DescriptorTable,
    bytes: Seq<u8>,
    sections: Seq<PeSectionModel>,
    start: int,
    size: int,
    image_base: u64,
    pointer_bytes: int,
    index: int,
)
    requires
        0 <= index < DESCRIPTOR_LIMIT,
    ensures
        (index + 1) * descriptor_size(table) > size ==> table.from(
            bytes,
            sections,
            start,
            size,
            image_base,
            pointer_bytes,
            index,
        ) == Some(Seq::<ImportDescriptorModel>::empty()),
        (index + 1) * descriptor_size(table) <= size ==> table.from(
            bytes,
            sections,
            start,
            size,
            image_base,
            pointer_bytes,
            index,
        ) == (match descriptor_number(
            table,
            bytes,
            sections,
            start,
            image_base,
            pointer_bytes,
            index,
        ) {
            None => None,
            Some(None) => Some(Seq::empty()),
            Some(Some(descriptor)) => prepended(
                seq![descriptor],
                table.from(bytes, sections, start, size, image_base, pointer_bytes, index + 1),
            ),
        }),
{
    reveal(descriptor_number);
    assert(table.stride() == descriptor_size(table));
}

#[verifier::spinoff_prover]
#[verifier::rlimit(50)]
proof fn lemma_descriptors_from(
    table: DescriptorTable,
    bytes: Seq<u8>,
    sections: Seq<PeSectionModel>,
    start: int,
    size: int,
    image_base: u64,
    pointer_bytes: int,
    list: Seq<ImportDescriptorModel>,
    index: int,
)
    requires
        0 <= index <= list.len(),
        list.len() < DESCRIPTOR_LIMIT,
        list.len() * descriptor_size(table) <= size,
        forall|i: int|
            0 <= i < list.len() ==> #[trigger] descriptor_number(
                table,
                bytes,
                sections,
                start,
                image_base,
                pointer_bytes,
                i,
            ) == Some(Some(list[i])),
        (list.len() + 1) * descriptor_size(table) > size || descriptor_number(
            table,
            bytes,
            sections,
            start,
            image_base,
            pointer_bytes,
            list.len() as int,
        ) == Some(None::<ImportDescriptorModel>),
    ensures
        table.from(bytes, sections, start, size, image_base, pointer_bytes, index) == Some(
            list.skip(index),
        ),
    decreases list.len() - index,
{
    lemma_descriptor_step(
        table,
        bytes,
        sections,
        start,
        size,
        image_base,
        pointer_bytes,
        index,
    );
    if index < list.len() {
        assert((index + 1) * descriptor_size(table) <= list.len() * descriptor_size(table))
            by (nonlinear_arith)
            requires
                index + 1 <= list.len(),
                descriptor_size(table) > 0,
        ;
        lemma_descriptors_from(
            table,
            bytes,
            sections,
            start,
            size,
            image_base,
            pointer_bytes,
            list,
            index + 1,
        );
        assert(seq![list[index]] + list.skip(index + 1) =~= list.skip(index));
    } else {
        assert(list.skip(index) =~= Seq::<ImportDescriptorModel>::empty());
    }
}

/// A number that was written as the first element of a table is read from there,
/// in two, four or eight bytes, and as a pointer of four or of eight.
pub proof fn lemma_table_reads_back(
    bytes: Seq<u8>,
    sections: Seq<PeSectionModel>,
    section: int,
    rva: u32,
    at: int,
    narrow: u16,
    middle: u32,
    wide: u64,
)
    ensures
        placed(sections, section, rva as int, 2, at) && holds_at(bytes, at, bytes16(narrow))
            ==> table_u16(bytes, sections, rva, 0) == Some(narrow),
        placed(sections, section, rva as int, 4, at) && holds_at(bytes, at, bytes32(middle))
            ==> table_u32(bytes, sections, rva, 0) == Some(middle) && table_pointer(
            bytes,
            sections,
            rva,
            0,
            4,
        ) == Some(middle as u64),
        placed(sections, section, rva as int, 8, at) && holds_at(bytes, at, bytes64(wide))
            ==> table_u64(bytes, sections, rva, 0) == Some(wide) && table_pointer(
            bytes,
            sections,
            rva,
            0,
            8,
        ) == Some(wide),
        table_pointer(bytes, sections, rva, 0, 2) is None,
{
    assert(0 * 2 == 0 && 0 * 4 == 0 && 0 * 8 == 0);
    if placed(sections, section, rva as int, 2, at) && holds_at(bytes, at, bytes16(narrow)) {
        lemma_placed(sections, section, rva as int, 2, at);
        lemma_held16(bytes, at, narrow);
    }
    if placed(sections, section, rva as int, 4, at) && holds_at(bytes, at, bytes32(middle)) {
        lemma_placed(sections, section, rva as int, 4, at);
        lemma_held32(bytes, at, middle);
    }
    if placed(sections, section, rva as int, 8, at) && holds_at(bytes, at, bytes64(wide)) {
        lemma_placed(sections, section, rva as int, 8, at);
        lemma_held64(bytes, at, wide);
    }
}

} // verus!
