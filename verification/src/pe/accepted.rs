//! What is written as it should be is accepted: the tables and directories of an
//! image whose elements can be read are read whole.
use crate::bytes::{in_range, u32_at};
use crate::pe::directories::{
    callbacks_from, clr_header, clr_header_at, config_at, config_extent, debug_entries, debug_entry,
    load_config, tls_at, tls_directory,
};
use crate::pe::exports::{last_name, ExportTables};
use crate::pe::headers::{section_at, sections_from, Headers};
use crate::pe::imports::{thunk_symbol, thunks_from};
use crate::pe::resources::{marked, ResourceNameModel, Tree, TreeEntry};
use crate::pe::rva::{covering, file_offset, table_pointer};
use crate::pe::types::{
    DataDirectory, ExportSymbolModel, ImportThunkModel, PeSectionModel, TlsDirectoryModel,
};
use crate::text::lower;
use crate::utf16::{encoded, lemma_decoded_encoded, lemma_lossy_agrees};
use vstd::prelude::*;

verus! {

/// Pointer `i` of the table leads to the symbol of `thunk`, which fills slot `i`.
pub open spec fn leads_to(
    bytes: Seq<u8>,
    sections: Seq<PeSectionModel>,
    table_rva: u32,
    iat_rva: u32,
    image_base: u64,
    pointer_bytes: int,
    i: int,
    thunk: ImportThunkModel,
) -> bool {
    &&& table_pointer(bytes, sections, table_rva, i, pointer_bytes) matches Some(pointer)
    &&& pointer != 0
    &&& thunk_symbol(bytes, sections, pointer, image_base, pointer_bytes) == Some(thunk.symbol)
    &&& thunk.iat_rva == iat_rva + i * pointer_bytes
}

/// Up to 8192 pointers that lead to symbols, with a zero behind them, are the
/// thunks of a table.
pub proof fn lemma_thunks_accepted(
    bytes: Seq<u8>,
    sections: Seq<PeSectionModel>,
    table_rva: u32,
    iat_rva: u32,
    image_base: u64,
    pointer_bytes: int,
    list: Seq<ImportThunkModel>,
)
    requires
        list.len() <= 8192,
        forall|i: int|
            0 <= i < list.len() ==> leads_to(
                bytes,
                sections,
                table_rva,
                iat_rva,
                image_base,
                pointer_bytes,
                i,
                #[trigger] list[i],
            ),
        table_pointer(bytes, sections, table_rva, list.len() as int, pointer_bytes) == Some(0u64),
    ensures
        thunks_from(bytes, sections, table_rva, iat_rva, image_base, pointer_bytes, 0) == Some(
            list,
        ),
{
    lemma_thunks_accepted_from(
        bytes,
        sections,
        table_rva,
        iat_rva,
        image_base,
        pointer_bytes,
        list,
        0,
    );
    assert(list.skip(0) =~= list);
}

#[verifier::spinoff_prover]
#[verifier::rlimit(50)]
proof fn lemma_thunks_accepted_from(
    bytes: Seq<u8>,
    sections: Seq<PeSectionModel>,
    table_rva: u32,
    iat_rva: u32,
    image_base: u64,
    pointer_bytes: int,
    list: Seq<ImportThunkModel>,
    index: int,
)
    requires
        0 <= index <= list.len() <= 8192,
        forall|i: int|
            0 <= i < list.len() ==> leads_to(
                bytes,
                sections,
                table_rva,
                iat_rva,
                image_base,
                pointer_bytes,
                i,
                #[trigger] list[i],
            ),
        table_pointer(bytes, sections, table_rva, list.len() as int, pointer_bytes) == Some(0u64),
    ensures
        thunks_from(bytes, sections, table_rva, iat_rva, image_base, pointer_bytes, index) == Some(
            list.skip(index),
        ),
    decreases list.len() - index,
{
    if index < list.len() {
        lemma_thunks_accepted_from(
            bytes,
            sections,
            table_rva,
            iat_rva,
            image_base,
            pointer_bytes,
            list,
            index + 1,
        );
        let thunk = list[index];
        assert(leads_to(
            bytes,
            sections,
            table_rva,
            iat_rva,
            image_base,
            pointer_bytes,
            index,
            thunk,
        ));
        let made = ImportThunkModel {
            symbol: thunk.symbol,
            iat_rva: (iat_rva + index * pointer_bytes) as u32,
        };
        assert(made == thunk);
        assert(seq![thunk] + list.skip(index + 1) =~= list.skip(index));
    } else {
        assert(list.skip(index) =~= Seq::<ImportThunkModel>::empty());
    }
}

/// Up to 256 addresses with a zero behind them are the callbacks.
pub proof fn lemma_callbacks_accepted(
    bytes: Seq<u8>,
    sections: Seq<PeSectionModel>,
    rva: u32,
    pointer_bytes: int,
    list: Seq<u64>,
)
    requires
        list.len() <= 256,
        forall|i: int|
            0 <= i < list.len() ==> #[trigger] list[i] != 0 && table_pointer(
                bytes,
                sections,
                rva,
                i,
                pointer_bytes,
            ) == Some(list[i]),
        table_pointer(bytes, sections, rva, list.len() as int, pointer_bytes) == Some(0u64),
    ensures
        callbacks_from(bytes, sections, rva, pointer_bytes, 0) == Some(list),
{
    lemma_callbacks_accepted_from(bytes, sections, rva, pointer_bytes, list, 0);
    assert(list.skip(0) =~= list);
}

proof fn lemma_callbacks_accepted_from(
    bytes: Seq<u8>,
    sections: Seq<PeSectionModel>,
    rva: u32,
    pointer_bytes: int,
    list: Seq<u64>,
    index: int,
)
    requires
        0 <= index <= list.len() <= 256,
        forall|i: int|
            0 <= i < list.len() ==> #[trigger] list[i] != 0 && table_pointer(
                bytes,
                sections,
                rva,
                i,
                pointer_bytes,
            ) == Some(list[i]),
        table_pointer(bytes, sections, rva, list.len() as int, pointer_bytes) == Some(0u64),
    ensures
        callbacks_from(bytes, sections, rva, pointer_bytes, index) == Some(list.skip(index)),
    decreases list.len() - index,
{
    if index < list.len() {
        lemma_callbacks_accepted_from(bytes, sections, rva, pointer_bytes, list, index + 1);
        assert(list[index] != 0);
        assert(seq![list[index]] + list.skip(index + 1) =~= list.skip(index));
    } else {
        assert(list.skip(index) =~= Seq::<u64>::empty());
    }
}

/// Where every section header can be read, all sections are.
pub proof fn lemma_sections_accepted(bytes: Seq<u8>, head: Headers, list: Seq<PeSectionModel>)
    requires
        list.len() == head.number_of_sections,
        forall|i: int|
            0 <= i < list.len() ==> section_at(bytes, head.section_table + 40 * i, head) == Some(
                #[trigger] list[i],
            ),
    ensures
        sections_from(bytes, head, 0) == Some(list),
{
    lemma_sections_accepted_from(bytes, head, list, 0);
    assert(list.skip(0) =~= list);
}

proof fn lemma_sections_accepted_from(
    bytes: Seq<u8>,
    head: Headers,
    list: Seq<PeSectionModel>,
    index: int,
)
    requires
        list.len() == head.number_of_sections,
        0 <= index <= list.len(),
        forall|i: int|
            0 <= i < list.len() ==> section_at(bytes, head.section_table + 40 * i, head) == Some(
                #[trigger] list[i],
            ),
    ensures
        sections_from(bytes, head, index) == Some(list.skip(index)),
    decreases list.len() - index,
{
    if index < list.len() {
        lemma_sections_accepted_from(bytes, head, list, index + 1);
        assert(section_at(bytes, head.section_table + 40 * index, head) == Some(list[index]));
        assert(index * 40 == 40 * index);
        assert(seq![list[index]] + list.skip(index + 1) =~= list.skip(index));
    } else {
        assert(list.skip(index) =~= Seq::<PeSectionModel>::empty());
    }
}

/// Where every name and every target of an export table can be read, and the
/// ordinals fit, all names and all exports are.
pub proof fn lemma_exports_accepted(
    tables: ExportTables,
    names: Seq<(u16, Seq<char>)>,
    list: Seq<ExportSymbolModel>,
)
    requires
        names.len() == tables.name_count,
        list.len() == tables.function_count,
        forall|i: int| 0 <= i < names.len() ==> tables.named(i) == Some(#[trigger] names[i]),
        forall|i: int|
            0 <= i < list.len() ==> {
                &&& (#[trigger] list[i]).ordinal == tables.ordinal_base + i
                &&& list[i].name == last_name(names, i)
                &&& tables.target(i) == Some(list[i].target)
            },
    ensures
        tables.names_from(0) == Some(names),
        tables.exports_from(names, 0) == Some(list),
{
    lemma_names_accepted_from(tables, names, 0);
    lemma_exports_accepted_from(tables, names, list, 0);
    assert(names.skip(0) =~= names);
    assert(list.skip(0) =~= list);
}

proof fn lemma_names_accepted_from(
    tables: ExportTables,
    names: Seq<(u16, Seq<char>)>,
    index: int,
)
    requires
        names.len() == tables.name_count,
        0 <= index <= names.len(),
        forall|i: int| 0 <= i < names.len() ==> tables.named(i) == Some(#[trigger] names[i]),
    ensures
        tables.names_from(index) == Some(names.skip(index)),
    decreases names.len() - index,
{
    if index < names.len() {
        lemma_names_accepted_from(tables, names, index + 1);
        assert(tables.named(index) == Some(names[index]));
        assert(seq![names[index]] + names.skip(index + 1) =~= names.skip(index));
    } else {
        assert(names.skip(index) =~= Seq::<(u16, Seq<char>)>::empty());
    }
}

proof fn lemma_exports_accepted_from(
    tables: ExportTables,
    names: Seq<(u16, Seq<char>)>,
    list: Seq<ExportSymbolModel>,
    index: int,
)
    requires
        list.len() == tables.function_count,
        0 <= index <= list.len(),
        forall|i: int|
            0 <= i < list.len() ==> {
                &&& (#[trigger] list[i]).ordinal == tables.ordinal_base + i
                &&& list[i].name == last_name(names, i)
                &&& tables.target(i) == Some(list[i].target)
            },
    ensures
        tables.exports_from(names, index) == Some(list.skip(index)),
    decreases list.len() - index,
{
    if index < list.len() {
        lemma_exports_accepted_from(tables, names, list, index + 1);
        let export = list[index];
        assert(export.ordinal == tables.ordinal_base + index);
        assert((ExportSymbolModel {
            ordinal: (tables.ordinal_base + index) as u32,
            name: last_name(names, index),
            target: export.target,
        }) == export);
        assert(seq![export] + list.skip(index + 1) =~= list.skip(index));
    } else {
        assert(list.skip(index) =~= Seq::<ExportSymbolModel>::empty());
    }
}

/// A CLR header of 72 bytes or more that fits into its directory is read; there
/// is none where the directory or the header itself is too small.
pub proof fn lemma_clr_header_accepted(
    bytes: Seq<u8>,
    sections: Seq<PeSectionModel>,
    directory: DataDirectory,
    at: int,
    stated: u32,
)
    requires
        directory.virtual_address != 0,
        file_offset(directory.virtual_address, 72, sections, 0) == Some(at),
        in_range(bytes, at, 72),
        u32_at(bytes, at) == Some(stated),
    ensures
        72 <= stated <= directory.size ==> clr_header(bytes, sections, directory) == Some(
            Some(clr_header_at(bytes, at)),
        ),
        stated < 72 || stated > directory.size || directory.size < 72 ==> (clr_header(
            bytes,
            sections,
            directory,
        ) matches Some(found) && found is None),
{
}

/// The debug entries are those that the directory holds whole, in their order.
pub proof fn lemma_debug_entries_accepted(
    bytes: Seq<u8>,
    sections: Seq<PeSectionModel>,
    directory: DataDirectory,
    headers: u32,
    at: int,
)
    requires
        directory.virtual_address != 0,
        directory.size != 0,
        file_offset(directory.virtual_address, directory.size, sections, headers) == Some(at),
        in_range(bytes, at, directory.size as int),
    ensures
        debug_entries(bytes, sections, directory, headers) matches Some(list) && 28 * list.len()
            <= directory.size < 28 * (list.len() + 1) && forall|i: int|
            0 <= i < list.len() ==> #[trigger] list[i] == debug_entry(bytes, at + 28 * i),
{
    let count = directory.size as int / 28;
    let list = debug_entries(bytes, sections, directory, headers)->0;
    assert(list.len() == count);
    assert forall|i: int| 0 <= i < list.len() implies #[trigger] list[i] == debug_entry(
        bytes,
        at + 28 * i,
    ) by {
        assert(i * 28 == 28 * i);
    }
}

/// A directory for thread local storage that the file holds, 40 bytes in a wide
/// image and 24 in a narrow one, is read; one that is not there is none.
pub proof fn lemma_tls_accepted(
    bytes: Seq<u8>,
    sections: Seq<PeSectionModel>,
    directory: DataDirectory,
    image_base: u64,
    pointer_bytes: int,
    at: int,
    tls: TlsDirectoryModel,
)
    requires
        pointer_bytes == 4 || pointer_bytes == 8,
        file_offset(
            directory.virtual_address,
            (if pointer_bytes == 8 {
                40u32
            } else {
                24u32
            }),
            sections,
            0,
        ) == Some(at),
        in_range(
            bytes,
            at,
            if pointer_bytes == 8 {
                40
            } else {
                24
            },
        ),
        tls_at(bytes, sections, at, image_base, pointer_bytes) == Some(tls),
    ensures
        directory.virtual_address != 0 && directory.size != 0 ==> tls_directory(
            bytes,
            sections,
            directory,
            image_base,
            pointer_bytes,
        ) == Some(Some(tls)),
        directory.virtual_address == 0 || directory.size == 0 ==> (tls_directory(
            bytes,
            sections,
            directory,
            image_base,
            pointer_bytes,
        ) matches Some(found) && found is None),
{
}

/// A load configuration is read as far as it reaches.
pub proof fn lemma_load_config_accepted(
    bytes: Seq<u8>,
    sections: Seq<PeSectionModel>,
    directory: DataDirectory,
    pointer_bytes: int,
    at: int,
    stated: u32,
    section: PeSectionModel,
)
    requires
        directory.virtual_address != 0,
        directory.size != 0,
        file_offset(directory.virtual_address, 4, sections, 0) == Some(at),
        u32_at(bytes, at) == Some(stated),
        covering(sections, directory.virtual_address, 1, false) == Some(section),
    ensures
        ({
            let extent = config_extent(
                section,
                directory.virtual_address,
                stated,
                directory.size,
            );
            match config_at(bytes, at, extent, pointer_bytes) {
                Some(config) => load_config(bytes, sections, directory, pointer_bytes) == Some(
                    Some(config),
                ),
                None => load_config(bytes, sections, directory, pointer_bytes) is None,
            }
        }),
{
}

/// An entry with a name is asked for by that name, in whatever case, and by no
/// number.
pub proof fn lemma_named_entry(
    tree: Tree,
    entry: TreeEntry,
    rva: u32,
    text: Seq<char>,
    wanted: Seq<char>,
    id: u32,
)
    requires
        marked(entry.name),
        tree.address(entry.name) == Some(rva),
        tree.section_rva <= rva,
        tree.units_from(rva - tree.section_rva, 0) == Some(encoded(text)),
    ensures
        tree.named(entry, ResourceNameModel::Str(wanted)) == Some(lower(text) == lower(wanted)),
        tree.named(entry, ResourceNameModel::Id(id)) == Some(false),
{
    lemma_decoded_encoded(text);
    lemma_lossy_agrees(encoded(text));
}

} // verus!
