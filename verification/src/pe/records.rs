//! How the fixed records of an image are written, field by field in their order
//! in the file, and that each field is read as it was written.
use crate::bytes::{
    bytes16, bytes32, bytes64, holds_at, in_range, lemma_held16, lemma_held16_first, lemma_held32,
    lemma_held32_first, lemma_held64_first, lemma_holds_both, u16_at, u32_at, u64_at,
};
use crate::pe::bound::{bound_imports, BoundTable};
use crate::pe::directories::{
    callbacks_at, callbacks_from, clr_header, clr_header_at, config_at, debug_entries, debug_entry,
    directory_at, load_config, tls_at, tls_directory, CALLBACK_LIMIT,
};
use crate::pe::exports::{exports, tables_at};
use crate::pe::headers::{
    aligned_up, before_zero, directory_table, headers, image, section_at, sections_from, Headers,
};
use crate::pe::imports::DescriptorTable;
use crate::pe::relocations::{blocks_from, relocation_block, relocation_entry, relocations};
use crate::pe::manifest::embedded_manifest;
use crate::pe::rva::{c_string_at_rva, table_pointer};
use crate::pe::types::{DataDirectory, PeSectionModel, RelocationType};
use crate::pe::version::image_version;
use vstd::prelude::*;
use vstd::utf8::encode_utf8;

verus! {

// ---------------------------------------------------------------------------
// Headers
// ---------------------------------------------------------------------------

/// The file header.
pub struct FileHeader {
    pub machine: u16,
    pub number_of_sections: u16,
    pub time_date_stamp: u32,
    pub symbol_table: u32,
    pub symbol_count: u32,
    pub optional_size: u16,
    pub characteristics: u16,
}

/// The bytes of the file header.
pub open spec fn file_header_bytes(record: FileHeader) -> Seq<u8> {
    bytes16(record.machine) + (bytes16(record.number_of_sections) + (bytes32(record.time_date_stamp) + (bytes32(record.symbol_table) + (bytes32(record.symbol_count) + (bytes16(record.optional_size) + (bytes16(record.characteristics)))))))
}

#[verifier::spinoff_prover]
proof fn lemma_file_header(bytes: Seq<u8>, at: int, record: FileHeader)
    requires
        holds_at(bytes, at, file_header_bytes(record)),
    ensures
        u16_at(bytes, at) == Some(record.machine),
        u16_at(bytes, at + 2) == Some(record.number_of_sections),
        u32_at(bytes, at + 4) == Some(record.time_date_stamp),
        u32_at(bytes, at + 8) == Some(record.symbol_table),
        u32_at(bytes, at + 12) == Some(record.symbol_count),
        u16_at(bytes, at + 16) == Some(record.optional_size),
        u16_at(bytes, at + 18) == Some(record.characteristics),
{
    let r6 = bytes16(record.characteristics);
    let r5 = bytes16(record.optional_size) + r6;
    let r4 = bytes32(record.symbol_count) + r5;
    let r3 = bytes32(record.symbol_table) + r4;
    let r2 = bytes32(record.time_date_stamp) + r3;
    let r1 = bytes16(record.number_of_sections) + r2;
    lemma_held16_first(bytes, at, record.machine, r1);
    lemma_held16_first(bytes, at + 2, record.number_of_sections, r2);
    lemma_held32_first(bytes, at + 4, record.time_date_stamp, r3);
    lemma_held32_first(bytes, at + 8, record.symbol_table, r4);
    lemma_held32_first(bytes, at + 12, record.symbol_count, r5);
    lemma_held16_first(bytes, at + 16, record.optional_size, r6);
    lemma_held16(bytes, at + 18, record.characteristics);
}

/// The optional header of a 64-bit image, up to its directories.
pub struct WideHeader {
    pub magic: u16,
    pub linker_version: u16,
    pub size_of_code: u32,
    pub size_of_data: u32,
    pub size_of_bss: u32,
    pub entry_point: u32,
    pub base_of_code: u32,
    pub image_base: u64,
    pub section_alignment: u32,
    pub file_alignment: u32,
    pub system_version: u32,
    pub image_version: u32,
    pub subsystem_version: u32,
    pub reserved: u32,
    pub size_of_image: u32,
    pub size_of_headers: u32,
    pub checksum: u32,
    pub subsystem: u16,
    pub dll_characteristics: u16,
    pub stack_reserve: u64,
    pub stack_commit: u64,
    pub heap_reserve: u64,
    pub heap_commit: u64,
    pub loader_flags: u32,
    pub directory_count: u32,
}

/// The bytes of the optional header of a 64-bit image.
pub open spec fn wide_header_bytes(record: WideHeader) -> Seq<u8> {
    bytes16(record.magic) + (bytes16(record.linker_version) + (bytes32(record.size_of_code) + (bytes32(record.size_of_data) + (bytes32(record.size_of_bss) + (bytes32(record.entry_point) + (bytes32(record.base_of_code) + (bytes64(record.image_base) + (bytes32(record.section_alignment) + (bytes32(record.file_alignment) + (bytes32(record.system_version) + (bytes32(record.image_version) + (bytes32(record.subsystem_version) + (bytes32(record.reserved) + (bytes32(record.size_of_image) + (bytes32(record.size_of_headers) + (bytes32(record.checksum) + (bytes16(record.subsystem) + (bytes16(record.dll_characteristics) + (bytes64(record.stack_reserve) + (bytes64(record.stack_commit) + (bytes64(record.heap_reserve) + (bytes64(record.heap_commit) + (bytes32(record.loader_flags) + (bytes32(record.directory_count)))))))))))))))))))))))))
}

#[verifier::spinoff_prover]
proof fn lemma_wide_header(bytes: Seq<u8>, at: int, record: WideHeader)
    requires
        holds_at(bytes, at, wide_header_bytes(record)),
    ensures
        u16_at(bytes, at) == Some(record.magic),
        u16_at(bytes, at + 2) == Some(record.linker_version),
        u32_at(bytes, at + 4) == Some(record.size_of_code),
        u32_at(bytes, at + 8) == Some(record.size_of_data),
        u32_at(bytes, at + 12) == Some(record.size_of_bss),
        u32_at(bytes, at + 16) == Some(record.entry_point),
        u32_at(bytes, at + 20) == Some(record.base_of_code),
        u64_at(bytes, at + 24) == Some(record.image_base),
        u32_at(bytes, at + 32) == Some(record.section_alignment),
        u32_at(bytes, at + 36) == Some(record.file_alignment),
        u32_at(bytes, at + 40) == Some(record.system_version),
        u32_at(bytes, at + 44) == Some(record.image_version),
        u32_at(bytes, at + 48) == Some(record.subsystem_version),
        u32_at(bytes, at + 52) == Some(record.reserved),
        u32_at(bytes, at + 56) == Some(record.size_of_image),
        u32_at(bytes, at + 60) == Some(record.size_of_headers),
        u32_at(bytes, at + 64) == Some(record.checksum),
        u16_at(bytes, at + 68) == Some(record.subsystem),
        u16_at(bytes, at + 70) == Some(record.dll_characteristics),
        u64_at(bytes, at + 72) == Some(record.stack_reserve),
        u64_at(bytes, at + 80) == Some(record.stack_commit),
        u64_at(bytes, at + 88) == Some(record.heap_reserve),
        u64_at(bytes, at + 96) == Some(record.heap_commit),
        u32_at(bytes, at + 104) == Some(record.loader_flags),
        u32_at(bytes, at + 108) == Some(record.directory_count),
{
    let r24 = bytes32(record.directory_count);
    let r23 = bytes32(record.loader_flags) + r24;
    let r22 = bytes64(record.heap_commit) + r23;
    let r21 = bytes64(record.heap_reserve) + r22;
    let r20 = bytes64(record.stack_commit) + r21;
    let r19 = bytes64(record.stack_reserve) + r20;
    let r18 = bytes16(record.dll_characteristics) + r19;
    let r17 = bytes16(record.subsystem) + r18;
    let r16 = bytes32(record.checksum) + r17;
    let r15 = bytes32(record.size_of_headers) + r16;
    let r14 = bytes32(record.size_of_image) + r15;
    let r13 = bytes32(record.reserved) + r14;
    let r12 = bytes32(record.subsystem_version) + r13;
    let r11 = bytes32(record.image_version) + r12;
    let r10 = bytes32(record.system_version) + r11;
    let r9 = bytes32(record.file_alignment) + r10;
    let r8 = bytes32(record.section_alignment) + r9;
    let r7 = bytes64(record.image_base) + r8;
    let r6 = bytes32(record.base_of_code) + r7;
    let r5 = bytes32(record.entry_point) + r6;
    let r4 = bytes32(record.size_of_bss) + r5;
    let r3 = bytes32(record.size_of_data) + r4;
    let r2 = bytes32(record.size_of_code) + r3;
    let r1 = bytes16(record.linker_version) + r2;
    lemma_held16_first(bytes, at, record.magic, r1);
    lemma_held16_first(bytes, at + 2, record.linker_version, r2);
    lemma_held32_first(bytes, at + 4, record.size_of_code, r3);
    lemma_held32_first(bytes, at + 8, record.size_of_data, r4);
    lemma_held32_first(bytes, at + 12, record.size_of_bss, r5);
    lemma_held32_first(bytes, at + 16, record.entry_point, r6);
    lemma_held32_first(bytes, at + 20, record.base_of_code, r7);
    lemma_held64_first(bytes, at + 24, record.image_base, r8);
    lemma_held32_first(bytes, at + 32, record.section_alignment, r9);
    lemma_held32_first(bytes, at + 36, record.file_alignment, r10);
    lemma_held32_first(bytes, at + 40, record.system_version, r11);
    lemma_held32_first(bytes, at + 44, record.image_version, r12);
    lemma_held32_first(bytes, at + 48, record.subsystem_version, r13);
    lemma_held32_first(bytes, at + 52, record.reserved, r14);
    lemma_held32_first(bytes, at + 56, record.size_of_image, r15);
    lemma_held32_first(bytes, at + 60, record.size_of_headers, r16);
    lemma_held32_first(bytes, at + 64, record.checksum, r17);
    lemma_held16_first(bytes, at + 68, record.subsystem, r18);
    lemma_held16_first(bytes, at + 70, record.dll_characteristics, r19);
    lemma_held64_first(bytes, at + 72, record.stack_reserve, r20);
    lemma_held64_first(bytes, at + 80, record.stack_commit, r21);
    lemma_held64_first(bytes, at + 88, record.heap_reserve, r22);
    lemma_held64_first(bytes, at + 96, record.heap_commit, r23);
    lemma_held32_first(bytes, at + 104, record.loader_flags, r24);
    lemma_held32(bytes, at + 108, record.directory_count);
}

/// The optional header of a 32-bit image, up to its directories.
pub struct NarrowHeader {
    pub magic: u16,
    pub linker_version: u16,
    pub size_of_code: u32,
    pub size_of_data: u32,
    pub size_of_bss: u32,
    pub entry_point: u32,
    pub base_of_code: u32,
    pub base_of_data: u32,
    pub image_base: u32,
    pub section_alignment: u32,
    pub file_alignment: u32,
    pub system_version: u32,
    pub image_version: u32,
    pub subsystem_version: u32,
    pub reserved: u32,
    pub size_of_image: u32,
    pub size_of_headers: u32,
    pub checksum: u32,
    pub subsystem: u16,
    pub dll_characteristics: u16,
    pub stack_reserve: u32,
    pub stack_commit: u32,
    pub heap_reserve: u32,
    pub heap_commit: u32,
    pub loader_flags: u32,
    pub directory_count: u32,
}

/// The bytes of the optional header of a 32-bit image.
pub open spec fn narrow_header_bytes(record: NarrowHeader) -> Seq<u8> {
    bytes16(record.magic) + (bytes16(record.linker_version) + (bytes32(record.size_of_code) + (bytes32(record.size_of_data) + (bytes32(record.size_of_bss) + (bytes32(record.entry_point) + (bytes32(record.base_of_code) + (bytes32(record.base_of_data) + (bytes32(record.image_base) + (bytes32(record.section_alignment) + (bytes32(record.file_alignment) + (bytes32(record.system_version) + (bytes32(record.image_version) + (bytes32(record.subsystem_version) + (bytes32(record.reserved) + (bytes32(record.size_of_image) + (bytes32(record.size_of_headers) + (bytes32(record.checksum) + (bytes16(record.subsystem) + (bytes16(record.dll_characteristics) + (bytes32(record.stack_reserve) + (bytes32(record.stack_commit) + (bytes32(record.heap_reserve) + (bytes32(record.heap_commit) + (bytes32(record.loader_flags) + (bytes32(record.directory_count))))))))))))))))))))))))))
}

#[verifier::spinoff_prover]
proof fn lemma_narrow_header(bytes: Seq<u8>, at: int, record: NarrowHeader)
    requires
        holds_at(bytes, at, narrow_header_bytes(record)),
    ensures
        u16_at(bytes, at) == Some(record.magic),
        u16_at(bytes, at + 2) == Some(record.linker_version),
        u32_at(bytes, at + 4) == Some(record.size_of_code),
        u32_at(bytes, at + 8) == Some(record.size_of_data),
        u32_at(bytes, at + 12) == Some(record.size_of_bss),
        u32_at(bytes, at + 16) == Some(record.entry_point),
        u32_at(bytes, at + 20) == Some(record.base_of_code),
        u32_at(bytes, at + 24) == Some(record.base_of_data),
        u32_at(bytes, at + 28) == Some(record.image_base),
        u32_at(bytes, at + 32) == Some(record.section_alignment),
        u32_at(bytes, at + 36) == Some(record.file_alignment),
        u32_at(bytes, at + 40) == Some(record.system_version),
        u32_at(bytes, at + 44) == Some(record.image_version),
        u32_at(bytes, at + 48) == Some(record.subsystem_version),
        u32_at(bytes, at + 52) == Some(record.reserved),
        u32_at(bytes, at + 56) == Some(record.size_of_image),
        u32_at(bytes, at + 60) == Some(record.size_of_headers),
        u32_at(bytes, at + 64) == Some(record.checksum),
        u16_at(bytes, at + 68) == Some(record.subsystem),
        u16_at(bytes, at + 70) == Some(record.dll_characteristics),
        u32_at(bytes, at + 72) == Some(record.stack_reserve),
        u32_at(bytes, at + 76) == Some(record.stack_commit),
        u32_at(bytes, at + 80) == Some(record.heap_reserve),
        u32_at(bytes, at + 84) == Some(record.heap_commit),
        u32_at(bytes, at + 88) == Some(record.loader_flags),
        u32_at(bytes, at + 92) == Some(record.directory_count),
{
    let r25 = bytes32(record.directory_count);
    let r24 = bytes32(record.loader_flags) + r25;
    let r23 = bytes32(record.heap_commit) + r24;
    let r22 = bytes32(record.heap_reserve) + r23;
    let r21 = bytes32(record.stack_commit) + r22;
    let r20 = bytes32(record.stack_reserve) + r21;
    let r19 = bytes16(record.dll_characteristics) + r20;
    let r18 = bytes16(record.subsystem) + r19;
    let r17 = bytes32(record.checksum) + r18;
    let r16 = bytes32(record.size_of_headers) + r17;
    let r15 = bytes32(record.size_of_image) + r16;
    let r14 = bytes32(record.reserved) + r15;
    let r13 = bytes32(record.subsystem_version) + r14;
    let r12 = bytes32(record.image_version) + r13;
    let r11 = bytes32(record.system_version) + r12;
    let r10 = bytes32(record.file_alignment) + r11;
    let r9 = bytes32(record.section_alignment) + r10;
    let r8 = bytes32(record.image_base) + r9;
    let r7 = bytes32(record.base_of_data) + r8;
    let r6 = bytes32(record.base_of_code) + r7;
    let r5 = bytes32(record.entry_point) + r6;
    let r4 = bytes32(record.size_of_bss) + r5;
    let r3 = bytes32(record.size_of_data) + r4;
    let r2 = bytes32(record.size_of_code) + r3;
    let r1 = bytes16(record.linker_version) + r2;
    lemma_held16_first(bytes, at, record.magic, r1);
    lemma_held16_first(bytes, at + 2, record.linker_version, r2);
    lemma_held32_first(bytes, at + 4, record.size_of_code, r3);
    lemma_held32_first(bytes, at + 8, record.size_of_data, r4);
    lemma_held32_first(bytes, at + 12, record.size_of_bss, r5);
    lemma_held32_first(bytes, at + 16, record.entry_point, r6);
    lemma_held32_first(bytes, at + 20, record.base_of_code, r7);
    lemma_held32_first(bytes, at + 24, record.base_of_data, r8);
    lemma_held32_first(bytes, at + 28, record.image_base, r9);
    lemma_held32_first(bytes, at + 32, record.section_alignment, r10);
    lemma_held32_first(bytes, at + 36, record.file_alignment, r11);
    lemma_held32_first(bytes, at + 40, record.system_version, r12);
    lemma_held32_first(bytes, at + 44, record.image_version, r13);
    lemma_held32_first(bytes, at + 48, record.subsystem_version, r14);
    lemma_held32_first(bytes, at + 52, record.reserved, r15);
    lemma_held32_first(bytes, at + 56, record.size_of_image, r16);
    lemma_held32_first(bytes, at + 60, record.size_of_headers, r17);
    lemma_held32_first(bytes, at + 64, record.checksum, r18);
    lemma_held16_first(bytes, at + 68, record.subsystem, r19);
    lemma_held16_first(bytes, at + 70, record.dll_characteristics, r20);
    lemma_held32_first(bytes, at + 72, record.stack_reserve, r21);
    lemma_held32_first(bytes, at + 76, record.stack_commit, r22);
    lemma_held32_first(bytes, at + 80, record.heap_reserve, r23);
    lemma_held32_first(bytes, at + 84, record.heap_commit, r24);
    lemma_held32_first(bytes, at + 88, record.loader_flags, r25);
    lemma_held32(bytes, at + 92, record.directory_count);
}

proof fn lemma_signatures(bytes: Seq<u8>, nt: int)
    requires
        holds_at(bytes, 0, seq![77u8, 90u8]),
        holds_at(bytes, nt, seq![80u8, 69u8, 0u8, 0u8]),
    ensures
        u16_at(bytes, 0) == Some(0x5a4du16),
        u32_at(bytes, nt) == Some(0x4550u32),
{
    reveal(holds_at);
    let mz = seq![77u8, 90u8];
    let pe = seq![80u8, 69u8, 0u8, 0u8];
    assert(bytes[0int + 0] == mz[0] && bytes[0int + 1] == mz[1]);
    assert(bytes[nt + 0] == pe[0] && bytes[nt + 1] == pe[1] && bytes[nt + 2] == pe[2] && bytes[nt
        + 3] == pe[3]);
}

/// The headers of a 64-bit image are read as they were written: "MZ" in front,
/// behind it the place of "PE" and two zeros, which the file header and the
/// optional header follow. As many directories are there as both the header
/// says and its size has room for.
#[verifier::spinoff_prover]
#[verifier::rlimit(50)]
pub proof fn lemma_wide_header_reads_back(
    bytes: Seq<u8>,
    nt: u32,
    file: FileHeader,
    optional: WideHeader,
)
    requires
        holds_at(bytes, 0, seq![77u8, 90u8]),
        holds_at(bytes, 60, bytes32(nt)),
        holds_at(bytes, nt as int, seq![80u8, 69u8, 0u8, 0u8]),
        holds_at(bytes, nt + 4, file_header_bytes(file)),
        holds_at(bytes, nt + 24, wide_header_bytes(optional)),
        optional.magic == 0x20b,
        file.optional_size >= 112,
        nt + 24 + file.optional_size <= bytes.len(),
    ensures
        optional.size_of_image < optional.size_of_headers <==> headers(bytes) is None,
        headers(bytes) matches Some(head) ==> {
            &&& head.machine == file.machine
            &&& head.number_of_sections == file.number_of_sections
            &&& head.characteristics == file.characteristics
            &&& head.magic == optional.magic
            &&& head.subsystem == optional.subsystem
            &&& head.dll_characteristics == optional.dll_characteristics
            &&& head.entry_point == optional.entry_point
            &&& head.image_base == optional.image_base
            &&& head.size_of_image == optional.size_of_image
            &&& head.size_of_headers == optional.size_of_headers
            &&& head.section_alignment == optional.section_alignment
            &&& head.file_alignment == optional.file_alignment
            &&& head.pointer_bytes == 8
            &&& head.directory_table == nt + 24 + 112
            &&& head.directory_count <= optional.directory_count
            &&& head.directory_table + 8 * head.directory_count <= head.section_table
            &&& head.directory_count == optional.directory_count || head.directory_table + 8 * (
            head.directory_count + 1) > head.section_table
            &&& head.section_table == nt + 24 + file.optional_size
        },
{
    lemma_signatures(bytes, nt as int);
    lemma_held32(bytes, 60, nt);
    lemma_file_header(bytes, nt + 4, file);
    lemma_wide_header(bytes, nt + 24, optional);
}

/// The headers of a 32-bit image are read as they were written: "MZ" in front,
/// behind it the place of "PE" and two zeros, which the file header and the
/// optional header follow. As many directories are there as both the header
/// says and its size has room for.
#[verifier::spinoff_prover]
#[verifier::rlimit(50)]
pub proof fn lemma_narrow_header_reads_back(
    bytes: Seq<u8>,
    nt: u32,
    file: FileHeader,
    optional: NarrowHeader,
)
    requires
        holds_at(bytes, 0, seq![77u8, 90u8]),
        holds_at(bytes, 60, bytes32(nt)),
        holds_at(bytes, nt as int, seq![80u8, 69u8, 0u8, 0u8]),
        holds_at(bytes, nt + 4, file_header_bytes(file)),
        holds_at(bytes, nt + 24, narrow_header_bytes(optional)),
        optional.magic == 0x10b,
        file.optional_size >= 96,
        nt + 24 + file.optional_size <= bytes.len(),
    ensures
        optional.size_of_image < optional.size_of_headers <==> headers(bytes) is None,
        headers(bytes) matches Some(head) ==> {
            &&& head.machine == file.machine
            &&& head.number_of_sections == file.number_of_sections
            &&& head.characteristics == file.characteristics
            &&& head.magic == optional.magic
            &&& head.subsystem == optional.subsystem
            &&& head.dll_characteristics == optional.dll_characteristics
            &&& head.entry_point == optional.entry_point
            &&& head.image_base == optional.image_base
            &&& head.size_of_image == optional.size_of_image
            &&& head.size_of_headers == optional.size_of_headers
            &&& head.section_alignment == optional.section_alignment
            &&& head.file_alignment == optional.file_alignment
            &&& head.pointer_bytes == 4
            &&& head.directory_table == nt + 24 + 96
            &&& head.directory_count <= optional.directory_count
            &&& head.directory_table + 8 * head.directory_count <= head.section_table
            &&& head.directory_count == optional.directory_count || head.directory_table + 8 * (
            head.directory_count + 1) > head.section_table
            &&& head.section_table == nt + 24 + file.optional_size
        },
{
    lemma_signatures(bytes, nt as int);
    lemma_held32(bytes, 60, nt);
    lemma_file_header(bytes, nt + 4, file);
    lemma_narrow_header(bytes, nt + 24, optional);
}

/// The bytes of an entry of the directory table.
pub open spec fn directory_bytes(directory: DataDirectory) -> Seq<u8> {
    bytes32(directory.virtual_address) + bytes32(directory.size)
}

/// A directory is read as it was written.
pub proof fn lemma_directory_reads_back(bytes: Seq<u8>, at: int, directory: DataDirectory)
    requires
        holds_at(bytes, at, directory_bytes(directory)),
    ensures
        directory_at(bytes, at) == directory,
{
    lemma_holds_both(bytes, at, bytes32(directory.virtual_address), bytes32(directory.size));
    lemma_held32(bytes, at, directory.virtual_address);
    lemma_held32(bytes, at + 4, directory.size);
}

/// Entry `index` of the directory table is the one that was written eight bytes
/// behind the one before it; there are sixteen at least, and those that the
/// header does not count are empty.
pub proof fn lemma_directory_table_reads_back(
    bytes: Seq<u8>,
    head: Headers,
    index: int,
    directory: DataDirectory,
)
    requires
        0 <= index,
    ensures
        directory_table(bytes, head).len() >= 16,
        directory_table(bytes, head).len() >= head.directory_count,
        index < head.directory_count && holds_at(
            bytes,
            head.directory_table + 8 * index,
            directory_bytes(directory),
        ) ==> directory_table(bytes, head)[index] == directory,
        head.directory_count <= index < 16 ==> directory_table(bytes, head)[index]
            == (DataDirectory { virtual_address: 0, size: 0 }),
{
    if index < head.directory_count && holds_at(
        bytes,
        head.directory_table + 8 * index,
        directory_bytes(directory),
    ) {
        lemma_directory_reads_back(bytes, head.directory_table + 8 * index, directory);
    }
}

/// A section header without its name.
pub struct SectionHeader {
    pub virtual_size: u32,
    pub virtual_address: u32,
    pub raw_data_size: u32,
    pub raw_data_ptr: u32,
    pub relocations: u32,
    pub line_numbers: u32,
    pub relocation_count: u16,
    pub line_number_count: u16,
    pub characteristics: u32,
}

/// The bytes of a section header behind the name.
pub open spec fn section_tail_bytes(record: SectionHeader) -> Seq<u8> {
    bytes32(record.virtual_size) + (bytes32(record.virtual_address) + (bytes32(record.raw_data_size) + (bytes32(record.raw_data_ptr) + (bytes32(record.relocations) + (bytes32(record.line_numbers) + (bytes16(record.relocation_count) + (bytes16(record.line_number_count) + (bytes32(record.characteristics)))))))))
}

#[verifier::spinoff_prover]
proof fn lemma_section_tail(bytes: Seq<u8>, at: int, record: SectionHeader)
    requires
        holds_at(bytes, at, section_tail_bytes(record)),
    ensures
        u32_at(bytes, at) == Some(record.virtual_size),
        u32_at(bytes, at + 4) == Some(record.virtual_address),
        u32_at(bytes, at + 8) == Some(record.raw_data_size),
        u32_at(bytes, at + 12) == Some(record.raw_data_ptr),
        u32_at(bytes, at + 16) == Some(record.relocations),
        u32_at(bytes, at + 20) == Some(record.line_numbers),
        u16_at(bytes, at + 24) == Some(record.relocation_count),
        u16_at(bytes, at + 26) == Some(record.line_number_count),
        u32_at(bytes, at + 28) == Some(record.characteristics),
{
    let r8 = bytes32(record.characteristics);
    let r7 = bytes16(record.line_number_count) + r8;
    let r6 = bytes16(record.relocation_count) + r7;
    let r5 = bytes32(record.line_numbers) + r6;
    let r4 = bytes32(record.relocations) + r5;
    let r3 = bytes32(record.raw_data_ptr) + r4;
    let r2 = bytes32(record.raw_data_size) + r3;
    let r1 = bytes32(record.virtual_address) + r2;
    lemma_held32_first(bytes, at, record.virtual_size, r1);
    lemma_held32_first(bytes, at + 4, record.virtual_address, r2);
    lemma_held32_first(bytes, at + 8, record.raw_data_size, r3);
    lemma_held32_first(bytes, at + 12, record.raw_data_ptr, r4);
    lemma_held32_first(bytes, at + 16, record.relocations, r5);
    lemma_held32_first(bytes, at + 20, record.line_numbers, r6);
    lemma_held16_first(bytes, at + 24, record.relocation_count, r7);
    lemma_held16_first(bytes, at + 26, record.line_number_count, r8);
    lemma_held32(bytes, at + 28, record.characteristics);
}

/// `bytes` is the name in UTF-8, filled up with zeros to eight bytes.
pub open spec fn is_section_name(bytes: Seq<u8>, name: Seq<char>) -> bool {
    &&& bytes.len() == 8
    &&& encode_utf8(name).len() <= 8
    &&& !encode_utf8(name).contains(0)
    &&& forall|i: int|
        0 <= i < 8 ==> #[trigger] bytes[i] == (if i < encode_utf8(name).len() {
            encode_utf8(name)[i]
        } else {
            0
        })
}

proof fn lemma_before_zero(bytes: Seq<u8>, part: Seq<u8>)
    requires
        part.len() <= bytes.len(),
        !part.contains(0),
        forall|i: int| 0 <= i < part.len() ==> bytes[i] == #[trigger] part[i],
        part.len() < bytes.len() ==> bytes[part.len() as int] == 0,
    ensures
        before_zero(bytes) == part,
    decreases part.len(),
{
    if part.len() > 0 {
        assert(part.contains(part[0]));
        assert(bytes[0] == part[0]);
        let rest = part.drop_first();
        assert forall|i: int| 0 <= i < rest.len() implies bytes.drop_first()[i]
            == #[trigger] rest[i] by {
            assert(bytes[i + 1] == part[i + 1]);
        }
        assert(!rest.contains(0)) by {
            if rest.contains(0) {
                let i = choose|i: int| 0 <= i < rest.len() && rest[i] == 0;
                assert(part[i + 1] == 0);
            }
        }
        lemma_before_zero(bytes.drop_first(), rest);
        assert(seq![bytes[0]] + rest =~= part);
    } else {
        assert(before_zero(bytes) =~= part);
    }
}

/// A section header is read as it was written. It is accepted exactly where its
/// data lies in the file and its extent, rounded up, in the image.
pub proof fn lemma_section_reads_back(
    bytes: Seq<u8>,
    at: int,
    name: Seq<char>,
    field: Seq<u8>,
    record: SectionHeader,
    head: Headers,
)
    requires
        is_section_name(field, name),
        holds_at(bytes, at, field + section_tail_bytes(record)),
    ensures
        ({
            let extent = aligned_up(
                if record.virtual_size > record.raw_data_size {
                    record.virtual_size
                } else {
                    record.raw_data_size
                },
                head.section_alignment,
            );
            &&& section_at(bytes, at, head) is Some <==> {
                &&& record.raw_data_size == 0 || record.raw_data_ptr + record.raw_data_size
                    <= bytes.len()
                &&& extent matches Some(extent) && record.virtual_address + extent
                    <= head.size_of_image
            }
            &&& section_at(bytes, at, head) matches Some(section) ==> {
                &&& section.name == name
                &&& section.virtual_address == record.virtual_address
                &&& section.virtual_size == record.virtual_size
                &&& section.raw_data_ptr == record.raw_data_ptr
                &&& section.raw_data_size == record.raw_data_size
                &&& section.characteristics == record.characteristics
            }
        }),
{
    lemma_holds_both(bytes, at, field, section_tail_bytes(record));
    lemma_section_tail(bytes, at + 8, record);
    assert(bytes.subrange(at, at + 8) =~= field && in_range(bytes, at, 8)) by {
        reveal(holds_at);
        assert forall|i: int| 0 <= i < 8 implies bytes.subrange(at, at + 8)[i] == field[i] by {
            assert(bytes[at + i] == field[i]);
        }
    }
    lemma_before_zero(field, encode_utf8(name));
    vstd::utf8::encode_utf8_valid_utf8(name);
    vstd::utf8::encode_utf8_decode_utf8(name);
}

/// The sections are the headers of the table in order, forty bytes apart, as
/// many as the file header counts.
pub proof fn lemma_sections_in_order(bytes: Seq<u8>, head: Headers)
    requires
        sections_from(bytes, head, 0) is Some,
    ensures
        sections_from(bytes, head, 0)->0.len() == head.number_of_sections,
        forall|i: int|
            0 <= i < head.number_of_sections ==> section_at(
                bytes,
                head.section_table + 40 * i,
                head,
            ) == Some(#[trigger] sections_from(bytes, head, 0)->0[i]),
{
    lemma_sections_from(bytes, head, 0);
}

proof fn lemma_sections_from(bytes: Seq<u8>, head: Headers, index: int)
    requires
        0 <= index <= head.number_of_sections,
        sections_from(bytes, head, index) is Some,
    ensures
        sections_from(bytes, head, index)->0.len() == head.number_of_sections - index,
        forall|i: int|
            0 <= i < head.number_of_sections - index ==> section_at(
                bytes,
                head.section_table + 40 * (index + i),
                head,
            ) == Some(#[trigger] sections_from(bytes, head, index)->0[i]),
    decreases head.number_of_sections - index,
{
    if index < head.number_of_sections {
        lemma_sections_from(bytes, head, index + 1);
        let list = sections_from(bytes, head, index)->0;
        let rest = sections_from(bytes, head, index + 1)->0;
        assert forall|i: int| 0 <= i < list.len() implies section_at(
            bytes,
            head.section_table + 40 * (index + i),
            head,
        ) == Some(#[trigger] list[i]) by {
            if i > 0 {
                assert(list[i] == rest[i - 1]);
            }
        }
    }
}

// ---------------------------------------------------------------------------
// Debug entries, the CLR header, thread local storage
// ---------------------------------------------------------------------------

/// A debug directory entry.
pub struct DebugRecord {
    pub characteristics: u32,
    pub time_date_stamp: u32,
    pub version: u32,
    pub ty: u32,
    pub size_of_data: u32,
    pub address_of_raw_data: u32,
    pub pointer_to_raw_data: u32,
}

/// The bytes of a debug directory entry.
pub open spec fn debug_record_bytes(record: DebugRecord) -> Seq<u8> {
    bytes32(record.characteristics) + (bytes32(record.time_date_stamp) + (bytes32(record.version) + (bytes32(record.ty) + (bytes32(record.size_of_data) + (bytes32(record.address_of_raw_data) + (bytes32(record.pointer_to_raw_data)))))))
}

#[verifier::spinoff_prover]
proof fn lemma_debug_record(bytes: Seq<u8>, at: int, record: DebugRecord)
    requires
        holds_at(bytes, at, debug_record_bytes(record)),
    ensures
        u32_at(bytes, at) == Some(record.characteristics),
        u32_at(bytes, at + 4) == Some(record.time_date_stamp),
        u32_at(bytes, at + 8) == Some(record.version),
        u32_at(bytes, at + 12) == Some(record.ty),
        u32_at(bytes, at + 16) == Some(record.size_of_data),
        u32_at(bytes, at + 20) == Some(record.address_of_raw_data),
        u32_at(bytes, at + 24) == Some(record.pointer_to_raw_data),
{
    let r6 = bytes32(record.pointer_to_raw_data);
    let r5 = bytes32(record.address_of_raw_data) + r6;
    let r4 = bytes32(record.size_of_data) + r5;
    let r3 = bytes32(record.ty) + r4;
    let r2 = bytes32(record.version) + r3;
    let r1 = bytes32(record.time_date_stamp) + r2;
    lemma_held32_first(bytes, at, record.characteristics, r1);
    lemma_held32_first(bytes, at + 4, record.time_date_stamp, r2);
    lemma_held32_first(bytes, at + 8, record.version, r3);
    lemma_held32_first(bytes, at + 12, record.ty, r4);
    lemma_held32_first(bytes, at + 16, record.size_of_data, r5);
    lemma_held32_first(bytes, at + 20, record.address_of_raw_data, r6);
    lemma_held32(bytes, at + 24, record.pointer_to_raw_data);
}

/// A debug entry is read as it was written.
pub proof fn lemma_debug_entry_reads_back(bytes: Seq<u8>, at: int, record: DebugRecord)
    requires
        holds_at(bytes, at, debug_record_bytes(record)),
    ensures
        debug_entry(bytes, at).ty == record.ty,
        debug_entry(bytes, at).size_of_data == record.size_of_data,
        debug_entry(bytes, at).address_of_raw_data == record.address_of_raw_data,
        debug_entry(bytes, at).pointer_to_raw_data == record.pointer_to_raw_data,
{
    lemma_debug_record(bytes, at, record);
}

/// A CLR header.
pub struct ClrRecord {
    pub size: u32,
    pub major_runtime_version: u16,
    pub minor_runtime_version: u16,
    pub metadata_rva: u32,
    pub metadata_size: u32,
    pub flags: u32,
    pub entry_point_token: u32,
    pub resources_rva: u32,
    pub resources_size: u32,
    pub strong_name_rva: u32,
    pub strong_name_size: u32,
    pub code_manager_rva: u32,
    pub code_manager_size: u32,
    pub vtable_fixups_rva: u32,
    pub vtable_fixups_size: u32,
    pub export_jumps_rva: u32,
    pub export_jumps_size: u32,
    pub native_header_rva: u32,
    pub native_header_size: u32,
}

/// The bytes of a CLR header.
pub open spec fn clr_record_bytes(record: ClrRecord) -> Seq<u8> {
    bytes32(record.size) + (bytes16(record.major_runtime_version) + (bytes16(record.minor_runtime_version) + (bytes32(record.metadata_rva) + (bytes32(record.metadata_size) + (bytes32(record.flags) + (bytes32(record.entry_point_token) + (bytes32(record.resources_rva) + (bytes32(record.resources_size) + (bytes32(record.strong_name_rva) + (bytes32(record.strong_name_size) + (bytes32(record.code_manager_rva) + (bytes32(record.code_manager_size) + (bytes32(record.vtable_fixups_rva) + (bytes32(record.vtable_fixups_size) + (bytes32(record.export_jumps_rva) + (bytes32(record.export_jumps_size) + (bytes32(record.native_header_rva) + (bytes32(record.native_header_size)))))))))))))))))))
}

#[verifier::spinoff_prover]
proof fn lemma_clr_record(bytes: Seq<u8>, at: int, record: ClrRecord)
    requires
        holds_at(bytes, at, clr_record_bytes(record)),
    ensures
        u32_at(bytes, at) == Some(record.size),
        u16_at(bytes, at + 4) == Some(record.major_runtime_version),
        u16_at(bytes, at + 6) == Some(record.minor_runtime_version),
        u32_at(bytes, at + 8) == Some(record.metadata_rva),
        u32_at(bytes, at + 12) == Some(record.metadata_size),
        u32_at(bytes, at + 16) == Some(record.flags),
        u32_at(bytes, at + 20) == Some(record.entry_point_token),
        u32_at(bytes, at + 24) == Some(record.resources_rva),
        u32_at(bytes, at + 28) == Some(record.resources_size),
        u32_at(bytes, at + 32) == Some(record.strong_name_rva),
        u32_at(bytes, at + 36) == Some(record.strong_name_size),
        u32_at(bytes, at + 40) == Some(record.code_manager_rva),
        u32_at(bytes, at + 44) == Some(record.code_manager_size),
        u32_at(bytes, at + 48) == Some(record.vtable_fixups_rva),
        u32_at(bytes, at + 52) == Some(record.vtable_fixups_size),
        u32_at(bytes, at + 56) == Some(record.export_jumps_rva),
        u32_at(bytes, at + 60) == Some(record.export_jumps_size),
        u32_at(bytes, at + 64) == Some(record.native_header_rva),
        u32_at(bytes, at + 68) == Some(record.native_header_size),
{
    let r18 = bytes32(record.native_header_size);
    let r17 = bytes32(record.native_header_rva) + r18;
    let r16 = bytes32(record.export_jumps_size) + r17;
    let r15 = bytes32(record.export_jumps_rva) + r16;
    let r14 = bytes32(record.vtable_fixups_size) + r15;
    let r13 = bytes32(record.vtable_fixups_rva) + r14;
    let r12 = bytes32(record.code_manager_size) + r13;
    let r11 = bytes32(record.code_manager_rva) + r12;
    let r10 = bytes32(record.strong_name_size) + r11;
    let r9 = bytes32(record.strong_name_rva) + r10;
    let r8 = bytes32(record.resources_size) + r9;
    let r7 = bytes32(record.resources_rva) + r8;
    let r6 = bytes32(record.entry_point_token) + r7;
    let r5 = bytes32(record.flags) + r6;
    let r4 = bytes32(record.metadata_size) + r5;
    let r3 = bytes32(record.metadata_rva) + r4;
    let r2 = bytes16(record.minor_runtime_version) + r3;
    let r1 = bytes16(record.major_runtime_version) + r2;
    lemma_held32_first(bytes, at, record.size, r1);
    lemma_held16_first(bytes, at + 4, record.major_runtime_version, r2);
    lemma_held16_first(bytes, at + 6, record.minor_runtime_version, r3);
    lemma_held32_first(bytes, at + 8, record.metadata_rva, r4);
    lemma_held32_first(bytes, at + 12, record.metadata_size, r5);
    lemma_held32_first(bytes, at + 16, record.flags, r6);
    lemma_held32_first(bytes, at + 20, record.entry_point_token, r7);
    lemma_held32_first(bytes, at + 24, record.resources_rva, r8);
    lemma_held32_first(bytes, at + 28, record.resources_size, r9);
    lemma_held32_first(bytes, at + 32, record.strong_name_rva, r10);
    lemma_held32_first(bytes, at + 36, record.strong_name_size, r11);
    lemma_held32_first(bytes, at + 40, record.code_manager_rva, r12);
    lemma_held32_first(bytes, at + 44, record.code_manager_size, r13);
    lemma_held32_first(bytes, at + 48, record.vtable_fixups_rva, r14);
    lemma_held32_first(bytes, at + 52, record.vtable_fixups_size, r15);
    lemma_held32_first(bytes, at + 56, record.export_jumps_rva, r16);
    lemma_held32_first(bytes, at + 60, record.export_jumps_size, r17);
    lemma_held32_first(bytes, at + 64, record.native_header_rva, r18);
    lemma_held32(bytes, at + 68, record.native_header_size);
}

/// A CLR header is read as it was written.
pub proof fn lemma_clr_header_reads_back(bytes: Seq<u8>, at: int, record: ClrRecord)
    requires
        holds_at(bytes, at, clr_record_bytes(record)),
    ensures
        ({
            let header = clr_header_at(bytes, at);
            &&& header.major_runtime_version == record.major_runtime_version
            &&& header.minor_runtime_version == record.minor_runtime_version
            &&& header.flags == record.flags
            &&& header.entry_point_token == record.entry_point_token
            &&& header.metadata == (DataDirectory { virtual_address: record.metadata_rva, size: record.metadata_size })
            &&& header.resources == (DataDirectory { virtual_address: record.resources_rva, size: record.resources_size })
            &&& header.strong_name_signature == (DataDirectory { virtual_address: record.strong_name_rva, size: record.strong_name_size })
            &&& header.code_manager_table == (DataDirectory { virtual_address: record.code_manager_rva, size: record.code_manager_size })
            &&& header.vtable_fixups == (DataDirectory { virtual_address: record.vtable_fixups_rva, size: record.vtable_fixups_size })
            &&& header.export_address_table_jumps == (DataDirectory { virtual_address: record.export_jumps_rva, size: record.export_jumps_size })
            &&& header.managed_native_header == (DataDirectory { virtual_address: record.native_header_rva, size: record.native_header_size })
        }),
{
    lemma_clr_record(bytes, at, record);
}

/// The thread local storage directory of a 64-bit image.
pub struct WideTls {
    pub raw_data_start: u64,
    pub raw_data_end: u64,
    pub address_of_index: u64,
    pub address_of_callbacks: u64,
    pub zero_fill: u32,
    pub characteristics: u32,
}

/// The bytes of the thread local storage directory of a 64-bit image.
pub open spec fn wide_tls_bytes(record: WideTls) -> Seq<u8> {
    bytes64(record.raw_data_start) + (bytes64(record.raw_data_end) + (bytes64(record.address_of_index) + (bytes64(record.address_of_callbacks) + (bytes32(record.zero_fill) + (bytes32(record.characteristics))))))
}

#[verifier::spinoff_prover]
proof fn lemma_wide_tls(bytes: Seq<u8>, at: int, record: WideTls)
    requires
        holds_at(bytes, at, wide_tls_bytes(record)),
    ensures
        u64_at(bytes, at) == Some(record.raw_data_start),
        u64_at(bytes, at + 8) == Some(record.raw_data_end),
        u64_at(bytes, at + 16) == Some(record.address_of_index),
        u64_at(bytes, at + 24) == Some(record.address_of_callbacks),
        u32_at(bytes, at + 32) == Some(record.zero_fill),
        u32_at(bytes, at + 36) == Some(record.characteristics),
{
    let r5 = bytes32(record.characteristics);
    let r4 = bytes32(record.zero_fill) + r5;
    let r3 = bytes64(record.address_of_callbacks) + r4;
    let r2 = bytes64(record.address_of_index) + r3;
    let r1 = bytes64(record.raw_data_end) + r2;
    lemma_held64_first(bytes, at, record.raw_data_start, r1);
    lemma_held64_first(bytes, at + 8, record.raw_data_end, r2);
    lemma_held64_first(bytes, at + 16, record.address_of_index, r3);
    lemma_held64_first(bytes, at + 24, record.address_of_callbacks, r4);
    lemma_held32_first(bytes, at + 32, record.zero_fill, r5);
    lemma_held32(bytes, at + 36, record.characteristics);
}

/// The thread local storage directory of a 64-bit image is read as it was
/// written; its callbacks are those of the array that it leads to.
pub proof fn lemma_wide_tls_reads_back(
    bytes: Seq<u8>,
    sections: Seq<PeSectionModel>,
    at: int,
    record: WideTls,
    image_base: u64,
)
    requires
        holds_at(bytes, at, wide_tls_bytes(record)),
    ensures
        ({
            let read = tls_at(bytes, sections, at, image_base, 8);
            let callbacks = callbacks_at(
                bytes,
                sections,
                record.address_of_callbacks as u64,
                image_base,
                8,
            );
            &&& read is Some <==> callbacks is Some
            &&& read matches Some(tls) ==> {
                &&& tls.raw_data_start == record.raw_data_start
                &&& tls.raw_data_end == record.raw_data_end
                &&& tls.address_of_index == record.address_of_index
                &&& tls.address_of_callbacks == record.address_of_callbacks
                &&& callbacks == Some(tls.callbacks)
            }
        }),
{
    lemma_wide_tls(bytes, at, record);
}

/// The thread local storage directory of a 32-bit image.
pub struct NarrowTls {
    pub raw_data_start: u32,
    pub raw_data_end: u32,
    pub address_of_index: u32,
    pub address_of_callbacks: u32,
    pub zero_fill: u32,
    pub characteristics: u32,
}

/// The bytes of the thread local storage directory of a 32-bit image.
pub open spec fn narrow_tls_bytes(record: NarrowTls) -> Seq<u8> {
    bytes32(record.raw_data_start) + (bytes32(record.raw_data_end) + (bytes32(record.address_of_index) + (bytes32(record.address_of_callbacks) + (bytes32(record.zero_fill) + (bytes32(record.characteristics))))))
}

#[verifier::spinoff_prover]
proof fn lemma_narrow_tls(bytes: Seq<u8>, at: int, record: NarrowTls)
    requires
        holds_at(bytes, at, narrow_tls_bytes(record)),
    ensures
        u32_at(bytes, at) == Some(record.raw_data_start),
        u32_at(bytes, at + 4) == Some(record.raw_data_end),
        u32_at(bytes, at + 8) == Some(record.address_of_index),
        u32_at(bytes, at + 12) == Some(record.address_of_callbacks),
        u32_at(bytes, at + 16) == Some(record.zero_fill),
        u32_at(bytes, at + 20) == Some(record.characteristics),
{
    let r5 = bytes32(record.characteristics);
    let r4 = bytes32(record.zero_fill) + r5;
    let r3 = bytes32(record.address_of_callbacks) + r4;
    let r2 = bytes32(record.address_of_index) + r3;
    let r1 = bytes32(record.raw_data_end) + r2;
    lemma_held32_first(bytes, at, record.raw_data_start, r1);
    lemma_held32_first(bytes, at + 4, record.raw_data_end, r2);
    lemma_held32_first(bytes, at + 8, record.address_of_index, r3);
    lemma_held32_first(bytes, at + 12, record.address_of_callbacks, r4);
    lemma_held32_first(bytes, at + 16, record.zero_fill, r5);
    lemma_held32(bytes, at + 20, record.characteristics);
}

/// The thread local storage directory of a 32-bit image is read as it was
/// written; its callbacks are those of the array that it leads to.
pub proof fn lemma_narrow_tls_reads_back(
    bytes: Seq<u8>,
    sections: Seq<PeSectionModel>,
    at: int,
    record: NarrowTls,
    image_base: u64,
)
    requires
        holds_at(bytes, at, narrow_tls_bytes(record)),
    ensures
        ({
            let read = tls_at(bytes, sections, at, image_base, 4);
            let callbacks = callbacks_at(
                bytes,
                sections,
                record.address_of_callbacks as u64,
                image_base,
                4,
            );
            &&& read is Some <==> callbacks is Some
            &&& read matches Some(tls) ==> {
                &&& tls.raw_data_start == record.raw_data_start
                &&& tls.raw_data_end == record.raw_data_end
                &&& tls.address_of_index == record.address_of_index
                &&& tls.address_of_callbacks == record.address_of_callbacks
                &&& callbacks == Some(tls.callbacks)
            }
        }),
{
    lemma_narrow_tls(bytes, at, record);
}

/// The callbacks are the pointers of the array at the address in order, up to
/// the first zero; the address counts from the image base, and none means that
/// there are no callbacks.
pub proof fn lemma_callbacks_in_order(
    bytes: Seq<u8>,
    sections: Seq<PeSectionModel>,
    rva: u32,
    image_base: u64,
    pointer_bytes: int,
)
    requires
        rva + image_base <= u64::MAX,
        rva + image_base > 0,
    ensures
        callbacks_at(bytes, sections, 0, image_base, pointer_bytes) == Some(Seq::<u64>::empty()),
        callbacks_at(
            bytes,
            sections,
            (image_base + rva) as u64,
            image_base,
            pointer_bytes,
        ) matches Some(list) ==> {
            &&& list.len() <= CALLBACK_LIMIT
            &&& table_pointer(bytes, sections, rva, list.len() as int, pointer_bytes) == Some(0u64)
            &&& forall|i: int|
                0 <= i < list.len() ==> #[trigger] list[i] != 0 && table_pointer(
                    bytes,
                    sections,
                    rva,
                    i,
                    pointer_bytes,
                ) == Some(list[i])
        },
{
    if callbacks_from(bytes, sections, rva, pointer_bytes, 0) is Some {
        lemma_callbacks_from(bytes, sections, rva, pointer_bytes, 0);
    }
}

proof fn lemma_callbacks_from(
    bytes: Seq<u8>,
    sections: Seq<PeSectionModel>,
    rva: u32,
    pointer_bytes: int,
    index: int,
)
    requires
        0 <= index <= CALLBACK_LIMIT + 1,
        callbacks_from(bytes, sections, rva, pointer_bytes, index) is Some,
    ensures
        ({
            let list = callbacks_from(bytes, sections, rva, pointer_bytes, index)->0;
            &&& index + list.len() <= CALLBACK_LIMIT
            &&& table_pointer(bytes, sections, rva, index + list.len(), pointer_bytes) == Some(0u64)
            &&& forall|i: int|
                0 <= i < list.len() ==> #[trigger] list[i] != 0 && table_pointer(
                    bytes,
                    sections,
                    rva,
                    index + i,
                    pointer_bytes,
                ) == Some(list[i])
        }),
    decreases CALLBACK_LIMIT + 1 - index,
{
    let list = callbacks_from(bytes, sections, rva, pointer_bytes, index)->0;
    if list.len() > 0 {
        lemma_callbacks_from(bytes, sections, rva, pointer_bytes, index + 1);
        let rest = callbacks_from(bytes, sections, rva, pointer_bytes, index + 1)->0;
        assert forall|i: int| 0 <= i < list.len() implies #[trigger] list[i] != 0 && table_pointer(
            bytes,
            sections,
            rva,
            index + i,
            pointer_bytes,
        ) == Some(list[i]) by {
            if i > 0 {
                assert(list[i] == rest[i - 1]);
                assert(index + 1 + (i - 1) == index + i);
            }
        }
    }
}

// ---------------------------------------------------------------------------
// The load configuration
// ---------------------------------------------------------------------------

/// The load configuration of a 64-bit image, up to its guard flags.
pub struct WideConfig {
    pub size: u32,
    pub time_date_stamp: u32,
    pub version: u32,
    pub flags_clear: u32,
    pub flags_set: u32,
    pub section_timeout: u32,
    pub free_threshold: u64,
    pub total_threshold: u64,
    pub lock_prefixes: u64,
    pub largest_allocation: u64,
    pub memory_threshold: u64,
    pub affinity: u64,
    pub heap_flags: u32,
    pub service_pack: u16,
    pub load_flags: u16,
    pub edit_list: u64,
    pub security_cookie: u64,
    pub se_handler_table: u64,
    pub se_handler_count: u64,
    pub guard_check: u64,
    pub guard_dispatch: u64,
    pub guard_table: u64,
    pub guard_count: u64,
    pub guard_flags: u32,
}

/// The bytes of the load configuration of a 64-bit image.
pub open spec fn wide_config_bytes(record: WideConfig) -> Seq<u8> {
    bytes32(record.size) + (bytes32(record.time_date_stamp) + (bytes32(record.version) + (bytes32(record.flags_clear) + (bytes32(record.flags_set) + (bytes32(record.section_timeout) + (bytes64(record.free_threshold) + (bytes64(record.total_threshold) + (bytes64(record.lock_prefixes) + (bytes64(record.largest_allocation) + (bytes64(record.memory_threshold) + (bytes64(record.affinity) + (bytes32(record.heap_flags) + (bytes16(record.service_pack) + (bytes16(record.load_flags) + (bytes64(record.edit_list) + (bytes64(record.security_cookie) + (bytes64(record.se_handler_table) + (bytes64(record.se_handler_count) + (bytes64(record.guard_check) + (bytes64(record.guard_dispatch) + (bytes64(record.guard_table) + (bytes64(record.guard_count) + (bytes32(record.guard_flags))))))))))))))))))))))))
}

#[verifier::spinoff_prover]
proof fn lemma_wide_config(bytes: Seq<u8>, at: int, record: WideConfig)
    requires
        holds_at(bytes, at, wide_config_bytes(record)),
    ensures
        u32_at(bytes, at) == Some(record.size),
        u32_at(bytes, at + 4) == Some(record.time_date_stamp),
        u32_at(bytes, at + 8) == Some(record.version),
        u32_at(bytes, at + 12) == Some(record.flags_clear),
        u32_at(bytes, at + 16) == Some(record.flags_set),
        u32_at(bytes, at + 20) == Some(record.section_timeout),
        u64_at(bytes, at + 24) == Some(record.free_threshold),
        u64_at(bytes, at + 32) == Some(record.total_threshold),
        u64_at(bytes, at + 40) == Some(record.lock_prefixes),
        u64_at(bytes, at + 48) == Some(record.largest_allocation),
        u64_at(bytes, at + 56) == Some(record.memory_threshold),
        u64_at(bytes, at + 64) == Some(record.affinity),
        u32_at(bytes, at + 72) == Some(record.heap_flags),
        u16_at(bytes, at + 76) == Some(record.service_pack),
        u16_at(bytes, at + 78) == Some(record.load_flags),
        u64_at(bytes, at + 80) == Some(record.edit_list),
        u64_at(bytes, at + 88) == Some(record.security_cookie),
        u64_at(bytes, at + 96) == Some(record.se_handler_table),
        u64_at(bytes, at + 104) == Some(record.se_handler_count),
        u64_at(bytes, at + 112) == Some(record.guard_check),
        u64_at(bytes, at + 120) == Some(record.guard_dispatch),
        u64_at(bytes, at + 128) == Some(record.guard_table),
        u64_at(bytes, at + 136) == Some(record.guard_count),
        u32_at(bytes, at + 144) == Some(record.guard_flags),
{
    let r23 = bytes32(record.guard_flags);
    let r22 = bytes64(record.guard_count) + r23;
    let r21 = bytes64(record.guard_table) + r22;
    let r20 = bytes64(record.guard_dispatch) + r21;
    let r19 = bytes64(record.guard_check) + r20;
    let r18 = bytes64(record.se_handler_count) + r19;
    let r17 = bytes64(record.se_handler_table) + r18;
    let r16 = bytes64(record.security_cookie) + r17;
    let r15 = bytes64(record.edit_list) + r16;
    let r14 = bytes16(record.load_flags) + r15;
    let r13 = bytes16(record.service_pack) + r14;
    let r12 = bytes32(record.heap_flags) + r13;
    let r11 = bytes64(record.affinity) + r12;
    let r10 = bytes64(record.memory_threshold) + r11;
    let r9 = bytes64(record.largest_allocation) + r10;
    let r8 = bytes64(record.lock_prefixes) + r9;
    let r7 = bytes64(record.total_threshold) + r8;
    let r6 = bytes64(record.free_threshold) + r7;
    let r5 = bytes32(record.section_timeout) + r6;
    let r4 = bytes32(record.flags_set) + r5;
    let r3 = bytes32(record.flags_clear) + r4;
    let r2 = bytes32(record.version) + r3;
    let r1 = bytes32(record.time_date_stamp) + r2;
    lemma_held32_first(bytes, at, record.size, r1);
    lemma_held32_first(bytes, at + 4, record.time_date_stamp, r2);
    lemma_held32_first(bytes, at + 8, record.version, r3);
    lemma_held32_first(bytes, at + 12, record.flags_clear, r4);
    lemma_held32_first(bytes, at + 16, record.flags_set, r5);
    lemma_held32_first(bytes, at + 20, record.section_timeout, r6);
    lemma_held64_first(bytes, at + 24, record.free_threshold, r7);
    lemma_held64_first(bytes, at + 32, record.total_threshold, r8);
    lemma_held64_first(bytes, at + 40, record.lock_prefixes, r9);
    lemma_held64_first(bytes, at + 48, record.largest_allocation, r10);
    lemma_held64_first(bytes, at + 56, record.memory_threshold, r11);
    lemma_held64_first(bytes, at + 64, record.affinity, r12);
    lemma_held32_first(bytes, at + 72, record.heap_flags, r13);
    lemma_held16_first(bytes, at + 76, record.service_pack, r14);
    lemma_held16_first(bytes, at + 78, record.load_flags, r15);
    lemma_held64_first(bytes, at + 80, record.edit_list, r16);
    lemma_held64_first(bytes, at + 88, record.security_cookie, r17);
    lemma_held64_first(bytes, at + 96, record.se_handler_table, r18);
    lemma_held64_first(bytes, at + 104, record.se_handler_count, r19);
    lemma_held64_first(bytes, at + 112, record.guard_check, r20);
    lemma_held64_first(bytes, at + 120, record.guard_dispatch, r21);
    lemma_held64_first(bytes, at + 128, record.guard_table, r22);
    lemma_held64_first(bytes, at + 136, record.guard_count, r23);
    lemma_held32(bytes, at + 144, record.guard_flags);
}

/// The load configuration of a 64-bit image is read as it was written, where it
/// is said to hold all of that.
#[verifier::spinoff_prover]
#[verifier::rlimit(50)]
pub proof fn lemma_wide_config_reads_back(bytes: Seq<u8>, at: int, present: int, record: WideConfig)
    requires
        holds_at(bytes, at, wide_config_bytes(record)),
        present >= 0x94,
    ensures
        ({
            let read = config_at(bytes, at, present, 8);
            &&& read is Some
            &&& read->0.security_cookie == record.security_cookie
            &&& read->0.se_handler_table == record.se_handler_table
            &&& read->0.se_handler_count == record.se_handler_count
            &&& read->0.guard_cf_check_function_pointer == record.guard_check
            &&& read->0.guard_cf_dispatch_function_pointer == record.guard_dispatch
            &&& read->0.guard_cf_function_table == record.guard_table
            &&& read->0.guard_cf_function_count == record.guard_count
            &&& read->0.guard_flags == record.guard_flags
        }),
{
    lemma_wide_config(bytes, at, record);
}

/// The load configuration of a 32-bit image, up to its guard flags.
pub struct NarrowConfig {
    pub size: u32,
    pub time_date_stamp: u32,
    pub version: u32,
    pub flags_clear: u32,
    pub flags_set: u32,
    pub section_timeout: u32,
    pub free_threshold: u32,
    pub total_threshold: u32,
    pub lock_prefixes: u32,
    pub largest_allocation: u32,
    pub memory_threshold: u32,
    pub heap_flags: u32,
    pub affinity: u32,
    pub service_pack: u16,
    pub load_flags: u16,
    pub edit_list: u32,
    pub security_cookie: u32,
    pub se_handler_table: u32,
    pub se_handler_count: u32,
    pub guard_check: u32,
    pub guard_dispatch: u32,
    pub guard_table: u32,
    pub guard_count: u32,
    pub guard_flags: u32,
}

/// The bytes of the load configuration of a 32-bit image.
pub open spec fn narrow_config_bytes(record: NarrowConfig) -> Seq<u8> {
    bytes32(record.size) + (bytes32(record.time_date_stamp) + (bytes32(record.version) + (bytes32(record.flags_clear) + (bytes32(record.flags_set) + (bytes32(record.section_timeout) + (bytes32(record.free_threshold) + (bytes32(record.total_threshold) + (bytes32(record.lock_prefixes) + (bytes32(record.largest_allocation) + (bytes32(record.memory_threshold) + (bytes32(record.heap_flags) + (bytes32(record.affinity) + (bytes16(record.service_pack) + (bytes16(record.load_flags) + (bytes32(record.edit_list) + (bytes32(record.security_cookie) + (bytes32(record.se_handler_table) + (bytes32(record.se_handler_count) + (bytes32(record.guard_check) + (bytes32(record.guard_dispatch) + (bytes32(record.guard_table) + (bytes32(record.guard_count) + (bytes32(record.guard_flags))))))))))))))))))))))))
}

#[verifier::spinoff_prover]
proof fn lemma_narrow_config(bytes: Seq<u8>, at: int, record: NarrowConfig)
    requires
        holds_at(bytes, at, narrow_config_bytes(record)),
    ensures
        u32_at(bytes, at) == Some(record.size),
        u32_at(bytes, at + 4) == Some(record.time_date_stamp),
        u32_at(bytes, at + 8) == Some(record.version),
        u32_at(bytes, at + 12) == Some(record.flags_clear),
        u32_at(bytes, at + 16) == Some(record.flags_set),
        u32_at(bytes, at + 20) == Some(record.section_timeout),
        u32_at(bytes, at + 24) == Some(record.free_threshold),
        u32_at(bytes, at + 28) == Some(record.total_threshold),
        u32_at(bytes, at + 32) == Some(record.lock_prefixes),
        u32_at(bytes, at + 36) == Some(record.largest_allocation),
        u32_at(bytes, at + 40) == Some(record.memory_threshold),
        u32_at(bytes, at + 44) == Some(record.heap_flags),
        u32_at(bytes, at + 48) == Some(record.affinity),
        u16_at(bytes, at + 52) == Some(record.service_pack),
        u16_at(bytes, at + 54) == Some(record.load_flags),
        u32_at(bytes, at + 56) == Some(record.edit_list),
        u32_at(bytes, at + 60) == Some(record.security_cookie),
        u32_at(bytes, at + 64) == Some(record.se_handler_table),
        u32_at(bytes, at + 68) == Some(record.se_handler_count),
        u32_at(bytes, at + 72) == Some(record.guard_check),
        u32_at(bytes, at + 76) == Some(record.guard_dispatch),
        u32_at(bytes, at + 80) == Some(record.guard_table),
        u32_at(bytes, at + 84) == Some(record.guard_count),
        u32_at(bytes, at + 88) == Some(record.guard_flags),
{
    let r23 = bytes32(record.guard_flags);
    let r22 = bytes32(record.guard_count) + r23;
    let r21 = bytes32(record.guard_table) + r22;
    let r20 = bytes32(record.guard_dispatch) + r21;
    let r19 = bytes32(record.guard_check) + r20;
    let r18 = bytes32(record.se_handler_count) + r19;
    let r17 = bytes32(record.se_handler_table) + r18;
    let r16 = bytes32(record.security_cookie) + r17;
    let r15 = bytes32(record.edit_list) + r16;
    let r14 = bytes16(record.load_flags) + r15;
    let r13 = bytes16(record.service_pack) + r14;
    let r12 = bytes32(record.affinity) + r13;
    let r11 = bytes32(record.heap_flags) + r12;
    let r10 = bytes32(record.memory_threshold) + r11;
    let r9 = bytes32(record.largest_allocation) + r10;
    let r8 = bytes32(record.lock_prefixes) + r9;
    let r7 = bytes32(record.total_threshold) + r8;
    let r6 = bytes32(record.free_threshold) + r7;
    let r5 = bytes32(record.section_timeout) + r6;
    let r4 = bytes32(record.flags_set) + r5;
    let r3 = bytes32(record.flags_clear) + r4;
    let r2 = bytes32(record.version) + r3;
    let r1 = bytes32(record.time_date_stamp) + r2;
    lemma_held32_first(bytes, at, record.size, r1);
    lemma_held32_first(bytes, at + 4, record.time_date_stamp, r2);
    lemma_held32_first(bytes, at + 8, record.version, r3);
    lemma_held32_first(bytes, at + 12, record.flags_clear, r4);
    lemma_held32_first(bytes, at + 16, record.flags_set, r5);
    lemma_held32_first(bytes, at + 20, record.section_timeout, r6);
    lemma_held32_first(bytes, at + 24, record.free_threshold, r7);
    lemma_held32_first(bytes, at + 28, record.total_threshold, r8);
    lemma_held32_first(bytes, at + 32, record.lock_prefixes, r9);
    lemma_held32_first(bytes, at + 36, record.largest_allocation, r10);
    lemma_held32_first(bytes, at + 40, record.memory_threshold, r11);
    lemma_held32_first(bytes, at + 44, record.heap_flags, r12);
    lemma_held32_first(bytes, at + 48, record.affinity, r13);
    lemma_held16_first(bytes, at + 52, record.service_pack, r14);
    lemma_held16_first(bytes, at + 54, record.load_flags, r15);
    lemma_held32_first(bytes, at + 56, record.edit_list, r16);
    lemma_held32_first(bytes, at + 60, record.security_cookie, r17);
    lemma_held32_first(bytes, at + 64, record.se_handler_table, r18);
    lemma_held32_first(bytes, at + 68, record.se_handler_count, r19);
    lemma_held32_first(bytes, at + 72, record.guard_check, r20);
    lemma_held32_first(bytes, at + 76, record.guard_dispatch, r21);
    lemma_held32_first(bytes, at + 80, record.guard_table, r22);
    lemma_held32_first(bytes, at + 84, record.guard_count, r23);
    lemma_held32(bytes, at + 88, record.guard_flags);
}

/// The load configuration of a 32-bit image is read as it was written, where it
/// is said to hold all of that.
#[verifier::spinoff_prover]
#[verifier::rlimit(50)]
pub proof fn lemma_narrow_config_reads_back(bytes: Seq<u8>, at: int, present: int, record: NarrowConfig)
    requires
        holds_at(bytes, at, narrow_config_bytes(record)),
        present >= 0x5c,
    ensures
        ({
            let read = config_at(bytes, at, present, 4);
            &&& read is Some
            &&& read->0.security_cookie == record.security_cookie
            &&& read->0.se_handler_table == record.se_handler_table
            &&& read->0.se_handler_count == record.se_handler_count
            &&& read->0.guard_cf_check_function_pointer == record.guard_check
            &&& read->0.guard_cf_dispatch_function_pointer == record.guard_dispatch
            &&& read->0.guard_cf_function_table == record.guard_table
            &&& read->0.guard_cf_function_count == record.guard_count
            &&& read->0.guard_flags == record.guard_flags
        }),
{
    lemma_narrow_config(bytes, at, record);
}

// ---------------------------------------------------------------------------
// The export directory
// ---------------------------------------------------------------------------

/// The export directory.
pub struct ExportRecord {
    pub flags: u32,
    pub time_date_stamp: u32,
    pub version: u32,
    pub name: u32,
    pub ordinal_base: u32,
    pub function_count: u32,
    pub name_count: u32,
    pub functions: u32,
    pub names: u32,
    pub name_ordinals: u32,
}

/// The bytes of the export directory.
pub open spec fn export_record_bytes(record: ExportRecord) -> Seq<u8> {
    bytes32(record.flags) + (bytes32(record.time_date_stamp) + (bytes32(record.version) + (bytes32(record.name) + (bytes32(record.ordinal_base) + (bytes32(record.function_count) + (bytes32(record.name_count) + (bytes32(record.functions) + (bytes32(record.names) + (bytes32(record.name_ordinals))))))))))
}

#[verifier::spinoff_prover]
proof fn lemma_export_record(bytes: Seq<u8>, at: int, record: ExportRecord)
    requires
        holds_at(bytes, at, export_record_bytes(record)),
    ensures
        u32_at(bytes, at) == Some(record.flags),
        u32_at(bytes, at + 4) == Some(record.time_date_stamp),
        u32_at(bytes, at + 8) == Some(record.version),
        u32_at(bytes, at + 12) == Some(record.name),
        u32_at(bytes, at + 16) == Some(record.ordinal_base),
        u32_at(bytes, at + 20) == Some(record.function_count),
        u32_at(bytes, at + 24) == Some(record.name_count),
        u32_at(bytes, at + 28) == Some(record.functions),
        u32_at(bytes, at + 32) == Some(record.names),
        u32_at(bytes, at + 36) == Some(record.name_ordinals),
{
    let r9 = bytes32(record.name_ordinals);
    let r8 = bytes32(record.names) + r9;
    let r7 = bytes32(record.functions) + r8;
    let r6 = bytes32(record.name_count) + r7;
    let r5 = bytes32(record.function_count) + r6;
    let r4 = bytes32(record.ordinal_base) + r5;
    let r3 = bytes32(record.name) + r4;
    let r2 = bytes32(record.version) + r3;
    let r1 = bytes32(record.time_date_stamp) + r2;
    lemma_held32_first(bytes, at, record.flags, r1);
    lemma_held32_first(bytes, at + 4, record.time_date_stamp, r2);
    lemma_held32_first(bytes, at + 8, record.version, r3);
    lemma_held32_first(bytes, at + 12, record.name, r4);
    lemma_held32_first(bytes, at + 16, record.ordinal_base, r5);
    lemma_held32_first(bytes, at + 20, record.function_count, r6);
    lemma_held32_first(bytes, at + 24, record.name_count, r7);
    lemma_held32_first(bytes, at + 28, record.functions, r8);
    lemma_held32_first(bytes, at + 32, record.names, r9);
    lemma_held32(bytes, at + 36, record.name_ordinals);
}

/// The export directory is read as it was written; no more functions and names
/// are read than the file could hold.
pub proof fn lemma_export_directory_reads_back(
    bytes: Seq<u8>,
    sections: Seq<PeSectionModel>,
    directory: DataDirectory,
    at: int,
    record: ExportRecord,
)
    requires
        holds_at(bytes, at, export_record_bytes(record)),
    ensures
        ({
            let tables = tables_at(bytes, sections, directory, at);
            &&& tables.bytes == bytes
            &&& tables.sections == sections
            &&& tables.directory == directory
            &&& tables.ordinal_base == record.ordinal_base
            &&& tables.functions == record.functions
            &&& tables.names == record.names
            &&& tables.name_ordinals == record.name_ordinals
            &&& 4 * record.function_count <= bytes.len() ==> tables.function_count
                == record.function_count
            &&& 4 * record.name_count <= bytes.len() ==> tables.name_count == record.name_count
            &&& 4 * tables.function_count <= bytes.len()
            &&& 4 * tables.name_count <= bytes.len()
        }),
{
    lemma_export_record(bytes, at, record);
}

// ---------------------------------------------------------------------------
// Bound imports
// ---------------------------------------------------------------------------

/// A bound-import record.
pub struct BoundEntry {
    pub time_date_stamp: u32,
    pub name_offset: u16,
    pub forwarders: u16,
}

/// The bytes of a bound-import record.
pub open spec fn bound_record_bytes(record: BoundEntry) -> Seq<u8> {
    bytes32(record.time_date_stamp) + (bytes16(record.name_offset) + (bytes16(record.forwarders)))
}

#[verifier::spinoff_prover]
proof fn lemma_bound_entry(bytes: Seq<u8>, at: int, record: BoundEntry)
    requires
        holds_at(bytes, at, bound_record_bytes(record)),
    ensures
        u32_at(bytes, at) == Some(record.time_date_stamp),
        u16_at(bytes, at + 4) == Some(record.name_offset),
        u16_at(bytes, at + 6) == Some(record.forwarders),
{
    let r2 = bytes16(record.forwarders);
    let r1 = bytes16(record.name_offset) + r2;
    lemma_held32_first(bytes, at, record.time_date_stamp, r1);
    lemma_held16_first(bytes, at + 4, record.name_offset, r2);
    lemma_held16(bytes, at + 6, record.forwarders);
}

/// A bound-import record is read as it was written; its name stands where its
/// offset, counted from the directory, says.
pub proof fn lemma_bound_record_reads_back(table: BoundTable, k: int, entry: BoundEntry)
    requires
        holds_at(table.bytes, table.start + 8 * k, bound_record_bytes(entry)),
    ensures
        ({
            let name = table.base + entry.name_offset;
            let text = c_string_at_rva(table.bytes, table.sections, name as u32);
            &&& table.stamp(k) == Some(entry.time_date_stamp)
            &&& table.record(k) is Some <==> name <= u32::MAX && text is Some
            &&& table.record(k) matches Some(record) ==> {
                &&& record.time_date_stamp == entry.time_date_stamp
                &&& record.forwarders == entry.forwarders
                &&& text == Some(record.module_name)
            }
        }),
{
    lemma_bound_entry(table.bytes, table.start + 8 * k, entry);
}

// ---------------------------------------------------------------------------
// Relocations
// ---------------------------------------------------------------------------

/// The number that writes a relocation: its kind above, its offset in the page
/// in the low twelve bits.
pub open spec fn entry_number(kind: u16, offset: u16) -> u16 {
    (0x1000 * kind + offset) as u16
}

/// A relocation is read as it was written: kind 0 changes nothing, 3 a word of
/// 32 bits and 10 one of 64, and no other kind is known.
pub proof fn lemma_relocation_reads_back(kind: u16, offset: u16)
    requires
        kind < 16,
        offset < 0x1000,
    ensures
        relocation_entry(entry_number(kind, offset)).offset == offset,
        kind == 0 <==> relocation_entry(entry_number(kind, offset)).kind
            == RelocationType::Absolute,
        kind == 3 <==> relocation_entry(entry_number(kind, offset)).kind == RelocationType::HighLow,
        kind == 10 <==> relocation_entry(entry_number(kind, offset)).kind == RelocationType::Dir64,
        kind != 0 && kind != 3 && kind != 10 ==> relocation_entry(entry_number(kind, offset)).kind
            == RelocationType::Unsupported(kind),
{
}

/// The bytes of the relocations of a page.
pub open spec fn numbers_bytes(numbers: Seq<u16>) -> Seq<u8>
    decreases numbers.len(),
{
    if numbers.len() == 0 {
        Seq::empty()
    } else {
        bytes16(numbers[0]) + numbers_bytes(numbers.drop_first())
    }
}

/// The bytes of a block of relocations: its page, its size and its entries.
pub open spec fn block_bytes(page: u32, numbers: Seq<u16>) -> Seq<u8> {
    bytes32(page) + (bytes32((8 + 2 * numbers.len()) as u32) + numbers_bytes(numbers))
}

proof fn lemma_numbers(bytes: Seq<u8>, at: int, numbers: Seq<u16>, index: int)
    requires
        holds_at(bytes, at, numbers_bytes(numbers)),
        0 <= index < numbers.len(),
    ensures
        u16_at(bytes, at + 2 * index) == Some(numbers[index]),
    decreases numbers.len(),
{
    let rest = numbers.drop_first();
    lemma_holds_both(bytes, at, bytes16(numbers[0]), numbers_bytes(rest));
    lemma_held16(bytes, at, numbers[0]);
    if index > 0 {
        lemma_numbers(bytes, at + 2, rest, index - 1);
        assert(rest[index - 1] == numbers[index]);
        assert(at + 2 + 2 * (index - 1) == at + 2 * index);
    }
}

proof fn lemma_numbers_length(numbers: Seq<u16>)
    ensures
        numbers_bytes(numbers).len() == 2 * numbers.len(),
    decreases numbers.len(),
{
    if numbers.len() > 0 {
        lemma_numbers_length(numbers.drop_first());
    }
}

/// A block that was written at the place `at` of the table is read there, with
/// its page and its entries in their order; the table goes on right behind it.
pub proof fn lemma_block_reads_back(
    bytes: Seq<u8>,
    start: int,
    size: int,
    at: int,
    page: u32,
    numbers: Seq<u16>,
)
    requires
        0 <= at,
        8 + 2 * numbers.len() <= u32::MAX,
        at + 8 + 2 * numbers.len() <= size,
        holds_at(bytes, start + at, block_bytes(page, numbers)),
    ensures
        ({
            let all = blocks_from(bytes, start, size, at);
            let rest = blocks_from(bytes, start, size, at + 8 + 2 * numbers.len());
            &&& all is Some <==> rest is Some
            &&& all is Some ==> {
                &&& all->0.len() == 1 + rest->0.len()
                &&& all->0.drop_first() == rest->0
                &&& all->0[0].page_rva == page
                &&& all->0[0].entries.len() == numbers.len()
                &&& forall|i: int|
                    0 <= i < numbers.len() ==> {
                        let entry = #[trigger] all->0[0].entries[i];
                        entry.offset == numbers[i] % 0x1000 && entry == relocation_entry(numbers[i])
                    }
            }
        }),
{
    let count = (8 + 2 * numbers.len()) as u32;
    lemma_block_header(bytes, start + at, page, numbers);
    assert(start + at + 4 == start + (at + 4));
    let all = blocks_from(bytes, start, size, at);
    let rest = blocks_from(bytes, start, size, at + 8 + 2 * numbers.len());
    assert(at + count == at + 8 + 2 * numbers.len());
    lemma_block_entries(bytes, start + at, page, numbers);
    if rest is Some {
        assert(all->0.drop_first() =~= rest->0);
    }
}

proof fn lemma_block_header(bytes: Seq<u8>, at: int, page: u32, numbers: Seq<u16>)
    requires
        8 + 2 * numbers.len() <= u32::MAX,
        holds_at(bytes, at, block_bytes(page, numbers)),
    ensures
        u32_at(bytes, at) == Some(page),
        u32_at(bytes, at + 4) == Some((8 + 2 * numbers.len()) as u32),
        holds_at(bytes, at + 8, numbers_bytes(numbers)),
{
    let count = (8 + 2 * numbers.len()) as u32;
    let part = numbers_bytes(numbers);
    lemma_held32_first(bytes, at, page, bytes32(count) + part);
    lemma_held32_first(bytes, at + 4, count, part);
}

proof fn lemma_block_entries(bytes: Seq<u8>, at: int, page: u32, numbers: Seq<u16>)
    requires
        holds_at(bytes, at + 8, numbers_bytes(numbers)),
    ensures
        ({
            let block = relocation_block(bytes, at, page, 8int + 2 * numbers.len());
            &&& block is Some
            &&& block->0.page_rva == page
            &&& block->0.entries.len() == numbers.len()
            &&& forall|i: int|
                0 <= i < numbers.len() ==> {
                    let entry = #[trigger] block->0.entries[i];
                    entry.offset == numbers[i] % 0x1000 && entry == relocation_entry(numbers[i])
                }
        }),
{
    lemma_numbers_length(numbers);
    assert(at + 8 + 2 * numbers.len() <= bytes.len() && 0 <= at + 8) by {
        reveal(holds_at);
    }
    let block = relocation_block(bytes, at, page, 8int + 2 * numbers.len());
    assert forall|i: int| 0 <= i < numbers.len() implies {
        let entry = #[trigger] block->0.entries[i];
        entry.offset == numbers[i] % 0x1000 && entry == relocation_entry(numbers[i])
    } by {
        lemma_numbers(bytes, at + 8, numbers, i);
    }
}

// ---------------------------------------------------------------------------
// The parsed image
// ---------------------------------------------------------------------------

/// An image is what its headers and its sections say, and each of its parts is
/// what the directory of its number leads to: exports are 0, imports 1,
/// resources 2, relocations 5, debug entries 6, thread local storage 9, the
/// load configuration 10, bound imports 11, delayed imports 13 and the CLR
/// header 14.
pub proof fn lemma_parts_of_image(bytes: Seq<u8>)
    requires
        image(bytes) is Some,
    ensures
        ({
            let parsed = image(bytes)->0;
            let head = headers(bytes)->0;
            let table = parsed.data_directories;
            let sections = parsed.sections;
            let base = head.image_base;
            let width = head.pointer_bytes;
            &&& headers(bytes) is Some
            &&& sections_from(bytes, head, 0) == Some(sections)
            &&& table == directory_table(bytes, head)
            &&& head.size_of_headers <= bytes.len()
            &&& parsed.machine == head.machine
            &&& parsed.number_of_sections == head.number_of_sections
            &&& parsed.characteristics == head.characteristics
            &&& parsed.optional_header_magic == head.magic
            &&& parsed.subsystem == head.subsystem
            &&& parsed.dll_characteristics == head.dll_characteristics
            &&& parsed.address_of_entry_point == head.entry_point
            &&& parsed.image_base == head.image_base
            &&& parsed.size_of_image == head.size_of_image
            &&& parsed.size_of_headers == head.size_of_headers
            &&& parsed.section_alignment == head.section_alignment
            &&& parsed.file_alignment == head.file_alignment
            &&& exports(bytes, sections, table[0]) == Some(parsed.exports)
            &&& (DescriptorTable::Import { delay_load: false }).listed(
                bytes,
                sections,
                table[1],
                base,
                width,
            ) == Some(parsed.imports)
            &&& image_version(bytes, sections, table[2]) == Some(parsed.version_info)
            &&& embedded_manifest(bytes, sections, table[2]) == Some(parsed.embedded_manifest)
            &&& relocations(bytes, sections, table[5]) == Some(parsed.relocations)
            &&& debug_entries(bytes, sections, table[6], head.size_of_headers) == Some(
                parsed.debug_entries,
            )
            &&& tls_directory(bytes, sections, table[9], base, width) == Some(parsed.tls_directory)
            &&& load_config(bytes, sections, table[10], width) == Some(parsed.load_config)
            &&& bound_imports(bytes, sections, table[11], head.size_of_headers) == Some(
                parsed.bound_imports,
            )
            &&& DescriptorTable::DelayImport.listed(bytes, sections, table[13], base, width)
                == Some(parsed.delay_imports)
            &&& clr_header(bytes, sections, table[14]) == Some(parsed.clr_header)
            &&& parsed.is_dotnet == (table[14].virtual_address != 0)
            &&& parsed.external_manifest is None
        }),
{
}

} // verus!
