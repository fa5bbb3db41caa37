//! The debug, load configuration, CLR and thread local storage directories.
use crate::bytes::{
    checked_range, field_u16, field_u32, in_range, invalid, le16, le32, read_u32, u32_at,
};
use crate::error::{agrees, AppResult, ReasonCode};
use crate::pe::imports::{
    absent, directory_entry, directory_or_none, lemma_prepended_nothing, lemma_prepended_push,
    prepended,
};
use crate::pe::rva::{
    covering, file_offset, larger, lemma_covering, pointer_at, read_pointer, read_pointer_at_rva,
    rva_to_file_offset, section_for_rva, table_pointer,
};
use crate::pe::types::{
    ClrHeader, DataDirectory, DebugDirectoryEntry, LoadConfig, PeSection, PeSectionModel,
    TlsDirectory, TlsDirectoryModel,
};
use vstd::prelude::*;

verus! {

pub const IMAGE_DIRECTORY_ENTRY_DEBUG: usize = 6;

pub const IMAGE_DIRECTORY_ENTRY_TLS: usize = 9;

pub const IMAGE_DIRECTORY_ENTRY_LOAD_CONFIG: usize = 10;

pub const IMAGE_DIRECTORY_ENTRY_COM_DESCRIPTOR: usize = 14;

/// The largest index of a callback of the thread local storage directory.
pub const CALLBACK_LIMIT: usize = 256;

// ---------------------------------------------------------------------------
// Debug directory
// ---------------------------------------------------------------------------

/// The debug directory entry at `offset`.
pub open spec fn debug_entry(bytes: Seq<u8>, offset: int) -> DebugDirectoryEntry {
    DebugDirectoryEntry {
        ty: le32(bytes, offset + 12),
        size_of_data: le32(bytes, offset + 16),
        address_of_raw_data: le32(bytes, offset + 20),
        pointer_to_raw_data: le32(bytes, offset + 24),
    }
}

/// The entries of the debug directory: as many 28-byte entries as fit in it,
/// all of which the file must hold.
pub open spec fn debug_entries(
    bytes: Seq<u8>,
    sections: Seq<PeSectionModel>,
    directory: DataDirectory,
    size_of_headers: u32,
) -> Option<Seq<DebugDirectoryEntry>> {
    if absent(directory) {
        Some(Seq::empty())
    } else {
        match file_offset(directory.virtual_address, directory.size, sections, size_of_headers) {
            None => None,
            Some(offset) => {
                let count = directory.size as int / 28;
                if count > 0 && !in_range(bytes, offset, count * 28) {
                    None
                } else {
                    Some(Seq::new(count as nat, |i: int| debug_entry(bytes, offset + i * 28)))
                }
            },
        }
    }
}

/// The entries of the debug directory.
pub fn parse_debug_entries(
    bytes: &[u8],
    sections: &[PeSection],
    directories: &[DataDirectory],
    size_of_headers: u32,
) -> (outcome: AppResult<Vec<DebugDirectoryEntry>>)
    ensures
        agrees(
            outcome,
            ReasonCode::RcPeParseInvalid,
            debug_entries(
                bytes@,
                sections.deep_view(),
                directory_entry(directories@, IMAGE_DIRECTORY_ENTRY_DEBUG as int),
                size_of_headers,
            ),
        ),
{
    let directory: DataDirectory = directory_or_none(directories, IMAGE_DIRECTORY_ENTRY_DEBUG);
    let mut entries: Vec<DebugDirectoryEntry> = Vec::new();
    if directory.virtual_address == 0 || directory.size == 0 {
        assert(entries.deep_view() =~= Seq::<DebugDirectoryEntry>::empty());
        return Ok(entries);
    }
    let offset: usize = match rva_to_file_offset(
        directory.virtual_address,
        directory.size,
        sections,
        size_of_headers,
    ) {
        Err(error) => {
            return Err(error);
        },
        Ok(offset) => offset,
    };
    let count: usize = directory.size as usize / 28;
    assert(bytes.len() == bytes@.len());
    if count > 0 {
        match checked_range(bytes, offset, count * 28, "debug directory entry") {
            Err(error) => {
                return Err(error);
            },
            Ok(()) => {},
        }
    }
    let mut index: usize = 0;
    while index < count
        invariant
            index <= count,
            count <= 0xffff_ffffint / 28,
            index > 0 || count > 0 ==> in_range(bytes@, offset as int, count * 28),
            entries@ == Seq::new(
                index as nat,
                |i: int| debug_entry(bytes@, offset + i * 28),
            ),
            bytes@.len() <= usize::MAX,
        decreases count - index,
    {
        let place: usize = index * 28;
        let ty = field_u32(bytes, offset, place + 12, "debug type");
        let size_of_data = field_u32(bytes, offset, place + 16, "debug data size");
        let address_of_raw_data = field_u32(bytes, offset, place + 20, "debug raw RVA");
        let pointer_to_raw_data = field_u32(bytes, offset, place + 24, "debug raw pointer");
        match (ty, size_of_data, address_of_raw_data, pointer_to_raw_data) {
            (Ok(ty), Ok(size_of_data), Ok(address_of_raw_data), Ok(pointer_to_raw_data)) => {
                entries.push(
                    DebugDirectoryEntry {
                        ty,
                        size_of_data,
                        address_of_raw_data,
                        pointer_to_raw_data,
                    },
                );
            },
            _ => {
                assert(false);
            },
        }
        index += 1;
    }
    assert(entries.deep_view() =~= entries@);
    Ok(entries)
}

// ---------------------------------------------------------------------------
// Load configuration
// ---------------------------------------------------------------------------

/// A 32-bit field of the load configuration; zero where the configuration
/// ends before it.
pub open spec fn config_u32(bytes: Seq<u8>, offset: int, present: int, field: int) -> Option<u32> {
    if field + 4 > present {
        Some(0)
    } else {
        u32_at(bytes, offset + field)
    }
}

/// A pointer of the load configuration; zero where the configuration ends
/// before it.
pub open spec fn config_pointer(
    bytes: Seq<u8>,
    offset: int,
    present: int,
    field: int,
    pointer_bytes: int,
) -> Option<u64> {
    if field + pointer_bytes > present {
        Some(0)
    } else {
        pointer_at(bytes, offset + field, pointer_bytes)
    }
}

/// How many bytes of the load configuration at `rva` there are: the larger of
/// what the directory and the configuration itself say, but no more than its
/// section holds.
pub open spec fn config_extent(section: PeSectionModel, rva: u32, stated: u32, size: u32) -> int {
    let available = section.raw_data_size - (rva - section.virtual_address);
    let wanted = larger(stated, size) as int;
    if wanted < available {
        wanted
    } else {
        available
    }
}

/// Where the fields of the load configuration lie: the security cookie, the
/// exception handler table and count, the four control flow guard pointers,
/// and the guard flags.
pub open spec fn config_layout(pointer_bytes: int, present: int) -> (
    Option<int>,
    int,
    int,
    int,
    int,
    int,
    int,
    int,
) {
    if pointer_bytes == 8 {
        (Some(0x58), 0x60, 0x68, 0x70, 0x78, 0x80, 0x88, 0x90)
    } else if present >= 0x48 {
        (Some(0x3c), 0x40, 0x44, 0x48, 0x4c, 0x50, 0x54, 0x58)
    } else {
        (None, 0x38, 0x3c, 0x48, 0x4c, 0x50, 0x54, 0x58)
    }
}

/// The load configuration of `present` bytes at `offset`.
pub open spec fn config_at(
    bytes: Seq<u8>,
    offset: int,
    present: int,
    pointer_bytes: int,
) -> Option<LoadConfig> {
    let (cookie, table, count, check, dispatch, functions, function_count, flags) = config_layout(
        pointer_bytes,
        present,
    );
    let pointer = |field: int| config_pointer(bytes, offset, present, field, pointer_bytes);
    match (
        (match cookie {
            Some(field) => pointer(field),
            None => Some(0u64),
        }),
        config_u32(bytes, offset, present, flags),
        pointer(table),
        pointer(count),
        pointer(check),
        pointer(dispatch),
        pointer(functions),
        pointer(function_count),
    ) {
        (
            Some(security_cookie),
            Some(guard_flags),
            Some(se_handler_table),
            Some(se_handler_count),
            Some(guard_cf_check_function_pointer),
            Some(guard_cf_dispatch_function_pointer),
            Some(guard_cf_function_table),
            Some(guard_cf_function_count),
        ) => Some(
            LoadConfig {
                security_cookie,
                guard_flags,
                se_handler_table,
                se_handler_count,
                guard_cf_check_function_pointer,
                guard_cf_dispatch_function_pointer,
                guard_cf_function_table,
                guard_cf_function_count,
            },
        ),
        _ => None,
    }
}

/// The load configuration of the image: `Some(None)` where it has none.
pub open spec fn load_config(
    bytes: Seq<u8>,
    sections: Seq<PeSectionModel>,
    directory: DataDirectory,
    pointer_bytes: int,
) -> Option<Option<LoadConfig>> {
    if absent(directory) {
        Some(None)
    } else {
        match file_offset(directory.virtual_address, 4, sections, 0) {
            None => None,
            Some(offset) => match (
                u32_at(bytes, offset),
                covering(sections, directory.virtual_address, 1, false),
            ) {
                (Some(stated), Some(section)) => match config_at(
                    bytes,
                    offset,
                    config_extent(section, directory.virtual_address, stated, directory.size),
                    pointer_bytes,
                ) {
                    None => None,
                    Some(config) => Some(Some(config)),
                },
                _ => None,
            },
        }
    }
}

/// A 32-bit field of the load configuration.
pub fn read_load_config_u32(
    bytes: &[u8],
    load_config_offset: usize,
    present_size: usize,
    field_offset: usize,
    label: &str,
) -> (outcome: AppResult<u32>)
    ensures
        agrees(
            outcome,
            ReasonCode::RcPeParseInvalid,
            config_u32(
                bytes@,
                load_config_offset as int,
                present_size as int,
                field_offset as int,
            ),
        ),
{
    if present_size < 4 || present_size - 4 < field_offset {
        return Ok(0);
    }
    field_u32(bytes, load_config_offset, field_offset, label)
}

/// A pointer of the load configuration.
pub fn read_load_config_pointer(
    bytes: &[u8],
    load_config_offset: usize,
    present_size: usize,
    field_offset: usize,
    pointer_bytes: usize,
    label: &str,
) -> (outcome: AppResult<u64>)
    ensures
        agrees(
            outcome,
            ReasonCode::RcPeParseInvalid,
            config_pointer(
                bytes@,
                load_config_offset as int,
                present_size as int,
                field_offset as int,
                pointer_bytes as int,
            ),
        ),
{
    if present_size < pointer_bytes || present_size - pointer_bytes < field_offset {
        return Ok(0);
    }
    assert(bytes.len() == bytes@.len());
    match load_config_offset.checked_add(field_offset) {
        None => invalid("load configuration range overflow"),
        Some(offset) => read_pointer(bytes, offset, pointer_bytes, label),
    }
}

fn read_config(bytes: &[u8], offset: usize, present: usize, pointer_bytes: usize) -> (outcome:
    AppResult<LoadConfig>)
    ensures
        agrees(
            outcome,
            ReasonCode::RcPeParseInvalid,
            config_at(bytes@, offset as int, present as int, pointer_bytes as int),
        ),
{
    let fields: (Option<usize>, usize, usize, usize, usize, usize, usize, usize) = if pointer_bytes
        == 8 {
        (Some(0x58), 0x60, 0x68, 0x70, 0x78, 0x80, 0x88, 0x90)
    } else if present >= 0x48 {
        (Some(0x3c), 0x40, 0x44, 0x48, 0x4c, 0x50, 0x54, 0x58)
    } else {
        (None, 0x38, 0x3c, 0x48, 0x4c, 0x50, 0x54, 0x58)
    };
    let (cookie, table, count, check, dispatch, functions, function_count, flags) = fields;
    let security_cookie: u64 = match cookie {
        None => 0,
        Some(field) => match read_load_config_pointer(
            bytes,
            offset,
            present,
            field,
            pointer_bytes,
            "SecurityCookie",
        ) {
            Err(error) => {
                return Err(error);
            },
            Ok(value) => value,
        },
    };
    let guard_flags: u32 = match read_load_config_u32(bytes, offset, present, flags, "GuardFlags") {
        Err(error) => {
            return Err(error);
        },
        Ok(value) => value,
    };
    let se_handler_table: u64 = match read_load_config_pointer(
        bytes,
        offset,
        present,
        table,
        pointer_bytes,
        "SEHandlerTable",
    ) {
        Err(error) => {
            return Err(error);
        },
        Ok(value) => value,
    };
    let se_handler_count: u64 = match read_load_config_pointer(
        bytes,
        offset,
        present,
        count,
        pointer_bytes,
        "SEHandlerCount",
    ) {
        Err(error) => {
            return Err(error);
        },
        Ok(value) => value,
    };
    let guard_cf_check_function_pointer: u64 = match read_load_config_pointer(
        bytes,
        offset,
        present,
        check,
        pointer_bytes,
        "GuardCFCheckFunctionPointer",
    ) {
        Err(error) => {
            return Err(error);
        },
        Ok(value) => value,
    };
    let guard_cf_dispatch_function_pointer: u64 = match read_load_config_pointer(
        bytes,
        offset,
        present,
        dispatch,
        pointer_bytes,
        "GuardCFDispatchFunctionPointer",
    ) {
        Err(error) => {
            return Err(error);
        },
        Ok(value) => value,
    };
    let guard_cf_function_table: u64 = match read_load_config_pointer(
        bytes,
        offset,
        present,
        functions,
        pointer_bytes,
        "GuardCFFunctionTable",
    ) {
        Err(error) => {
            return Err(error);
        },
        Ok(value) => value,
    };
    let guard_cf_function_count: u64 = match read_load_config_pointer(
        bytes,
        offset,
        present,
        function_count,
        pointer_bytes,
        "GuardCFFunctionCount",
    ) {
        Err(error) => {
            return Err(error);
        },
        Ok(value) => value,
    };
    Ok(
        LoadConfig {
            security_cookie,
            guard_flags,
            se_handler_table,
            se_handler_count,
            guard_cf_check_function_pointer,
            guard_cf_dispatch_function_pointer,
            guard_cf_function_table,
            guard_cf_function_count,
        },
    )
}

/// The load configuration of the image.
pub fn parse_load_config(
    bytes: &[u8],
    sections: &[PeSection],
    directories: &[DataDirectory],
    pointer_bytes: usize,
) -> (outcome: AppResult<Option<LoadConfig>>)
    ensures
        agrees(
            outcome,
            ReasonCode::RcPeParseInvalid,
            load_config(
                bytes@,
                sections.deep_view(),
                directory_entry(directories@, IMAGE_DIRECTORY_ENTRY_LOAD_CONFIG as int),
                pointer_bytes as int,
            ),
        ),
{
    let directory: DataDirectory = directory_or_none(directories, IMAGE_DIRECTORY_ENTRY_LOAD_CONFIG);
    if directory.virtual_address == 0 || directory.size == 0 {
        return Ok(None);
    }
    let offset: usize = match rva_to_file_offset(directory.virtual_address, 4, sections, 0) {
        Err(error) => {
            return Err(error);
        },
        Ok(offset) => offset,
    };
    let stated: u32 = match read_u32(bytes, offset, "load config size") {
        Err(error) => {
            return Err(error);
        },
        Ok(value) => value,
    };
    proof {
        lemma_covering(sections.deep_view(), directory.virtual_address, 1, false);
    }
    match section_for_rva(sections, directory.virtual_address, 1, false) {
        None => invalid("load config directory is not backed by file data"),
        Some(section) => {
            let relative: u32 = directory.virtual_address - section.virtual_address;
            let available: u32 = section.raw_data_size - relative;
            let wanted: u32 = if stated < directory.size {
                directory.size
            } else {
                stated
            };
            let present: u32 = if wanted < available {
                wanted
            } else {
                available
            };
            match read_config(bytes, offset, present as usize, pointer_bytes) {
                Err(error) => Err(error),
                Ok(config) => Ok(Some(config)),
            }
        },
    }
}

// ---------------------------------------------------------------------------
// CLR header
// ---------------------------------------------------------------------------

/// The address and size at `offset`.
pub open spec fn directory_at(bytes: Seq<u8>, offset: int) -> DataDirectory {
    DataDirectory { virtual_address: le32(bytes, offset), size: le32(bytes, offset + 4) }
}

/// The CLR header at `offset`.
pub open spec fn clr_header_at(bytes: Seq<u8>, offset: int) -> ClrHeader {
    ClrHeader {
        major_runtime_version: le16(bytes, offset + 4),
        minor_runtime_version: le16(bytes, offset + 6),
        metadata: directory_at(bytes, offset + 8),
        flags: le32(bytes, offset + 16),
        entry_point_token: le32(bytes, offset + 20),
        resources: directory_at(bytes, offset + 24),
        strong_name_signature: directory_at(bytes, offset + 32),
        code_manager_table: directory_at(bytes, offset + 40),
        vtable_fixups: directory_at(bytes, offset + 48),
        export_address_table_jumps: directory_at(bytes, offset + 56),
        managed_native_header: directory_at(bytes, offset + 64),
    }
}

/// The CLR header of the image: `Some(None)` where it has none, or one whose
/// stated size is not at least 72 bytes and within the directory.
pub open spec fn clr_header(
    bytes: Seq<u8>,
    sections: Seq<PeSectionModel>,
    directory: DataDirectory,
) -> Option<Option<ClrHeader>> {
    if directory.virtual_address == 0 || directory.size < 72 {
        Some(None)
    } else {
        match file_offset(directory.virtual_address, 72, sections, 0) {
            None => None,
            Some(offset) => if !in_range(bytes, offset, 72) {
                None
            } else if le32(bytes, offset) < 72 || le32(bytes, offset) > directory.size {
                Some(None)
            } else {
                Some(Some(clr_header_at(bytes, offset)))
            },
        }
    }
}

fn read_directory(bytes: &[u8], offset: usize) -> (directory: DataDirectory)
    requires
        in_range(bytes@, offset as int, 8),
    ensures
        directory == directory_at(bytes@, offset as int),
{
    assert(bytes.len() == bytes@.len());
    match (read_u32(bytes, offset, "directory RVA"), read_u32(bytes, offset + 4, "directory size")) {
        (Ok(virtual_address), Ok(size)) => DataDirectory { virtual_address, size },
        _ => {
            assert(false);
            DataDirectory { virtual_address: 0, size: 0 }
        },
    }
}

/// The CLR header of the image.
pub fn parse_clr_header(bytes: &[u8], sections: &[PeSection], directories: &[DataDirectory]) -> (outcome:
    AppResult<Option<ClrHeader>>)
    ensures
        agrees(
            outcome,
            ReasonCode::RcPeParseInvalid,
            clr_header(
                bytes@,
                sections.deep_view(),
                directory_entry(directories@, IMAGE_DIRECTORY_ENTRY_COM_DESCRIPTOR as int),
            ),
        ),
{
    let directory: DataDirectory = directory_or_none(
        directories,
        IMAGE_DIRECTORY_ENTRY_COM_DESCRIPTOR,
    );
    if directory.virtual_address == 0 || directory.size < 72 {
        return Ok(None);
    }
    let offset: usize = match rva_to_file_offset(directory.virtual_address, 72, sections, 0) {
        Err(error) => {
            return Err(error);
        },
        Ok(offset) => offset,
    };
    match checked_range(bytes, offset, 72, "CLR header") {
        Err(error) => {
            return Err(error);
        },
        Ok(()) => {},
    }
    assert(bytes.len() == bytes@.len());
    let stated = read_u32(bytes, offset, "CLR header size");
    let major = field_u16(bytes, offset, 4, "CLR MajorRuntimeVersion");
    let minor = field_u16(bytes, offset, 6, "CLR MinorRuntimeVersion");
    let flags = field_u32(bytes, offset, 16, "CLR flags");
    let token = field_u32(bytes, offset, 20, "CLR EntryPointToken");
    match (stated, major, minor, flags, token) {
        (
            Ok(stated),
            Ok(major_runtime_version),
            Ok(minor_runtime_version),
            Ok(flags),
            Ok(entry_point_token),
        ) => {
            if stated < 72 || stated > directory.size {
                return Ok(None);
            }
            Ok(
                Some(
                    ClrHeader {
                        major_runtime_version,
                        minor_runtime_version,
                        metadata: read_directory(bytes, offset + 8),
                        flags,
                        entry_point_token,
                        resources: read_directory(bytes, offset + 24),
                        strong_name_signature: read_directory(bytes, offset + 32),
                        code_manager_table: read_directory(bytes, offset + 40),
                        vtable_fixups: read_directory(bytes, offset + 48),
                        export_address_table_jumps: read_directory(bytes, offset + 56),
                        managed_native_header: read_directory(bytes, offset + 64),
                    },
                ),
            )
        },
        _ => {
            assert(false);
            invalid("CLR header")
        },
    }
}

// ---------------------------------------------------------------------------
// Thread local storage
// ---------------------------------------------------------------------------

/// The callbacks of the array at `rva` from `index` up to the first zero.
pub open spec fn callbacks_from(
    bytes: Seq<u8>,
    sections: Seq<PeSectionModel>,
    rva: u32,
    pointer_bytes: int,
    index: int,
) -> Option<Seq<u64>>
    decreases CALLBACK_LIMIT + 1 - index,
{
    if index > CALLBACK_LIMIT {
        None
    } else {
        match table_pointer(bytes, sections, rva, index, pointer_bytes) {
            None => None,
            Some(callback) => if callback == 0 {
                Some(Seq::empty())
            } else {
                prepended(
                    seq![callback],
                    callbacks_from(bytes, sections, rva, pointer_bytes, index + 1),
                )
            },
        }
    }
}

/// The callbacks whose array lies at the virtual address `address`; address
/// zero stands for no callbacks.
pub open spec fn callbacks_at(
    bytes: Seq<u8>,
    sections: Seq<PeSectionModel>,
    address: u64,
    image_base: u64,
    pointer_bytes: int,
) -> Option<Seq<u64>> {
    if address == 0 {
        Some(Seq::empty())
    } else if address < image_base || address - image_base > u32::MAX {
        None
    } else {
        callbacks_from(bytes, sections, (address - image_base) as u32, pointer_bytes, 0)
    }
}

/// The thread local storage directory at `offset`.
pub open spec fn tls_at(
    bytes: Seq<u8>,
    sections: Seq<PeSectionModel>,
    offset: int,
    image_base: u64,
    pointer_bytes: int,
) -> Option<TlsDirectoryModel> {
    match (
        pointer_at(bytes, offset, pointer_bytes),
        pointer_at(bytes, offset + pointer_bytes, pointer_bytes),
        pointer_at(bytes, offset + pointer_bytes * 2, pointer_bytes),
        pointer_at(bytes, offset + pointer_bytes * 3, pointer_bytes),
    ) {
        (
            Some(raw_data_start),
            Some(raw_data_end),
            Some(address_of_index),
            Some(address_of_callbacks),
        ) => match callbacks_at(bytes, sections, address_of_callbacks, image_base, pointer_bytes) {
            None => None,
            Some(callbacks) => Some(
                TlsDirectoryModel {
                    raw_data_start,
                    raw_data_end,
                    address_of_index,
                    address_of_callbacks,
                    callbacks,
                },
            ),
        },
        _ => None,
    }
}

/// The thread local storage directory of the image: `Some(None)` where it has
/// none.
pub open spec fn tls_directory(
    bytes: Seq<u8>,
    sections: Seq<PeSectionModel>,
    directory: DataDirectory,
    image_base: u64,
    pointer_bytes: int,
) -> Option<Option<TlsDirectoryModel>> {
    if absent(directory) {
        Some(None)
    } else {
        let size: u32 = if pointer_bytes == 8 {
            40
        } else {
            24
        };
        match file_offset(directory.virtual_address, size, sections, 0) {
            None => None,
            Some(offset) => if !in_range(bytes, offset, size as int) {
                None
            } else {
                match tls_at(bytes, sections, offset, image_base, pointer_bytes) {
                    None => None,
                    Some(tls) => Some(Some(tls)),
                }
            },
        }
    }
}

/// The callbacks of the array at `callbacks_rva`, up to the first zero.
pub fn read_callback_array(
    bytes: &[u8],
    sections: &[PeSection],
    callbacks_rva: u32,
    pointer_bytes: usize,
) -> (outcome: AppResult<Vec<u64>>)
    ensures
        agrees(
            outcome,
            ReasonCode::RcPeParseInvalid,
            callbacks_from(bytes@, sections.deep_view(), callbacks_rva, pointer_bytes as int, 0),
        ),
{
    let mut callbacks: Vec<u64> = Vec::new();
    let mut index: usize = 0;
    let ghost whole = callbacks_from(bytes@, sections.deep_view(), callbacks_rva, pointer_bytes as int, 0);
    proof {
        lemma_prepended_nothing(whole);
    }
    loop
        invariant
            index <= CALLBACK_LIMIT + 1,
            whole == callbacks_from(bytes@, sections.deep_view(), callbacks_rva, pointer_bytes as int, 0),
            whole == prepended(
                callbacks@,
                callbacks_from(
                    bytes@,
                    sections.deep_view(),
                    callbacks_rva,
                    pointer_bytes as int,
                    index as int,
                ),
            ),
        decreases CALLBACK_LIMIT + 1 - index,
    {
        if index > CALLBACK_LIMIT {
            return invalid("TLS callback array exceeded the safety limit");
        }
        match read_pointer_at_rva(
            bytes,
            sections,
            callbacks_rva,
            index,
            pointer_bytes,
            "TLS callback",
        ) {
            Err(error) => {
                return Err(error);
            },
            Ok(callback) => {
                if callback == 0 {
                    assert(callbacks@ + Seq::<u64>::empty() =~= callbacks@);
                    assert(callbacks.deep_view() =~= callbacks@);
                    return Ok(callbacks);
                }
                proof {
                    lemma_prepended_push(
                        callbacks@,
                        callback,
                        callbacks_from(
                            bytes@,
                            sections.deep_view(),
                            callbacks_rva,
                            pointer_bytes as int,
                            index + 1,
                        ),
                    );
                }
                callbacks.push(callback);
                index += 1;
            },
        }
    }
}

fn read_callbacks(
    bytes: &[u8],
    sections: &[PeSection],
    address: u64,
    image_base: u64,
    pointer_bytes: usize,
) -> (outcome: AppResult<Vec<u64>>)
    ensures
        agrees(
            outcome,
            ReasonCode::RcPeParseInvalid,
            callbacks_at(bytes@, sections.deep_view(), address, image_base, pointer_bytes as int),
        ),
{
    if address == 0 {
        let none: Vec<u64> = Vec::new();
        assert(none.deep_view() =~= Seq::<u64>::empty());
        return Ok(none);
    }
    if address < image_base {
        return invalid("TLS callback VA is below image base");
    }
    if address - image_base > 0xffff_ffff {
        return invalid("TLS callback VA does not fit in RVA space");
    }
    read_callback_array(bytes, sections, (address - image_base) as u32, pointer_bytes)
}

fn read_tls(
    bytes: &[u8],
    sections: &[PeSection],
    offset: usize,
    image_base: u64,
    pointer_bytes: usize,
) -> (outcome: AppResult<TlsDirectory>)
    requires
        in_range(bytes@, offset as int, 24),
        pointer_bytes == 8 ==> in_range(bytes@, offset as int, 40),
    ensures
        agrees(
            outcome,
            ReasonCode::RcPeParseInvalid,
            tls_at(bytes@, sections.deep_view(), offset as int, image_base, pointer_bytes as int),
        ),
{
    assert(bytes.len() == bytes@.len());
    let raw_data_start: u64 = match read_pointer(bytes, offset, pointer_bytes, "TLS raw data start") {
        Err(error) => {
            return Err(error);
        },
        Ok(value) => value,
    };
    let raw_data_end: u64 = match read_pointer(
        bytes,
        offset + pointer_bytes,
        pointer_bytes,
        "TLS raw data end",
    ) {
        Err(error) => {
            return Err(error);
        },
        Ok(value) => value,
    };
    let address_of_index: u64 = match read_pointer(
        bytes,
        offset + pointer_bytes * 2,
        pointer_bytes,
        "TLS address of index",
    ) {
        Err(error) => {
            return Err(error);
        },
        Ok(value) => value,
    };
    let address_of_callbacks: u64 = match read_pointer(
        bytes,
        offset + pointer_bytes * 3,
        pointer_bytes,
        "TLS address of callbacks",
    ) {
        Err(error) => {
            return Err(error);
        },
        Ok(value) => value,
    };
    match read_callbacks(bytes, sections, address_of_callbacks, image_base, pointer_bytes) {
        Err(error) => Err(error),
        Ok(callbacks) => Ok(
            TlsDirectory {
                raw_data_start,
                raw_data_end,
                address_of_index,
                address_of_callbacks,
                callbacks,
            },
        ),
    }
}

/// The thread local storage directory of the image.
pub fn parse_tls_directory(
    bytes: &[u8],
    sections: &[PeSection],
    directories: &[DataDirectory],
    image_base: u64,
    pointer_bytes: usize,
) -> (outcome: AppResult<Option<TlsDirectory>>)
    ensures
        agrees(
            outcome,
            ReasonCode::RcPeParseInvalid,
            tls_directory(
                bytes@,
                sections.deep_view(),
                directory_entry(directories@, IMAGE_DIRECTORY_ENTRY_TLS as int),
                image_base,
                pointer_bytes as int,
            ),
        ),
{
    let directory: DataDirectory = directory_or_none(directories, IMAGE_DIRECTORY_ENTRY_TLS);
    if directory.virtual_address == 0 || directory.size == 0 {
        return Ok(None);
    }
    let size: u32 = if pointer_bytes == 8 {
        40
    } else {
        24
    };
    let offset: usize = match rva_to_file_offset(directory.virtual_address, size, sections, 0) {
        Err(error) => {
            return Err(error);
        },
        Ok(offset) => offset,
    };
    match checked_range(bytes, offset, size as usize, "TLS directory") {
        Err(error) => {
            return Err(error);
        },
        Ok(()) => {},
    }
    match read_tls(bytes, sections, offset, image_base, pointer_bytes) {
        Err(error) => Err(error),
        Ok(tls) => Ok(Some(tls)),
    }
}

/// A load configuration is read as far as it says itself, or as its directory
/// says where that is more, but not beyond the data of its section.
pub proof fn lemma_config_extent(section: PeSectionModel, rva: u32, stated: u32, size: u32)
    requires
        section.virtual_address <= rva,
    ensures
        ({
            let extent = config_extent(section, rva, stated, size);
            let end = section.virtual_address + section.raw_data_size;
            &&& rva + extent <= end
            &&& rva + stated <= end && rva + size <= end ==> extent >= stated && extent >= size && (
            extent == stated || extent == size)
            &&& rva + stated > end || rva + size > end ==> rva + extent == end
        }),
{
}

} // verus!
