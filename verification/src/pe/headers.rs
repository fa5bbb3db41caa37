//! The headers of an image, and the image as a whole.
use crate::bytes::{checked_range, in_range, invalid, le16, le32, le64, read_u16, read_u32};
use crate::error::{agrees, AppResult, ReasonCode};
use crate::pe::bound::{bound_imports, parse_bound_import_directory};
use crate::pe::directories::{
    clr_header, debug_entries, directory_at, load_config, parse_clr_header, parse_debug_entries,
    parse_load_config, parse_tls_directory, tls_directory, IMAGE_DIRECTORY_ENTRY_COM_DESCRIPTOR,
    IMAGE_DIRECTORY_ENTRY_DEBUG, IMAGE_DIRECTORY_ENTRY_LOAD_CONFIG, IMAGE_DIRECTORY_ENTRY_TLS,
};
use crate::pe::exports::{exports, parse_export_directory, IMAGE_DIRECTORY_ENTRY_EXPORT};
use crate::pe::imports::{
    directory_entry, directory_or_none, lemma_prepended_nothing, lemma_prepended_push,
    parse_delay_import_directory, parse_import_directory, prepended, DescriptorTable,
    IMAGE_DIRECTORY_ENTRY_BOUND_IMPORT, IMAGE_DIRECTORY_ENTRY_DELAY_IMPORT,
    IMAGE_DIRECTORY_ENTRY_IMPORT,
};
use crate::pe::manifest::{embedded_manifest, parse_embedded_manifest};
use crate::pe::relocations::{parse_relocations, relocations, IMAGE_DIRECTORY_ENTRY_BASERELOC};
use crate::pe::resources::{
    find_resource_blob, resource_blob, IMAGE_DIRECTORY_ENTRY_RESOURCE, RT_VERSION,
};
use crate::pe::rva::larger;
use crate::pe::types::{
    no_directory, BoundImportDescriptor, BoundImportDescriptorModel, ClrHeader, DataDirectory,
    DebugDirectoryEntry, ExportSymbol, ExportSymbolModel, ImportDescriptor, ImportDescriptorModel,
    LoadConfig, ManifestInfo, ManifestInfoModel, ParsedPe, ParsedPeModel, PeSection, PeSectionModel,
    RelocationBlock, RelocationBlockModel, TlsDirectory, TlsDirectoryModel, VersionInfo,
    VersionInfoModel,
};
use crate::pe::version::{image_version, parse_version_resource};
use crate::text::{joined, padded_hex, surrounded};
use vstd::prelude::*;
use vstd::utf8::{decode_utf8, valid_utf8};

verus! {

pub const IMAGE_DOS_SIGNATURE: u16 = 0x5a4d;

pub const IMAGE_NT_SIGNATURE: u32 = 0x0000_4550;

pub const IMAGE_NT_OPTIONAL_HDR32_MAGIC: u16 = 0x10b;

pub const IMAGE_NT_OPTIONAL_HDR64_MAGIC: u16 = 0x20b;

pub const IMAGE_DIRECTORY_ENTRY_EXCEPTION: usize = 3;

pub const IMAGE_DIRECTORY_ENTRY_SECURITY: usize = 4;

/// The number of entries that every directory table is given.
pub const DIRECTORY_ENTRIES: usize = 16;

// ---------------------------------------------------------------------------
// Alignment
// ---------------------------------------------------------------------------

/// The smallest multiple of `alignment` that is not below `value`.
pub open spec fn aligned_up(value: u32, alignment: u32) -> Option<u32> {
    if alignment == 0 {
        None
    } else if value % alignment == 0 {
        Some(value)
    } else if value + (alignment - value % alignment) > u32::MAX {
        None
    } else {
        Some((value + (alignment - value % alignment)) as u32)
    }
}

/// The smallest multiple of `alignment` that is not below `value`.
pub fn align_up(value: u32, alignment: u32) -> (outcome: AppResult<u32>)
    ensures
        agrees(outcome, ReasonCode::RcPeParseInvalid, aligned_up(value, alignment)),
{
    if alignment == 0 {
        return invalid("alignment cannot be zero");
    }
    let remainder: u32 = value % alignment;
    if remainder == 0 {
        return Ok(value);
    }
    match value.checked_add(alignment - remainder) {
        None => invalid("alignment overflow"),
        Some(aligned) => Ok(aligned),
    }
}

/// Rounding up gives the least multiple that is large enough.
pub proof fn lemma_aligned_up(value: u32, alignment: u32)
    ensures
        aligned_up(value, alignment) matches Some(aligned) ==> {
            &&& aligned >= value
            &&& aligned - value < alignment
            &&& aligned % alignment == 0
        },
{
    if alignment != 0 && value % alignment != 0 {
        let v = value as int;
        let a = alignment as int;
        let up = v + (a - v % a);
        assert(up % a == 0) by (nonlinear_arith)
            requires
                a > 0,
                up == v + (a - v % a),
        ;
    }
}

// ---------------------------------------------------------------------------
// File and optional header
// ---------------------------------------------------------------------------

/// What the file header and the optional header say.
#[verifier::ext_equal]
pub struct Headers {
    pub machine: u16,
    pub number_of_sections: u16,
    pub characteristics: u16,
    pub magic: u16,
    pub subsystem: u16,
    pub dll_characteristics: u16,
    pub entry_point: u32,
    pub image_base: u64,
    pub size_of_image: u32,
    pub size_of_headers: u32,
    pub section_alignment: u32,
    pub file_alignment: u32,
    pub pointer_bytes: int,
    /// Where the directory table begins, and how many entries it has.
    pub directory_table: int,
    pub directory_count: int,
    /// Where the section table begins.
    pub section_table: int,
}

/// The size of the optional header before its directory table.
pub open spec fn fixed_size(magic: u16) -> int {
    if magic == IMAGE_NT_OPTIONAL_HDR64_MAGIC {
        112
    } else {
        96
    }
}

/// The smaller of two numbers.
pub open spec fn smaller(a: int, b: int) -> int {
    if a < b {
        a
    } else {
        b
    }
}

/// The headers of the optional header of `size` bytes at `optional`, whose
/// file header lies at `nt`.
pub open spec fn headers_at(bytes: Seq<u8>, nt: int, size: int) -> Headers {
    let optional = nt + 24;
    let magic = le16(bytes, optional);
    let wide = magic == IMAGE_NT_OPTIONAL_HDR64_MAGIC;
    Headers {
        machine: le16(bytes, nt + 4),
        number_of_sections: le16(bytes, nt + 6),
        characteristics: le16(bytes, nt + 22),
        magic,
        subsystem: le16(bytes, optional + 68),
        dll_characteristics: le16(bytes, optional + 70),
        entry_point: le32(bytes, optional + 16),
        image_base: if wide {
            le64(bytes, optional + 24)
        } else {
            le32(bytes, optional + 28) as u64
        },
        size_of_image: le32(bytes, optional + 56),
        size_of_headers: le32(bytes, optional + 60),
        section_alignment: le32(bytes, optional + 32),
        file_alignment: le32(bytes, optional + 36),
        pointer_bytes: if wide {
            8
        } else {
            4
        },
        directory_table: optional + fixed_size(magic),
        directory_count: smaller(
            (size - fixed_size(magic)) / 8,
            le32(bytes, optional + fixed_size(magic) - 4) as int,
        ),
        section_table: optional + size,
    }
}

/// The headers of an image, if it has well-formed ones.
pub open spec fn headers(bytes: Seq<u8>) -> Option<Headers> {
    if !in_range(bytes, 0, 2) || le16(bytes, 0) != IMAGE_DOS_SIGNATURE || !in_range(
        bytes,
        0x3c,
        4,
    ) {
        None
    } else {
        let nt = le32(bytes, 0x3c) as int;
        let size = le16(bytes, nt + 20) as int;
        let magic = le16(bytes, nt + 24);
        if !in_range(bytes, nt, 24) || le32(bytes, nt) != IMAGE_NT_SIGNATURE || !in_range(
            bytes,
            nt + 24,
            size,
        ) || (magic != IMAGE_NT_OPTIONAL_HDR32_MAGIC && magic != IMAGE_NT_OPTIONAL_HDR64_MAGIC)
            || size < fixed_size(magic) || headers_at(bytes, nt, size).size_of_image < headers_at(
            bytes,
            nt,
            size,
        ).size_of_headers {
            None
        } else {
            Some(headers_at(bytes, nt, size))
        }
    }
}

/// The directory table: at least sixteen entries, those beyond the count
/// empty.
pub open spec fn directory_table(bytes: Seq<u8>, head: Headers) -> Seq<DataDirectory> {
    Seq::new(
        if head.directory_count > DIRECTORY_ENTRIES {
            head.directory_count as nat
        } else {
            DIRECTORY_ENTRIES as nat
        },
        |i: int|
            if i < head.directory_count {
                directory_at(bytes, head.directory_table + i * 8)
            } else {
                no_directory()
            },
    )
}

struct HeaderFields {
    machine: u16,
    number_of_sections: u16,
    characteristics: u16,
    magic: u16,
    subsystem: u16,
    dll_characteristics: u16,
    entry_point: u32,
    image_base: u64,
    size_of_image: u32,
    size_of_headers: u32,
    section_alignment: u32,
    file_alignment: u32,
    pointer_bytes: usize,
    directory_table: usize,
    directory_count: usize,
    section_table: usize,
}

impl HeaderFields {
    spec fn model(&self) -> Headers {
        Headers {
            machine: self.machine,
            number_of_sections: self.number_of_sections,
            characteristics: self.characteristics,
            magic: self.magic,
            subsystem: self.subsystem,
            dll_characteristics: self.dll_characteristics,
            entry_point: self.entry_point,
            image_base: self.image_base,
            size_of_image: self.size_of_image,
            size_of_headers: self.size_of_headers,
            section_alignment: self.section_alignment,
            file_alignment: self.file_alignment,
            pointer_bytes: self.pointer_bytes as int,
            directory_table: self.directory_table as int,
            directory_count: self.directory_count as int,
            section_table: self.section_table as int,
        }
    }
}

fn u16_inside(bytes: &[u8], at: usize) -> (value: u16)
    requires
        in_range(bytes@, at as int, 2),
    ensures
        value == le16(bytes@, at as int),
{
    assert(bytes.len() == bytes@.len());
    bytes[at] as u16 + 0x100 * (bytes[at + 1] as u16)
}

fn u32_inside(bytes: &[u8], at: usize) -> (value: u32)
    requires
        in_range(bytes@, at as int, 4),
    ensures
        value == le32(bytes@, at as int),
{
    assert(bytes.len() == bytes@.len());
    bytes[at] as u32 + 0x100 * (bytes[at + 1] as u32) + 0x1_0000 * (bytes[at + 2] as u32)
        + 0x100_0000 * (bytes[at + 3] as u32)
}

fn fields_at(bytes: &[u8], nt: usize, size: usize, magic: u16) -> (fields: HeaderFields)
    requires
        in_range(bytes@, nt as int, 24),
        in_range(bytes@, nt + 24, size as int),
        magic == le16(bytes@, nt + 24),
        magic == IMAGE_NT_OPTIONAL_HDR32_MAGIC || magic == IMAGE_NT_OPTIONAL_HDR64_MAGIC,
        size >= fixed_size(magic),
    ensures
        fields.model() == headers_at(bytes@, nt as int, size as int),
{
    assert(bytes.len() == bytes@.len());
    let optional: usize = nt + 24;
    let wide: bool = magic == IMAGE_NT_OPTIONAL_HDR64_MAGIC;
    let fixed: usize = if wide {
        112
    } else {
        96
    };
    let image_base: u64 = if wide {
        u32_inside(bytes, optional + 24) as u64 + 0x1_0000_0000 * (u32_inside(bytes, optional + 28)
            as u64)
    } else {
        u32_inside(bytes, optional + 28) as u64
    };
    let stated: u32 = u32_inside(bytes, optional + fixed - 4);
    let fitting: usize = (size - fixed) / 8;
    let directory_count: usize = if fitting < stated as usize {
        fitting
    } else {
        stated as usize
    };
    HeaderFields {
        machine: u16_inside(bytes, nt + 4),
        number_of_sections: u16_inside(bytes, nt + 6),
        characteristics: u16_inside(bytes, nt + 22),
        magic,
        subsystem: u16_inside(bytes, optional + 68),
        dll_characteristics: u16_inside(bytes, optional + 70),
        entry_point: u32_inside(bytes, optional + 16),
        image_base,
        size_of_image: u32_inside(bytes, optional + 56),
        size_of_headers: u32_inside(bytes, optional + 60),
        section_alignment: u32_inside(bytes, optional + 32),
        file_alignment: u32_inside(bytes, optional + 36),
        pointer_bytes: if wide {
            8
        } else {
            4
        },
        directory_table: optional + fixed,
        directory_count,
        section_table: optional + size,
    }
}

fn read_headers(bytes: &[u8]) -> (outcome: AppResult<HeaderFields>)
    ensures
        match outcome {
            Ok(fields) => headers(bytes@) == Some(fields.model()) && in_range(
                bytes@,
                fields.directory_table as int,
                fields.directory_count * 8,
            ) && fields.directory_count <= 0x2000,
            Err(error) => headers(bytes@) is None && error.code == ReasonCode::RcPeParseInvalid,
        },
{
    match read_u16(bytes, 0, "DOS signature") {
        Err(error) => {
            return Err(error);
        },
        Ok(signature) => {
            if signature != IMAGE_DOS_SIGNATURE {
                return invalid("invalid DOS signature");
            }
        },
    }
    let nt: usize = match read_u32(bytes, 0x3c, "e_lfanew") {
        Err(error) => {
            return Err(error);
        },
        Ok(value) => value as usize,
    };
    match checked_range(bytes, nt, 24, "NT headers") {
        Err(error) => {
            return Err(error);
        },
        Ok(()) => {},
    }
    assert(bytes.len() == bytes@.len());
    if u32_inside(bytes, nt) != IMAGE_NT_SIGNATURE {
        return invalid("invalid PE signature");
    }
    let size: usize = u16_inside(bytes, nt + 20) as usize;
    match checked_range(bytes, nt + 24, size, "optional header") {
        Err(error) => {
            return Err(error);
        },
        Ok(()) => {},
    }
    if size < 2 {
        return invalid("optional header is too small");
    }
    let magic: u16 = u16_inside(bytes, nt + 24);
    if magic != IMAGE_NT_OPTIONAL_HDR32_MAGIC && magic != IMAGE_NT_OPTIONAL_HDR64_MAGIC {
        return invalid(&joined("unsupported optional header magic 0x", &padded_hex(magic as u64, 4)));
    }
    if magic == IMAGE_NT_OPTIONAL_HDR32_MAGIC && size < 96 {
        return invalid("optional header is too small for PE32");
    }
    if magic == IMAGE_NT_OPTIONAL_HDR64_MAGIC && size < 112 {
        return invalid("optional header is too small for PE32+");
    }
    let fields: HeaderFields = fields_at(bytes, nt, size, magic);
    if fields.size_of_image < fields.size_of_headers {
        return invalid("SizeOfImage is smaller than SizeOfHeaders");
    }
    Ok(fields)
}

fn read_directory_table(bytes: &[u8], fields: &HeaderFields) -> (table: Vec<DataDirectory>)
    requires
        in_range(bytes@, fields.directory_table as int, fields.directory_count * 8),
        fields.directory_count <= 0x2000,
    ensures
        table@ == directory_table(bytes@, fields.model()),
{
    let mut table: Vec<DataDirectory> = Vec::new();
    let length: usize = bytes.len();
    while table.len() < fields.directory_count || table.len() < DIRECTORY_ENTRIES
        invariant
            in_range(bytes@, fields.directory_table as int, fields.directory_count * 8),
            length == bytes.len(),
            fields.directory_count <= 0x2000,
            table.len() <= fields.directory_count || table.len() <= DIRECTORY_ENTRIES,
            forall|i: int|
                0 <= i < table.len() ==> #[trigger] table@[i] == (if i < fields.directory_count {
                    directory_at(bytes@, fields.directory_table + i * 8)
                } else {
                    no_directory()
                }),
        decreases 0x2000 + DIRECTORY_ENTRIES - table.len(),
    {
        let index: usize = table.len();
        if index < fields.directory_count {
            let at: usize = fields.directory_table + index * 8;
            table.push(
                DataDirectory {
                    virtual_address: u32_inside(bytes, at),
                    size: u32_inside(bytes, at + 4),
                },
            );
        } else {
            table.push(DataDirectory { virtual_address: 0, size: 0 });
        }
    }
    assert(table@ =~= directory_table(bytes@, fields.model()));
    table
}

// ---------------------------------------------------------------------------
// Sections
// ---------------------------------------------------------------------------

/// `String::from_utf8_lossy`: the text of the bytes, with U+FFFD in the place
/// of what is not well-formed UTF-8.
pub uninterp spec fn utf8_lossy(bytes: Seq<u8>) -> Seq<char>;

/// `String::from_utf8_lossy` gives the text named [`utf8_lossy`], which is the
/// decoded text where the bytes are well-formed UTF-8. How malformed bytes are
/// divided among replacement characters is left to the name.
#[verifier::external_body]
fn lossy_text(bytes: &[u8]) -> (text: String)
    ensures
        text@ == utf8_lossy(bytes@),
        valid_utf8(bytes@) ==> text@ == decode_utf8(bytes@),
{
    String::from_utf8_lossy(bytes).to_string()
}

/// The text of the bytes: decoded where they are well-formed UTF-8, else with
/// replacement characters.
pub open spec fn readable_text(bytes: Seq<u8>) -> Seq<char> {
    if valid_utf8(bytes) {
        decode_utf8(bytes)
    } else {
        utf8_lossy(bytes)
    }
}

/// The bytes in front of the first zero.
pub open spec fn before_zero(bytes: Seq<u8>) -> Seq<u8>
    decreases bytes.len(),
{
    if bytes.len() == 0 || bytes[0] == 0 {
        Seq::empty()
    } else {
        seq![bytes[0]] + before_zero(bytes.drop_first())
    }
}

/// The section header at `offset`, if the file holds its data and it ends
/// inside the image.
pub open spec fn section_at(bytes: Seq<u8>, offset: int, head: Headers) -> Option<PeSectionModel> {
    if !in_range(bytes, offset, 40) {
        None
    } else {
        let section = PeSectionModel {
            name: readable_text(before_zero(bytes.subrange(offset, offset + 8))),
            virtual_address: le32(bytes, offset + 12),
            virtual_size: le32(bytes, offset + 8),
            raw_data_ptr: le32(bytes, offset + 20),
            raw_data_size: le32(bytes, offset + 16),
            characteristics: le32(bytes, offset + 36),
        };
        if section.raw_data_size > 0 && !in_range(
            bytes,
            section.raw_data_ptr as int,
            section.raw_data_size as int,
        ) {
            None
        } else {
            match aligned_up(
                larger(section.virtual_size, section.raw_data_size),
                head.section_alignment,
            ) {
                None => None,
                Some(extent) => if section.virtual_address + extent > head.size_of_image {
                    None
                } else {
                    Some(section)
                },
            }
        }
    }
}

/// The section headers from `index` on.
pub open spec fn sections_from(bytes: Seq<u8>, head: Headers, index: int) -> Option<
    Seq<PeSectionModel>,
>
    decreases head.number_of_sections - index,
{
    if index >= head.number_of_sections {
        Some(Seq::empty())
    } else {
        match section_at(bytes, head.section_table + index * 40, head) {
            None => None,
            Some(section) => prepended(seq![section], sections_from(bytes, head, index + 1)),
        }
    }
}

fn name_bytes(bytes: &[u8], offset: usize) -> (name: Vec<u8>)
    requires
        in_range(bytes@, offset as int, 8),
    ensures
        name@ == before_zero(bytes@.subrange(offset as int, offset + 8)),
{
    let length: usize = bytes.len();
    let mut name: Vec<u8> = Vec::new();
    let ghost field = bytes@.subrange(offset as int, offset + 8);
    assert(field.skip(0) =~= field);
    assert(name@ + before_zero(field) =~= before_zero(field));
    while name.len() < 8 && bytes[offset + name.len()] != 0
        invariant
            in_range(bytes@, offset as int, 8),
            length == bytes.len(),
            field == bytes@.subrange(offset as int, offset + 8),
            name.len() <= 8,
            before_zero(field) == name@ + before_zero(field.skip(name.len() as int)),
        decreases 8 - name.len(),
    {
        let ghost before = name@;
        let next: u8 = bytes[offset + name.len()];
        name.push(next);
        proof {
            let rest = field.skip(before.len() as int);
            assert(rest[0] == next);
            assert(rest.drop_first() =~= field.skip(name@.len() as int));
            assert(before + (seq![next] + before_zero(field.skip(name@.len() as int))) =~= name@
                + before_zero(field.skip(name@.len() as int)));
        }
    }
    proof {
        let rest = field.skip(name@.len() as int);
        if name@.len() < 8 {
            assert(rest[0] == 0);
        }
        assert(name@ + Seq::<u8>::empty() =~= name@);
    }
    name
}

fn read_section(bytes: &[u8], offset: usize, fields: &HeaderFields) -> (outcome: AppResult<
    PeSection,
>)
    ensures
        agrees(
            outcome,
            ReasonCode::RcPeParseInvalid,
            section_at(bytes@, offset as int, fields.model()),
        ),
{
    match checked_range(bytes, offset, 40, "section header") {
        Err(error) => {
            return Err(error);
        },
        Ok(()) => {},
    }
    assert(bytes.len() == bytes@.len());
    let name: String = lossy_text(&name_bytes(bytes, offset));
    let virtual_size: u32 = u32_inside(bytes, offset + 8);
    let virtual_address: u32 = u32_inside(bytes, offset + 12);
    let raw_data_size: u32 = u32_inside(bytes, offset + 16);
    let raw_data_ptr: u32 = u32_inside(bytes, offset + 20);
    let characteristics: u32 = u32_inside(bytes, offset + 36);
    if raw_data_size > 0 {
        match checked_range(
            bytes,
            raw_data_ptr as usize,
            raw_data_size as usize,
            "section raw data",
        ) {
            Err(error) => {
                return Err(error);
            },
            Ok(()) => {},
        }
    }
    let wanted: u32 = if virtual_size < raw_data_size {
        raw_data_size
    } else {
        virtual_size
    };
    let extent: u32 = match align_up(wanted, fields.section_alignment) {
        Err(error) => {
            return Err(error);
        },
        Ok(extent) => extent,
    };
    match virtual_address.checked_add(extent) {
        None => invalid("section virtual range overflow"),
        Some(virtual_end) => {
            if virtual_end > fields.size_of_image {
                return invalid(&surrounded("section ", &name, " exceeds SizeOfImage"));
            }
            Ok(
                PeSection {
                    name,
                    virtual_address,
                    virtual_size,
                    raw_data_ptr,
                    raw_data_size,
                    characteristics,
                },
            )
        },
    }
}

fn read_sections(bytes: &[u8], fields: &HeaderFields) -> (outcome: AppResult<Vec<PeSection>>)
    ensures
        agrees(
            outcome,
            ReasonCode::RcPeParseInvalid,
            sections_from(bytes@, fields.model(), 0),
        ),
{
    let mut sections: Vec<PeSection> = Vec::new();
    let mut index: usize = 0;
    let ghost whole = sections_from(bytes@, fields.model(), 0);
    proof {
        assert(sections.deep_view() =~= Seq::<PeSectionModel>::empty());
        lemma_prepended_nothing(whole);
    }
    let length: usize = bytes.len();
    while index < fields.number_of_sections as usize
        invariant
            index <= fields.number_of_sections,
            length == bytes.len(),
            whole == sections_from(bytes@, fields.model(), 0),
            whole == prepended(
                sections.deep_view(),
                sections_from(bytes@, fields.model(), index as int),
            ),
        decreases fields.number_of_sections - index,
    {
        let offset: usize = match fields.section_table.checked_add(index * 40) {
            None => {
                return invalid("section header range overflow");
            },
            Some(offset) => offset,
        };
        match read_section(bytes, offset, fields) {
            Err(error) => {
                return Err(error);
            },
            Ok(section) => {
                let ghost before = sections.deep_view();
                proof {
                    lemma_prepended_push(
                        before,
                        section.deep_view(),
                        sections_from(bytes@, fields.model(), index + 1),
                    );
                }
                sections.push(section);
                assert(sections.deep_view() =~= before.push(section.deep_view()));
            },
        }
        index += 1;
    }
    assert(sections.deep_view() + Seq::<PeSectionModel>::empty() =~= sections.deep_view());
    Ok(sections)
}

// ---------------------------------------------------------------------------
// The image
// ---------------------------------------------------------------------------

/// What the directories of an image lead to.
#[verifier::ext_equal]
pub struct DirectoryContents {
    pub debug_entries: Seq<DebugDirectoryEntry>,
    pub load_config: Option<LoadConfig>,
    pub imports: Seq<ImportDescriptorModel>,
    pub delay_imports: Seq<ImportDescriptorModel>,
    pub bound_imports: Seq<BoundImportDescriptorModel>,
    pub exports: Seq<ExportSymbolModel>,
    pub relocations: Seq<RelocationBlockModel>,
    pub tls_directory: Option<TlsDirectoryModel>,
    pub version_info: VersionInfoModel,
    pub embedded_manifest: Option<ManifestInfoModel>,
    pub clr_header: Option<ClrHeader>,
}

/// What the directories of an image lead to, if each is well-formed.
pub open spec fn directory_contents(
    bytes: Seq<u8>,
    head: Headers,
    sections: Seq<PeSectionModel>,
    table: Seq<DataDirectory>,
) -> Option<DirectoryContents> {
    let resource = directory_entry(table, IMAGE_DIRECTORY_ENTRY_RESOURCE as int);
    let clr = directory_entry(table, IMAGE_DIRECTORY_ENTRY_COM_DESCRIPTOR as int);
    match (
        debug_entries(
            bytes,
            sections,
            directory_entry(table, IMAGE_DIRECTORY_ENTRY_DEBUG as int),
            head.size_of_headers,
        ),
        load_config(
            bytes,
            sections,
            directory_entry(table, IMAGE_DIRECTORY_ENTRY_LOAD_CONFIG as int),
            head.pointer_bytes,
        ),
        (DescriptorTable::Import { delay_load: false }).listed(
            bytes,
            sections,
            directory_entry(table, IMAGE_DIRECTORY_ENTRY_IMPORT as int),
            head.image_base,
            head.pointer_bytes,
        ),
        DescriptorTable::DelayImport.listed(
            bytes,
            sections,
            directory_entry(table, IMAGE_DIRECTORY_ENTRY_DELAY_IMPORT as int),
            head.image_base,
            head.pointer_bytes,
        ),
        bound_imports(
            bytes,
            sections,
            directory_entry(table, IMAGE_DIRECTORY_ENTRY_BOUND_IMPORT as int),
            head.size_of_headers,
        ),
        exports(bytes, sections, directory_entry(table, IMAGE_DIRECTORY_ENTRY_EXPORT as int)),
        relocations(
            bytes,
            sections,
            directory_entry(table, IMAGE_DIRECTORY_ENTRY_BASERELOC as int),
        ),
        tls_directory(
            bytes,
            sections,
            directory_entry(table, IMAGE_DIRECTORY_ENTRY_TLS as int),
            head.image_base,
            head.pointer_bytes,
        ),
        image_version(bytes, sections, resource),
        embedded_manifest(bytes, sections, resource),
        clr_header(bytes, sections, clr),
    ) {
        (
            Some(debug_entries),
            Some(load_config),
            Some(imports),
            Some(delay_imports),
            Some(bound_imports),
            Some(exports),
            Some(relocations),
            Some(tls_directory),
            Some(version_info),
            Some(embedded_manifest),
            Some(clr_header),
        ) => Some(
            DirectoryContents {
                debug_entries,
                load_config,
                imports,
                delay_imports,
                bound_imports,
                exports,
                relocations,
                tls_directory,
                version_info,
                embedded_manifest,
                clr_header,
            },
        ),
        _ => None,
    }
}

/// The image in the file, if it is well-formed.
pub open spec fn image(bytes: Seq<u8>) -> Option<ParsedPeModel> {
    match headers(bytes) {
        None => None,
        Some(head) => match sections_from(bytes, head, 0) {
            None => None,
            Some(sections) => {
                let table = directory_table(bytes, head);
                if head.size_of_headers > bytes.len() {
                    None
                } else {
                    match directory_contents(bytes, head, sections, table) {
                        None => None,
                        Some(contents) => Some(assembled(head, sections, table, contents)),
                    }
                }
            },
        },
    }
}

/// The image with the given parts.
pub open spec fn assembled(
    head: Headers,
    sections: Seq<PeSectionModel>,
    table: Seq<DataDirectory>,
    contents: DirectoryContents,
) -> ParsedPeModel {
    ParsedPeModel {
        machine: head.machine,
        number_of_sections: head.number_of_sections,
        characteristics: head.characteristics,
        optional_header_magic: head.magic,
        subsystem: head.subsystem,
        dll_characteristics: head.dll_characteristics,
        address_of_entry_point: head.entry_point,
        image_base: head.image_base,
        size_of_image: head.size_of_image,
        size_of_headers: head.size_of_headers,
        section_alignment: head.section_alignment,
        file_alignment: head.file_alignment,
        data_directories: table,
        sections,
        debug_entries: contents.debug_entries,
        load_config: contents.load_config,
        imports: contents.imports,
        delay_imports: contents.delay_imports,
        exports: contents.exports,
        relocations: contents.relocations,
        tls_directory: contents.tls_directory,
        version_info: contents.version_info,
        embedded_manifest: contents.embedded_manifest,
        external_manifest: None,
        is_dotnet: directory_entry(
            table,
            IMAGE_DIRECTORY_ENTRY_COM_DESCRIPTOR as int,
        ).virtual_address != 0,
        clr_header: contents.clr_header,
        bound_imports: contents.bound_imports,
    }
}

struct ContentFields {
    debug_entries: Vec<DebugDirectoryEntry>,
    load_config: Option<LoadConfig>,
    imports: Vec<ImportDescriptor>,
    delay_imports: Vec<ImportDescriptor>,
    bound_imports: Vec<BoundImportDescriptor>,
    exports: Vec<ExportSymbol>,
    relocations: Vec<RelocationBlock>,
    tls_directory: Option<TlsDirectory>,
    version_info: VersionInfo,
    embedded_manifest: Option<ManifestInfo>,
    clr_header: Option<ClrHeader>,
}

impl ContentFields {
    spec fn model(&self) -> DirectoryContents {
        DirectoryContents {
            debug_entries: self.debug_entries.deep_view(),
            load_config: self.load_config.deep_view(),
            imports: self.imports.deep_view(),
            delay_imports: self.delay_imports.deep_view(),
            bound_imports: self.bound_imports.deep_view(),
            exports: self.exports.deep_view(),
            relocations: self.relocations.deep_view(),
            tls_directory: self.tls_directory.deep_view(),
            version_info: self.version_info.deep_view(),
            embedded_manifest: self.embedded_manifest.deep_view(),
            clr_header: self.clr_header.deep_view(),
        }
    }
}

fn read_contents(
    bytes: &[u8],
    fields: &HeaderFields,
    sections: &[PeSection],
    table: &[DataDirectory],
) -> (outcome: AppResult<ContentFields>)
    ensures
        match outcome {
            Ok(contents) => directory_contents(
                bytes@,
                fields.model(),
                sections.deep_view(),
                table@,
            ) == Some(contents.model()),
            Err(error) => directory_contents(
                bytes@,
                fields.model(),
                sections.deep_view(),
                table@,
            ) is None && error.code == ReasonCode::RcPeParseInvalid,
        },
{
    let debug_entries = match parse_debug_entries(bytes, sections, table, fields.size_of_headers) {
        Err(error) => {
            return Err(error);
        },
        Ok(value) => value,
    };
    let load_config = match parse_load_config(bytes, sections, table, fields.pointer_bytes) {
        Err(error) => {
            return Err(error);
        },
        Ok(value) => value,
    };
    let imports = match parse_import_directory(
        bytes,
        sections,
        table,
        false,
        fields.image_base,
        fields.pointer_bytes,
    ) {
        Err(error) => {
            return Err(error);
        },
        Ok(value) => value,
    };
    let delay_imports = match parse_delay_import_directory(
        bytes,
        sections,
        table,
        fields.image_base,
        fields.pointer_bytes,
    ) {
        Err(error) => {
            return Err(error);
        },
        Ok(value) => value,
    };
    let bound_imports = match parse_bound_import_directory(
        bytes,
        sections,
        table,
        fields.size_of_headers,
    ) {
        Err(error) => {
            return Err(error);
        },
        Ok(value) => value,
    };
    let exports = match parse_export_directory(bytes, sections, table) {
        Err(error) => {
            return Err(error);
        },
        Ok(value) => value,
    };
    let relocations = match parse_relocations(bytes, sections, table) {
        Err(error) => {
            return Err(error);
        },
        Ok(value) => value,
    };
    let tls_directory = match parse_tls_directory(
        bytes,
        sections,
        table,
        fields.image_base,
        fields.pointer_bytes,
    ) {
        Err(error) => {
            return Err(error);
        },
        Ok(value) => value,
    };
    let version_info = match parse_version_resource(bytes, sections, table) {
        Err(error) => {
            return Err(error);
        },
        Ok(value) => value,
    };
    let embedded_manifest = match parse_embedded_manifest(bytes, sections, table) {
        Err(error) => {
            return Err(error);
        },
        Ok(value) => value,
    };
    let clr_header = match parse_clr_header(bytes, sections, table) {
        Err(error) => {
            return Err(error);
        },
        Ok(value) => value,
    };
    Ok(
        ContentFields {
            debug_entries,
            load_config,
            imports,
            delay_imports,
            bound_imports,
            exports,
            relocations,
            tls_directory,
            version_info,
            embedded_manifest,
            clr_header,
        },
    )
}

/// Parses an image.
pub fn parse(bytes: &[u8]) -> (outcome: AppResult<ParsedPe>)
    ensures
        agrees(outcome, ReasonCode::RcPeParseInvalid, image(bytes@)),
{
    let fields: HeaderFields = match read_headers(bytes) {
        Err(error) => {
            return Err(error);
        },
        Ok(fields) => fields,
    };
    let table: Vec<DataDirectory> = read_directory_table(bytes, &fields);
    let sections: Vec<PeSection> = match read_sections(bytes, &fields) {
        Err(error) => {
            return Err(error);
        },
        Ok(sections) => sections,
    };
    if fields.size_of_headers as usize > bytes.len() {
        return invalid("SizeOfHeaders exceeds file size");
    }
    let contents: ContentFields = match read_contents(bytes, &fields, &sections, &table) {
        Err(error) => {
            return Err(error);
        },
        Ok(contents) => contents,
    };
    let is_dotnet: bool = directory_or_none(
        &table,
        IMAGE_DIRECTORY_ENTRY_COM_DESCRIPTOR,
    ).virtual_address != 0;
    assert(table.deep_view() =~= table@);
    Ok(
        ParsedPe {
            machine: fields.machine,
            number_of_sections: fields.number_of_sections,
            characteristics: fields.characteristics,
            optional_header_magic: fields.magic,
            subsystem: fields.subsystem,
            dll_characteristics: fields.dll_characteristics,
            address_of_entry_point: fields.entry_point,
            image_base: fields.image_base,
            size_of_image: fields.size_of_image,
            size_of_headers: fields.size_of_headers,
            section_alignment: fields.section_alignment,
            file_alignment: fields.file_alignment,
            data_directories: table,
            sections,
            debug_entries: contents.debug_entries,
            load_config: contents.load_config,
            imports: contents.imports,
            delay_imports: contents.delay_imports,
            exports: contents.exports,
            relocations: contents.relocations,
            tls_directory: contents.tls_directory,
            version_info: contents.version_info,
            embedded_manifest: contents.embedded_manifest,
            external_manifest: None,
            is_dotnet,
            clr_header: contents.clr_header,
            bound_imports: contents.bound_imports,
        },
    )
}

/// The bytes of the version resource of an image: nothing where the file does
/// not begin as an image does, or the image has no such resource.
pub fn version_resource_blob(bytes: &[u8]) -> (outcome: AppResult<Option<Vec<u8>>>)
    ensures
        agrees(
            outcome,
            ReasonCode::RcPeParseInvalid,
            if bytes@.len() < 2 || le16(bytes@, 0) != IMAGE_DOS_SIGNATURE {
                Some(None)
            } else {
                match image(bytes@) {
                    None => None,
                    Some(parsed) => resource_blob(
                        bytes@,
                        parsed.sections,
                        directory_entry(
                            parsed.data_directories,
                            IMAGE_DIRECTORY_ENTRY_RESOURCE as int,
                        ),
                        RT_VERSION,
                    ),
                }
            },
        ),
{
    if bytes.len() < 2 || u16_inside(bytes, 0) != IMAGE_DOS_SIGNATURE {
        return Ok(None);
    }
    match parse(bytes) {
        Err(error) => Err(error),
        Ok(parsed) => {
            assert(parsed.data_directories.deep_view() =~= parsed.data_directories@);
            find_resource_blob(bytes, &parsed.sections, &parsed.data_directories, RT_VERSION)
        },
    }
}

/// What the version resource of an image says: nothing where the file does not
/// begin as an image does.
pub fn maybe_version_info(bytes: &[u8]) -> (outcome: AppResult<Option<VersionInfo>>)
    ensures
        agrees(
            outcome,
            ReasonCode::RcPeParseInvalid,
            if bytes@.len() < 2 || le16(bytes@, 0) != IMAGE_DOS_SIGNATURE {
                Some(None)
            } else {
                match image(bytes@) {
                    None => None,
                    Some(parsed) => Some(Some(parsed.version_info)),
                }
            },
        ),
{
    if bytes.len() < 2 || u16_inside(bytes, 0) != IMAGE_DOS_SIGNATURE {
        return Ok(None);
    }
    match parse(bytes) {
        Err(error) => Err(error),
        Ok(parsed) => Ok(Some(parsed.version_info)),
    }
}

/// A number can be rounded up wherever a multiple of the step fits, and one that
/// is a multiple already stays.
pub proof fn lemma_aligned_where(value: u32, alignment: u32, multiple: u32)
    requires
        alignment > 0,
        multiple % alignment == 0,
        value <= multiple,
    ensures
        aligned_up(value, alignment) matches Some(aligned) && aligned <= multiple,
        aligned_up(multiple, alignment) == Some(multiple),
        aligned_up(value, 0) is None,
{
    let v = value as int;
    let a = alignment as int;
    let m = multiple as int;
    assert(v % a != 0 ==> v + (a - v % a) <= m) by (nonlinear_arith)
        requires
            a > 0,
            m % a == 0,
            v <= m,
            v >= 0,
    {
        let q = v / a;
        let k = m / a;
        assert(v == a * q + v % a);
        assert(m == a * k);
        if v % a != 0 {
            assert(k > q) by (nonlinear_arith)
                requires
                    a > 0,
                    v == a * q + v % a,
                    m == a * k,
                    v <= m,
                    v % a > 0,
            ;
            assert(a * k >= a * (q + 1)) by (nonlinear_arith)
                requires
                    a > 0,
                    k >= q + 1,
            ;
            assert(a * (q + 1) == a * q + a) by (nonlinear_arith);
        }
    }
}

} // verus!
