//! The import, delay-import and bound-import directories.
use crate::bytes::{field_u32, invalid, read_u16, u16_at, u32_at};
use crate::error::{agrees, AppResult, ReasonCode};
use crate::pe::rva::{
    c_string_at, c_string_at_rva, file_offset, read_c_string, read_c_string_from_rva,
    read_pointer_at_rva, rva_to_file_offset, table_pointer,
};
use crate::pe::types::{
    no_directory, DataDirectory, ImportDescriptor, ImportDescriptorModel, ImportSymbol,
    ImportSymbolModel, ImportThunk, ImportThunkModel, PeSection, PeSectionModel,
};
use crate::text::{noted, padded_hex, surrounded};
use vstd::prelude::*;

verus! {

pub const IMAGE_DIRECTORY_ENTRY_IMPORT: usize = 1;

pub const IMAGE_DIRECTORY_ENTRY_BOUND_IMPORT: usize = 11;

/// The place of the delay-import directory in the directory table.
pub const IMAGE_DIRECTORY_ENTRY_DELAY_IMPORT: usize = 13;

/// The most descriptors that a descriptor table may hold.
pub const DESCRIPTOR_LIMIT: usize = 4096;

/// The largest index of an import thunk.
pub const THUNK_LIMIT: usize = 8192;

/// Entry `index` of the directory table; a missing entry is empty.
pub open spec fn directory_entry(directories: Seq<DataDirectory>, index: int) -> DataDirectory {
    if 0 <= index < directories.len() {
        directories[index]
    } else {
        no_directory()
    }
}

/// Entry `index` of the directory table; a missing entry is empty.
pub fn directory_or_none(directories: &[DataDirectory], index: usize) -> (directory: DataDirectory)
    ensures
        directory == directory_entry(directories@, index as int),
{
    if index < directories.len() {
        directories[index]
    } else {
        DataDirectory { virtual_address: 0, size: 0 }
    }
}

/// A directory that is not there.
pub open spec fn absent(directory: DataDirectory) -> bool {
    directory.virtual_address == 0 || directory.size == 0
}

/// `head` in front of `tail`, where there is a tail.
pub open spec fn prepended<A>(head: Seq<A>, tail: Option<Seq<A>>) -> Option<Seq<A>> {
    match tail {
        None => None,
        Some(rest) => Some(head + rest),
    }
}

/// Putting one more element in front can be done before or after the rest.
pub proof fn lemma_prepended_push<A>(head: Seq<A>, element: A, tail: Option<Seq<A>>)
    ensures
        prepended(head, prepended(seq![element], tail)) == prepended(head.push(element), tail),
{
    if let Some(rest) = tail {
        assert(head + (seq![element] + rest) =~= head.push(element) + rest);
    }
}

/// Nothing in front changes nothing.
pub proof fn lemma_prepended_nothing<A>(tail: Option<Seq<A>>)
    ensures
        prepended(Seq::<A>::empty(), tail) == tail,
{
    if let Some(rest) = tail {
        assert(Seq::<A>::empty() + rest =~= rest);
    }
}

// ---------------------------------------------------------------------------
// Thunks
// ---------------------------------------------------------------------------

/// The smallest thunk that stands for an ordinal.
pub open spec fn ordinal_flag(pointer_bytes: int) -> int {
    if pointer_bytes == 8 {
        0x8000_0000_0000_0000
    } else {
        0x8000_0000
    }
}

/// The symbol that a thunk stands for: an ordinal where the top bit is set,
/// else a hint and a name at the address in the thunk, which counts from the
/// image base where it is not below it.
pub open spec fn thunk_symbol(
    bytes: Seq<u8>,
    sections: Seq<PeSectionModel>,
    thunk: u64,
    image_base: u64,
    pointer_bytes: int,
) -> Option<ImportSymbolModel> {
    if thunk >= ordinal_flag(pointer_bytes) {
        Some(ImportSymbolModel::ByOrdinal { ordinal: (thunk % 0x1_0000) as u16 })
    } else {
        let rva = if thunk >= image_base {
            thunk - image_base
        } else {
            thunk as int
        };
        if rva > u32::MAX {
            None
        } else {
            match file_offset(rva as u32, 2, sections, 0) {
                None => None,
                Some(offset) => match (u16_at(bytes, offset), c_string_at(bytes, offset + 2)) {
                    (Some(hint), Some(name)) => Some(ImportSymbolModel::ByName { hint, name }),
                    _ => None,
                },
            }
        }
    }
}

/// The thunks of the table at `table_rva` from `index` up to the first zero.
pub open spec fn thunks_from(
    bytes: Seq<u8>,
    sections: Seq<PeSectionModel>,
    table_rva: u32,
    iat_rva: u32,
    image_base: u64,
    pointer_bytes: int,
    index: int,
) -> Option<Seq<ImportThunkModel>>
    decreases THUNK_LIMIT + 1 - index,
{
    if index > THUNK_LIMIT {
        None
    } else {
        match table_pointer(bytes, sections, table_rva, index, pointer_bytes) {
            None => None,
            Some(thunk) => if thunk == 0 {
                Some(Seq::empty())
            } else {
                match thunk_symbol(bytes, sections, thunk, image_base, pointer_bytes) {
                    None => None,
                    Some(symbol) => if iat_rva + index * pointer_bytes > u32::MAX {
                        None
                    } else {
                        prepended(
                            seq![
                                ImportThunkModel {
                                    symbol,
                                    iat_rva: (iat_rva + index * pointer_bytes) as u32,
                                },
                            ],
                            thunks_from(
                                bytes,
                                sections,
                                table_rva,
                                iat_rva,
                                image_base,
                                pointer_bytes,
                                index + 1,
                            ),
                        )
                    },
                }
            },
        }
    }
}

fn read_thunk_symbol(
    bytes: &[u8],
    sections: &[PeSection],
    thunk: u64,
    image_base: u64,
    pointer_bytes: usize,
) -> (outcome: AppResult<ImportSymbol>)
    requires
        pointer_bytes == 4 || pointer_bytes == 8,
    ensures
        agrees(
            outcome,
            ReasonCode::RcPeParseInvalid,
            thunk_symbol(bytes@, sections.deep_view(), thunk, image_base, pointer_bytes as int),
        ),
{
    let flag: u64 = if pointer_bytes == 8 {
        0x8000_0000_0000_0000
    } else {
        0x8000_0000
    };
    if thunk >= flag {
        return Ok(ImportSymbol::ByOrdinal { ordinal: (thunk % 0x1_0000) as u16 });
    }
    let rva: u64 = if thunk >= image_base {
        thunk - image_base
    } else {
        thunk
    };
    if rva > 0xffff_ffff {
        return invalid(
            &surrounded(
                "import thunk value 0x",
                &padded_hex(thunk, 1),
                " does not fit in RVA space",
            ),
        );
    }
    let offset: usize = match rva_to_file_offset(rva as u32, 2, sections, 0) {
        Err(error) => {
            return Err(error);
        },
        Ok(offset) => offset,
    };
    let hint: u16 = match read_u16(bytes, offset, "import hint") {
        Err(error) => {
            return Err(error);
        },
        Ok(hint) => hint,
    };
    assert(bytes.len() == bytes@.len());
    match read_c_string(bytes, offset + 2, "import name") {
        Err(error) => Err(error),
        Ok(name) => Ok(ImportSymbol::ByName { hint, name }),
    }
}

/// The thunks of the table at `table_rva`, up to the first zero. Each fills
/// the pointer of the same index in the table at `iat_rva`.
pub fn read_import_thunks(
    bytes: &[u8],
    sections: &[PeSection],
    table_rva: u32,
    iat_rva: u32,
    image_base: u64,
    pointer_bytes: usize,
) -> (outcome: AppResult<Vec<ImportThunk>>)
    ensures
        agrees(
            outcome,
            ReasonCode::RcPeParseInvalid,
            thunks_from(
                bytes@,
                sections.deep_view(),
                table_rva,
                iat_rva,
                image_base,
                pointer_bytes as int,
                0,
            ),
        ),
{
    let mut imports: Vec<ImportThunk> = Vec::new();
    if pointer_bytes != 4 && pointer_bytes != 8 {
        return invalid(&noted("unsupported pointer width ", pointer_bytes as u64, ""));
    }
    let mut index: usize = 0;
    let ghost whole = thunks_from(
        bytes@,
        sections.deep_view(),
        table_rva,
        iat_rva,
        image_base,
        pointer_bytes as int,
        0,
    );
    proof {
        lemma_prepended_nothing(whole);
        assert(imports.deep_view() =~= Seq::<ImportThunkModel>::empty());
    }
    loop
        invariant
            index <= THUNK_LIMIT + 1,
            pointer_bytes == 4 || pointer_bytes == 8,
            whole == prepended(
                imports.deep_view(),
                thunks_from(
                    bytes@,
                    sections.deep_view(),
                    table_rva,
                    iat_rva,
                    image_base,
                    pointer_bytes as int,
                    index as int,
                ),
            ),
            whole == thunks_from(
                bytes@,
                sections.deep_view(),
                table_rva,
                iat_rva,
                image_base,
                pointer_bytes as int,
                0,
            ),
        decreases THUNK_LIMIT + 1 - index,
    {
        if index > THUNK_LIMIT {
            return invalid("import thunk table exceeded the safety limit");
        }
        let thunk: u64 = match read_pointer_at_rva(
            bytes,
            sections,
            table_rva,
            index,
            pointer_bytes,
            "import thunk",
        ) {
            Err(error) => {
                return Err(error);
            },
            Ok(thunk) => thunk,
        };
        if thunk == 0 {
            assert(imports.deep_view() + Seq::<ImportThunkModel>::empty() =~= imports.deep_view());
            return Ok(imports);
        }
        let symbol: ImportSymbol = match read_thunk_symbol(
            bytes,
            sections,
            thunk,
            image_base,
            pointer_bytes,
        ) {
            Err(error) => {
                return Err(error);
            },
            Ok(symbol) => symbol,
        };
        assert(index * pointer_bytes <= 8192 * 8) by (nonlinear_arith)
            requires
                index <= 8192,
                pointer_bytes <= 8,
        ;
        let slot: u32 = match iat_rva.checked_add((index * pointer_bytes) as u32) {
            None => {
                return invalid("IAT RVA overflow");
            },
            Some(slot) => slot,
        };
        let thunk_entry = ImportThunk { symbol, iat_rva: slot };
        let ghost before = imports.deep_view();
        imports.push(thunk_entry);
        proof {
            assert(imports.deep_view() =~= before.push(thunk_entry.deep_view()));
            lemma_prepended_push(
                before,
                thunk_entry.deep_view(),
                thunks_from(
                    bytes@,
                    sections.deep_view(),
                    table_rva,
                    iat_rva,
                    image_base,
                    pointer_bytes as int,
                    index + 1,
                ),
            );
        }
        index += 1;
    }
}

// ---------------------------------------------------------------------------
// Import descriptors
// ---------------------------------------------------------------------------

/// The import descriptor at `offset`: `Some(None)` for the all-zero one that
/// ends the table, `None` where the file does not hold one.
pub open spec fn import_descriptor_at(
    bytes: Seq<u8>,
    sections: Seq<PeSectionModel>,
    offset: int,
    delay_load: bool,
    image_base: u64,
    pointer_bytes: int,
) -> Option<Option<ImportDescriptorModel>> {
    match (u32_at(bytes, offset), u32_at(bytes, offset + 12), u32_at(bytes, offset + 16)) {
        (Some(lookup), Some(name_rva), Some(slots)) => if lookup == 0 && name_rva == 0 && slots
            == 0 {
            Some(None)
        } else {
            described(
                bytes,
                sections,
                name_rva,
                if lookup != 0 {
                    lookup
                } else {
                    slots
                },
                slots,
                delay_load,
                image_base,
                pointer_bytes,
            )
        },
        _ => None,
    }
}

/// The delay-import descriptor at `offset`, in the same way.
pub open spec fn delay_descriptor_at(
    bytes: Seq<u8>,
    sections: Seq<PeSectionModel>,
    offset: int,
    image_base: u64,
    pointer_bytes: int,
) -> Option<Option<ImportDescriptorModel>> {
    match (u32_at(bytes, offset + 4), u32_at(bytes, offset + 12), u32_at(bytes, offset + 16)) {
        (Some(name_rva), Some(slots), Some(lookup)) => if lookup == 0 && name_rva == 0 && slots
            == 0 {
            Some(None)
        } else {
            described(
                bytes,
                sections,
                name_rva,
                if lookup != 0 {
                    lookup
                } else {
                    slots
                },
                slots,
                true,
                image_base,
                pointer_bytes,
            )
        },
        _ => None,
    }
}

/// The library named at `name_rva` with the thunks at `table_rva`.
pub open spec fn described(
    bytes: Seq<u8>,
    sections: Seq<PeSectionModel>,
    name_rva: u32,
    table_rva: u32,
    iat_rva: u32,
    delay_load: bool,
    image_base: u64,
    pointer_bytes: int,
) -> Option<Option<ImportDescriptorModel>> {
    match (
        c_string_at_rva(bytes, sections, name_rva),
        thunks_from(bytes, sections, table_rva, iat_rva, image_base, pointer_bytes, 0),
    ) {
        (Some(dll_name), Some(imports)) => Some(
            Some(ImportDescriptorModel { dll_name, imports, delay_load }),
        ),
        _ => None,
    }
}

fn read_described(
    bytes: &[u8],
    sections: &[PeSection],
    name_rva: u32,
    table_rva: u32,
    iat_rva: u32,
    delay_load: bool,
    image_base: u64,
    pointer_bytes: usize,
) -> (outcome: AppResult<Option<ImportDescriptor>>)
    ensures
        agrees(
            outcome,
            ReasonCode::RcPeParseInvalid,
            described(
                bytes@,
                sections.deep_view(),
                name_rva,
                table_rva,
                iat_rva,
                delay_load,
                image_base,
                pointer_bytes as int,
            ),
        ),
{
    match read_c_string_from_rva(bytes, sections, name_rva, "import DLL name") {
        Err(error) => Err(error),
        Ok(dll_name) => match read_import_thunks(
            bytes,
            sections,
            table_rva,
            iat_rva,
            image_base,
            pointer_bytes,
        ) {
            Err(error) => Err(error),
            Ok(imports) => Ok(Some(ImportDescriptor { dll_name, imports, delay_load })),
        },
    }
}

/// Three 32-bit numbers at the given distances from `start`.
fn read_three(bytes: &[u8], start: usize, first: usize, second: usize, third: usize) -> (outcome:
    AppResult<(u32, u32, u32)>)
    ensures
        match outcome {
            Ok((a, b, c)) => u32_at(bytes@, start + first) == Some(a) && u32_at(
                bytes@,
                start + second,
            ) == Some(b) && u32_at(bytes@, start + third) == Some(c),
            Err(error) => (u32_at(bytes@, start + first) is None || u32_at(
                bytes@,
                start + second,
            ) is None || u32_at(bytes@, start + third) is None) && error.code
                == ReasonCode::RcPeParseInvalid,
        },
{
    match field_u32(bytes, start, first, "import descriptor") {
        Err(error) => Err(error),
        Ok(a) => match field_u32(bytes, start, second, "import descriptor") {
            Err(error) => Err(error),
            Ok(b) => match field_u32(bytes, start, third, "import descriptor") {
                Err(error) => Err(error),
                Ok(c) => Ok((a, b, c)),
            },
        },
    }
}

/// Which of the two descriptor tables is read.
#[derive(Clone, Copy, PartialEq, Eq, Structural)]
pub enum DescriptorTable {
    Import { delay_load: bool },
    DelayImport,
}

impl DescriptorTable {
    /// The size of one descriptor.
    pub open spec fn stride(self) -> int {
        match self {
            DescriptorTable::Import { .. } => 20,
            DescriptorTable::DelayImport => 32,
        }
    }

    /// The descriptor at `offset`.
    pub open spec fn at(
        self,
        bytes: Seq<u8>,
        sections: Seq<PeSectionModel>,
        offset: int,
        image_base: u64,
        pointer_bytes: int,
    ) -> Option<Option<ImportDescriptorModel>> {
        match self {
            DescriptorTable::Import { delay_load } => import_descriptor_at(
                bytes,
                sections,
                offset,
                delay_load,
                image_base,
                pointer_bytes,
            ),
            DescriptorTable::DelayImport => delay_descriptor_at(
                bytes,
                sections,
                offset,
                image_base,
                pointer_bytes,
            ),
        }
    }

    /// The descriptors from `index` on of a table of `size` bytes at `start`,
    /// up to the all-zero one or the end of the table.
    pub open spec fn from(
        self,
        bytes: Seq<u8>,
        sections: Seq<PeSectionModel>,
        start: int,
        size: int,
        image_base: u64,
        pointer_bytes: int,
        index: int,
    ) -> Option<Seq<ImportDescriptorModel>>
        decreases DESCRIPTOR_LIMIT - index,
    {
        if (index + 1) * self.stride() > size {
            Some(Seq::empty())
        } else if index >= DESCRIPTOR_LIMIT {
            None
        } else {
            match self.at(bytes, sections, start + index * self.stride(), image_base, pointer_bytes) {
                None => None,
                Some(None) => Some(Seq::empty()),
                Some(Some(descriptor)) => prepended(
                    seq![descriptor],
                    self.from(bytes, sections, start, size, image_base, pointer_bytes, index + 1),
                ),
            }
        }
    }

    /// The descriptors of the table that `directory` leads to.
    pub open spec fn listed(
        self,
        bytes: Seq<u8>,
        sections: Seq<PeSectionModel>,
        directory: DataDirectory,
        image_base: u64,
        pointer_bytes: int,
    ) -> Option<Seq<ImportDescriptorModel>> {
        if absent(directory) {
            Some(Seq::empty())
        } else {
            match file_offset(directory.virtual_address, self.stride() as u32, sections, 0) {
                None => None,
                Some(start) => self.from(
                    bytes,
                    sections,
                    start,
                    directory.size as int,
                    image_base,
                    pointer_bytes,
                    0,
                ),
            }
        }
    }

    fn read_at(
        self,
        bytes: &[u8],
        sections: &[PeSection],
        start: usize,
        distance: usize,
        image_base: u64,
        pointer_bytes: usize,
    ) -> (outcome: AppResult<Option<ImportDescriptor>>)
        requires
            distance <= 0x10_0000,
        ensures
            agrees(
                outcome,
                ReasonCode::RcPeParseInvalid,
                self.at(bytes@, sections.deep_view(), start + distance, image_base, pointer_bytes as int),
            ),
    {
        match self {
            DescriptorTable::Import { delay_load } => {
                let fields = read_three(bytes, start, distance, distance + 12, distance + 16);
                match fields {
                    Err(error) => Err(error),
                    Ok((lookup, name_rva, slots)) => {
                        if lookup == 0 && name_rva == 0 && slots == 0 {
                            return Ok(None);
                        }
                        let table_rva: u32 = if lookup != 0 {
                            lookup
                        } else {
                            slots
                        };
                        read_described(
                            bytes,
                            sections,
                            name_rva,
                            table_rva,
                            slots,
                            delay_load,
                            image_base,
                            pointer_bytes,
                        )
                    },
                }
            },
            DescriptorTable::DelayImport => {
                let fields = read_three(bytes, start, distance + 4, distance + 12, distance + 16);
                match fields {
                    Err(error) => Err(error),
                    Ok((name_rva, slots, lookup)) => {
                        if lookup == 0 && name_rva == 0 && slots == 0 {
                            return Ok(None);
                        }
                        let table_rva: u32 = if lookup != 0 {
                            lookup
                        } else {
                            slots
                        };
                        read_described(
                            bytes,
                            sections,
                            name_rva,
                            table_rva,
                            slots,
                            true,
                            image_base,
                            pointer_bytes,
                        )
                    },
                }
            },
        }
    }

    fn read(
        self,
        bytes: &[u8],
        sections: &[PeSection],
        directory: DataDirectory,
        image_base: u64,
        pointer_bytes: usize,
    ) -> (outcome: AppResult<Vec<ImportDescriptor>>)
        ensures
            agrees(
                outcome,
                ReasonCode::RcPeParseInvalid,
                self.listed(bytes@, sections.deep_view(), directory, image_base, pointer_bytes as int),
            ),
    {
        let mut descriptors: Vec<ImportDescriptor> = Vec::new();
        assert(descriptors.deep_view() =~= Seq::<ImportDescriptorModel>::empty());
        if directory.virtual_address == 0 || directory.size == 0 {
            return Ok(descriptors);
        }
        let stride: u32 = match self {
            DescriptorTable::Import { .. } => 20,
            DescriptorTable::DelayImport => 32,
        };
        let start: usize = match rva_to_file_offset(directory.virtual_address, stride, sections, 0) {
            Err(error) => {
                return Err(error);
            },
            Ok(start) => start,
        };
        let size: u64 = directory.size as u64;
        let mut index: usize = 0;
        let ghost whole = self.from(
            bytes@,
            sections.deep_view(),
            start as int,
            size as int,
            image_base,
            pointer_bytes as int,
            0,
        );
        proof {
            lemma_prepended_nothing(whole);
        }
        while (index as u64 + 1) * (stride as u64) <= size
            invariant
                index <= DESCRIPTOR_LIMIT,
                stride == self.stride(),
                stride <= 32,
                whole == self.from(
                    bytes@,
                    sections.deep_view(),
                    start as int,
                    size as int,
                    image_base,
                    pointer_bytes as int,
                    0,
                ),
                whole == prepended(
                    descriptors.deep_view(),
                    self.from(
                        bytes@,
                        sections.deep_view(),
                        start as int,
                        size as int,
                        image_base,
                        pointer_bytes as int,
                        index as int,
                    ),
                ),
                whole == self.listed(
                    bytes@,
                    sections.deep_view(),
                    directory,
                    image_base,
                    pointer_bytes as int,
                ),
                (index + 1) * stride <= 0x10_0000,
                index * stride <= 0x10_0000,
            decreases DESCRIPTOR_LIMIT - index,
        {
            if index >= DESCRIPTOR_LIMIT {
                return invalid("import descriptor table exceeded the safety limit");
            }
            let descriptor: ImportDescriptor = match self.read_at(
                bytes,
                sections,
                start,
                index * (stride as usize),
                image_base,
                pointer_bytes,
            ) {
                Err(error) => {
                    return Err(error);
                },
                Ok(None) => {
                    assert(descriptors.deep_view() + Seq::<ImportDescriptorModel>::empty()
                        =~= descriptors.deep_view());
                    return Ok(descriptors);
                },
                Ok(Some(descriptor)) => descriptor,
            };
            let ghost before = descriptors.deep_view();
            descriptors.push(descriptor);
            proof {
                assert(descriptors.deep_view() =~= before.push(descriptor.deep_view()));
                lemma_prepended_push(
                    before,
                    descriptor.deep_view(),
                    self.from(
                        bytes@,
                        sections.deep_view(),
                        start as int,
                        size as int,
                        image_base,
                        pointer_bytes as int,
                        index + 1,
                    ),
                );
                assert((index + 2) * stride <= 0x10_0000) by (nonlinear_arith)
                    requires
                        index < 4096,
                        stride <= 32,
                ;
            }
            index += 1;
        }
        assert(descriptors.deep_view() + Seq::<ImportDescriptorModel>::empty()
            =~= descriptors.deep_view());
        Ok(descriptors)
    }
}

/// The libraries that the image imports from.
pub fn parse_import_directory(
    bytes: &[u8],
    sections: &[PeSection],
    directories: &[DataDirectory],
    delay_load: bool,
    image_base: u64,
    pointer_bytes: usize,
) -> (outcome: AppResult<Vec<ImportDescriptor>>)
    ensures
        agrees(
            outcome,
            ReasonCode::RcPeParseInvalid,
            (DescriptorTable::Import { delay_load }).listed(
                bytes@,
                sections.deep_view(),
                directory_entry(directories@, IMAGE_DIRECTORY_ENTRY_IMPORT as int),
                image_base,
                pointer_bytes as int,
            ),
        ),
{
    let directory: DataDirectory = directory_or_none(directories, IMAGE_DIRECTORY_ENTRY_IMPORT);
    let table = DescriptorTable::Import { delay_load };
    table.read(bytes, sections, directory, image_base, pointer_bytes)
}

/// The libraries that the image imports from when they are first used.
pub fn parse_delay_import_directory(
    bytes: &[u8],
    sections: &[PeSection],
    directories: &[DataDirectory],
    image_base: u64,
    pointer_bytes: usize,
) -> (outcome: AppResult<Vec<ImportDescriptor>>)
    ensures
        agrees(
            outcome,
            ReasonCode::RcPeParseInvalid,
            DescriptorTable::DelayImport.listed(
                bytes@,
                sections.deep_view(),
                directory_entry(directories@, IMAGE_DIRECTORY_ENTRY_DELAY_IMPORT as int),
                image_base,
                pointer_bytes as int,
            ),
        ),
{
    let directory: DataDirectory = directory_or_none(
        directories,
        IMAGE_DIRECTORY_ENTRY_DELAY_IMPORT,
    );
    DescriptorTable::DelayImport.read(bytes, sections, directory, image_base, pointer_bytes)
}

} // verus!
