//! The export directory.
use crate::bytes::{checked_range, field_u32, in_range, invalid, le32};
use crate::error::{agrees, AppResult, ReasonCode};
use crate::pe::imports::{
    absent, directory_entry, directory_or_none, lemma_prepended_nothing, lemma_prepended_push,
    prepended,
};
use crate::pe::rva::{
    c_string_at_rva, capped, file_offset, read_c_string_from_rva, read_u16_at_rva, read_u32_at_rva,
    rva_to_file_offset, table_u16, table_u32,
};
use crate::pe::types::{
    DataDirectory, ExportSymbol, ExportSymbolModel, ExportTarget, ExportTargetModel, PeSection,
    PeSectionModel,
};
use vstd::prelude::*;

verus! {

pub const IMAGE_DIRECTORY_ENTRY_EXPORT: usize = 0;

/// The tables that the export directory leads to.
#[verifier::ext_equal]
pub struct ExportTables {
    pub bytes: Seq<u8>,
    pub sections: Seq<PeSectionModel>,
    /// The export directory itself: an address inside it is a forwarder text.
    pub directory: DataDirectory,
    pub ordinal_base: u32,
    /// How many functions and names are read.
    pub function_count: int,
    pub name_count: int,
    pub functions: u32,
    pub names: u32,
    pub name_ordinals: u32,
}

/// `wanted`, but no more than a quarter of the file's bytes.
pub open spec fn backed_count(wanted: u32, length: nat) -> int {
    if wanted < length / 4 {
        wanted as int
    } else {
        length as int / 4
    }
}

/// The tables of the export directory at `offset`.
pub open spec fn tables_at(
    bytes: Seq<u8>,
    sections: Seq<PeSectionModel>,
    directory: DataDirectory,
    offset: int,
) -> ExportTables {
    ExportTables {
        bytes,
        sections,
        directory,
        ordinal_base: le32(bytes, offset + 16),
        function_count: backed_count(le32(bytes, offset + 20), bytes.len()),
        name_count: backed_count(le32(bytes, offset + 24), bytes.len()),
        functions: le32(bytes, offset + 28),
        names: le32(bytes, offset + 32),
        name_ordinals: le32(bytes, offset + 36),
    }
}

impl ExportTables {
    /// Name `index` and the function it belongs to.
    pub open spec fn named(self, index: int) -> Option<(u16, Seq<char>)> {
        match (
            table_u32(self.bytes, self.sections, self.names, index),
            table_u16(self.bytes, self.sections, self.name_ordinals, index),
        ) {
            (Some(rva), Some(function)) => match c_string_at_rva(self.bytes, self.sections, rva) {
                None => None,
                Some(name) => Some((function, name)),
            },
            _ => None,
        }
    }

    /// The names from `index` on.
    pub open spec fn names_from(self, index: int) -> Option<Seq<(u16, Seq<char>)>>
        decreases self.name_count - index,
    {
        if index >= self.name_count {
            Some(Seq::empty())
        } else {
            match self.named(index) {
                None => None,
                Some(entry) => prepended(seq![entry], self.names_from(index + 1)),
            }
        }
    }

    /// Where function `index` leads.
    pub open spec fn target(self, index: int) -> Option<ExportTargetModel> {
        match table_u32(self.bytes, self.sections, self.functions, index) {
            None => None,
            Some(rva) => if self.directory.virtual_address <= rva && rva < capped(
                self.directory.virtual_address,
                self.directory.size,
            ) {
                match c_string_at_rva(self.bytes, self.sections, rva) {
                    None => None,
                    Some(text) => Some(ExportTargetModel::Forwarder(text)),
                }
            } else {
                Some(ExportTargetModel::Rva(rva))
            },
        }
    }

    /// The exports from function `index` on, named by `names`.
    pub open spec fn exports_from(self, names: Seq<(u16, Seq<char>)>, index: int) -> Option<
        Seq<ExportSymbolModel>,
    >
        decreases self.function_count - index,
    {
        if index >= self.function_count {
            Some(Seq::empty())
        } else {
            match self.target(index) {
                None => None,
                Some(target) => if self.ordinal_base + index > u32::MAX {
                    None
                } else {
                    prepended(
                        seq![
                            ExportSymbolModel {
                                ordinal: (self.ordinal_base + index) as u32,
                                name: last_name(names, index),
                                target,
                            },
                        ],
                        self.exports_from(names, index + 1),
                    )
                },
            }
        }
    }
}

/// The last of `names` that belongs to `function`.
pub open spec fn last_name(names: Seq<(u16, Seq<char>)>, function: int) -> Option<Seq<char>>
    decreases names.len(),
{
    if names.len() == 0 {
        None
    } else if names.last().0 == function {
        Some(names.last().1)
    } else {
        last_name(names.drop_last(), function)
    }
}

/// The exports of the image.
pub open spec fn exports(bytes: Seq<u8>, sections: Seq<PeSectionModel>, directory: DataDirectory) -> Option<
    Seq<ExportSymbolModel>,
> {
    if absent(directory) {
        Some(Seq::empty())
    } else {
        match file_offset(directory.virtual_address, 40, sections, 0) {
            None => None,
            Some(offset) => if !in_range(bytes, offset, 40) {
                None
            } else {
                let tables = tables_at(bytes, sections, directory, offset);
                match tables.names_from(0) {
                    None => None,
                    Some(names) => tables.exports_from(names, 0),
                }
            },
        }
    }
}

struct ExportReader<'a> {
    bytes: &'a [u8],
    sections: &'a [PeSection],
    directory: DataDirectory,
    ordinal_base: u32,
    function_count: usize,
    name_count: usize,
    functions: u32,
    names: u32,
    name_ordinals: u32,
}

impl<'a> ExportReader<'a> {
    spec fn tables(&self) -> ExportTables {
        ExportTables {
            bytes: self.bytes@,
            sections: self.sections.deep_view(),
            directory: self.directory,
            ordinal_base: self.ordinal_base,
            function_count: self.function_count as int,
            name_count: self.name_count as int,
            functions: self.functions,
            names: self.names,
            name_ordinals: self.name_ordinals,
        }
    }

    fn named(&self, index: usize) -> (outcome: AppResult<(u16, String)>)
        ensures
            match outcome {
                Ok((function, name)) => self.tables().named(index as int) == Some(
                    (function, name@),
                ),
                Err(error) => self.tables().named(index as int) is None && error.code
                    == ReasonCode::RcPeParseInvalid,
            },
    {
        let rva: u32 = match read_u32_at_rva(
            self.bytes,
            self.sections,
            self.names,
            index,
            "export name RVA",
        ) {
            Err(error) => {
                return Err(error);
            },
            Ok(value) => value,
        };
        let function: u16 = match read_u16_at_rva(
            self.bytes,
            self.sections,
            self.name_ordinals,
            index,
            "export ordinal index",
        ) {
            Err(error) => {
                return Err(error);
            },
            Ok(value) => value,
        };
        match read_c_string_from_rva(self.bytes, self.sections, rva, "export name") {
            Err(error) => Err(error),
            Ok(name) => Ok((function, name)),
        }
    }

    /// The name of each function, where it has one.
    fn function_names(&self) -> (outcome: AppResult<Vec<Option<String>>>)
        ensures
            match outcome {
                Ok(slots) => {
                    &&& self.tables().names_from(0) is Some
                    &&& slots.len() == self.function_count
                    &&& forall|f: int|
                        0 <= f < slots.len() ==> (#[trigger] slots@[f]).deep_view() == last_name(
                            self.tables().names_from(0)->0,
                            f,
                        )
                },
                Err(error) => self.tables().names_from(0) is None && error.code
                    == ReasonCode::RcPeParseInvalid,
            },
    {
        let mut slots: Vec<Option<String>> = Vec::new();
        while slots.len() < self.function_count
            invariant
                slots.len() <= self.function_count,
                forall|f: int| 0 <= f < slots.len() ==> #[trigger] slots@[f] is None,
            decreases self.function_count - slots.len(),
        {
            slots.push(None);
        }
        let mut index: usize = 0;
        let ghost mut found: Seq<(u16, Seq<char>)> = Seq::empty();
        let ghost whole = self.tables().names_from(0);
        proof {
            lemma_prepended_nothing(whole);
        }
        while index < self.name_count
            invariant
                index <= self.name_count,
                slots.len() == self.function_count,
                whole == self.tables().names_from(0),
                whole == prepended(found, self.tables().names_from(index as int)),
                forall|f: int|
                    0 <= f < slots.len() ==> (#[trigger] slots@[f]).deep_view() == last_name(
                        found,
                        f,
                    ),
            decreases self.name_count - index,
        {
            match self.named(index) {
                Err(error) => {
                    return Err(error);
                },
                Ok((function, name)) => {
                    let ghost before = found;
                    proof {
                        let entry = (function, name@);
                        lemma_prepended_push(found, entry, self.tables().names_from(index + 1));
                        found = found.push(entry);
                        assert(found.drop_last() =~= before);
                    }
                    if (function as usize) < slots.len() {
                        slots.set(function as usize, Some(name));
                    }
                    index += 1;
                },
            }
        }
        assert(found + Seq::<(u16, Seq<char>)>::empty() =~= found);
        Ok(slots)
    }

    fn target(&self, index: usize) -> (outcome: AppResult<ExportTarget>)
        ensures
            agrees(outcome, ReasonCode::RcPeParseInvalid, self.tables().target(index as int)),
    {
        match read_u32_at_rva(
            self.bytes,
            self.sections,
            self.functions,
            index,
            "export function RVA",
        ) {
            Err(error) => Err(error),
            Ok(rva) => {
                let end: u32 = self.directory.virtual_address.saturating_add(self.directory.size);
                if rva >= self.directory.virtual_address && rva < end {
                    match read_c_string_from_rva(
                        self.bytes,
                        self.sections,
                        rva,
                        "forwarded export",
                    ) {
                        Err(error) => Err(error),
                        Ok(text) => Ok(ExportTarget::Forwarder(text)),
                    }
                } else {
                    Ok(ExportTarget::Rva(rva))
                }
            },
        }
    }

    fn read(&self) -> (outcome: AppResult<Vec<ExportSymbol>>)
        ensures
            agrees(
                outcome,
                ReasonCode::RcPeParseInvalid,
                match self.tables().names_from(0) {
                    None => None,
                    Some(names) => self.tables().exports_from(names, 0),
                },
            ),
    {
        let slots: Vec<Option<String>> = match self.function_names() {
            Err(error) => {
                return Err(error);
            },
            Ok(slots) => slots,
        };
        let ghost names = self.tables().names_from(0)->0;
        let mut exports: Vec<ExportSymbol> = Vec::new();
        let mut index: usize = 0;
        let ghost whole = self.tables().exports_from(names, 0);
        proof {
            assert(exports.deep_view() =~= Seq::<ExportSymbolModel>::empty());
            lemma_prepended_nothing(whole);
        }
        while index < self.function_count
            invariant
                index <= self.function_count,
                slots.len() == self.function_count,
                self.tables().names_from(0) == Some(names),
                whole == self.tables().exports_from(names, 0),
                whole == prepended(
                    exports.deep_view(),
                    self.tables().exports_from(names, index as int),
                ),
                forall|f: int|
                    0 <= f < slots.len() ==> (#[trigger] slots@[f]).deep_view() == last_name(
                        names,
                        f,
                    ),
            decreases self.function_count - index,
        {
            let target: ExportTarget = match self.target(index) {
                Err(error) => {
                    return Err(error);
                },
                Ok(target) => target,
            };
            if index > 0xffff_ffff {
                return invalid("ordinal overflow");
            }
            let ordinal: u32 = match self.ordinal_base.checked_add(index as u32) {
                None => {
                    return invalid("ordinal overflow");
                },
                Some(ordinal) => ordinal,
            };
            let name: Option<String> = match &slots[index] {
                None => None,
                Some(name) => Some(name.clone()),
            };
            assert(name.deep_view() == slots@[index as int].deep_view());
            let export = ExportSymbol { ordinal, name, target };
            let ghost before = exports.deep_view();
            proof {
                lemma_prepended_push(
                    before,
                    export.deep_view(),
                    self.tables().exports_from(names, index + 1),
                );
            }
            exports.push(export);
            assert(exports.deep_view() =~= before.push(export.deep_view()));
            index += 1;
        }
        assert(exports.deep_view() + Seq::<ExportSymbolModel>::empty() =~= exports.deep_view());
        Ok(exports)
    }
}

/// The exports of the image.
pub fn parse_export_directory(
    bytes: &[u8],
    sections: &[PeSection],
    directories: &[DataDirectory],
) -> (outcome: AppResult<Vec<ExportSymbol>>)
    ensures
        agrees(
            outcome,
            ReasonCode::RcPeParseInvalid,
            exports(
                bytes@,
                sections.deep_view(),
                directory_entry(directories@, IMAGE_DIRECTORY_ENTRY_EXPORT as int),
            ),
        ),
{
    let directory: DataDirectory = directory_or_none(directories, IMAGE_DIRECTORY_ENTRY_EXPORT);
    if directory.virtual_address == 0 || directory.size == 0 {
        let none: Vec<ExportSymbol> = Vec::new();
        assert(none.deep_view() =~= Seq::<ExportSymbolModel>::empty());
        return Ok(none);
    }
    let offset: usize = match rva_to_file_offset(directory.virtual_address, 40, sections, 0) {
        Err(error) => {
            return Err(error);
        },
        Ok(offset) => offset,
    };
    match checked_range(bytes, offset, 40, "export directory") {
        Err(error) => {
            return Err(error);
        },
        Ok(()) => {},
    }
    let quarter: usize = bytes.len() / 4;
    let ordinal_base = field_u32(bytes, offset, 16, "ordinal base");
    let function_count = field_u32(bytes, offset, 20, "export function count");
    let name_count = field_u32(bytes, offset, 24, "export name count");
    let functions = field_u32(bytes, offset, 28, "AddressOfFunctions");
    let names = field_u32(bytes, offset, 32, "AddressOfNames");
    let name_ordinals = field_u32(bytes, offset, 36, "AddressOfNameOrdinals");
    match (ordinal_base, function_count, name_count, functions, names, name_ordinals) {
        (
            Ok(ordinal_base),
            Ok(function_count),
            Ok(name_count),
            Ok(functions),
            Ok(names),
            Ok(name_ordinals),
        ) => {
            let reader = ExportReader {
                bytes,
                sections,
                directory,
                ordinal_base,
                function_count: if (function_count as usize) < quarter {
                    function_count as usize
                } else {
                    quarter
                },
                name_count: if (name_count as usize) < quarter {
                    name_count as usize
                } else {
                    quarter
                },
                functions,
                names,
                name_ordinals,
            };
            assert(reader.tables() == tables_at(bytes@, sections.deep_view(), directory, offset as int));
            reader.read()
        },
        _ => {
            assert(false);
            invalid("export directory")
        },
    }
}

/// A function has the name that was last given to it, and none where no name
/// belongs to it.
pub proof fn lemma_last_name(names: Seq<(u16, Seq<char>)>, function: int)
    ensures
        match last_name(names, function) {
            Some(name) => exists|i: int| is_last_name(names, function, i) && names[i].1 == name,
            None => forall|i: int| 0 <= i < names.len() ==> (#[trigger] names[i]).0 != function,
        },
    decreases names.len(),
{
    if names.len() > 0 {
        if names.last().0 == function {
            assert(is_last_name(names, function, names.len() - 1));
        } else {
            let front = names.drop_last();
            lemma_last_name(front, function);
            match last_name(front, function) {
                Some(name) => {
                    let i = choose|i: int|
                        is_last_name(front, function, i) && front[i].1 == name;
                    assert forall|j: int| i < j < names.len() implies (#[trigger] names[j]).0
                        != function by {
                        if j < front.len() {
                            assert(front[j] == names[j]);
                        }
                    }
                    assert(is_last_name(names, function, i));
                },
                None => {
                    assert forall|i: int| 0 <= i < names.len() implies (#[trigger] names[i]).0
                        != function by {
                        if i < front.len() {
                            assert(front[i] == names[i]);
                        }
                    }
                },
            }
        }
    }
}

/// Name `i` belongs to the function and none behind it does.
pub open spec fn is_last_name(names: Seq<(u16, Seq<char>)>, function: int, i: int) -> bool {
    &&& 0 <= i < names.len()
    &&& names[i].0 == function
    &&& forall|j: int| i < j < names.len() ==> (#[trigger] names[j]).0 != function
}

/// The exports are the functions of the table in order: each has the ordinal of
/// the first one and its place, its own address, and the name that belongs to
/// its place. An address inside the directory is a text that forwards.
pub proof fn lemma_exports_in_order(tables: ExportTables)
    requires
        tables.names_from(0) is Some,
        tables.exports_from(tables.names_from(0)->0, 0) is Some,
        tables.function_count >= 0,
        tables.name_count >= 0,
        tables.directory.virtual_address + tables.directory.size <= u32::MAX,
    ensures
        ({
            let names = tables.names_from(0)->0;
            let list = tables.exports_from(names, 0)->0;
            &&& list.len() == tables.function_count
            &&& names.len() == tables.name_count
            &&& forall|k: int| 0 <= k < names.len() ==> tables.named(k) == Some(#[trigger] names[k])
            &&& forall|k: int|
                0 <= k < list.len() ==> {
                    let address = table_u32(tables.bytes, tables.sections, tables.functions, k);
                    &&& (#[trigger] list[k]).ordinal == tables.ordinal_base + k
                    &&& list[k].name == last_name(names, k)
                    &&& address is Some
                    &&& match list[k].target {
                        ExportTargetModel::Rva(rva) => address == Some(rva) && !(
                        tables.directory.virtual_address <= rva
                            < tables.directory.virtual_address + tables.directory.size),
                        ExportTargetModel::Forwarder(text) => {
                            &&& tables.directory.virtual_address <= address->0
                                < tables.directory.virtual_address + tables.directory.size
                            &&& c_string_at_rva(tables.bytes, tables.sections, address->0)
                                == Some(text)
                        },
                    }
                }
        }),
{
    lemma_names_from(tables, 0);
    lemma_exports_from(tables, tables.names_from(0)->0, 0);
}

proof fn lemma_names_from(tables: ExportTables, index: int)
    requires
        0 <= index <= tables.name_count,
        tables.names_from(index) is Some,
    ensures
        tables.names_from(index)->0.len() == tables.name_count - index,
        forall|k: int|
            0 <= k < tables.name_count - index ==> tables.named(index + k) == Some(
                #[trigger] tables.names_from(index)->0[k],
            ),
    decreases tables.name_count - index,
{
    if index < tables.name_count {
        lemma_names_from(tables, index + 1);
        let list = tables.names_from(index)->0;
        let rest = tables.names_from(index + 1)->0;
        assert forall|k: int| 0 <= k < list.len() implies tables.named(index + k) == Some(
            #[trigger] list[k],
        ) by {
            if k > 0 {
                assert(list[k] == rest[k - 1]);
                assert(index + 1 + (k - 1) == index + k);
            }
        }
    }
}

proof fn lemma_exports_from(tables: ExportTables, names: Seq<(u16, Seq<char>)>, index: int)
    requires
        0 <= index <= tables.function_count,
        tables.exports_from(names, index) is Some,
    ensures
        ({
            let list = tables.exports_from(names, index)->0;
            &&& list.len() == tables.function_count - index
            &&& forall|k: int|
                0 <= k < list.len() ==> {
                    &&& (#[trigger] list[k]).ordinal == tables.ordinal_base + (index + k)
                    &&& list[k].name == last_name(names, index + k)
                    &&& tables.target(index + k) == Some(list[k].target)
                }
        }),
    decreases tables.function_count - index,
{
    if index < tables.function_count {
        lemma_exports_from(tables, names, index + 1);
        let list = tables.exports_from(names, index)->0;
        let rest = tables.exports_from(names, index + 1)->0;
        assert forall|k: int| 0 <= k < list.len() implies {
            &&& (#[trigger] list[k]).ordinal == tables.ordinal_base + (index + k)
            &&& list[k].name == last_name(names, index + k)
            &&& tables.target(index + k) == Some(list[k].target)
        } by {
            if k > 0 {
                assert(list[k] == rest[k - 1]);
                assert(index + 1 + (k - 1) == index + k);
            }
        }
    }
}

/// No more elements of four bytes are counted than the file has room for, and
/// as many as are wanted where it has.
pub proof fn lemma_backed_count(wanted: u32, length: nat)
    ensures
        4 * backed_count(wanted, length) <= length,
        backed_count(wanted, length) <= wanted,
        4 * wanted <= length ==> backed_count(wanted, length) == wanted,
        4 * wanted > length ==> 4 * (backed_count(wanted, length) + 1) > length,
{
}

/// Name `index` is the text that element `index` of the table of names leads to,
/// and it belongs to the function that element `index` of the table of ordinals
/// says.
pub proof fn lemma_export_named(
    tables: ExportTables,
    index: int,
    rva: u32,
    function: u16,
    name: Seq<char>,
)
    requires
        table_u32(tables.bytes, tables.sections, tables.names, index) == Some(rva),
        table_u16(tables.bytes, tables.sections, tables.name_ordinals, index) == Some(function),
        c_string_at_rva(tables.bytes, tables.sections, rva) == Some(name),
    ensures
        tables.named(index) == Some((function, name)),
{
}

} // verus!
