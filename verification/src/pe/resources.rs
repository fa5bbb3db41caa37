//! The resource tree: types, names and languages above data entries.
use crate::bytes::{
    bytes16, bytes32, holds_at, in_range, invalid, le16, le32, lemma_held16_first, lemma_held32,
    lemma_held32_first, read_u16, read_u32, slice, u16_at,
};
use crate::error::{agrees, AppResult, ReasonCode};
use crate::pe::imports::{
    absent, directory_entry, directory_or_none, lemma_prepended_nothing, lemma_prepended_push,
    prepended,
};
use crate::pe::rva::{covering, file_offset, rva_to_file_offset, section_for_rva};
use crate::pe::types::{DataDirectory, PeSection, PeSectionModel};
use crate::pe::version::units_bytes;
use crate::text::{lower, same_text, to_lower};
use crate::utf16::{decode_lossy, decoded_lossy};
use vstd::prelude::*;

verus! {

pub const IMAGE_DIRECTORY_ENTRY_RESOURCE: usize = 2;

pub const RT_CURSOR: u32 = 1;

pub const RT_BITMAP: u32 = 2;

pub const RT_ICON: u32 = 3;

pub const RT_MENU: u32 = 4;

pub const RT_DIALOG: u32 = 5;

pub const RT_STRING: u32 = 6;

pub const RT_FONTDIR: u32 = 7;

pub const RT_FONT: u32 = 8;

pub const RT_ACCELERATOR: u32 = 9;

pub const RT_RCDATA: u32 = 10;

pub const RT_MESSAGETABLE: u32 = 11;

pub const RT_GROUP_CURSOR: u32 = 12;

pub const RT_GROUP_ICON: u32 = 14;

pub const RT_VERSION: u32 = 16;

pub const RT_ANICURSOR: u32 = 21;

pub const RT_ANIICON: u32 = 22;

pub const RT_MANIFEST: u32 = 24;

/// The deepest level of the tree that is looked at. Languages lie at level 2,
/// so a tree that leads back into itself comes to an end.
pub const DEEPEST_LEVEL: u8 = 4;

/// The most units of a resource's name that are read.
pub const NAME_LIMIT: usize = 256;

/// The name of a resource: a number or a text.
#[derive(Debug, Clone, PartialEq, Eq)]
pub enum ResourceName {
    Id(u32),
    Str(String),
}

/// The model of [`ResourceName`].
#[verifier::ext_equal]
pub enum ResourceNameModel {
    Id(u32),
    Str(Seq<char>),
}

impl DeepView for ResourceName {
    type V = ResourceNameModel;

    open spec fn deep_view(&self) -> ResourceNameModel {
        match *self {
            ResourceName::Id(id) => ResourceNameModel::Id(id),
            ResourceName::Str(text) => ResourceNameModel::Str(text@),
        }
    }
}

/// Where the bytes of a resource lie.
#[derive(Debug, Clone, Copy, PartialEq, Eq, Structural)]
pub struct ResourceDataEntry {
    pub data_rva: u32,
    pub data_size: u32,
}

impl DeepView for ResourceDataEntry {
    type V = ResourceDataEntry;

    open spec fn deep_view(&self) -> ResourceDataEntry {
        *self
    }
}

/// One entry of a resource directory: its name field and where it leads.
#[derive(Debug, Clone, Copy, PartialEq, Eq, Structural)]
pub struct TreeEntry {
    pub name: u32,
    pub payload: u32,
}

/// The high bit, which marks a name as text and a payload as a subdirectory.
pub open spec fn marked(field: u32) -> bool {
    field >= 0x8000_0000
}

/// The entry has the number `id` for a name.
pub open spec fn has_id(entry: TreeEntry, id: u32) -> bool {
    !marked(entry.name) && entry.name % 0x1_0000 == id
}

/// The bytes of the resource section, the address they are loaded at, and the
/// address of the root directory, from which the places in the tree count.
#[verifier::ext_equal]
pub struct Tree {
    pub data: Seq<u8>,
    pub section_rva: u32,
    pub root_rva: u32,
}

impl Tree {
    /// The address `field` bytes into the tree, the mark left out.
    pub open spec fn address(self, field: u32) -> Option<u32> {
        if self.root_rva + field % 0x8000_0000 > u32::MAX {
            None
        } else {
            Some((self.root_rva + field % 0x8000_0000) as u32)
        }
    }

    /// The position in the section of `rva`.
    pub open spec fn position(self, rva: u32) -> Option<int> {
        if rva < self.section_rva {
            None
        } else {
            Some(rva - self.section_rva)
        }
    }

    /// The number of entries of the directory at `position`.
    pub open spec fn entry_count(self, position: int) -> Option<int> {
        if in_range(self.data, position, 16) {
            Some(le16(self.data, position + 12) + le16(self.data, position + 14))
        } else {
            None
        }
    }

    /// Entry `index` of the directory at `position`.
    pub open spec fn entry(self, position: int, index: int) -> Option<TreeEntry> {
        if in_range(self.data, position + 16 + index * 8, 8) {
            Some(
                TreeEntry {
                    name: le32(self.data, position + 16 + index * 8),
                    payload: le32(self.data, position + 16 + index * 8 + 4),
                },
            )
        } else {
            None
        }
    }

    /// The data entry at `rva`.
    pub open spec fn data_entry(self, rva: u32) -> Option<ResourceDataEntry> {
        match self.position(rva) {
            None => None,
            Some(position) => if in_range(self.data, position, 16) {
                Some(
                    ResourceDataEntry {
                        data_rva: le32(self.data, position),
                        data_size: le32(self.data, position + 4),
                    },
                )
            } else {
                None
            },
        }
    }

    /// The data entry that `payload` leads to.
    pub open spec fn data_below(self, payload: u32) -> Option<ResourceDataEntry> {
        match self.address(payload) {
            None => None,
            Some(rva) => self.data_entry(rva),
        }
    }

    /// The first data entry at or below the directory at `rva`, whose own
    /// entries must have the number `target` where there is one.
    pub open spec fn first_data(self, rva: u32, target: Option<u32>, depth: int) -> Option<
        Option<ResourceDataEntry>,
    >
        decreases DEEPEST_LEVEL + 1 - depth, 1int, 0int,
    {
        if depth > DEEPEST_LEVEL {
            Some(None)
        } else {
            match self.position(rva) {
                None => None,
                Some(position) => match self.entry_count(position) {
                    None => None,
                    Some(count) => self.first_data_from(position, count, target, depth, 0),
                },
            }
        }
    }

    /// The same from entry `index` of the directory on.
    pub open spec fn first_data_from(
        self,
        position: int,
        count: int,
        target: Option<u32>,
        depth: int,
        index: int,
    ) -> Option<Option<ResourceDataEntry>>
        decreases DEEPEST_LEVEL + 1 - depth, 0int, count - index,
    {
        if index >= count || depth > DEEPEST_LEVEL {
            Some(None)
        } else {
            match self.entry(position, index) {
                None => None,
                Some(entry) => if (target matches Some(id) && !has_id(entry, id)) || (!marked(
                    entry.payload,
                ) && depth < 2) {
                    self.first_data_from(position, count, target, depth, index + 1)
                } else if marked(entry.payload) {
                    match self.address(entry.payload) {
                        None => None,
                        Some(child) => match self.first_data(child, None, depth + 1) {
                            None => None,
                            Some(Some(found)) => Some(Some(found)),
                            Some(None) => self.first_data_from(
                                position,
                                count,
                                target,
                                depth,
                                index + 1,
                            ),
                        },
                    }
                } else {
                    match self.data_below(entry.payload) {
                        None => None,
                        Some(found) => Some(Some(found)),
                    }
                },
            }
        }
    }

    /// The units of a name from `at` on, up to a zero or the limit, `taken` of
    /// them having been read before.
    pub open spec fn units_from(self, at: int, taken: int) -> Option<Seq<u16>>
        decreases NAME_LIMIT + 1 - taken,
    {
        if taken > NAME_LIMIT {
            Some(Seq::empty())
        } else {
            match u16_at(self.data, at) {
                None => None,
                Some(unit) => if unit == 0 {
                    Some(Seq::empty())
                } else {
                    prepended(seq![unit], self.units_from(at + 2, taken + 1))
                },
            }
        }
    }

    /// Whether the entry is the one named by `key`; texts are the same
    /// whatever their ASCII case.
    pub open spec fn named(self, entry: TreeEntry, key: ResourceNameModel) -> Option<bool> {
        match key {
            ResourceNameModel::Id(id) => Some(has_id(entry, id)),
            ResourceNameModel::Str(text) => if !marked(entry.name) {
                Some(false)
            } else {
                match self.address(entry.name) {
                    None => None,
                    Some(rva) => match self.position(rva) {
                        None => None,
                        Some(at) => match self.units_from(at, 0) {
                            None => None,
                            Some(units) => Some(lower(decoded_lossy(units)) == lower(text)),
                        },
                    },
                }
            },
        }
    }

    /// The subdirectory that the first entry named by `key` leads to, from
    /// entry `index` on: zero where no entry has that name, or where the entry
    /// leads to data.
    pub open spec fn child_from(
        self,
        position: int,
        count: int,
        key: ResourceNameModel,
        index: int,
    ) -> Option<u32>
        decreases count - index,
    {
        if index >= count {
            Some(0)
        } else {
            match self.entry(position, index) {
                None => None,
                Some(entry) => match self.named(entry, key) {
                    None => None,
                    Some(same) => if !same {
                        self.child_from(position, count, key, index + 1)
                    } else if !marked(entry.payload) {
                        Some(0)
                    } else {
                        self.address(entry.payload)
                    },
                },
            }
        }
    }

    /// The subdirectory named by `key` of the directory at `rva`.
    pub open spec fn child(self, rva: u32, key: ResourceNameModel) -> Option<u32> {
        match self.position(rva) {
            None => None,
            Some(position) => match self.entry_count(position) {
                None => None,
                Some(count) => self.child_from(position, count, key, 0),
            },
        }
    }

    /// The first data entry of the language directory, from entry `index` on.
    pub open spec fn language_from(self, position: int, count: int, index: int) -> Option<
        Option<ResourceDataEntry>,
    >
        decreases count - index,
    {
        if index >= count {
            Some(None)
        } else {
            match self.entry(position, index) {
                None => None,
                Some(entry) => if marked(entry.payload) {
                    self.language_from(position, count, index + 1)
                } else {
                    match self.data_below(entry.payload) {
                        None => None,
                        Some(found) => Some(Some(found)),
                    }
                },
            }
        }
    }

    /// The data entry of the resource with the given type and name.
    pub open spec fn by_key(self, type_id: u32, name: ResourceNameModel) -> Option<
        Option<ResourceDataEntry>,
    > {
        match self.child(self.root_rva, ResourceNameModel::Id(type_id)) {
            None => None,
            Some(type_rva) => if type_rva == 0 {
                Some(None)
            } else {
                match self.child(type_rva, name) {
                    None => None,
                    Some(name_rva) => if name_rva == 0 {
                        Some(None)
                    } else {
                        match self.position(name_rva) {
                            None => None,
                            Some(position) => match self.entry_count(position) {
                                None => None,
                                Some(count) => self.language_from(position, count, 0),
                            },
                        }
                    },
                }
            },
        }
    }

    /// All data entries at or below the directory at `rva`. A directory that
    /// ends before the data does is read as far as it goes.
    pub open spec fn all_data(self, rva: u32, depth: int) -> Option<Seq<ResourceDataEntry>>
        decreases DEEPEST_LEVEL + 1 - depth, 1int, 0int,
    {
        if depth > DEEPEST_LEVEL {
            Some(Seq::empty())
        } else {
            match self.position(rva) {
                None => None,
                Some(position) => match self.entry_count(position) {
                    None => Some(Seq::empty()),
                    Some(count) => self.all_data_from(position, count, depth, 0),
                },
            }
        }
    }

    /// The same from entry `index` of the directory on.
    pub open spec fn all_data_from(self, position: int, count: int, depth: int, index: int) -> Option<
        Seq<ResourceDataEntry>,
    >
        decreases DEEPEST_LEVEL + 1 - depth, 0int, count - index,
    {
        if index >= count || depth > DEEPEST_LEVEL {
            Some(Seq::empty())
        } else {
            match self.entry(position, index) {
                None => Some(Seq::empty()),
                Some(entry) => match (if marked(entry.payload) {
                    match self.address(entry.payload) {
                        None => None,
                        Some(child) => self.all_data(child, depth + 1),
                    }
                } else if depth >= 2 {
                    match self.data_below(entry.payload) {
                        None => None,
                        Some(found) => Some(seq![found]),
                    }
                } else {
                    Some(Seq::empty())
                }) {
                    None => None,
                    Some(here) => prepended(
                        here,
                        self.all_data_from(position, count, depth, index + 1),
                    ),
                },
            }
        }
    }

    /// The payload of the first entry with the number `id`, and with a
    /// subdirectory below it where `directory_only` asks for one.
    pub open spec fn payload_from(
        self,
        position: int,
        count: int,
        id: u32,
        directory_only: bool,
        index: int,
    ) -> Option<u32>
        decreases count - index,
    {
        if index >= count {
            None
        } else {
            match self.entry(position, index) {
                None => None,
                Some(entry) => if has_id(entry, id) && (directory_only ==> marked(entry.payload)) {
                    Some(entry.payload)
                } else {
                    self.payload_from(position, count, id, directory_only, index + 1)
                },
            }
        }
    }

    /// The payload of the entry with the number `id` of the directory at
    /// `rva`: `Some(None)` where there is no such entry.
    pub open spec fn payload(self, rva: u32, id: u32, directory_only: bool) -> Option<Option<u32>> {
        match self.position(rva) {
            None => None,
            Some(position) => match self.entry_count(position) {
                None => Some(None),
                Some(count) => Some(self.payload_from(position, count, id, directory_only, 0)),
            },
        }
    }

    /// The data entries that `payload` leads to, directly or through the
    /// directory of the given level.
    pub open spec fn under(self, payload: u32, depth: int) -> Option<Seq<ResourceDataEntry>> {
        match self.address(payload) {
            None => None,
            Some(rva) => if marked(payload) {
                self.all_data(rva, depth)
            } else {
                match self.data_entry(rva) {
                    None => None,
                    Some(found) => Some(seq![found]),
                }
            },
        }
    }

    /// All data entries of the given type.
    pub open spec fn of_type(self, type_id: u32) -> Option<Seq<ResourceDataEntry>> {
        match self.payload(self.root_rva, type_id, false) {
            None => None,
            Some(None) => Some(Seq::empty()),
            Some(Some(payload)) => self.under(payload, 2),
        }
    }

    /// All data entries of the given name in the directory at `rva`.
    pub open spec fn of_name(self, rva: u32, name_id: u32) -> Option<Seq<ResourceDataEntry>> {
        match self.payload(rva, name_id, false) {
            None => None,
            Some(None) => Some(Seq::empty()),
            Some(Some(payload)) => self.under(payload, 4),
        }
    }

    /// All data entries of the given type and name.
    pub open spec fn of_type_and_name(self, type_id: u32, name_id: u32) -> Option<
        Seq<ResourceDataEntry>,
    > {
        match self.payload(self.root_rva, type_id, true) {
            None => None,
            Some(None) => Some(Seq::empty()),
            Some(Some(payload)) => match self.address(payload) {
                None => None,
                Some(rva) => self.of_name(rva, name_id),
            },
        }
    }

    /// The bytes of a resource inside the section.
    pub open spec fn content(self, data_rva: u32, data_size: u32) -> Option<Seq<u8>> {
        if data_size == 0 {
            Some(Seq::empty())
        } else {
            match self.position(data_rva) {
                None => None,
                Some(position) => if in_range(self.data, position, data_size as int) {
                    Some(self.data.subrange(position, position + data_size))
                } else {
                    None
                },
            }
        }
    }
}

/// The resource tree of the image: `Some(None)` where it has none.
pub open spec fn resource_tree(
    bytes: Seq<u8>,
    sections: Seq<PeSectionModel>,
    directory: DataDirectory,
) -> Option<Option<Tree>> {
    if absent(directory) {
        Some(None)
    } else {
        match covering(sections, directory.virtual_address, 1, true) {
            None => None,
            Some(section) => if in_range(
                bytes,
                section.raw_data_ptr as int,
                section.raw_data_size as int,
            ) {
                Some(
                    Some(
                        Tree {
                            data: bytes.subrange(
                                section.raw_data_ptr as int,
                                section.raw_data_ptr + section.raw_data_size,
                            ),
                            section_rva: section.virtual_address,
                            root_rva: directory.virtual_address,
                        },
                    ),
                )
            } else {
                None
            },
        }
    }
}

/// The `size` bytes of the file from `rva` on.
pub open spec fn payload_bytes(
    bytes: Seq<u8>,
    sections: Seq<PeSectionModel>,
    entry: ResourceDataEntry,
) -> Option<Seq<u8>> {
    match file_offset(entry.data_rva, entry.data_size, sections, 0) {
        None => None,
        Some(offset) => if in_range(bytes, offset, entry.data_size as int) {
            Some(bytes.subrange(offset, offset + entry.data_size))
        } else {
            None
        },
    }
}

/// The bytes of the first resource of the given type: `Some(None)` where the
/// image has no such resource.
pub open spec fn resource_blob(
    bytes: Seq<u8>,
    sections: Seq<PeSectionModel>,
    directory: DataDirectory,
    type_id: u32,
) -> Option<Option<Seq<u8>>> {
    match resource_tree(bytes, sections, directory) {
        None => None,
        Some(None) => Some(None),
        Some(Some(tree)) => match tree.first_data(tree.root_rva, Some(type_id), 0) {
            None => None,
            Some(None) => Some(None),
            Some(Some(entry)) => match payload_bytes(bytes, sections, entry) {
                None => None,
                Some(content) => Some(Some(content)),
            },
        },
    }
}

// ---------------------------------------------------------------------------
// Reading the tree
// ---------------------------------------------------------------------------

/// The resource section of an image.
pub struct ResourceSection<'a> {
    pub data: &'a [u8],
    pub section_rva: u32,
    pub root_rva: u32,
}

impl<'a> ResourceSection<'a> {
    /// The tree in the section.
    pub open spec fn tree(&self) -> Tree {
        Tree { data: self.data@, section_rva: self.section_rva, root_rva: self.root_rva }
    }

    fn address(&self, field: u32) -> (rva: Option<u32>)
        ensures
            rva == self.tree().address(field),
    {
        self.root_rva.checked_add(field % 0x8000_0000)
    }

    fn position(&self, rva: u32) -> (position: Option<u32>)
        ensures
            match position {
                Some(position) => self.tree().position(rva) == Some(position as int),
                None => self.tree().position(rva) is None,
            },
    {
        rva.checked_sub(self.section_rva)
    }

    fn entry_count(&self, position: u32) -> (count: Option<u32>)
        ensures
            match count {
                Some(count) => self.tree().entry_count(position as int) == Some(count as int)
                    && count <= 0x2_0000,
                None => self.tree().entry_count(position as int) is None,
            },
    {
        let length: usize = self.data.len();
        let base: usize = position as usize;
        if length < 16 || length - 16 < base {
            return None;
        }
        let named: AppResult<u16> = read_u16(self.data, base + 12, "resource named entry count");
        let ids: AppResult<u16> = read_u16(self.data, base + 14, "resource id entry count");
        match (named, ids) {
            (Ok(named), Ok(ids)) => Some(named as u32 + ids as u32),
            _ => {
                assert(false);
                None
            },
        }
    }

    fn entry(&self, position: u32, index: u32) -> (entry: Option<TreeEntry>)
        requires
            index <= 0x2_0000,
        ensures
            entry == self.tree().entry(position as int, index as int),
    {
        let length: u64 = self.data.len() as u64;
        let at: u64 = position as u64 + 16 + index as u64 * 8;
        if length < at + 8 {
            return None;
        }
        let base: usize = at as usize;
        let name: AppResult<u32> = read_u32(self.data, base, "resource entry name");
        let payload: AppResult<u32> = read_u32(self.data, base + 4, "resource entry payload");
        match (name, payload) {
            (Ok(name), Ok(payload)) => Some(TreeEntry { name, payload }),
            _ => {
                assert(false);
                None
            },
        }
    }

    fn data_entry(&self, rva: u32) -> (outcome: AppResult<ResourceDataEntry>)
        ensures
            agrees(outcome, ReasonCode::RcPeParseInvalid, self.tree().data_entry(rva)),
    {
        match self.position(rva) {
            None => invalid("resource data entry underflow"),
            Some(position) => {
                let length: usize = self.data.len();
                let base: usize = position as usize;
                if length < 16 || length - 16 < base {
                    return invalid("resource data entry truncated");
                }
                let data_rva: AppResult<u32> = read_u32(self.data, base, "resource OffsetToData");
                let data_size: AppResult<u32> = read_u32(self.data, base + 4, "resource Size");
                match (data_rva, data_size) {
                    (Ok(data_rva), Ok(data_size)) => Ok(ResourceDataEntry { data_rva, data_size }),
                    _ => {
                        assert(false);
                        invalid("resource data entry")
                    },
                }
            },
        }
    }

    fn data_below(&self, payload: u32) -> (outcome: AppResult<ResourceDataEntry>)
        ensures
            agrees(outcome, ReasonCode::RcPeParseInvalid, self.tree().data_below(payload)),
    {
        match self.address(payload) {
            None => invalid("resource data entry overflow"),
            Some(rva) => self.data_entry(rva),
        }
    }

    /// The first data entry at or below the directory at `rva`.
    pub fn first_data(&self, rva: u32, target: Option<u32>, depth: u8) -> (outcome: AppResult<
        Option<ResourceDataEntry>,
    >)
        ensures
            agrees(
                outcome,
                ReasonCode::RcPeParseInvalid,
                self.tree().first_data(rva, target, depth as int),
            ),
        decreases DEEPEST_LEVEL + 1 - depth,
    {
        if depth > DEEPEST_LEVEL {
            return Ok(None);
        }
        let position: u32 = match self.position(rva) {
            None => {
                return invalid("resource directory underflow");
            },
            Some(position) => position,
        };
        let count: u32 = match self.entry_count(position) {
            None => {
                return invalid("resource directory exceeds file size");
            },
            Some(count) => count,
        };
        let mut index: u32 = 0;
        let ghost whole = self.tree().first_data(rva, target, depth as int);
        while index < count
            invariant
                index <= count,
                count <= 0x2_0000,
                depth <= DEEPEST_LEVEL,
                whole == self.tree().first_data(rva, target, depth as int),
                whole == self.tree().first_data_from(
                    position as int,
                    count as int,
                    target,
                    depth as int,
                    index as int,
                ),
            decreases count - index,
        {
            let entry: TreeEntry = match self.entry(position, index) {
                None => {
                    return invalid("resource entry exceeds file size");
                },
                Some(entry) => entry,
            };
            index += 1;
            let wanted: bool = match target {
                Some(id) => entry.name < 0x8000_0000 && entry.name % 0x1_0000 == id,
                None => true,
            };
            if !wanted {
                continue;
            }
            if entry.payload >= 0x8000_0000 {
                match self.address(entry.payload) {
                    None => {
                        return invalid("resource subdirectory overflow");
                    },
                    Some(child) => match self.first_data(child, None, depth + 1) {
                        Err(error) => {
                            return Err(error);
                        },
                        Ok(Some(found)) => {
                            return Ok(Some(found));
                        },
                        Ok(None) => {},
                    },
                }
            } else if depth >= 2 {
                return match self.data_below(entry.payload) {
                    Err(error) => Err(error),
                    Ok(found) => Ok(Some(found)),
                };
            }
        }
        Ok(None)
    }

    fn units(&self, start: u32) -> (outcome: AppResult<Vec<u16>>)
        ensures
            match outcome {
                Ok(units) => self.tree().units_from(start as int, 0) == Some(units@),
                Err(error) => self.tree().units_from(start as int, 0) is None && error.code
                    == ReasonCode::RcPeParseInvalid,
            },
    {
        let mut units: Vec<u16> = Vec::new();
        let ghost whole = self.tree().units_from(start as int, 0);
        proof {
            lemma_prepended_nothing(whole);
        }
        while units.len() <= NAME_LIMIT
            invariant
                units.len() <= NAME_LIMIT + 1,
                whole == self.tree().units_from(start as int, 0),
                whole == prepended(
                    units@,
                    self.tree().units_from(start + 2 * units.len(), units.len() as int),
                ),
            decreases NAME_LIMIT + 1 - units.len(),
        {
            match crate::bytes::field_u16(
                self.data,
                start as usize,
                2 * units.len(),
                "resource name unit",
            ) {
                Err(error) => {
                    return Err(error);
                },
                Ok(unit) => {
                    if unit == 0 {
                        assert(units@ + Seq::<u16>::empty() =~= units@);
                        return Ok(units);
                    }
                    proof {
                        lemma_prepended_push(
                            units@,
                            unit,
                            self.tree().units_from(
                                start + 2 * units.len() + 2,
                                units.len() + 1,
                            ),
                        );
                    }
                    units.push(unit);
                },
            }
        }
        assert(units@ + Seq::<u16>::empty() =~= units@);
        Ok(units)
    }

    fn named(&self, entry: TreeEntry, key: &ResourceName) -> (outcome: AppResult<bool>)
        ensures
            agrees(
                outcome,
                ReasonCode::RcPeParseInvalid,
                self.tree().named(entry, key.deep_view()),
            ),
    {
        match key {
            ResourceName::Id(id) => Ok(
                entry.name < 0x8000_0000 && entry.name % 0x1_0000 == *id,
            ),
            ResourceName::Str(expected) => {
                if entry.name < 0x8000_0000 {
                    return Ok(false);
                }
                match self.address(entry.name) {
                    None => invalid("resource name string overflow"),
                    Some(rva) => match self.position(rva) {
                        None => invalid("resource directory underflow"),
                        Some(at) => match self.units(at) {
                            Err(error) => Err(error),
                            Ok(units) => {
                                let text: String = decode_lossy(&units);
                                Ok(same_text(&to_lower(&text), &to_lower(expected)))
                            },
                        },
                    },
                }
            },
        }
    }

    /// The subdirectory named by `key` of the directory at `rva`; zero where
    /// there is none.
    pub fn child(&self, rva: u32, key: &ResourceName) -> (outcome: AppResult<u32>)
        ensures
            agrees(
                outcome,
                ReasonCode::RcPeParseInvalid,
                self.tree().child(rva, key.deep_view()),
            ),
    {
        let position: u32 = match self.position(rva) {
            None => {
                return invalid("resource directory underflow");
            },
            Some(position) => position,
        };
        let count: u32 = match self.entry_count(position) {
            None => {
                return invalid("resource directory exceeds file size");
            },
            Some(count) => count,
        };
        let mut index: u32 = 0;
        let ghost whole = self.tree().child(rva, key.deep_view());
        while index < count
            invariant
                index <= count,
                count <= 0x2_0000,
                whole == self.tree().child(rva, key.deep_view()),
                whole == self.tree().child_from(
                    position as int,
                    count as int,
                    key.deep_view(),
                    index as int,
                ),
            decreases count - index,
        {
            let entry: TreeEntry = match self.entry(position, index) {
                None => {
                    return invalid("resource entry exceeds file size");
                },
                Some(entry) => entry,
            };
            match self.named(entry, key) {
                Err(error) => {
                    return Err(error);
                },
                Ok(same) => {
                    if same {
                        if entry.payload < 0x8000_0000 {
                            return Ok(0);
                        }
                        return match self.address(entry.payload) {
                            None => invalid("resource subdirectory overflow"),
                            Some(child) => Ok(child),
                        };
                    }
                },
            }
            index += 1;
        }
        Ok(0)
    }

    fn language(&self, rva: u32) -> (outcome: AppResult<Option<ResourceDataEntry>>)
        ensures
            agrees(
                outcome,
                ReasonCode::RcPeParseInvalid,
                match self.tree().position(rva) {
                    None => None,
                    Some(position) => match self.tree().entry_count(position) {
                        None => None,
                        Some(count) => self.tree().language_from(position, count, 0),
                    },
                },
            ),
    {
        let position: u32 = match self.position(rva) {
            None => {
                return invalid("resource directory underflow");
            },
            Some(position) => position,
        };
        let count: u32 = match self.entry_count(position) {
            None => {
                return invalid("resource directory exceeds file size");
            },
            Some(count) => count,
        };
        let mut index: u32 = 0;
        while index < count
            invariant
                index <= count,
                count <= 0x2_0000,
                self.tree().position(rva) == Some(position as int),
                self.tree().entry_count(position as int) == Some(count as int),
                self.tree().language_from(position as int, count as int, 0)
                    == self.tree().language_from(position as int, count as int, index as int),
            decreases count - index,
        {
            match self.entry(position, index) {
                None => {
                    return invalid("resource language entry exceeds file size");
                },
                Some(entry) => {
                    if entry.payload < 0x8000_0000 {
                        return match self.data_below(entry.payload) {
                            Err(error) => Err(error),
                            Ok(found) => Ok(Some(found)),
                        };
                    }
                },
            }
            index += 1;
        }
        Ok(None)
    }

    /// The data entry of the resource with the given type and name.
    pub fn by_key(&self, type_id: u32, name: &ResourceName) -> (outcome: AppResult<
        Option<ResourceDataEntry>,
    >)
        ensures
            agrees(
                outcome,
                ReasonCode::RcPeParseInvalid,
                self.tree().by_key(type_id, name.deep_view()),
            ),
    {
        let type_key = ResourceName::Id(type_id);
        match self.child(self.root_rva, &type_key) {
            Err(error) => Err(error),
            Ok(type_rva) => {
                if type_rva == 0 {
                    return Ok(None);
                }
                match self.child(type_rva, name) {
                    Err(error) => Err(error),
                    Ok(name_rva) => {
                        if name_rva == 0 {
                            return Ok(None);
                        }
                        self.language(name_rva)
                    },
                }
            },
        }
    }

    /// All data entries at or below the directory at `rva`.
    pub fn all_data(&self, rva: u32, depth: u8) -> (outcome: AppResult<Vec<ResourceDataEntry>>)
        ensures
            match outcome {
                Ok(entries) => self.tree().all_data(rva, depth as int) == Some(entries@),
                Err(error) => self.tree().all_data(rva, depth as int) is None && error.code
                    == ReasonCode::RcPeParseInvalid,
            },
        decreases DEEPEST_LEVEL + 1 - depth,
    {
        let mut results: Vec<ResourceDataEntry> = Vec::new();
        if depth > DEEPEST_LEVEL {
            return Ok(results);
        }
        let position: u32 = match self.position(rva) {
            None => {
                return invalid("resource dir underflow");
            },
            Some(position) => position,
        };
        let count: u32 = match self.entry_count(position) {
            None => {
                return Ok(results);
            },
            Some(count) => count,
        };
        let mut index: u32 = 0;
        let ghost whole = self.tree().all_data(rva, depth as int);
        proof {
            lemma_prepended_nothing(whole);
        }
        while index < count
            invariant
                index <= count,
                count <= 0x2_0000,
                depth <= DEEPEST_LEVEL,
                whole == self.tree().all_data(rva, depth as int),
                whole == prepended(
                    results@,
                    self.tree().all_data_from(
                        position as int,
                        count as int,
                        depth as int,
                        index as int,
                    ),
                ),
            decreases count - index,
        {
            let ghost before = results@;
            let ghost rest = self.tree().all_data_from(
                position as int,
                count as int,
                depth as int,
                index + 1,
            );
            match self.entry(position, index) {
                None => {
                    assert(results@ + Seq::<ResourceDataEntry>::empty() =~= results@);
                    return Ok(results);
                },
                Some(entry) => {
                    if entry.payload >= 0x8000_0000 {
                        match self.address(entry.payload) {
                            None => {
                                return invalid("resource subdirectory overflow");
                            },
                            Some(child) => match self.all_data(child, depth + 1) {
                                Err(error) => {
                                    return Err(error);
                                },
                                Ok(found) => {
                                    let mut found = found;
                                    let ghost here = found@;
                                    results.append(&mut found);
                                    proof {
                                        if let Some(tail) = rest {
                                            assert(before + (here + tail) =~= results@ + tail);
                                        }
                                    }
                                },
                            },
                        }
                    } else if depth >= 2 {
                        match self.data_below(entry.payload) {
                            Err(error) => {
                                return Err(error);
                            },
                            Ok(found) => {
                                results.push(found);
                                proof {
                                    lemma_prepended_push(before, found, rest);
                                }
                            },
                        }
                    } else {
                        proof {
                            lemma_prepended_nothing(rest);
                        }
                    }
                },
            }
            index += 1;
        }
        assert(results@ + Seq::<ResourceDataEntry>::empty() =~= results@);
        Ok(results)
    }

    fn payload(&self, rva: u32, id: u32, directory_only: bool) -> (outcome: AppResult<Option<u32>>)
        ensures
            agrees(
                outcome,
                ReasonCode::RcPeParseInvalid,
                self.tree().payload(rva, id, directory_only),
            ),
    {
        let position: u32 = match self.position(rva) {
            None => {
                return invalid("resource dir underflow");
            },
            Some(position) => position,
        };
        let count: u32 = match self.entry_count(position) {
            None => {
                return Ok(None);
            },
            Some(count) => count,
        };
        let mut index: u32 = 0;
        while index < count
            invariant
                index <= count,
                count <= 0x2_0000,
                self.tree().position(rva) == Some(position as int),
                self.tree().entry_count(position as int) == Some(count as int),
                self.tree().payload_from(position as int, count as int, id, directory_only, 0)
                    == self.tree().payload_from(
                    position as int,
                    count as int,
                    id,
                    directory_only,
                    index as int,
                ),
            decreases count - index,
        {
            match self.entry(position, index) {
                None => {
                    return Ok(None);
                },
                Some(entry) => {
                    if entry.name < 0x8000_0000 && entry.name % 0x1_0000 == id && (!directory_only
                        || entry.payload >= 0x8000_0000) {
                        return Ok(Some(entry.payload));
                    }
                },
            }
            index += 1;
        }
        Ok(None)
    }

    fn under(&self, payload: u32, depth: u8) -> (outcome: AppResult<Vec<ResourceDataEntry>>)
        ensures
            match outcome {
                Ok(entries) => self.tree().under(payload, depth as int) == Some(entries@),
                Err(error) => self.tree().under(payload, depth as int) is None && error.code
                    == ReasonCode::RcPeParseInvalid,
            },
    {
        match self.address(payload) {
            None => invalid("resource subdirectory overflow"),
            Some(rva) => {
                if payload >= 0x8000_0000 {
                    return self.all_data(rva, depth);
                }
                match self.data_entry(rva) {
                    Err(error) => Err(error),
                    Ok(found) => {
                        let mut entries: Vec<ResourceDataEntry> = Vec::new();
                        entries.push(found);
                        assert(entries@ =~= seq![found]);
                        Ok(entries)
                    },
                }
            },
        }
    }

    /// All data entries of the given type.
    pub fn of_type(&self, type_id: u32) -> (outcome: AppResult<Vec<ResourceDataEntry>>)
        ensures
            match outcome {
                Ok(entries) => self.tree().of_type(type_id) == Some(entries@),
                Err(error) => self.tree().of_type(type_id) is None && error.code
                    == ReasonCode::RcPeParseInvalid,
            },
    {
        match self.payload(self.root_rva, type_id, false) {
            Err(error) => Err(error),
            Ok(None) => Ok(Vec::new()),
            Ok(Some(payload)) => self.under(payload, 2),
        }
    }

    /// All data entries of the given name in the directory at `rva`.
    pub fn of_name(&self, rva: u32, name_id: u32) -> (outcome: AppResult<Vec<ResourceDataEntry>>)
        ensures
            match outcome {
                Ok(entries) => self.tree().of_name(rva, name_id) == Some(entries@),
                Err(error) => self.tree().of_name(rva, name_id) is None && error.code
                    == ReasonCode::RcPeParseInvalid,
            },
    {
        match self.payload(rva, name_id, false) {
            Err(error) => Err(error),
            Ok(None) => Ok(Vec::new()),
            Ok(Some(payload)) => self.under(payload, 4),
        }
    }

    /// All data entries of the given type and name.
    pub fn of_type_and_name(&self, type_id: u32, name_id: u32) -> (outcome: AppResult<
        Vec<ResourceDataEntry>,
    >)
        ensures
            match outcome {
                Ok(entries) => self.tree().of_type_and_name(type_id, name_id) == Some(entries@),
                Err(error) => self.tree().of_type_and_name(type_id, name_id) is None && error.code
                    == ReasonCode::RcPeParseInvalid,
            },
    {
        match self.payload(self.root_rva, type_id, true) {
            Err(error) => Err(error),
            Ok(None) => Ok(Vec::new()),
            Ok(Some(payload)) => match self.address(payload) {
                None => invalid("resource subdirectory overflow"),
                Some(rva) => self.of_name(rva, name_id),
            },
        }
    }

    /// The bytes of a resource inside the section.
    pub fn content(&self, data_rva: u32, data_size: u32) -> (outcome: AppResult<Vec<u8>>)
        ensures
            match outcome {
                Ok(content) => self.tree().content(data_rva, data_size) == Some(content@),
                Err(error) => self.tree().content(data_rva, data_size) is None && error.code
                    == ReasonCode::RcPeParseInvalid,
            },
    {
        if data_size == 0 {
            return Ok(Vec::new());
        }
        match self.position(data_rva) {
            None => invalid("resource data RVA underflow"),
            Some(position) => match slice(
                self.data,
                position as usize,
                data_size as usize,
                "resource data",
            ) {
                Err(error) => Err(error),
                Ok(part) => Ok(vstd::slice::slice_to_vec(part)),
            },
        }
    }
}

/// The resource section of the image, where it has one.
pub fn resource_section<'a>(
    bytes: &'a [u8],
    sections: &[PeSection],
    directories: &[DataDirectory],
) -> (outcome: AppResult<Option<ResourceSection<'a>>>)
    ensures
        match outcome {
            Ok(found) => resource_tree(
                bytes@,
                sections.deep_view(),
                directory_entry(directories@, IMAGE_DIRECTORY_ENTRY_RESOURCE as int),
            ) == Some(
                match found {
                    None => None,
                    Some(section) => Some(section.tree()),
                },
            ),
            Err(error) => resource_tree(
                bytes@,
                sections.deep_view(),
                directory_entry(directories@, IMAGE_DIRECTORY_ENTRY_RESOURCE as int),
            ) is None && error.code == ReasonCode::RcPeParseInvalid,
        },
{
    let directory: DataDirectory = directory_or_none(directories, IMAGE_DIRECTORY_ENTRY_RESOURCE);
    if directory.virtual_address == 0 || directory.size == 0 {
        return Ok(None);
    }
    match section_for_rva(sections, directory.virtual_address, 1, true) {
        None => invalid("resource directory RVA is not covered by any section"),
        Some(section) => match slice(
            bytes,
            section.raw_data_ptr as usize,
            section.raw_data_size as usize,
            "resource section raw bytes",
        ) {
            Err(error) => Err(error),
            Ok(data) => Ok(
                Some(
                    ResourceSection {
                        data,
                        section_rva: section.virtual_address,
                        root_rva: directory.virtual_address,
                    },
                ),
            ),
        },
    }
}

fn read_payload(bytes: &[u8], sections: &[PeSection], entry: ResourceDataEntry) -> (outcome:
    AppResult<Vec<u8>>)
    ensures
        match outcome {
            Ok(content) => payload_bytes(bytes@, sections.deep_view(), entry) == Some(content@),
            Err(error) => payload_bytes(bytes@, sections.deep_view(), entry) is None && error.code
                == ReasonCode::RcPeParseInvalid,
        },
{
    match rva_to_file_offset(entry.data_rva, entry.data_size, sections, 0) {
        Err(error) => Err(error),
        Ok(offset) => match slice(bytes, offset, entry.data_size as usize, "resource payload") {
            Err(error) => Err(error),
            Ok(part) => Ok(vstd::slice::slice_to_vec(part)),
        },
    }
}

/// The first data entry below the directory at `directory_rva`, as the
/// address and size of its bytes.
pub fn find_resource_data_entry(
    resource_section_bytes: &[u8],
    section_rva: u32,
    root_rva: u32,
    directory_rva: u32,
    target_id: Option<u32>,
    depth: u8,
) -> (outcome: AppResult<Option<(u32, u32)>>)
    ensures
        match outcome {
            Ok(found) => (Tree {
                data: resource_section_bytes@,
                section_rva,
                root_rva,
            }).first_data(directory_rva, target_id, depth as int) == Some(
                match found {
                    None => None,
                    Some((data_rva, data_size)) => Some(ResourceDataEntry { data_rva, data_size }),
                },
            ),
            Err(error) => (Tree {
                data: resource_section_bytes@,
                section_rva,
                root_rva,
            }).first_data(directory_rva, target_id, depth as int) is None && error.code
                == ReasonCode::RcPeParseInvalid,
        },
{
    let section = ResourceSection { data: resource_section_bytes, section_rva, root_rva };
    match section.first_data(directory_rva, target_id, depth) {
        Err(error) => Err(error),
        Ok(None) => Ok(None),
        Ok(Some(entry)) => Ok(Some((entry.data_rva, entry.data_size))),
    }
}

/// The bytes of the first resource of the given type.
pub fn find_resource_blob(
    bytes: &[u8],
    sections: &[PeSection],
    directories: &[DataDirectory],
    type_id: u32,
) -> (outcome: AppResult<Option<Vec<u8>>>)
    ensures
        agrees(
            outcome,
            ReasonCode::RcPeParseInvalid,
            resource_blob(
                bytes@,
                sections.deep_view(),
                directory_entry(directories@, IMAGE_DIRECTORY_ENTRY_RESOURCE as int),
                type_id,
            ),
        ),
{
    let section: ResourceSection = match resource_section(bytes, sections, directories) {
        Err(error) => {
            return Err(error);
        },
        Ok(None) => {
            return Ok(None);
        },
        Ok(Some(section)) => section,
    };
    match section.first_data(section.root_rva, Some(type_id), 0) {
        Err(error) => Err(error),
        Ok(None) => Ok(None),
        Ok(Some(entry)) => match read_payload(bytes, sections, entry) {
            Err(error) => Err(error),
            Ok(content) => {
                assert(content.deep_view() =~= content@);
                Ok(Some(content))
            },
        },
    }
}

/// Where the bytes of the resource with the given type and name lie.
pub fn find_resource_data_entry_by_key(
    bytes: &[u8],
    sections: &[PeSection],
    directories: &[DataDirectory],
    type_id: u32,
    name: &ResourceName,
) -> (outcome: AppResult<Option<(u32, u32)>>)
    ensures
        agrees(
            outcome,
            ReasonCode::RcPeParseInvalid,
            match resource_tree(
                bytes@,
                sections.deep_view(),
                directory_entry(directories@, IMAGE_DIRECTORY_ENTRY_RESOURCE as int),
            ) {
                None => None,
                Some(None) => Some(None),
                Some(Some(tree)) => match tree.by_key(type_id, name.deep_view()) {
                    None => None,
                    Some(None) => Some(None),
                    Some(Some(entry)) => Some(Some((entry.data_rva, entry.data_size))),
                },
            },
        ),
{
    match resource_section(bytes, sections, directories) {
        Err(error) => Err(error),
        Ok(None) => Ok(None),
        Ok(Some(section)) => match section.by_key(type_id, name) {
            Err(error) => Err(error),
            Ok(None) => Ok(None),
            Ok(Some(entry)) => Ok(Some((entry.data_rva, entry.data_size))),
        },
    }
}

/// The bytes of the resource at `data_rva`.
pub fn extract_resource_payload(
    bytes: &[u8],
    sections: &[PeSection],
    data_rva: u32,
    data_size: u32,
) -> (outcome: AppResult<Option<Vec<u8>>>)
    ensures
        agrees(
            outcome,
            ReasonCode::RcPeParseInvalid,
            if data_size == 0 {
                Some(Some(Seq::empty()))
            } else {
                match payload_bytes(bytes@, sections.deep_view(), ResourceDataEntry { data_rva, data_size }) {
                    None => None,
                    Some(content) => Some(Some(content)),
                }
            },
        ),
{
    if data_size == 0 {
        let none: Vec<u8> = Vec::new();
        assert(none.deep_view() =~= Seq::<u8>::empty());
        return Ok(Some(none));
    }
    match read_payload(bytes, sections, ResourceDataEntry { data_rva, data_size }) {
        Err(error) => Err(error),
        Ok(content) => {
            assert(content.deep_view() =~= content@);
            Ok(Some(content))
        },
    }
}

// ---------------------------------------------------------------------------
// How a tree is written, and that it is read as such
// ---------------------------------------------------------------------------

/// A place below the root is named by its distance from it, with the mark or
/// without; in the section it stands as far behind the root as that.
pub proof fn lemma_place_below_root(tree: Tree, distance: u32)
    requires
        distance < 0x8000_0000,
        tree.section_rva <= tree.root_rva,
        tree.root_rva + distance <= u32::MAX,
    ensures
        tree.address(distance) == Some((tree.root_rva + distance) as u32),
        tree.address((0x8000_0000 + distance) as u32) == tree.address(distance),
        !marked(distance),
        marked((0x8000_0000 + distance) as u32),
        tree.position((tree.root_rva + distance) as u32) == Some(
            tree.root_rva - tree.section_rva + distance,
        ),
{
    assert((0x8000_0000 + distance) as u32 % 0x8000_0000 == distance);
}

/// A directory has the entries that it counts by name and by number together.
pub proof fn lemma_directory_reads_back(
    tree: Tree,
    position: int,
    flags: u32,
    moment: u32,
    version: u32,
    named: u16,
    numbered: u16,
)
    requires
        holds_at(
            tree.data,
            position,
            bytes32(flags) + (bytes32(moment) + (bytes32(version) + (bytes16(named) + bytes16(
                numbered,
            )))),
        ),
    ensures
        tree.entry_count(position) == Some(named + numbered),
{
    let counts = bytes16(named) + bytes16(numbered);
    lemma_held32_first(
        tree.data,
        position,
        flags,
        bytes32(moment) + (bytes32(version) + counts),
    );
    lemma_held32_first(tree.data, position + 4, moment, bytes32(version) + counts);
    lemma_held32_first(tree.data, position + 8, version, counts);
    lemma_held16_first(tree.data, position + 12, named, bytes16(numbered));
    assert(bytes16(numbered) =~= bytes16(numbered) + Seq::<u8>::empty());
    lemma_held16_first(tree.data, position + 14, numbered, Seq::empty());
}

/// Entry `index` of a directory stands behind its head and the entries before
/// it: a name and a payload.
pub proof fn lemma_entry_reads_back(
    tree: Tree,
    position: int,
    index: int,
    name: u32,
    payload: u32,
)
    requires
        holds_at(tree.data, position + 16 + 8 * index, bytes32(name) + bytes32(payload)),
    ensures
        tree.entry(position, index) == Some(TreeEntry { name, payload }),
{
    let at = position + 16 + 8 * index;
    lemma_held32_first(tree.data, at, name, bytes32(payload));
    lemma_held32(tree.data, at + 4, payload);
    assert(at == position + 16 + index * 8);
}

/// A data entry tells where its data is and then how long it is.
pub proof fn lemma_data_entry_reads_back(
    tree: Tree,
    rva: u32,
    data_rva: u32,
    data_size: u32,
    code_page: u32,
    reserved: u32,
)
    requires
        tree.section_rva <= rva,
        holds_at(
            tree.data,
            rva - tree.section_rva,
            bytes32(data_rva) + (bytes32(data_size) + (bytes32(code_page) + bytes32(reserved))),
        ),
    ensures
        tree.data_entry(rva) == Some(ResourceDataEntry { data_rva, data_size }),
{
    let at = rva - tree.section_rva;
    let last = bytes32(code_page) + bytes32(reserved);
    lemma_held32_first(tree.data, at, data_rva, bytes32(data_size) + last);
    lemma_held32_first(tree.data, at + 4, data_size, last);
    lemma_held32_first(tree.data, at + 8, code_page, bytes32(reserved));
    lemma_held32(tree.data, at + 12, reserved);
}

/// A name is read up to the zero behind it.
pub proof fn lemma_name_reads_back(tree: Tree, at: int, units: Seq<u16>)
    requires
        holds_at(tree.data, at, units_bytes(units.push(0))),
        !units.contains(0),
        units.len() <= 256,
    ensures
        tree.units_from(at, 0) == Some(units),
{
    lemma_units_from(tree, at, units, 0);
}

proof fn lemma_units_from(tree: Tree, at: int, units: Seq<u16>, taken: int)
    requires
        holds_at(tree.data, at, units_bytes(units.push(0))),
        !units.contains(0),
        0 <= taken,
        taken + units.len() <= 256,
    ensures
        tree.units_from(at, taken) == Some(units),
    decreases units.len(),
{
    let all = units.push(0);
    let rest = all.drop_first();
    lemma_held16_first(tree.data, at, all[0], units_bytes(rest));
    if units.len() > 0 {
        assert(units.contains(units[0]));
        let fewer = units.drop_first();
        assert(rest =~= fewer.push(0));
        assert(!fewer.contains(0)) by {
            if fewer.contains(0) {
                let i = choose|i: int| 0 <= i < fewer.len() && fewer[i] == 0;
                assert(units[i + 1] == 0);
            }
        }
        lemma_units_from(tree, at + 2, fewer, taken + 1);
        assert(seq![units[0]] + fewer =~= units);
    } else {
        assert(units =~= Seq::<u16>::empty());
    }
}

/// An entry has the number that its low sixteen bits write, unless its mark
/// says that it has a name.
pub proof fn lemma_has_id(high: u32, low: u32, payload: u32, id: u32)
    requires
        high < 0x8000,
        low < 0x1_0000,
    ensures
        has_id(TreeEntry { name: (0x1_0000 * high + low) as u32, payload }, id) <==> id == low,
        !has_id(TreeEntry { name: (0x8000_0000 + 0x1_0000 * high + low) as u32, payload }, id),
{
}

/// Entry `i` is the first of the directory with the key, and those before it
/// can be read.
pub open spec fn is_first_named(tree: Tree, position: int, key: ResourceNameModel, i: int) -> bool {
    &&& 0 <= i
    &&& tree.entry(position, i) is Some
    &&& tree.named(tree.entry(position, i)->0, key) == Some(true)
    &&& forall|j: int|
        0 <= j < i ==> #[trigger] tree.entry(position, j) is Some && tree.named(
            tree.entry(position, j)->0,
            key,
        ) == Some(false)
}

/// The directory below a key is the one that the first entry with the key leads
/// to; where that entry leads to data, or no entry has the key, there is none.
pub proof fn lemma_child(tree: Tree, position: int, count: int, key: ResourceNameModel)
    ensures
        forall|i: int|
            i < count && #[trigger] is_first_named(tree, position, key, i) ==> tree.child_from(
                position,
                count,
                key,
                0,
            ) == (if tree.entry(position, i)->0.payload >= 0x8000_0000 {
                tree.address(tree.entry(position, i)->0.payload)
            } else {
                Some(0)
            }),
        (forall|j: int|
            0 <= j < count ==> #[trigger] tree.entry(position, j) is Some && tree.named(
                tree.entry(position, j)->0,
                key,
            ) == Some(false)) ==> tree.child_from(position, count, key, 0) == Some(0u32),
{
    assert forall|i: int| i < count && #[trigger] is_first_named(tree, position, key, i) implies
        tree.child_from(position, count, key, 0) == (if tree.entry(position, i)->0.payload
        >= 0x8000_0000 {
        tree.address(tree.entry(position, i)->0.payload)
    } else {
        Some(0)
    }) by {
        lemma_child_skips(tree, position, count, key, 0, i);
    }
    if forall|j: int|
        0 <= j < count ==> #[trigger] tree.entry(position, j) is Some && tree.named(
            tree.entry(position, j)->0,
            key,
        ) == Some(false) {
        if count > 0 {
            lemma_child_skips(tree, position, count, key, 0, count);
        }
    }
}

proof fn lemma_child_skips(
    tree: Tree,
    position: int,
    count: int,
    key: ResourceNameModel,
    from: int,
    to: int,
)
    requires
        0 <= from <= to <= count,
        forall|j: int|
            0 <= j < to ==> #[trigger] tree.entry(position, j) is Some && tree.named(
                tree.entry(position, j)->0,
                key,
            ) == Some(false),
    ensures
        tree.child_from(position, count, key, from) == tree.child_from(position, count, key, to),
    decreases to - from,
{
    if from < to {
        assert(tree.entry(position, from) is Some);
        lemma_child_skips(tree, position, count, key, from + 1, to);
    }
}

/// The data of a language is that of the first entry that leads to data.
pub proof fn lemma_language(tree: Tree, position: int, count: int, i: int)
    requires
        0 <= i < count,
        tree.entry(position, i) is Some,
        tree.entry(position, i)->0.payload < 0x8000_0000,
        forall|j: int|
            0 <= j < i ==> #[trigger] tree.entry(position, j) is Some && tree.entry(
                position,
                j,
            )->0.payload >= 0x8000_0000,
    ensures
        tree.language_from(position, count, 0) == (match tree.data_below(
            tree.entry(position, i)->0.payload,
        ) {
            Some(found) => Some(Some(found)),
            None => None,
        }),
{
    lemma_language_skips(tree, position, count, 0, i);
}

proof fn lemma_language_skips(tree: Tree, position: int, count: int, from: int, to: int)
    requires
        0 <= from <= to < count,
        forall|j: int|
            0 <= j < to ==> #[trigger] tree.entry(position, j) is Some && tree.entry(
                position,
                j,
            )->0.payload >= 0x8000_0000,
    ensures
        tree.language_from(position, count, from) == tree.language_from(position, count, to),
    decreases to - from,
{
    if from < to {
        assert(tree.entry(position, from) is Some);
        lemma_language_skips(tree, position, count, from + 1, to);
    }
}

/// A resource that is asked for by its type and its name is the one that is
/// reached through the directories of the two.
pub proof fn lemma_by_key(
    tree: Tree,
    type_id: u32,
    name: ResourceNameModel,
    type_rva: u32,
    name_rva: u32,
    count: int,
)
    requires
        type_rva != 0,
        name_rva != 0,
        tree.section_rva <= name_rva,
        tree.child(tree.root_rva, ResourceNameModel::Id(type_id)) == Some(type_rva),
        tree.child(type_rva, name) == Some(name_rva),
        tree.entry_count(name_rva - tree.section_rva) == Some(count),
    ensures
        tree.by_key(type_id, name) == tree.language_from(name_rva - tree.section_rva, count, 0),
{
}

/// The payload for a number is that of the first entry with it; where only a
/// directory will do, of the first with it that leads to one.
pub proof fn lemma_payload(
    tree: Tree,
    position: int,
    count: int,
    id: u32,
    directory_only: bool,
    i: int,
)
    requires
        0 <= i < count,
        tree.entry(position, i) is Some,
        has_id(tree.entry(position, i)->0, id),
        directory_only ==> tree.entry(position, i)->0.payload >= 0x8000_0000,
        forall|j: int|
            0 <= j < i ==> #[trigger] tree.entry(position, j) is Some && (!has_id(
                tree.entry(position, j)->0,
                id,
            ) || (directory_only && tree.entry(position, j)->0.payload < 0x8000_0000)),
    ensures
        tree.payload_from(position, count, id, directory_only, 0) == Some(
            tree.entry(position, i)->0.payload,
        ),
{
    lemma_payload_skips(tree, position, count, id, directory_only, 0, i);
}

proof fn lemma_payload_skips(
    tree: Tree,
    position: int,
    count: int,
    id: u32,
    directory_only: bool,
    from: int,
    to: int,
)
    requires
        0 <= from <= to < count,
        forall|j: int|
            0 <= j < to ==> #[trigger] tree.entry(position, j) is Some && (!has_id(
                tree.entry(position, j)->0,
                id,
            ) || (directory_only && tree.entry(position, j)->0.payload < 0x8000_0000)),
    ensures
        tree.payload_from(position, count, id, directory_only, from) == tree.payload_from(
            position,
            count,
            id,
            directory_only,
            to,
        ),
    decreases to - from,
{
    if from < to {
        assert(tree.entry(position, from) is Some);
        lemma_payload_skips(tree, position, count, id, directory_only, from + 1, to);
    }
}

/// The first data below a directory is the first of all data below it.
pub proof fn lemma_first_of_all(tree: Tree, rva: u32, depth: int)
    requires
        tree.first_data(rva, None, depth) is Some,
        tree.all_data(rva, depth) is Some,
    ensures
        match tree.first_data(rva, None, depth)->0 {
            Some(found) => tree.all_data(rva, depth)->0.len() > 0 && tree.all_data(rva, depth)->0[0]
                == found,
            None => tree.all_data(rva, depth)->0.len() == 0,
        },
    decreases DEEPEST_LEVEL + 1 - depth, 1int, 0int,
{
    if depth <= DEEPEST_LEVEL {
        let position = tree.position(rva)->0;
        let count = tree.entry_count(position)->0;
        lemma_first_of_all_from(tree, position, count, depth, 0);
    }
}

proof fn lemma_first_of_all_from(tree: Tree, position: int, count: int, depth: int, index: int)
    requires
        tree.first_data_from(position, count, None, depth, index) is Some,
        tree.all_data_from(position, count, depth, index) is Some,
    ensures
        match tree.first_data_from(position, count, None, depth, index)->0 {
            Some(found) => tree.all_data_from(position, count, depth, index)->0.len() > 0
                && tree.all_data_from(position, count, depth, index)->0[0] == found,
            None => tree.all_data_from(position, count, depth, index)->0.len() == 0,
        },
    decreases DEEPEST_LEVEL + 1 - depth, 0int, count - index,
{
    if index < count && depth <= DEEPEST_LEVEL {
        let entry = tree.entry(position, index)->0;
        if marked(entry.payload) {
            let child = tree.address(entry.payload)->0;
            lemma_first_of_all(tree, child, depth + 1);
            if tree.first_data(child, None, depth + 1)->0 is None {
                lemma_first_of_all_from(tree, position, count, depth, index + 1);
            }
        } else if depth < 2 {
            lemma_first_of_all_from(tree, position, count, depth, index + 1);
        }
    }
}

/// The first data of a type is the first data below the first entry with its
/// number that has any.
pub proof fn lemma_first_of_type(
    tree: Tree,
    position: int,
    count: int,
    type_id: u32,
    i: int,
    child: u32,
    found: ResourceDataEntry,
)
    requires
        0 <= i < count,
        tree.entry(position, i) is Some,
        has_id(tree.entry(position, i)->0, type_id),
        tree.entry(position, i)->0.payload >= 0x8000_0000,
        tree.address(tree.entry(position, i)->0.payload) == Some(child),
        tree.first_data(child, None, 1) == Some(Some(found)),
        forall|j: int|
            0 <= j < i ==> #[trigger] tree.entry(position, j) is Some && !has_id(
                tree.entry(position, j)->0,
                type_id,
            ),
    ensures
        tree.first_data_from(position, count, Some(type_id), 0, 0) == Some(Some(found)),
{
    lemma_first_skips(tree, position, count, type_id, 0, i);
}

proof fn lemma_first_skips(
    tree: Tree,
    position: int,
    count: int,
    type_id: u32,
    from: int,
    to: int,
)
    requires
        0 <= from <= to < count,
        forall|j: int|
            0 <= j < to ==> #[trigger] tree.entry(position, j) is Some && !has_id(
                tree.entry(position, j)->0,
                type_id,
            ),
    ensures
        tree.first_data_from(position, count, Some(type_id), 0, from) == tree.first_data_from(
            position,
            count,
            Some(type_id),
            0,
            to,
        ),
    decreases to - from,
{
    if from < to {
        assert(tree.entry(position, from) is Some);
        lemma_first_skips(tree, position, count, type_id, from + 1, to);
    }
}

/// Data entries in a row, each on its own below a directory of the lowest
/// levels, are all data below it, in that order.
pub proof fn lemma_all_leaves(
    tree: Tree,
    position: int,
    depth: int,
    list: Seq<ResourceDataEntry>,
)
    requires
        2 <= depth <= DEEPEST_LEVEL,
        forall|i: int|
            0 <= i < list.len() ==> {
                &&& #[trigger] tree.entry(position, i) is Some
                &&& tree.entry(position, i)->0.payload < 0x8000_0000
                &&& tree.data_below(tree.entry(position, i)->0.payload) == Some(list[i])
            },
    ensures
        tree.all_data_from(position, list.len() as int, depth, 0) == Some(list),
{
    lemma_all_leaves_from(tree, position, depth, list, 0);
    assert(list.skip(0) =~= list);
}

proof fn lemma_all_leaves_from(
    tree: Tree,
    position: int,
    depth: int,
    list: Seq<ResourceDataEntry>,
    index: int,
)
    requires
        2 <= depth <= DEEPEST_LEVEL,
        0 <= index <= list.len(),
        forall|i: int|
            0 <= i < list.len() ==> {
                &&& #[trigger] tree.entry(position, i) is Some
                &&& tree.entry(position, i)->0.payload < 0x8000_0000
                &&& tree.data_below(tree.entry(position, i)->0.payload) == Some(list[i])
            },
    ensures
        tree.all_data_from(position, list.len() as int, depth, index) == Some(list.skip(index)),
    decreases list.len() - index,
{
    if index < list.len() {
        assert(tree.entry(position, index) is Some);
        lemma_all_leaves_from(tree, position, depth, list, index + 1);
        assert(seq![list[index]] + list.skip(index + 1) =~= list.skip(index));
    } else {
        assert(list.skip(index) =~= Seq::<ResourceDataEntry>::empty());
    }
}

/// The content of a resource is as long as its entry says and stands in the
/// section as far in as its address lies behind the section's; in the file it is
/// the same bytes.
pub proof fn lemma_content(
    bytes: Seq<u8>,
    raw: int,
    tree: Tree,
    data_rva: u32,
    data_size: u32,
    i: int,
)
    requires
        0 <= raw,
        raw + tree.data.len() <= bytes.len(),
        tree.data == bytes.subrange(raw, raw + tree.data.len()),
        tree.section_rva <= data_rva,
        data_rva + data_size <= tree.section_rva + tree.data.len(),
        0 <= i < data_size,
    ensures
        tree.content(data_rva, data_size) is Some,
        tree.content(data_rva, data_size)->0.len() == data_size,
        tree.content(data_rva, data_size)->0[i] == bytes[raw + (data_rva - tree.section_rva) + i],
{
}

/// All data of a type is what lies below the first entry with its number: all
/// data of the directory that the entry leads to, or the one data entry. All data
/// of a name below a type is found in the same way one level down.
pub proof fn lemma_of_type(tree: Tree, type_id: u32, name_id: u32, payload: u32, below: u32)
    requires
        tree.payload(tree.root_rva, type_id, false) == Some(Some(payload)),
        tree.payload(tree.root_rva, type_id, true) == Some(Some(payload)),
        tree.address(payload) == Some(below),
    ensures
        payload >= 0x8000_0000 ==> tree.of_type(type_id) == tree.all_data(below, 2),
        payload < 0x8000_0000 ==> (tree.data_entry(below) matches Some(found) ==> tree.of_type(
            type_id,
        ) == Some(seq![found])),
        tree.of_type_and_name(type_id, name_id) == tree.of_name(below, name_id),
        tree.payload(below, name_id, false) matches Some(Some(last)) ==> (tree.address(
            last,
        ) matches Some(rva) ==> {
            &&& last >= 0x8000_0000 ==> tree.of_name(below, name_id) == tree.all_data(rva, 4)
            &&& last < 0x8000_0000 ==> (tree.data_entry(rva) matches Some(found) ==> tree.of_name(
                below,
                name_id,
            ) == Some(seq![found]))
        }),
{
}

/// What a data entry leads to is the same whether it is taken from the file or
/// from the section of the tree.
pub proof fn lemma_payload_from_file(
    bytes: Seq<u8>,
    sections: Seq<PeSectionModel>,
    raw: int,
    tree: Tree,
    entry: ResourceDataEntry,
)
    requires
        0 <= raw,
        raw + tree.data.len() <= bytes.len() <= usize::MAX,
        tree.data == bytes.subrange(raw, raw + tree.data.len()),
        tree.section_rva <= entry.data_rva,
        0 < entry.data_size,
        entry.data_rva + entry.data_size <= tree.section_rva + tree.data.len(),
        file_offset(entry.data_rva, entry.data_size, sections, 0) == Some(
            raw + (entry.data_rva - tree.section_rva),
        ),
    ensures
        payload_bytes(bytes, sections, entry) is Some,
        payload_bytes(bytes, sections, entry) == tree.content(entry.data_rva, entry.data_size),
{
    let at = entry.data_rva - tree.section_rva;
    assert(bytes.subrange(raw + at, raw + at + entry.data_size) =~= tree.data.subrange(
        at,
        at + entry.data_size,
    ));
}

} // verus!
