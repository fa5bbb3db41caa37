//! Icons among the resources of an image.
use crate::bytes::{
    bytes16, bytes32, holds_at, le16, le32, lemma_held16, lemma_held16_first, lemma_held32_first,
    lemma_holds_both,
};
use crate::error::{agrees, AppResult, ReasonCode};
use crate::pe::headers::{image, parse};
use crate::pe::imports::{
    directory_entry, lemma_prepended_nothing, lemma_prepended_push, prepended,
};
use crate::pe::resources::{
    resource_section, resource_tree, ResourceDataEntry, ResourceSection, Tree,
    IMAGE_DIRECTORY_ENTRY_RESOURCE, RT_GROUP_ICON, RT_ICON,
};
use vstd::prelude::*;

verus! {

/// The header of an icon directory.
#[derive(Debug, Clone, Copy, PartialEq, Eq, Structural)]
pub struct IconDirHeader {
    pub reserved: u16,
    /// 1 for icons.
    pub ty: u16,
    pub count: u16,
}

/// One icon of an icon directory. Its `offset` is the number of the icon's own
/// resource.
#[derive(Debug, Clone, Copy, PartialEq, Eq, Structural)]
pub struct IconDirEntry {
    pub width: u8,
    pub height: u8,
    pub colors: u8,
    pub reserved: u8,
    pub planes: u16,
    pub bpp: u16,
    pub size: u32,
    pub offset: u32,
}

impl DeepView for IconDirEntry {
    type V = IconDirEntry;

    open spec fn deep_view(&self) -> IconDirEntry {
        *self
    }
}

/// A group icon: the sizes in which one icon is there.
#[derive(Debug, Clone)]
pub struct GroupIcon {
    pub header: IconDirHeader,
    pub entries: Vec<IconDirEntry>,
}

/// The model of [`GroupIcon`].
#[verifier::ext_equal]
pub struct GroupIconModel {
    pub header: IconDirHeader,
    pub entries: Seq<IconDirEntry>,
}

impl DeepView for GroupIcon {
    type V = GroupIconModel;

    open spec fn deep_view(&self) -> GroupIconModel {
        GroupIconModel { header: self.header, entries: self.entries@ }
    }
}

/// An icon in one size.
#[derive(Debug, Clone, PartialEq, Eq)]
pub struct IconImage {
    pub width: u32,
    pub height: u32,
    pub bpp: u16,
    pub data: Vec<u8>,
    pub is_png_compressed: bool,
    pub xor_mask: Option<Vec<u8>>,
}

/// The model of [`IconImage`].
#[verifier::ext_equal]
pub struct IconImageModel {
    pub width: u32,
    pub height: u32,
    pub bpp: u16,
    pub data: Seq<u8>,
    pub is_png_compressed: bool,
    pub xor_mask: Option<Seq<u8>>,
}

impl DeepView for IconImage {
    type V = IconImageModel;

    open spec fn deep_view(&self) -> IconImageModel {
        IconImageModel {
            width: self.width,
            height: self.height,
            bpp: self.bpp,
            data: self.data@,
            is_png_compressed: self.is_png_compressed,
            xor_mask: match self.xor_mask {
                None => None,
                Some(mask) => Some(mask@),
            },
        }
    }
}

/// The icon directory entry at `at`.
pub open spec fn icon_entry(data: Seq<u8>, at: int) -> IconDirEntry {
    IconDirEntry {
        width: data[at],
        height: data[at + 1],
        colors: data[at + 2],
        reserved: data[at + 3],
        planes: le16(data, at + 4),
        bpp: le16(data, at + 6),
        size: le32(data, at + 8),
        offset: le16(data, at + 12) as u32,
    }
}

/// The group icon in `data`: nothing where it is not the header of a group of
/// icons, and no more entries than the data holds.
pub open spec fn group_icon(data: Seq<u8>) -> Option<GroupIconModel> {
    if data.len() < 6 || le16(data, 0) != 0 || le16(data, 2) != 1 {
        None
    } else {
        let count = le16(data, 4);
        let fitting = (data.len() - 6) / 14;
        Some(
            GroupIconModel {
                header: IconDirHeader { reserved: 0, ty: 1, count },
                entries: Seq::new(
                    if count < fitting {
                        count as nat
                    } else {
                        fitting as nat
                    },
                    |i: int| icon_entry(data, 6 + i * 14),
                ),
            },
        )
    }
}

/// The group icons among the data entries from `index` on.
pub open spec fn groups_from(tree: Tree, entries: Seq<ResourceDataEntry>, index: int) -> Option<
    Seq<GroupIconModel>,
>
    decreases entries.len() - index,
{
    if index >= entries.len() {
        Some(Seq::empty())
    } else {
        match tree.content(entries[index].data_rva, entries[index].data_size) {
            None => None,
            Some(data) => match group_icon(data) {
                None => groups_from(tree, entries, index + 1),
                Some(group) => prepended(seq![group], groups_from(tree, entries, index + 1)),
            },
        }
    }
}

/// The resource tree of the image in the file.
pub open spec fn image_tree(bytes: Seq<u8>) -> Option<Option<Tree>> {
    match image(bytes) {
        None => None,
        Some(parsed) => resource_tree(
            bytes,
            parsed.sections,
            directory_entry(parsed.data_directories, IMAGE_DIRECTORY_ENTRY_RESOURCE as int),
        ),
    }
}

/// The group icons of the image.
pub open spec fn group_icons(bytes: Seq<u8>) -> Option<Seq<GroupIconModel>> {
    match image_tree(bytes) {
        None => None,
        Some(None) => Some(Seq::empty()),
        Some(Some(tree)) => match tree.of_type(RT_GROUP_ICON) {
            None => None,
            Some(entries) => groups_from(tree, entries, 0),
        },
    }
}

/// The bytes of the icon with the given number: `Some(None)` where the image
/// has no such icon.
pub open spec fn icon_by_id(bytes: Seq<u8>, icon_id: u32) -> Option<Option<Seq<u8>>> {
    match image_tree(bytes) {
        None => None,
        Some(None) => Some(None),
        Some(Some(tree)) => match tree.of_type_and_name(RT_ICON, icon_id) {
            None => None,
            Some(entries) => if entries.len() == 0 {
                Some(None)
            } else {
                match tree.content(entries[0].data_rva, entries[0].data_size) {
                    None => None,
                    Some(data) => Some(Some(data)),
                }
            },
        },
    }
}

/// A side of an icon; zero stands for 256.
pub open spec fn side(size: u8) -> u32 {
    if size == 0 {
        256
    } else {
        size as u32
    }
}

/// The data begins as a PNG image does.
pub open spec fn is_png(data: Seq<u8>) -> bool {
    data.len() >= 8 && data[0] == 0x89 && data[1] == 0x50 && data[2] == 0x4e && data[3] == 0x47
}

/// The icon that a directory entry and the data of its resource make.
pub open spec fn icon_image(entry: IconDirEntry, data: Seq<u8>) -> IconImageModel {
    IconImageModel {
        width: side(entry.width),
        height: side(entry.height),
        bpp: entry.bpp,
        data,
        is_png_compressed: is_png(data),
        xor_mask: None,
    }
}

/// The icons of the directory entries from `index` on. An entry without a
/// resource makes none.
pub open spec fn icons_of_entries(bytes: Seq<u8>, entries: Seq<IconDirEntry>, index: int) -> Option<
    Seq<IconImageModel>,
>
    decreases entries.len() - index,
{
    if index >= entries.len() {
        Some(Seq::empty())
    } else {
        match icon_by_id(bytes, entries[index].offset) {
            None => None,
            Some(None) => icons_of_entries(bytes, entries, index + 1),
            Some(Some(data)) => prepended(
                seq![icon_image(entries[index], data)],
                icons_of_entries(bytes, entries, index + 1),
            ),
        }
    }
}

/// The icons of the groups from `index` on.
pub open spec fn icons_of_groups(bytes: Seq<u8>, groups: Seq<GroupIconModel>, index: int) -> Option<
    Seq<IconImageModel>,
>
    decreases groups.len() - index,
{
    if index >= groups.len() {
        Some(Seq::empty())
    } else {
        match icons_of_entries(bytes, groups[index].entries, 0) {
            None => None,
            Some(here) => prepended(here, icons_of_groups(bytes, groups, index + 1)),
        }
    }
}

/// All icons of the image.
pub open spec fn all_icons(bytes: Seq<u8>) -> Option<Seq<IconImageModel>> {
    match group_icons(bytes) {
        None => None,
        Some(groups) => icons_of_groups(bytes, groups, 0),
    }
}

/// Pixels times bits per pixel.
pub open spec fn score(icon: IconImageModel) -> int {
    icon.width * icon.height * icon.bpp
}

/// `at` is the last place of an icon with the highest score.
pub open spec fn is_best(icons: Seq<IconImageModel>, at: int) -> bool {
    &&& 0 <= at < icons.len()
    &&& forall|i: int| 0 <= i < icons.len() ==> score(#[trigger] icons[i]) <= score(icons[at])
    &&& forall|i: int| at < i < icons.len() ==> score(#[trigger] icons[i]) < score(icons[at])
}

fn u16_of(data: &[u8], at: usize) -> (value: u16)
    requires
        at + 2 <= data@.len(),
    ensures
        value == le16(data@, at as int),
{
    assert(data.len() == data@.len());
    data[at] as u16 + 0x100 * (data[at + 1] as u16)
}

fn u32_of(data: &[u8], at: usize) -> (value: u32)
    requires
        at + 4 <= data@.len(),
    ensures
        value == le32(data@, at as int),
{
    assert(data.len() == data@.len());
    data[at] as u32 + 0x100 * (data[at + 1] as u32) + 0x1_0000 * (data[at + 2] as u32)
        + 0x100_0000 * (data[at + 3] as u32)
}

fn read_group(data: &[u8]) -> (group: Option<GroupIcon>)
    ensures
        match group {
            None => group_icon(data@) is None,
            Some(group) => group_icon(data@) == Some(group.deep_view()),
        },
{
    let length: usize = data.len();
    if length < 6 {
        return None;
    }
    let reserved: u16 = u16_of(data, 0);
    let ty: u16 = u16_of(data, 2);
    let count: u16 = u16_of(data, 4);
    if reserved != 0 || ty != 1 {
        return None;
    }
    let fitting: usize = (length - 6) / 14;
    let total: usize = if (count as usize) < fitting {
        count as usize
    } else {
        fitting
    };
    let mut entries: Vec<IconDirEntry> = Vec::new();
    while entries.len() < total
        invariant
            length == data.len(),
            entries.len() <= total,
            total * 14 + 6 <= length,
            forall|i: int|
                0 <= i < entries.len() ==> #[trigger] entries@[i] == icon_entry(data@, 6 + i * 14),
        decreases total - entries.len(),
    {
        let at: usize = 6 + entries.len() * 14;
        let entry = IconDirEntry {
            width: data[at],
            height: data[at + 1],
            colors: data[at + 2],
            reserved: data[at + 3],
            planes: u16_of(data, at + 4),
            bpp: u16_of(data, at + 6),
            size: u32_of(data, at + 8),
            offset: u16_of(data, at + 12) as u32,
        };
        entries.push(entry);
    }
    let group = GroupIcon { header: IconDirHeader { reserved, ty, count }, entries };
    assert(group.deep_view() =~= group_icon(data@)->0);
    Some(group)
}

fn section_of<'a>(pe_data: &'a [u8]) -> (outcome: AppResult<Option<ResourceSection<'a>>>)
    ensures
        match outcome {
            Ok(None) => image_tree(pe_data@) == Some(None::<Tree>),
            Ok(Some(section)) => image_tree(pe_data@) == Some(Some(section.tree())),
            Err(error) => image_tree(pe_data@) is None && error.code
                == ReasonCode::RcPeParseInvalid,
        },
{
    match parse(pe_data) {
        Err(error) => Err(error),
        Ok(parsed) => {
            assert(parsed.data_directories.deep_view() =~= parsed.data_directories@);
            resource_section(pe_data, &parsed.sections, &parsed.data_directories)
        },
    }
}

/// The group icons of the image.
pub fn find_resource_group_icons(pe_data: &[u8]) -> (outcome: AppResult<Vec<GroupIcon>>)
    ensures
        agrees(outcome, ReasonCode::RcPeParseInvalid, group_icons(pe_data@)),
{
    let mut groups: Vec<GroupIcon> = Vec::new();
    assert(groups.deep_view() =~= Seq::<GroupIconModel>::empty());
    let section: ResourceSection = match section_of(pe_data) {
        Err(error) => {
            return Err(error);
        },
        Ok(None) => {
            return Ok(groups);
        },
        Ok(Some(section)) => section,
    };
    let entries: Vec<ResourceDataEntry> = match section.of_type(RT_GROUP_ICON) {
        Err(error) => {
            return Err(error);
        },
        Ok(entries) => entries,
    };
    let ghost whole = group_icons(pe_data@);
    let mut index: usize = 0;
    proof {
        lemma_prepended_nothing(whole);
    }
    while index < entries.len()
        invariant
            index <= entries.len(),
            whole == group_icons(pe_data@),
            whole == prepended(
                groups.deep_view(),
                groups_from(section.tree(), entries@, index as int),
            ),
        decreases entries.len() - index,
    {
        let data: Vec<u8> = match section.content(entries[index].data_rva, entries[index].data_size) {
            Err(error) => {
                return Err(error);
            },
            Ok(data) => data,
        };
        match read_group(&data) {
            None => {},
            Some(group) => {
                let ghost before = groups.deep_view();
                proof {
                    lemma_prepended_push(
                        before,
                        group.deep_view(),
                        groups_from(section.tree(), entries@, index + 1),
                    );
                }
                groups.push(group);
                assert(groups.deep_view() =~= before.push(group.deep_view()));
            },
        }
        index += 1;
    }
    assert(groups.deep_view() + Seq::<GroupIconModel>::empty() =~= groups.deep_view());
    Ok(groups)
}

/// The bytes of the icon with the given number.
pub fn find_resource_icon_by_id(pe_data: &[u8], icon_id: u32) -> (outcome: AppResult<
    Option<Vec<u8>>,
>)
    ensures
        agrees(outcome, ReasonCode::RcPeParseInvalid, icon_by_id(pe_data@, icon_id)),
{
    let section: ResourceSection = match section_of(pe_data) {
        Err(error) => {
            return Err(error);
        },
        Ok(None) => {
            return Ok(None);
        },
        Ok(Some(section)) => section,
    };
    match section.of_type_and_name(RT_ICON, icon_id) {
        Err(error) => Err(error),
        Ok(entries) => {
            if entries.len() == 0 {
                return Ok(None);
            }
            match section.content(entries[0].data_rva, entries[0].data_size) {
                Err(error) => Err(error),
                Ok(data) => {
                    assert(data.deep_view() =~= data@);
                    Ok(Some(data))
                },
            }
        },
    }
}

fn image_of(entry: &IconDirEntry, data: Vec<u8>) -> (icon: IconImage)
    ensures
        icon.deep_view() == icon_image(*entry, data@),
{
    let width: u32 = if entry.width == 0 {
        256
    } else {
        entry.width as u32
    };
    let height: u32 = if entry.height == 0 {
        256
    } else {
        entry.height as u32
    };
    let is_png_compressed: bool = data.len() >= 8 && data[0] == 0x89 && data[1] == 0x50 && data[2]
        == 0x4e && data[3] == 0x47;
    IconImage { width, height, bpp: entry.bpp, data, is_png_compressed, xor_mask: None }
}

fn append_icons(pe_data: &[u8], entries: &Vec<IconDirEntry>, icons: &mut Vec<IconImage>) -> (outcome:
    AppResult<()>)
    ensures
        match outcome {
            Ok(()) => icons_of_entries(pe_data@, entries@, 0) is Some && final(icons).deep_view()
                == old(icons).deep_view() + icons_of_entries(pe_data@, entries@, 0)->0,
            Err(error) => icons_of_entries(pe_data@, entries@, 0) is None && error.code
                == ReasonCode::RcPeParseInvalid,
        },
{
    let ghost start = icons.deep_view();
    let ghost whole = prepended(start, icons_of_entries(pe_data@, entries@, 0));
    let mut index: usize = 0;
    while index < entries.len()
        invariant
            index <= entries.len(),
            whole == prepended(start, icons_of_entries(pe_data@, entries@, 0)),
            start == old(icons).deep_view(),
            whole == prepended(
                icons.deep_view(),
                icons_of_entries(pe_data@, entries@, index as int),
            ),
        decreases entries.len() - index,
    {
        match find_resource_icon_by_id(pe_data, entries[index].offset) {
            Err(error) => {
                return Err(error);
            },
            Ok(None) => {},
            Ok(Some(data)) => {
                assert(data.deep_view() =~= data@);
                let icon: IconImage = image_of(&entries[index], data);
                let ghost before = icons.deep_view();
                proof {
                    lemma_prepended_push(
                        before,
                        icon.deep_view(),
                        icons_of_entries(pe_data@, entries@, index + 1),
                    );
                }
                icons.push(icon);
                assert(icons.deep_view() =~= before.push(icon.deep_view()));
            },
        }
        index += 1;
    }
    assert(icons.deep_view() + Seq::<IconImageModel>::empty() =~= icons.deep_view());
    Ok(())
}

/// All icons of the image.
pub fn extract_all_icons_from_pe(pe_data: &[u8]) -> (outcome: AppResult<Vec<IconImage>>)
    ensures
        agrees(outcome, ReasonCode::RcPeParseInvalid, all_icons(pe_data@)),
{
    let groups: Vec<GroupIcon> = match find_resource_group_icons(pe_data) {
        Err(error) => {
            return Err(error);
        },
        Ok(groups) => groups,
    };
    let mut icons: Vec<IconImage> = Vec::new();
    let ghost whole = all_icons(pe_data@);
    let mut index: usize = 0;
    proof {
        assert(icons.deep_view() =~= Seq::<IconImageModel>::empty());
        lemma_prepended_nothing(whole);
    }
    while index < groups.len()
        invariant
            index <= groups.len(),
            whole == all_icons(pe_data@),
            whole == prepended(
                icons.deep_view(),
                icons_of_groups(pe_data@, groups.deep_view(), index as int),
            ),
        decreases groups.len() - index,
    {
        let ghost before = icons.deep_view();
        assert(groups.deep_view()[index as int].entries == groups@[index as int].entries@);
        match append_icons(pe_data, &groups[index].entries, &mut icons) {
            Err(error) => {
                return Err(error);
            },
            Ok(()) => {
                proof {
                    let here = icons_of_entries(pe_data@, groups@[index as int].entries@, 0)->0;
                    if let Some(rest) = icons_of_groups(pe_data@, groups.deep_view(), index + 1) {
                        assert(before + (here + rest) =~= icons.deep_view() + rest);
                    }
                }
            },
        }
        index += 1;
    }
    assert(icons.deep_view() + Seq::<IconImageModel>::empty() =~= icons.deep_view());
    Ok(icons)
}

fn score_of(icon: &IconImage) -> (value: u128)
    ensures
        value == score(icon.deep_view()),
{
    let width: u128 = icon.width as u128;
    let height: u128 = icon.height as u128;
    let bpp: u128 = icon.bpp as u128;
    assert(width * height <= 0xffff_ffff * 0xffff_ffff) by (nonlinear_arith)
        requires
            width <= 0xffff_ffff,
            height <= 0xffff_ffff,
    ;
    let pixels: u128 = width * height;
    assert(pixels * bpp <= 0xffff_ffff * 0xffff_ffff * 0xffff) by (nonlinear_arith)
        requires
            pixels <= 0xffff_ffff * 0xffff_ffff,
            bpp <= 0xffff,
    ;
    pixels * bpp
}

/// The icon of the image with the most pixels times bits per pixel, the last
/// of several; an empty list where the image has no icon.
pub fn extract_icon_from_pe(pe_data: &[u8]) -> (outcome: AppResult<Vec<IconImage>>)
    ensures
        match outcome {
            Ok(found) => {
                &&& all_icons(pe_data@) is Some
                &&& all_icons(pe_data@)->0.len() == 0 ==> found.len() == 0
                &&& all_icons(pe_data@)->0.len() > 0 ==> found.len() == 1 && exists|at: int|
                    is_best(all_icons(pe_data@)->0, at) && #[trigger] all_icons(pe_data@)->0[at]
                        == found@[0].deep_view()
            },
            Err(error) => all_icons(pe_data@) is None && error.code
                == ReasonCode::RcPeParseInvalid,
        },
{
    let mut all: Vec<IconImage> = match extract_all_icons_from_pe(pe_data) {
        Err(error) => {
            return Err(error);
        },
        Ok(all) => all,
    };
    let ghost icons = all.deep_view();
    let mut found: Vec<IconImage> = Vec::new();
    if all.len() == 0 {
        return Ok(found);
    }
    let mut best: usize = 0;
    let mut index: usize = 1;
    while index < all.len()
        invariant
            best < index <= all.len(),
            icons == all.deep_view(),
            forall|i: int| 0 <= i < index ==> score(#[trigger] icons[i]) <= score(icons[best as int]),
            forall|i: int| best < i < index ==> score(#[trigger] icons[i]) < score(icons[best as int]),
        decreases all.len() - index,
    {
        assert(icons[index as int] == all@[index as int].deep_view());
        assert(icons[best as int] == all@[best as int].deep_view());
        if score_of(&all[index]) >= score_of(&all[best]) {
            best = index;
        }
        index += 1;
    }
    assert(icons[best as int] == all@[best as int].deep_view());
    let chosen: IconImage = all.swap_remove(best);
    found.push(chosen);
    assert(is_best(icons, best as int));
    Ok(found)
}

/// The bytes of an entry of an icon group.
pub open spec fn icon_entry_bytes(entry: IconDirEntry, id: u16) -> Seq<u8> {
    seq![entry.width, entry.height, entry.colors, entry.reserved] + (bytes16(entry.planes) + (
    bytes16(entry.bpp) + (bytes32(entry.size) + bytes16(id))))
}

/// An entry of an icon group is read as it was written; the number of its image
/// stands at the end.
pub proof fn lemma_icon_entry_reads_back(data: Seq<u8>, at: int, entry: IconDirEntry, id: u16)
    requires
        holds_at(data, at, icon_entry_bytes(entry, id)),
    ensures
        icon_entry(data, at) == (IconDirEntry { offset: id as u32, ..entry }),
{
    let sides = seq![entry.width, entry.height, entry.colors, entry.reserved];
    let tail = bytes32(entry.size) + bytes16(id);
    lemma_holds_both(data, at, sides, bytes16(entry.planes) + (bytes16(entry.bpp) + tail));
    lemma_held16_first(data, at + 4, entry.planes, bytes16(entry.bpp) + tail);
    lemma_held16_first(data, at + 6, entry.bpp, tail);
    lemma_held32_first(data, at + 8, entry.size, bytes16(id));
    lemma_held16(data, at + 12, id);
    assert(data[at + 0] == sides[0] && data[at + 1] == sides[1] && data[at + 2] == sides[2] && data[
    at + 3] == sides[3]) by {
        reveal(holds_at);
    }
}

/// A group is its entries in order, fourteen bytes apart behind six bytes that
/// say 0, 1 and how many they are; those that the data does not hold whole are
/// left out.
pub proof fn lemma_group_icon(data: Seq<u8>, kind: u16, count: u16, index: int)
    requires
        holds_at(data, 0, bytes16(0) + (bytes16(kind) + bytes16(count))),
        0 <= index,
    ensures
        kind == 1 <==> group_icon(data) is Some,
        group_icon(data) matches Some(group) ==> {
            &&& group.header.count == count
            &&& group.entries.len() <= count
            &&& 6 + 14 * group.entries.len() <= data.len()
            &&& group.entries.len() < count ==> data.len() < 6 + 14 * (group.entries.len() + 1)
            &&& index < group.entries.len() ==> group.entries[index] == icon_entry(
                data,
                6 + 14 * index,
            )
        },
{
    lemma_held16_first(data, 0, 0, bytes16(kind) + bytes16(count));
    lemma_held16_first(data, 2, kind, bytes16(count));
    lemma_held16(data, 4, count);
}

/// A side of zero stands for 256 and any other for itself; the image keeps the
/// bytes and the depth, and is compressed where it begins as a PNG file does.
pub proof fn lemma_icon_image(entry: IconDirEntry, data: Seq<u8>)
    ensures
        ({
            let icon = icon_image(entry, data);
            &&& entry.width == 0 ==> icon.width == 256
            &&& entry.width != 0 ==> icon.width == entry.width
            &&& entry.height == 0 ==> icon.height == 256
            &&& entry.height != 0 ==> icon.height == entry.height
            &&& icon.bpp == entry.bpp
            &&& icon.data == data
            &&& icon.xor_mask is None
            &&& icon.is_png_compressed <==> data.len() >= 8 && data.take(4) == seq![
                0x89u8,
                0x50u8,
                0x4eu8,
                0x47u8,
            ]
        }),
{
    let start = seq![0x89u8, 0x50u8, 0x4eu8, 0x47u8];
    if data.len() >= 8 {
        let first = data.take(4);
        assert(first[0] == data[0] && first[1] == data[1] && first[2] == data[2] && first[3]
            == data[3]);
        if is_png(data) {
            assert(first =~= start);
        } else if first == start {
            assert(start[0] == first[0] && start[1] == first[1] && start[2] == first[2] && start[3]
                == first[3]);
        }
    }
}

/// The icons of a group are the images of those of its entries whose number
/// leads to a resource, each with the bytes of that resource and in the order of
/// the entries.
pub proof fn lemma_icons_of_entries(
    bytes: Seq<u8>,
    entries: Seq<IconDirEntry>,
    entry: IconDirEntry,
    others: Seq<IconDirEntry>,
)
    requires
        entries == others.push(entry),
    ensures
        match icons_of_entries(bytes, others, 0) {
            None => icons_of_entries(bytes, entries, 0) is None,
            Some(before) => match icon_by_id(bytes, entry.offset) {
                None => icons_of_entries(bytes, entries, 0) is None,
                Some(None) => icons_of_entries(bytes, entries, 0) == Some(before),
                Some(Some(data)) => icons_of_entries(bytes, entries, 0) == Some(
                    before.push(icon_image(entry, data)),
                ),
            },
        },
{
    lemma_icons_from(bytes, entries, entry, others, 0);
}

proof fn lemma_icons_from(
    bytes: Seq<u8>,
    entries: Seq<IconDirEntry>,
    entry: IconDirEntry,
    others: Seq<IconDirEntry>,
    index: int,
)
    requires
        entries == others.push(entry),
        0 <= index <= others.len(),
    ensures
        match icons_of_entries(bytes, others, index) {
            None => icons_of_entries(bytes, entries, index) is None,
            Some(before) => match icon_by_id(bytes, entry.offset) {
                None => icons_of_entries(bytes, entries, index) is None,
                Some(None) => icons_of_entries(bytes, entries, index) == Some(before),
                Some(Some(data)) => icons_of_entries(bytes, entries, index) == Some(
                    before.push(icon_image(entry, data)),
                ),
            },
        },
    decreases others.len() - index,
{
    if index < others.len() {
        assert(entries[index] == others[index]);
        lemma_icons_from(bytes, entries, entry, others, index + 1);
        if let Some(Some(own)) = icon_by_id(bytes, others[index].offset) {
            let head = seq![icon_image(others[index], own)];
            if let Some(rest) = icons_of_entries(bytes, others, index + 1) {
                if let Some(Some(data)) = icon_by_id(bytes, entry.offset) {
                    assert(head + rest.push(icon_image(entry, data)) =~= (head + rest).push(
                        icon_image(entry, data),
                    ));
                }
            }
        }
    } else {
        assert(entries[index] == entry);
        assert(icons_of_entries(bytes, entries, index + 1) == Some(
            Seq::<IconImageModel>::empty(),
        ));
        if let Some(Some(data)) = icon_by_id(bytes, entry.offset) {
            assert(seq![icon_image(entry, data)] + Seq::<IconImageModel>::empty()
                =~= Seq::<IconImageModel>::empty().push(icon_image(entry, data)));
        }
    }
}

/// Among icons of the same depth the best is one of the largest, and among icons
/// of the same size one of the deepest; of several as good it is the last.
pub proof fn lemma_best_icon(icons: Seq<IconImageModel>, at: int, i: int)
    requires
        is_best(icons, at),
        0 <= i < icons.len(),
    ensures
        icons[i].bpp == icons[at].bpp && icons[at].bpp > 0 ==> icons[i].width * icons[i].height
            <= icons[at].width * icons[at].height,
        icons[i].width == icons[at].width && icons[i].height == icons[at].height
            && icons[at].width > 0 && icons[at].height > 0 ==> icons[i].bpp <= icons[at].bpp,
        icons[i].width == icons[at].width && icons[i].height == icons[at].height && icons[i].bpp
            == icons[at].bpp ==> i <= at,
{
    assert(score(icons[i]) <= score(icons[at]));
    let own = icons[i].width * icons[i].height;
    let best = icons[at].width * icons[at].height;
    if icons[i].bpp == icons[at].bpp && icons[at].bpp > 0 {
        assert(own <= best) by (nonlinear_arith)
            requires
                own * icons[i].bpp <= best * icons[at].bpp,
                icons[i].bpp == icons[at].bpp,
                icons[at].bpp > 0,
        ;
    }
    if icons[i].width == icons[at].width && icons[i].height == icons[at].height && icons[at].width
        > 0 && icons[at].height > 0 {
        assert(best > 0) by (nonlinear_arith)
            requires
                best == icons[at].width * icons[at].height,
                icons[at].width > 0,
                icons[at].height > 0,
        ;
        assert(icons[i].bpp <= icons[at].bpp) by (nonlinear_arith)
            requires
                best * icons[i].bpp <= best * icons[at].bpp,
                best > 0,
        ;
    }
}

} // verus!
