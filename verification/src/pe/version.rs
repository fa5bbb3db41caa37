//! The version resource.
use crate::bytes::{
    bytes16, bytes32, holds_at, in_range, invalid, le16, le32, lemma_held16_first, lemma_held32,
    lemma_held32_first, read_u16, read_u32,
};
use crate::error::{agrees, AppResult, ReasonCode};
use crate::pe::imports::directory_entry;
use crate::pe::resources::{
    find_resource_blob, resource_blob, IMAGE_DIRECTORY_ENTRY_RESOURCE, RT_VERSION,
};
use crate::pe::types::{DataDirectory, PeSection, PeSectionModel, VersionInfo, VersionInfoModel};
use crate::text::{
    chars_of, decimal, lower, push_decimal, same_text, string_of, to_lower, trim_text, trimmed,
};
use crate::utf16::{
    decode_lossy, decoded_lossy, encoded, lemma_decoded_encoded, lemma_lossy_agrees,
};
use vstd::prelude::*;

verus! {

/// The mark of the fixed part of the version resource.
pub const FIXED_INFO_SIGNATURE: u32 = 0xfeef04bd;

/// The smallest multiple of four that is not below `value`.
pub open spec fn aligned4(value: int) -> int {
    (value + 3) / 4 * 4
}

/// The units from `at` up to a zero unit, and the position behind it.
pub open spec fn key_units(bytes: Seq<u8>, at: int, end: int) -> Option<(Seq<u16>, int)>
    decreases end - at,
{
    if at + 2 > end {
        None
    } else if le16(bytes, at) == 0 {
        Some((Seq::empty(), at + 2))
    } else {
        match key_units(bytes, at + 2, end) {
            None => None,
            Some((rest, after)) => Some((seq![le16(bytes, at)] + rest, after)),
        }
    }
}

/// The units from `at` up to a zero unit or `end`.
pub open spec fn value_units(bytes: Seq<u8>, at: int, end: int) -> Seq<u16>
    decreases end - at,
{
    if at + 2 > end || le16(bytes, at) == 0 {
        Seq::empty()
    } else {
        seq![le16(bytes, at)] + value_units(bytes, at + 2, end)
    }
}

/// The key from `start` on of a block that ends at `end`, and the position
/// behind it.
pub open spec fn key_at(bytes: Seq<u8>, start: int, end: int) -> Option<(Seq<char>, int)> {
    match key_units(bytes, start, end) {
        None => None,
        Some((units, after)) => Some((decoded_lossy(units), after)),
    }
}

/// The value from `at` on of a block that ends at `end`, without white space
/// around it.
pub open spec fn value_at(bytes: Seq<u8>, at: int, end: int) -> Seq<char> {
    trimmed(decoded_lossy(value_units(bytes, at, end)))
}

/// `info` after a string with the given name and value. An empty value says
/// nothing, and a name is known whatever its ASCII case.
pub open spec fn noted(info: VersionInfoModel, name: Seq<char>, value: Seq<char>) -> VersionInfoModel {
    if value.len() == 0 {
        info
    } else if lower(name) == lower("ProductName"@) {
        VersionInfoModel { product_name: Some(value), ..info }
    } else if lower(name) == lower("FileVersion"@) {
        VersionInfoModel { file_version: Some(value), ..info }
    } else {
        info
    }
}

/// `info` after the strings from `at` on of a table that ends at `end`.
pub open spec fn after_strings(bytes: Seq<u8>, at: int, end: int, info: VersionInfoModel) -> Option<
    VersionInfoModel,
>
    decreases end + 4 - at,
{
    if at + 6 > end || le16(bytes, at) == 0 || at + le16(bytes, at) > end {
        Some(info)
    } else {
        let next = at + le16(bytes, at);
        match key_at(bytes, at + 6, next) {
            None => None,
            Some((name, after)) => after_strings(
                bytes,
                aligned4(next),
                end,
                noted(info, name, value_at(bytes, aligned4(after), next)),
            ),
        }
    }
}

/// `info` after the string tables from `at` on of a block that ends at `end`.
pub open spec fn after_tables(bytes: Seq<u8>, at: int, end: int, info: VersionInfoModel) -> Option<
    VersionInfoModel,
>
    decreases end + 4 - at,
{
    if at + 6 > end || le16(bytes, at) == 0 || at + le16(bytes, at) > end {
        Some(info)
    } else {
        let next = at + le16(bytes, at);
        match key_at(bytes, at + 6, next) {
            None => None,
            Some((_, after)) => match after_strings(bytes, aligned4(after), next, info) {
                None => None,
                Some(info) => after_tables(bytes, aligned4(next), end, info),
            },
        }
    }
}

/// `info` after the blocks from `at` on of a resource that ends at `end`, of
/// which only those of strings say something.
pub open spec fn after_blocks(bytes: Seq<u8>, at: int, end: int, info: VersionInfoModel) -> Option<
    VersionInfoModel,
>
    decreases end + 4 - at,
{
    if at + 6 > end || le16(bytes, at) == 0 || at + le16(bytes, at) > end {
        Some(info)
    } else {
        let next = at + le16(bytes, at);
        match key_at(bytes, at + 6, next) {
            None => None,
            Some((key, after)) => match (if key == "StringFileInfo"@ {
                after_tables(bytes, aligned4(after), next, info)
            } else {
                Some(info)
            }) {
                None => None,
                Some(info) => after_blocks(bytes, aligned4(next), end, info),
            },
        }
    }
}

/// The four parts of a version, in decimal with dots between them.
pub open spec fn version_text(ms: u32, ls: u32) -> Seq<char> {
    decimal((ms / 0x1_0000) as nat) + seq!['.'] + decimal((ms % 0x1_0000) as nat) + seq!['.']
        + decimal((ls / 0x1_0000) as nat) + seq!['.'] + decimal((ls % 0x1_0000) as nat)
}

/// What the fixed part of the resource says: the file version, where the part
/// is there and carries its mark.
pub open spec fn fixed_info(bytes: Seq<u8>, at: int, size: int, end: int) -> VersionInfoModel {
    VersionInfoModel {
        product_name: None,
        file_version: if size >= 16 && at + size <= end && le32(bytes, at) == FIXED_INFO_SIGNATURE {
            Some(version_text(le32(bytes, at + 8), le32(bytes, at + 12)))
        } else {
            None
        },
    }
}

/// What a version resource says.
pub open spec fn version_info(bytes: Seq<u8>) -> Option<VersionInfoModel> {
    if !in_range(bytes, 0, 6) || le16(bytes, 0) > bytes.len() {
        None
    } else {
        let end = le16(bytes, 0) as int;
        let size = le16(bytes, 2) as int;
        match key_at(bytes, 6, end) {
            None => None,
            Some((key, after)) => if key != "VS_VERSION_INFO"@ {
                None
            } else {
                after_blocks(
                    bytes,
                    aligned4(aligned4(after) + size),
                    end,
                    fixed_info(bytes, aligned4(after), size, end),
                )
            },
        }
    }
}

/// Nothing known of the version.
pub open spec fn no_version() -> VersionInfoModel {
    VersionInfoModel { product_name: None, file_version: None }
}

/// What the version resource of the image says.
pub open spec fn image_version(
    bytes: Seq<u8>,
    sections: Seq<PeSectionModel>,
    directory: DataDirectory,
) -> Option<
    VersionInfoModel,
> {
    match resource_blob(bytes, sections, directory, RT_VERSION) {
        None => None,
        Some(None) => Some(no_version()),
        Some(Some(blob)) => version_info(blob),
    }
}

proof fn lemma_key_units(bytes: Seq<u8>, at: int, end: int)
    ensures
        key_units(bytes, at, end) matches Some((units, after)) ==> at + 2 <= after <= end,
    decreases end - at,
{
    if at + 2 <= end && le16(bytes, at) != 0 {
        lemma_key_units(bytes, at + 2, end);
    }
}

/// The smallest multiple of four that is not below `value`.
pub fn align4(value: usize) -> (outcome: AppResult<usize>)
    ensures
        match outcome {
            Ok(aligned) => aligned == aligned4(value as int),
            Err(error) => aligned4(value as int) > usize::MAX && error.code
                == ReasonCode::RcPeParseInvalid,
        },
{
    if value > usize::MAX - 3 {
        return invalid("4-byte alignment overflow");
    }
    Ok((value + 3) / 4 * 4)
}

/// The length, value length and type at the start of a block.
pub fn read_block_header(bytes: &[u8], offset: usize) -> (outcome: AppResult<(usize, usize, usize)>)
    ensures
        match outcome {
            Ok((length, value_length, ty)) => in_range(bytes@, offset as int, 6) && length == le16(
                bytes@,
                offset as int,
            ) && value_length == le16(bytes@, offset + 2) && ty == le16(bytes@, offset + 4),
            Err(error) => !in_range(bytes@, offset as int, 6) && error.code
                == ReasonCode::RcPeParseInvalid,
        },
{
    match crate::bytes::checked_range(bytes, offset, 6, "resource block header") {
        Err(error) => Err(error),
        Ok(()) => {
            let size: usize = bytes.len();
            let length: AppResult<u16> = read_u16(bytes, offset, "resource block length");
            let value_length: AppResult<u16> = read_u16(
                bytes,
                offset + 2,
                "resource block value length",
            );
            let ty: AppResult<u16> = read_u16(bytes, offset + 4, "resource block type");
            match (length, value_length, ty) {
                (Ok(length), Ok(value_length), Ok(ty)) => Ok(
                    (length as usize, value_length as usize, ty as usize),
                ),
                _ => {
                    assert(false);
                    invalid("resource block header")
                },
            }
        },
    }
}

fn unit_at(bytes: &[u8], at: usize) -> (unit: u16)
    requires
        in_range(bytes@, at as int, 2),
    ensures
        unit == le16(bytes@, at as int),
{
    assert(bytes.len() == bytes@.len());
    bytes[at] as u16 + 0x100 * (bytes[at + 1] as u16)
}

/// The key from `start` on of a block that ends at `end`, and the position
/// behind it.
pub fn read_utf16_key(bytes: &[u8], start: usize, end: usize) -> (outcome: AppResult<
    (String, usize),
>)
    requires
        end <= bytes.len(),
    ensures
        match outcome {
            Ok((key, after)) => key_at(bytes@, start as int, end as int) == Some(
                (key@, after as int),
            ) && start + 2 <= after <= end,
            Err(error) => key_at(bytes@, start as int, end as int) is None && error.code
                == ReasonCode::RcPeParseInvalid,
        },
{
    if start > end {
        return invalid("UTF-16 key starts after its block end");
    }
    let mut offset: usize = start;
    let mut units: Vec<u16> = Vec::new();
    let ghost whole = key_units(bytes@, start as int, end as int);
    proof {
        if let Some((rest, after)) = whole {
            assert(units@ + rest =~= rest);
        }
    }
    while end - offset >= 2
        invariant
            start <= offset <= end,
            end <= bytes.len(),
            whole == key_units(bytes@, start as int, end as int),
            whole == (match key_units(bytes@, offset as int, end as int) {
                None => None,
                Some((rest, after)) => Some((units@ + rest, after)),
            }),
        decreases end - offset,
    {
        let unit: u16 = unit_at(bytes, offset);
        if unit == 0 {
            assert(units@ + Seq::<u16>::empty() =~= units@);
            return Ok((decode_lossy(&units), offset + 2));
        }
        let ghost before = units@;
        units.push(unit);
        proof {
            if let Some((rest, after)) = key_units(bytes@, offset + 2, end as int) {
                assert(before + (seq![unit] + rest) =~= units@ + rest);
            }
        }
        offset += 2;
    }
    invalid("UTF-16 key is missing a terminator")
}

/// The value from `offset` on of a block that ends at `end`.
pub fn read_utf16_value(bytes: &[u8], offset: usize, end: usize) -> (value: String)
    requires
        end <= bytes.len(),
    ensures
        value@ == value_at(bytes@, offset as int, end as int),
{
    let mut at: usize = offset;
    let mut units: Vec<u16> = Vec::new();
    assert(units@ + value_units(bytes@, offset as int, end as int) =~= value_units(
        bytes@,
        offset as int,
        end as int,
    ));
    while at <= end && end - at >= 2
        invariant_except_break
            end <= bytes.len(),
            units@ + value_units(bytes@, at as int, end as int) == value_units(
                bytes@,
                offset as int,
                end as int,
            ),
        ensures
            units@ == value_units(bytes@, offset as int, end as int),
        decreases end - at,
    {
        let unit: u16 = unit_at(bytes, at);
        if unit == 0 {
            assert(units@ + Seq::<u16>::empty() =~= units@);
            break;
        }
        let ghost before = units@;
        units.push(unit);
        assert(before + (seq![unit] + value_units(bytes@, at + 2, end as int)) =~= units@
            + value_units(bytes@, at + 2, end as int));
        at += 2;
        assert(units@ + Seq::<u16>::empty() =~= units@);
    }
    let text: String = decode_lossy(&units);
    let chars: Vec<char> = chars_of(&text);
    let inner: Vec<char> = trim_text(&chars);
    string_of(&inner)
}

/// The four parts of a version, in decimal with dots between them.
pub fn format_version(ms: u32, ls: u32) -> (text: String)
    ensures
        text@ == version_text(ms, ls),
{
    let mut text: String = String::new();
    push_decimal(&mut text, (ms / 0x1_0000) as u64);
    text.push('.');
    push_decimal(&mut text, (ms % 0x1_0000) as u64);
    text.push('.');
    push_decimal(&mut text, (ls / 0x1_0000) as u64);
    text.push('.');
    push_decimal(&mut text, (ls % 0x1_0000) as u64);
    assert(text@ =~= version_text(ms, ls));
    text
}

fn note(info: &mut VersionInfo, name: &str, value: String)
    ensures
        final(info).deep_view() == noted(old(info).deep_view(), name@, value@),
{
    if value.as_str().is_empty() {
        return;
    }
    let small: String = to_lower(name);
    if same_text(&small, &to_lower("ProductName")) {
        info.product_name = Some(value);
    } else if same_text(&small, &to_lower("FileVersion")) {
        info.file_version = Some(value);
    }
}

fn read_strings(bytes: &[u8], start: usize, end: usize, info: &mut VersionInfo) -> (outcome:
    AppResult<()>)
    requires
        end <= bytes.len(),
        end + 8 <= usize::MAX,
    ensures
        match outcome {
            Ok(()) => after_strings(bytes@, start as int, end as int, old(info).deep_view())
                == Some(final(info).deep_view()),
            Err(error) => after_strings(
                bytes@,
                start as int,
                end as int,
                old(info).deep_view(),
            ) is None && error.code == ReasonCode::RcPeParseInvalid,
        },
{
    let mut at: usize = start;
    let ghost whole = after_strings(bytes@, start as int, end as int, info.deep_view());
    while at <= end && end - at >= 6
        invariant
            end <= bytes.len(),
            end + 8 <= usize::MAX,
            whole == after_strings(bytes@, start as int, end as int, old(info).deep_view()),
            whole == after_strings(bytes@, at as int, end as int, info.deep_view()),
        decreases end + 4 - at,
    {
        let length: usize = unit_at(bytes, at) as usize;
        if length == 0 || length > end - at {
            return Ok(());
        }
        let next: usize = at + length;
        match read_utf16_key(bytes, at + 6, next) {
            Err(error) => {
                return Err(error);
            },
            Ok((name, after)) => {
                let value: String = read_utf16_value(bytes, (after + 3) / 4 * 4, next);
                note(info, &name, value);
            },
        }
        at = (next + 3) / 4 * 4;
    }
    Ok(())
}

/// Reads the string tables of a block that ends at `block_end`.
pub fn parse_string_file_info(
    bytes: &[u8],
    _block_offset: usize,
    after_key: usize,
    block_end: usize,
    version: &mut VersionInfo,
) -> (outcome: AppResult<()>)
    requires
        after_key + 8 <= usize::MAX,
        block_end <= bytes.len(),
        block_end + 8 <= usize::MAX,
    ensures
        match outcome {
            Ok(()) => after_tables(
                bytes@,
                aligned4(after_key as int),
                block_end as int,
                old(version).deep_view(),
            ) == Some(final(version).deep_view()),
            Err(error) => after_tables(
                bytes@,
                aligned4(after_key as int),
                block_end as int,
                old(version).deep_view(),
            ) is None && error.code == ReasonCode::RcPeParseInvalid,
        },
{
    let mut at: usize = (after_key + 3) / 4 * 4;
    let ghost whole = after_tables(
        bytes@,
        aligned4(after_key as int),
        block_end as int,
        version.deep_view(),
    );
    while at <= block_end && block_end - at >= 6
        invariant
            block_end <= bytes.len(),
            block_end + 8 <= usize::MAX,
            whole == after_tables(
                bytes@,
                aligned4(after_key as int),
                block_end as int,
                old(version).deep_view(),
            ),
            whole == after_tables(bytes@, at as int, block_end as int, version.deep_view()),
        decreases block_end + 4 - at,
    {
        let length: usize = unit_at(bytes, at) as usize;
        if length == 0 || length > block_end - at {
            return Ok(());
        }
        let next: usize = at + length;
        match read_utf16_key(bytes, at + 6, next) {
            Err(error) => {
                return Err(error);
            },
            Ok((_, after)) => match read_strings(bytes, (after + 3) / 4 * 4, next, version) {
                Err(error) => {
                    return Err(error);
                },
                Ok(()) => {},
            },
        }
        at = (next + 3) / 4 * 4;
    }
    Ok(())
}

fn read_blocks(bytes: &[u8], start: usize, end: usize, info: &mut VersionInfo) -> (outcome:
    AppResult<()>)
    requires
        end <= bytes.len(),
        end + 8 <= usize::MAX,
        start + 8 <= usize::MAX,
    ensures
        match outcome {
            Ok(()) => after_blocks(bytes@, start as int, end as int, old(info).deep_view())
                == Some(final(info).deep_view()),
            Err(error) => after_blocks(
                bytes@,
                start as int,
                end as int,
                old(info).deep_view(),
            ) is None && error.code == ReasonCode::RcPeParseInvalid,
        },
{
    let mut at: usize = start;
    let ghost whole = after_blocks(bytes@, start as int, end as int, info.deep_view());
    while at <= end && end - at >= 6
        invariant
            end <= bytes.len(),
            end + 8 <= usize::MAX,
            whole == after_blocks(bytes@, start as int, end as int, old(info).deep_view()),
            whole == after_blocks(bytes@, at as int, end as int, info.deep_view()),
        decreases end + 4 - at,
    {
        let length: usize = unit_at(bytes, at) as usize;
        if length == 0 || length > end - at {
            return Ok(());
        }
        let next: usize = at + length;
        match read_utf16_key(bytes, at + 6, next) {
            Err(error) => {
                return Err(error);
            },
            Ok((key, after)) => {
                if same_text(&key, "StringFileInfo") {
                    match parse_string_file_info(bytes, at, after, next, info) {
                        Err(error) => {
                            return Err(error);
                        },
                        Ok(()) => {},
                    }
                }
            },
        }
        at = (next + 3) / 4 * 4;
    }
    Ok(())
}

/// What a version resource says.
pub fn parse_version_info_blob(bytes: &[u8]) -> (outcome: AppResult<VersionInfo>)
    ensures
        agrees(outcome, ReasonCode::RcPeParseInvalid, version_info(bytes@)),
{
    let (end, size): (usize, usize) = match read_block_header(bytes, 0) {
        Err(error) => {
            return Err(error);
        },
        Ok((length, value_length, _)) => (length, value_length),
    };
    if end > bytes.len() {
        return invalid("VS_VERSION_INFO length exceeds resource size");
    }
    let after: usize = match read_utf16_key(bytes, 6, end) {
        Err(error) => {
            return Err(error);
        },
        Ok((key, after)) => {
            if !same_text(&key, "VS_VERSION_INFO") {
                return invalid("version resource root key is not VS_VERSION_INFO");
            }
            after
        },
    };
    let fixed: usize = (after + 3) / 4 * 4;
    let mut info = VersionInfo { product_name: None, file_version: None };
    if size >= 16 && fixed <= end && size <= end - fixed {
        let signature: AppResult<u32> = read_u32(bytes, fixed, "VS_FIXEDFILEINFO signature");
        let ms: AppResult<u32> = read_u32(bytes, fixed + 8, "dwFileVersionMS");
        let ls: AppResult<u32> = read_u32(bytes, fixed + 12, "dwFileVersionLS");
        match (signature, ms, ls) {
            (Ok(signature), Ok(ms), Ok(ls)) => {
                if signature == FIXED_INFO_SIGNATURE {
                    info.file_version = Some(format_version(ms, ls));
                }
            },
            _ => {
                assert(false);
            },
        }
    }
    assert(info.deep_view() == fixed_info(bytes@, fixed as int, size as int, end as int));
    match read_blocks(bytes, (fixed + size + 3) / 4 * 4, end, &mut info) {
        Err(error) => Err(error),
        Ok(()) => Ok(info),
    }
}

/// What the version resource of the image says.
pub fn parse_version_resource(
    bytes: &[u8],
    sections: &[PeSection],
    directories: &[DataDirectory],
) -> (outcome: AppResult<VersionInfo>)
    ensures
        agrees(
            outcome,
            ReasonCode::RcPeParseInvalid,
            image_version(
                bytes@,
                sections.deep_view(),
                directory_entry(directories@, IMAGE_DIRECTORY_ENTRY_RESOURCE as int),
            ),
        ),
{
    match find_resource_blob(bytes, sections, directories, RT_VERSION) {
        Err(error) => Err(error),
        Ok(None) => Ok(VersionInfo { product_name: None, file_version: None }),
        Ok(Some(blob)) => {
            assert(blob.deep_view() =~= blob@);
            parse_version_info_blob(&blob)
        },
    }
}

/// Rounding to four bytes gives the first place from there on that is a
/// multiple of four.
pub proof fn lemma_aligned4(value: int)
    requires
        0 <= value,
    ensures
        value <= aligned4(value) < value + 4,
        aligned4(value) % 4 == 0,
{
}

/// A version of four numbers is written as the numbers with dots between them.
pub proof fn lemma_version_text(a: u16, b: u16, c: u16, d: u16)
    ensures
        version_text((0x1_0000 * a + b) as u32, (0x1_0000 * c + d) as u32) == decimal(a as nat)
            + seq!['.'] + decimal(b as nat) + seq!['.'] + decimal(c as nat) + seq!['.'] + decimal(
            d as nat,
        ),
{
}

/// The fixed part is read as it was written: behind its signature and the
/// version of its layout stands the version of the file, the upper half first.
pub proof fn lemma_fixed_info_reads_back(
    bytes: Seq<u8>,
    at: int,
    size: int,
    end: int,
    signature: u32,
    layout: u32,
    upper: u32,
    lower_half: u32,
)
    requires
        holds_at(
            bytes,
            at,
            bytes32(signature) + (bytes32(layout) + (bytes32(upper) + bytes32(lower_half))),
        ),
        16 <= size,
        at + size <= end,
    ensures
        fixed_info(bytes, at, size, end).product_name is None,
        signature == 0xfeef_04bd ==> fixed_info(bytes, at, size, end).file_version == Some(
            version_text(upper, lower_half),
        ),
        signature != 0xfeef_04bd ==> fixed_info(bytes, at, size, end).file_version is None,
        fixed_info(bytes, at, 15, end).file_version is None,
{
    lemma_held32_first(
        bytes,
        at,
        signature,
        bytes32(layout) + (bytes32(upper) + bytes32(lower_half)),
    );
    lemma_held32_first(bytes, at + 4, layout, bytes32(upper) + bytes32(lower_half));
    lemma_held32_first(bytes, at + 8, upper, bytes32(lower_half));
    lemma_held32(bytes, at + 12, lower_half);
}

/// A string of one of the two names that are looked for, in whatever case,
/// takes its own place and no other; a string without text and any other string
/// change nothing.
pub proof fn lemma_noted(info: VersionInfoModel, name: Seq<char>, value: Seq<char>)
    ensures
        value.len() == 0 ==> noted(info, name, value) == info,
        value.len() > 0 && lower(name) == lower("ProductName"@) ==> noted(
            info,
            name,
            value,
        ).product_name == Some(value) && noted(info, name, value).file_version
            == info.file_version,
        value.len() > 0 && lower(name) == lower("FileVersion"@) ==> noted(
            info,
            name,
            value,
        ).file_version == Some(value) && noted(info, name, value).product_name
            == info.product_name,
        lower(name) != lower("ProductName"@) && lower(name) != lower("FileVersion"@) ==> noted(
            info,
            name,
            value,
        ) == info,
{
    reveal_strlit("ProductName");
    reveal_strlit("FileVersion");
    assert(lower("ProductName"@)[0] == 'p');
    assert(lower("FileVersion"@)[0] == 'f');
}

/// The bytes of units of sixteen bits.
pub open spec fn units_bytes(units: Seq<u16>) -> Seq<u8>
    decreases units.len(),
{
    if units.len() == 0 {
        Seq::empty()
    } else {
        bytes16(units[0]) + units_bytes(units.drop_first())
    }
}

proof fn lemma_units_held(bytes: Seq<u8>, at: int, end: int, units: Seq<u16>)
    requires
        holds_at(bytes, at, units_bytes(units.push(0))),
        !units.contains(0),
        at + 2 * units.len() + 2 <= end,
    ensures
        key_units(bytes, at, end) == Some((units, at + 2 * units.len() + 2)),
        value_units(bytes, at, end) == units,
    decreases units.len(),
{
    let all = units.push(0);
    let rest = all.drop_first();
    lemma_held16_first(bytes, at, all[0], units_bytes(rest));
    if units.len() > 0 {
        assert(units.contains(units[0]));
        let fewer = units.drop_first();
        assert(rest =~= fewer.push(0));
        assert(!fewer.contains(0)) by {
            if fewer.contains(0) {
                let i = choose|i: int| 0 <= i < fewer.len() && fewer[i] == 0;
                assert(units[i + 1] == 0);
            }
        }
        lemma_units_held(bytes, at + 2, end, fewer);
        assert(seq![units[0]] + fewer =~= units);
    } else {
        assert(units =~= Seq::<u16>::empty());
    }
}

/// A text that was written in UTF-16 with a zero behind it is read as a key or
/// as a value; what follows it stands behind the zero. A value loses the white
/// space around it.
pub proof fn lemma_key_reads_back(bytes: Seq<u8>, at: int, end: int, text: Seq<char>)
    requires
        holds_at(bytes, at, units_bytes(encoded(text).push(0))),
        !encoded(text).contains(0),
        at + 2 * encoded(text).len() + 2 <= end,
    ensures
        key_at(bytes, at, end) == Some((text, at + 2 * encoded(text).len() + 2)),
        value_at(bytes, at, end) == trimmed(text),
{
    lemma_units_held(bytes, at, end, encoded(text));
    lemma_decoded_encoded(text);
    lemma_lossy_agrees(encoded(text));
}

/// A string of a table is its length, six bytes in from its start a name and,
/// from the next multiple of four on, a value, each with a zero behind it. It is
/// noted, and what follows it begins at the next multiple of four behind it.
pub proof fn lemma_string_is_noted(
    bytes: Seq<u8>,
    at: int,
    end: int,
    length: u16,
    name: Seq<char>,
    value: Seq<char>,
    info: VersionInfoModel,
)
    requires
        0 <= at,
        le16(bytes, at) == length,
        6 <= length,
        at + length <= end,
        holds_at(bytes, at + 6, units_bytes(encoded(name).push(0))),
        !encoded(name).contains(0),
        at + 6 + 2 * encoded(name).len() + 2 <= at + length,
        holds_at(
            bytes,
            aligned4(at + 6 + 2 * encoded(name).len() + 2),
            units_bytes(encoded(value).push(0)),
        ),
        !encoded(value).contains(0),
        aligned4(at + 6 + 2 * encoded(name).len() + 2) + 2 * encoded(value).len() + 2 <= at
            + length,
    ensures
        after_strings(bytes, at, end, info) == after_strings(
            bytes,
            aligned4(at + length),
            end,
            noted(info, name, trimmed(value)),
        ),
{
    lemma_key_reads_back(bytes, at + 6, at + length, name);
    lemma_key_reads_back(
        bytes,
        aligned4(at + 6 + 2 * encoded(name).len() + 2),
        at + length,
        value,
    );
}

/// The strings of a table stand behind its key, from the next multiple of four
/// on and up to its end; the next table begins at the next multiple of four
/// behind that.
pub proof fn lemma_table_is_read(
    bytes: Seq<u8>,
    at: int,
    end: int,
    length: u16,
    key: Seq<char>,
    info: VersionInfoModel,
)
    requires
        0 <= at,
        le16(bytes, at) == length,
        6 <= length,
        at + length <= end,
        holds_at(bytes, at + 6, units_bytes(encoded(key).push(0))),
        !encoded(key).contains(0),
        at + 6 + 2 * encoded(key).len() + 2 <= at + length,
    ensures
        ({
            let inner = after_strings(
                bytes,
                aligned4(at + 6 + 2 * encoded(key).len() + 2),
                at + length,
                info,
            );
            &&& inner is None ==> after_tables(bytes, at, end, info) is None
            &&& inner matches Some(read) ==> after_tables(bytes, at, end, info) == after_tables(
                bytes,
                aligned4(at + length),
                end,
                read,
            )
        }),
{
    lemma_key_reads_back(bytes, at + 6, at + length, key);
}

/// Of the blocks only those for strings are read, as tables behind their key;
/// the others are passed over. The next block begins at the next multiple of four
/// behind a block.
pub proof fn lemma_block_is_read(
    bytes: Seq<u8>,
    at: int,
    end: int,
    length: u16,
    key: Seq<char>,
    info: VersionInfoModel,
)
    requires
        0 <= at,
        le16(bytes, at) == length,
        6 <= length,
        at + length <= end,
        holds_at(bytes, at + 6, units_bytes(encoded(key).push(0))),
        !encoded(key).contains(0),
        at + 6 + 2 * encoded(key).len() + 2 <= at + length,
    ensures
        ({
            let inner = after_tables(
                bytes,
                aligned4(at + 6 + 2 * encoded(key).len() + 2),
                at + length,
                info,
            );
            &&& key != "StringFileInfo"@ ==> after_blocks(bytes, at, end, info) == after_blocks(
                bytes,
                aligned4(at + length),
                end,
                info,
            )
            &&& key == "StringFileInfo"@ && inner is None ==> after_blocks(
                bytes,
                at,
                end,
                info,
            ) is None
            &&& key == "StringFileInfo"@ ==> (inner matches Some(read) ==> after_blocks(
                bytes,
                at,
                end,
                info,
            ) == after_blocks(bytes, aligned4(at + length), end, read))
        }),
{
    lemma_key_reads_back(bytes, at + 6, at + length, key);
}

/// A length of zero, one that leads beyond the end, or an end too near for a
/// head ends the strings, the tables and the blocks, and nothing more is noted.
pub proof fn lemma_reading_ends(bytes: Seq<u8>, at: int, end: int, info: VersionInfoModel)
    requires
        at + 6 > end || le16(bytes, at) == 0 || at + le16(bytes, at) > end,
    ensures
        after_strings(bytes, at, end, info) == Some(info),
        after_tables(bytes, at, end, info) == Some(info),
        after_blocks(bytes, at, end, info) == Some(info),
{
}

} // verus!
