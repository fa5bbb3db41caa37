//! Alternate streams: their names, the attributes that hold them, and copies
//! of all streams of a file.
use crate::error::{AppError, AppResult, ReasonCode};
use crate::fs::ntfs::ADS_STREAM_TYPE_DATA;
use crate::fs::sidecar::{
    decode_stream_name_from_sidecar, escape_sidecar_component, escaped, lemma_stream_decoded_encoded,
    sidecar_name, stream_decoded, stream_encoded,
};
use crate::pe::rva::decode_text;
use crate::text::{
    begins_with, chars_of, has_prefix, hexadecimal, joined, noted, push_hexadecimal, push_text,
    same_text, string_of, surrounded,
};
use vstd::prelude::*;
use vstd::slice::slice_subrange;
use vstd::utf8::{decode_utf8, valid_utf8};

verus! {

/// The attribute by which a host marks a file that came from elsewhere.
pub const XATTR_COM_APPLE_QUARANTINE: &'static str = "com.apple.quarantine";

/// The attribute for the zone of a file.
pub const XATTR_ZONE_IDENTIFIER: &'static str = "com.casa1.zone.identifier";

/// What the attributes for streams begin with.
pub const XATTR_ADS_PREFIX: &'static str = "com.casa1.ads.";

// ---------------------------------------------------------------------------
// Names
// ---------------------------------------------------------------------------

/// A name that a stream may have: it is not empty, is neither `.` nor `..`,
/// and holds neither a separator nor a colon nor zero.
pub open spec fn stream_name_ok(name: Seq<char>) -> bool {
    &&& name.len() > 0
    &&& name != "."@
    &&& name != ".."@
    &&& forall|i: int|
        0 <= i < name.len() ==> {
            let c = #[trigger] name[i];
            c != '/' && c != '\\' && c != ':' && c != '\0'
        }
}

/// The refusal of a name for a stream.
fn bad_stream_name(stream_name: &str) -> (outcome: AppResult<()>)
    ensures
        outcome matches Err(error) && error.code == ReasonCode::RcFsPathInvalid && error.message@
            == "invalid alternate stream name '"@ + stream_name@ + "'"@,
{
    Err(
        AppError::new(
            ReasonCode::RcFsPathInvalid,
            &surrounded("invalid alternate stream name '", stream_name, "'"),
        ),
    )
}

/// Checks the name of a stream.
pub fn validate_stream_name(stream_name: &str) -> (outcome: AppResult<()>)
    ensures
        match outcome {
            Ok(()) => stream_name_ok(stream_name@),
            Err(error) => !stream_name_ok(stream_name@) && error.code
                == ReasonCode::RcFsPathInvalid,
        },
{
    let chars: Vec<char> = chars_of(stream_name);
    if chars.len() == 0 || same_text(stream_name, ".") || same_text(stream_name, "..") {
        return bad_stream_name(stream_name);
    }
    let mut i: usize = 0;
    while i < chars.len()
        invariant
            i <= chars.len(),
            chars@ == stream_name@,
            chars@.len() > 0 && chars@ != "."@ && chars@ != ".."@,
            forall|k: int|
                0 <= k < i ==> {
                    let c = #[trigger] chars@[k];
                    c != '/' && c != '\\' && c != ':' && c != '\0'
                },
        decreases chars.len() - i,
    {
        let c: char = chars[i];
        if c == '/' || c == '\\' || c == ':' || c == '\0' {
            assert(chars@[i as int] == c);
            return bad_stream_name(stream_name);
        }
        i += 1;
    }
    Ok(())
}

/// The attribute that holds a stream.
pub fn attribute_for_stream(stream_name: &str) -> (name: String)
    ensures
        name@ == XATTR_ADS_PREFIX@ + stream_name@,
{
    joined(XATTR_ADS_PREFIX, stream_name)
}

// ---------------------------------------------------------------------------
// Lists of attributes
// ---------------------------------------------------------------------------

/// The parts of a list between zeros, without empty ones.
pub open spec fn zero_separated(bytes: Seq<u8>) -> Seq<Seq<u8>>
    decreases bytes.len(),
{
    if bytes.len() == 0 {
        Seq::empty()
    } else {
        let front = zero_separated(bytes.drop_last());
        if bytes.last() == 0 {
            front
        } else if bytes.len() == 1 || bytes[bytes.len() - 2] == 0 {
            front.push(seq![bytes.last()])
        } else {
            front.drop_last().push(front.last().push(bytes.last()))
        }
    }
}

/// The first `count` parts that are UTF-8, as text.
pub open spec fn texts_of(parts: Seq<Seq<u8>>, count: int) -> Seq<Seq<char>>
    decreases count,
{
    if count <= 0 {
        Seq::empty()
    } else if valid_utf8(parts[count - 1]) {
        texts_of(parts, count - 1).push(decode_utf8(parts[count - 1]))
    } else {
        texts_of(parts, count - 1)
    }
}

/// The names in a list of attributes; names that are not UTF-8 do not count.
pub open spec fn attribute_names(bytes: Seq<u8>) -> Seq<Seq<char>> {
    texts_of(zero_separated(bytes), zero_separated(bytes).len() as int)
}

/// The names in a list of attributes.
pub fn parse_xattr_list(buffer: &[u8]) -> (names: Vec<String>)
    ensures
        names.deep_view() == attribute_names(buffer@),
{
    let mut names: Vec<String> = Vec::new();
    let ghost mut parts = Seq::<Seq<u8>>::empty();
    let mut start: usize = 0;
    let mut i: usize = 0;
    proof {
        assert(buffer@.take(0) =~= Seq::<u8>::empty());
        assert(names.deep_view() =~= Seq::<Seq<char>>::empty());
    }
    while i < buffer.len()
        invariant
            start <= i <= buffer.len(),
            i > 0 ==> (start < i <==> buffer@[i - 1] != 0),
            zero_separated(buffer@.take(i as int)) == (if start < i {
                parts.push(buffer@.subrange(start as int, i as int))
            } else {
                parts
            }),
            names.deep_view() == texts_of(parts, parts.len() as int),
        decreases buffer.len() - i,
    {
        proof {
            let longer = buffer@.take(i + 1);
            assert(longer.drop_last() =~= buffer@.take(i as int));
            assert(longer.last() == buffer@[i as int]);
            if i > 0 {
                assert(longer[longer.len() - 2] == buffer@[i - 1]);
            }
        }
        if buffer[i] == 0 {
            if i > start {
                let part: &[u8] = slice_subrange(buffer, start, i);
                let ghost grown = parts.push(part@);
                proof {
                    lemma_texts_prefix(parts, grown, parts.len() as int);
                }
                push_if_text(&mut names, part);
                proof {
                    parts = grown;
                }
            }
            start = i + 1;
        } else {
            proof {
                let part = buffer@.subrange(start as int, i as int);
                let longer = buffer@.subrange(start as int, i + 1);
                assert(longer =~= part.push(buffer@[i as int]));
                if start < i {
                    assert(parts.push(part).drop_last() =~= parts);
                } else {
                    assert(longer =~= seq![buffer@[i as int]]);
                }
            }
        }
        i += 1;
    }
    assert(buffer@.take(i as int) =~= buffer@);
    if start < buffer.len() {
        let part: &[u8] = slice_subrange(buffer, start, buffer.len());
        proof {
            lemma_texts_prefix(parts, parts.push(part@), parts.len() as int);
        }
        push_if_text(&mut names, part);
    }
    names
}

proof fn lemma_texts_prefix(shorter: Seq<Seq<u8>>, longer: Seq<Seq<u8>>, count: int)
    requires
        0 <= count <= shorter.len() <= longer.len(),
        forall|i: int| 0 <= i < count ==> shorter[i] == #[trigger] longer[i],
    ensures
        texts_of(shorter, count) == texts_of(longer, count),
    decreases count,
{
    if count > 0 {
        lemma_texts_prefix(shorter, longer, count - 1);
        assert(shorter[count - 1] == longer[count - 1]);
    }
}

fn push_if_text(names: &mut Vec<String>, part: &[u8])
    ensures
        final(names).deep_view() == (if valid_utf8(part@) {
            old(names).deep_view().push(decode_utf8(part@))
        } else {
            old(names).deep_view()
        }),
{
    let ghost before = names.deep_view();
    match decode_text(part) {
        Ok(text) => {
            names.push(text);
            assert(names.deep_view() =~= before.push(text@));
        },
        Err(_) => {},
    }
}

/// What stands behind `prefix` in the first `count` names that begin with it.
pub open spec fn behind_prefix(names: Seq<Seq<char>>, prefix: Seq<char>, count: int) -> Seq<Seq<char>>
    decreases count,
{
    if count <= 0 {
        Seq::empty()
    } else if begins_with(names[count - 1], prefix) {
        behind_prefix(names, prefix, count - 1).push(names[count - 1].skip(prefix.len() as int))
    } else {
        behind_prefix(names, prefix, count - 1)
    }
}

fn strip_from(names: &Vec<String>, prefix: &str) -> (rests: Vec<String>)
    ensures
        rests.deep_view() == behind_prefix(names.deep_view(), prefix@, names.len() as int),
{
    let ghost all = names.deep_view();
    let length: usize = chars_of(prefix).len();
    let mut rests: Vec<String> = Vec::new();
    let mut i: usize = 0;
    assert(rests.deep_view() =~= Seq::<Seq<char>>::empty());
    while i < names.len()
        invariant
            i <= names.len(),
            all == names.deep_view(),
            length == prefix@.len(),
            rests.deep_view() == behind_prefix(all, prefix@, i as int),
        decreases names.len() - i,
    {
        assert(all[i as int] == names@[i as int]@);
        if has_prefix(&names[i], prefix) {
            let chars: Vec<char> = chars_of(&names[i]);
            let mut rest: Vec<char> = Vec::new();
            let mut k: usize = length;
            while k < chars.len()
                invariant
                    length <= k <= chars.len(),
                    rest@ == chars@.subrange(length as int, k as int),
                decreases chars.len() - k,
            {
                rest.push(chars[k]);
                assert(rest@ =~= chars@.subrange(length as int, k + 1));
                k += 1;
            }
            assert(rest@ =~= all[i as int].skip(length as int));
            let ghost before = rests.deep_view();
            rests.push(string_of(&rest));
            assert(rests.deep_view() =~= before.push(rest@));
        }
        i += 1;
    }
    rests
}

/// The streams that a list of attributes holds.
pub fn streams_in_attributes(buffer: &[u8]) -> (streams: Vec<String>)
    ensures
        streams.deep_view() == behind_prefix(
            attribute_names(buffer@),
            XATTR_ADS_PREFIX@,
            attribute_names(buffer@).len() as int,
        ),
{
    let names: Vec<String> = parse_xattr_list(buffer);
    strip_from(&names, XATTR_ADS_PREFIX)
}

/// The streams of a file, by the names of the files in the directory of
/// streams.
pub open spec fn streams_beside(file_name: Seq<char>, entries: Seq<Seq<char>>) -> Seq<Seq<char>> {
    behind_prefix(entries, escaped(file_name) + "__"@, entries.len() as int).map_values(
        |encoded: Seq<char>| stream_decoded(encoded),
    )
}

/// The streams of a file, by the names of the files in the directory of
/// streams.
pub fn streams_in_directory(file_name: &str, entries: &Vec<String>) -> (streams: Vec<String>)
    ensures
        streams.deep_view() == streams_beside(file_name@, entries.deep_view()),
{
    let mut prefix: String = escape_sidecar_component(file_name);
    push_text(&mut prefix, "__");
    let encoded: Vec<String> = strip_from(entries, &prefix);
    let ghost all = streams_beside(file_name@, entries.deep_view());
    let mut streams: Vec<String> = Vec::new();
    let mut i: usize = 0;
    assert(streams.deep_view() =~= all.take(0));
    while i < encoded.len()
        invariant
            i <= encoded.len(),
            all == encoded.deep_view().map_values(|text: Seq<char>| stream_decoded(text)),
            streams.deep_view() == all.take(i as int),
        decreases encoded.len() - i,
    {
        let name: String = decode_stream_name_from_sidecar(&encoded[i]);
        let ghost before = streams.deep_view();
        streams.push(name);
        assert(streams.deep_view() =~= before.push(name@));
        assert(streams.deep_view() =~= all.take(i + 1));
        i += 1;
    }
    assert(all.take(i as int) =~= all);
    streams
}

// ---------------------------------------------------------------------------
// The mark of files from elsewhere
// ---------------------------------------------------------------------------

/// The mark of a file that came from elsewhere: who set it, when, and a
/// number of its own.
pub open spec fn mark_of(timestamp: u64, id: Seq<char>) -> Seq<char> {
    "Casa1;"@ + hexadecimal(timestamp as nat) + ";"@ + id
}

/// The mark of a file that came from elsewhere, with the given number.
pub fn quarantine_mark(timestamp: u64, id: &str) -> (mark: String)
    ensures
        mark@ == mark_of(timestamp, id@),
{
    let mut mark: String = "Casa1;".to_owned();
    push_hexadecimal(&mut mark, timestamp);
    push_text(&mut mark, ";");
    push_text(&mut mark, id);
    mark
}

/// A random identifier: 32 hexadecimal digits with small letters, of which the
/// thirteenth is the version and the seventeenth the variant.
pub open spec fn is_random_id(id: Seq<char>) -> bool {
    &&& id.len() == 32
    &&& forall|i: int|
        0 <= i < 32 ==> ('0' <= #[trigger] id[i] && id[i] <= '9') || ('a' <= id[i] && id[i] <= 'f')
    &&& id[12] == '4'
    &&& id[16] == '8' || id[16] == '9' || id[16] == 'a' || id[16] == 'b'
}

/// Calls `uuid::Uuid::new_v4` and writes the result without hyphens. Claims
/// the form of the text; which identifier it is, chance decides. Where the
/// system gives no random bytes the call does not return.
#[verifier::external_body]
fn random_id() -> (id: String)
    ensures
        is_random_id(id@),
{
    uuid::Uuid::new_v4().simple().to_string()
}

/// The mark of a file that came from elsewhere, with a fresh number.
pub fn new_quarantine_mark(timestamp: u64) -> (mark: String)
    ensures
        exists|id: Seq<char>| #[trigger] is_random_id(id) && mark@ == mark_of(timestamp, id),
{
    let id: String = random_id();
    quarantine_mark(timestamp, &id)
}

// ---------------------------------------------------------------------------
// Copies of all streams
// ---------------------------------------------------------------------------

/// The most bytes of a stream that are copied.
pub const MAX_BACKUP_READ_SIZE: u64 = 0x1000_0000;

/// A stream of a copy: its name, which is empty for the contents of the file
/// itself, its type, its size and its contents.
#[derive(Debug, Clone)]
pub struct BackupStreamEntry {
    pub stream_name: String,
    pub stream_type: String,
    pub size: u64,
    pub data: Vec<u8>,
}

/// The model of [`BackupStreamEntry`].
#[verifier::ext_equal]
pub struct BackupStreamEntryModel {
    pub stream_name: Seq<char>,
    pub stream_type: Seq<char>,
    pub size: u64,
    pub data: Seq<u8>,
}

impl DeepView for BackupStreamEntry {
    type V = BackupStreamEntryModel;

    open spec fn deep_view(&self) -> BackupStreamEntryModel {
        BackupStreamEntryModel {
            stream_name: self.stream_name@,
            stream_type: self.stream_type@,
            size: self.size,
            data: self.data@,
        }
    }
}

/// A copy of all streams of a file.
#[derive(Debug, Clone)]
pub struct BackupReadResult {
    pub entries: Vec<BackupStreamEntry>,
}

/// The first of the entries from `from` on without a name.
pub open spec fn unnamed_from(entries: Seq<BackupStreamEntryModel>, from: int) -> Option<
    BackupStreamEntryModel,
>
    decreases entries.len() - from,
{
    if from < 0 || from >= entries.len() {
        None
    } else if entries[from].stream_name.len() == 0 {
        Some(entries[from])
    } else {
        unnamed_from(entries, from + 1)
    }
}

impl BackupReadResult {
    /// A copy without streams.
    pub fn empty() -> (copy: Self)
        ensures
            copy.entries@ == Seq::<BackupStreamEntry>::empty(),
    {
        BackupReadResult { entries: Vec::new() }
    }

    /// The contents of the file itself.
    pub fn main_stream(&self) -> (entry: Option<&BackupStreamEntry>)
        ensures
            match entry {
                Some(found) => unnamed_from(self.entries.deep_view(), 0) == Some(found.deep_view()),
                None => unnamed_from(self.entries.deep_view(), 0) is None,
            },
    {
        let ghost all = self.entries.deep_view();
        let mut i: usize = 0;
        while i < self.entries.len()
            invariant
                i <= self.entries.len(),
                all == self.entries.deep_view(),
                unnamed_from(all, 0) == unnamed_from(all, i as int),
            decreases self.entries.len() - i,
        {
            assert(all[i as int] == self.entries@[i as int].deep_view());
            if self.entries[i].stream_name.as_str().is_empty() {
                return Some(&self.entries[i]);
            }
            i += 1;
        }
        None
    }

    /// The streams with a name.
    pub fn alternate_streams(&self) -> (list: Vec<&BackupStreamEntry>)
        ensures
            list@.map_values(|entry: &BackupStreamEntry| entry.deep_view())
                == self.entries.deep_view().filter(
                |entry: BackupStreamEntryModel| entry.stream_name.len() > 0,
            ),
    {
        let ghost all = self.entries.deep_view();
        let ghost named = |entry: BackupStreamEntryModel| entry.stream_name.len() > 0;
        let ghost model = |entry: &BackupStreamEntry| entry.deep_view();
        let mut list: Vec<&BackupStreamEntry> = Vec::new();
        let mut i: usize = 0;
        proof {
            reveal(Seq::filter);
            assert(all.take(0).filter(named) =~= Seq::<BackupStreamEntryModel>::empty());
            assert(list@.map_values(model) =~= all.take(0).filter(named));
        }
        while i < self.entries.len()
            invariant
                i <= self.entries.len(),
                all == self.entries.deep_view(),
                named == (|entry: BackupStreamEntryModel| entry.stream_name.len() > 0),
                model == (|entry: &BackupStreamEntry| entry.deep_view()),
                list@.map_values(model) == all.take(i as int).filter(named),
            decreases self.entries.len() - i,
        {
            let entry: &BackupStreamEntry = &self.entries[i];
            proof {
                reveal(Seq::filter);
                assert(all[i as int] == entry.deep_view());
                assert(all.take(i + 1).drop_last() =~= all.take(i as int));
            }
            if !entry.stream_name.as_str().is_empty() {
                let ghost before = list@.map_values(model);
                list.push(entry);
                assert(list@.map_values(model) =~= before.push(entry.deep_view()));
            }
            i += 1;
        }
        assert(all.take(i as int) =~= all);
        list
    }
}

/// Checks that a file is not too large to copy.
pub fn check_backup_size(windows_path: &str, size: u64) -> (outcome: AppResult<()>)
    ensures
        match outcome {
            Ok(()) => size <= MAX_BACKUP_READ_SIZE,
            Err(error) => size > MAX_BACKUP_READ_SIZE && error.code
                == ReasonCode::RcBufferLimitExceeded,
        },
{
    if size > MAX_BACKUP_READ_SIZE {
        let mut message: String = surrounded("file ", windows_path, " is ");
        push_text(&mut message, &noted("", size, " bytes, exceeding the "));
        push_text(&mut message, &noted("", MAX_BACKUP_READ_SIZE, " byte backup-read limit"));
        Err(AppError::new(ReasonCode::RcBufferLimitExceeded, &message))
    } else {
        Ok(())
    }
}

/// Adds a part of a file to what was read of it before, and checks that it
/// does not grow too large.
pub fn add_backup_chunk(windows_path: &str, data: &mut Vec<u8>, chunk: &[u8]) -> (outcome: AppResult<
    (),
>)
    ensures
        final(data)@ == old(data)@ + chunk@,
        match outcome {
            Ok(()) => final(data)@.len() <= MAX_BACKUP_READ_SIZE,
            Err(error) => final(data)@.len() > MAX_BACKUP_READ_SIZE && error.code
                == ReasonCode::RcBufferLimitExceeded,
        },
{
    data.extend_from_slice(chunk);
    assert(data@ =~= old(data)@ + chunk@);
    if data.len() as u64 > MAX_BACKUP_READ_SIZE {
        let mut message: String = surrounded("file ", windows_path, " exceeded the ");
        push_text(&mut message, &noted("", MAX_BACKUP_READ_SIZE, " byte backup-read limit"));
        Err(AppError::new(ReasonCode::RcBufferLimitExceeded, &message))
    } else {
        Ok(())
    }
}

/// A stream of which the name and the contents are known.
pub open spec fn data_entry(name: Seq<char>, data: Seq<u8>) -> BackupStreamEntryModel {
    BackupStreamEntryModel {
        stream_name: name,
        stream_type: ADS_STREAM_TYPE_DATA@,
        size: data.len() as u64,
        data,
    }
}

/// The first `count` streams whose contents could be read.
pub open spec fn readable_streams(streams: Seq<(String, Option<Vec<u8>>)>, count: int) -> Seq<
    BackupStreamEntryModel,
>
    decreases count,
{
    if count <= 0 {
        Seq::empty()
    } else {
        match streams[count - 1].1 {
            Some(data) => readable_streams(streams, count - 1).push(
                data_entry(streams[count - 1].0@, data@),
            ),
            None => readable_streams(streams, count - 1),
        }
    }
}

/// The copy of a file with the given contents and streams.
pub open spec fn copy_read(data: Seq<u8>, streams: Seq<(String, Option<Vec<u8>>)>) -> Seq<
    BackupStreamEntryModel,
> {
    seq![data_entry(Seq::empty(), data)] + readable_streams(streams, streams.len() as int)
}

/// The copy of a file with the given contents and streams. Streams that could
/// not be read are left out.
pub fn backup_read_file(data: Vec<u8>, streams: Vec<(String, Option<Vec<u8>>)>) -> (copy:
    BackupReadResult)
    ensures
        copy.entries.deep_view() == copy_read(data@, streams@),
{
    let ghost all = streams@;
    let ghost first = data_entry(Seq::empty(), data@);
    let mut entries: Vec<BackupStreamEntry> = Vec::new();
    let size: u64 = data.len() as u64;
    entries.push(
        BackupStreamEntry {
            stream_name: String::new(),
            stream_type: ADS_STREAM_TYPE_DATA.to_owned(),
            size,
            data,
        },
    );
    assert(entries.deep_view() =~= seq![first] + readable_streams(all, 0));
    let mut i: usize = 0;
    while i < streams.len()
        invariant
            i <= streams.len(),
            all == streams@,
            entries.deep_view() == seq![first] + readable_streams(all, i as int),
        decreases streams.len() - i,
    {
        match &streams[i].1 {
            Some(contents) => {
                let entry = BackupStreamEntry {
                    stream_name: streams[i].0.clone(),
                    stream_type: ADS_STREAM_TYPE_DATA.to_owned(),
                    size: contents.len() as u64,
                    data: vstd::slice::slice_to_vec(contents.as_slice()),
                };
                let ghost before = entries.deep_view();
                entries.push(entry);
                assert(entries.deep_view() =~= before.push(entry.deep_view()));
                assert(entries.deep_view() =~= seq![first] + readable_streams(all, i + 1));
            },
            None => {},
        }
        i += 1;
    }
    BackupReadResult { entries }
}

/// Where an entry of a copy is written to.
#[derive(Debug, Clone, Copy, PartialEq, Eq, Structural)]
pub enum BackupTarget {
    /// The file itself, which is created or emptied for it.
    Contents,
    /// The stream of that name.
    Stream,
}

/// Where an entry of a copy is written to: without a name to the file itself,
/// else to the stream of its name.
pub open spec fn target_of(entry: BackupStreamEntryModel) -> BackupTarget {
    if entry.stream_name.len() == 0 {
        BackupTarget::Contents
    } else {
        BackupTarget::Stream
    }
}

/// Where the entries of a copy are written to, in order.
pub fn backup_write_file(backup: &BackupReadResult) -> (targets: Vec<BackupTarget>)
    ensures
        targets@ == backup.entries.deep_view().map_values(
            |entry: BackupStreamEntryModel| target_of(entry),
        ),
{
    let ghost all = backup.entries.deep_view().map_values(
        |entry: BackupStreamEntryModel| target_of(entry),
    );
    let mut targets: Vec<BackupTarget> = Vec::new();
    let mut i: usize = 0;
    while i < backup.entries.len()
        invariant
            i <= backup.entries.len(),
            all == backup.entries.deep_view().map_values(
                |entry: BackupStreamEntryModel| target_of(entry),
            ),
            targets@ == all.take(i as int),
        decreases backup.entries.len() - i,
    {
        if backup.entries[i].stream_name.as_str().is_empty() {
            targets.push(BackupTarget::Contents);
        } else {
            targets.push(BackupTarget::Stream);
        }
        assert(targets@ =~= all.take(i + 1));
        i += 1;
    }
    assert(all.take(i as int) =~= all);
    targets
}

// ---------------------------------------------------------------------------
// A copy of a copy
// ---------------------------------------------------------------------------

/// A file: its contents, where it is there, and its streams.
#[verifier::ext_equal]
pub struct StreamedFile {
    pub data: Option<Seq<u8>>,
    pub streams: Map<Seq<char>, Seq<u8>>,
}

/// The file after an entry of a copy has been written to its target.
pub open spec fn entry_written(file: StreamedFile, entry: BackupStreamEntryModel) -> StreamedFile {
    match target_of(entry) {
        BackupTarget::Contents => StreamedFile { data: Some(entry.data), ..file },
        BackupTarget::Stream => StreamedFile {
            streams: file.streams.insert(entry.stream_name, entry.data),
            ..file
        },
    }
}

/// The file after all entries of a copy have been written, in order.
pub open spec fn copy_written(file: StreamedFile, entries: Seq<BackupStreamEntryModel>) -> StreamedFile
    decreases entries.len(),
{
    if entries.len() == 0 {
        file
    } else {
        entry_written(copy_written(file, entries.drop_last()), entries.last())
    }
}

/// The streams that could be read have names, and one that is listed more than
/// once has the same contents each time.
pub open spec fn named_alike(streams: Seq<(String, Option<Vec<u8>>)>) -> bool {
    &&& forall|i: int|
        0 <= i < streams.len() && (#[trigger] streams[i]).1 is Some ==> streams[i].0@.len() > 0
    &&& forall|i: int, j: int|
        0 <= i < j < streams.len() && (#[trigger] streams[i]).1 is Some && (
        #[trigger] streams[j]).1 is Some && streams[i].0@ == streams[j].0@ ==> streams[i].1->0@
            == streams[j].1->0@
}

/// No stream is listed twice.
pub open spec fn named_once(streams: Seq<(String, Option<Vec<u8>>)>) -> bool {
    forall|i: int, j: int|
        0 <= i < j < streams.len() ==> (#[trigger] streams[i]).0@ != (#[trigger] streams[j]).0@
}

/// `streams` are the streams of the file, each with its contents.
pub open spec fn lists_streams(
    streams: Seq<(String, Option<Vec<u8>>)>,
    file: StreamedFile,
) -> bool {
    &&& forall|i: int|
        0 <= i < streams.len() ==> {
            &&& file.streams.contains_key((#[trigger] streams[i]).0@)
            &&& streams[i].1 is Some
            &&& streams[i].1->0@ == file.streams[streams[i].0@]
        }
    &&& forall|name: Seq<char>| #[trigger]
        file.streams.contains_key(name) ==> exists|i: int|
            0 <= i < streams.len() && (#[trigger] streams[i]).0@ == name
}

/// The first entry is for the file itself, each of the others for a stream, and
/// those for the same stream hold the same.
spec fn entries_alike(entries: Seq<BackupStreamEntryModel>) -> bool {
    &&& entries.len() > 0 && entries[0].stream_name.len() == 0
    &&& forall|i: int| 0 < i < entries.len() ==> (#[trigger] entries[i]).stream_name.len() > 0
    &&& forall|i: int, j: int|
        0 < i < j < entries.len() && (#[trigger] entries[i]).stream_name == (
        #[trigger] entries[j]).stream_name ==> entries[i].data == entries[j].data
}

/// The entry copies one of the first `count` streams.
spec fn copies_one(
    streams: Seq<(String, Option<Vec<u8>>)>,
    count: int,
    entry: BackupStreamEntryModel,
) -> bool {
    exists|i: int|
        0 <= i < count && (#[trigger] streams[i]).1 is Some && entry == data_entry(
            streams[i].0@,
            streams[i].1->0@,
        )
}

proof fn lemma_readable(streams: Seq<(String, Option<Vec<u8>>)>, count: int)
    requires
        0 <= count <= streams.len(),
    ensures
        forall|k: int|
            0 <= k < readable_streams(streams, count).len() ==> copies_one(
                streams,
                count,
                #[trigger] readable_streams(streams, count)[k],
            ),
        forall|i: int|
            0 <= i < count && (#[trigger] streams[i]).1 is Some ==> readable_streams(
                streams,
                count,
            ).contains(data_entry(streams[i].0@, streams[i].1->0@)),
        named_once(streams) ==> forall|j: int, k: int|
            0 <= j < k < readable_streams(streams, count).len() ==> (
            #[trigger] readable_streams(streams, count)[j]).stream_name != (
            #[trigger] readable_streams(streams, count)[k]).stream_name,
    decreases count,
{
    if count > 0 {
        lemma_readable(streams, count - 1);
        let before = readable_streams(streams, count - 1);
        let after = readable_streams(streams, count);
        assert forall|k: int| 0 <= k < before.len() implies copies_one(
            streams,
            count,
            #[trigger] before[k],
        ) by {
            assert(copies_one(streams, count - 1, before[k]));
        }
        if streams[count - 1].1 is Some {
            let entry = data_entry(streams[count - 1].0@, streams[count - 1].1->0@);
            assert(after =~= before.push(entry));
            assert(copies_one(streams, count, entry));
            assert forall|i: int| 0 <= i < count && (#[trigger] streams[i]).1 is Some implies
                after.contains(data_entry(streams[i].0@, streams[i].1->0@)) by {
                if i < count - 1 {
                    let wanted = data_entry(streams[i].0@, streams[i].1->0@);
                    let k = choose|k: int| 0 <= k < before.len() && before[k] == wanted;
                    assert(after[k] == wanted);
                } else {
                    assert(after[before.len() as int] == entry);
                }
            }
            assert forall|j: int, k: int|
                named_once(streams) && 0 <= j < k < after.len() implies (
            #[trigger] after[j]).stream_name != (#[trigger] after[k]).stream_name by {
                if k == before.len() {
                    assert(copies_one(streams, count - 1, before[j]));
                } else {
                    assert(before[j].stream_name != before[k].stream_name);
                }
            }
        }
    }
}

proof fn lemma_copy_alike(data: Seq<u8>, streams: Seq<(String, Option<Vec<u8>>)>)
    requires
        named_alike(streams),
    ensures
        entries_alike(copy_read(data, streams)),
        named_once(streams) ==> copy_read(data, streams).no_duplicates(),
{
    let entries = copy_read(data, streams);
    let count = streams.len() as int;
    let readable = readable_streams(streams, count);
    lemma_readable(streams, count);
    assert forall|i: int| 0 < i < entries.len() implies (
    #[trigger] entries[i]).stream_name.len() > 0 by {
        assert(entries[i] == readable[i - 1]);
        assert(copies_one(streams, count, readable[i - 1]));
    }
    assert forall|i: int, j: int|
        0 < i < j < entries.len() && (#[trigger] entries[i]).stream_name == (
        #[trigger] entries[j]).stream_name implies entries[i].data == entries[j].data by {
        assert(copies_one(streams, count, readable[i - 1]));
        assert(copies_one(streams, count, readable[j - 1]));
    }
    if named_once(streams) {
        assert forall|i: int, j: int| 0 <= i < j < entries.len() implies entries[i]
            != entries[j] by {
            if i == 0 {
                assert(entries[j].stream_name.len() > 0);
            } else {
                assert(readable[i - 1].stream_name != readable[j - 1].stream_name);
            }
        }
    }
}

proof fn lemma_written(file: StreamedFile, entries: Seq<BackupStreamEntryModel>)
    requires
        entries_alike(entries),
    ensures
        copy_written(file, entries).data == Some(entries[0].data),
        forall|i: int|
            0 < i < entries.len() ==> {
                &&& copy_written(file, entries).streams.contains_key(
                    (#[trigger] entries[i]).stream_name,
                )
                &&& copy_written(file, entries).streams[entries[i].stream_name] == entries[i].data
            },
        forall|name: Seq<char>| #[trigger]
            copy_written(file, entries).streams.contains_key(name) ==> file.streams.contains_key(
                name,
            ) || exists|i: int| 0 < i < entries.len() && (#[trigger] entries[i]).stream_name == name,
        forall|name: Seq<char>|
            (forall|i: int| 0 < i < entries.len() ==> (#[trigger] entries[i]).stream_name != name)
                ==> {
                &&& #[trigger] copy_written(file, entries).streams.contains_key(name)
                    == file.streams.contains_key(name)
                &&& copy_written(file, entries).streams[name] == file.streams[name]
            },
    decreases entries.len(),
{
    let front = entries.drop_last();
    let last = entries.last();
    let after = copy_written(file, entries);
    if entries.len() == 1 {
        assert(copy_written(file, front) == file);
    } else {
        assert(entries_alike(front)) by {
            assert forall|i: int, j: int|
                0 < i < j < front.len() && (#[trigger] front[i]).stream_name == (
                #[trigger] front[j]).stream_name implies front[i].data == front[j].data by {
                assert(entries[i].stream_name == entries[j].stream_name);
            }
            assert forall|i: int| 0 < i < front.len() implies (
            #[trigger] front[i]).stream_name.len() > 0 by {
                assert(entries[i].stream_name.len() > 0);
            }
        }
        lemma_written(file, front);
        let before = copy_written(file, front);
        assert(entries[entries.len() - 1] == last);
        assert(after.streams == before.streams.insert(last.stream_name, last.data));
        assert forall|i: int| 0 < i < entries.len() implies {
            &&& after.streams.contains_key((#[trigger] entries[i]).stream_name)
            &&& after.streams[entries[i].stream_name] == entries[i].data
        } by {
            if i < front.len() {
                assert(front[i] == entries[i]);
                if entries[i].stream_name == entries[entries.len() - 1].stream_name {
                    assert(entries[i].data == last.data);
                }
            }
        }
        assert forall|name: Seq<char>| #[trigger]
            after.streams.contains_key(name) implies file.streams.contains_key(name)
            || exists|i: int| 0 < i < entries.len() && (#[trigger] entries[i]).stream_name
            == name by {
            if name == last.stream_name {
                assert(entries[entries.len() - 1].stream_name == name);
            } else if !file.streams.contains_key(name) {
                assert(before.streams.contains_key(name));
                let i = choose|i: int|
                    0 < i < front.len() && (#[trigger] front[i]).stream_name == name;
                assert(entries[i].stream_name == name);
            }
        }
        assert forall|name: Seq<char>|
            (forall|i: int| 0 < i < entries.len() ==> (#[trigger] entries[i]).stream_name
                != name) implies {
            &&& #[trigger] after.streams.contains_key(name) == file.streams.contains_key(name)
            &&& after.streams[name] == file.streams[name]
        } by {
            assert(entries[entries.len() - 1].stream_name != name);
            assert forall|i: int| 0 < i < front.len() implies (#[trigger] front[i]).stream_name
                != name by {
                assert(entries[i].stream_name != name);
            }
            assert(before.streams.contains_key(name) == file.streams.contains_key(name));
        }
    }
}

/// Writing the copy of a file puts its contents into the file and each of its
/// streams, and nothing else, into the stream of that name.
pub proof fn lemma_copy_written(
    data: Seq<u8>,
    streams: Seq<(String, Option<Vec<u8>>)>,
    file: StreamedFile,
)
    requires
        named_alike(streams),
    ensures
        copy_written(file, copy_read(data, streams)).data == Some(data),
        forall|i: int|
            0 <= i < streams.len() && (#[trigger] streams[i]).1 is Some ==> {
                let after = copy_written(file, copy_read(data, streams)).streams;
                after.contains_key(streams[i].0@) && after[streams[i].0@] == streams[i].1->0@
            },
        forall|name: Seq<char>|
            (forall|i: int|
                0 <= i < streams.len() && (#[trigger] streams[i]).1 is Some ==> streams[i].0@
                    != name) ==> {
                &&& #[trigger] copy_written(file, copy_read(data, streams)).streams.contains_key(
                    name,
                ) == file.streams.contains_key(name)
                &&& copy_written(file, copy_read(data, streams)).streams[name]
                    == file.streams[name]
            },
{
    let entries = copy_read(data, streams);
    let readable = readable_streams(streams, streams.len() as int);
    let after = copy_written(file, entries);
    lemma_copy_alike(data, streams);
    lemma_written(file, entries);
    lemma_readable(streams, streams.len() as int);
    assert forall|i: int| 0 <= i < streams.len() && (#[trigger] streams[i]).1 is Some implies {
        after.streams.contains_key(streams[i].0@) && after.streams[streams[i].0@]
            == streams[i].1->0@
    } by {
        let wanted = data_entry(streams[i].0@, streams[i].1->0@);
        let k = choose|k: int| 0 <= k < readable.len() && readable[k] == wanted;
        assert(entries[k + 1] == wanted);
    }
    assert forall|name: Seq<char>|
        (forall|i: int|
            0 <= i < streams.len() && (#[trigger] streams[i]).1 is Some ==> streams[i].0@
                != name) implies {
        &&& #[trigger] after.streams.contains_key(name) == file.streams.contains_key(name)
        &&& after.streams[name] == file.streams[name]
    } by {
        assert forall|k: int| 0 < k < entries.len() implies (#[trigger] entries[k]).stream_name
            != name by {
            assert(entries[k] == readable[k - 1]);
            assert(copies_one(streams, streams.len() as int, readable[k - 1]));
        }
    }
}

/// The copy of a file, written to a file without streams and read again, is
/// the same copy: the same contents, and the same streams in whatever order
/// and however often they are listed. Listed once each, they are as many.
pub proof fn lemma_copy_of_copy(
    data: Seq<u8>,
    streams: Seq<(String, Option<Vec<u8>>)>,
    file: StreamedFile,
    data_again: Seq<u8>,
    streams_again: Seq<(String, Option<Vec<u8>>)>,
)
    requires
        named_alike(streams),
        file.streams == Map::<Seq<char>, Seq<u8>>::empty(),
        copy_written(file, copy_read(data, streams)).data == Some(data_again),
        lists_streams(streams_again, copy_written(file, copy_read(data, streams))),
    ensures
        data_again == data,
        copy_read(data_again, streams_again)[0] == copy_read(data, streams)[0],
        named_once(streams) && named_once(streams_again) ==> copy_read(
            data_again,
            streams_again,
        ).len() == copy_read(data, streams).len(),
        forall|entry: BackupStreamEntryModel|
            copy_read(data_again, streams_again).contains(entry) <==> #[trigger] copy_read(
                data,
                streams,
            ).contains(entry),
{
    let first = copy_read(data, streams);
    let second = copy_read(data_again, streams_again);
    let after = copy_written(file, first);
    lemma_copy_written(data, streams, file);
    lemma_readable(streams, streams.len() as int);
    lemma_readable(streams_again, streams_again.len() as int);
    lemma_copy_alike(data, streams);
    lemma_written(file, first);
    assert(named_alike(streams_again)) by {
        assert forall|i: int|
            0 <= i < streams_again.len() && (
            #[trigger] streams_again[i]).1 is Some implies streams_again[i].0@.len() > 0 by {
            let name = streams_again[i].0@;
            assert(after.streams.contains_key(name));
            let j = choose|j: int| 0 < j < first.len() && (#[trigger] first[j]).stream_name == name;
            assert(first[j].stream_name.len() > 0);
        }
    }
    lemma_copy_alike(data_again, streams_again);
    assert forall|entry: BackupStreamEntryModel| second.contains(entry) <==> #[trigger] first.contains(
        entry,
    ) by {
        if second.contains(entry) {
            let k = choose|k: int| 0 <= k < second.len() && second[k] == entry;
            if k == 0 {
                assert(first[0] == entry);
            } else {
                let readable = readable_streams(streams_again, streams_again.len() as int);
                assert(readable[k - 1] == entry);
                assert(copies_one(streams_again, streams_again.len() as int, readable[k - 1]));
                let i = choose|i: int|
                    0 <= i < streams_again.len() && (#[trigger] streams_again[i]).1 is Some
                        && readable[k - 1] == data_entry(
                        streams_again[i].0@,
                        streams_again[i].1->0@,
                    );
                let name = streams_again[i].0@;
                assert(after.streams.contains_key(name));
                let j = choose|j: int|
                    0 < j < first.len() && (#[trigger] first[j]).stream_name == name;
                lemma_entry_form(data, streams, j);
                assert(first[j] =~= entry);
            }
        }
        if first.contains(entry) {
            let k = choose|k: int| 0 <= k < first.len() && first[k] == entry;
            if k == 0 {
                assert(second[0] == entry);
            } else {
                lemma_entry_form(data, streams, k);
                let name = entry.stream_name;
                assert(after.streams.contains_key(name));
                let i = choose|i: int|
                    0 <= i < streams_again.len() && (#[trigger] streams_again[i]).0@ == name;
                let wanted = data_entry(streams_again[i].0@, streams_again[i].1->0@);
                let readable = readable_streams(streams_again, streams_again.len() as int);
                let j = choose|j: int| 0 <= j < readable.len() && readable[j] == wanted;
                assert(second[j + 1] == wanted);
                assert(wanted =~= entry);
            }
        }
    }
    if named_once(streams) && named_once(streams_again) {
        first.unique_seq_to_set();
        second.unique_seq_to_set();
        assert(first.to_set() =~= second.to_set()) by {
            assert forall|entry: BackupStreamEntryModel| first.to_set().contains(entry)
                <==> second.to_set().contains(entry) by {
                assert(first.contains(entry) <==> second.contains(entry));
            }
        }
    }
}

proof fn lemma_entry_form(data: Seq<u8>, streams: Seq<(String, Option<Vec<u8>>)>, k: int)
    requires
        0 < k < copy_read(data, streams).len(),
    ensures
        ({
            let entry = copy_read(data, streams)[k];
            entry == data_entry(entry.stream_name, entry.data)
        }),
{
    let readable = readable_streams(streams, streams.len() as int);
    lemma_readable(streams, streams.len() as int);
    assert(copy_read(data, streams)[k] == readable[k - 1]);
    assert(copies_one(streams, streams.len() as int, readable[k - 1]));
}

/// The directories that a file system has from the start, below its root.
pub open spec fn directory_layout() -> Seq<Seq<char>> {
    seq![
        "drive_c/Windows/System32"@,
        "drive_c/Windows/SysWOW64"@,
        "drive_c/Program Files"@,
        "drive_c/Program Files (x86)"@,
        "drive_c/users/Default/AppData/Roaming"@,
        "drive_c/users/Default/AppData/Local"@,
        "drive_c/users/Default/AppData/LocalLow"@,
        "drive_c/Windows/Temp"@,
        "tmp"@,
        "logs"@,
        "cache/dbt"@,
        "cache/shader"@,
        "cache/pso"@,
        "cache/dxgi"@,
        "cache/http"@,
    ]
}

/// The directories that a file system has from the start, below its root.
pub fn standard_directories() -> (list: Vec<&'static str>)
    ensures
        list.deep_view() == directory_layout(),
{
    let mut list: Vec<&'static str> = Vec::new();
    list.push("drive_c/Windows/System32");
    list.push("drive_c/Windows/SysWOW64");
    list.push("drive_c/Program Files");
    list.push("drive_c/Program Files (x86)");
    list.push("drive_c/users/Default/AppData/Roaming");
    list.push("drive_c/users/Default/AppData/Local");
    list.push("drive_c/users/Default/AppData/LocalLow");
    list.push("drive_c/Windows/Temp");
    list.push("tmp");
    list.push("logs");
    list.push("cache/dbt");
    list.push("cache/shader");
    list.push("cache/pso");
    list.push("cache/dxgi");
    list.push("cache/http");
    assert(list.deep_view() =~= directory_layout());
    list
}

/// Parts, each with a zero behind it.
pub open spec fn zero_ended(parts: Seq<Seq<u8>>) -> Seq<u8>
    decreases parts.len(),
{
    if parts.len() == 0 {
        Seq::empty()
    } else {
        zero_ended(parts.drop_last()) + parts.last() + seq![0u8]
    }
}

/// A part that can be told from what stands around it.
pub open spec fn separable(part: Seq<u8>) -> bool {
    part.len() > 0 && !part.contains(0)
}

/// Parts that were written with a zero behind each are read back.
pub proof fn lemma_separated_again(parts: Seq<Seq<u8>>)
    requires
        forall|i: int| 0 <= i < parts.len() ==> separable(#[trigger] parts[i]),
    ensures
        zero_separated(zero_ended(parts)) == parts,
    decreases parts.len(),
{
    if parts.len() > 0 {
        let front = zero_ended(parts.drop_last());
        lemma_separated_again(parts.drop_last());
        let last = parts.last();
        assert(separable(parts[parts.len() - 1]));
        if parts.len() > 1 {
            assert(front.last() == 0);
        }
        lemma_part_added(front, last);
        let whole = front + last + seq![0u8];
        assert(whole.drop_last() =~= front + last);
        assert(parts.drop_last().push(last) =~= parts);
    }
}

proof fn lemma_part_added(front: Seq<u8>, part: Seq<u8>)
    requires
        front.len() == 0 || front.last() == 0,
        separable(part),
    ensures
        zero_separated(front + part) == zero_separated(front).push(part),
    decreases part.len(),
{
    let whole = front + part;
    assert(part.contains(part.last()));
    assert(whole.last() == part.last());
    if part.len() == 1 {
        assert(whole.drop_last() =~= front);
        assert(seq![part.last()] =~= part);
        if front.len() > 0 {
            assert(whole[whole.len() - 2] == front.last());
        }
    } else {
        let shorter = part.drop_last();
        assert(separable(shorter)) by {
            if shorter.contains(0) {
                let i = choose|i: int| 0 <= i < shorter.len() && shorter[i] == 0;
                assert(part[i] == 0);
            }
        }
        lemma_part_added(front, shorter);
        assert(whole.drop_last() =~= front + shorter);
        assert(whole[whole.len() - 2] == part[part.len() - 2]);
        assert(part.contains(part[part.len() - 2]));
        let before = zero_separated(front).push(shorter);
        assert(before.drop_last() =~= zero_separated(front));
        assert(shorter.push(part.last()) =~= part);
    }
}

/// The attributes that are listed have the names whose bytes were written.
pub proof fn lemma_attribute_names(parts: Seq<Seq<u8>>)
    requires
        forall|i: int|
            0 <= i < parts.len() ==> separable(#[trigger] parts[i]) && valid_utf8(parts[i]),
    ensures
        attribute_names(zero_ended(parts)) == parts.map_values(
            |part: Seq<u8>| decode_utf8(part),
        ),
{
    lemma_separated_again(parts);
    lemma_texts_of(parts, parts.len() as int);
    assert(parts.take(parts.len() as int) =~= parts);
}

proof fn lemma_texts_of(parts: Seq<Seq<u8>>, count: int)
    requires
        0 <= count <= parts.len(),
        forall|i: int| 0 <= i < parts.len() ==> valid_utf8(#[trigger] parts[i]),
    ensures
        texts_of(parts, count) == parts.take(count).map_values(|part: Seq<u8>| decode_utf8(part)),
    decreases count,
{
    let texts = parts.take(count).map_values(|part: Seq<u8>| decode_utf8(part));
    if count > 0 {
        lemma_texts_of(parts, count - 1);
        assert(valid_utf8(parts[count - 1]));
        assert(texts_of(parts, count) =~= texts);
    } else {
        assert(texts_of(parts, count) =~= texts);
    }
}

/// A rest is listed where the prefix with that rest is among the names, and
/// nowhere else: a stream is found where its attribute is there.
pub proof fn lemma_behind_prefix(names: Seq<Seq<char>>, prefix: Seq<char>, rest: Seq<char>)
    ensures
        behind_prefix(names, prefix, names.len() as int).contains(rest) <==> names.contains(
            prefix + rest,
        ),
{
    lemma_behind_prefix_upto(names, prefix, rest, names.len() as int);
    assert(names.take(names.len() as int) =~= names);
}

proof fn lemma_behind_prefix_upto(
    names: Seq<Seq<char>>,
    prefix: Seq<char>,
    rest: Seq<char>,
    count: int,
)
    requires
        0 <= count <= names.len(),
    ensures
        behind_prefix(names, prefix, count).contains(rest) <==> names.take(count).contains(
            prefix + rest,
        ),
    decreases count,
{
    if count > 0 {
        lemma_behind_prefix_upto(names, prefix, rest, count - 1);
        let name = names[count - 1];
        let before = behind_prefix(names, prefix, count - 1);
        let after = behind_prefix(names, prefix, count);
        let few = names.take(count - 1);
        let more = names.take(count);
        assert(more =~= few.push(name));
        lemma_pushed(few, name, prefix + rest);
        if begins_with(name, prefix) {
            lemma_pushed(before, name.skip(prefix.len() as int), rest);
            assert(name.take(prefix.len() as int) =~= prefix);
            assert(name =~= prefix + name.skip(prefix.len() as int));
            assert((prefix + rest).skip(prefix.len() as int) =~= rest);
        } else {
            assert((prefix + rest).take(prefix.len() as int) =~= prefix);
        }
    } else {
        assert(names.take(count).len() == 0);
    }
}

proof fn lemma_pushed<A>(list: Seq<A>, item: A, wanted: A)
    ensures
        list.push(item).contains(wanted) <==> list.contains(wanted) || item == wanted,
{
    if list.contains(wanted) {
        let i = choose|i: int| 0 <= i < list.len() && list[i] == wanted;
        assert(list.push(item)[i] == wanted);
    }
    if item == wanted {
        assert(list.push(item)[list.len() as int] == wanted);
    }
}

/// The data of the file itself is the first entry without a name.
pub proof fn lemma_main_stream(entries: Seq<BackupStreamEntryModel>)
    ensures
        match unnamed_from(entries, 0) {
            Some(entry) => exists|i: int| is_first_unnamed(entries, i) && entries[i] == entry,
            None => forall|i: int|
                0 <= i < entries.len() ==> (#[trigger] entries[i]).stream_name.len() > 0,
        },
{
    lemma_unnamed_from(entries, 0);
}

/// Entry `i` is the first without a name.
pub open spec fn is_first_unnamed(entries: Seq<BackupStreamEntryModel>, i: int) -> bool {
    &&& 0 <= i < entries.len()
    &&& entries[i].stream_name.len() == 0
    &&& forall|j: int| 0 <= j < i ==> (#[trigger] entries[j]).stream_name.len() > 0
}

proof fn lemma_unnamed_from(entries: Seq<BackupStreamEntryModel>, from: int)
    requires
        0 <= from <= entries.len(),
        forall|j: int| 0 <= j < from ==> (#[trigger] entries[j]).stream_name.len() > 0,
    ensures
        match unnamed_from(entries, from) {
            Some(entry) => exists|i: int| is_first_unnamed(entries, i) && entries[i] == entry,
            None => forall|i: int|
                0 <= i < entries.len() ==> (#[trigger] entries[i]).stream_name.len() > 0,
        },
    decreases entries.len() - from,
{
    if from < entries.len() {
        if entries[from].stream_name.len() == 0 {
            assert(is_first_unnamed(entries, from));
        } else {
            lemma_unnamed_from(entries, from + 1);
        }
    }
}

/// A stream whose sidecar lies in the directory is found beside its file.
pub proof fn lemma_stream_beside(
    file_name: Seq<char>,
    stream_name: Seq<char>,
    entries: Seq<Seq<char>>,
)
    requires
        entries.contains(sidecar_name(file_name, stream_name)),
    ensures
        streams_beside(file_name, entries).contains(stream_name),
{
    let prefix = escaped(file_name) + "__"@;
    let name = stream_encoded(stream_name);
    assert(prefix + name =~= sidecar_name(file_name, stream_name));
    lemma_behind_prefix(entries, prefix, name);
    lemma_stream_decoded_encoded(stream_name);
    let rests = behind_prefix(entries, prefix, entries.len() as int);
    let i = choose|i: int| 0 <= i < rests.len() && rests[i] == name;
    assert(streams_beside(file_name, entries)[i] == stream_name);
}

} // verus!
