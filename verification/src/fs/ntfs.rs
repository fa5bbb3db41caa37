//! Paths that name an alternate data stream.
use crate::text::{
    chars_of, find_char, first_of, lemma_first_of_is, lemma_trimmed_part, string_of, trim_text,
    trimmed, trims_to, white_space,
};
use vstd::prelude::*;

verus! {

/// The type of a stream that names none.
pub const ADS_STREAM_TYPE_DATA: &'static str = "$DATA";

/// The stream that says from which zone a file comes.
pub const ADS_ZONE_IDENTIFIER: &'static str = "Zone.Identifier";

/// A stream of a file: the file, the name of the stream, and its type.
#[derive(Debug, Clone, PartialEq, Eq)]
pub struct AlternateStreamName {
    pub file_path: String,
    pub stream_name: String,
    pub stream_type: String,
}

/// The model of [`AlternateStreamName`].
#[verifier::ext_equal]
pub struct AlternateStreamNameModel {
    pub file_path: Seq<char>,
    pub stream_name: Seq<char>,
    pub stream_type: Seq<char>,
}

impl DeepView for AlternateStreamName {
    type V = AlternateStreamNameModel;

    open spec fn deep_view(&self) -> AlternateStreamNameModel {
        AlternateStreamNameModel {
            file_path: self.file_path@,
            stream_name: self.stream_name@,
            stream_type: self.stream_type@,
        }
    }
}

/// An ASCII letter.
pub open spec fn is_letter(c: char) -> bool {
    'a' <= c <= 'z' || 'A' <= c <= 'Z'
}

/// The path begins with `\\?\`.
pub open spec fn is_verbatim(path: Seq<char>) -> bool {
    path.len() >= 4 && path[0] == '\\' && path[1] == '\\' && path[2] == '?' && path[3] == '\\'
}

/// The path begins with `\.\`.
pub open spec fn is_device(path: Seq<char>) -> bool {
    path.len() >= 3 && path[0] == '\\' && path[1] == '.' && path[2] == '\\'
}

/// A colon at `at` belongs to a drive: it follows a single letter, at the
/// beginning of the path or behind the prefix of a verbatim or device path.
pub open spec fn drive_colon(path: Seq<char>, at: int) -> bool {
    &&& at >= 1
    &&& is_letter(path[at - 1])
    &&& at == 1 || is_verbatim(path) && at == 5 || !is_verbatim(path) && is_device(path) && at == 4
}

/// The first position from `from` on of a colon that belongs to no drive; the
/// length of the path where there is none.
pub open spec fn stream_colon(path: Seq<char>, from: int) -> int
    decreases path.len() - from,
{
    if from < 0 || from >= path.len() {
        path.len() as int
    } else if path[from] == ':' && !drive_colon(path, from) {
        from
    } else {
        stream_colon(path, from + 1)
    }
}

/// The name and type in the text behind the colon of a stream. The type is
/// `$DATA` where none is given.
pub open spec fn stream_parts(text: Seq<char>) -> (Seq<char>, Seq<char>) {
    let inner = trimmed(text);
    let colon = first_of(inner, ':');
    if colon >= inner.len() {
        (inner, ADS_STREAM_TYPE_DATA@)
    } else {
        let kind = trimmed(inner.skip(colon + 1));
        (
            trimmed(inner.take(colon)),
            if kind.len() == 0 {
                ADS_STREAM_TYPE_DATA@
            } else {
                kind
            },
        )
    }
}

/// The file that a path names, and the stream if it names one.
pub open spec fn ntfs_path(path: Seq<char>) -> (Seq<char>, Option<AlternateStreamNameModel>) {
    let inner = trimmed(path);
    let colon = stream_colon(inner, 0);
    if colon >= inner.len() {
        (inner, None)
    } else {
        let parts = stream_parts(trimmed(inner.skip(colon + 1)));
        (
            inner.take(colon),
            Some(
                AlternateStreamNameModel {
                    file_path: inner.take(colon),
                    stream_name: parts.0,
                    stream_type: parts.1,
                },
            ),
        )
    }
}

/// Whether a colon at `pos` belongs to a drive.
fn is_drive_letter_colon(path: &[char], pos: usize) -> (drive: bool)
    requires
        pos < path.len(),
    ensures
        drive == drive_colon(path@, pos as int),
{
    if pos == 0 {
        return false;
    }
    let before: char = path[pos - 1];
    let letter: bool = ('a' <= before && before <= 'z') || ('A' <= before && before <= 'Z');
    if !letter {
        return false;
    }
    if pos == 1 {
        return true;
    }
    if path.len() >= 4 && path[0] == '\\' && path[1] == '\\' && path[2] == '?' && path[3] == '\\' {
        return pos == 5;
    }
    path.len() >= 3 && path[0] == '\\' && path[1] == '.' && path[2] == '\\' && pos == 4
}

fn part_of(text: &[char], start: usize, end: usize) -> (part: Vec<char>)
    requires
        start <= end <= text.len(),
    ensures
        part@ == text@.subrange(start as int, end as int),
{
    let mut part: Vec<char> = Vec::new();
    let mut i: usize = start;
    while i < end
        invariant
            start <= i <= end <= text.len(),
            part@ == text@.subrange(start as int, i as int),
        decreases end - i,
    {
        part.push(text[i]);
        assert(part@ =~= text@.subrange(start as int, i + 1));
        i += 1;
    }
    part
}

/// The name and type in the text behind the colon of a stream.
fn parse_stream_spec(spec_text: &[char]) -> (parts: (String, String))
    ensures
        (parts.0@, parts.1@) == stream_parts(spec_text@),
{
    let inner: Vec<char> = trim_text(spec_text);
    let colon: usize = find_char(&inner, ':');
    if colon >= inner.len() {
        return (string_of(&inner), ADS_STREAM_TYPE_DATA.to_owned());
    }
    let name: Vec<char> = trim_text(&part_of(&inner, 0, colon));
    let kind: Vec<char> = trim_text(&part_of(&inner, colon + 1, inner.len()));
    assert(inner@.subrange(0, colon as int) =~= inner@.take(colon as int));
    assert(inner@.subrange(colon + 1, inner@.len() as int) =~= inner@.skip(colon + 1));
    if kind.len() == 0 {
        (string_of(&name), ADS_STREAM_TYPE_DATA.to_owned())
    } else {
        (string_of(&name), string_of(&kind))
    }
}

/// Takes a path apart into the file that it names and the stream, if it names
/// one.
pub fn parse_ntfs_path(path: &str) -> (parts: (String, Option<AlternateStreamName>))
    ensures
        (parts.0@, parts.1.deep_view()) == ntfs_path(path@),
{
    let chars: Vec<char> = chars_of(path);
    let inner: Vec<char> = trim_text(&chars);
    let mut at: usize = 0;
    while at < inner.len() && !(inner[at] == ':' && !is_drive_letter_colon(&inner, at))
        invariant
            at <= inner.len(),
            inner@ == trimmed(path@),
            stream_colon(inner@, 0) == stream_colon(inner@, at as int),
        decreases inner.len() - at,
    {
        at += 1;
    }
    if at >= inner.len() {
        return (string_of(&inner), None);
    }
    let file: Vec<char> = part_of(&inner, 0, at);
    let rest: Vec<char> = trim_text(&part_of(&inner, at + 1, inner.len()));
    assert(inner@.subrange(0, at as int) =~= inner@.take(at as int));
    assert(inner@.subrange(at + 1, inner@.len() as int) =~= inner@.skip(at + 1));
    let stream: (String, String) = parse_stream_spec(&rest);
    let file_path: String = string_of(&file);
    (
        file_path.clone(),
        Some(AlternateStreamName { file_path, stream_name: stream.0, stream_type: stream.1 }),
    )
}

/// Whether a path names a stream.
pub fn is_ads_path(path: &str) -> (names_stream: bool)
    ensures
        names_stream == (ntfs_path(path@).1 is Some),
{
    let parts: (String, Option<AlternateStreamName>) = parse_ntfs_path(path);
    match parts.1 {
        Some(_) => true,
        None => false,
    }
}

/// A text that neither begins nor ends with white space.
pub open spec fn tight(text: Seq<char>) -> bool {
    text.len() > 0 && !white_space(text[0]) && !white_space(text.last())
}

proof fn lemma_tight(text: Seq<char>)
    requires
        tight(text),
    ensures
        trimmed(text) == text,
{
    lemma_trimmed_part(text);
    let (from, to) = choose|from: int, to: int| #[trigger]
        trims_to(text, from, to) && trimmed(text) == text.subrange(from, to);
    if from > 0 {
        assert(white_space(text[0]));
    }
    if to < text.len() {
        assert(white_space(text[text.len() - 1]));
    }
    assert(text.subrange(0, text.len() as int) =~= text);
}

/// A path with a colon, a stream's name and perhaps a colon and a type behind it
/// names that stream of that path; without a type the stream is one of data.
pub proof fn lemma_stream_of_path(path: Seq<char>, stream: Seq<char>, kind: Seq<char>)
    requires
        tight(path),
        ntfs_path(path) == (path, None::<AlternateStreamNameModel>),
        path.len() > 5 || (path.len() > 1 && path[0] != '\\'),
        tight(stream),
        !stream.contains(':'),
        tight(kind),
    ensures
        ntfs_path(path + seq![':'] + stream) == (
            path,
            Some(
                AlternateStreamNameModel {
                    file_path: path,
                    stream_name: stream,
                    stream_type: "$DATA"@,
                },
            ),
        ),
        ntfs_path(path + seq![':'] + (stream + seq![':'] + kind)) == (
            path,
            Some(
                AlternateStreamNameModel { file_path: path, stream_name: stream, stream_type: kind },
            ),
        ),
{
    let both = stream + seq![':'] + kind;
    assert(both[0] == stream[0]);
    assert(both.last() == kind.last());
    lemma_tight(stream);
    lemma_tight(kind);
    lemma_tight(both);
    lemma_stream_split(path, stream);
    lemma_stream_split(path, both);
    assert forall|i: int| 0 <= i < stream.len() implies stream[i] != ':' by {
        assert(stream.contains(stream[i]));
    }
    lemma_first_of_is(stream, ':', stream.len() as int);
    assert forall|i: int| 0 <= i < stream.len() implies both[i] != ':' by {
        assert(stream.contains(stream[i]));
    }
    lemma_first_of_is(both, ':', stream.len() as int);
    assert(both.take(stream.len() as int) =~= stream);
    assert(both.skip(stream.len() as int + 1) =~= kind);
}

proof fn lemma_stream_split(path: Seq<char>, rest: Seq<char>)
    requires
        tight(path),
        ntfs_path(path) == (path, None::<AlternateStreamNameModel>),
        path.len() > 5 || (path.len() > 1 && path[0] != '\\'),
        tight(rest),
    ensures
        ntfs_path(path + seq![':'] + rest) == (
            path,
            Some(
                AlternateStreamNameModel {
                    file_path: path,
                    stream_name: stream_parts(rest).0,
                    stream_type: stream_parts(rest).1,
                },
            ),
        ),
{
    let whole = path + seq![':'] + rest;
    assert(whole[0] == path[0]);
    assert(whole.last() == rest.last());
    lemma_tight(path);
    lemma_tight(whole);
    lemma_tight(rest);
    lemma_no_stream_colon(path, 0);
    assert forall|i: int| 0 <= i < path.len() implies !(#[trigger] whole[i] == ':' && !drive_colon(
        whole,
        i,
    )) by {
        assert(whole[i] == path[i]);
        assert(!(path[i] == ':' && !drive_colon(path, i)));
        if path[i] == ':' {
            assert(drive_colon(path, i));
            assert(whole[i - 1] == path[i - 1]);
            if path.len() > 5 {
                assert(whole[1] == path[1] && whole[2] == path[2] && whole[3] == path[3]);
            }
        }
    }
    assert(whole[path.len() as int] == ':');
    assert(!drive_colon(whole, path.len() as int));
    lemma_stream_colon_at(whole, 0, path.len() as int);
    assert(whole.take(path.len() as int) =~= path);
    assert(whole.skip(path.len() as int + 1) =~= rest);
}

proof fn lemma_no_stream_colon(path: Seq<char>, from: int)
    requires
        0 <= from <= path.len(),
        stream_colon(path, from) >= path.len(),
    ensures
        forall|i: int| from <= i < path.len() ==> !(#[trigger] path[i] == ':' && !drive_colon(path, i)),
    decreases path.len() - from,
{
    if from < path.len() {
        lemma_no_stream_colon(path, from + 1);
    }
}

proof fn lemma_stream_colon_at(path: Seq<char>, from: int, at: int)
    requires
        0 <= from <= at < path.len(),
        forall|i: int| from <= i < at ==> !(#[trigger] path[i] == ':' && !drive_colon(path, i)),
        path[at] == ':',
        !drive_colon(path, at),
    ensures
        stream_colon(path, from) == at,
    decreases at - from,
{
    if from < at {
        assert(!(path[from] == ':' && !drive_colon(path, from)));
        lemma_stream_colon_at(path, from + 1, at);
    }
}

/// The colon behind the letter of a drive begins no stream.
pub proof fn lemma_drive_is_no_stream(letter: char, rest: Seq<char>)
    requires
        'a' <= letter <= 'z' || 'A' <= letter <= 'Z',
        rest.len() > 0,
        !white_space(rest.last()),
        !rest.contains(':'),
    ensures
        ntfs_path(seq![letter, ':'] + rest) == (
            seq![letter, ':'] + rest,
            None::<AlternateStreamNameModel>,
        ),
{
    let whole = seq![letter, ':'] + rest;
    assert(whole[0] == letter && whole[1] == ':');
    assert(whole.last() == rest.last());
    lemma_tight(whole);
    assert forall|i: int| 0 <= i < whole.len() implies !(#[trigger] whole[i] == ':' && !drive_colon(
        whole,
        i,
    )) by {
        if i >= 2 {
            assert(rest.contains(rest[i - 2]));
            assert(whole[i] == rest[i - 2]);
        }
    }
    lemma_stream_colon_none(whole, 0);
}

proof fn lemma_stream_colon_none(path: Seq<char>, from: int)
    requires
        0 <= from <= path.len(),
        forall|i: int| from <= i < path.len() ==> !(#[trigger] path[i] == ':' && !drive_colon(path, i)),
    ensures
        stream_colon(path, from) == path.len(),
    decreases path.len() - from,
{
    if from < path.len() {
        assert(!(path[from] == ':' && !drive_colon(path, from)));
        lemma_stream_colon_none(path, from + 1);
    }
}

} // verus!
