//! Where Windows paths lead on the host.
use crate::error::{agrees, AppError, AppResult, ReasonCode};
use crate::fs::containment::{contained, verify_within_root, PathFacts};
use crate::fs::pieces::{
    all_clean, clean_piece, lemma_clean_kept, lemma_normalized_path, lemma_pieces_apart,
    lemma_pieces_of_rest, lemma_pieces_whole, lemma_rejoined_front, lemma_rejoined_pieces,
    normalize_windows_path, normalized_path, pieces, rejoined, separator, split_pieces,
    whole_piece,
};
use crate::names::NameMap;
use crate::text::{
    all_ascii, begins_with, chars_of, find_char, first_of, has_prefix, lemma_first_of,
    lemma_first_of_is, lower_text, lowercase_of, push_text, same_text, string_of, surrounded,
    upper, upper_char, upper_text, uppercase_of,
};
use vstd::prelude::*;

verus! {

// ---------------------------------------------------------------------------
// Drives
// ---------------------------------------------------------------------------

/// The text without the separators that it begins with.
pub open spec fn without_leading(text: Seq<char>, back_too: bool) -> Seq<char>
    decreases text.len(),
{
    if text.len() > 0 && (text[0] == '/' || back_too && text[0] == '\\') {
        without_leading(text.drop_first(), back_too)
    } else {
        text
    }
}

fn strip_leading(text: &[char], back_too: bool) -> (rest: Vec<char>)
    ensures
        rest@ == without_leading(text@, back_too),
{
    let mut start: usize = 0;
    assert(text@.skip(0) =~= text@);
    while start < text.len() && (text[start] == '/' || (back_too && text[start] == '\\'))
        invariant
            start <= text.len(),
            without_leading(text@, back_too) == without_leading(
                text@.skip(start as int),
                back_too,
            ),
        decreases text.len() - start,
    {
        assert(text@.skip(start as int).drop_first() =~= text@.skip(start + 1));
        start += 1;
    }
    rest_of(text, start)
}

fn rest_of(text: &[char], start: usize) -> (rest: Vec<char>)
    requires
        start <= text.len(),
    ensures
        rest@ == text@.skip(start as int),
{
    let mut rest: Vec<char> = Vec::new();
    let mut i: usize = start;
    while i < text.len()
        invariant
            start <= i <= text.len(),
            rest@ == text@.subrange(start as int, i as int),
        decreases text.len() - i,
    {
        rest.push(text[i]);
        assert(rest@ =~= text@.subrange(start as int, i + 1));
        i += 1;
    }
    assert(rest@ =~= text@.skip(start as int));
    rest
}

/// The drive that a path names, in upper case, and the path on it. Paths of
/// other machines are on a drive `UNC`, devices on a drive `DEV`, and a path
/// that names no drive is on `C`.
pub open spec fn drive_of(path: Seq<char>) -> (Seq<char>, Seq<char>)
    decreases path.len(),
{
    if begins_with(path, "\\\\?\\"@) && "\\\\?\\"@.len() > 0 {
        let rest = path.skip("\\\\?\\"@.len() as int);
        if begins_with(rest, "UNC\\"@) {
            ("UNC"@, rest.skip("UNC\\"@.len() as int))
        } else {
            drive_of(rest)
        }
    } else if begins_with(path, "\\\\."@) {
        ("DEV"@, path.skip("\\\\."@.len() as int))
    } else if first_of(path, ':') < path.len() {
        (
            upper_text(path.take(first_of(path, ':'))),
            without_leading(path.skip(first_of(path, ':') + 1), true),
        )
    } else {
        ("C"@, path)
    }
}

/// The drive that a path names, and the path on it.
pub fn split_drive(path: &str) -> (outcome: AppResult<(String, String)>)
    ensures
        outcome matches Ok(parts) && (parts.0@, parts.1@) == drive_of(path@),
    decreases path@.len(),
{
    let chars: Vec<char> = chars_of(path);
    proof {
        reveal_strlit("\\\\?\\");
        reveal_strlit("UNC\\");
        reveal_strlit("\\\\.");
    }
    if has_prefix(path, "\\\\?\\") {
        let rest: String = string_of(&rest_of(&chars, 4));
        if has_prefix(&rest, "UNC\\") {
            let rest_chars: Vec<char> = chars_of(&rest);
            return Ok(("UNC".to_owned(), string_of(&rest_of(&rest_chars, 4))));
        }
        return split_drive(&rest);
    }
    if has_prefix(path, "\\\\.") {
        return Ok(("DEV".to_owned(), string_of(&rest_of(&chars, 3))));
    }
    let colon: usize = find_char(&chars, ':');
    if colon < chars.len() {
        let mut letters: Vec<char> = chars_of(path);
        letters.truncate(colon);
        assert(letters@ =~= path@.take(colon as int));
        let drive: String = uppercase_of(&string_of(&letters));
        let rest: Vec<char> = strip_leading(&rest_of(&chars, colon + 1), true);
        return Ok((drive, string_of(&rest)));
    }
    Ok(("C".to_owned(), path.to_owned()))
}

/// A drive and the directory that stands for it.
#[derive(Debug, Clone, PartialEq, Eq)]
pub struct DriveMapping {
    pub letter: String,
    pub directory: String,
}

/// The model of [`DriveMapping`].
#[verifier::ext_equal]
pub struct DriveMappingModel {
    pub letter: Seq<char>,
    pub directory: Seq<char>,
}

impl DeepView for DriveMapping {
    type V = DriveMappingModel;

    open spec fn deep_view(&self) -> DriveMappingModel {
        DriveMappingModel { letter: self.letter@, directory: self.directory@ }
    }
}

/// The place of a drive in the list; its length where it is not there.
pub open spec fn drive_place(drives: Seq<DriveMappingModel>, letter: Seq<char>, from: int) -> int
    decreases drives.len() - from,
{
    if from < 0 || from >= drives.len() {
        drives.len() as int
    } else if drives[from].letter == letter {
        from
    } else {
        drive_place(drives, letter, from + 1)
    }
}

/// The directory that stands for a drive.
pub open spec fn directory_of(drives: Seq<DriveMappingModel>, letter: Seq<char>) -> Option<Seq<char>> {
    let place = drive_place(drives, letter, 0);
    if place < drives.len() {
        Some(drives[place].directory)
    } else {
        None
    }
}

/// The list with a directory for a drive, in place of the one it had.
pub open spec fn with_drive(
    drives: Seq<DriveMappingModel>,
    letter: Seq<char>,
    directory: Seq<char>,
) -> Seq<DriveMappingModel> {
    let place = drive_place(drives, letter, 0);
    let drive = DriveMappingModel { letter, directory };
    if place < drives.len() {
        drives.update(place, drive)
    } else {
        drives.push(drive)
    }
}

// ---------------------------------------------------------------------------
// Host paths
// ---------------------------------------------------------------------------

/// The path of `name` in a directory. A name that is itself absolute stands
/// alone.
pub open spec fn path_in(directory: Seq<char>, name: Seq<char>) -> Seq<char> {
    if directory.len() == 0 || name.len() > 0 && name[0] == '/' {
        name
    } else if directory.last() == '/' {
        directory + name
    } else {
        directory.push('/') + name
    }
}

/// The path of `name` in a directory.
pub fn join_path(directory: &str, name: &str) -> (path: String)
    ensures
        path@ == path_in(directory@, name@),
{
    let directory_chars: Vec<char> = chars_of(directory);
    let name_chars: Vec<char> = chars_of(name);
    if directory_chars.len() == 0 || (name_chars.len() > 0 && name_chars[0] == '/') {
        return name.to_owned();
    }
    let mut path: String = directory.to_owned();
    if directory_chars[directory_chars.len() - 1] != '/' {
        path.push('/');
    }
    push_text(&mut path, name);
    path
}

/// A path is that of a directory or of something in it: it begins with the
/// path of the directory, which ends where a name ends.
pub open spec fn lies_in(path: Seq<char>, directory: Seq<char>) -> bool {
    &&& begins_with(path, directory)
    &&& if directory.len() == 0 {
        path.len() == 0 || path[0] != '/'
    } else {
        ||| directory.last() == '/'
        ||| path.len() == directory.len()
        ||| path[directory.len() as int] == '/'
    }
}

fn is_in(path: &str, directory: &str) -> (inside: bool)
    ensures
        inside == lies_in(path@, directory@),
{
    if !has_prefix(path, directory) {
        return false;
    }
    let chars: Vec<char> = chars_of(path);
    let start: Vec<char> = chars_of(directory);
    if start.len() == 0 {
        return chars.len() == 0 || chars[0] != '/';
    }
    start[start.len() - 1] == '/' || chars.len() == start.len() || chars[start.len()] == '/'
}

/// The last of the first `count` entries whose name is `wanted` in lower case.
pub open spec fn last_alike(entries: Seq<Seq<char>>, wanted: Seq<char>, count: int) -> Option<
    Seq<char>,
>
    decreases count,
{
    if count <= 0 {
        None
    } else if lower_text(entries[count - 1]) == wanted {
        Some(entries[count - 1])
    } else {
        last_alike(entries, wanted, count - 1)
    }
}

/// The name that a piece of a path has on the host: its own where that exists,
/// else that of an entry of the directory that differs only in case, else its
/// own again.
pub open spec fn host_name(piece: Seq<char>, exists_so: bool, entries: Seq<Seq<char>>) -> Seq<char> {
    if exists_so {
        piece
    } else {
        match last_alike(entries, lower_text(piece), entries.len() as int) {
            Some(name) => name,
            None => piece,
        }
    }
}

/// The entry whose name in lower case is `wanted`, the last of several.
pub fn find_alike(small_names: &Vec<String>, wanted: &str) -> (place: Option<usize>)
    ensures
        match place {
            Some(at) => {
                &&& at < small_names.len()
                &&& small_names@[at as int]@ == wanted@
                &&& forall|k: int|
                    at < k < small_names.len() ==> (#[trigger] small_names@[k])@ != wanted@
            },
            None => forall|k: int|
                0 <= k < small_names.len() ==> (#[trigger] small_names@[k])@ != wanted@,
        },
{
    let mut left: usize = small_names.len();
    while left > 0
        invariant
            left <= small_names.len(),
            forall|k: int|
                left <= k < small_names.len() ==> (#[trigger] small_names@[k])@ != wanted@,
        decreases left,
    {
        if same_text(&small_names[left - 1], wanted) {
            return Some(left - 1);
        }
        left -= 1;
    }
    None
}

proof fn lemma_last_alike(entries: Seq<Seq<char>>, wanted: Seq<char>, at: int, count: int)
    requires
        -1 <= at < count <= entries.len(),
        at >= 0 ==> lower_text(entries[at]) == wanted,
        forall|k: int| at < k < count ==> lower_text(#[trigger] entries[k]) != wanted,
    ensures
        last_alike(entries, wanted, count) == (if at >= 0 {
            Some(entries[at])
        } else {
            None
        }),
    decreases count,
{
    reveal_with_fuel(last_alike, 2);
    if at < count - 1 {
        assert(lower_text(entries[count - 1]) != wanted);
        if count > 1 {
            lemma_last_alike(entries, wanted, at, count - 1);
        }
    }
}

fn choose_name(piece: &str, exists_so: bool, entries: &Vec<String>) -> (name: String)
    ensures
        name@ == host_name(piece@, exists_so, entries.deep_view()),
{
    if exists_so {
        return piece.to_owned();
    }
    let ghost all = entries.deep_view();
    let wanted: String = lowercase_of(piece);
    let mut small: Vec<String> = Vec::new();
    let mut i: usize = 0;
    while i < entries.len()
        invariant
            i <= entries.len(),
            all == entries.deep_view(),
            small.len() == i,
            forall|k: int| 0 <= k < i ==> (#[trigger] small@[k])@ == lower_text(all[k]),
        decreases entries.len() - i,
    {
        assert(all[i as int] == entries@[i as int]@);
        small.push(lowercase_of(&entries[i]));
        i += 1;
    }
    match find_alike(&small, &wanted) {
        Some(at) => {
            proof {
                assert forall|k: int| at < k < all.len() implies lower_text(#[trigger] all[k])
                    != wanted@ by {
                    assert(small@[k]@ != wanted@);
                }
                lemma_last_alike(all, wanted@, at as int, all.len() as int);
            }
            entries[at].clone()
        },
        None => {
            proof {
                assert forall|k: int| -1 < k < all.len() implies lower_text(#[trigger] all[k])
                    != wanted@ by {
                    assert(small@[k]@ != wanted@);
                }
                if all.len() > 0 {
                    lemma_last_alike(all, wanted@, -1, all.len() as int);
                }
            }
            piece.to_owned()
        },
    }
}

// ---------------------------------------------------------------------------
// Resolution
// ---------------------------------------------------------------------------

/// A path that is being resolved: as far as it is known on the host, and the
/// pieces that are still to be looked up.
#[derive(Debug)]
pub struct Resolution {
    path: String,
    pending: Vec<String>,
    next: usize,
}

/// The model of [`Resolution`].
#[verifier::ext_equal]
pub struct ResolutionModel {
    pub path: Seq<char>,
    pub pending: Seq<Seq<char>>,
}

impl View for Resolution {
    type V = ResolutionModel;

    closed spec fn view(&self) -> ResolutionModel {
        ResolutionModel {
            path: self.path@,
            pending: self.pending.deep_view().skip(self.next as int),
        }
    }
}

impl Resolution {
    #[verifier::type_invariant]
    spec fn inside(&self) -> bool {
        self.next <= self.pending.len()
    }

    /// The path as far as it is known.
    pub fn path(&self) -> (path: &str)
        ensures
            path@ == self@.path,
    {
        self.path.as_str()
    }

    /// The piece to be looked up in the directory that the path names.
    pub fn next_piece(&self) -> (piece: Option<&str>)
        ensures
            match piece {
                Some(text) => self@.pending.len() > 0 && text@ == self@.pending[0],
                None => self@.pending.len() == 0,
            },
    {
        proof {
            use_type_invariant(self);
        }
        if self.next < self.pending.len() {
            assert(self@.pending[0] == self.pending@[self.next as int]@);
            Some(self.pending[self.next].as_str())
        } else {
            None
        }
    }

    /// Takes the next piece: says whether the directory holds it under its own
    /// name, and what else it holds.
    pub fn advance(self, exists_so: bool, entries: &Vec<String>) -> (next: Resolution)
        requires
            self@.pending.len() > 0,
        ensures
            next@ == (ResolutionModel {
                path: path_in(
                    self@.path,
                    host_name(self@.pending[0], exists_so, entries.deep_view()),
                ),
                pending: self@.pending.drop_first(),
            }),
    {
        proof {
            use_type_invariant(&self);
        }
        let ghost pending = self@.pending;
        assert(pending[0] == self.pending@[self.next as int]@);
        let name: String = choose_name(&self.pending[self.next], exists_so, entries);
        let path: String = join_path(&self.path, &name);
        let next: usize = self.next + 1;
        let resolution = Resolution { path, pending: self.pending, next };
        assert(resolution@.pending =~= pending.drop_first());
        resolution
    }

    /// The path, once all its pieces have been taken, if it cannot lead out of
    /// the root. The chain holds what the host says of the path itself and
    /// then of the directories above it.
    pub fn finish(self, root_exists: bool, chain: &[PathFacts]) -> (outcome: AppResult<String>)
        requires
            self@.pending.len() == 0,
        ensures
            match outcome {
                Ok(path) => contained(root_exists, chain@) && path@ == self@.path,
                Err(error) => !contained(root_exists, chain@) && error.code
                    == ReasonCode::RcFsSandboxEscape,
            },
    {
        match verify_within_root(&self.path, root_exists, chain) {
            Ok(()) => Ok(self.path),
            Err(error) => Err(error),
        }
    }
}

/// The entries of a directory, of those that are known.
pub open spec fn entries_of(
    directories: Map<Seq<char>, Vec<String>>,
    path: Seq<char>,
) -> Seq<Seq<char>> {
    if directories.contains_key(path) {
        directories[path].deep_view()
    } else {
        Seq::empty()
    }
}

/// Where the pieces lead from `path` on.
pub open spec fn led_to(
    directories: Map<Seq<char>, Vec<String>>,
    path: Seq<char>,
    pending: Seq<Seq<char>>,
) -> Seq<char>
    decreases pending.len(),
{
    if pending.len() == 0 {
        path
    } else {
        let entries = entries_of(directories, path);
        led_to(
            directories,
            path_in(path, host_name(pending[0], entries.contains(pending[0]), entries)),
            pending.drop_first(),
        )
    }
}

/// Maps Windows paths to paths below a root directory of the host.
#[derive(Debug)]
pub struct WindowsPathResolver {
    ge_root: String,
    drives: Vec<DriveMapping>,
}

/// The model of [`WindowsPathResolver`].
#[verifier::ext_equal]
pub struct ResolverModel {
    pub root: Seq<char>,
    pub drives: Seq<DriveMappingModel>,
}

impl View for WindowsPathResolver {
    type V = ResolverModel;

    closed spec fn view(&self) -> ResolverModel {
        ResolverModel { root: self.ge_root@, drives: self.drives.deep_view() }
    }
}

impl ResolverModel {
    /// Where the resolution of a path begins, and what is to be looked up;
    /// nothing where its drive has no directory.
    pub open spec fn started(self, path: Seq<char>) -> Option<ResolutionModel> {
        let (drive, rest) = drive_of(normalized_path(path));
        match directory_of(self.drives, drive) {
            None => None,
            Some(directory) => Some(
                ResolutionModel { path: path_in(self.root, directory), pending: pieces(rest) },
            ),
        }
    }

    /// The path on the host, by what the known directories hold.
    pub open spec fn resolved(
        self,
        path: Seq<char>,
        directories: Map<Seq<char>, Vec<String>>,
    ) -> Option<Seq<char>> {
        match self.started(path) {
            None => None,
            Some(start) => Some(led_to(directories, start.path, start.pending)),
        }
    }

    /// A path in the root, seen from there.
    pub open spec fn from_root(self, path: Seq<char>) -> Seq<char> {
        without_leading(path.skip(self.root.len() as int), false)
    }

    /// The Windows path of a path on the host: on the first drive in whose
    /// directory it lies.
    pub open spec fn windows_path(self, path: Seq<char>) -> Option<Seq<char>> {
        if lies_in(path, self.root) {
            windows_path_on(self.drives, self.from_root(path), 0)
        } else {
            None
        }
    }
}

/// The text with backslashes for slashes.
pub open spec fn with_backslashes(text: Seq<char>) -> Seq<char> {
    text.map_values(
        |c: char|
            if c == '/' {
                '\\'
            } else {
                c
            },
    )
}

/// The Windows path of a path below the root, on the first of the drives from
/// `from` on in whose directory it lies.
pub open spec fn windows_path_on(drives: Seq<DriveMappingModel>, path: Seq<char>, from: int) -> Option<
    Seq<char>,
>
    decreases drives.len() - from,
{
    if from < 0 || from >= drives.len() {
        None
    } else if lies_in(path, drives[from].directory) {
        Some(
            drives[from].letter + ":\\"@ + with_backslashes(
                without_leading(path.skip(drives[from].directory.len() as int), false),
            ),
        )
    } else {
        windows_path_on(drives, path, from + 1)
    }
}

fn push_with_backslashes(text: &mut String, tail: &Vec<char>)
    ensures
        final(text)@ == old(text)@ + with_backslashes(tail@),
{
    let ghost before = text@;
    let ghost all = with_backslashes(tail@);
    let mut i: usize = 0;
    assert(before + all.take(0) =~= before);
    while i < tail.len()
        invariant
            i <= tail.len(),
            all == with_backslashes(tail@),
            text@ == before + all.take(i as int),
        decreases tail.len() - i,
    {
        text.push(
            if tail[i] == '/' {
                '\\'
            } else {
                tail[i]
            },
        );
        assert(text@ =~= before + all.take(i + 1));
        i += 1;
    }
    assert(all.take(i as int) =~= all);
}

fn holds_name(entries: &Vec<String>, name: &str) -> (found: bool)
    ensures
        found == entries.deep_view().contains(name@),
{
    let ghost all = entries.deep_view();
    let mut i: usize = 0;
    while i < entries.len()
        invariant
            i <= entries.len(),
            all == entries.deep_view(),
            forall|k: int| 0 <= k < i ==> #[trigger] all[k] != name@,
        decreases entries.len() - i,
    {
        assert(all[i as int] == entries@[i as int]@);
        if same_text(&entries[i], name) {
            assert(all.contains(name@));
            return true;
        }
        i += 1;
    }
    false
}

impl WindowsPathResolver {
    /// A resolver with the drives `C` and `Z`.
    pub fn new(ge_root: &str) -> (resolver: Self)
        ensures
            resolver@ == (ResolverModel {
                root: ge_root@,
                drives: seq![
                    DriveMappingModel { letter: "C"@, directory: "drive_c"@ },
                    DriveMappingModel { letter: "Z"@, directory: "drive_z"@ },
                ],
            }),
            drives_apart(resolver@.drives),
            drives_named(resolver@.drives),
    {
        proof {
            reveal_strlit("C");
            reveal_strlit("Z");
            reveal_strlit("drive_c");
            reveal_strlit("drive_z");
            assert(upper("C"@) =~= "C"@);
            assert(upper("Z"@) =~= "Z"@);
            assert("drive_c"@[6] != "drive_z"@[6]);
            assert("C"@[0] != "Z"@[0]);
            assert("drive_c"@.take(7) =~= "drive_c"@);
            assert("drive_z"@.take(7) =~= "drive_z"@);
        }
        let mut drives: Vec<DriveMapping> = Vec::new();
        drives.push(DriveMapping { letter: "C".to_owned(), directory: "drive_c".to_owned() });
        drives.push(DriveMapping { letter: "Z".to_owned(), directory: "drive_z".to_owned() });
        assert(drives.deep_view() =~= seq![
            DriveMappingModel { letter: "C"@, directory: "drive_c"@ },
            DriveMappingModel { letter: "Z"@, directory: "drive_z"@ },
        ]);
        WindowsPathResolver { ge_root: ge_root.to_owned(), drives }
    }

    fn find_drive(&self, letter: &str) -> (place: usize)
        ensures
            place == drive_place(self@.drives, letter@, 0),
            place <= self.drives.len(),
    {
        let ghost all = self@.drives;
        let mut i: usize = 0;
        while i < self.drives.len()
            invariant
                i <= self.drives.len(),
                all == self@.drives,
                drive_place(all, letter@, 0) == drive_place(all, letter@, i as int),
            decreases self.drives.len() - i,
        {
            assert(all[i as int] == self.drives@[i as int].deep_view());
            if same_text(&self.drives[i].letter, letter) {
                return i;
            }
            i += 1;
        }
        i
    }

    /// Lets a directory below the root stand for a drive.
    pub fn add_drive_mapping(&mut self, drive_letter: &str, subdirectory: &str)
        ensures
            final(self)@ == (ResolverModel {
                root: old(self)@.root,
                drives: with_drive(
                    old(self)@.drives,
                    upper_text(drive_letter@),
                    subdirectory@,
                ),
            }),
    {
        let letter: String = uppercase_of(drive_letter);
        self.map_drive(letter, subdirectory);
    }

    /// Lets a directory below the root stand for the drive of this name.
    pub fn map_drive(&mut self, letter: String, subdirectory: &str)
        ensures
            final(self)@ == (ResolverModel {
                root: old(self)@.root,
                drives: with_drive(old(self)@.drives, letter@, subdirectory@),
            }),
    {
        let ghost before = self@.drives;
        let place: usize = self.find_drive(&letter);
        let drive = DriveMapping { letter, directory: subdirectory.to_owned() };
        if place < self.drives.len() {
            self.drives.set(place, drive);
            assert(self@.drives =~= before.update(place as int, drive.deep_view()));
        } else {
            self.drives.push(drive);
            assert(self@.drives =~= before.push(drive.deep_view()));
        }
    }

    /// Begins the resolution of a path.
    pub fn start(&self, windows_path: &str) -> (outcome: AppResult<Resolution>)
        ensures
            match outcome {
                Ok(resolution) => self@.started(windows_path@) == Some(resolution@),
                Err(error) => self@.started(windows_path@) is None && error.code
                    == ReasonCode::RcCliInvalid,
            },
    {
        let normal: String = normalize_windows_path(windows_path);
        let parts: (String, String) = match split_drive(&normal) {
            Ok(parts) => parts,
            Err(error) => {
                return Err(error);
            },
        };
        let place: usize = self.find_drive(&parts.0);
        if place >= self.drives.len() {
            let mut message: String = surrounded("unknown drive letter ", &parts.0, ": in path ");
            push_text(&mut message, windows_path);
            return Err(AppError::new(ReasonCode::RcCliInvalid, &message));
        }
        assert(self@.drives[place as int] == self.drives@[place as int].deep_view());
        let path: String = join_path(&self.ge_root, &self.drives[place].directory);
        let pending: Vec<String> = split_pieces(&parts.1);
        let resolution = Resolution { path, pending, next: 0 };
        assert(resolution@.pending =~= pending.deep_view());
        Ok(resolution)
    }

    /// The path on the host, by what the known directories hold. A name counts
    /// as it is written where the directory holds it so, else by any entry that
    /// differs in case alone; one that is not there is taken as it is written.
    pub fn resolve(&self, windows_path: &str, directories: &NameMap<Vec<String>>) -> (outcome: AppResult<
        String,
    >)
        ensures
            agrees(
                outcome,
                ReasonCode::RcCliInvalid,
                self@.resolved(windows_path@, directories@),
            ),
    {
        let mut resolution: Resolution = match self.start(windows_path) {
            Ok(resolution) => resolution,
            Err(error) => {
                return Err(error);
            },
        };
        let none: Vec<String> = Vec::new();
        assert(none.deep_view() =~= Seq::<Seq<char>>::empty());
        let ghost expected = self@.resolved(windows_path@, directories@);
        loop
            invariant
                none.deep_view() == Seq::<Seq<char>>::empty(),
                expected == self@.resolved(windows_path@, directories@),
                expected == Some(
                    led_to(directories@, resolution@.path, resolution@.pending),
                ),
            decreases resolution@.pending.len(),
        {
            let exists_so: bool = match resolution.next_piece() {
                None => {
                    return Ok(resolution.path().to_owned());
                },
                Some(piece) => match directories.get(resolution.path()) {
                    Some(entries) => holds_name(entries, piece),
                    None => false,
                },
            };
            let path: String = resolution.path().to_owned();
            resolution = match directories.get(&path) {
                Some(entries) => resolution.advance(exists_so, entries),
                None => resolution.advance(exists_so, &none),
            };
        }
    }

    /// The root directory.
    pub fn ge_root(&self) -> (root: &str)
        ensures
            root@ == self@.root,
    {
        self.ge_root.as_str()
    }

    /// The Windows path of a path on the host, where it lies in the directory
    /// of a drive.
    pub fn to_windows_path(&self, real_path: &str) -> (path: Option<String>)
        ensures
            path.deep_view() == self@.windows_path(real_path@),
    {
        if !is_in(real_path, &self.ge_root) {
            return None;
        }
        let chars: Vec<char> = chars_of(real_path);
        let root: Vec<char> = chars_of(&self.ge_root);
        let rest: Vec<char> = strip_leading(&rest_of(&chars, root.len()), false);
        let relative: String = string_of(&rest);
        let ghost all = self@.drives;
        let mut i: usize = 0;
        while i < self.drives.len()
            invariant
                i <= self.drives.len(),
                all == self@.drives,
                rest@ == relative@,
                self@.windows_path(real_path@) == windows_path_on(all, relative@, i as int),
            decreases self.drives.len() - i,
        {
            let drive: &DriveMapping = &self.drives[i];
            assert(all[i as int] == drive.deep_view());
            if is_in(&relative, &drive.directory) {
                let directory: Vec<char> = chars_of(&drive.directory);
                let tail: Vec<char> = strip_leading(&rest_of(&rest, directory.len()), false);
                let mut path: String = drive.letter.clone();
                push_text(&mut path, ":\\");
                push_with_backslashes(&mut path, &tail);
                return Some(path);
            }
            i += 1;
        }
        None
    }
}

// ---------------------------------------------------------------------------
// Where resolution leads
// ---------------------------------------------------------------------------

/// A name that a directory of the host can hold.
pub open spec fn entry_name(name: Seq<char>) -> bool {
    name.len() > 0 && !name.contains('/') && name != "."@ && name != ".."@
}

/// All of them are names that a directory can hold.
pub open spec fn all_entry_names(names: Seq<Seq<char>>) -> bool {
    forall|i: int| 0 <= i < names.len() ==> entry_name(#[trigger] names[i])
}

/// The path from a directory down by the given names.
pub open spec fn below(directory: Seq<char>, names: Seq<Seq<char>>) -> Seq<char>
    decreases names.len(),
{
    if names.len() == 0 {
        directory
    } else {
        below(path_in(directory, names[0]), names.drop_first())
    }
}

/// The names by which the pieces lead from `path` on.
pub open spec fn names_met(
    directories: Map<Seq<char>, Vec<String>>,
    path: Seq<char>,
    pending: Seq<Seq<char>>,
) -> Seq<Seq<char>>
    decreases pending.len(),
{
    if pending.len() == 0 {
        Seq::empty()
    } else {
        let entries = entries_of(directories, path);
        let name = host_name(pending[0], entries.contains(pending[0]), entries);
        seq![name] + names_met(directories, path_in(path, name), pending.drop_first())
    }
}

proof fn lemma_alike_is_entry(entries: Seq<Seq<char>>, wanted: Seq<char>, count: int)
    requires
        0 <= count <= entries.len(),
    ensures
        last_alike(entries, wanted, count) matches Some(name) ==> entries.contains(name),
    decreases count,
{
    if count > 0 {
        assert(entries.contains(entries[count - 1]));
        lemma_alike_is_entry(entries, wanted, count - 1);
    }
}

proof fn lemma_led_below(
    directories: Map<Seq<char>, Vec<String>>,
    path: Seq<char>,
    pending: Seq<Seq<char>>,
)
    requires
        all_entry_names(pending),
        forall|directory: Seq<char>| #[trigger]
            directories.contains_key(directory) ==> all_entry_names(
                directories[directory].deep_view(),
            ),
    ensures
        led_to(directories, path, pending) == below(path, names_met(directories, path, pending)),
        all_entry_names(names_met(directories, path, pending)),
        names_met(directories, path, pending).len() == pending.len(),
    decreases pending.len(),
{
    if pending.len() > 0 {
        let entries = entries_of(directories, path);
        let name = host_name(pending[0], entries.contains(pending[0]), entries);
        let next = path_in(path, name);
        assert(entry_name(pending[0]));
        assert(entry_name(name)) by {
            lemma_alike_is_entry(entries, lower_text(pending[0]), entries.len() as int);
            if name != pending[0] {
                let k = choose|k: int| 0 <= k < entries.len() && entries[k] == name;
                assert(entry_name(entries[k]));
            }
        }
        assert forall|i: int| 0 <= i < pending.drop_first().len() implies entry_name(
            #[trigger] pending.drop_first()[i],
        ) by {
            assert(entry_name(pending[i + 1]));
        }
        lemma_led_below(directories, next, pending.drop_first());
        let rest = names_met(directories, next, pending.drop_first());
        let all = names_met(directories, path, pending);
        assert(all =~= seq![name] + rest);
        assert(all.drop_first() =~= rest);
        assert forall|i: int| 0 <= i < all.len() implies entry_name(#[trigger] all[i]) by {
            if i > 0 {
                assert(entry_name(rest[i - 1]));
            }
        }
    }
}

proof fn lemma_without_leading(text: Seq<char>, back_too: bool) -> (count: int)
    ensures
        0 <= count <= text.len(),
        without_leading(text, back_too) == text.skip(count),
    decreases text.len(),
{
    if text.len() > 0 && (text[0] == '/' || back_too && text[0] == '\\') {
        let more = lemma_without_leading(text.drop_first(), back_too);
        assert(text.drop_first().skip(more) =~= text.skip(more + 1));
        more + 1
    } else {
        assert(text.skip(0) =~= text);
        0
    }
}

proof fn lemma_drive_rest(path: Seq<char>) -> (count: int)
    ensures
        0 <= count <= path.len(),
        drive_of(path).1 == path.skip(count),
    decreases path.len(),
{
    let verbatim = "\\\\?\\"@;
    let machine = "UNC\\"@;
    let device = "\\\\."@;
    if begins_with(path, verbatim) && verbatim.len() > 0 {
        let rest = path.skip(verbatim.len() as int);
        if begins_with(rest, machine) {
            assert(rest.skip(machine.len() as int) =~= path.skip(
                (verbatim.len() + machine.len()) as int,
            ));
            (verbatim.len() + machine.len()) as int
        } else {
            let more = lemma_drive_rest(rest);
            assert(rest.skip(more) =~= path.skip(verbatim.len() + more));
            verbatim.len() + more
        }
    } else if begins_with(path, device) {
        device.len() as int
    } else if first_of(path, ':') < path.len() {
        lemma_first_of(path, ':');
        let rest = path.skip(first_of(path, ':') + 1);
        let more = lemma_without_leading(rest, true);
        assert(rest.skip(more) =~= path.skip(first_of(path, ':') + 1 + more));
        first_of(path, ':') + 1 + more
    } else {
        assert(path.skip(0) =~= path);
        0
    }
}

proof fn lemma_clean_is_entry(parts: Seq<Seq<char>>)
    requires
        all_clean(parts),
    ensures
        all_entry_names(parts),
{
    assert forall|i: int| 0 <= i < parts.len() implies entry_name(#[trigger] parts[i]) by {
        let part = parts[i];
        assert(clean_piece(part));
        if part.contains('/') {
            let k = choose|k: int| 0 <= k < part.len() && part[k] == '/';
            assert(whole_piece(part) && part[k] == '/');
        }
    }
}

/// A path resolves to a path below the directory of its drive: from there it
/// goes down by one name for each piece, never up. Left out are paths that
/// write `.` or `..` right behind the colon of the drive.
pub proof fn lemma_resolved_below_drive(
    resolver: ResolverModel,
    path: Seq<char>,
    directories: Map<Seq<char>, Vec<String>>,
)
    requires
        ({
            let parts = pieces(drive_of(normalized_path(path)).1);
            parts.len() > 0 ==> parts[0] != "."@ && parts[0] != ".."@
        }),
        forall|directory: Seq<char>| #[trigger]
            directories.contains_key(directory) ==> all_entry_names(
                directories[directory].deep_view(),
            ),
    ensures
        ({
            let (drive, rest) = drive_of(normalized_path(path));
            match directory_of(resolver.drives, drive) {
                None => resolver.resolved(path, directories) is None,
                Some(directory) => exists|names: Seq<Seq<char>>|
                    {
                        &&& #[trigger] all_entry_names(names)
                        &&& names.len() == pieces(rest).len()
                        &&& resolver.resolved(path, directories) == Some(
                            below(path_in(resolver.root, directory), names),
                        )
                    },
            }
        }),
{
    let normal = normalized_path(path);
    let (drive, rest) = drive_of(normal);
    let parts = pieces(rest);
    lemma_normalized_path(path);
    let count = lemma_drive_rest(normal);
    lemma_pieces_of_rest(normal, count);
    assert forall|i: int| 0 <= i < parts.len() implies clean_piece(#[trigger] parts[i]) by {
        if i > 0 {
            assert(clean_piece(pieces(normal)[pieces(normal).len() - parts.len() + i]));
        }
    }
    lemma_clean_is_entry(parts);
    match directory_of(resolver.drives, drive) {
        None => {},
        Some(directory) => {
            let start = path_in(resolver.root, directory);
            lemma_led_below(directories, start, parts);
            assert(all_entry_names(names_met(directories, start, parts)));
        },
    }
}

/// The names, each behind a slash.
pub open spec fn slashed(names: Seq<Seq<char>>) -> Seq<char>
    decreases names.len(),
{
    if names.len() == 0 {
        Seq::empty()
    } else {
        slashed(names.drop_last()).push('/') + names.last()
    }
}

proof fn lemma_slashed_front(names: Seq<Seq<char>>)
    requires
        names.len() > 0,
    ensures
        slashed(names) == seq!['/'] + names[0] + slashed(names.drop_first()),
    decreases names.len(),
{
    if names.len() == 1 {
        assert(slashed(names.drop_last()) =~= Seq::<char>::empty());
        assert(slashed(names.drop_first()) =~= Seq::<char>::empty());
        assert(slashed(names) =~= seq!['/'] + names[0] + slashed(names.drop_first()));
    } else {
        let front = names.drop_last();
        let back = names.drop_first();
        lemma_slashed_front(front);
        assert(front.drop_first() =~= back.drop_last());
        assert(slashed(names) =~= seq!['/'] + names[0] + slashed(back));
    }
}

proof fn lemma_below_slashed(directory: Seq<char>, names: Seq<Seq<char>>)
    requires
        directory.len() > 0,
        directory.last() != '/',
        all_entry_names(names),
    ensures
        below(directory, names) == directory + slashed(names),
    decreases names.len(),
{
    if names.len() == 0 {
        assert(directory + slashed(names) =~= directory);
    } else {
        let name = names[0];
        let back = names.drop_first();
        let next = path_in(directory, name);
        assert(entry_name(name));
        assert(name[0] != '/' && name.last() != '/') by {
            assert(name.contains(name[0]));
            assert(name.contains(name.last()));
        }
        assert forall|i: int| 0 <= i < back.len() implies entry_name(#[trigger] back[i]) by {
            assert(entry_name(names[i + 1]));
        }
        lemma_below_slashed(next, back);
        lemma_slashed_front(names);
        assert(next + slashed(back) =~= directory + slashed(names));
    }
}

proof fn lemma_slashed_turned(names: Seq<Seq<char>>)
    requires
        all_entry_names(names),
    ensures
        names.len() == 0 ==> slashed(names) == Seq::<char>::empty(),
        names.len() > 0 ==> {
            &&& slashed(names).len() > 0 && slashed(names)[0] == '/'
            &&& slashed(names).len() > 1 && slashed(names)[1] != '/'
            &&& with_backslashes(slashed(names).drop_first()) == rejoined(names)
        },
    decreases names.len(),
{
    if names.len() > 0 {
        let front = names.drop_last();
        let last = names.last();
        assert(entry_name(last));
        assert forall|i: int| 0 <= i < front.len() implies entry_name(#[trigger] front[i]) by {
            assert(entry_name(names[i]));
        }
        lemma_slashed_turned(front);
        assert forall|i: int| 0 <= i < last.len() implies #[trigger] last[i] != '/' by {
            assert(last.contains(last[i]));
        }
        let all = slashed(names);
        assert(all == slashed(front).push('/') + last);
        if front.len() == 0 {
            assert(names =~= seq![last]);
            assert(with_backslashes(all.drop_first()) =~= last);
        } else {
            assert(all.drop_first() =~= slashed(front).drop_first().push('/') + last);
            assert(with_backslashes(all.drop_first()) =~= with_backslashes(
                slashed(front).drop_first(),
            ).push('\\') + last);
        }
    }
}

proof fn lemma_first_drive(drives: Seq<DriveMappingModel>, path: Seq<char>, from: int, place: int)
    requires
        0 <= from <= place < drives.len(),
        lies_in(path, drives[place].directory),
        forall|k: int| from <= k < place ==> !lies_in(path, (#[trigger] drives[k]).directory),
    ensures
        windows_path_on(drives, path, from) == windows_path_on(drives, path, place),
    decreases place - from,
{
    if from < place {
        lemma_first_drive(drives, path, from + 1, place);
    }
}

/// The drives stand for directories below the root, none of which lies in
/// another.
pub open spec fn drives_apart(drives: Seq<DriveMappingModel>) -> bool {
    &&& forall|i: int|
        0 <= i < drives.len() ==> {
            &&& (#[trigger] drives[i]).directory.len() > 0
            &&& drives[i].directory[0] != '/'
            &&& drives[i].directory.last() != '/'
        }
    &&& forall|i: int, j: int|
        0 <= i < drives.len() && 0 <= j < drives.len() && i != j ==> !lies_in(
            (#[trigger] drives[i]).directory,
            (#[trigger] drives[j]).directory,
        )
}

/// A path below the directory of a drive has a Windows path on that drive, with
/// the same names.
pub proof fn lemma_windows_path_of_drive(
    resolver: ResolverModel,
    place: int,
    names: Seq<Seq<char>>,
)
    requires
        resolver.root.len() > 0,
        resolver.root.last() != '/',
        drives_apart(resolver.drives),
        0 <= place < resolver.drives.len(),
        all_entry_names(names),
    ensures
        resolver.windows_path(
            below(path_in(resolver.root, resolver.drives[place].directory), names),
        ) == Some(resolver.drives[place].letter + ":\\"@ + rejoined(names)),
{
    let root = resolver.root;
    let drives = resolver.drives;
    let directory = drives[place].directory;
    let start = path_in(root, directory);
    let path = below(start, names);
    lemma_below_slashed(start, names);
    lemma_slashed_turned(names);
    let relative = directory + slashed(names);
    assert(path =~= root + seq!['/'] + relative);
    assert(path.take(root.len() as int) =~= root);
    let behind = path.skip(root.len() as int);
    assert(behind =~= seq!['/'] + relative);
    assert(behind.drop_first() =~= relative);
    assert(without_leading(behind, false) == relative) by {
        reveal_with_fuel(without_leading, 3);
        assert(relative[0] == directory[0]);
    }
    assert(path[root.len() as int] == '/');
    assert(lies_in(relative, directory)) by {
        assert(relative.take(directory.len() as int) =~= directory);
    }
    assert forall|k: int| 0 <= k < place implies !lies_in(
        relative,
        (#[trigger] drives[k]).directory,
    ) by {
        let other = drives[k].directory;
        assert(!lies_in(directory, other));
        assert(!lies_in(other, directory)) by {
            assert(!lies_in(drives[k].directory, drives[place].directory));
        }
        if lies_in(relative, other) {
            if other.len() <= directory.len() {
                assert(directory.take(other.len() as int) =~= relative.take(other.len() as int));
                if other.len() < directory.len() {
                    assert(directory[other.len() as int] == relative[other.len() as int]);
                }
            } else {
                assert(other.take(directory.len() as int) =~= directory) by {
                    assert(other == relative.take(other.len() as int));
                }
                assert(other[directory.len() as int] == relative[directory.len() as int]);
            }
        }
    }
    lemma_first_drive(drives, relative, 0, place);
    let tail = relative.skip(directory.len() as int);
    assert(tail =~= slashed(names));
    if names.len() > 0 {
        assert(without_leading(tail, false) == tail.drop_first()) by {
            reveal_with_fuel(without_leading, 3);
            assert(tail.drop_first()[0] == tail[1]);
        }
    } else {
        assert(with_backslashes(tail) =~= rejoined(names));
    }
}

// ---------------------------------------------------------------------------
// There and back
// ---------------------------------------------------------------------------

/// A path has a Windows path exactly where it lies in the root and, seen from
/// there, in the directory of a drive.
pub proof fn lemma_windows_path_where(resolver: ResolverModel, path: Seq<char>)
    ensures
        resolver.windows_path(path) is Some <==> {
            &&& lies_in(path, resolver.root)
            &&& exists|k: int|
                0 <= k < resolver.drives.len() && lies_in(
                    resolver.from_root(path),
                    (#[trigger] resolver.drives[k]).directory,
                )
        },
{
    if lies_in(path, resolver.root) {
        let relative = resolver.from_root(path);
        let place = lemma_drive_found(resolver.drives, relative, 0);
        if resolver.windows_path(path) is Some {
            assert(lies_in(relative, resolver.drives[place].directory));
        }
    }
}

proof fn lemma_drive_found(drives: Seq<DriveMappingModel>, path: Seq<char>, from: int) -> (place:
    int)
    requires
        0 <= from <= drives.len(),
    ensures
        match windows_path_on(drives, path, from) {
            Some(windows) => {
                &&& from <= place < drives.len()
                &&& lies_in(path, drives[place].directory)
                &&& windows == drives[place].letter + ":\\"@ + with_backslashes(
                    without_leading(path.skip(drives[place].directory.len() as int), false),
                )
            },
            None => forall|k: int|
                from <= k < drives.len() ==> !lies_in(path, (#[trigger] drives[k]).directory),
        },
    decreases drives.len() - from,
{
    if from >= drives.len() || lies_in(path, drives[from].directory) {
        from
    } else {
        lemma_drive_found(drives, path, from + 1)
    }
}

/// The drives have names that can stand before a colon, in upper case, and no
/// two the same.
pub open spec fn drives_named(drives: Seq<DriveMappingModel>) -> bool {
    &&& forall|i: int|
        0 <= i < drives.len() ==> {
            &&& whole_piece((#[trigger] drives[i]).letter)
            &&& !drives[i].letter.contains(':')
            &&& upper_text(drives[i].letter) == drives[i].letter
        }
    &&& forall|i: int, j: int|
        0 <= i < j < drives.len() ==> (#[trigger] drives[i]).letter != (
        #[trigger] drives[j]).letter
}

proof fn lemma_drive_place(drives: Seq<DriveMappingModel>, letter: Seq<char>, from: int)
    requires
        0 <= from <= drives.len(),
    ensures
        ({
            let place = drive_place(drives, letter, from);
            &&& from <= place <= drives.len()
            &&& place < drives.len() ==> drives[place].letter == letter
            &&& forall|k: int| from <= k < place ==> (#[trigger] drives[k]).letter != letter
        }),
    decreases drives.len() - from,
{
    if from < drives.len() && drives[from].letter != letter {
        lemma_drive_place(drives, letter, from + 1);
    }
}

/// Mapping a drive whose name is fit to stand before a colon keeps the names
/// so.
pub proof fn lemma_drives_stay_named(
    drives: Seq<DriveMappingModel>,
    letter: Seq<char>,
    directory: Seq<char>,
)
    requires
        drives_named(drives),
        whole_piece(letter),
        !letter.contains(':'),
        upper_text(letter) == letter,
    ensures
        drives_named(with_drive(drives, letter, directory)),
{
    lemma_drive_place(drives, letter, 0);
    let after = with_drive(drives, letter, directory);
    assert forall|i: int, j: int| 0 <= i < j < after.len() implies (#[trigger] after[i]).letter != (
    #[trigger] after[j]).letter by {
        if j < drives.len() {
            assert(drives[i].letter != drives[j].letter);
        }
    }
}

/// A path from the root of the host.
pub open spec fn absolute(path: Seq<char>) -> bool {
    path.len() > 0 && path[0] == '/'
}

/// The same path, whatever number of slashes stands between the names: both
/// from the root of the host or both not, and by the same names.
pub open spec fn same_path(a: Seq<char>, b: Seq<char>) -> bool {
    absolute(a) == absolute(b) && pieces(a) == pieces(b)
}

/// An absolute path with one slash before each name and none at the end.
pub open spec fn plain(path: Seq<char>) -> bool {
    path.len() > 0 && path == slashed(pieces(path))
}

proof fn lemma_own_place(drives: Seq<DriveMappingModel>, place: int, from: int)
    requires
        drives_named(drives),
        0 <= from <= place < drives.len(),
    ensures
        drive_place(drives, drives[place].letter, from) == place,
    decreases place - from,
{
    if from < place {
        assert(drives[from].letter != drives[place].letter);
        lemma_own_place(drives, place, from + 1);
    }
}

proof fn lemma_no_pieces(text: Seq<char>)
    requires
        text.len() <= 1,
        text.len() == 1 ==> separator(text[0]),
    ensures
        pieces(text) == Seq::<Seq<char>>::empty(),
{
    reveal_with_fuel(pieces, 2);
    assert(pieces(text) =~= Seq::<Seq<char>>::empty());
}

proof fn lemma_behind_separator(c: char, text: Seq<char>)
    requires
        separator(c),
    ensures
        pieces(seq![c] + text) == pieces(text),
{
    let all = seq![c] + text;
    lemma_pieces_apart(all, 1);
    assert(all.take(1) =~= seq![c]);
    assert(all.skip(1) =~= text);
    lemma_no_pieces(seq![c]);
    assert(pieces(all) =~= pieces(text));
}

proof fn lemma_pieces_stripped(text: Seq<char>, back_too: bool)
    ensures
        pieces(without_leading(text, back_too)) == pieces(text),
    decreases text.len(),
{
    if text.len() > 0 && (text[0] == '/' || back_too && text[0] == '\\') {
        lemma_pieces_stripped(text.drop_first(), back_too);
        lemma_behind_separator(text[0], text.drop_first());
        assert(text =~= seq![text[0]] + text.drop_first());
    }
}

proof fn lemma_pieces_turned(text: Seq<char>)
    ensures
        pieces(with_backslashes(text)) == pieces(text),
    decreases text.len(),
{
    let turned = with_backslashes(text);
    if text.len() > 0 {
        lemma_pieces_turned(text.drop_last());
        assert(turned.drop_last() =~= with_backslashes(text.drop_last()));
    }
}

proof fn lemma_pieces_joined(directory: Seq<char>, name: Seq<char>)
    requires
        !absolute(name),
    ensures
        pieces(path_in(directory, name)) == pieces(directory) + pieces(name),
{
    let path = path_in(directory, name);
    if directory.len() == 0 {
        lemma_no_pieces(directory);
        assert(pieces(directory) + pieces(name) =~= pieces(name));
    } else {
        lemma_pieces_apart(path, directory.len() as int);
        assert(path.take(directory.len() as int) =~= directory);
        let behind = path.skip(directory.len() as int);
        if directory.last() == '/' {
            assert(behind =~= name);
        } else {
            assert(behind =~= seq!['/'] + name);
            lemma_behind_separator('/', name);
        }
    }
}

proof fn lemma_pieces_below(directory: Seq<char>, names: Seq<Seq<char>>)
    requires
        all_clean(names),
    ensures
        pieces(below(directory, names)) == pieces(directory) + names,
        directory.len() > 0 ==> absolute(below(directory, names)) == absolute(directory),
        directory.len() == 0 ==> !absolute(below(directory, names)),
    decreases names.len(),
{
    if names.len() == 0 {
        assert(pieces(directory) + names =~= pieces(directory));
    } else {
        let name = names[0];
        let back = names.drop_first();
        assert(clean_piece(name));
        assert(!separator(name[0]));
        lemma_pieces_joined(directory, name);
        assert(rejoined(seq![name]) == name);
        lemma_rejoined_pieces(seq![name]);
        assert forall|i: int| 0 <= i < back.len() implies clean_piece(#[trigger] back[i]) by {
            assert(clean_piece(names[i + 1]));
        }
        lemma_pieces_below(path_in(directory, name), back);
        assert(pieces(directory) + seq![name] + back =~= pieces(directory) + names);
    }
}

proof fn lemma_slashed_sum(a: Seq<Seq<char>>, b: Seq<Seq<char>>)
    ensures
        slashed(a + b) == slashed(a) + slashed(b),
    decreases b.len(),
{
    if b.len() == 0 {
        assert(a + b =~= a);
        assert(slashed(a) + slashed(b) =~= slashed(a));
    } else {
        assert((a + b).drop_last() =~= a + b.drop_last());
        lemma_slashed_sum(a, b.drop_last());
        assert(slashed(a + b) =~= slashed(a) + slashed(b));
    }
}

/// A path on a drive, with backslashes before its names, is taken apart into
/// the drive and the names.
proof fn lemma_drive_and_names(letter: Seq<char>, tail: Seq<char>)
    requires
        whole_piece(letter),
        !letter.contains(':'),
        all_clean(pieces(tail)),
    ensures
        drive_of(normalized_path(letter + ":\\"@ + with_backslashes(tail))).0 == upper_text(letter),
        pieces(drive_of(normalized_path(letter + ":\\"@ + with_backslashes(tail))).1) == pieces(tail),
{
    reveal_strlit(":\\");
    reveal_strlit("\\\\?\\");
    reveal_strlit("\\\\.");
    reveal_strlit(".");
    reveal_strlit("..");
    let names = pieces(tail);
    let path = letter + ":\\"@ + with_backslashes(tail);
    let head = letter.push(':');
    let parts = seq![head] + names;
    lemma_pieces_apart(path, head.len() as int);
    assert(path.take(head.len() as int) =~= head);
    assert(path.skip(head.len() as int) =~= seq!['\\'] + with_backslashes(tail));
    lemma_behind_separator('\\', with_backslashes(tail));
    lemma_pieces_turned(tail);
    assert(whole_piece(head)) by {
        assert forall|i: int| 0 <= i < head.len() implies !separator(#[trigger] head[i]) by {
            if i < letter.len() {
                assert(!separator(letter[i]));
            }
        }
    }
    assert(rejoined(seq![head]) == head);
    lemma_rejoined_pieces(seq![head]);
    assert(pieces(path) =~= parts);
    assert(clean_piece(head)) by {
        assert(head.last() == ':');
        assert("."@.last() == '.' && ".."@.last() == '.');
    }
    assert forall|i: int| 0 <= i < parts.len() implies clean_piece(#[trigger] parts[i]) by {
        if i > 0 {
            assert(clean_piece(names[i - 1]));
        }
    }
    lemma_clean_kept(parts, parts.len() as int);
    assert(parts.take(parts.len() as int) =~= parts);
    let normal = normalized_path(path);
    assert(normal == rejoined(parts));
    lemma_rejoined_front(parts);
    assert(parts.drop_first() =~= names);
    let behind = normal.skip(head.len() as int);
    assert(normal =~= head + behind);
    assert(pieces(behind) == names) by {
        if names.len() == 0 {
            assert(behind =~= Seq::<char>::empty());
            lemma_no_pieces(behind);
            assert(pieces(behind) =~= names);
        } else {
            assert(behind =~= seq!['\\'] + rejoined(names));
            lemma_behind_separator('\\', rejoined(names));
            lemma_rejoined_pieces(names);
        }
    }
    assert(normal[0] == letter[0] && !separator(letter[0]));
    assert(!begins_with(normal, "\\\\?\\"@)) by {
        if begins_with(normal, "\\\\?\\"@) {
            assert(normal.take(4)[0] == '\\');
        }
    }
    assert(!begins_with(normal, "\\\\."@)) by {
        if begins_with(normal, "\\\\."@) {
            assert(normal.take(3)[0] == '\\');
        }
    }
    lemma_first_of(normal, ':');
    assert(first_of(normal, ':') == letter.len()) by {
        let at = first_of(normal, ':');
        assert(normal[letter.len() as int] == ':');
        if at < letter.len() {
            assert(letter[at] == normal[at]);
            assert(letter.contains(':'));
        }
    }
    assert(normal.take(letter.len() as int) =~= letter);
    lemma_pieces_stripped(behind, true);
}

/// Where a path of the host has a Windows path, that leads back to it on a disk
/// that holds nothing: to the very same text where the path and the directories
/// of the drives are written plainly. Left out are paths with a backslash in a
/// name, or with `.` or `..` for one.
pub proof fn lemma_windows_path_leads_back(resolver: ResolverModel, path: Seq<char>)
    requires
        drives_named(resolver.drives),
        !path.contains('\\'),
        all_clean(pieces(path)),
    ensures
        resolver.windows_path(path) matches Some(windows) ==> {
            &&& resolver.resolved(windows, Map::empty()) matches Some(again)
            &&& same_path(again, path)
            &&& plain(path) && (forall|k: int|
                0 <= k < resolver.drives.len() ==> plain(
                    path_in(resolver.root, (#[trigger] resolver.drives[k]).directory),
                )) ==> again == path
        },
{
    if resolver.windows_path(path) is Some {
        let root = resolver.root;
        let drives = resolver.drives;
        let behind = path.skip(root.len() as int);
        let relative = resolver.from_root(path);
        let place = lemma_drive_found(drives, relative, 0);
        let directory = drives[place].directory;
        let letter = drives[place].letter;
        let rest = relative.skip(directory.len() as int);
        let tail = without_leading(rest, false);
        let start = path_in(root, directory);
        let names = pieces(tail);
        lemma_apart_at(path, root);
        lemma_pieces_stripped(behind, false);
        lemma_apart_at(relative, directory);
        lemma_pieces_stripped(rest, false);
        assert(pieces(path) =~= pieces(root) + pieces(directory) + names);
        let before = (pieces(root) + pieces(directory)).len() as int;
        assert forall|i: int| 0 <= i < names.len() implies clean_piece(#[trigger] names[i]) by {
            assert(clean_piece(pieces(path)[before + i]));
        }
        assert(!absolute(directory)) by {
            lemma_nothing_leading(behind);
            if absolute(directory) {
                assert(relative.take(directory.len() as int)[0] == relative[0]);
            }
        }
        lemma_drive_and_names(letter, tail);
        lemma_own_place(drives, place, 0);
        let none = Map::<Seq<char>, Vec<String>>::empty();
        lemma_led_plainly(start, names);
        lemma_pieces_joined(root, directory);
        lemma_pieces_below(start, names);
        let again = below(start, names);
        assert(resolver.resolved(resolver.windows_path(path)->0, none) == Some(again));
        assert(absolute(again) == absolute(path)) by {
            if root.len() > 0 {
                assert(path.take(root.len() as int)[0] == path[0]);
            } else {
                assert(start == directory);
            }
        }
        if plain(path) && plain(start) {
            lemma_pieces_whole(start);
            assert(pieces(start).len() > 0);
            assert(whole_piece(pieces(start).last()));
            assert(start.last() == pieces(start).last().last());
            lemma_clean_is_entry(names);
            lemma_below_slashed(start, names);
            lemma_slashed_sum(pieces(start), names);
            assert(again == path);
        }
    }
}

proof fn lemma_nothing_leading(text: Seq<char>)
    ensures
        !absolute(without_leading(text, false)),
    decreases text.len(),
{
    if absolute(text) {
        lemma_nothing_leading(text.drop_first());
    }
}

proof fn lemma_apart_at(path: Seq<char>, directory: Seq<char>)
    requires
        lies_in(path, directory),
    ensures
        pieces(path) == pieces(directory) + pieces(path.skip(directory.len() as int)),
{
    let at = directory.len() as int;
    if at > 0 && directory.last() == '/' {
        assert(path.take(at).last() == path[at - 1]);
    }
    lemma_pieces_apart(path, at);
}

proof fn lemma_led_plainly(path: Seq<char>, names: Seq<Seq<char>>)
    ensures
        led_to(Map::empty(), path, names) == below(path, names),
    decreases names.len(),
{
    if names.len() > 0 {
        let entries = entries_of(Map::empty(), path);
        assert(last_alike(entries, lower_text(names[0]), 0) is None);
        lemma_led_plainly(path_in(path, names[0]), names.drop_first());
    }
}

/// A drive that was mapped is found in its directory; every other drive is found
/// where it was.
pub proof fn lemma_mapped_drive_found(
    drives: Seq<DriveMappingModel>,
    letter: Seq<char>,
    directory: Seq<char>,
    other: Seq<char>,
)
    ensures
        directory_of(with_drive(drives, letter, directory), letter) == Some(directory),
        other != letter ==> directory_of(with_drive(drives, letter, directory), other)
            == directory_of(drives, other),
        with_drive(drives, letter, directory).len() == (if directory_of(drives, letter) is Some {
            drives.len()
        } else {
            drives.len() + 1
        }),
{
    let after = with_drive(drives, letter, directory);
    lemma_drive_place(drives, letter, 0);
    lemma_drive_place(after, letter, 0);
    lemma_drive_place(drives, other, 0);
    lemma_drive_place(after, other, 0);
    let old_place = drive_place(drives, letter, 0);
    let place = drive_place(after, letter, 0);
    assert(after[old_place].letter == letter);
    if place < old_place {
        assert(after[place] == drives[place]);
    }
    if other != letter {
        let before = drive_place(drives, other, 0);
        let now = drive_place(after, other, 0);
        if before < drives.len() {
            assert(after[before] == drives[before]);
            if now < before {
                assert(now != old_place);
                assert(after[now] == drives[now]);
            }
        } else if now < after.len() {
            if now < drives.len() && now != old_place {
                assert(after[now] == drives[now]);
            }
        }
    }
}

/// A path names its drive in front of a colon, in whatever case; a path without
/// a colon is on drive C; a path to a share and one to a device are told by
/// their beginnings.
pub proof fn lemma_drive_named(letter: char, rest: Seq<char>)
    ensures
        'a' <= letter <= 'z' || 'A' <= letter <= 'Z' ==> drive_of(seq![letter, ':', '\\'] + rest)
            == (seq![upper_char(letter)], without_leading(rest, true)),
        drive_of("\\\\?\\UNC\\"@ + rest) == ("UNC"@, rest),
        drive_of("\\\\."@ + rest) == ("DEV"@, rest),
        !rest.contains(':') && (rest.len() == 0 || rest[0] != '\\') ==> drive_of(rest) == ("C"@, rest),
{
    reveal_strlit("\\\\?\\");
    reveal_strlit("UNC\\");
    reveal_strlit("\\\\?\\UNC\\");
    reveal_strlit("\\\\.");
    reveal_with_fuel(drive_of, 2);
    let prefix = "\\\\?\\"@;
    let share = "\\\\?\\UNC\\"@ + rest;
    assert(share.take(prefix.len() as int) =~= prefix);
    let inner = share.skip(prefix.len() as int);
    assert(inner.take("UNC\\"@.len() as int) =~= "UNC\\"@);
    assert(inner.skip("UNC\\"@.len() as int) =~= rest);
    let device = "\\\\."@ + rest;
    assert(device[2] == '.');
    assert(device.take("\\\\."@.len() as int) =~= "\\\\."@);
    assert(device.skip("\\\\."@.len() as int) =~= rest);
    assert(!begins_with(device, prefix)) by {
        if begins_with(device, prefix) {
            assert(device.take(prefix.len() as int)[2] == prefix[2]);
        }
    }
    if 'a' <= letter <= 'z' || 'A' <= letter <= 'Z' {
        let path = seq![letter, ':', '\\'] + rest;
        assert(!begins_with(path, prefix)) by {
            if begins_with(path, prefix) {
                assert(path.take(prefix.len() as int)[0] == prefix[0]);
            }
        }
        assert(!begins_with(path, "\\\\."@)) by {
            if begins_with(path, "\\\\."@) {
                assert(path.take("\\\\."@.len() as int)[0] == "\\\\."@[0]);
            }
        }
        lemma_first_of_is(path, ':', 1);
        assert(path.take(1) =~= seq![letter]);
        assert(all_ascii(path.take(1)));
        assert(upper(path.take(1)) =~= seq![upper_char(letter)]);
        assert(path.skip(2).drop_first() =~= rest);
    }
    if !rest.contains(':') && (rest.len() == 0 || rest[0] != '\\') {
        assert(!begins_with(rest, prefix)) by {
            if begins_with(rest, prefix) {
                assert(rest.take(prefix.len() as int)[0] == prefix[0]);
            }
        }
        assert(!begins_with(rest, "\\\\."@)) by {
            if begins_with(rest, "\\\\."@) {
                assert(rest.take("\\\\."@.len() as int)[0] == "\\\\."@[0]);
            }
        }
        lemma_first_of(rest, ':');
    }
}

/// A name is taken as it is written where there is such an entry; else an entry
/// is taken that differs in case alone, the last one, and the name itself where
/// there is none.
pub proof fn lemma_host_name(piece: Seq<char>, entries: Seq<Seq<char>>)
    ensures
        host_name(piece, true, entries) == piece,
        host_name(piece, false, entries) == piece || entries.contains(
            host_name(piece, false, entries),
        ) && lower_text(host_name(piece, false, entries)) == lower_text(piece),
        (exists|i: int|
            0 <= i < entries.len() && lower_text(#[trigger] entries[i]) == lower_text(piece))
            ==> entries.contains(host_name(piece, false, entries)) && lower_text(
            host_name(piece, false, entries),
        ) == lower_text(piece),
        forall|i: int|
            0 <= i < entries.len() && lower_text(#[trigger] entries[i]) == lower_text(piece) && (
            forall|j: int|
                i < j < entries.len() ==> lower_text(#[trigger] entries[j]) != lower_text(piece))
                ==> host_name(piece, false, entries) == entries[i],
{
    lemma_last_of_case(entries, lower_text(piece), entries.len() as int);
}

proof fn lemma_last_of_case(entries: Seq<Seq<char>>, wanted: Seq<char>, count: int)
    requires
        0 <= count <= entries.len(),
        forall|j: int| count <= j < entries.len() ==> lower_text(#[trigger] entries[j]) != wanted,
    ensures
        match last_alike(entries, wanted, count) {
            Some(name) => entries.contains(name) && lower_text(name) == wanted,
            None => forall|j: int|
                0 <= j < entries.len() ==> lower_text(#[trigger] entries[j]) != wanted,
        },
        forall|i: int|
            0 <= i < entries.len() && lower_text(#[trigger] entries[i]) == wanted && (forall|j: int|
                i < j < entries.len() ==> lower_text(#[trigger] entries[j]) != wanted)
                ==> last_alike(entries, wanted, count) == Some(entries[i]),
    decreases count,
{
    if count > 0 {
        if lower_text(entries[count - 1]) == wanted {
            assert(entries.contains(entries[count - 1]));
            assert forall|i: int|
                0 <= i < entries.len() && lower_text(#[trigger] entries[i]) == wanted && (
                forall|j: int|
                    i < j < entries.len() ==> lower_text(#[trigger] entries[j])
                        != wanted) implies last_alike(entries, wanted, count) == Some(
                entries[i],
            ) by {
                if i < count - 1 {
                    assert(lower_text(entries[count - 1]) != wanted);
                }
            }
        } else {
            lemma_last_of_case(entries, wanted, count - 1);
        }
    }
}

/// A name in a directory is the directory, one slash and the name; a name from
/// the root, or one in no directory, stays as it is.
pub proof fn lemma_path_joined(directory: Seq<char>, name: Seq<char>)
    ensures
        ({
            let path = path_in(directory, name);
            let alone = directory.len() == 0 || (name.len() > 0 && name[0] == '/');
            &&& alone ==> path == name
            &&& !alone ==> {
                &&& begins_with(path, directory)
                &&& path.skip(path.len() - name.len()) == name
                &&& path.len() > name.len()
                &&& path[path.len() - name.len() - 1] == '/'
                &&& directory.last() == '/' ==> path.len() == directory.len() + name.len()
                &&& directory.last() != '/' ==> path.len() == directory.len() + 1 + name.len()
            }
        }),
{
    let path = path_in(directory, name);
    if directory.len() > 0 && !(name.len() > 0 && name[0] == '/') {
        assert(path.take(directory.len() as int) =~= directory);
        assert(path.skip(path.len() - name.len()) =~= name);
    }
}

} // verus!
