//! Where paths lead, which open files exclude each other, and how streams are
//! named and stored.
use casa1::error::ReasonCode;
use casa1::fs::containment::{verify_within_root, PathFacts};
use casa1::fs::operations::{
    check_operation, is_there, next_access, Access, FileOperation, PathRole,
};
use casa1::fs::pieces::{normalize_windows_path, split_pieces};
use casa1::fs::resolver::{join_path, split_drive, WindowsPathResolver};
use casa1::fs::sharing::{
    check_permission, check_readable, check_writable, share_conflict, HandleClaim,
    OpenFileOptions, RealFilesystem, ShareRegistry, ACCESS_READ, ACCESS_WRITE, FILE_SHARE_READ,
    FILE_SHARE_WRITE,
};
use casa1::fs::sidecar::{
    ads_sidecar_path_for, ads_sidecar_to_stream, decode_stream_name_from_sidecar,
    encode_stream_name_for_sidecar, escape_sidecar_component, unescape_sidecar_component,
};
use casa1::fs::streams::{
    add_backup_chunk, attribute_for_stream, backup_read_file, backup_write_file,
    check_backup_size, new_quarantine_mark, parse_xattr_list, quarantine_mark,
    standard_directories, streams_in_attributes, streams_in_directory, validate_stream_name,
    BackupReadResult, BackupTarget, MAX_BACKUP_READ_SIZE,
};
use casa1::names::NameMap;

fn listing(directories: &[(&str, &[&str])]) -> NameMap<Vec<String>> {
    let mut map = NameMap::new();
    for (path, names) in directories {
        map.insert(
            path.to_string(),
            names.iter().map(|name| name.to_string()).collect(),
        );
    }
    map
}

// ---------------------------------------------------------------------------
// Resolution
// ---------------------------------------------------------------------------

#[test]
fn a_name_is_found_whatever_its_case() {
    let resolver = WindowsPathResolver::new("/ge");
    let directories = listing(&[
        ("/ge/drive_c", &["Steam", "Windows"]),
        ("/ge/drive_c/Steam", &["STEAM.EXE"]),
    ]);
    assert_eq!(
        resolver.resolve("c:\\sTEAM\\steam.exe", &directories).unwrap(),
        "/ge/drive_c/Steam/STEAM.EXE"
    );
}

#[test]
fn a_name_beyond_ascii_is_found_whatever_its_case() {
    let resolver = WindowsPathResolver::new("/ge");
    let directories = listing(&[("/ge/drive_c", &["\u{c4}RGER.TXT"])]);
    assert_eq!(
        resolver.resolve("C:\\\u{e4}rger.txt", &directories).unwrap(),
        "/ge/drive_c/\u{c4}RGER.TXT"
    );
}

#[test]
fn a_name_as_it_is_written_goes_first() {
    let resolver = WindowsPathResolver::new("/ge");
    let directories = listing(&[("/ge/drive_c", &["readme", "README"])]);
    assert_eq!(
        resolver.resolve("C:\\readme", &directories).unwrap(),
        "/ge/drive_c/readme"
    );
    assert_eq!(
        resolver.resolve("C:\\ReadMe", &directories).unwrap(),
        "/ge/drive_c/README"
    );
}

#[test]
fn a_drive_is_named_in_upper_case() {
    let mut resolver = WindowsPathResolver::new("/ge");
    resolver.add_drive_mapping("\u{e4}", "drive_umlaut");
    resolver.add_drive_mapping("d", "drive_d");
    resolver.add_drive_mapping("D", "games");
    let none = NameMap::new();
    assert_eq!(
        resolver.resolve("\u{c4}:\\x", &none).unwrap(),
        "/ge/drive_umlaut/x"
    );
    assert_eq!(resolver.resolve("d:\\x", &none).unwrap(), "/ge/games/x");
}

#[test]
fn an_unknown_drive_is_refused() {
    let resolver = WindowsPathResolver::new("/ge");
    let error = resolver.resolve("q:\\x", &NameMap::new()).unwrap_err();
    assert_eq!(error.code, ReasonCode::RcCliInvalid);
    assert_eq!(error.message, "unknown drive letter Q: in path q:\\x");
}

#[test]
fn a_path_never_leads_up_from_its_drive() {
    let resolver = WindowsPathResolver::new("/ge");
    let none = NameMap::new();
    assert_eq!(
        resolver.resolve("C:\\..\\..\\etc\\passwd", &none).unwrap(),
        "/ge/drive_c/etc/passwd"
    );
    assert_eq!(
        resolver.resolve("Z:\\a\\..\\b\\.\\c", &none).unwrap(),
        "/ge/drive_z/b/c"
    );
}

#[test]
fn a_path_comes_back_from_the_host() {
    let resolver = WindowsPathResolver::new("/ge");
    for path in ["C:\\a", "Z:\\a b\\c.txt", "C:\\one\\two\\three"] {
        let real = resolver.resolve(path, &NameMap::new()).unwrap();
        assert_eq!(resolver.to_windows_path(&real).unwrap(), path);
    }
    assert_eq!(resolver.to_windows_path("/ge/drive_c").unwrap(), "C:\\");
    assert!(resolver.to_windows_path("/elsewhere/drive_c/a").is_none());
    assert!(resolver.to_windows_path("/ge/other/a").is_none());
}

#[test]
fn a_path_lies_in_a_directory_by_whole_names() {
    let mut resolver = WindowsPathResolver::new("/ge");
    assert_eq!(
        resolver
            .to_windows_path("/ge/drive_c/Steam/Steam.exe")
            .unwrap(),
        "C:\\Steam\\Steam.exe"
    );
    assert!(resolver.to_windows_path("/ge/drive_cache/x").is_none());
    assert!(resolver.to_windows_path("/gedrive_c/x").is_none());
    resolver.add_drive_mapping("e", "drive_cache");
    assert_eq!(
        resolver.to_windows_path("/ge/drive_cache/x").unwrap(),
        "E:\\x"
    );
    for path in ["/ge/drive_c/a", "/ge/drive_z", "/ge/drive_cache/b c/d:e"] {
        let windows = resolver.to_windows_path(path).unwrap();
        assert_eq!(resolver.resolve(&windows, &NameMap::new()).unwrap(), path);
    }
    let rooted = WindowsPathResolver::new("/");
    assert_eq!(rooted.to_windows_path("/drive_z/x").unwrap(), "Z:\\x");
    assert_eq!(
        rooted.to_windows_path("//drive_z///x/y").unwrap(),
        "Z:\\x\\y"
    );
    assert!(WindowsPathResolver::new("")
        .to_windows_path("/drive_c/x")
        .is_none());
}

#[test]
fn a_resolution_takes_one_piece_at_a_time() {
    let resolver = WindowsPathResolver::new("/ge");
    let mut resolution = resolver.start("C:\\Games\\Save").unwrap();
    assert_eq!(resolution.path(), "/ge/drive_c");
    assert_eq!(resolution.next_piece(), Some("Games"));
    resolution = resolution.advance(false, &vec!["GAMES".to_string()]);
    assert_eq!(resolution.path(), "/ge/drive_c/GAMES");
    assert_eq!(resolution.next_piece(), Some("Save"));
    resolution = resolution.advance(true, &vec!["SAVE".to_string()]);
    assert_eq!(resolution.next_piece(), None);
    let facts = PathFacts {
        present: true,
        inside: true,
        followed_inside: Some(true),
    };
    assert_eq!(
        resolution.finish(true, &[facts]).unwrap(),
        "/ge/drive_c/GAMES/Save"
    );
}

#[test]
fn a_resolution_that_leads_out_is_refused() {
    let resolver = WindowsPathResolver::new("/ge");
    let resolution = resolver.start("C:\\link").unwrap();
    let resolution = resolution.advance(true, &vec![]);
    let facts = PathFacts {
        present: true,
        inside: true,
        followed_inside: Some(false),
    };
    let error = resolution.finish(true, &[facts]).unwrap_err();
    assert_eq!(error.code, ReasonCode::RcFsSandboxEscape);
}

#[test]
fn containment_looks_at_the_first_path_that_is_there() {
    let there = |inside: bool, followed_inside: Option<bool>| PathFacts {
        present: true,
        inside,
        followed_inside,
    };
    let missing = |inside: bool| PathFacts {
        present: false,
        inside,
        followed_inside: None,
    };
    assert!(verify_within_root("/ge/a", true, &[missing(true), there(true, Some(true))]).is_ok());
    assert!(verify_within_root("/ge/a", false, &[]).is_ok());
    for chain in [
        vec![],
        vec![missing(true)],
        vec![missing(true), there(true, Some(false))],
        vec![missing(true), there(false, Some(true))],
        vec![there(true, None)],
    ] {
        let error = verify_within_root("/ge/a", true, &chain).unwrap_err();
        assert!(error.message.starts_with("path /ge/a "));
        assert_eq!(error.code, ReasonCode::RcFsSandboxEscape);
    }
}

#[test]
fn normalizing_twice_changes_nothing() {
    for path in ["a//b/../c", "..\\..\\x", "./.", "C:\\a\\.\\b\\", ""] {
        let once = normalize_windows_path(path);
        assert_eq!(normalize_windows_path(&once), once);
    }
    assert_eq!(normalize_windows_path("a//b/../c"), "a\\c");
    assert_eq!(split_pieces("\\a//b\\"), vec!["a".to_string(), "b".to_string()]);
}

#[test]
fn drives_of_other_machines_and_devices() {
    assert_eq!(
        split_drive("\\\\?\\UNC\\server\\share").unwrap(),
        ("UNC".to_string(), "server\\share".to_string())
    );
    assert_eq!(
        split_drive("\\\\.\\pipe").unwrap(),
        ("DEV".to_string(), "\\pipe".to_string())
    );
    assert_eq!(
        split_drive("plain").unwrap(),
        ("C".to_string(), "plain".to_string())
    );
}

#[test]
fn paths_are_joined_with_one_slash() {
    assert_eq!(join_path("/a", "b"), "/a/b");
    assert_eq!(join_path("/a/", "b"), "/a/b");
    assert_eq!(join_path("/a", "/b"), "/b");
    assert_eq!(join_path("", "b"), "b");
}

// ---------------------------------------------------------------------------
// Sharing
// ---------------------------------------------------------------------------

fn claim(access: u32, share: u32) -> HandleClaim {
    HandleClaim { access, share }
}

#[test]
fn claims_exclude_each_other_both_ways() {
    let reader = claim(ACCESS_READ, FILE_SHARE_READ);
    let writer = claim(ACCESS_WRITE, FILE_SHARE_READ);
    let lender = claim(ACCESS_READ, FILE_SHARE_READ | FILE_SHARE_WRITE);
    assert!(!share_conflict(reader, reader));
    assert!(share_conflict(reader, writer) && share_conflict(writer, reader));
    assert!(!share_conflict(lender, writer) && !share_conflict(writer, lender));
    assert!(share_conflict(claim(ACCESS_READ, 0), claim(ACCESS_READ, 0)));
}

#[test]
fn one_of_two_equal_claims_is_released() {
    let mut registry = ShareRegistry::new();
    let reader = claim(ACCESS_READ, FILE_SHARE_READ);
    let writer = claim(ACCESS_WRITE, FILE_SHARE_READ);
    assert!(registry.register("/f", reader));
    assert!(registry.register("/f", reader));
    assert!(!registry.register("/f", writer));
    registry.release("/f", reader);
    assert!(!registry.admits("/f", writer));
    registry.release("/f", reader);
    assert!(registry.register("/f", writer));
    assert!(registry.admits("/g", reader));
}

#[test]
fn a_file_is_opened_as_it_was_asked_for() {
    let mut files = RealFilesystem::new(WindowsPathResolver::new("/ge"));
    let request = files.open_file("/ge/f", true, false, true, true).unwrap();
    assert!(request.read && !request.write);
    assert!(!request.create && !request.truncate);
    assert_eq!(request.claim, claim(ACCESS_READ, 0));
    assert!(!request.delete_on_close);

    let error = files.open_file("/ge/f", true, false, false, false).unwrap_err();
    assert_eq!(error.code, ReasonCode::RcFsSharingViolation);

    files.close_file("/ge/f", request.claim);
    let options = OpenFileOptions {
        share_mode: FILE_SHARE_READ,
        delete_on_close: true,
    };
    let request = files
        .open_file_with_options("/ge/f", true, true, true, false, options)
        .unwrap();
    assert!(request.create && !request.truncate && request.delete_on_close);
    assert_eq!(request.claim, claim(ACCESS_READ | ACCESS_WRITE, FILE_SHARE_READ));
    assert_eq!(files.resolver().ge_root(), "/ge");
}

#[test]
fn what_a_file_was_not_opened_for_is_refused() {
    assert!(check_readable(true).is_ok() && check_writable(true).is_ok());
    assert!(check_readable(false).is_err() && check_writable(false).is_err());
    assert!(check_permission(Ok(())).is_ok());
    let error = check_permission(Err("no".to_string())).unwrap_err();
    assert_eq!(error.code, ReasonCode::RcSandboxPathViolation);
    assert!(error.message.ends_with("no"));
}

// ---------------------------------------------------------------------------
// Operations
// ---------------------------------------------------------------------------

fn asked(operation: FileOperation) -> Vec<(PathRole, bool)> {
    let mut list = Vec::new();
    while let Some(Access { role, write }) = next_access(operation, list.len()) {
        list.push((role, write));
    }
    list
}

#[test]
fn every_access_is_asked_for_in_turn() {
    let (subject, destination) = (PathRole::Subject, PathRole::Destination);
    let open = |can_read: bool, can_write: bool| {
        asked(FileOperation::Open {
            can_read,
            can_write,
        })
    };
    assert_eq!(open(true, true), vec![(subject, false), (subject, true)]);
    assert_eq!(open(false, true), vec![(subject, true)]);
    assert_eq!(open(false, false), vec![]);
    for operation in [FileOperation::MoveFile, FileOperation::CopyFile] {
        assert_eq!(asked(operation), vec![(subject, false), (destination, true)]);
    }
    assert_eq!(asked(FileOperation::DeleteFile), vec![(subject, true)]);
    assert_eq!(asked(FileOperation::ListStreams), vec![(subject, false)]);
}

#[test]
fn the_name_of_a_stream_is_checked_first() {
    assert_eq!(
        check_operation(FileOperation::WriteStream, "a/b").unwrap_err().code,
        ReasonCode::RcFsPathInvalid
    );
    assert!(check_operation(FileOperation::WriteStream, "a").is_ok());
    assert!(check_operation(FileOperation::ListStreams, "a/b").is_ok());
}

#[test]
fn what_may_not_be_read_is_not_there() {
    assert!(is_there(true, Some(true)));
    assert!(!is_there(false, Some(true)));
    assert!(!is_there(true, Some(false)));
    assert!(!is_there(true, None));
}

// ---------------------------------------------------------------------------
// Streams
// ---------------------------------------------------------------------------

#[test]
fn names_of_streams_that_could_lead_out_are_refused() {
    assert!(validate_stream_name("Zone.Identifier").is_ok());
    for name in ["", ".", "..", "a/b", "a\\b", "a:b", "a\0b"] {
        let error = validate_stream_name(name).unwrap_err();
        assert_eq!(error.code, ReasonCode::RcFsPathInvalid);
    }
}

#[test]
fn streams_are_found_among_the_attributes() {
    assert_eq!(attribute_for_stream("x"), "com.casa1.ads.x");
    let list = b"com.casa1.ads.one\0com.apple.quarantine\0\0com.casa1.ads.two";
    assert_eq!(
        parse_xattr_list(list),
        vec!["com.casa1.ads.one", "com.apple.quarantine", "com.casa1.ads.two"]
    );
    assert_eq!(streams_in_attributes(list), vec!["one", "two"]);
    assert_eq!(parse_xattr_list(b"a\0\xff\xfe\0b"), vec!["a", "b"]);
}

#[test]
fn streams_are_found_in_the_directory_beside_a_file() {
    let entries = vec![
        "a_5fb__one".to_string(),
        "a_5fb__t%2Fo".to_string(),
        "other__one".to_string(),
        "a_5fb".to_string(),
    ];
    assert_eq!(streams_in_directory("a_b", &entries), vec!["one", "t/o"]);
}

#[test]
fn a_stream_comes_back_from_the_name_of_its_file() {
    for (file, stream) in [
        ("file.txt", "Zone.Identifier"),
        ("under_score", "a__b"),
        ("100%", "50%:/\\"),
        ("\u{fc}ber", "\u{df}\u{1f600}"),
        ("_", "_"),
    ] {
        let path = ads_sidecar_path_for("/dir", file, stream);
        let name = path.strip_prefix("/dir/.casa1_ads/").unwrap();
        assert!(!name.contains('/'));
        assert_eq!(
            ads_sidecar_to_stream(name).unwrap(),
            (file.to_string(), stream.to_string())
        );
    }
    assert_eq!(
        ads_sidecar_path_for("/dir", "file.txt", "Zone.Identifier"),
        "/dir/.casa1_ads/file.txt__Zone.Identifier"
    );
    assert!(ads_sidecar_to_stream("no separator").is_none());
    assert!(ads_sidecar_to_stream("file__").is_none());
}

#[test]
fn components_of_names_are_escaped() {
    assert_eq!(escape_sidecar_component("a_b%c"), "a_5fb_25c");
    assert_eq!(unescape_sidecar_component("a_5fb_25c"), "a_b%c");
    assert_eq!(unescape_sidecar_component("_x"), "_x");
    assert_eq!(encode_stream_name_for_sidecar("a:b/c\\d%e"), "a_253Ab_252Fc_255Cd_2525e");
    assert_eq!(
        decode_stream_name_from_sidecar("a_253Ab_252Fc_255Cd_2525e"),
        "a:b/c\\d%e"
    );
}

#[test]
fn a_file_from_elsewhere_is_marked() {
    assert_eq!(quarantine_mark(0x65f0_12ab, "id"), "Casa1;65f012ab;id");
    assert_eq!(quarantine_mark(0, "id"), "Casa1;0;id");
    let one = new_quarantine_mark(1);
    let other = new_quarantine_mark(1);
    assert!(one.starts_with("Casa1;1;"));
    assert_eq!(one.len(), "Casa1;1;".len() + 32);
    assert_eq!(one.as_bytes()["Casa1;1;".len() + 12], b'4');
    assert_ne!(one, other);
}

#[test]
fn a_backup_is_limited_in_size() {
    assert!(check_backup_size("C:\\a", MAX_BACKUP_READ_SIZE).is_ok());
    let error = check_backup_size("C:\\a", MAX_BACKUP_READ_SIZE + 1).unwrap_err();
    assert_eq!(
        error.message,
        "file C:\\a is 268435457 bytes, exceeding the 268435456 byte backup-read limit"
    );
    assert_eq!(error.code, ReasonCode::RcBufferLimitExceeded);
    let mut data = vec![1u8];
    assert!(add_backup_chunk("C:\\a", &mut data, &[2, 3]).is_ok());
    assert_eq!(data, vec![1, 2, 3]);
}

#[test]
fn a_backup_holds_the_streams_that_could_be_read() {
    let copy = backup_read_file(
        vec![1, 2],
        vec![
            ("one".to_string(), Some(vec![3])),
            ("lost".to_string(), None),
            ("two".to_string(), Some(vec![])),
        ],
    );
    assert_eq!(copy.entries.len(), 3);
    assert_eq!(copy.main_stream().unwrap().data, vec![1, 2]);
    assert_eq!(copy.main_stream().unwrap().stream_type, "$DATA");
    assert_eq!(copy.main_stream().unwrap().size, 2);
    let names: Vec<&str> = copy
        .alternate_streams()
        .iter()
        .map(|entry| entry.stream_name.as_str())
        .collect();
    assert_eq!(names, vec!["one", "two"]);
    assert_eq!(
        backup_write_file(&copy),
        vec![BackupTarget::Contents, BackupTarget::Stream, BackupTarget::Stream]
    );
    assert!(BackupReadResult::empty().main_stream().is_none());
}

#[test]
fn a_copy_of_a_copy_is_the_same_copy() {
    let copy = backup_read_file(
        vec![1, 2],
        vec![
            ("one".to_string(), Some(vec![3])),
            ("two".to_string(), Some(vec![4, 5])),
            ("one".to_string(), Some(vec![3])),
        ],
    );
    let mut contents = None;
    let mut streams = Vec::new();
    for (entry, target) in copy.entries.iter().zip(backup_write_file(&copy)) {
        match target {
            BackupTarget::Contents => contents = Some(entry.data.clone()),
            BackupTarget::Stream => {
                streams.retain(|(name, _)| *name != entry.stream_name);
                streams.insert(0, (entry.stream_name.clone(), Some(entry.data.clone())))
            }
        }
    }
    let again = backup_read_file(contents.unwrap(), streams);
    let parts = |copy: &BackupReadResult| {
        let mut list: Vec<(String, Vec<u8>)> = copy
            .entries
            .iter()
            .map(|entry| (entry.stream_name.clone(), entry.data.clone()))
            .collect();
        list.sort();
        list.dedup();
        list
    };
    assert_eq!(parts(&again), parts(&copy));
    assert_eq!(again.main_stream().unwrap().data, vec![1, 2]);
}

#[test]
fn every_guest_finds_the_same_directories() {
    let list = standard_directories();
    assert_eq!(list.len(), 15);
    assert_eq!(list[0], "drive_c/Windows/System32");
    assert_eq!(list[14], "cache/http");
    assert!(list.iter().all(|directory| !directory.starts_with('/')));
}
