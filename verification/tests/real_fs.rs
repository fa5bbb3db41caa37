//! Windows paths and alternate streams.
use casa1::fs::ntfs::{is_ads_path, parse_ntfs_path};
use casa1::fs::pieces::normalize_windows_path;
use casa1::fs::resolver::{split_drive, WindowsPathResolver};
use casa1::fs::sidecar::{ads_sidecar_path_for, ads_sidecar_to_stream};
use casa1::names::NameMap;
use std::path::Path;
use tempfile::TempDir;

fn file_name(path: &str) -> &str {
    Path::new(path).file_name().unwrap().to_str().unwrap()
}

#[test]
fn path_resolver_maps_c_drive() {
    let tmp = TempDir::new().unwrap();
    let resolver = WindowsPathResolver::new(tmp.path().to_str().unwrap());
    let path = resolver.resolve("C:\\Steam\\Steam.exe", &NameMap::new()).unwrap();
    assert_eq!(
        Path::new(&path),
        tmp.path().join("drive_c").join("Steam").join("Steam.exe")
    );
}

#[test]
fn path_resolver_normalizes_separators() {
    let tmp = TempDir::new().unwrap();
    let resolver = WindowsPathResolver::new(tmp.path().to_str().unwrap());
    let path = resolver.resolve("C:/Steam/Steam.exe", &NameMap::new()).unwrap();
    assert_eq!(
        Path::new(&path),
        tmp.path().join("drive_c").join("Steam").join("Steam.exe")
    );
}

#[test]
fn path_resolver_handles_dot_dot() {
    let tmp = TempDir::new().unwrap();
    let resolver = WindowsPathResolver::new(tmp.path().to_str().unwrap());
    let path = resolver
        .resolve("C:\\Steam\\..\\Windows\\System32", &NameMap::new())
        .unwrap();
    assert_eq!(
        Path::new(&path),
        tmp.path().join("drive_c").join("Windows").join("System32")
    );
}

#[test]
fn split_drive_handles_various_formats() {
    assert_eq!(
        split_drive("C:\\Steam").unwrap(),
        ("C".to_string(), "Steam".to_string())
    );
    assert_eq!(
        split_drive("D:\\Games\\Foo").unwrap(),
        ("D".to_string(), "Games\\Foo".to_string())
    );
    assert_eq!(
        split_drive("\\\\?\\C:\\Windows").unwrap(),
        ("C".to_string(), "Windows".to_string())
    );
}

#[test]
fn to_windows_path_roundtrip() {
    let tmp = TempDir::new().unwrap();
    let resolver = WindowsPathResolver::new(tmp.path().to_str().unwrap());
    let real = tmp.path().join("drive_c/Steam/Steam.exe");
    let win = resolver.to_windows_path(real.to_str().unwrap()).unwrap();
    assert_eq!(win, "C:\\Steam/Steam.exe".replace('/', "\\"));
}

#[test]
fn parse_ntfs_path_verbatim_drive_colon_is_not_ads() {
    // Verbatim paths: the drive colon after "\\\\?\\C" separates no stream.
    let (base, ads) = parse_ntfs_path("\\\\?\\C:\\Steam\\logs\\bootstrap_log.txt");
    assert_eq!(base, "\\\\?\\C:\\Steam\\logs\\bootstrap_log.txt");
    assert!(
        ads.is_none(),
        "verbatim path must not be split on the drive colon"
    );

    let (base, ads) = parse_ntfs_path("\\.\\C:\\Steam\\x.txt");
    assert_eq!(base, "\\.\\C:\\Steam\\x.txt");
    assert!(ads.is_none());

    // A REAL ADS after a verbatim prefix still splits at the stream colon.
    let (base, ads) = parse_ntfs_path("\\\\?\\C:\\Steam\\x.txt:Zone.Identifier");
    assert_eq!(base, "\\\\?\\C:\\Steam\\x.txt");
    let ads = ads.expect("real ADS must still be detected");
    assert_eq!(ads.stream_name, "Zone.Identifier");

    // Plain drive paths keep working.
    let (base, ads) = parse_ntfs_path("C:\\Steam\\file.txt:Zone.Identifier");
    assert_eq!(base, "C:\\Steam\\file.txt");
    assert_eq!(ads.unwrap().stream_name, "Zone.Identifier");
    let (base, ads) = parse_ntfs_path("C:\\Steam\\file.txt");
    assert_eq!(base, "C:\\Steam\\file.txt");
    assert!(ads.is_none());
}

#[test]
fn parse_ntfs_path_with_type() {
    let (file_path, stream) = parse_ntfs_path("file.exe:Zone.Identifier:$DATA");
    assert_eq!(file_path, "file.exe");
    assert!(stream.is_some());
    let stream = stream.unwrap();
    assert_eq!(stream.stream_name, "Zone.Identifier");
    assert_eq!(stream.stream_type, "$DATA");
}

#[test]
fn parse_ntfs_path_no_stream() {
    let (file_path, stream) = parse_ntfs_path("file.exe");
    assert_eq!(file_path, "file.exe");
    assert!(stream.is_none());
}

#[test]
fn parse_ntfs_path_windows_full() {
    let (file_path, stream) = parse_ntfs_path("C:\\Users\\test\\file.exe:Zone.Identifier");
    assert_eq!(file_path, "C:\\Users\\test\\file.exe");
    assert!(stream.is_some());
    let stream = stream.unwrap();
    assert_eq!(stream.stream_name, "Zone.Identifier");
    assert_eq!(stream.stream_type, "$DATA");
}

#[test]
fn parse_ntfs_path_windows_full_with_type() {
    let (file_path, stream) =
        parse_ntfs_path("C:\\Users\\test\\file.exe:Zone.Identifier:$DATA");
    assert_eq!(file_path, "C:\\Users\\test\\file.exe");
    assert!(stream.is_some());
    let stream = stream.unwrap();
    assert_eq!(stream.stream_name, "Zone.Identifier");
    assert_eq!(stream.stream_type, "$DATA");
}

#[test]
fn is_ads_path_positive() {
    assert!(is_ads_path("file.exe:Zone.Identifier"));
    assert!(is_ads_path("C:\\path\\file.exe:MyStream"));
}

#[test]
fn is_ads_path_negative() {
    assert!(!is_ads_path("file.exe"));
    assert!(!is_ads_path("C:\\Windows\\System32\\kernel32.dll"));
    assert!(!is_ads_path(""));
}

#[test]
fn parse_ntfs_path_c_drive_no_stream() {
    let (file_path, stream) = parse_ntfs_path("C:\\Windows\\System32\\ntdll.dll");
    assert_eq!(file_path, "C:\\Windows\\System32\\ntdll.dll");
    assert!(stream.is_none());
}

#[test]
fn parse_ntfs_path_multi_colon_complex() {
    let (file_path, stream) = parse_ntfs_path("D:\\Games\\MyGame\\save.dat:backup:$DATA");
    assert_eq!(file_path, "D:\\Games\\MyGame\\save.dat");
    assert!(stream.is_some());
    let stream = stream.unwrap();
    assert_eq!(stream.stream_name, "backup");
    assert_eq!(stream.stream_type, "$DATA");
}

#[test]
fn ads_sidecar_roundtrip_with_escaped_components() {
    let base = "some dir";
    let stream = "Stream__Name_x";

    let sidecar = ads_sidecar_path_for(base, "file_x.txt", stream);
    let decoded = ads_sidecar_to_stream(file_name(&sidecar)).unwrap();
    assert_eq!(decoded.0, "file_x.txt");
    assert_eq!(decoded.1, stream);

    // Traversal stream names are encoded, not escaped: the sidecar stays
    // inside the .casa1_ads/ directory and round-trips exactly.
    for evil in ["../evil", "a/b", "a\\b", "..", "a:b", "a%2Fb"] {
        let sidecar = ads_sidecar_path_for(base, "file.txt", evil);
        let parent_dir = Path::new(&sidecar).parent().unwrap();
        assert_eq!(
            parent_dir
                .file_name()
                .map(|n| n.to_string_lossy().to_string()),
            Some(".casa1_ads".to_string()),
            "sidecar for {evil:?} must stay inside .casa1_ads"
        );
        let decoded = ads_sidecar_to_stream(file_name(&sidecar)).unwrap();
        assert_eq!(decoded.0, "file.txt");
        assert_eq!(decoded.1, evil, "encode/decode must round-trip {evil:?}");
    }
}

#[test]
fn normalize_forward_slashes_to_backslashes() {
    assert_eq!(
        normalize_windows_path("C:/Users/test/Documents"),
        "C:\\Users\\test\\Documents"
    );
}

#[test]
fn normalize_collapses_dot_dot() {
    assert_eq!(
        normalize_windows_path("C:\\Users\\test\\..\\Documents"),
        "C:\\Users\\Documents"
    );
}

#[test]
fn normalize_removes_dot_components() {
    assert_eq!(
        normalize_windows_path("C:\\Users\\.\\test"),
        "C:\\Users\\test"
    );
}

#[test]
fn normalize_handles_mixed_separators() {
    assert_eq!(
        normalize_windows_path("C:/Users\\test/Documents/file.txt"),
        "C:\\Users\\test\\Documents\\file.txt"
    );
}

#[test]
fn split_drive_unc_path_prefix() {
    // \\?\C:\path should strip the \\?\ prefix
    let (drive, rest) = split_drive(r"\\?\C:\Users\test").unwrap();
    assert_eq!(drive, "C");
    assert_eq!(rest, "Users\\test");
}

#[test]
fn split_drive_device_prefix() {
    // \\.\pipe\name should return DEV drive
    let (drive, rest) = split_drive(r"\\.\pipe\myname").unwrap();
    assert_eq!(drive, "DEV");
    assert!(rest.contains("pipe"));
}

#[test]
fn split_drive_standard_drive() {
    let (drive, rest) = split_drive(r"C:\Windows\System32").unwrap();
    assert_eq!(drive, "C");
    assert_eq!(rest, "Windows\\System32");
}

#[test]
fn split_drive_no_colon_defaults_to_c() {
    let (drive, rest) = split_drive("relative\\path").unwrap();
    assert_eq!(drive, "C");
    assert_eq!(rest, "relative\\path");
}

#[test]
fn normalize_long_path() {
    // Build a path longer than 260 characters
    let long_segment = "a".repeat(50);
    let long_path = format!("C:\\{}", long_segment.clone());
    let normalized = normalize_windows_path(&long_path);
    assert_eq!(normalized, format!("C:\\{}", long_segment));
}

#[test]
fn split_drive_reserved_device_con() {
    // Windows reserved device names: CON, PRN, AUX, NUL, COM1-9, LPT1-9
    // These should still parse through split_drive without panicking
    let (drive, _rest) = split_drive("CON").unwrap();
    // No colon, so defaults to C drive
    assert_eq!(drive, "C");
}

#[test]
fn split_drive_reserved_device_aux() {
    let (drive, _rest) = split_drive("AUX").unwrap();
    assert_eq!(drive, "C");
}

#[test]
fn split_drive_reserved_device_nul() {
    let (drive, _rest) = split_drive("NUL").unwrap();
    assert_eq!(drive, "C");
}

#[test]
fn split_drive_reserved_device_com1() {
    let (drive, _rest) = split_drive("COM1").unwrap();
    assert_eq!(drive, "C");
}

#[test]
fn split_drive_reserved_device_lpt9() {
    let (drive, _rest) = split_drive("LPT9").unwrap();
    assert_eq!(drive, "C");
}

#[test]
fn normalize_path_with_invalid_chars() {
    // Characters like <>:"|?* are invalid in Windows paths
    // normalize_windows_path should still process them (it's a normalization function)
    let result = normalize_windows_path("C:\\path<with>invalid|chars");
    assert!(result.contains("path<with>invalid|chars"));
}

#[test]
fn split_drive_with_colon_in_path() {
    let (drive, rest) = split_drive("C:\\path:with:colons").unwrap();
    assert_eq!(drive, "C");
    // Only the first colon is used as the drive separator
    assert!(rest.contains("path:with:colons"));
}

#[test]
fn split_drive_reserved_device_with_extension() {
    // Reserved device names with extensions like CON.txt, NUL.dat
    // should still be handled by split_drive, not treated differently
    let (drive, rest) = split_drive("CON.txt").unwrap();
    assert_eq!(drive, "C", "CON.txt should default to C drive");
    assert!(!rest.is_empty(), "should have rest after CON.txt");

    let (drive2, rest2) = split_drive("NUL.dat").unwrap();
    assert_eq!(drive2, "C", "NUL.dat should default to C drive");
    assert!(!rest2.is_empty(), "should have rest after NUL.dat");

    let (drive3, _rest3) = split_drive("LPT1.000").unwrap();
    assert_eq!(drive3, "C", "LPT1.000 should default to C drive");
}
