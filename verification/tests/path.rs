use backup_inventory::error::ReportError;
use backup_inventory::json::Json;
use backup_inventory::path::{encoded_path, NativePath};

fn encoded(encoding: &str, value: &str) -> Json {
    Json::Object(vec![
        ("encoding".to_string(), Json::text(encoding)),
        ("value".to_string(), Json::text(value)),
    ])
}

#[test]
fn filenames_are_lossless_even_with_invalid_utf8_and_newlines() {
    assert_eq!(
        encoded_path(&NativePath::UnixBytes(b"a/\xff\n*?".to_vec())).unwrap(),
        encoded("unix-bytes-hex", "612fff0a2a3f")
    );
}

#[test]
fn windows_code_units_are_little_endian() {
    assert_eq!(
        encoded_path(&NativePath::WindowsUtf16(vec![0x0041, 0xd800, 0x20ac])).unwrap(),
        encoded("windows-utf16le-hex", "410000d8ac20")
    );
}

#[test]
fn portable_paths_are_utf8_or_refused() {
    assert_eq!(
        encoded_path(&NativePath::Portable(Some("aé€".to_string()))).unwrap(),
        encoded("utf8-hex", "61c3a9e282ac")
    );
    assert_eq!(
        encoded_path(&NativePath::Portable(None)),
        Err(ReportError::UnencodablePath)
    );
}

#[test]
fn the_empty_path_has_an_encoding() {
    assert_eq!(
        encoded_path(&NativePath::UnixBytes(Vec::new())).unwrap(),
        encoded("unix-bytes-hex", "")
    );
}

#[test]
fn paths_of_different_platforms_do_not_meet() {
    let unix = encoded_path(&NativePath::UnixBytes(b"A\0".to_vec())).unwrap();
    let windows = encoded_path(&NativePath::WindowsUtf16(vec![0x41])).unwrap();
    let portable = encoded_path(&NativePath::Portable(Some("A\0".to_string()))).unwrap();
    assert_ne!(unix, windows);
    assert_ne!(unix, portable);
    assert_ne!(windows, portable);
}
