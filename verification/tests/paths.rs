//! Paths as texts, on each platform.

use velox_browser::downloads::{build_destination_on, DownloadStore};
use velox_browser::paths::{join_on, same_path_on};
use velox_browser::platform::Platform;

#[test]
fn a_name_is_joined_with_the_separator_of_the_platform() {
    for platform in [Platform::Unix, Platform::MacOs] {
        assert_eq!(join_on(platform, "/d", "f"), "/d/f");
        assert_eq!(join_on(platform, "/d/", "f"), "/d/f");
        assert_eq!(join_on(platform, "", "f"), "f");
        assert_eq!(join_on(platform, "/d", "/f"), "/f");
        assert_eq!(join_on(platform, "C:\\d", "f"), "C:\\d/f");
        assert_eq!(join_on(platform, "/d", "C:f"), "/d/C:f");
    }
    assert_eq!(join_on(Platform::Windows, "C:\\d", "f"), "C:\\d\\f");
    assert_eq!(join_on(Platform::Windows, "C:\\d\\", "f"), "C:\\d\\f");
    assert_eq!(join_on(Platform::Windows, "C:/d/", "f"), "C:/d/f");
    assert_eq!(join_on(Platform::Windows, "", "f"), "f");
}

#[test]
fn prefixes_decide_what_a_join_keeps_on_windows() {
    let join = |dir: &str, name: &str| join_on(Platform::Windows, dir, name);
    assert_eq!(join("C:", "f"), "C:f");
    assert_eq!(join("C:\\d", "\\f"), "C:\\f");
    assert_eq!(join("C:\\d", "/f"), "C:/f");
    assert_eq!(join("C:\\d", "D:f"), "D:f");
    assert_eq!(join("C:\\d", "D:\\f"), "D:\\f");
    assert_eq!(join("\\\\server\\share\\d", "\\f"), "\\\\server\\share\\f");
    assert_eq!(join("\\\\server\\share", "f"), "\\\\server\\share\\f");
    assert_eq!(join("C:\\d", "\\\\server\\share"), "\\\\server\\share");
    assert_eq!(join("C:\\d", "\\\\.\\COM1"), "\\\\.\\COM1");
}

#[test]
fn a_join_to_a_verbatim_path_is_written_out_anew() {
    let join = |dir: &str, name: &str| join_on(Platform::Windows, dir, name);
    assert_eq!(join("\\\\?\\C:\\d\\", "f"), "\\\\?\\C:\\d\\f");
    assert_eq!(join("\\\\?\\C:\\d", ".\\e/../f"), "\\\\?\\C:\\d\\f");
    assert_eq!(join("\\\\?\\C:\\d", "\\f"), "\\\\?\\C:\\f");
    assert_eq!(join("\\\\?\\C:\\d", ".."), "\\\\?\\C:\\");
    assert_eq!(join("\\\\?\\UNC\\server\\share\\d", "f"), "\\\\?\\UNC\\server\\share\\d\\f");
}

#[test]
fn both_separators_are_alike_on_windows_only() {
    assert!(same_path_on(Platform::Windows, "C:\\d\\f", "C:/d/f"));
    assert!(same_path_on(Platform::Windows, "C:\\d\\f", "c:\\d\\\\.\\f\\"));
    assert!(!same_path_on(Platform::Windows, "C:\\d\\f", "C:\\d\\F"));
    assert!(!same_path_on(Platform::Windows, "C:\\d", "C:d"));
    assert!(!same_path_on(Platform::Windows, "C:\\d", "D:\\d"));
    assert!(!same_path_on(Platform::Unix, "C:\\d\\f", "C:/d/f"));
    assert!(!same_path_on(Platform::Unix, "c:", "C:"));
}

#[test]
fn prefixes_are_compared_on_windows() {
    let same = |a: &str, b: &str| same_path_on(Platform::Windows, a, b);
    assert!(same("\\\\server\\share", "//server/share/"));
    assert!(!same("\\\\server\\share", "\\\\server\\other"));
    assert!(same("\\\\?\\c:\\d", "\\\\?\\C:\\d"));
    assert!(!same("\\\\?\\C:\\d", "C:\\d"));
    assert!(!same("\\\\?\\C:\\d", "\\\\?\\C:\\.\\d"));
    assert!(!same("\\\\?\\C:\\d/e", "\\\\?\\C:\\d\\e"));
    assert!(!same("\\\\?\\C:\\d", "//?/C:/d"));
    assert!(same("\\\\.\\COM1", "//./COM1"));
}

#[test]
fn a_completion_on_windows_is_found_by_either_separator() {
    let mut store = DownloadStore::new();
    let first = store.start("u".to_owned(), "f".to_owned(), "C:\\d\\f".to_owned(), 1);
    let second = store.start("u".to_owned(), "f".to_owned(), "C:\\d\\f (1)".to_owned(), 2);
    let resolve = |d| store.resolve_completion_on(Platform::Windows, "u", Some(d));
    assert_eq!(resolve("C:/d/f (1)"), Some(second));
    assert_eq!(resolve("c:\\d\\f"), Some(first));
    assert_eq!(resolve("C:\\elsewhere"), Some(first));
    assert_eq!(store.resolve_completion("u", Some("C:/d/f (1)")), Some(first));
}

#[test]
fn a_destination_on_windows_is_in_the_directory() {
    let path = build_destination_on(Platform::Windows, "C:\\d", "..\\f.txt", |name| name == "f.txt");
    assert_eq!(path, "C:\\d\\f (1).txt");
}
