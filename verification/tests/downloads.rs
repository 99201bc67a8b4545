//! Downloads: their states, their names, and where they go.

use velox_browser::downloads::{
    build_destination, open_path_command, open_path_command_on, resolve_unix_download_dir, sanitize_filename,
    unique_filename, DownloadId, DownloadState, DownloadStore, FALLBACK_FILENAME,
    MAX_FILENAME_BYTES,
};
use velox_browser::platform::Platform;

#[test]
fn store_start_creates_an_in_progress_entry() {
    let mut store = DownloadStore::new();
    let id = store.start(
        "https://example.com/report.pdf".to_owned(),
        "report.pdf".to_owned(),
        "/tmp/downloads/report.pdf".to_owned(),
        100,
    );
    let entry = store.get(id).unwrap();
    assert_eq!(entry.state, DownloadState::InProgress);
    assert_eq!(entry.started_at, 100);
    assert_eq!(entry.finished_at, None);
    assert_eq!(entry.error, None);
}

#[test]
fn complete_transitions_from_in_progress_and_sets_finished_at() {
    let mut store = DownloadStore::new();
    let id = store.start("u".into(), "f".into(), "/tmp/f".to_owned(), 1);
    assert!(store.complete(id, 5));
    let entry = store.get(id).unwrap();
    assert_eq!(entry.state, DownloadState::Completed);
    assert_eq!(entry.finished_at, Some(5));
}

#[test]
fn fail_transitions_from_in_progress_and_records_reason() {
    let mut store = DownloadStore::new();
    let id = store.start("u".into(), "f".into(), "/tmp/f".to_owned(), 1);
    assert!(store.fail(id, "network error".to_owned(), 9));
    let entry = store.get(id).unwrap();
    assert_eq!(entry.state, DownloadState::Failed);
    assert_eq!(entry.error.as_deref(), Some("network error"));
    assert_eq!(entry.finished_at, Some(9));
}

#[test]
fn cancel_transitions_from_in_progress() {
    let mut store = DownloadStore::new();
    let id = store.start("u".into(), "f".into(), "/tmp/f".to_owned(), 1);
    assert!(store.cancel(id, 3));
    assert_eq!(store.get(id).unwrap().state, DownloadState::Cancelled);
}

#[test]
fn terminal_states_reject_every_further_transition() {
    let mut store = DownloadStore::new();
    let id = store.start("u".into(), "f".into(), "/tmp/f".to_owned(), 1);
    assert!(store.complete(id, 2));
    assert!(!store.complete(id, 3));
    assert!(!store.fail(id, "x".to_owned(), 3));
    assert!(!store.cancel(id, 3));
    assert_eq!(store.get(id).unwrap().state, DownloadState::Completed);
    assert_eq!(store.get(id).unwrap().finished_at, Some(2));
}

#[test]
fn unknown_id_transitions_are_a_noop_not_a_panic() {
    let mut store = DownloadStore::new();
    let bogus = DownloadId::from(999);
    assert!(!store.complete(bogus, 1));
    assert!(!store.fail(bogus, "x".to_owned(), 1));
    assert!(!store.cancel(bogus, 1));
    assert!(store.get(bogus).is_none());
}

#[test]
fn is_terminal_matches_the_three_terminal_states() {
    assert!(!DownloadState::InProgress.is_terminal());
    assert!(DownloadState::Completed.is_terminal());
    assert!(DownloadState::Failed.is_terminal());
    assert!(DownloadState::Cancelled.is_terminal());
}

#[test]
fn remove_drops_an_entry_and_ids_stay_unique_afterwards() {
    let mut store = DownloadStore::new();
    let first = store.start("u".into(), "f".into(), "/tmp/f".to_owned(), 1);
    assert!(store.remove(first));
    assert!(store.get(first).is_none());
    assert!(!store.remove(first));
    let second = store.start("u".into(), "f".into(), "/tmp/f".to_owned(), 2);
    assert_ne!(first, second);
}

#[test]
fn entries_newest_first_reverses_start_order() {
    let mut store = DownloadStore::new();
    store.start("a".into(), "a".into(), "/tmp/a".to_owned(), 1);
    store.start("b".into(), "b".into(), "/tmp/b".to_owned(), 2);
    let urls: Vec<&str> = store
        .entries_newest_first()
        .iter()
        .map(|e| e.url.as_str())
        .collect();
    assert_eq!(urls, ["b", "a"]);
}

#[test]
fn resolve_completion_matches_by_url_when_only_one_is_in_progress() {
    let mut store = DownloadStore::new();
    let id = store.start(
        "https://example.com/f".to_owned(),
        "f".into(),
        "/tmp/f".to_owned(),
        1,
    );
    assert_eq!(
        store.resolve_completion("https://example.com/f", None),
        Some(id)
    );
}

#[test]
fn resolve_completion_prefers_exact_destination_match() {
    let mut store = DownloadStore::new();
    let first = store.start(
        "https://example.com/f".to_owned(),
        "f".into(),
        "/tmp/f".to_owned(),
        1,
    );
    let second = store.start(
        "https://example.com/f".to_owned(),
        "f (1)".into(),
        "/tmp/f (1)".to_owned(),
        2,
    );
    assert_eq!(
        store.resolve_completion("https://example.com/f", Some("/tmp/f (1)")),
        Some(second)
    );
    assert_eq!(
        store.resolve_completion("https://example.com/f", Some("/tmp/f")),
        Some(first)
    );
}

#[test]
fn resolve_completion_falls_back_to_oldest_in_progress_for_the_url_without_a_path() {
    let mut store = DownloadStore::new();
    let first = store.start(
        "https://example.com/f".to_owned(),
        "f".into(),
        "/tmp/f".to_owned(),
        1,
    );
    store.start(
        "https://example.com/f".to_owned(),
        "f (1)".into(),
        "/tmp/f (1)".to_owned(),
        2,
    );
    assert_eq!(
        store.resolve_completion("https://example.com/f", None),
        Some(first)
    );
}

#[test]
fn resolve_completion_ignores_completed_entries() {
    let mut store = DownloadStore::new();
    let id = store.start("u".into(), "f".into(), "/tmp/f".to_owned(), 1);
    store.complete(id, 2);
    assert_eq!(store.resolve_completion("u", None), None);
}

#[test]
fn resolve_completion_returns_none_for_an_unrelated_url() {
    let mut store = DownloadStore::new();
    store.start("u".into(), "f".into(), "/tmp/f".to_owned(), 1);
    assert_eq!(store.resolve_completion("other", None), None);
}

#[test]
fn keeps_an_ordinary_filename_unchanged() {
    assert_eq!(sanitize_filename("report.pdf"), "report.pdf");
    assert_eq!(sanitize_filename("archive.tar.gz"), "archive.tar.gz");
}

#[test]
fn keeps_unicode_filenames_unchanged() {
    assert_eq!(sanitize_filename("レポート.pdf"), "レポート.pdf");
}

#[test]
fn strips_relative_path_traversal_to_the_basename() {
    assert_eq!(sanitize_filename("../../etc/passwd"), "passwd");
    assert_eq!(sanitize_filename("..\\..\\cmd.exe"), "cmd.exe");
    assert_eq!(sanitize_filename("a/b/../../c.txt"), "c.txt");
}

#[test]
fn strips_absolute_paths_to_the_basename() {
    assert_eq!(sanitize_filename("/etc/passwd"), "passwd");
    assert_eq!(
        sanitize_filename(r"C:\Windows\System32\evil.exe"),
        "evil.exe"
    );
}

#[test]
fn rejects_bare_dot_and_dotdot() {
    assert_eq!(sanitize_filename("."), FALLBACK_FILENAME);
    assert_eq!(sanitize_filename(".."), FALLBACK_FILENAME);
    assert_eq!(sanitize_filename("../.."), FALLBACK_FILENAME);
}

#[test]
fn strips_nul_and_other_control_characters() {
    assert_eq!(sanitize_filename("evil\0.txt"), "evil.txt");
    assert_eq!(sanitize_filename("a\nb\tc.txt"), "abc.txt");
}

#[test]
fn trims_trailing_dots_and_spaces() {
    assert_eq!(sanitize_filename("evil.txt..."), "evil.txt");
    assert_eq!(sanitize_filename("evil.txt   "), "evil.txt");
    assert_eq!(sanitize_filename("evil.txt. . "), "evil.txt");
}

#[test]
fn empty_or_whitespace_only_falls_back() {
    assert_eq!(sanitize_filename(""), FALLBACK_FILENAME);
    assert_eq!(sanitize_filename("   "), FALLBACK_FILENAME);
    assert_eq!(sanitize_filename("...."), FALLBACK_FILENAME);
    assert_eq!(sanitize_filename("\0\0\0"), FALLBACK_FILENAME);
}

#[test]
fn escapes_windows_reserved_device_names_case_insensitively() {
    for name in ["CON", "con", "PRN", "AUX", "NUL", "Nul"] {
        let sanitized = sanitize_filename(name);
        assert_eq!(sanitized, format!("_{name}"));
    }
    assert_eq!(sanitize_filename("CON.txt"), "_CON.txt");
    assert_eq!(sanitize_filename("com1.txt"), "_com1.txt");
    assert_eq!(sanitize_filename("LPT9"), "_LPT9");
}

#[test]
fn does_not_flag_names_that_merely_start_with_a_reserved_prefix() {
    assert_eq!(sanitize_filename("CONSTITUTION.txt"), "CONSTITUTION.txt");
    assert_eq!(sanitize_filename("COMPANY.pdf"), "COMPANY.pdf");
    assert_eq!(sanitize_filename("comedy.mp4"), "comedy.mp4");
    assert_eq!(sanitize_filename("COM0.txt"), "COM0.txt");
}

#[test]
fn truncates_extremely_long_filenames_preserving_the_extension() {
    let long_stem = "a".repeat(500);
    let raw = format!("{long_stem}.pdf");
    let sanitized = sanitize_filename(&raw);
    assert!(sanitized.len() <= MAX_FILENAME_BYTES);
    assert!(sanitized.ends_with(".pdf"));
}

#[test]
fn truncates_an_extremely_long_filename_with_no_extension() {
    let raw = "a".repeat(500);
    let sanitized = sanitize_filename(&raw);
    assert!(sanitized.len() <= MAX_FILENAME_BYTES);
    assert!(!sanitized.is_empty());
}

#[test]
fn truncation_stays_on_a_utf8_char_boundary() {
    let raw = format!("{}.txt", "あ".repeat(300));
    let sanitized = sanitize_filename(&raw);
    assert!(sanitized.len() <= MAX_FILENAME_BYTES);
    assert!(sanitized.ends_with(".txt"));
    assert!(std::str::from_utf8(sanitized.as_bytes()).is_ok());
}

#[test]
fn handles_a_dotfile_with_no_further_extension() {
    assert_eq!(sanitize_filename(".gitignore"), ".gitignore");
}

#[test]
fn handles_a_filename_with_no_extension_at_all() {
    assert_eq!(sanitize_filename("README"), "README");
}

#[test]
fn unique_filename_is_unchanged_when_free() {
    assert_eq!(unique_filename("report.pdf", |_| false), "report.pdf");
}

#[test]
fn unique_filename_appends_a_counter_on_collision() {
    let taken = ["report.pdf"];
    assert_eq!(
        unique_filename("report.pdf", |name| taken.contains(&name)),
        "report (1).pdf"
    );
}

#[test]
fn unique_filename_advances_the_counter_until_free() {
    let taken = ["report.pdf", "report (1).pdf", "report (2).pdf"];
    assert_eq!(
        unique_filename("report.pdf", |name| taken.contains(&name)),
        "report (3).pdf"
    );
}

#[test]
fn unique_filename_keeps_a_compound_extension_intact() {
    let taken = ["archive.tar.gz"];
    assert_eq!(
        unique_filename("archive.tar.gz", |name| taken.contains(&name)),
        "archive (1).tar.gz"
    );
}

#[test]
fn unique_filename_handles_no_extension() {
    let taken = ["README"];
    assert_eq!(
        unique_filename("README", |name| taken.contains(&name)),
        "README (1)"
    );
}

#[test]
fn unique_filename_handles_a_dotfile() {
    let taken = [".gitignore"];
    assert_eq!(
        unique_filename(".gitignore", |name| taken.contains(&name)),
        ".gitignore (1)"
    );
}

#[test]
fn unix_dir_prefers_xdg_download_dir_when_set() {
    assert_eq!(
        resolve_unix_download_dir(Some("/custom/downloads"), Some("/home/alice")),
        Some("/custom/downloads".to_owned())
    );
}

#[test]
fn unix_dir_falls_back_to_home_downloads() {
    assert_eq!(
        resolve_unix_download_dir(None, Some("/home/alice")),
        Some("/home/alice/Downloads".to_owned())
    );
}

#[test]
fn unix_dir_is_none_without_xdg_or_home() {
    assert_eq!(resolve_unix_download_dir(None, None), None);
}

#[test]
fn open_path_command_never_goes_through_a_shell() {
    let (program, args) = open_path_command("/home/user/Downloads/report.pdf");
    assert!(!program.contains("sh"));
    assert_eq!(args, vec!["/home/user/Downloads/report.pdf".to_owned()]);
}

#[test]
fn open_path_command_uses_xdg_open_on_linux() {
    let (program, _) = open_path_command("/tmp/x");
    assert_eq!(program, "xdg-open");
}

#[test]
fn each_platform_has_its_own_opener() {
    for (platform, program) in [
        (Platform::Unix, "xdg-open"),
        (Platform::MacOs, "open"),
        (Platform::Windows, "explorer"),
    ] {
        assert_eq!(
            open_path_command_on(platform, "a b;c"),
            (program, vec!["a b;c".to_owned()])
        );
    }
}

#[test]
fn build_destination_sanitizes_then_avoids_collisions_on_a_real_directory() {
    let taken = ["report.pdf"];
    let dest = build_destination("/downloads", "../../etc/report.pdf", |name| {
        taken.contains(&name)
    });
    assert_eq!(dest, "/downloads/report (1).pdf");
}

#[test]
fn a_download_ends_once() {
    let mut store = DownloadStore::new();
    let first = store.start("u".into(), "f".into(), "/tmp/f".to_owned(), 1);
    let second = store.start("u".into(), "g".into(), "/tmp/g".to_owned(), 2);
    assert!(store.fail(first, "gone".to_owned(), 3));
    assert!(!store.complete(first, 4));
    assert_eq!(store.resolve_completion("u", None), Some(second));
    assert_eq!(store.get(second).unwrap().state, DownloadState::InProgress);
}

#[test]
fn the_same_path_can_be_written_in_several_ways() {
    let mut store = DownloadStore::new();
    store.start("u".into(), "f".into(), "/tmp/f".to_owned(), 1);
    let second = store.start("u".into(), "g".into(), "/tmp/g".to_owned(), 2);
    assert_eq!(store.resolve_completion("u", Some("/tmp//./g")), Some(second));
}

#[test]
fn numbered_names_are_distinct() {
    let first = unique_filename("a.txt", |name| name == "a.txt");
    let second = unique_filename("a.txt", |name| name == "a.txt" || name == "a (1).txt");
    assert_eq!((first.as_str(), second.as_str()), ("a (1).txt", "a (2).txt"));
}

#[test]
fn a_name_is_found_even_where_every_number_is_taken() {
    let name = unique_filename("a.txt", |name| {
        name == "a.txt" || name.len() < "a (100000).txt".len()
    });
    assert!(name.starts_with("a (") && name.ends_with(").txt"), "{name}");
    assert!(name.len() >= "a (100000).txt".len());
}

#[test]
fn a_cut_name_can_be_a_reserved_one() {
    let raw = format!("CONS.{}", "x".repeat(196));
    let name = sanitize_filename(&raw);
    assert!(name.len() <= MAX_FILENAME_BYTES);
    assert!(name.starts_with("CON"));
}
