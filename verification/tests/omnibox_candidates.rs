//! Rows for the list below the address bar from what the browser remembers.

use velox_browser::bookmarks::BookmarkStore;
use velox_browser::history::HistoryStore;
use velox_browser::input_history::InputHistoryStore;
use velox_browser::omnibox::{Candidate, CandidateKind, CandidateSource};
use velox_browser::omnibox_candidates::{HistoryBookmarkSource, InputHistorySource};

fn history_bookmark_source<'a>(
    history: &'a HistoryStore,
    bookmarks: &'a BookmarkStore,
) -> HistoryBookmarkSource<'a> {
    HistoryBookmarkSource {
        history: Some(history),
        bookmarks,
        now: 1_000,
    }
}

#[test]
fn history_bookmark_source_yields_no_candidates_for_blank_input() {
    let history = HistoryStore::new();
    let bookmarks = BookmarkStore::new();
    let source = history_bookmark_source(&history, &bookmarks);
    assert!(source.candidates("", 8).is_empty());
    assert!(source.candidates("   ", 8).is_empty());
}

#[test]
fn history_bookmark_source_yields_no_candidates_when_limit_is_zero() {
    let mut history = HistoryStore::new();
    history.record_visit("https://example.com/", Some("Example".to_owned()), 1, 0);
    let bookmarks = BookmarkStore::new();
    let source = history_bookmark_source(&history, &bookmarks);
    assert!(source.candidates("example", 0).is_empty());
}

#[test]
fn history_bookmark_source_labels_and_details_a_titled_match() {
    let mut history = HistoryStore::new();
    history.record_visit(
        "https://example.com/",
        Some("Example Domain".to_owned()),
        1,
        0,
    );
    let bookmarks = BookmarkStore::new();
    let source = history_bookmark_source(&history, &bookmarks);
    let candidates = source.candidates("example", 8);
    assert_eq!(candidates.len(), 1);
    assert_eq!(candidates[0].kind, CandidateKind::History);
    assert_eq!(candidates[0].target_url, "https://example.com/");
    assert_eq!(candidates[0].label, "Example Domain");
    assert_eq!(
        candidates[0].detail.as_deref(),
        Some("https://example.com/")
    );
}

#[test]
fn history_bookmark_source_falls_back_to_the_url_as_label_with_no_detail_when_untitled() {
    let mut history = HistoryStore::new();
    history.record_visit("https://example.com/", None, 1, 0);
    let bookmarks = BookmarkStore::new();
    let source = history_bookmark_source(&history, &bookmarks);
    let candidates = source.candidates("example", 8);
    assert_eq!(candidates[0].label, "https://example.com/");
    assert_eq!(candidates[0].detail, None);
}

#[test]
fn history_bookmark_source_marks_a_bookmarked_url_as_bookmark_kind() {
    let history = HistoryStore::new();
    let mut bookmarks = BookmarkStore::new();
    bookmarks.add("https://example.com/", Some("Example".to_owned()), 1);
    let source = history_bookmark_source(&history, &bookmarks);
    let candidates = source.candidates("example", 8);
    assert_eq!(candidates.len(), 1);
    assert_eq!(candidates[0].kind, CandidateKind::Bookmark);
}

#[test]
fn history_bookmark_source_deduplicates_a_url_that_is_both_visited_and_bookmarked() {
    let mut history = HistoryStore::new();
    history.record_visit("https://example.com/", Some("Example".to_owned()), 1, 0);
    let mut bookmarks = BookmarkStore::new();
    bookmarks.add("https://example.com/", Some("Example".to_owned()), 1);
    let source = history_bookmark_source(&history, &bookmarks);
    assert_eq!(source.candidates("example", 8).len(), 1);
}

#[test]
fn history_bookmark_source_respects_the_remaining_limit() {
    let mut history = HistoryStore::new();
    for i in 0..5 {
        history.record_visit(&format!("https://example{i}.test/"), None, i, 0);
    }
    let bookmarks = BookmarkStore::new();
    let source = history_bookmark_source(&history, &bookmarks);
    assert_eq!(source.candidates("example", 2).len(), 2);
}

const DDG: &str = "https://duckduckgo.com/?q={}";

fn input_history_source(store: &InputHistoryStore) -> InputHistorySource<'_> {
    InputHistorySource {
        store,
        search_engine_name: "DuckDuckGo",
        search_query_template: DDG,
        now: 1_000,
    }
}

#[test]
fn input_history_source_suggests_a_matching_past_query() {
    let mut store = InputHistoryStore::new();
    store.record("rust ownership", 1, 0);
    let source = input_history_source(&store);
    let candidates = source.candidates("rust", 8);
    assert_eq!(candidates.len(), 1);
    assert_eq!(candidates[0].kind, CandidateKind::Search);
    assert_eq!(candidates[0].label, "rust ownership");
    assert_eq!(
        candidates[0].target_url,
        "https://duckduckgo.com/?q=rust+ownership"
    );
    assert_eq!(candidates[0].detail.as_deref(), Some("DuckDuckGo で検索"));
}

#[test]
fn input_history_source_skips_a_query_identical_to_the_current_input() {
    let mut store = InputHistoryStore::new();
    store.record("rust", 1, 0);
    store.record("rust ownership", 1, 0);
    let source = input_history_source(&store);
    let candidates = source.candidates("rust", 8);
    assert_eq!(candidates.len(), 1);
    assert_eq!(candidates[0].label, "rust ownership");
}

#[test]
fn input_history_source_yields_no_candidates_for_blank_input() {
    let mut store = InputHistoryStore::new();
    store.record("rust ownership", 1, 0);
    let source = input_history_source(&store);
    assert!(source.candidates("", 8).is_empty());
}

fn stores() -> (HistoryStore, BookmarkStore) {
    let mut history = HistoryStore::new();
    history.record_visit(
        "https://secret.example/plans",
        Some("極秘の計画".to_owned()),
        900,
        100,
    );
    let mut bookmarks = BookmarkStore::new();
    bookmarks.add(
        "https://bookmarked.example/docs",
        Some("保存した資料".to_owned()),
        900,
    );
    (history, bookmarks)
}

fn candidates_for(
    history: Option<&HistoryStore>,
    bookmarks: &BookmarkStore,
    input: &str,
) -> Vec<Candidate> {
    HistoryBookmarkSource {
        history,
        bookmarks,
        now: 1_000,
    }
    .candidates(input, 8)
}

#[test]
fn history_is_withheld_when_no_store_is_passed() {
    let (_history, bookmarks) = stores();
    let found = candidates_for(None, &bookmarks, "example");
    assert!(
        found.iter().all(|c| c.kind != CandidateKind::History),
        "private ウィンドウに履歴が漏れている: {found:?}"
    );
    assert!(
        !found.iter().any(|c| c.target_url.contains("secret")),
        "private ウィンドウに通常ウィンドウの訪問先が漏れている: {found:?}"
    );
}

#[test]
fn bookmarks_are_still_shown() {
    let (_history, bookmarks) = stores();
    let found = candidates_for(None, &bookmarks, "example");
    assert!(
        found
            .iter()
            .any(|c| c.kind == CandidateKind::Bookmark
                && c.target_url.contains("bookmarked")),
        "ブックマークまで消している (実ブラウザは incognito でも出す): {found:?}"
    );
}

#[test]
fn a_normal_window_still_sees_history() {
    let (history, bookmarks) = stores();
    let found = candidates_for(Some(&history), &bookmarks, "example");
    assert!(
        found
            .iter()
            .any(|c| c.kind == CandidateKind::History && c.target_url.contains("secret")),
        "通常ウィンドウの履歴まで止めてしまっている: {found:?}"
    );
}

#[test]
fn withholding_history_does_not_disturb_a_url_that_is_both() {
    let mut history = HistoryStore::new();
    history.record_visit("https://both.example/", Some("両方".to_owned()), 900, 100);
    let mut bookmarks = BookmarkStore::new();
    bookmarks.add("https://both.example/", Some("両方".to_owned()), 900);

    let found = candidates_for(None, &bookmarks, "both");
    assert_eq!(found.len(), 1, "{found:?}");
    assert_eq!(found[0].kind, CandidateKind::Bookmark);
}

#[test]
fn queries_that_start_with_the_text_come_first_then_the_latest() {
    let mut store = InputHistoryStore::new();
    store.record("the rust book", 900, 0);
    store.record("rust ownership", 100, 0);
    store.record("RUST async", 200, 0);
    store.record("python", 950, 0);
    let labels: Vec<String> = input_history_source(&store)
        .candidates("rust", 8)
        .into_iter()
        .map(|c| c.label)
        .collect();
    assert_eq!(labels, ["RUST async", "rust ownership", "the rust book"]);
}

#[test]
fn pages_come_latest_first_and_once_each() {
    let mut history = HistoryStore::new();
    history.record_visit("https://a.example/", Some("A".to_owned()), 100, 0);
    history.record_visit("https://b.example/", None, 300, 0);
    history.record_visit("https://a.example/", None, 200, 0);
    let mut bookmarks = BookmarkStore::new();
    bookmarks.add("https://c.example/", None, 250);
    bookmarks.add("https://b.example/", Some("B".to_owned()), 1);
    let rows = history_bookmark_source(&history, &bookmarks).candidates("example", 8);
    let urls: Vec<&str> = rows.iter().map(|c| c.target_url.as_str()).collect();
    assert_eq!(urls, ["https://b.example/", "https://c.example/", "https://a.example/"]);
    assert_eq!(rows[0].kind, CandidateKind::Bookmark);
    assert_eq!(rows[0].label, "B");
    assert_eq!(rows[2].label, "A");
}
