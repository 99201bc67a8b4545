//! The history of typed queries.

use velox_browser::input_history::{InputHistoryEntry, InputHistoryStore};

#[test]
fn records_a_new_query() {
    let mut store = InputHistoryStore::new();
    store.record("rust ownership", 100, 0);
    assert_eq!(store.entries().len(), 1);
    assert_eq!(store.entries()[0].text, "rust ownership");
    assert_eq!(store.entries()[0].last_used_at, 100);
    assert_eq!(store.entries()[0].use_count, 1);
}

#[test]
fn re_recording_the_same_text_bumps_recency_and_count_instead_of_duplicating() {
    let mut store = InputHistoryStore::new();
    store.record("rust ownership", 100, 0);
    store.record("rust ownership", 200, 0);
    assert_eq!(store.entries().len(), 1);
    assert_eq!(store.entries()[0].last_used_at, 200);
    assert_eq!(store.entries()[0].use_count, 2);
}

#[test]
fn text_is_trimmed_before_recording_and_comparing() {
    let mut store = InputHistoryStore::new();
    store.record("  rust ownership  ", 100, 0);
    store.record("rust ownership", 200, 0);
    assert_eq!(store.entries().len(), 1);
    assert_eq!(store.entries()[0].text, "rust ownership");
    assert_eq!(store.entries()[0].use_count, 2);
}

#[test]
fn empty_or_whitespace_only_text_is_not_recorded() {
    let mut store = InputHistoryStore::new();
    store.record("", 100, 0);
    store.record("   ", 100, 0);
    assert!(store.entries().is_empty());
}

#[test]
fn distinct_queries_are_kept_separately() {
    let mut store = InputHistoryStore::new();
    store.record("rust ownership", 100, 0);
    store.record("rust async", 200, 0);
    assert_eq!(store.entries().len(), 2);
}

#[test]
fn input_history_zero_cap_means_unlimited() {
    let mut store = InputHistoryStore::new();
    for i in 0..10 {
        store.record(&format!("query {i}"), i, 0);
    }
    assert_eq!(store.entries().len(), 10);
}

#[test]
fn exceeding_the_cap_drops_the_least_recently_used_entry() {
    let mut store = InputHistoryStore::new();
    store.record("old", 100, 2);
    store.record("newer", 200, 2);
    store.record("old", 300, 2);
    store.record("newest", 400, 2);
    assert_eq!(store.entries().len(), 2);
    let texts: Vec<&str> = store.entries().iter().map(|e| e.text.as_str()).collect();
    assert!(texts.contains(&"old"));
    assert!(texts.contains(&"newest"));
    assert!(!texts.contains(&"newer"));
}

#[test]
fn input_history_clear_empties_the_store() {
    let mut store = InputHistoryStore::new();
    store.record("rust ownership", 100, 0);
    store.clear();
    assert!(store.entries().is_empty());
}

#[test]
fn record_does_not_panic_with_an_extremely_long_query() {
    let mut store = InputHistoryStore::new();
    let huge = "検索語".repeat(200_000);
    store.record(&huge, 1, 0);
    assert_eq!(store.entries()[0].text, huge);
}

#[test]
fn record_handles_unicode_and_control_characters() {
    let mut store = InputHistoryStore::new();
    store.record("query\0with\u{202e}control\nchars🚀", 1, 0);
    assert_eq!(store.entries().len(), 1);
}

#[test]
fn use_count_saturates_instead_of_overflowing() {
    let mut store = InputHistoryStore::from_entries(vec![InputHistoryEntry {
        text: "rust".to_owned(),
        last_used_at: 1,
        use_count: u32::MAX,
    }]);
    store.record("rust", 2, 0);
    assert_eq!(store.entries()[0].use_count, u32::MAX);
}

#[test]
fn many_distinct_queries_with_a_tight_cap_does_not_panic() {
    let mut store = InputHistoryStore::new();
    for i in 0..5_000u64 {
        store.record(&format!("query {i}"), i, 50);
    }
    assert_eq!(store.entries().len(), 50);
}

#[test]
fn the_first_of_the_longest_unused_goes() {
    let mut store = InputHistoryStore::new();
    for text in ["a", "b", "c"] {
        store.record(text, 5, 0);
    }
    store.record("a", 6, 3);
    store.record("d", 7, 3);
    let texts: Vec<&str> = store.entries().iter().map(|e| e.text.as_str()).collect();
    assert_eq!(texts, ["a", "c", "d"]);
}

#[test]
fn a_new_query_stays_even_if_it_is_from_the_past() {
    let mut store = InputHistoryStore::new();
    store.record("a", 100, 2);
    store.record("b", 200, 2);
    store.record("c", 50, 2);
    let kept: Vec<(&str, u64, u32)> = store
        .entries()
        .iter()
        .map(|e| (e.text.as_str(), e.last_used_at, e.use_count))
        .collect();
    assert_eq!(kept, [("b", 200, 1), ("c", 50, 1)]);
}
