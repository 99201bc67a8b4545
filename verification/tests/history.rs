//! The history of visited pages.

use velox_browser::history::{
    date_bucket, group_by_date, search, HistoryDateBucket, HistoryStore, SECS_PER_DAY,
};

#[test]
fn records_a_visit() {
    let mut store = HistoryStore::new();
    let id = store.record_visit("https://example.com/", None, 100, 0);
    assert_eq!(store.entries().len(), 1);
    assert_eq!(store.entries()[0].id, id);
    assert_eq!(store.entries()[0].url, "https://example.com/");
    assert_eq!(store.entries()[0].visited_at, 100);
    assert_eq!(store.entries()[0].title, None);
    assert_eq!(store.entries()[0].favicon, None);
    assert_eq!(store.entries()[0].visit_count, 1);
}

#[test]
fn assigns_increasing_ids() {
    let mut store = HistoryStore::new();
    let a = store.record_visit("https://a.example/", None, 1, 0);
    let b = store.record_visit("https://b.example/", None, 2, 0);
    assert_ne!(a, b);
    assert!(b > a);
}

#[test]
fn collapses_consecutive_visits_to_the_same_url() {
    let mut store = HistoryStore::new();
    let first = store.record_visit("https://example.com/", None, 1, 0);
    let second = store.record_visit("https://example.com/", Some("Example".to_owned()), 2, 0);
    assert_eq!(first, second);
    assert_eq!(store.entries().len(), 1);
    assert_eq!(store.entries()[0].visited_at, 2);
    assert_eq!(store.entries()[0].title.as_deref(), Some("Example"));
    assert_eq!(store.entries()[0].visit_count, 2);
}

#[test]
fn does_not_collapse_non_consecutive_repeat_visits() {
    let mut store = HistoryStore::new();
    store.record_visit("https://a.example/", None, 1, 0);
    store.record_visit("https://b.example/", None, 2, 0);
    store.record_visit("https://a.example/", None, 3, 0);
    assert_eq!(store.entries().len(), 3);
    assert_eq!(store.entries()[0].visit_count, 1);
    assert_eq!(store.entries()[2].visit_count, 1);
}

#[test]
fn visit_count_keeps_incrementing_across_several_reloads() {
    let mut store = HistoryStore::new();
    store.record_visit("https://example.com/", None, 1, 0);
    store.record_visit("https://example.com/", None, 2, 0);
    store.record_visit("https://example.com/", None, 3, 0);
    assert_eq!(store.entries().len(), 1);
    assert_eq!(store.entries()[0].visit_count, 3);
}

#[test]
fn updates_favicon_by_id() {
    let mut store = HistoryStore::new();
    let id = store.record_visit("https://example.com/", None, 1, 0);
    assert_eq!(store.entries()[0].favicon, None);
    assert!(store.update_favicon(id, "https://example.com/favicon.ico".to_owned()));
    assert_eq!(
        store.entries()[0].favicon.as_deref(),
        Some("https://example.com/favicon.ico")
    );
}

#[test]
fn updating_favicon_of_missing_id_is_a_noop() {
    let mut store = HistoryStore::new();
    store.record_visit("https://example.com/", None, 1, 0);
    assert!(!store.update_favicon(999, "https://example.com/favicon.ico".to_owned()));
}

#[test]
fn record_visit_does_not_overwrite_existing_title_with_none() {
    let mut store = HistoryStore::new();
    store.record_visit("https://example.com/", Some("Example".to_owned()), 1, 0);
    store.record_visit("https://example.com/", None, 2, 0);
    assert_eq!(store.entries()[0].title.as_deref(), Some("Example"));
}

#[test]
fn enforces_a_max_entry_cap_by_dropping_oldest() {
    let mut store = HistoryStore::new();
    store.record_visit("https://a.example/", None, 1, 2);
    store.record_visit("https://b.example/", None, 2, 2);
    store.record_visit("https://c.example/", None, 3, 2);
    assert_eq!(store.entries().len(), 2);
    let urls: Vec<&str> = store.entries().iter().map(|e| e.url.as_str()).collect();
    assert_eq!(urls, ["https://b.example/", "https://c.example/"]);
}

#[test]
fn history_zero_cap_means_unlimited() {
    let mut store = HistoryStore::new();
    for i in 0..10 {
        store.record_visit(&format!("https://{i}.example/"), None, i, 0);
    }
    assert_eq!(store.entries().len(), 10);
}

#[test]
fn newest_first_reverses_visit_order() {
    let mut store = HistoryStore::new();
    store.record_visit("https://a.example/", None, 1, 0);
    store.record_visit("https://b.example/", None, 2, 0);
    let urls: Vec<&str> = store
        .entries_newest_first()
        .iter()
        .map(|e| e.url.as_str())
        .collect();
    assert_eq!(urls, ["https://b.example/", "https://a.example/"]);
}

#[test]
fn updates_title_by_id() {
    let mut store = HistoryStore::new();
    let id = store.record_visit("https://example.com/", None, 1, 0);
    assert!(store.update_title(id, "Example Domain".to_owned()));
    assert_eq!(store.entries()[0].title.as_deref(), Some("Example Domain"));
}

#[test]
fn updating_title_of_missing_id_is_a_noop() {
    let mut store = HistoryStore::new();
    store.record_visit("https://example.com/", None, 1, 0);
    assert!(!store.update_title(999, "Nope".to_owned()));
}

#[test]
fn removes_an_entry_by_id() {
    let mut store = HistoryStore::new();
    let id = store.record_visit("https://example.com/", None, 1, 0);
    assert!(store.remove(id));
    assert!(store.entries().is_empty());
    assert!(!store.remove(id));
}

#[test]
fn history_clear_empties_the_store() {
    let mut store = HistoryStore::new();
    store.record_visit("https://a.example/", None, 1, 0);
    store.record_visit("https://b.example/", None, 2, 0);
    store.clear();
    assert!(store.entries().is_empty());
}

#[test]
fn ids_stay_unique_across_a_clear() {
    let mut store = HistoryStore::new();
    let first = store.record_visit("https://a.example/", None, 1, 0);
    store.clear();
    let second = store.record_visit("https://a.example/", None, 2, 0);
    assert_ne!(first, second);
}

#[test]
fn search_matches_url_or_title_case_insensitively() {
    let mut store = HistoryStore::new();
    store.record_visit(
        "https://rust-lang.org/",
        Some("The Rust Programming Language".to_owned()),
        1,
        0,
    );
    store.record_visit(
        "https://example.com/",
        Some("Example Domain".to_owned()),
        2,
        0,
    );

    let by_url = store.search("RUST-lang");
    assert_eq!(by_url.len(), 1);
    assert_eq!(by_url[0].url, "https://rust-lang.org/");

    let by_title = store.search("domain");
    assert_eq!(by_title.len(), 1);
    assert_eq!(by_title[0].url, "https://example.com/");

    assert!(store.search("nonexistent").is_empty());
}

#[test]
fn search_with_empty_query_matches_nothing() {
    let mut store = HistoryStore::new();
    store.record_visit("https://example.com/", None, 1, 0);
    assert!(store.search("").is_empty());
}

#[test]
fn search_ignores_entries_with_no_title() {
    let mut store = HistoryStore::new();
    store.record_visit("https://example.com/", None, 1, 0);
    assert!(store.search("hello").is_empty());
}

#[test]
fn date_bucket_classifies_today_yesterday_last_7_days_and_older() {
    let now = 100 * SECS_PER_DAY + 12 * 3600;
    assert_eq!(date_bucket(now, now), HistoryDateBucket::Today);
    assert_eq!(
        date_bucket(100 * SECS_PER_DAY, now),
        HistoryDateBucket::Today
    );
    assert_eq!(
        date_bucket(99 * SECS_PER_DAY, now),
        HistoryDateBucket::Yesterday
    );
    assert_eq!(
        date_bucket(98 * SECS_PER_DAY, now),
        HistoryDateBucket::Last7Days
    );
    assert_eq!(
        date_bucket(94 * SECS_PER_DAY, now),
        HistoryDateBucket::Last7Days
    );
    assert_eq!(
        date_bucket(93 * SECS_PER_DAY, now),
        HistoryDateBucket::Older
    );
    assert_eq!(date_bucket(0, now), HistoryDateBucket::Older);
}

#[test]
fn date_bucket_clamps_future_timestamps_to_today() {
    let now = 10 * SECS_PER_DAY;
    assert_eq!(
        date_bucket(now + SECS_PER_DAY, now),
        HistoryDateBucket::Today
    );
}

#[test]
fn group_by_date_groups_newest_first_entries_by_bucket() {
    let mut store = HistoryStore::new();
    let now = 100 * SECS_PER_DAY;
    store.record_visit("https://old.example/", None, now - 30 * SECS_PER_DAY, 0);
    store.record_visit(
        "https://last-week.example/",
        None,
        now - 3 * SECS_PER_DAY,
        0,
    );
    store.record_visit("https://yesterday.example/", None, now - SECS_PER_DAY, 0);
    store.record_visit("https://today.example/", None, now, 0);

    let groups = group_by_date(store.entries_newest_first(), now);
    let buckets: Vec<HistoryDateBucket> = groups.iter().map(|g| g.bucket).collect();
    assert_eq!(
        buckets,
        [
            HistoryDateBucket::Today,
            HistoryDateBucket::Yesterday,
            HistoryDateBucket::Last7Days,
            HistoryDateBucket::Older,
        ]
    );
    for group in &groups {
        assert_eq!(group.entries.len(), 1);
    }
}

#[test]
fn group_by_date_merges_consecutive_entries_in_the_same_bucket() {
    let mut store = HistoryStore::new();
    let now = 100 * SECS_PER_DAY;
    store.record_visit("https://a.example/", None, now, 0);
    store.record_visit("https://b.example/", None, now + 1, 0);

    let groups = group_by_date(store.entries_newest_first(), now);
    assert_eq!(groups.len(), 1);
    assert_eq!(groups[0].bucket, HistoryDateBucket::Today);
    assert_eq!(groups[0].entries.len(), 2);
}

#[test]
fn group_by_date_of_no_entries_is_empty() {
    assert!(group_by_date(Vec::new(), 0).is_empty());
}

#[test]
fn a_limit_is_kept() {
    let mut store = HistoryStore::new();
    for i in 0..20u64 {
        store.record_visit(&format!("https://{}.example/", i % 7), None, i, 3);
        assert!(store.entries().len() <= 3);
        assert_eq!(store.entries().last().unwrap().visited_at, i);
    }
}

#[test]
fn a_lower_limit_takes_effect_with_the_next_new_page() {
    let mut store = HistoryStore::new();
    for i in 0..5u64 {
        store.record_visit(&format!("https://{i}.example/"), None, i, 0);
    }
    store.record_visit("https://4.example/", None, 9, 2);
    assert_eq!(store.entries().len(), 5);
    store.record_visit("https://x.example/", None, 10, 2);
    assert_eq!(store.entries().len(), 2);
}

#[test]
fn search_ignores_case_beyond_ascii() {
    let mut store = HistoryStore::new();
    store.record_visit("https://a.example/", Some("ÄPFEL und Birnen".to_owned()), 1, 0);
    assert_eq!(store.search("äpfel").len(), 1);
    assert_eq!(store.search("ÄPFEL UND").len(), 1);
    assert_eq!(search(store.entries_newest_first(), "Birne").len(), 1);
}

#[test]
fn grouping_loses_nothing() {
    let mut store = HistoryStore::new();
    let now = 100 * SECS_PER_DAY;
    for (i, days) in [0, 30, 0, 1, 1, 3].into_iter().enumerate() {
        store.record_visit(&format!("https://{i}.example/"), None, now - days * SECS_PER_DAY, 0);
    }
    let entries = store.entries_newest_first();
    let groups = group_by_date(entries.clone(), now);
    let flat: Vec<_> = groups.iter().flat_map(|g| g.entries.clone()).collect();
    assert_eq!(flat, entries);
    assert!(groups.windows(2).all(|pair| pair[0].bucket != pair[1].bucket));
    assert_eq!(groups.len(), 5);
}

#[test]
fn the_visit_count_saturates() {
    let mut store = HistoryStore::new();
    store.record_visit("https://a.example/", None, 1, 0);
    let mut entry = store.entries()[0].clone();
    entry.visit_count = u32::MAX;
    let mut store = HistoryStore::from_parts(vec![entry], store.next_id());
    store.record_visit("https://a.example/", None, 2, 0);
    assert_eq!(store.entries()[0].visit_count, u32::MAX);
}
