//! Finding text in a page.

use velox_browser::find::{normalize_query, FindState};
use velox_browser::tab_id::TabId;

fn tab(n: u64) -> TabId {
    TabId::from(n)
}

#[test]
fn normalize_query_trims_and_rejects_empty_or_whitespace() {
    assert_eq!(normalize_query("hello"), Some("hello".to_owned()));
    assert_eq!(normalize_query("  hello  "), Some("hello".to_owned()));
    assert_eq!(normalize_query(""), None);
    assert_eq!(normalize_query("   "), None);
    assert_eq!(normalize_query("\t\n"), None);
}

#[test]
fn normalize_query_keeps_internal_whitespace() {
    assert_eq!(
        normalize_query("  hello world  "),
        Some("hello world".to_owned())
    );
}

#[test]
fn new_state_starts_with_no_query_and_no_results() {
    let state = FindState::new(tab(1));
    assert_eq!(state.tab_id(), tab(1));
    assert_eq!(state.query(), "");
    assert!(!state.case_sensitive());
    assert_eq!(state.total(), 0);
    assert_eq!(state.active(), None);
}

#[test]
fn set_query_resets_total_and_active() {
    let mut state = FindState::new(tab(1));
    state.set_query("foo".to_owned(), false);
    state.set_total(5);
    assert_eq!(state.active(), Some(0));

    state.set_query("bar".to_owned(), true);
    assert_eq!(state.query(), "bar");
    assert!(state.case_sensitive());
    assert_eq!(state.total(), 0);
    assert_eq!(state.active(), None);
}

#[test]
fn set_total_zero_clears_active() {
    let mut state = FindState::new(tab(1));
    state.set_query("foo".to_owned(), false);
    state.set_total(3);
    assert_eq!(state.active(), Some(0));
    state.set_total(0);
    assert_eq!(state.active(), None);
}

#[test]
fn set_total_selects_first_match() {
    let mut state = FindState::new(tab(1));
    state.set_query("foo".to_owned(), false);
    state.set_total(1);
    assert_eq!(state.active(), Some(0));
    assert_eq!(state.total(), 1);
}

#[test]
fn next_match_advances_and_wraps_around() {
    let mut state = FindState::new(tab(1));
    state.set_query("foo".to_owned(), false);
    state.set_total(3);
    assert_eq!(state.active(), Some(0));
    assert_eq!(state.next_match(), Some(1));
    assert_eq!(state.next_match(), Some(2));
    assert_eq!(state.next_match(), Some(0));
}

#[test]
fn previous_match_retreats_and_wraps_around() {
    let mut state = FindState::new(tab(1));
    state.set_query("foo".to_owned(), false);
    state.set_total(3);
    assert_eq!(state.active(), Some(0));
    assert_eq!(state.previous_match(), Some(2));
    assert_eq!(state.previous_match(), Some(1));
    assert_eq!(state.previous_match(), Some(0));
}

#[test]
fn next_and_previous_are_inverses() {
    let mut state = FindState::new(tab(1));
    state.set_query("foo".to_owned(), false);
    state.set_total(4);
    let start = state.active();
    state.next_match();
    state.next_match();
    state.previous_match();
    state.previous_match();
    assert_eq!(state.active(), start);
}

#[test]
fn single_match_stays_on_itself() {
    let mut state = FindState::new(tab(1));
    state.set_query("foo".to_owned(), false);
    state.set_total(1);
    assert_eq!(state.next_match(), Some(0));
    assert_eq!(state.previous_match(), Some(0));
}

#[test]
fn next_and_previous_are_no_ops_with_no_matches() {
    let mut state = FindState::new(tab(1));
    state.set_query("foo".to_owned(), false);
    state.set_total(0);
    assert_eq!(state.next_match(), None);
    assert_eq!(state.previous_match(), None);
}

#[test]
fn next_match_from_no_active_starts_at_first() {
    let mut state = FindState::new(tab(1));
    state.set_query("foo".to_owned(), false);
    assert_eq!(state.next_match(), None);
    assert_eq!(state.previous_match(), None);
}

#[test]
fn next_leads_through_all_matches() {
    let mut state = FindState::new(tab(1));
    state.set_query("x".to_owned(), false);
    state.set_total(4);
    let seen: Vec<Option<usize>> = (0..4).map(|_| state.next_match()).collect();
    assert_eq!(seen, [Some(1), Some(2), Some(3), Some(0)]);
}

#[test]
fn the_largest_number_of_matches_does_not_overflow() {
    let mut state = FindState::new(tab(1));
    state.set_total(usize::MAX);
    assert_eq!(state.previous_match(), Some(usize::MAX - 1));
    assert_eq!(state.previous_match(), Some(usize::MAX - 2));
    assert_eq!(state.next_match(), Some(usize::MAX - 1));
    assert_eq!(state.next_match(), Some(0));
}

#[test]
fn a_clone_is_equal() {
    let mut state = FindState::new(tab(1));
    state.set_query("x".to_owned(), true);
    state.set_total(2);
    assert_eq!(state.clone(), state);
}
