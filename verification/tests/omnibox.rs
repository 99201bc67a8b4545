//! The list below the address bar.

use velox_browser::omnibox::{build_candidates, Candidate, CandidateKind, CandidateSource};

const DDG: &str = "https://duckduckgo.com/?q={}";

#[test]
fn url_input_yields_navigate_and_search_candidates() {
    let candidates = build_candidates("example.com", "DuckDuckGo", DDG, &[], 8);
    assert_eq!(candidates.len(), 2);
    assert_eq!(candidates[0].kind, CandidateKind::NavigateUrl);
    assert_eq!(candidates[0].target_url, "https://example.com/");
    assert_eq!(candidates[1].kind, CandidateKind::Search);
    assert_eq!(
        candidates[1].target_url,
        "https://duckduckgo.com/?q=example.com"
    );
    assert_eq!(candidates[1].label, "example.com");
}

#[test]
fn search_input_yields_a_single_search_candidate() {
    let candidates = build_candidates("rust ownership", "DuckDuckGo", DDG, &[], 8);
    assert_eq!(candidates.len(), 1);
    assert_eq!(candidates[0].kind, CandidateKind::Search);
    assert_eq!(
        candidates[0].target_url,
        "https://duckduckgo.com/?q=rust+ownership"
    );
    assert_eq!(candidates[0].detail.as_deref(), Some("DuckDuckGo で検索"));
}

#[test]
fn empty_input_yields_no_candidates() {
    assert!(build_candidates("", "DuckDuckGo", DDG, &[], 8).is_empty());
    assert!(build_candidates("   ", "DuckDuckGo", DDG, &[], 8).is_empty());
}

#[test]
fn rejected_scheme_yields_no_candidates() {
    assert!(build_candidates("javascript://alert(1)", "DuckDuckGo", DDG, &[], 8).is_empty());
}

#[test]
fn explicit_search_prefix_yields_a_single_search_candidate() {
    let candidates = build_candidates("?rust", "DuckDuckGo", DDG, &[], 8);
    assert_eq!(candidates.len(), 1);
    assert_eq!(candidates[0].kind, CandidateKind::Search);
    assert_eq!(candidates[0].label, "rust");
}

struct FixedSource(Vec<Candidate>);

impl CandidateSource for FixedSource {
    fn candidates(&self, _input: &str, limit: usize) -> Vec<Candidate> {
        self.0.iter().take(limit).cloned().collect()
    }
}

fn history_candidate(n: usize) -> Candidate {
    Candidate {
        kind: CandidateKind::History,
        target_url: format!("https://example.com/{n}"),
        label: format!("Example {n}"),
        detail: None,
    }
}

#[test]
fn sources_are_appended_after_the_built_in_candidates() {
    let source = FixedSource(vec![history_candidate(1), history_candidate(2)]);
    let candidates = build_candidates("example.com", "DuckDuckGo", DDG, &[&source], 8);
    assert_eq!(candidates.len(), 4);
    assert_eq!(candidates[0].kind, CandidateKind::NavigateUrl);
    assert_eq!(candidates[1].kind, CandidateKind::Search);
    assert_eq!(candidates[2].kind, CandidateKind::History);
    assert_eq!(candidates[3].kind, CandidateKind::History);
}

#[test]
fn total_candidates_are_truncated_to_the_limit() {
    let source = FixedSource((0..10).map(history_candidate).collect());
    let candidates = build_candidates("example.com", "DuckDuckGo", DDG, &[&source], 5);
    assert_eq!(candidates.len(), 5);
}

#[test]
fn a_source_is_not_asked_for_more_than_the_remaining_room() {
    struct RecordingSource {
        requested_limit: std::cell::Cell<usize>,
    }
    impl CandidateSource for RecordingSource {
        fn candidates(&self, _input: &str, limit: usize) -> Vec<Candidate> {
            self.requested_limit.set(limit);
            Vec::new()
        }
    }
    let source = RecordingSource {
        requested_limit: std::cell::Cell::new(0),
    };
    build_candidates("example.com", "DuckDuckGo", DDG, &[&source], 5);
    assert_eq!(source.requested_limit.get(), 3);
}
