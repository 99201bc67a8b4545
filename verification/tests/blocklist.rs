//! Filter lists: reading rules, and what they block.

use velox_browser::blocklist::{FilterList, MatchContext, RuleResourceType, MAX_RULES, MAX_RULE_LINE_LEN};

#[test]
fn blocks_exact_domain_and_subdomains() {
    let list = FilterList::parse("||doubleclick.net^");
    assert!(list.is_blocked("https://doubleclick.net/x"));
    assert!(list.is_blocked("https://ad.doubleclick.net/x"));
    assert!(list.is_blocked("https://a.b.doubleclick.net/x"));
}

#[test]
fn does_not_block_unrelated_or_lookalike_domains() {
    let list = FilterList::parse("||doubleclick.net^");
    assert!(!list.is_blocked("https://example.com/"));
    assert!(!list.is_blocked("https://notdoubleclick.net/"));
}

#[test]
fn exception_overrides_a_matching_block_rule() {
    let list = FilterList::parse("||ads.example.com^\n@@||ads.example.com^");
    assert!(!list.is_blocked("https://ads.example.com/banner.js"));
}

#[test]
fn exception_on_parent_domain_also_covers_subdomains() {
    let list = FilterList::parse("||ads.example.com^\n@@||example.com^");
    assert!(!list.is_blocked("https://ads.example.com/banner.js"));
}

#[test]
fn ignores_comments_and_blank_lines() {
    let list = FilterList::parse("! a comment\n\n   \n||tracker.example^");
    assert_eq!(list.block_rule_count(), 1);
    assert!(list.is_blocked("https://tracker.example/"));
}

#[test]
fn ignores_element_hiding_rules() {
    let list = FilterList::parse(
        "##.ad-banner\nexample.com##.ad\nexample.com#@#.ad\nexample.com#$#abort\nexample.com#%#snippet\nexample.com#?#.ad:has(x)",
    );
    assert_eq!(list.block_rule_count(), 0);
}

#[test]
fn ignores_header_lines() {
    let list = FilterList::parse("[Adblock Plus 2.0]\n||tracker.example^");
    assert_eq!(list.block_rule_count(), 1);
}

#[test]
fn strips_path_and_options_from_domain_anchor_rules() {
    let list = FilterList::parse("||ads.example.com/banner^$third-party");
    assert!(list.is_blocked("https://ads.example.com/anything"));
}

#[test]
fn matching_is_case_insensitive() {
    let list = FilterList::parse("||Example.COM^");
    assert!(list.is_blocked("https://EXAMPLE.com/"));
}

#[test]
fn urls_without_a_host_are_never_blocked() {
    let list = FilterList::parse("||example.com^");
    assert!(!list.is_blocked("about:blank"));
    assert!(!list.is_blocked("not a url"));
    assert!(!list.is_blocked("data:text/plain,hi"));
}

#[test]
fn merge_adds_rules_on_top_of_an_existing_list() {
    let mut list = FilterList::parse("||a.example^");
    list.merge("||b.example^");
    assert_eq!(list.block_rule_count(), 2);
    assert!(list.is_blocked("https://a.example/"));
    assert!(list.is_blocked("https://b.example/"));
}

#[test]
fn built_in_list_parses_and_blocks_known_ad_domains() {
    let list = FilterList::built_in();
    assert!(list.block_rule_count() >= 40);
    assert!(list.is_blocked("https://doubleclick.net/"));
    assert!(list.is_blocked("https://www.google-analytics.com/collect"));
    assert!(!list.is_blocked("https://example.com/"));
}

#[test]
fn plain_substring_pattern_blocks_a_matching_url() {
    let list = FilterList::parse("-ads-");
    assert!(list.is_blocked("https://cdn.example/img/-ads-/banner.png"));
    assert!(!list.is_blocked("https://cdn.example/img/clean/banner.png"));
}

#[test]
fn wildcard_pattern_matches_anything_after_the_literal() {
    let list = FilterList::parse("/ads/*");
    assert!(list.is_blocked("https://example.com/ads/banner.png"));
    assert!(list.is_blocked("https://example.com/ads/"));
    assert!(!list.is_blocked("https://example.com/other/"));
}

#[test]
fn leading_pipe_anchors_the_pattern_to_the_start_of_the_url() {
    let list = FilterList::parse("|http://example.com/ad");
    assert!(list.is_blocked("http://example.com/ad/banner.js"));
    assert!(!list.is_blocked("http://other.example/http://example.com/ad"));
}

#[test]
fn trailing_pipe_anchors_the_pattern_to_the_end_of_the_url() {
    let list = FilterList::parse("ads.js|");
    assert!(list.is_blocked("https://cdn.example/lib/ads.js"));
    assert!(!list.is_blocked("https://cdn.example/lib/ads.js.map"));
}

#[test]
fn caret_requires_a_separator_character_or_end_of_url() {
    let list = FilterList::parse("ads^");
    assert!(list.is_blocked("https://example.com/ads/banner"));
    assert!(!list.is_blocked("https://example.com/adsense.js"));
}

#[test]
fn caret_matches_end_of_url_as_a_separator() {
    let list = FilterList::parse("tracker.example/pixel^");
    assert!(list.is_blocked("https://tracker.example/pixel"));
}

#[test]
fn pattern_exception_overrides_a_matching_pattern_block() {
    let list = FilterList::parse("-ads-\n@@-ads-");
    assert!(!list.is_blocked("https://cdn.example/-ads-/x"));
}

#[test]
fn a_lone_wildcard_pattern_is_rejected_rather_than_blocking_everything() {
    let list = FilterList::parse("*");
    assert_eq!(list.block_rule_count(), 0);
    assert!(!list.is_blocked("https://example.com/"));
}

#[test]
fn regex_delimited_filters_are_not_supported_and_are_skipped() {
    let list = FilterList::parse(r"/^https?:\/\/ads\./");
    assert_eq!(list.block_rule_count(), 0);
}

#[test]
fn resource_type_option_is_parsed_but_ignored_by_plain_is_blocked() {
    let list = FilterList::parse("||ads.example^$script,image");
    assert!(list.is_blocked("https://ads.example/x"));
}

#[test]
fn resource_type_option_gates_is_blocked_with_context() {
    let list = FilterList::parse("||ads.example^$script,image");
    let script_ctx = MatchContext {
        resource_type: Some(RuleResourceType::Script),
        page_host: None,
    };
    let stylesheet_ctx = MatchContext {
        resource_type: Some(RuleResourceType::Stylesheet),
        page_host: None,
    };
    assert!(list.is_blocked_with_context("https://ads.example/x", &script_ctx));
    assert!(!list.is_blocked_with_context("https://ads.example/x", &stylesheet_ctx));
    assert!(list.is_blocked_with_context("https://ads.example/x", &MatchContext::default()));
}

#[test]
fn negated_resource_type_option_drops_the_whole_rule() {
    let list = FilterList::parse("||ads.example^$~script");
    assert_eq!(list.block_rule_count(), 0);
    assert!(!list.is_blocked("https://ads.example/x"));
}

#[test]
fn domain_scope_restricts_the_rule_to_included_page_hosts() {
    let list = FilterList::parse("||ads.example^$domain=news.example");
    let news_ctx = MatchContext {
        resource_type: None,
        page_host: Some("news.example"),
    };
    let other_ctx = MatchContext {
        resource_type: None,
        page_host: Some("other.example"),
    };
    assert!(list.is_blocked_with_context("https://ads.example/x", &news_ctx));
    assert!(!list.is_blocked_with_context("https://ads.example/x", &other_ctx));
    assert!(list.is_blocked("https://ads.example/x"));
}

#[test]
fn domain_scope_excludes_negated_page_hosts() {
    let list = FilterList::parse("||ads.example^$domain=~good.example");
    let good_ctx = MatchContext {
        resource_type: None,
        page_host: Some("good.example"),
    };
    let other_ctx = MatchContext {
        resource_type: None,
        page_host: Some("other.example"),
    };
    assert!(!list.is_blocked_with_context("https://ads.example/x", &good_ctx));
    assert!(list.is_blocked_with_context("https://ads.example/x", &other_ctx));
}

#[test]
fn malformed_domain_scope_value_drops_the_whole_rule() {
    let list = FilterList::parse("||ads.example^$domain=has space");
    assert_eq!(list.block_rule_count(), 0);
}

#[test]
fn unrecognized_option_keyword_drops_the_whole_rule() {
    let list = FilterList::parse("||ads.example^$badfilter");
    assert_eq!(list.block_rule_count(), 0);
    assert!(!list.is_blocked("https://ads.example/x"));
}

#[test]
fn content_modifying_options_drop_the_whole_rule() {
    let list = FilterList::parse(
        "||ads.example^$csp=script-src 'none'\n||ads.example^$redirect=noopjs\n||ads.example^$genericblock",
    );
    assert_eq!(list.block_rule_count(), 0);
}

#[test]
fn benign_options_are_accepted_and_do_not_change_matching() {
    let list =
        FilterList::parse("||ads.example^$third-party,important,match-case,all,empty,mp4");
    assert_eq!(list.block_rule_count(), 1);
    assert!(list.is_blocked("https://ads.example/x"));
}

#[test]
fn extremely_long_line_is_skipped_without_parsing() {
    let huge_line = "a".repeat(MAX_RULE_LINE_LEN + 1);
    let list = FilterList::parse(&huge_line);
    assert_eq!(list.block_rule_count(), 0);
}

#[test]
fn a_line_at_exactly_the_length_cap_still_parses() {
    let line = "a".repeat(MAX_RULE_LINE_LEN);
    let list = FilterList::parse(&line);
    assert_eq!(list.block_rule_count(), 1);
}

#[test]
fn does_not_panic_on_a_large_garbage_file() {
    let mut text = String::new();
    for i in 0..5_000 {
        match i % 9 {
            0 => text.push_str("! just a comment\n"),
            1 => text.push_str("##.cosmetic-only\n"),
            2 => text.push_str(&format!("||weird$$$domain{i}^$csp=whatever\n")),
            3 => text.push_str(&format!("$domain=only-options-no-pattern{i}\n")),
            4 => text.push_str("****^^^^****\n"),
            5 => text.push_str(&format!("/regex-looking-{i}/\n")),
            6 => text.push_str(&format!("||valid{i}.example^\n")),
            7 => text.push_str(&format!("plain-pattern-{i}^*\n")),
            _ => text.push_str("@@\n"),
        }
    }
    let list = FilterList::parse(&text);
    assert!(list.block_rule_count() > 0);
    assert!(list.block_rule_count() <= 5_000);
    assert!(list.is_blocked("https://valid6.example/"));
}

#[test]
fn rule_count_is_capped_against_an_unreasonably_huge_list() {
    let mut text = String::new();
    for i in 0..(MAX_RULES + 500) {
        text.push_str(&format!("||domain{i}.example^\n"));
    }
    let list = FilterList::parse(&text);
    assert_eq!(list.block_rule_count(), MAX_RULES);
}

#[test]
fn a_bare_dollar_sign_in_a_query_string_is_not_mistaken_for_options() {
    let list = FilterList::parse("example.com/pay?amount=$5");
    assert_eq!(list.block_rule_count(), 1);
    assert!(list.is_blocked("https://example.com/pay?amount=$5"));
}

#[test]
fn the_empty_list_blocks_nothing() {
    assert!(!FilterList::empty().is_blocked("https://doubleclick.net/"));
    assert_eq!(FilterList::empty().block_rule_count(), 0);
}

#[test]
fn merging_in_two_parts_is_merging_at_once() {
    let mut parts = FilterList::parse("||a.example^");
    parts.merge("||b.example^\n@@||c.b.example^");
    let whole = FilterList::parse("||a.example^\n||b.example^\n@@||c.b.example^");
    assert_eq!(parts.block_rule_count(), whole.block_rule_count());
    for url in [
        "https://a.example/",
        "https://b.example/",
        "https://c.b.example/",
        "https://d.example/",
    ] {
        assert_eq!(parts.is_blocked(url), whole.is_blocked(url), "{url}");
    }
}

#[test]
fn an_unknown_context_excludes_no_rule() {
    let list = FilterList::parse("/ads/*$script,third-party");
    assert!(list.is_blocked("https://example.com/ads/x.js"));
    assert!(list.is_blocked_with_context(
        "https://example.com/ads/x.js",
        &MatchContext::default()
    ));
}

#[test]
fn a_separator_stands_for_one_character_and_no_run() {
    let list = FilterList::parse("ads^js");
    assert!(list.is_blocked("https://example.com/ads/js"));
    assert!(!list.is_blocked("https://example.com/ads/x/js"));
    assert!(!list.is_blocked("https://example.com/adsjs"));
    assert!(!FilterList::parse("ads^banner").is_blocked("https://e.com/ads/x/banner"));
    assert!(FilterList::parse("ads^*banner").is_blocked("https://e.com/ads/x/banner"));
}

#[test]
fn a_separator_may_stand_further_on_behind_a_wildcard_or_first() {
    assert!(FilterList::parse("^ads").is_blocked("https://e.com/ads"));
    assert!(!FilterList::parse("^ads").is_blocked("https://e.com/loads"));
    assert!(!FilterList::parse("|^ads").is_blocked("https://e.com/ads"));
    assert!(FilterList::parse("ads*^js").is_blocked("https://e.com/ads1/x?js"));
    assert!(!FilterList::parse("ads*^js").is_blocked("https://e.com/ads1/xjs"));
    assert!(FilterList::parse("ads*^*js").is_blocked("https://e.com/ads1/xjs"));
    assert!(!FilterList::parse("ads*^*js").is_blocked("https://e.com/ads1js"));
    assert!(FilterList::parse("^^e.com").is_blocked("https://e.com/"));
    assert!(FilterList::parse("ads*^|").is_blocked("https://e.com/ads/1"));
    assert!(FilterList::parse("ads*^").is_blocked("https://e.com/ads1"));
}

#[test]
fn a_wildcard_at_the_end_reaches_the_end() {
    assert!(FilterList::parse("/ads*|").is_blocked("https://e.com/ads/1"));
    assert!(!FilterList::parse("/ads|").is_blocked("https://e.com/ads/1"));
}

#[test]
fn only_the_first_occurrence_of_a_literal_is_tried() {
    assert!(!FilterList::parse("ads^").is_blocked("https://e.com/adsx/ads/"));
    assert!(FilterList::parse("ads^").is_blocked("https://e.com/x/ads/"));
    assert!(!FilterList::parse("ads|").is_blocked("https://e.com/ads/ads"));
}

#[test]
fn options_that_start_with_a_digit_have_no_effect_either() {
    for rule in ["-ads-$3p", "-ads-$1p", "-ads-$~3p", "-ads-$~1p,script", "-ads-$image,3p"] {
        let list = FilterList::parse(rule);
        assert_eq!(list.block_rule_count(), 1, "{rule}");
        assert!(list.is_blocked("https://cdn.example/-ads-/x"), "{rule}");
    }
    assert!(!FilterList::parse("-ads-$3x").is_blocked("https://cdn.example/-ads-/x"));
}

#[test]
fn a_pattern_of_wildcards_alone_is_no_rule() {
    assert_eq!(FilterList::parse("*\n**\n").block_rule_count(), 0);
}

#[test]
fn a_host_is_judged_as_it_is_given() {
    let list = FilterList::parse("||ads.example^");
    let anywhere = MatchContext::default();
    assert!(list.is_blocked_at(Some("x.ads.example"), "https://x.ads.example/", &anywhere));
    assert!(!list.is_blocked_at(Some("badads.example"), "https://badads.example/", &anywhere));
    assert!(!list.is_blocked_at(None, "https://ads.example/", &anywhere));
}
