//! What is typed into the address bar, and what it leads to.

use velox_browser::navigation::{build_search_url, classify_input, normalize_input, Intent};

#[test]
fn keeps_explicit_http_and_https() {
    assert_eq!(
        normalize_input("https://example.com"),
        Some("https://example.com/".to_owned())
    );
    assert_eq!(
        normalize_input("http://example.com/a?b=c"),
        Some("http://example.com/a?b=c".to_owned())
    );
}

#[test]
fn prepends_https_to_schemeless_input() {
    assert_eq!(
        normalize_input("example.com"),
        Some("https://example.com/".to_owned())
    );
    assert_eq!(
        normalize_input("rust-lang.org/learn"),
        Some("https://rust-lang.org/learn".to_owned())
    );
}

#[test]
fn loopback_hosts_default_to_http() {
    assert_eq!(
        normalize_input("localhost:8080"),
        Some("http://localhost:8080/".to_owned())
    );
    assert_eq!(
        normalize_input("127.0.0.1:8741/index.html"),
        Some("http://127.0.0.1:8741/index.html".to_owned())
    );
}

#[test]
fn explicit_https_to_loopback_is_kept() {
    assert_eq!(
        normalize_input("https://localhost:8443"),
        Some("https://localhost:8443/".to_owned())
    );
}

#[test]
fn trims_whitespace() {
    assert_eq!(
        normalize_input("  example.com  "),
        Some("https://example.com/".to_owned())
    );
}

#[test]
fn keeps_about_urls() {
    assert_eq!(
        normalize_input("about:blank"),
        Some("about:blank".to_owned())
    );
}

#[test]
fn rejects_empty_input() {
    assert_eq!(normalize_input(""), None);
    assert_eq!(normalize_input("   "), None);
}

#[test]
fn rejects_unsupported_schemes() {
    assert_eq!(normalize_input("ftp://example.com"), None);
    assert_eq!(normalize_input("javascript://alert(1)"), None);
}

#[test]
fn rejects_unparseable_input() {
    assert_eq!(normalize_input("not a url"), None);
}

#[test]
fn rejects_dangerous_schemes_regardless_of_case_or_whitespace_tricks() {
    for hostile in [
        "javascript:alert(1)",
        "JAVASCRIPT:alert(1)",
        "JavaScript:alert(1)",
        "  javascript:alert(1)",
        "javascript:alert(1)  ",
        "\tjavascript:alert(1)",
        "vbscript:msgbox(1)",
        "livescript:alert(1)",
        "javascript:alert(1)//innocuous-looking-comment",
    ] {
        assert_eq!(
            normalize_input(hostile),
            None,
            "{hostile:?} should have been rejected"
        );
    }
}

#[test]
fn a_control_character_embedded_in_the_scheme_defeats_parsing_rather_than_smuggling_it_through()
{
    for hostile in ["java\tscript:alert(1)", "java\nscript:alert(1)"] {
        assert_eq!(
            normalize_input(hostile),
            None,
            "{hostile:?} should have been rejected"
        );
    }
}

#[test]
fn does_not_panic_on_an_extremely_long_input() {
    let huge = "a".repeat(5_000_000);
    let result = normalize_input(&huge);
    assert!(result.is_some());
    assert!(result.unwrap().starts_with("https://"));

    let huge_scheme = format!("{}://evil.example/", "a".repeat(2_000_000));
    assert_eq!(normalize_input(&huge_scheme), None);

    let huge_query = format!("https://example.com/?q={}", "a".repeat(2_000_000));
    assert_eq!(
        normalize_input(&huge_query),
        Some(huge_query),
        "a huge but well-formed URL must still normalize"
    );
}

#[test]
fn does_not_panic_on_embedded_nul_or_other_control_characters() {
    for hostile in [
        "http://example.com/\0",
        "https://example.com/a\0b",
        "https://example.com/\x01\x02\x03",
        "https://example.com/a\rb\nc",
    ] {
        let _ = normalize_input(hostile);
    }
}

#[test]
fn keeps_legitimate_unicode_and_idn_domains() {
    let idn = normalize_input("https://例え.テスト/").expect("IDN host must be accepted");
    assert!(idn.starts_with("https://xn--"), "{idn}");
    assert!(idn.is_ascii(), "{idn}");

    let schemeless_idn =
        normalize_input("日本語.example/パス").expect("schemeless IDN host must be accepted");
    assert!(schemeless_idn.starts_with("https://"));
    assert!(
        schemeless_idn.contains("%E3%83%91%E3%82%B9"),
        "{schemeless_idn}"
    );
}

#[test]
fn does_not_panic_on_bidi_override_characters_in_a_url() {
    let hostile = "https://example.com/\u{202e}gpj.exe";
    let result = normalize_input(hostile);
    assert!(result.is_some());
    assert!(result.unwrap().starts_with("https://example.com/"));
}

#[test]
fn userinfo_before_the_host_does_not_change_the_actual_host() {
    let result = normalize_input("https://google.com@evil.com/");
    assert_eq!(result, Some("https://google.com@evil.com/".to_owned()));
}

#[test]
fn backslashes_are_treated_like_forward_slashes_for_special_schemes() {
    assert_eq!(
        normalize_input(r"https:\\evil.example\path"),
        Some("https://evil.example/path".to_owned())
    );
}

#[test]
fn rejects_an_unknown_explicit_scheme_even_when_it_looks_url_shaped() {
    for hostile in [
        "not-a-real-scheme://host/",
        "chrome://settings/",
        "about:config",
        "file:///etc/passwd",
    ] {
        let _ = normalize_input(hostile);
    }
    assert_eq!(normalize_input("not-a-real-scheme://host/"), None);
    assert_eq!(normalize_input("chrome://settings/"), None);
}

#[test]
fn incomplete_percent_encoding_does_not_panic() {
    for hostile in [
        "https://example.com/%",
        "https://example.com/%2",
        "https://example.com/%zz",
        "https://example.com/%%%%",
    ] {
        let _ = normalize_input(hostile);
    }
}

#[test]
fn a_huge_data_url_is_accepted_without_panicking() {
    let huge_data_url = format!("data:text/plain;base64,{}", "QQ==".repeat(500_000));
    let result = normalize_input(&huge_data_url);
    assert!(result.is_some());
    assert!(result.unwrap().starts_with("data:"));
}

#[test]
fn classifies_dotted_host_as_url() {
    assert_eq!(
        classify_input("example.com"),
        Some(Intent::Url("https://example.com/".to_owned()))
    );
}

#[test]
fn classifies_loopback_with_port_as_url() {
    assert_eq!(
        classify_input("localhost:3000"),
        Some(Intent::Url("http://localhost:3000/".to_owned()))
    );
}

#[test]
fn classifies_explicit_scheme_as_url() {
    assert_eq!(
        classify_input("http://example.com/a?b=c"),
        Some(Intent::Url("http://example.com/a?b=c".to_owned()))
    );
    assert_eq!(
        classify_input("about:blank"),
        Some(Intent::Url("about:blank".to_owned()))
    );
}

#[test]
fn classifies_multi_word_input_as_search() {
    assert_eq!(
        classify_input("rust ownership"),
        Some(Intent::Search("rust ownership".to_owned()))
    );
}

#[test]
fn classifies_bare_word_with_no_dot_or_colon_as_search() {
    assert_eq!(
        classify_input("rust"),
        Some(Intent::Search("rust".to_owned()))
    );
}

#[test]
fn leading_question_mark_forces_a_search() {
    assert_eq!(
        classify_input("?rust"),
        Some(Intent::Search("rust".to_owned()))
    );
    assert_eq!(
        classify_input("?example.com"),
        Some(Intent::Search("example.com".to_owned()))
    );
}

#[test]
fn bare_question_mark_is_rejected() {
    assert_eq!(classify_input("?"), None);
    assert_eq!(classify_input("?   "), None);
}

#[test]
fn classify_rejects_empty_and_whitespace_only_input() {
    assert_eq!(classify_input(""), None);
    assert_eq!(classify_input("   "), None);
}

#[test]
fn classify_rejects_dangerous_schemes_instead_of_falling_back_to_search() {
    assert_eq!(classify_input("javascript://alert(1)"), None);
    assert_eq!(classify_input("ftp://example.com"), None);
}

#[test]
fn classify_trims_surrounding_whitespace() {
    assert_eq!(
        classify_input("  example.com  "),
        Some(Intent::Url("https://example.com/".to_owned()))
    );
    assert_eq!(
        classify_input("  rust  "),
        Some(Intent::Search("rust".to_owned()))
    );
}

#[test]
fn build_search_url_substitutes_and_percent_encodes_the_query() {
    assert_eq!(
        build_search_url("https://duckduckgo.com/?q={}", "rust ownership"),
        Some("https://duckduckgo.com/?q=rust+ownership".to_owned())
    );
}

#[test]
fn build_search_url_encodes_reserved_and_non_ascii_characters() {
    let url = build_search_url("https://duckduckgo.com/?q={}", "a&b=c/d").unwrap();
    assert_eq!(url, "https://duckduckgo.com/?q=a%26b%3Dc%2Fd");
}

#[test]
fn build_search_url_trims_the_query() {
    assert_eq!(
        build_search_url("https://duckduckgo.com/?q={}", "  rust  "),
        Some("https://duckduckgo.com/?q=rust".to_owned())
    );
}

#[test]
fn build_search_url_rejects_a_template_without_the_placeholder() {
    assert_eq!(
        build_search_url("https://duckduckgo.com/?q=fixed", "rust"),
        None
    );
}

#[test]
fn build_search_url_rejects_a_non_http_template() {
    assert_eq!(build_search_url("javascript:alert({})", "x"), None);
}

#[test]
fn a_query_is_encoded_before_it_is_put_into_the_template() {
    assert_eq!(
        build_search_url("https://s.example/?q={}&x=1", "a&b c+d é#"),
        Some("https://s.example/?q=a%26b+c%2Bd+%C3%A9%23&x=1".to_owned())
    );
}

#[test]
fn white_space_around_input_does_not_count() {
    for input in ["example.com", "rust ownership", "?x", "javascript:alert(1)", ""] {
        let padded = format!(" \t{input}\u{3000} ");
        assert_eq!(normalize_input(input), normalize_input(&padded));
        assert_eq!(classify_input(input), classify_input(&padded));
    }
}

#[test]
fn a_classified_url_is_the_normalized_one() {
    assert_eq!(
        classify_input("127.0.0.1:80/x"),
        normalize_input("127.0.0.1:80/x").map(Intent::Url)
    );
}

#[test]
fn hosts_of_the_machine_itself_are_loaded_without_encryption() {
    for (input, expected) in [
        ("[::1]:8080/x", "http://[::1]:8080/x"),
        ("127.1.2.3", "http://127.1.2.3/"),
        ("app.localhost:3000", "http://app.localhost:3000/"),
    ] {
        assert_eq!(normalize_input(input).as_deref(), Some(expected));
    }
    assert_eq!(normalize_input("128.0.0.1").as_deref(), Some("https://128.0.0.1/"));
}

#[test]
fn a_scheme_that_is_not_allowed_is_refused_without_slashes_too() {
    for input in [
        "mailto:user@example.com",
        "tel:+49-30-1",
        "blob:https",
    ] {
        assert_eq!(normalize_input(input), None, "{input}");
    }
    assert_eq!(classify_input("mailto:user@example.com"), None);
}

#[test]
fn a_host_with_a_port_is_no_scheme() {
    for (input, url) in [
        ("localhost:8080", "http://localhost:8080/"),
        ("localhost:8080/a", "http://localhost:8080/a"),
        ("example.com:81?q", "https://example.com:81/?q"),
        ("example.com:81#f", "https://example.com:81/#f"),
        ("localhost:8080\\a", "http://localhost:8080/a"),
        ("localhost:80\t80", "http://localhost:8080/"),
        ("localhost:", "http://localhost/"),
        ("example.com:/x", "https://example.com/x"),
        ("example.com:?q", "https://example.com/?q"),
        ("example.com:#f", "https://example.com/#f"),
    ] {
        assert_eq!(normalize_input(input), Some(url.to_owned()), "{input}");
    }
    assert_eq!(normalize_input("example.com:81x"), None);
}
