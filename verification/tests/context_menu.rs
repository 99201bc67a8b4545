//! The context menu of a page.

use velox_browser::context_menu::{
    build_menu, choose_menu_url, sanitize, MenuAction, MenuContext, OpenContextMenu, RawMenuContext,
    MAX_SELECTION_LEN, MAX_URL_LEN, SELECTION_PREVIEW_CHARS,
};
use velox_browser::tab_id::TabId;

fn ctx() -> RawMenuContext {
    RawMenuContext::default()
}

#[test]
fn sanitize_accepts_http_and_https_links() {
    let out = sanitize(RawMenuContext {
        link_href: Some("https://example.com/page".to_owned()),
        ..ctx()
    });
    assert_eq!(out.link_url.as_deref(), Some("https://example.com/page"));

    let out = sanitize(RawMenuContext {
        link_href: Some("http://example.com/page".to_owned()),
        ..ctx()
    });
    assert_eq!(out.link_url.as_deref(), Some("http://example.com/page"));
}

#[test]
fn sanitize_rejects_javascript_scheme_link() {
    let out = sanitize(RawMenuContext {
        link_href: Some("javascript:alert(document.cookie)".to_owned()),
        ..ctx()
    });
    assert_eq!(out.link_url, None);
}

#[test]
fn sanitize_rejects_javascript_scheme_regardless_of_case_or_whitespace() {
    for raw in [
        "JavaScript:alert(1)",
        "  javascript:alert(1)",
        "javascript:alert(1)//",
        "\tJAVASCRIPT:alert(1)",
    ] {
        let out = sanitize(RawMenuContext {
            link_href: Some(raw.to_owned()),
            ..ctx()
        });
        assert_eq!(out.link_url, None, "should reject {raw:?}");
    }
}

#[test]
fn sanitize_rejects_data_and_file_scheme_links() {
    let out = sanitize(RawMenuContext {
        link_href: Some("data:text/html,<script>alert(1)</script>".to_owned()),
        ..ctx()
    });
    assert_eq!(out.link_url, None);

    let out = sanitize(RawMenuContext {
        link_href: Some("file:///etc/passwd".to_owned()),
        ..ctx()
    });
    assert_eq!(out.link_url, None);
}

#[test]
fn sanitize_rejects_vbscript_scheme_link() {
    let out = sanitize(RawMenuContext {
        link_href: Some("vbscript:msgbox(1)".to_owned()),
        ..ctx()
    });
    assert_eq!(out.link_url, None);
}

#[test]
fn sanitize_rejects_javascript_scheme_image_src_too() {
    let out = sanitize(RawMenuContext {
        image_src: Some("javascript:alert(1)".to_owned()),
        ..ctx()
    });
    assert_eq!(out.image_url, None);
}

#[test]
fn sanitize_rejects_empty_or_oversized_urls() {
    let out = sanitize(RawMenuContext {
        link_href: Some(String::new()),
        ..ctx()
    });
    assert_eq!(out.link_url, None);

    let huge = format!("https://example.com/{}", "a".repeat(MAX_URL_LEN + 1));
    let out = sanitize(RawMenuContext {
        link_href: Some(huge),
        ..ctx()
    });
    assert_eq!(out.link_url, None);
}

#[test]
fn sanitize_does_not_panic_on_hostile_link_input() {
    for raw in [
        "\0\0\0",
        "https://",
        "\u{202e}https://evil.example/",
        "://not-a-url",
        "https:// space in host/",
    ] {
        let _ = sanitize(RawMenuContext {
            link_href: Some(raw.to_owned()),
            image_src: Some(raw.to_owned()),
            ..ctx()
        });
    }
}

#[test]
fn sanitize_trims_and_keeps_non_empty_selection() {
    let out = sanitize(RawMenuContext {
        selection_text: Some("  hello world  ".to_owned()),
        ..ctx()
    });
    assert_eq!(out.selection_text.as_deref(), Some("hello world"));
}

#[test]
fn sanitize_drops_whitespace_only_selection() {
    let out = sanitize(RawMenuContext {
        selection_text: Some("   \n\t  ".to_owned()),
        ..ctx()
    });
    assert_eq!(out.selection_text, None);
}

#[test]
fn sanitize_strips_control_characters_from_selection_but_keeps_ordinary_text() {
    let out = sanitize(RawMenuContext {
        selection_text: Some("a\u{0}b\u{7}c<script>d".to_owned()),
        ..ctx()
    });
    assert_eq!(out.selection_text.as_deref(), Some("abc<script>d"));
}

#[test]
fn sanitize_caps_selection_length() {
    let long = "a".repeat(MAX_SELECTION_LEN + 500);
    let out = sanitize(RawMenuContext {
        selection_text: Some(long),
        ..ctx()
    });
    assert_eq!(
        out.selection_text.unwrap().chars().count(),
        MAX_SELECTION_LEN
    );
}

#[test]
fn sanitize_never_splits_a_multibyte_character_when_truncating_selection() {
    let long = "あ".repeat(MAX_SELECTION_LEN + 10);
    let out = sanitize(RawMenuContext {
        selection_text: Some(long),
        ..ctx()
    });
    let text = out.selection_text.unwrap();
    assert_eq!(text.chars().count(), MAX_SELECTION_LEN);
    assert!(text.chars().all(|c| c == 'あ'));
}

#[test]
fn plain_page_click_has_no_link_or_image_items_and_disabled_copy_paste() {
    let entries = build_menu(&MenuContext::default());
    let actions: Vec<_> = entries.iter().map(|e| &e.action).collect();
    assert!(!actions
        .iter()
        .any(|a| matches!(a, MenuAction::OpenLinkInNewTab(_))));
    assert!(!actions
        .iter()
        .any(|a| matches!(a, MenuAction::OpenLinkInNewWindow(_))));
    assert!(!actions
        .iter()
        .any(|a| matches!(a, MenuAction::OpenImageInNewTab(_))));
    assert!(!actions
        .iter()
        .any(|a| matches!(a, MenuAction::SearchSelection(_))));

    let copy = entries
        .iter()
        .find(|e| e.action == MenuAction::Copy)
        .unwrap();
    assert!(!copy.enabled);
    let paste = entries
        .iter()
        .find(|e| e.action == MenuAction::Paste)
        .unwrap();
    assert!(!paste.enabled);

    for action in [
        MenuAction::Back,
        MenuAction::Forward,
        MenuAction::Reload,
        MenuAction::Inspect,
    ] {
        assert!(entries.iter().any(|e| e.action == action));
    }
}

#[test]
fn link_click_adds_open_in_new_tab_and_new_window_enabled() {
    let context = MenuContext {
        link_url: Some("https://example.com/".to_owned()),
        ..MenuContext::default()
    };
    let entries = build_menu(&context);
    let new_tab = entries
        .iter()
        .find(|e| matches!(e.action, MenuAction::OpenLinkInNewTab(_)))
        .expect("open in new tab item");
    assert!(new_tab.enabled);
    assert_eq!(
        new_tab.action,
        MenuAction::OpenLinkInNewTab("https://example.com/".to_owned())
    );
    let new_window = entries
        .iter()
        .find(|e| matches!(e.action, MenuAction::OpenLinkInNewWindow(_)))
        .expect("open in new window item");
    assert!(new_window.enabled);
}

#[test]
fn image_click_adds_open_image_in_new_tab_enabled() {
    let context = MenuContext {
        image_url: Some("https://example.com/cat.png".to_owned()),
        ..MenuContext::default()
    };
    let entries = build_menu(&context);
    let item = entries
        .iter()
        .find(|e| matches!(e.action, MenuAction::OpenImageInNewTab(_)))
        .expect("open image item");
    assert!(item.enabled);
}

#[test]
fn selection_enables_copy_and_adds_search_selection() {
    let context = MenuContext {
        selection_text: Some("hello".to_owned()),
        ..MenuContext::default()
    };
    let entries = build_menu(&context);
    assert!(
        entries
            .iter()
            .find(|e| e.action == MenuAction::Copy)
            .unwrap()
            .enabled
    );
    let search = entries
        .iter()
        .find(|e| matches!(e.action, MenuAction::SearchSelection(_)))
        .expect("search selection item");
    assert!(search.enabled);
    assert_eq!(
        search.action,
        MenuAction::SearchSelection("hello".to_owned())
    );
}

#[test]
fn editable_target_enables_paste_only() {
    let context = MenuContext {
        is_editable: true,
        ..MenuContext::default()
    };
    let entries = build_menu(&context);
    assert!(
        entries
            .iter()
            .find(|e| e.action == MenuAction::Paste)
            .unwrap()
            .enabled
    );
    assert!(
        !entries
            .iter()
            .find(|e| e.action == MenuAction::Copy)
            .unwrap()
            .enabled
    );
}

#[test]
fn search_selection_label_includes_a_short_preview() {
    let action = MenuAction::SearchSelection("hello world".to_owned());
    assert_eq!(action.label(), "「hello world」を検索");
}

#[test]
fn search_selection_label_truncates_long_selection_with_ellipsis() {
    let long = "a".repeat(SELECTION_PREVIEW_CHARS + 20);
    let action = MenuAction::SearchSelection(long);
    let label = action.label();
    assert!(label.contains('…'), "{label}");
    let preview_len = label
        .trim_start_matches('「')
        .trim_end_matches("…」を検索")
        .chars()
        .count();
    assert_eq!(preview_len, SELECTION_PREVIEW_CHARS);
}

#[test]
fn search_selection_label_keeps_html_like_text_as_literal_characters() {
    let action = MenuAction::SearchSelection("<script>alert(1)</script>".to_owned());
    assert!(action.label().contains("<script>alert(1)</script>"));
}

#[test]
fn resolve_returns_the_action_at_a_valid_enabled_index() {
    let context = MenuContext {
        link_url: Some("https://example.com/".to_owned()),
        ..MenuContext::default()
    };
    let entries = build_menu(&context);
    let index = entries
        .iter()
        .position(|e| matches!(e.action, MenuAction::OpenLinkInNewTab(_)))
        .unwrap();
    let menu = OpenContextMenu::new(TabId::from(0), entries);
    assert_eq!(
        menu.resolve(index),
        Some(MenuAction::OpenLinkInNewTab(
            "https://example.com/".to_owned()
        ))
    );
}

#[test]
fn resolve_rejects_a_disabled_entry() {
    let entries = build_menu(&MenuContext::default());
    let index = entries
        .iter()
        .position(|e| e.action == MenuAction::Copy)
        .unwrap();
    assert!(!entries[index].enabled);
    let menu = OpenContextMenu::new(TabId::from(0), entries);
    assert_eq!(menu.resolve(index), None);
}

#[test]
fn resolve_rejects_an_out_of_range_index() {
    let entries = build_menu(&MenuContext::default());
    let len = entries.len();
    let menu = OpenContextMenu::new(TabId::from(0), entries.clone());
    assert_eq!(menu.resolve(len), None);
    let menu = OpenContextMenu::new(TabId::from(0), entries);
    assert_eq!(menu.resolve(usize::MAX), None);
}

#[test]
fn every_other_label_is_stable_and_non_empty() {
    for action in [
        MenuAction::Back,
        MenuAction::Forward,
        MenuAction::Reload,
        MenuAction::Copy,
        MenuAction::Paste,
        MenuAction::OpenLinkInNewTab("https://example.com/".to_owned()),
        MenuAction::OpenLinkInNewWindow("https://example.com/".to_owned()),
        MenuAction::OpenImageInNewTab("https://example.com/x.png".to_owned()),
        MenuAction::Inspect,
    ] {
        assert!(!action.label().is_empty());
    }
}

#[test]
fn text_that_reorders_what_is_shown_is_stripped() {
    let out = sanitize(RawMenuContext {
        selection_text: Some("a\u{202e}b\u{2066}c\u{2069}d".to_owned()),
        ..ctx()
    });
    assert_eq!(out.selection_text.as_deref(), Some("abcd"));
}

#[test]
fn an_open_menu_knows_its_tab_and_entries() {
    let entries = build_menu(&MenuContext::default());
    let menu = OpenContextMenu::new(TabId::from(7), entries.clone());
    assert_eq!(menu.tab_id(), TabId::from(7));
    assert_eq!(menu.tab_id().get(), 7);
    assert_eq!(menu.entries(), entries);
}

#[test]
fn a_link_without_a_scheme_is_not_offered() {
    for raw in ["example.com", "example.com/page", "localhost:8080", "//example.com/", "page"] {
        let out = sanitize(RawMenuContext {
            link_href: Some(raw.to_owned()),
            image_src: Some(raw.to_owned()),
            ..ctx()
        });
        assert_eq!(out.link_url, None, "{raw}");
        assert_eq!(out.image_url, None, "{raw}");
    }
}

#[test]
fn a_menu_url_is_chosen_by_length_and_scheme() {
    let url = || Some("https://example.com/".to_owned());
    assert_eq!(choose_menu_url("https://example.com", url()), url());
    assert_eq!(choose_menu_url("", url()), None);
    assert_eq!(choose_menu_url(&"x".repeat(MAX_URL_LEN), url()), url());
    assert_eq!(choose_menu_url(&"x".repeat(MAX_URL_LEN + 1), url()), None);
    assert_eq!(choose_menu_url("file:///a", Some("file:///a".to_owned())), None);
    assert_eq!(choose_menu_url("a", None), None);
}
