//! The context menu of a page: what was clicked, and which entries that gives.
//!
//! All that a page reports of a click is under the control of the page.
//! [`sanitize`] is the only way from a [`RawMenuContext`] to a [`MenuContext`],
//! and nothing but the latter leads to a menu.

use vstd::prelude::*;
use vstd::string::*;

use crate::tab_id::TabId;
use crate::text::{self, chars_of, string_of, take_chars, trim_chars};
use crate::weburl;

verus! {

/// The length, in bytes, that the URL of a link or an image has at most.
pub const MAX_URL_LEN: usize = 8 * 1024;

/// The length, in characters, that selected text is cut to.
pub const MAX_SELECTION_LEN: usize = 4_000;

/// How many characters of selected text a label shows.
pub const SELECTION_PREVIEW_CHARS: usize = 30;

/// A click, as a page reports it.
#[derive(Debug, Clone, PartialEq, Eq)]
pub struct RawMenuContext {
    /// The target of the link under the cursor.
    pub link_href: Option<String>,
    /// The source of the image under the cursor.
    pub image_src: Option<String>,
    /// The selected text.
    pub selection_text: Option<String>,
    /// Whether the click fell on something that can be edited.
    pub is_editable: bool,
}

impl Default for RawMenuContext {
    fn default() -> (r: Self)
        ensures
            r.link_href is None,
            r.image_src is None,
            r.selection_text is None,
            !r.is_editable,
    {
        RawMenuContext {
            link_href: None,
            image_src: None,
            selection_text: None,
            is_editable: false,
        }
    }
}

/// A click, sanitized.
#[derive(Debug, Clone, PartialEq, Eq)]
pub struct MenuContext {
    /// An `http` or `https` URL.
    pub link_url: Option<String>,
    /// An `http` or `https` URL.
    pub image_url: Option<String>,
    /// Trimmed text without control characters, not empty.
    pub selection_text: Option<String>,
    pub is_editable: bool,
}

impl Default for MenuContext {
    fn default() -> (r: Self)
        ensures
            r.link_url is None,
            r.image_url is None,
            r.selection_text is None,
            !r.is_editable,
    {
        MenuContext { link_url: None, image_url: None, selection_text: None, is_editable: false }
    }
}

// ---------------------------------------------------------------------------
// Sanitizing

/// Whether `c` overrides, embeds or isolates the direction of text.
pub open spec fn is_bidi_control(c: char) -> bool {
    '\u{202a}' <= c <= '\u{202e}' || '\u{2066}' <= c <= '\u{2069}'
}

/// Whether `c` is kept in selected text: it is no control character, or it is a
/// tab or a line feed.
pub open spec fn is_kept(c: char) -> bool {
    (!text::is_control_char(c) && !is_bidi_control(c)) || c == '\t' || c == '\n'
}

/// `s` without its control characters.
pub open spec fn plain_text(s: Seq<char>) -> Seq<char> {
    s.filter(|c: char| is_kept(c))
}

fn strip_control_chars(s: &[char]) -> (r: Vec<char>)
    ensures
        r@ == plain_text(s@),
{
    let mut r: Vec<char> = Vec::new();
    let ghost keep = |c: char| is_kept(c);
    proof {
        reveal(Seq::filter);
    }
    assert(s@.take(0).filter(keep) =~= Seq::empty());
    for i in 0..s.len()
        invariant
            keep == (|c: char| is_kept(c)),
            r@ == s@.take(i as int).filter(keep),
    {
        proof {
            s@.take(i as int).lemma_filter_push(s@[i as int], keep);
            assert(s@.take(i as int).push(s@[i as int]) =~= s@.take(i + 1));
        }
        let c = s[i];
        let bidi = ('\u{202a}' <= c && c <= '\u{202e}') || ('\u{2066}' <= c && c <= '\u{2069}');
        if (!c.is_control() && !bidi) || c == '\t' || c == '\n' {
            r.push(c);
        }
    }
    assert(s@.take(s@.len() as int) =~= s@);
    r
}

/// The first `max` characters of `s`.
pub open spec fn shortened(s: Seq<char>, max: nat) -> Seq<char> {
    if s.len() <= max {
        s
    } else {
        s.take(max as int)
    }
}

fn truncate_chars(s: &[char], max: usize) -> (r: &[char])
    ensures
        r@ == shortened(s@, max as nat),
{
    if s.len() <= max {
        s
    } else {
        take_chars(s, max)
    }
}

/// Selected text once it is sanitized; `None` where nothing is left of it.
pub open spec fn sanitized_selection(s: Seq<char>) -> Option<Seq<char>> {
    let cut = shortened(text::trimmed(plain_text(s)), MAX_SELECTION_LEN as nat);
    if cut.len() == 0 {
        None
    } else {
        Some(cut)
    }
}

fn sanitize_selection(s: &str) -> (r: Option<String>)
    ensures
        weburl::opt_text(r) == sanitized_selection(s@),
{
    let plain = strip_control_chars(&chars_of(s));
    let cut = truncate_chars(trim_chars(&plain), MAX_SELECTION_LEN);
    if cut.len() == 0 {
        None
    } else {
        Some(string_of(cut))
    }
}

/// Whether a URL is one of `http` or `https`.
pub open spec fn is_web_url(url: Seq<char>) -> bool {
    "http://"@.is_prefix_of(url) || "https://"@.is_prefix_of(url)
}

/// The URL that a menu may offer for a reported one, where it parses as `url`.
/// This is narrower than what a user may type: the page chose it, so a scheme is
/// not made up for it.
pub open spec fn menu_url_choice(raw: Seq<char>, url: Option<Seq<char>>) -> Option<Seq<char>> {
    if raw.len() == 0 || text::byte_len(raw) > MAX_URL_LEN {
        None
    } else {
        match url {
            Some(u) => if is_web_url(u) {
                Some(u)
            } else {
                None
            },
            None => None,
        }
    }
}

/// The URL that a menu may offer for a reported one, where it parses as `url`.
pub fn choose_menu_url(raw: &str, url: Option<String>) -> (r: Option<String>)
    ensures
        weburl::opt_text(r) == menu_url_choice(raw@, weburl::opt_text(url)),
{
    let chars = chars_of(raw);
    if chars.len() == 0 || !text::fits_in_bytes(&chars, MAX_URL_LEN) {
        return None;
    }
    match url {
        Some(u) => {
            let target = chars_of(&u);
            if text::has_prefix(&target, "http://") || text::has_prefix(&target, "https://") {
                Some(u)
            } else {
                None
            }
        },
        None => None,
    }
}

/// The serialization of the URL that a text parses as.
pub open spec fn parsed_text(s: Seq<char>) -> Option<Seq<char>> {
    match weburl::parsed_url(s) {
        Some(u) => Some(u.text),
        None => None,
    }
}

/// The URL that a menu may offer for a reported one.
pub open spec fn menu_url(raw: Option<Seq<char>>) -> Option<Seq<char>> {
    match raw {
        Some(r) => menu_url_choice(r, parsed_text(r)),
        None => None,
    }
}

fn sanitize_menu_url(raw: Option<String>) -> (r: Option<String>)
    ensures
        weburl::opt_text(r) == menu_url(weburl::opt_text(raw)),
{
    match raw {
        Some(raw) => {
            if raw.as_str().is_empty() || !text::fits_in_bytes(&chars_of(&raw), MAX_URL_LEN) {
                return None;
            }
            let url = match weburl::parse_url(&raw) {
                Some(u) => Some(u.text),
                None => None,
            };
            choose_menu_url(&raw, url)
        },
        None => None,
    }
}

/// Sanitizes what a page reported of a click.
///
/// A URL is kept where it parses and is one of `http` or `https`, and its length
/// is within [`MAX_URL_LEN`]. Selected text loses its control characters and the
/// white space around it, and is cut to [`MAX_SELECTION_LEN`].
pub fn sanitize(raw: RawMenuContext) -> (r: MenuContext)
    ensures
        weburl::opt_text(r.link_url) == menu_url(weburl::opt_text(raw.link_href)),
        weburl::opt_text(r.image_url) == menu_url(weburl::opt_text(raw.image_src)),
        weburl::opt_text(r.selection_text) == match raw.selection_text {
            Some(s) => sanitized_selection(s@),
            None => None,
        },
        r.is_editable == raw.is_editable,
{
    let selection_text = match raw.selection_text {
        Some(s) => sanitize_selection(&s),
        None => None,
    };
    MenuContext {
        link_url: sanitize_menu_url(raw.link_href),
        image_url: sanitize_menu_url(raw.image_src),
        selection_text,
        is_editable: raw.is_editable,
    }
}

// ---------------------------------------------------------------------------
// Entries

/// What an entry of the menu does.
#[derive(Debug, Clone, PartialEq, Eq)]
pub enum MenuAction {
    Back,
    Forward,
    Reload,
    Copy,
    Paste,
    /// Search the web for the selected text.
    SearchSelection(String),
    OpenLinkInNewTab(String),
    OpenLinkInNewWindow(String),
    OpenImageInNewTab(String),
    /// Open the developer tools.
    Inspect,
}

/// What a [`MenuAction`] stands for.
pub enum ActionModel {
    Back,
    Forward,
    Reload,
    Copy,
    Paste,
    SearchSelection(Seq<char>),
    OpenLinkInNewTab(Seq<char>),
    OpenLinkInNewWindow(Seq<char>),
    OpenImageInNewTab(Seq<char>),
    Inspect,
}

impl View for MenuAction {
    type V = ActionModel;

    open spec fn view(&self) -> ActionModel {
        match self {
            MenuAction::Back => ActionModel::Back,
            MenuAction::Forward => ActionModel::Forward,
            MenuAction::Reload => ActionModel::Reload,
            MenuAction::Copy => ActionModel::Copy,
            MenuAction::Paste => ActionModel::Paste,
            MenuAction::SearchSelection(t) => ActionModel::SearchSelection(t@),
            MenuAction::OpenLinkInNewTab(u) => ActionModel::OpenLinkInNewTab(u@),
            MenuAction::OpenLinkInNewWindow(u) => ActionModel::OpenLinkInNewWindow(u@),
            MenuAction::OpenImageInNewTab(u) => ActionModel::OpenImageInNewTab(u@),
            MenuAction::Inspect => ActionModel::Inspect,
        }
    }
}

/// The label of an action. That of a search shows the start of the text.
pub open spec fn label_text(a: ActionModel) -> Seq<char> {
    match a {
        ActionModel::Back => "戻る"@,
        ActionModel::Forward => "進む"@,
        ActionModel::Reload => "再読み込み"@,
        ActionModel::Copy => "コピー"@,
        ActionModel::Paste => "貼り付け"@,
        ActionModel::SearchSelection(t) => "「"@ + shortened(t, SELECTION_PREVIEW_CHARS as nat) + (
        if t.len() > SELECTION_PREVIEW_CHARS {
            "…"@
        } else {
            Seq::empty()
        }) + "」を検索"@,
        ActionModel::OpenLinkInNewTab(_) => "リンクを新しいタブで開く"@,
        ActionModel::OpenLinkInNewWindow(_) => "リンクを新しいウィンドウで開く"@,
        ActionModel::OpenImageInNewTab(_) => "画像を新しいタブで開く"@,
        ActionModel::Inspect => "検証"@,
    }
}

impl MenuAction {
    /// The label of the action.
    pub fn label(&self) -> (r: String)
        ensures
            r@ == label_text(self@),
    {
        match self {
            MenuAction::Back => "戻る".to_owned(),
            MenuAction::Forward => "進む".to_owned(),
            MenuAction::Reload => "再読み込み".to_owned(),
            MenuAction::Copy => "コピー".to_owned(),
            MenuAction::Paste => "貼り付け".to_owned(),
            MenuAction::SearchSelection(t) => {
                let chars = chars_of(t);
                let mut r = "「".to_owned();
                r.append(&string_of(truncate_chars(&chars, SELECTION_PREVIEW_CHARS)));
                if chars.len() > SELECTION_PREVIEW_CHARS {
                    r.append("…");
                }
                r.append("」を検索");
                assert(r@ =~= label_text(self@));
                r
            },
            MenuAction::OpenLinkInNewTab(_) => "リンクを新しいタブで開く".to_owned(),
            MenuAction::OpenLinkInNewWindow(_) => "リンクを新しいウィンドウで開く".to_owned(),
            MenuAction::OpenImageInNewTab(_) => "画像を新しいタブで開く".to_owned(),
            MenuAction::Inspect => "検証".to_owned(),
        }
    }
}

/// An entry of the menu. One that is not enabled is shown, but cannot be chosen.
#[derive(Debug, Clone, PartialEq, Eq)]
pub struct MenuEntry {
    pub action: MenuAction,
    pub enabled: bool,
}

/// What entries stand for.
pub open spec fn entry_models(v: Seq<MenuEntry>) -> Seq<(ActionModel, bool)> {
    v.map_values(|e: MenuEntry| (e.action@, e.enabled))
}

/// The entries for a link.
pub open spec fn link_entries(link: Option<Seq<char>>) -> Seq<(ActionModel, bool)> {
    match link {
        Some(url) => seq![
            (ActionModel::OpenLinkInNewTab(url), true),
            (ActionModel::OpenLinkInNewWindow(url), true),
        ],
        None => Seq::empty(),
    }
}

/// The entries for an image.
pub open spec fn image_entries(image: Option<Seq<char>>) -> Seq<(ActionModel, bool)> {
    match image {
        Some(url) => seq![(ActionModel::OpenImageInNewTab(url), true)],
        None => Seq::empty(),
    }
}

/// The entries for selected text.
pub open spec fn selection_entries(selection: Option<Seq<char>>, editable: bool) -> Seq<
    (ActionModel, bool),
> {
    let copy_and_paste = seq![
        (ActionModel::Copy, selection is Some),
        (ActionModel::Paste, editable),
    ];
    match selection {
        Some(t) => copy_and_paste.push((ActionModel::SearchSelection(t), true)),
        None => copy_and_paste,
    }
}

/// The entries of the menu for a click. Copying and pasting are always listed;
/// what belongs to a link, an image or selected text only where there is one.
pub open spec fn menu_of(
    link: Option<Seq<char>>,
    image: Option<Seq<char>>,
    selection: Option<Seq<char>>,
    editable: bool,
) -> Seq<(ActionModel, bool)> {
    seq![(ActionModel::Back, true), (ActionModel::Forward, true), (ActionModel::Reload, true)]
        + link_entries(link) + image_entries(image) + selection_entries(selection, editable) + seq![
        (ActionModel::Inspect, true),
    ]
}

/// The entries of the menu for a click.
pub fn build_menu(context: &MenuContext) -> (r: Vec<MenuEntry>)
    ensures
        entry_models(r@) == menu_of(
            weburl::opt_text(context.link_url),
            weburl::opt_text(context.image_url),
            weburl::opt_text(context.selection_text),
            context.is_editable,
        ),
{
    let mut entries: Vec<MenuEntry> = Vec::new();
    entries.push(MenuEntry { action: MenuAction::Back, enabled: true });
    entries.push(MenuEntry { action: MenuAction::Forward, enabled: true });
    entries.push(MenuEntry { action: MenuAction::Reload, enabled: true });
    if let Some(url) = &context.link_url {
        entries.push(
            MenuEntry { action: MenuAction::OpenLinkInNewTab(url.clone()), enabled: true },
        );
        entries.push(
            MenuEntry { action: MenuAction::OpenLinkInNewWindow(url.clone()), enabled: true },
        );
    }
    if let Some(url) = &context.image_url {
        entries.push(
            MenuEntry { action: MenuAction::OpenImageInNewTab(url.clone()), enabled: true },
        );
    }
    entries.push(MenuEntry { action: MenuAction::Copy, enabled: context.selection_text.is_some() });
    entries.push(MenuEntry { action: MenuAction::Paste, enabled: context.is_editable });
    if let Some(t) = &context.selection_text {
        entries.push(MenuEntry { action: MenuAction::SearchSelection(t.clone()), enabled: true });
    }
    entries.push(MenuEntry { action: MenuAction::Inspect, enabled: true });
    assert(entry_models(entries@) =~= menu_of(
        weburl::opt_text(context.link_url),
        weburl::opt_text(context.image_url),
        weburl::opt_text(context.selection_text),
        context.is_editable,
    ));
    entries
}

// ---------------------------------------------------------------------------
// An open menu

/// A menu that is open: the tab that it was opened on, and its entries as they
/// were shown.
#[derive(Debug, Clone, PartialEq, Eq)]
pub struct OpenContextMenu {
    tab_id: TabId,
    entries: Vec<MenuEntry>,
}

impl View for OpenContextMenu {
    type V = (TabId, Seq<MenuEntry>);

    closed spec fn view(&self) -> (TabId, Seq<MenuEntry>) {
        (self.tab_id, self.entries@)
    }
}

impl OpenContextMenu {
    /// A menu with the given entries.
    pub fn new(tab_id: TabId, entries: Vec<MenuEntry>) -> (r: Self)
        ensures
            r@ == (tab_id, entries@),
    {
        OpenContextMenu { tab_id, entries }
    }

    /// The tab that the menu was opened on.
    pub fn tab_id(&self) -> (r: TabId)
        ensures
            r == self@.0,
    {
        self.tab_id
    }

    /// The entries of the menu.
    pub fn entries(&self) -> (r: &[MenuEntry])
        ensures
            r@ == self@.1,
    {
        self.entries.as_slice()
    }

    /// The action of the entry at an index; `None` where there is no such entry
    /// or it is not enabled, so that a page cannot run what it was not offered.
    pub fn resolve(self, index: usize) -> (r: Option<MenuAction>)
        ensures
            r == (if index < self@.1.len() && self@.1[index as int].enabled {
                Some(self@.1[index as int].action)
            } else {
                None
            }),
    {
        let mut entries = self.entries;
        if index >= entries.len() {
            return None;
        }
        let entry = entries.swap_remove(index);
        if entry.enabled {
            Some(entry.action)
        } else {
            None
        }
    }
}

// ---------------------------------------------------------------------------
// Laws

/// A URL that a menu offers is one of `http` or `https`, and is what the reported
/// text parses as.
pub proof fn a_menu_offers_only_web_urls(raw: Option<Seq<char>>)
    ensures
        menu_url(raw) matches Some(url) ==> is_web_url(url) && (raw matches Some(r) && parsed_text(r)
            == Some(url)),
{
}

/// Sanitized text is not empty, holds no control character but tabs and line
/// feeds, and is at most [`MAX_SELECTION_LEN`] long.
pub proof fn sanitized_text_is_plain(s: Seq<char>)
    ensures
        sanitized_selection(s) matches Some(t) ==> 0 < t.len() <= MAX_SELECTION_LEN && forall|i: int|
            0 <= i < t.len() ==> is_kept(#[trigger] t[i]),
{
    let plain = plain_text(s);
    lemma_plain_text(s);
    let (i, j) = text::lemma_trimmed_is_part(plain);
    let trimmed = text::trimmed(plain);
    assert forall|k: int| 0 <= k < trimmed.len() implies is_kept(#[trigger] trimmed[k]) by {
        assert(trimmed[k] == plain[i + k]);
    }
}

proof fn lemma_plain_text(s: Seq<char>)
    ensures
        forall|i: int| 0 <= i < plain_text(s).len() ==> is_kept(#[trigger] plain_text(s)[i]),
    decreases s.len(),
{
    reveal(Seq::filter);
    if s.len() > 0 {
        lemma_plain_text(s.drop_last());
        let before = plain_text(s.drop_last());
        assert forall|i: int| 0 <= i < plain_text(s).len() implies is_kept(
            #[trigger] plain_text(s)[i],
        ) by {
            if i < before.len() {
                assert(is_kept(before[i]));
            }
        }
    }
}

/// Going back, forward and reloading, copying and pasting, and the developer
/// tools are in every menu.
pub proof fn fixed_entries_are_in_every_menu(
    link: Option<Seq<char>>,
    image: Option<Seq<char>>,
    selection: Option<Seq<char>>,
    editable: bool,
)
    ensures
        menu_of(link, image, selection, editable).contains((ActionModel::Back, true)),
        menu_of(link, image, selection, editable).contains((ActionModel::Forward, true)),
        menu_of(link, image, selection, editable).contains((ActionModel::Reload, true)),
        menu_of(link, image, selection, editable).contains((ActionModel::Copy, selection is Some)),
        menu_of(link, image, selection, editable).contains((ActionModel::Paste, editable)),
        menu_of(link, image, selection, editable).contains((ActionModel::Inspect, true)),
{
    let menu = menu_of(link, image, selection, editable);
    let n = 3 + link_entries(link).len() + image_entries(image).len();
    assert(menu[0] == (ActionModel::Back, true));
    assert(menu[1] == (ActionModel::Forward, true));
    assert(menu[2] == (ActionModel::Reload, true));
    assert(menu[n as int] == (ActionModel::Copy, selection is Some));
    assert(menu[n as int + 1] == (ActionModel::Paste, editable));
    assert(menu[menu.len() - 1] == (ActionModel::Inspect, true));
}

/// Without a link, an image or selected text there is no entry for one.
pub proof fn a_plain_click_offers_no_target(editable: bool, i: int)
    requires
        0 <= i < menu_of(None, None, None, editable).len(),
    ensures
        !(menu_of(None, None, None, editable)[i].0 is OpenLinkInNewTab),
        !(menu_of(None, None, None, editable)[i].0 is OpenLinkInNewWindow),
        !(menu_of(None, None, None, editable)[i].0 is OpenImageInNewTab),
        !(menu_of(None, None, None, editable)[i].0 is SearchSelection),
{
    let menu = menu_of(None, None, None, editable);
    assert(menu =~= seq![
        (ActionModel::Back, true),
        (ActionModel::Forward, true),
        (ActionModel::Reload, true),
        (ActionModel::Copy, false),
        (ActionModel::Paste, editable),
        (ActionModel::Inspect, true),
    ]);
}

/// Whether a character may do harm in text that is shown: it is a control character
/// other than a tab or a line feed, or one that changes the direction of text.
pub open spec fn is_harmful(c: char) -> bool {
    ||| c <= '\u{1f}' && c != '\t' && c != '\n'
    ||| '\u{7f}' <= c <= '\u{9f}'
    ||| '\u{202a}' <= c <= '\u{202e}'
    ||| '\u{2066}' <= c <= '\u{2069}'
}

/// Harmful characters are dropped from text, and no other; the rest stays in order.
pub proof fn only_harmful_characters_go(s: Seq<char>, c: char)
    ensures
        plain_text(Seq::empty()).len() == 0,
        is_harmful(c) ==> plain_text(s.push(c)) == plain_text(s),
        !is_harmful(c) ==> plain_text(s.push(c)) == plain_text(s).push(c),
{
    reveal(Seq::filter);
    assert(s.push(c).drop_last() =~= s);
    assert(is_kept(c) == !is_harmful(c));
}

/// Selected text without anything harmful is kept as it is, without the white space
/// around it, up to 4000 characters; of a longer text the first 4000 are kept.
pub proof fn harmless_text_is_kept(front: Seq<char>, s: Seq<char>, back: Seq<char>)
    requires
        text::is_blank(front),
        text::is_blank(back),
        s.len() > 0,
        !text::is_white_space(s.first()),
        !text::is_white_space(s.last()),
        forall|i: int|
            0 <= i < (front + s + back).len() ==> !is_harmful(#[trigger] (front + s + back)[i]),
    ensures
        s.len() <= 4000 ==> sanitized_selection(front + s + back) == Some(s),
        s.len() > 4000 ==> sanitized_selection(front + s + back) == Some(s.take(4000)),
{
    let whole = front + s + back;
    lemma_plain_text_is_kept(whole);
    text::trimming_finds_what_is_inside(front, s, back);
}

proof fn lemma_plain_text_is_kept(s: Seq<char>)
    requires
        forall|i: int| 0 <= i < s.len() ==> !is_harmful(#[trigger] s[i]),
    ensures
        plain_text(s) == s,
    decreases s.len(),
{
    reveal(Seq::filter);
    if s.len() > 0 {
        let shorter = s.drop_last();
        assert forall|i: int| 0 <= i < shorter.len() implies !is_harmful(#[trigger] shorter[i]) by {
            assert(shorter[i] == s[i]);
        }
        lemma_plain_text_is_kept(shorter);
        assert(!is_harmful(s[s.len() - 1]));
        assert(shorter.push(s.last()) =~= s);
    }
}

/// A menu offers what was clicked and nothing else: a link in a new tab or a new
/// window, an image in a new tab, and a search for selected text, each with what it
/// was clicked on and enabled. Copying is enabled where text is selected, pasting
/// where text can be edited.
pub proof fn a_menu_offers_what_was_clicked(
    link: Option<Seq<char>>,
    image: Option<Seq<char>>,
    selection: Option<Seq<char>>,
    editable: bool,
    i: int,
)
    requires
        0 <= i < menu_of(link, image, selection, editable).len(),
    ensures
        link matches Some(url) ==> menu_of(link, image, selection, editable).contains(
            (ActionModel::OpenLinkInNewTab(url), true),
        ) && menu_of(link, image, selection, editable).contains(
            (ActionModel::OpenLinkInNewWindow(url), true),
        ),
        image matches Some(url) ==> menu_of(link, image, selection, editable).contains(
            (ActionModel::OpenImageInNewTab(url), true),
        ),
        selection matches Some(t) ==> menu_of(link, image, selection, editable).contains(
            (ActionModel::SearchSelection(t), true),
        ),
        match menu_of(link, image, selection, editable)[i].0 {
            ActionModel::OpenLinkInNewTab(url) => link == Some(url),
            ActionModel::OpenLinkInNewWindow(url) => link == Some(url),
            ActionModel::OpenImageInNewTab(url) => image == Some(url),
            ActionModel::SearchSelection(t) => selection == Some(t),
            _ => true,
        },
        menu_of(link, image, selection, editable)[i].1 == match menu_of(
            link,
            image,
            selection,
            editable,
        )[i].0 {
            ActionModel::Copy => selection is Some,
            ActionModel::Paste => editable,
            _ => true,
        },
{
    let menu = menu_of(link, image, selection, editable);
    let a = link_entries(link).len() as int;
    let b = image_entries(image).len() as int;
    if let Some(url) = link {
        assert(menu[3] == (ActionModel::OpenLinkInNewTab(url), true));
        assert(menu[4] == (ActionModel::OpenLinkInNewWindow(url), true));
    }
    if let Some(url) = image {
        assert(menu[3 + a] == (ActionModel::OpenImageInNewTab(url), true));
    }
    if let Some(t) = selection {
        assert(menu[3 + a + b + 2] == (ActionModel::SearchSelection(t), true));
    }
}

/// The label of a search shows the text itself if it has at most 30 characters, and
/// otherwise the first 30 and an ellipsis.
pub proof fn a_label_shows_the_start(t: Seq<char>)
    ensures
        t.len() <= 30 ==> label_text(ActionModel::SearchSelection(t)) == "「"@ + t + "」を検索"@,
        t.len() > 30 ==> label_text(ActionModel::SearchSelection(t)) == "「"@ + t.take(30) + "…"@
            + "」を検索"@,
{
    assert("「"@ + t + Seq::<char>::empty() =~= "「"@ + t);
}

/// A reported URL is offered exactly where it is neither empty nor longer than 8192
/// bytes and parses as one of `http` or `https`; it is then offered as it parses.
pub proof fn a_web_url_is_offered_as_it_parses(raw: Seq<char>, url: weburl::UrlModel)
    requires
        weburl::parsed_url(raw) == Some(url),
    ensures
        0 < raw.len() && text::byte_len(raw) <= 8192 && ("http://"@.is_prefix_of(url.text)
            || "https://"@.is_prefix_of(url.text)) ==> menu_url(Some(raw)) == Some(url.text),
        raw.len() == 0 || text::byte_len(raw) > 8192 ==> menu_url(Some(raw)) is None,
        !"http://"@.is_prefix_of(url.text) && !"https://"@.is_prefix_of(url.text) ==> menu_url(
            Some(raw),
        ) is None,
        menu_url(None) is None,
{
}

} // verus!
