//! Address bar input: turning what the user typed into a URL the engine can
//! load, or into a search.

use vstd::prelude::*;
use vstd::string::*;

use crate::text::{self, chars_eq, chars_of, contains, find_from, str_eq, string_of, trim};
use crate::weburl::{
    self, form_encode, parse_url, replace_scheme, HostModel, ParsedUrl, UrlHost, UrlModel,
};

verus! {

/// The schemes that may be handed to the web engine.
pub open spec fn is_allowed_scheme(scheme: Seq<char>) -> bool {
    ||| scheme == "http"@
    ||| scheme == "https"@
    ||| scheme == "file"@
    ||| scheme == "about"@
    ||| scheme == "data"@
}

fn allowed_scheme(scheme: &str) -> (r: bool)
    ensures
        r == is_allowed_scheme(scheme@),
{
    str_eq(scheme, "http") || str_eq(scheme, "https") || str_eq(scheme, "file") || str_eq(
        scheme,
        "about",
    ) || str_eq(scheme, "data")
}

/// A host that almost certainly serves plain HTTP during development:
/// `localhost` and the names under it, `127.0.0.0/8` and `::1`.
pub open spec fn is_loopback(host: Option<HostModel>) -> bool {
    match host {
        Some(HostModel::Domain(d)) => d == "localhost"@ || ".localhost"@.is_suffix_of(d),
        Some(HostModel::Ipv4(a)) => a / 0x100_0000 == 127,
        Some(HostModel::Ipv6(a)) => a == 1,
        None => false,
    }
}

/// Whether a URL names a loopback host.
pub fn is_loopback_host(url: &ParsedUrl) -> (r: bool)
    ensures
        r == is_loopback(url@.host),
{
    match &url.host {
        Some(UrlHost::Domain(d)) => {
            if str_eq(d, "localhost") {
                return true;
            }
            let name = chars_of(d);
            let suffix = chars_of(".localhost");
            if name.len() < suffix.len() {
                return false;
            }
            let tail = vstd::slice::slice_subrange(&name, name.len() - suffix.len(), name.len());
            assert(tail@ == ".localhost"@ ==> ".localhost"@.is_suffix_of(d@));
            chars_eq(tail, &suffix)
        },
        Some(UrlHost::Ipv4(a)) => *a / 0x100_0000 == 127,
        Some(UrlHost::Ipv6(a)) => *a == 1,
        None => false,
    }
}

/// What to do with an input, going by what it parses as on its own.
pub enum Direct {
    /// Load it: it names an allowed scheme.
    Load(String),
    /// Refuse it: it names a scheme that is not allowed.
    Refuse,
    /// Try it again as the rest of an `https` URL.
    Retry,
}

/// What [`Direct`] stands for.
pub enum DirectModel {
    Load(Seq<char>),
    Refuse,
    Retry,
}

impl View for Direct {
    type V = DirectModel;

    open spec fn view(&self) -> DirectModel {
        match self {
            Direct::Load(t) => DirectModel::Load(t@),
            Direct::Refuse => DirectModel::Refuse,
            Direct::Retry => DirectModel::Retry,
        }
    }
}

/// Whether a character of a port is a digit, or one that URLs are read without.
pub open spec fn is_in_port(c: char) -> bool {
    text::is_digit(c) || c == '\t' || c == '\n' || c == '\r'
}

/// The first index, from one on, that holds nothing of a port.
pub open spec fn port_end(s: Seq<char>, from: int) -> int
    decreases s.len() - from,
{
    if from < s.len() && is_in_port(s[from]) {
        port_end(s, from + 1)
    } else {
        from
    }
}

/// Whether what follows the first colon reads as a port: digits, or nothing, up to
/// the path, the query, the fragment or the end.
pub open spec fn names_port(input: Seq<char>) -> bool {
    let colon = text::position_of(input, ':', 0);
    let end = port_end(input, colon + 1);
    colon < input.len() && (end == input.len() || input[end] == '/' || input[end] == '\\'
        || input[end] == '?' || input[end] == '#')
}

fn has_port(input: &[char]) -> (r: bool)
    ensures
        r == names_port(input@),
{
    let colon: usize = text::position(input, ':', 0);
    if colon == input.len() {
        return false;
    }
    let from: usize = colon + 1;
    let mut end: usize = from;
    while end < input.len() && (('0' <= input[end] && input[end] <= '9') || input[end] == '\t'
        || input[end] == '\n' || input[end] == '\r')
        invariant
            from <= end <= input@.len(),
            port_end(input@, from as int) == port_end(input@, end as int),
        decreases input@.len() - end,
    {
        end = end + 1;
    }
    end == input.len() || input[end] == '/' || input[end] == '\\' || input[end] == '?'
        || input[end] == '#'
}

/// What to do with `input` where it parses as `direct`. `localhost:8080` parses
/// with the scheme `localhost`, so an input whose scheme is not allowed counts as
/// one without a scheme where a port, or nothing, follows the colon, and no `://`
/// is in it.
pub open spec fn direct_choice(input: Seq<char>, direct: Option<UrlModel>) -> DirectModel {
    match direct {
        Some(u) => if is_allowed_scheme(u.scheme) {
            DirectModel::Load(u.text)
        } else if text::contains_text(input, "://"@) || !names_port(input) {
            DirectModel::Refuse
        } else {
            DirectModel::Retry
        },
        None => DirectModel::Retry,
    }
}

/// What to do with `input` where it parses as `direct`.
pub fn choose_direct(input: &str, direct: Option<ParsedUrl>) -> (r: Direct)
    ensures
        r@ == direct_choice(input@, weburl::opt_url(direct)),
{
    match direct {
        Some(u) => {
            if allowed_scheme(&u.scheme) {
                Direct::Load(u.text)
            } else if contains(input, "://") || !has_port(&chars_of(input)) {
                Direct::Refuse
            } else {
                Direct::Retry
            }
        },
        None => Direct::Retry,
    }
}

/// The URL to load for an input that was retried with `https://` before it:
/// `https` as parsed, or the same with the scheme `http` where the host is a
/// loopback host.
pub open spec fn retry_choice(https: Option<UrlModel>, http: Option<Seq<char>>) -> Option<
    Seq<char>,
> {
    match https {
        Some(u) => if is_loopback(u.host) {
            match http {
                Some(t) => Some(t),
                None => Some(u.text),
            }
        } else {
            Some(u.text)
        },
        None => None,
    }
}

/// The URL to load for an input that was retried with `https://` before it.
pub fn choose_retry(https: Option<ParsedUrl>, http: Option<String>) -> (r: Option<String>)
    ensures
        weburl::opt_text(r) == retry_choice(weburl::opt_url(https), weburl::opt_text(http)),
{
    match https {
        Some(u) => {
            if is_loopback_host(&u) {
                match http {
                    Some(t) => Some(t),
                    None => Some(u.text),
                }
            } else {
                Some(u.text)
            }
        },
        None => None,
    }
}

/// The URL that an input is loaded as; `None` where it is refused.
pub open spec fn normalized(input: Seq<char>) -> Option<Seq<char>> {
    let typed = text::trimmed(input);
    let with_https = "https://"@ + typed;
    if typed.len() == 0 {
        None
    } else {
        match direct_choice(typed, weburl::parsed_url(typed)) {
            DirectModel::Load(text) => Some(text),
            DirectModel::Refuse => None,
            DirectModel::Retry => retry_choice(
                weburl::parsed_url(with_https),
                weburl::text_with_scheme(with_https, "http"@),
            ),
        }
    }
}

/// Normalizes address bar input into a loadable URL.
///
/// - Surrounding white space is ignored.
/// - Input with an allowed explicit scheme is used as it parses.
/// - Input without a scheme (`example.com`, `rust-lang.org/learn`) is retried as
///   `https://<input>`; loopback hosts (`localhost:8080`, `127.0.0.1`) get
///   `http://`, since local development servers rarely speak TLS.
/// - Empty input, schemes that are not allowed and input that cannot be parsed
///   give `None`.
pub fn normalize_input(input: &str) -> (r: Option<String>)
    ensures
        weburl::opt_text(r) == normalized(input@),
        r matches Some(t) ==> has_allowed_scheme(t@),
{
    let typed = trim(input);
    if typed.is_empty() {
        return None;
    }
    match choose_direct(typed, parse_url(typed)) {
        Direct::Load(text) => {
            assert(direct_choice(typed@, weburl::parsed_url(typed@)) == DirectModel::Load(text@));
            Some(text)
        },
        Direct::Refuse => None,
        Direct::Retry => {
            let mut with_https = "https://".to_owned();
            with_https.append(typed);
            let https = parse_url(&with_https);
            let http = replace_scheme(&with_https, "http");
            proof {
                reveal_strlit("http");
                assert("https://"@.is_prefix_of("https://"@ + typed@));
                assert(is_allowed_scheme("https"@));
                assert(is_allowed_scheme("http"@));
            }
            choose_retry(https, http)
        },
    }
}

/// Whether a text starts with an allowed scheme and a colon.
pub open spec fn has_allowed_scheme(url: Seq<char>) -> bool {
    exists|scheme: Seq<char>| #[trigger]
        is_allowed_scheme(scheme) && (scheme + ":"@).is_prefix_of(url)
}

// ---------------------------------------------------------------------------
// URL or search

/// What the omnibox does with a piece of address bar input.
#[derive(Debug, Clone, PartialEq, Eq)]
pub enum Intent {
    /// Load this URL, as [`normalize_input`] gives it.
    Url(String),
    /// Search for this text: trimmed, not yet encoded.
    Search(String),
}

/// What an [`Intent`] stands for.
pub enum IntentModel {
    Url(Seq<char>),
    Search(Seq<char>),
}

impl View for Intent {
    type V = IntentModel;

    open spec fn view(&self) -> IntentModel {
        match self {
            Intent::Url(t) => IntentModel::Url(t@),
            Intent::Search(t) => IntentModel::Search(t@),
        }
    }
}

/// What an optional [`Intent`] stands for.
pub open spec fn opt_intent(r: Option<Intent>) -> Option<IntentModel> {
    match r {
        Some(i) => Some(i@),
        None => None,
    }
}

/// Whether a word of `s` starts at index `i`: a character that is not white
/// space, with white space or nothing before it.
pub open spec fn starts_word(s: Seq<char>, i: int) -> bool {
    !text::is_white_space(s[i]) && (i == 0 || text::is_white_space(s[i - 1]))
}

/// The number of words in `s`, separated by white space.
pub open spec fn word_count(s: Seq<char>) -> nat
    decreases s.len(),
{
    if s.len() == 0 {
        0
    } else {
        word_count(s.drop_last()) + if starts_word(s, s.len() - 1) {
            1nat
        } else {
            0nat
        }
    }
}

/// Whether `s` holds more than one word.
fn has_several_words(s: &[char]) -> (r: bool)
    ensures
        r == (word_count(s@) > 1),
{
    let mut count: u8 = 0;
    for i in 0..s.len()
        invariant
            count <= 1,
            count == word_count(s@.take(i as int)),
    {
        let starts = !s[i].is_whitespace() && (i == 0 || s[i - 1].is_whitespace());
        proof {
            let prefix = s@.take(i + 1);
            assert(prefix.drop_last() =~= s@.take(i as int));
            assert(starts == starts_word(prefix, i as int));
        }
        if starts {
            if count == 1 {
                proof {
                    lemma_word_count_grows(s@, i + 1);
                }
                return true;
            }
            count = 1;
        }
    }
    assert(s@.take(s@.len() as int) =~= s@);
    false
}

proof fn lemma_word_count_grows(s: Seq<char>, k: int)
    requires
        0 <= k <= s.len(),
    ensures
        word_count(s.take(k)) <= word_count(s),
    decreases s.len() - k,
{
    if k == s.len() {
        assert(s.take(k) =~= s);
    } else {
        assert(s.take(k + 1).drop_last() =~= s.take(k));
        lemma_word_count_grows(s, k + 1);
    }
}

/// Whether a single word is shaped like something meant as a URL: it names a
/// scheme or a port (`:`), or a dotted host.
pub open spec fn is_url_like(word: Seq<char>) -> bool {
    word.contains(':') || word.contains('.')
}

fn looks_url_like(word: &[char]) -> (r: bool)
    ensures
        r == is_url_like(word@),
{
    let colon: usize = text::position(word, ':', 0);
    let dot: usize = text::position(word, '.', 0);
    colon < word.len() || dot < word.len()
}

/// Whether an input is attempted as a URL: it does not force a search with `?`,
/// is a single word, and is shaped like a URL.
pub open spec fn is_url_attempt(typed: Seq<char>) -> bool {
    typed.len() > 0 && typed.first() != '?' && word_count(typed) <= 1 && is_url_like(typed)
}

fn attempts_url(typed: &[char]) -> (r: bool)
    ensures
        r == is_url_attempt(typed@),
{
    typed.len() > 0 && typed[0] != '?' && !has_several_words(typed) && looks_url_like(typed)
}

/// What trimmed input is taken for, where `url` is what it normalizes to.
pub open spec fn intent_choice(typed: Seq<char>, url: Option<Seq<char>>) -> Option<IntentModel> {
    if typed.len() == 0 {
        None
    } else if typed.first() == '?' {
        let query = text::trimmed(typed.drop_first());
        if query.len() == 0 {
            None
        } else {
            Some(IntentModel::Search(query))
        }
    } else if is_url_attempt(typed) {
        match url {
            Some(u) => Some(IntentModel::Url(u)),
            None => None,
        }
    } else {
        Some(IntentModel::Search(typed))
    }
}

/// What address bar input is taken for.
pub open spec fn classified(input: Seq<char>) -> Option<IntentModel> {
    intent_choice(text::trimmed(input), normalized(text::trimmed(input)))
}

/// What trimmed input is taken for, where `url` is what it normalizes to.
pub fn choose_intent(typed: &str, url: Option<String>) -> (r: Option<Intent>)
    ensures
        opt_intent(r) == intent_choice(typed@, weburl::opt_text(url)),
{
    let chars = chars_of(typed);
    if chars.len() == 0 {
        return None;
    }
    if chars[0] == '?' {
        let query = text::trim_chars(vstd::slice::slice_subrange(&chars, 1, chars.len()));
        assert(chars@.subrange(1, chars@.len() as int) =~= typed@.drop_first());
        return if query.len() == 0 {
            None
        } else {
            Some(Intent::Search(string_of(query)))
        };
    }
    if attempts_url(&chars) {
        return match url {
            Some(u) => Some(Intent::Url(u)),
            None => None,
        };
    }
    Some(Intent::Search(typed.to_owned()))
}

/// Decides whether address bar input is loaded as a URL or sent to the search
/// engine.
///
/// - Empty input gives `None`.
/// - A leading `?` forces a search for what follows it; nothing after it gives
///   `None`.
/// - Input of more than one word is a search.
/// - A single word that looks like a URL is normalized with
///   [`normalize_input`]; where that refuses it the result is `None`, never a
///   search.
/// - Any other single word is a search.
pub fn classify_input(input: &str) -> (r: Option<Intent>)
    ensures
        opt_intent(r) == classified(input@),
        r matches Some(Intent::Url(url)) ==> has_allowed_scheme(url@),
{
    let typed = trim(input);
    let url = if attempts_url(&chars_of(typed)) {
        normalize_input(typed)
    } else {
        None
    };
    choose_intent(typed, url)
}

// ---------------------------------------------------------------------------
// Search URLs

/// `template` with its first `{}` replaced; `None` where it holds none.
pub open spec fn filled_template(template: Seq<char>, value: Seq<char>) -> Option<Seq<char>> {
    match text::first_occurrence(template, "{}"@, 0) {
        Some(i) => Some(template.take(i) + value + template.skip(i + 2)),
        None => None,
    }
}

/// `template` with its first `{}` replaced by `value`.
pub fn fill_template(template: &str, value: &str) -> (r: Option<String>)
    ensures
        weburl::opt_text(r) == filled_template(template@, value@),
{
    proof {
        reveal_strlit("{}");
    }
    let chars = chars_of(template);
    let hole = chars_of("{}");
    let len: usize = chars.len();
    match find_from(&chars, &hole, 0) {
        Some(i) => {
            let mut out = string_of(vstd::slice::slice_subrange(&chars, 0, i));
            out.append(value);
            let rest = string_of(vstd::slice::slice_subrange(&chars, i + 2, len));
            out.append(&rest);
            assert(template@.subrange(0, i as int) =~= template@.take(i as int));
            assert(template@.subrange(i + 2, template@.len() as int) =~= template@.skip(i + 2));
            Some(out)
        },
        None => None,
    }
}

/// The text of a URL that a search may lead to: one of `http` or `https`.
pub open spec fn search_choice(candidate: Option<UrlModel>) -> Option<Seq<char>> {
    match candidate {
        Some(u) => if u.scheme == "http"@ || u.scheme == "https"@ {
            Some(u.text)
        } else {
            None
        },
        None => None,
    }
}

/// The text of a URL that a search may lead to.
pub fn choose_search(candidate: Option<ParsedUrl>) -> (r: Option<String>)
    ensures
        weburl::opt_text(r) == search_choice(weburl::opt_url(candidate)),
{
    match candidate {
        Some(u) => {
            if str_eq(&u.scheme, "http") || str_eq(&u.scheme, "https") {
                Some(u.text)
            } else {
                None
            }
        },
        None => None,
    }
}

/// The URL that searches for `query` with the engine that `template` names.
pub open spec fn search_url(template: Seq<char>, query: Seq<char>) -> Option<Seq<char>> {
    match filled_template(template, weburl::form_encoded(text::trimmed(query))) {
        Some(t) => search_choice(weburl::parsed_url(t)),
        None => None,
    }
}

/// Builds a search engine URL from a template and raw query text.
///
/// `template` holds the placeholder `{}` (`https://duckduckgo.com/?q={}`); the
/// trimmed query takes its place, encoded as
/// `application/x-www-form-urlencoded`. The result is given only where it
/// parses as an `http` or `https` URL, so that a misconfigured template cannot
/// produce something the engine would be asked to load.
pub fn build_search_url(template: &str, query: &str) -> (r: Option<String>)
    ensures
        weburl::opt_text(r) == search_url(template@, query@),
        r matches Some(t) ==> has_allowed_scheme(t@),
{
    let encoded = form_encode(trim(query));
    match fill_template(template, &encoded) {
        Some(candidate) => {
            let parsed = parse_url(&candidate);
            proof {
                assert(is_allowed_scheme("http"@) && is_allowed_scheme("https"@));
            }
            choose_search(parsed)
        },
        None => None,
    }
}

// ---------------------------------------------------------------------------
// Laws

/// Surrounding white space never changes what an input is taken for.
pub proof fn surrounding_white_space_is_ignored(input: Seq<char>)
    ensures
        normalized(input) == normalized(text::trimmed(input)),
        classified(input) == classified(text::trimmed(input)),
{
    text::trimmed_is_idempotent(input);
}

/// An input that parses with a scheme that is not allowed is refused, unless what
/// reads as its scheme is a host, with a port or nothing behind the colon. With
/// `://` it is refused in any case.
pub proof fn an_unsupported_scheme_is_refused(input: Seq<char>)
    requires
        weburl::parsed_url(text::trimmed(input)) matches Some(u) && !is_allowed_scheme(u.scheme),
        text::contains_text(text::trimmed(input), "://"@) || !names_port(text::trimmed(input)),
    ensures
        normalized(input) is None,
{
}

/// An input that is attempted as a URL and refused is never turned into a
/// search.
pub proof fn a_refused_url_is_no_search(input: Seq<char>)
    requires
        is_url_attempt(text::trimmed(input)),
        normalized(input) is None,
    ensures
        classified(input) is None,
{
    surrounding_white_space_is_ignored(input);
}

/// A leading `?` forces a search, whatever follows it.
pub proof fn a_question_mark_forces_a_search(input: Seq<char>)
    requires
        text::trimmed(input).len() > 0,
        text::trimmed(input).first() == '?',
    ensures
        classified(input) matches Some(intent) ==> intent is Search,
        classified(input) is None <==> text::trimmed(text::trimmed(input).drop_first()).len() == 0,
{
}

/// Input that is a URL according to its classification is one that
/// normalization accepts, and the same one.
pub proof fn a_classified_url_is_the_normalized_one(input: Seq<char>, url: Seq<char>)
    requires
        classified(input) == Some(IntentModel::Url(url)),
    ensures
        normalized(input) == Some(url),
{
    surrounding_white_space_is_ignored(input);
}

/// An encoded query holds only characters that mean nothing in a URL: it can
/// start no parameter, no fragment and no path segment of its own.
pub proof fn an_encoded_query_holds_no_delimiter(query: Seq<char>, i: int)
    requires
        0 <= i < weburl::form_encoded(query).len(),
    ensures
        is_form_char(weburl::form_encoded(query)[i]),
{
    lemma_form_chars(vstd::utf8::encode_utf8(query));
}

/// The characters that an encoded query is made of.
pub open spec fn is_form_char(c: char) -> bool {
    ||| '0' <= c <= '9'
    ||| 'A' <= c <= 'Z'
    ||| 'a' <= c <= 'z'
    ||| c == '*'
    ||| c == '-'
    ||| c == '.'
    ||| c == '_'
    ||| c == '+'
    ||| c == '%'
}

proof fn lemma_form_chars(bytes: Seq<u8>)
    ensures
        forall|i: int|
            0 <= i < weburl::form_encoded_bytes(bytes).len() ==> is_form_char(
                #[trigger] weburl::form_encoded_bytes(bytes)[i],
            ),
    decreases bytes.len(),
{
    let f = weburl::form_byte_writer();
    if bytes.len() == 0 {
        assert(bytes.flat_map(f) =~= Seq::<char>::empty());
    } else {
        lemma_form_chars(bytes.drop_last());
        bytes.drop_last().lemma_flat_map_push(f, bytes.last());
        assert(bytes.drop_last().push(bytes.last()) =~= bytes);
        let before = weburl::form_encoded_bytes(bytes.drop_last());
        let added = weburl::form_byte(bytes.last());
        assert(weburl::form_encoded_bytes(bytes) == before + added);
        assert forall|k: int| 0 <= k < added.len() implies is_form_char(#[trigger] added[k]) by {
            let b = bytes.last() as int;
            assert(0 <= b / 16 < 16 && 0 <= b % 16 < 16);
        }
        assert forall|i: int| 0 <= i < weburl::form_encoded_bytes(bytes).len() implies is_form_char(
            #[trigger] weburl::form_encoded_bytes(bytes)[i],
        ) by {
            if i < before.len() {
                assert(is_form_char(before[i]));
            } else {
                assert(is_form_char(added[i - before.len()]));
            }
        }
    }
}

/// Input of more than one word is searched for as it was typed, whatever dots and
/// colons it holds.
pub proof fn several_words_are_searched(input: Seq<char>, i: int, j: int, k: int)
    requires
        0 <= i < j < k < text::trimmed(input).len(),
        !text::is_white_space(text::trimmed(input)[i]),
        text::is_white_space(text::trimmed(input)[j]),
        !text::is_white_space(text::trimmed(input)[k]),
        text::trimmed(input)[0] != '?',
    ensures
        classified(input) == Some(IntentModel::Search(text::trimmed(input))),
{
    let typed = text::trimmed(input);
    lemma_a_word_counts(typed, i);
    lemma_word_count_grows(typed.take(j + 1), i + 1);
    assert(typed.take(j + 1).take(i + 1) =~= typed.take(i + 1));
    lemma_a_later_word_counts(typed, j, k);
    lemma_word_count_grows(typed, k + 1);
}

proof fn lemma_a_word_counts(s: Seq<char>, i: int)
    requires
        0 <= i < s.len(),
        !text::is_white_space(s[i]),
    ensures
        word_count(s.take(i + 1)) >= 1,
    decreases i,
{
    let prefix = s.take(i + 1);
    assert(prefix.drop_last() =~= s.take(i));
    if i > 0 && !text::is_white_space(s[i - 1]) {
        lemma_a_word_counts(s, i - 1);
    }
}

proof fn lemma_a_later_word_counts(s: Seq<char>, j: int, k: int)
    requires
        0 <= j < k < s.len(),
        text::is_white_space(s[j]),
        !text::is_white_space(s[k]),
    ensures
        word_count(s.take(k + 1)) >= word_count(s.take(j + 1)) + 1,
    decreases k - j,
{
    let prefix = s.take(k + 1);
    assert(prefix.drop_last() =~= s.take(k));
    if text::is_white_space(s[k - 1]) {
        lemma_word_count_grows(s.take(k), j + 1);
        assert(s.take(k).take(j + 1) =~= s.take(j + 1));
    } else {
        lemma_a_later_word_counts(s, j, k - 1);
    }
}

proof fn lemma_one_word(s: Seq<char>)
    requires
        forall|i: int| 0 <= i < s.len() ==> !text::is_white_space(#[trigger] s[i]),
    ensures
        word_count(s) <= 1,
    decreases s.len(),
{
    if s.len() > 0 {
        let shorter = s.drop_last();
        assert forall|i: int| 0 <= i < shorter.len() implies !text::is_white_space(
            #[trigger] shorter[i],
        ) by {
            assert(shorter[i] == s[i]);
        }
        lemma_one_word(shorter);
        if s.len() > 1 {
            assert(!text::is_white_space(s[s.len() - 2]));
        }
    }
}

/// A single word with a dot or a colon is loaded as what it normalizes to, and is
/// refused where it does not; any other single word is searched for.
pub proof fn a_word_with_a_dot_or_a_colon_is_a_url(word: Seq<char>)
    requires
        word.len() > 0,
        word[0] != '?',
        forall|i: int| 0 <= i < word.len() ==> !text::is_white_space(#[trigger] word[i]),
    ensures
        (exists|i: int| 0 <= i < word.len() && (#[trigger] word[i] == '.' || word[i] == ':'))
            ==> classified(word) == match normalized(word) {
            Some(url) => Some(IntentModel::Url(url)),
            None => None,
        },
        (forall|i: int| 0 <= i < word.len() ==> #[trigger] word[i] != '.' && word[i] != ':')
            ==> classified(word) == Some(IntentModel::Search(word)),
{
    text::trimming_finds_what_is_inside(Seq::empty(), word, Seq::empty());
    assert(Seq::<char>::empty() + word + Seq::<char>::empty() =~= word);
    lemma_one_word(word);
    if exists|i: int| 0 <= i < word.len() && (#[trigger] word[i] == '.' || word[i] == ':') {
        let i = choose|i: int|
            0 <= i < word.len() && (#[trigger] word[i] == '.' || word[i] == ':');
        assert(word.contains(word[i]));
    }
}

/// What follows a leading `?` is searched for as it stands, without the white space
/// around it; nothing is searched for where nothing follows.
pub proof fn a_forced_search_is_for_what_follows(query: Seq<char>, space: Seq<char>)
    requires
        query.len() > 0,
        !text::is_white_space(query.first()),
        !text::is_white_space(query.last()),
        text::is_blank(space),
    ensures
        classified(seq!['?'] + space + query) == Some(IntentModel::Search(query)),
        classified(seq!['?'] + space) is None,
        classified(space) is None,
{
    let input = seq!['?'] + space + query;
    let none = Seq::<char>::empty();
    text::trimming_finds_what_is_inside(none, input, none);
    assert(none + input + none =~= input);
    assert(input.drop_first() =~= space + query + none);
    text::trimming_finds_what_is_inside(space, query, none);
    text::trimming_finds_what_is_inside(none, seq!['?'], space);
    assert(none + seq!['?'] + space =~= seq!['?'] + space);
    assert(seq!['?'].drop_first() =~= none);
    assert(text::trimmed(none) =~= none);
    lemma_blank_is_nothing(space);
}

proof fn lemma_blank_is_nothing(space: Seq<char>)
    requires
        text::is_blank(space),
    ensures
        text::trimmed(space).len() == 0,
{
    let (i, j) = text::lemma_trimmed_is_part(space);
    text::lemma_trimmed_ends(space);
    let t = text::trimmed(space);
    if t.len() > 0 {
        assert(t.first() == space[i]);
    }
}

/// Input that names one of the schemes that may be loaded is loaded as it parses;
/// input that names another one with `://` is refused.
pub proof fn only_listed_schemes_are_loaded(input: Seq<char>, url: UrlModel)
    requires
        text::trimmed(input).len() > 0,
        weburl::parsed_url(text::trimmed(input)) == Some(url),
    ensures
        url.scheme == "http"@ || url.scheme == "https"@ || url.scheme == "file"@ || url.scheme
            == "about"@ || url.scheme == "data"@ ==> normalized(input) == Some(url.text),
        url.scheme != "http"@ && url.scheme != "https"@ && url.scheme != "file"@ && url.scheme
            != "about"@ && url.scheme != "data"@ && text::contains_text(
            text::trimmed(input),
            "://"@,
        ) ==> normalized(input) is None,
{
}

/// Input that is no URL of its own is loaded with `https://` before it, or with the
/// scheme `http` where its host is on this machine: `localhost`, a name under it, an
/// address that starts with 127, or `::1`.
pub proof fn input_without_a_scheme_gets_one(input: Seq<char>, https: UrlModel, name: Seq<char>)
    requires
        text::trimmed(input).len() > 0,
        weburl::parsed_url(text::trimmed(input)) is None,
        weburl::parsed_url("https://"@ + text::trimmed(input)) == Some(https),
        weburl::text_with_scheme("https://"@ + text::trimmed(input), "http"@) is Some,
    ensures
        ({
            let http = weburl::text_with_scheme("https://"@ + text::trimmed(input), "http"@);
            let local = match https.host {
                Some(HostModel::Domain(d)) => d == "localhost"@ || exists|front: Seq<char>|
                    d == #[trigger] (front + ".localhost"@),
                Some(HostModel::Ipv4(a)) => 127 * 256 * 256 * 256 <= a < 128 * 256 * 256 * 256,
                Some(HostModel::Ipv6(a)) => a == 1,
                None => false,
            };
            normalized(input) == if local {
                http
            } else {
                Some(https.text)
            }
        }),
{
    if let Some(HostModel::Domain(d)) = https.host {
        lemma_ends_with(d, ".localhost"@);
    }
}

proof fn lemma_ends_with(s: Seq<char>, end: Seq<char>)
    ensures
        end.is_suffix_of(s) <==> exists|front: Seq<char>| s == #[trigger] (front + end),
{
    if end.is_suffix_of(s) {
        assert(s =~= s.take(s.len() - end.len()) + end);
    }
    if exists|front: Seq<char>| s == #[trigger] (front + end) {
        let front = choose|front: Seq<char>| s == #[trigger] (front + end);
        assert(s.subrange(s.len() - end.len(), s.len() as int) =~= end);
    }
}

/// The value takes the place of the first `{}` of a template, and nothing else of
/// the template changes; a template without one cannot be filled.
pub proof fn a_template_is_filled_at_its_hole(
    front: Seq<char>,
    back: Seq<char>,
    value: Seq<char>,
    template: Seq<char>,
)
    requires
        !text::contains_text(front + "{"@, "{}"@),
        !text::contains_text(template, "{}"@),
    ensures
        filled_template(front + "{}"@ + back, value) == Some(front + value + back),
        filled_template(template, value) is None,
{
    reveal_strlit("{}");
    reveal_strlit("{");
    let whole = front + "{}"@ + back;
    text::lemma_first_occurrence(whole, "{}"@, 0);
    text::lemma_first_occurrence(template, "{}"@, 0);
    let n = front.len() as int;
    assert(whole.subrange(n, n + 2) =~= "{}"@);
    assert(text::occurs_at(whole, "{}"@, n));
    let i = text::first_occurrence(whole, "{}"@, 0)->0;
    if i < n {
        assert(text::occurs_at(front + "{"@, "{}"@, i)) by {
            assert((front + "{"@).subrange(i, i + 2) =~= whole.subrange(i, i + 2));
        }
    }
    assert(whole.take(n) =~= front);
    assert(whole.skip(n + 2) =~= back);
}

/// Digits behind the first colon are a port, and so is nothing at all, where the input
/// ends there or goes on with a path, a query or a fragment; with any other character
/// there, they are none.
pub proof fn a_port_is_made_of_digits(front: Seq<char>, port: Seq<char>, c: char, rest: Seq<char>)
    requires
        !front.contains(':'),
        forall|i: int| 0 <= i < port.len() ==> '0' <= #[trigger] port[i] <= '9',
        !('0' <= c <= '9'),
        c != '\t' && c != '\n' && c != '\r',
    ensures
        names_port(front + seq![':'] + port),
        names_port(front + seq![':'] + port + (seq![c] + rest)) <==> c == '/' || c == '\\' || c
            == '?' || c == '#',
        !names_port(front),
{
    let short = front + seq![':'] + port;
    let long = short + (seq![c] + rest);
    let n = front.len() as int;
    let end = n + 1 + port.len();
    text::lemma_position_of(short, ':', 0);
    text::lemma_position_of(long, ':', 0);
    text::lemma_position_of(front, ':', 0);
    assert(short[n] == ':' && long[n] == ':');
    let a = text::position_of(short, ':', 0);
    let b = text::position_of(long, ':', 0);
    if a < n {
        assert(front[a] == ':');
    }
    if b < n {
        assert(front[b] == ':');
    }
    if text::position_of(front, ':', 0) < n {
        assert(front[text::position_of(front, ':', 0)] == ':');
    }
    assert forall|i: int| n + 1 <= i < end implies is_in_port(#[trigger] short[i]) by {
        assert(short[i] == port[i - n - 1]);
    }
    assert forall|i: int| n + 1 <= i < end implies is_in_port(#[trigger] long[i]) by {
        assert(long[i] == port[i - n - 1]);
    }
    assert(long[end] == c);
    lemma_port_end(short, n + 1, end);
    lemma_port_end(long, n + 1, end);
}

proof fn lemma_port_end(s: Seq<char>, from: int, end: int)
    requires
        0 <= from <= end <= s.len(),
        forall|i: int| from <= i < end ==> is_in_port(#[trigger] s[i]),
        end < s.len() ==> !is_in_port(s[end]),
    ensures
        port_end(s, from) == end,
    decreases end - from,
{
    if from < end {
        assert(is_in_port(s[from]));
        lemma_port_end(s, from + 1, end);
    }
}

} // verus!
