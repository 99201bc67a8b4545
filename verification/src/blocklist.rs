//! Filter lists in the style of EasyList and EasyPrivacy: parsing and matching.
//!
//! Only the part of the Adblock Plus syntax that decides about network requests
//! is understood.
//!
//! - `||domain^` blocks `domain` and its subdomains, whatever the path.
//! - Any other pattern is literal text with `*` (any run of characters) and `^`
//!   (one character that is not a letter, digit, `.`, `-`, `_` or `%`, or the
//!   end of the URL), anchored with a leading `|` at the start and a trailing
//!   `|` at the end of the URL. It is matched against the whole URL, without
//!   regard to ASCII case.
//! - `@@` before a rule makes it an exception: what it matches is not blocked.
//! - `$` introduces options: resource types, and `domain=a.com|~b.com` for the
//!   pages that a rule is limited to. Some options are accepted without effect
//!   (`third-party`, `important`, ...); a rule with any other option is dropped
//!   as a whole.
//! - Comments (`!`), headers (`[...]`), element hiding rules (`##` and the
//!   like), regular expressions (`/.../`), blank lines, lines over
//!   [`MAX_RULE_LINE_LEN`] bytes and malformed rules are ignored.

use vstd::prelude::*;
use vstd::slice::slice_to_vec;

use crate::text::{
    self, ascii_letter, ascii_word, chars_eq, chars_of, find_from, is_text, matches_at, skip_chars,
    take_chars, to_ascii_lower, trim_chars,
};
use crate::weburl::{self, parse_url};

verus! {

/// A line of more bytes than this is skipped without being parsed.
pub const MAX_RULE_LINE_LEN: usize = 8192;

/// The number of rules that a list holds at most.
pub const MAX_RULES: usize = 300_000;

/// The built-in list: well-known ad networks and trackers.
pub const DEFAULT_LIST: &'static str = "\
! Ad networks and trackers, one domain each.\n\
||doubleclick.net^\n\
||googlesyndication.com^\n\
||googleadservices.com^\n\
||google-analytics.com^\n\
||googletagmanager.com^\n\
||googletagservices.com^\n\
||adservice.google.com^\n\
||2mdn.net^\n\
||adnxs.com^\n\
||adsrvr.org^\n\
||advertising.com^\n\
||adform.net^\n\
||adcolony.com^\n\
||admob.com^\n\
||amazon-adsystem.com^\n\
||appnexus.com^\n\
||bidswitch.net^\n\
||bluekai.com^\n\
||casalemedia.com^\n\
||chartbeat.com^\n\
||chartbeat.net^\n\
||criteo.com^\n\
||criteo.net^\n\
||crwdcntrl.net^\n\
||demdex.net^\n\
||exelator.com^\n\
||everesttech.net^\n\
||hotjar.com^\n\
||indexww.com^\n\
||krxd.net^\n\
||lijit.com^\n\
||mathtag.com^\n\
||media.net^\n\
||mixpanel.com^\n\
||moatads.com^\n\
||mookie1.com^\n\
||newrelic.com^\n\
||nr-data.net^\n\
||omtrdc.net^\n\
||openx.net^\n\
||outbrain.com^\n\
||pubmatic.com^\n\
||quantserve.com^\n\
||quantcount.com^\n\
||rubiconproject.com^\n\
||scorecardresearch.com^\n\
||serving-sys.com^\n\
||sharethrough.com^\n\
||smartadserver.com^\n\
||taboola.com^\n\
||tapad.com^\n\
||teads.tv^\n\
||tribalfusion.com^\n\
||turn.com^\n\
||yieldmo.com^\n\
||zedo.com^\n\
";

/// A resource type that a rule's options can name.
#[derive(Debug, Clone, Copy, PartialEq, Eq, Structural, Hash)]
pub enum RuleResourceType {
    Script,
    Image,
    Stylesheet,
    Object,
    XmlHttpRequest,
    SubDocument,
    Font,
    Media,
    WebSocket,
    Ping,
    Popup,
    Document,
    Other,
}

/// What is known of a request beyond its URL. Nothing that is unknown keeps a
/// rule from applying.
#[derive(Debug, Clone, Copy)]
pub struct MatchContext<'a> {
    pub resource_type: Option<RuleResourceType>,
    pub page_host: Option<&'a str>,
}

impl<'a> Default for MatchContext<'a> {
    fn default() -> (r: Self)
        ensures
            r.resource_type is None,
            r.page_host is None,
    {
        MatchContext { resource_type: None, page_host: None }
    }
}

// ---------------------------------------------------------------------------
// Rules and what they stand for

/// The pages that a rule is limited to, or kept away from.
#[derive(Debug, Clone)]
struct DomainScope {
    included: Vec<Vec<char>>,
    excluded: Vec<Vec<char>>,
}

/// The options of a rule that change what it matches.
#[derive(Debug, Clone)]
struct RuleOptions {
    resource_types: Option<Vec<RuleResourceType>>,
    domain_scope: Option<DomainScope>,
}

/// A rule for a domain and its subdomains.
#[derive(Debug, Clone)]
struct DomainRule {
    domain: Vec<char>,
    options: RuleOptions,
}

/// A part of a pattern.
#[derive(Debug, Clone)]
enum Token {
    Literal(Vec<char>),
    Wildcard,
    Separator,
}

/// A rule for a pattern in the URL.
#[derive(Debug, Clone)]
struct PatternRule {
    tokens: Vec<Token>,
    anchor_start: bool,
    anchor_end: bool,
    options: RuleOptions,
}

/// A parsed filter list.
#[derive(Debug, Clone)]
pub struct FilterList {
    domain_blocks: Vec<DomainRule>,
    domain_exceptions: Vec<DomainRule>,
    pattern_blocks: Vec<PatternRule>,
    pattern_exceptions: Vec<PatternRule>,
}

/// The pages that a rule is limited to, or kept away from.
pub struct ScopeModel {
    pub included: Seq<Seq<char>>,
    pub excluded: Seq<Seq<char>>,
}

/// The options of a rule.
pub struct OptionsModel {
    pub resource_types: Option<Seq<RuleResourceType>>,
    pub domain_scope: Option<ScopeModel>,
}

/// A rule for a domain.
pub struct DomainRuleModel {
    pub domain: Seq<char>,
    pub options: OptionsModel,
}

/// A part of a pattern.
pub enum TokenModel {
    Literal(Seq<char>),
    Wildcard,
    Separator,
}

/// A rule for a pattern.
pub struct PatternRuleModel {
    pub tokens: Seq<TokenModel>,
    pub anchor_start: bool,
    pub anchor_end: bool,
    pub options: OptionsModel,
}

/// A filter list.
pub struct FilterModel {
    pub domain_blocks: Seq<DomainRuleModel>,
    pub domain_exceptions: Seq<DomainRuleModel>,
    pub pattern_blocks: Seq<PatternRuleModel>,
    pub pattern_exceptions: Seq<PatternRuleModel>,
}

impl View for DomainScope {
    type V = ScopeModel;

    closed spec fn view(&self) -> ScopeModel {
        ScopeModel {
            included: text::texts(self.included@),
            excluded: text::texts(self.excluded@),
        }
    }
}

impl View for RuleOptions {
    type V = OptionsModel;

    closed spec fn view(&self) -> OptionsModel {
        OptionsModel {
            resource_types: match self.resource_types {
                Some(t) => Some(t@),
                None => None,
            },
            domain_scope: match self.domain_scope {
                Some(s) => Some(s@),
                None => None,
            },
        }
    }
}

impl View for DomainRule {
    type V = DomainRuleModel;

    closed spec fn view(&self) -> DomainRuleModel {
        DomainRuleModel { domain: self.domain@, options: self.options@ }
    }
}

impl View for Token {
    type V = TokenModel;

    closed spec fn view(&self) -> TokenModel {
        match self {
            Token::Literal(l) => TokenModel::Literal(l@),
            Token::Wildcard => TokenModel::Wildcard,
            Token::Separator => TokenModel::Separator,
        }
    }
}

spec fn token_models(v: Seq<Token>) -> Seq<TokenModel> {
    v.map_values(|t: Token| t@)
}

impl View for PatternRule {
    type V = PatternRuleModel;

    closed spec fn view(&self) -> PatternRuleModel {
        PatternRuleModel {
            tokens: token_models(self.tokens@),
            anchor_start: self.anchor_start,
            anchor_end: self.anchor_end,
            options: self.options@,
        }
    }
}

impl View for FilterList {
    type V = FilterModel;

    closed spec fn view(&self) -> FilterModel {
        FilterModel {
            domain_blocks: self.domain_blocks@.map_values(|r: DomainRule| r@),
            domain_exceptions: self.domain_exceptions@.map_values(|r: DomainRule| r@),
            pattern_blocks: self.pattern_blocks@.map_values(|r: PatternRule| r@),
            pattern_exceptions: self.pattern_exceptions@.map_values(|r: PatternRule| r@),
        }
    }
}

// ---------------------------------------------------------------------------
// Domains

/// Whether `host` is `domain` or a subdomain of it.
pub open spec fn is_in_domain(domain: Seq<char>, host: Seq<char>) -> bool {
    host == domain || ("."@ + domain).is_suffix_of(host)
}

fn domain_suffix_match(domain: &[char], host: &[char]) -> (r: bool)
    ensures
        r == is_in_domain(domain@, host@),
{
    proof {
        reveal_strlit(".");
    }
    if chars_eq(host, domain) {
        return true;
    }
    if host.len() <= domain.len() {
        return false;
    }
    let dot: usize = host.len() - domain.len() - 1;
    let r = host[dot] == '.' && matches_at(host, domain, dot + 1);
    proof {
        let tail = host@.subrange(dot as int, host@.len() as int);
        assert(host@.subrange(dot + 1, host@.len() as int) =~= tail.drop_first());
        assert(("."@ + domain@).is_suffix_of(host@) == (tail =~= "."@ + domain@));
        if r {
            assert(tail =~= "."@ + domain@);
        } else if tail == "."@ + domain@ {
            assert(tail[0] == '.');
            assert(tail.drop_first() =~= domain@);
        }
    }
    r
}

/// Whether `c` may stand in a domain name.
pub open spec fn is_domain_char(c: char) -> bool {
    text::is_ascii_word(c) || c == '.' || c == '-' || c == '_'
}

/// Whether `s` reads as a domain name: ASCII letters, digits, `.`, `-` and `_`,
/// and at least one of them.
pub open spec fn is_domain_text(s: Seq<char>) -> bool {
    s.len() > 0 && forall|i: int| 0 <= i < s.len() ==> is_domain_char(#[trigger] s[i])
}

fn is_valid_domain_str(s: &[char]) -> (r: bool)
    ensures
        r == is_domain_text(s@),
{
    for i in 0..s.len()
        invariant
            forall|j: int| 0 <= j < i ==> is_domain_char(#[trigger] s@[j]),
    {
        let c = s[i];
        if !(ascii_word(c) || c == '.' || c == '-' || c == '_') {
            assert(!is_domain_char(s@[i as int]));
            return false;
        }
    }
    s.len() > 0
}

// ---------------------------------------------------------------------------
// Options

/// The resource type that a keyword names.
pub open spec fn keyword_type(k: Seq<char>) -> Option<RuleResourceType> {
    if k == "script"@ {
        Some(RuleResourceType::Script)
    } else if k == "image"@ {
        Some(RuleResourceType::Image)
    } else if k == "stylesheet"@ || k == "css"@ {
        Some(RuleResourceType::Stylesheet)
    } else if k == "object"@ || k == "object-subrequest"@ {
        Some(RuleResourceType::Object)
    } else if k == "xmlhttprequest"@ || k == "xhr"@ {
        Some(RuleResourceType::XmlHttpRequest)
    } else if k == "subdocument"@ || k == "frame"@ {
        Some(RuleResourceType::SubDocument)
    } else if k == "font"@ {
        Some(RuleResourceType::Font)
    } else if k == "media"@ {
        Some(RuleResourceType::Media)
    } else if k == "websocket"@ {
        Some(RuleResourceType::WebSocket)
    } else if k == "ping"@ || k == "beacon"@ {
        Some(RuleResourceType::Ping)
    } else if k == "popup"@ {
        Some(RuleResourceType::Popup)
    } else if k == "document"@ || k == "doc"@ {
        Some(RuleResourceType::Document)
    } else if k == "other"@ {
        Some(RuleResourceType::Other)
    } else {
        None
    }
}

impl RuleResourceType {
    /// The resource type that a keyword names.
    fn from_keyword(k: &[char]) -> (r: Option<Self>)
        ensures
            r == keyword_type(k@),
    {
        if is_text(k, "script") {
            Some(RuleResourceType::Script)
        } else if is_text(k, "image") {
            Some(RuleResourceType::Image)
        } else if is_text(k, "stylesheet") || is_text(k, "css") {
            Some(RuleResourceType::Stylesheet)
        } else if is_text(k, "object") || is_text(k, "object-subrequest") {
            Some(RuleResourceType::Object)
        } else if is_text(k, "xmlhttprequest") || is_text(k, "xhr") {
            Some(RuleResourceType::XmlHttpRequest)
        } else if is_text(k, "subdocument") || is_text(k, "frame") {
            Some(RuleResourceType::SubDocument)
        } else if is_text(k, "font") {
            Some(RuleResourceType::Font)
        } else if is_text(k, "media") {
            Some(RuleResourceType::Media)
        } else if is_text(k, "websocket") {
            Some(RuleResourceType::WebSocket)
        } else if is_text(k, "ping") || is_text(k, "beacon") {
            Some(RuleResourceType::Ping)
        } else if is_text(k, "popup") {
            Some(RuleResourceType::Popup)
        } else if is_text(k, "document") || is_text(k, "doc") {
            Some(RuleResourceType::Document)
        } else if is_text(k, "other") {
            Some(RuleResourceType::Other)
        } else {
            None
        }
    }
}

/// The keywords that are accepted without effect on matching.
pub open spec fn is_neutral_keyword(k: Seq<char>) -> bool {
    ||| k == "third-party"@
    ||| k == "3p"@
    ||| k == "first-party"@
    ||| k == "1p"@
    ||| k == "important"@
    ||| k == "match-case"@
    ||| k == "all"@
    ||| k == "empty"@
    ||| k == "mp4"@
}

fn neutral_keyword(k: &[char]) -> (r: bool)
    ensures
        r == is_neutral_keyword(k@),
{
    is_text(k, "third-party") || is_text(k, "3p") || is_text(k, "first-party") || is_text(k, "1p")
        || is_text(k, "important") || is_text(k, "match-case") || is_text(k, "all") || is_text(
        k,
        "empty",
    ) || is_text(k, "mp4")
}

/// `s` without the `~` that it may start with, and whether it did.
pub open spec fn without_tilde(s: Seq<char>) -> (bool, Seq<char>) {
    if s.len() > 0 && s.first() == '~' {
        (true, s.drop_first())
    } else {
        (false, s)
    }
}

fn strip_tilde(s: &[char]) -> (r: (bool, &[char]))
    ensures
        (r.0, r.1@) == without_tilde(s@),
{
    if s.len() > 0 && s[0] == '~' {
        assert(s@.skip(1) =~= s@.drop_first());
        (true, skip_chars(s, 1))
    } else {
        (false, s)
    }
}

/// One entry of a `domain=` option.
pub enum ScopePart {
    Nothing,
    Included(Seq<char>),
    Excluded(Seq<char>),
    Invalid,
}

/// How an entry of a `domain=` option reads.
pub open spec fn scope_part(part: Seq<char>) -> ScopePart {
    let entry = text::trimmed(part);
    let (excluded, domain) = without_tilde(entry);
    if entry.len() == 0 {
        ScopePart::Nothing
    } else if !is_domain_text(domain) {
        ScopePart::Invalid
    } else if excluded {
        ScopePart::Excluded(text::ascii_lower(domain))
    } else {
        ScopePart::Included(text::ascii_lower(domain))
    }
}

/// The entries of a `domain=` option.
pub open spec fn scope_parts(raw: Seq<char>) -> Seq<ScopePart> {
    text::split_parts(raw, '|').map_values(|p: Seq<char>| scope_part(p))
}

/// The domains that the entries include, in order.
pub open spec fn included_in(parts: Seq<ScopePart>) -> Seq<Seq<char>>
    decreases parts.len(),
{
    if parts.len() == 0 {
        Seq::empty()
    } else {
        let before = included_in(parts.drop_last());
        match parts.last() {
            ScopePart::Included(d) => before.push(d),
            _ => before,
        }
    }
}

/// The domains that the entries exclude, in order.
pub open spec fn excluded_in(parts: Seq<ScopePart>) -> Seq<Seq<char>>
    decreases parts.len(),
{
    if parts.len() == 0 {
        Seq::empty()
    } else {
        let before = excluded_in(parts.drop_last());
        match parts.last() {
            ScopePart::Excluded(d) => before.push(d),
            _ => before,
        }
    }
}

/// What a `domain=` option says; `None` where an entry is no domain name or
/// there is none.
pub open spec fn scope_of(raw: Seq<char>) -> Option<ScopeModel> {
    let parts = scope_parts(raw);
    let scope = ScopeModel { included: included_in(parts), excluded: excluded_in(parts) };
    if exists|i: int| 0 <= i < parts.len() && #[trigger] parts[i] is Invalid {
        None
    } else if scope.included.len() == 0 && scope.excluded.len() == 0 {
        None
    } else {
        Some(scope)
    }
}

fn parse_domain_scope(raw: &[char]) -> (r: Option<DomainScope>)
    ensures
        match r {
            Some(s) => scope_of(raw@) == Some(s@),
            None => scope_of(raw@) is None,
        },
{
    let mut included: Vec<Vec<char>> = Vec::new();
    let mut excluded: Vec<Vec<char>> = Vec::new();
    let entries = text::split_chars(raw, '|');
    let ghost parts = scope_parts(raw@);
    for i in 0..entries.len()
        invariant
            text::texts(entries@) == text::split_parts(raw@, '|'),
            parts == scope_parts(raw@),
            parts.len() == entries@.len(),
            text::texts(included@) == included_in(parts.take(i as int)),
            text::texts(excluded@) == excluded_in(parts.take(i as int)),
            forall|j: int| 0 <= j < i ==> !(#[trigger] parts[j] is Invalid),
    {
        proof {
            assert(text::texts(entries@)[i as int] == entries@[i as int]@);
            assert(parts[i as int] == scope_part(entries@[i as int]@));
            assert(parts.take(i + 1).drop_last() =~= parts.take(i as int));
            assert(parts.take(i + 1).last() == parts[i as int]);
        }
        let entry = trim_chars(&entries[i]);
        if entry.len() > 0 {
            let (is_excluded, domain) = strip_tilde(entry);
            if !is_valid_domain_str(domain) {
                assert(parts[i as int] is Invalid);
                return None;
            }
            let lower = to_ascii_lower(domain);
            let ghost was_included = text::texts(included@);
            let ghost was_excluded = text::texts(excluded@);
            if is_excluded {
                excluded.push(lower);
                assert(text::texts(excluded@) =~= was_excluded.push(lower@));
            } else {
                included.push(lower);
                assert(text::texts(included@) =~= was_included.push(lower@));
            }
        }
    }
    assert(parts.take(parts.len() as int) =~= parts);
    assert(text::texts(included@).len() == included@.len());
    assert(text::texts(excluded@).len() == excluded@.len());
    if included.len() == 0 && excluded.len() == 0 {
        None
    } else {
        Some(DomainScope { included, excluded })
    }
}

/// One entry of an option list.
pub enum OptionToken {
    Nothing,
    Domains(Seq<char>),
    Type(RuleResourceType),
    Unsupported,
}

/// How an entry of an option list reads. A negated resource type is not
/// supported.
pub open spec fn option_token(part: Seq<char>) -> OptionToken {
    let token = text::trimmed(part);
    let (negated, keyword) = without_tilde(token);
    if token.len() == 0 {
        OptionToken::Nothing
    } else if "domain="@.is_prefix_of(token) {
        OptionToken::Domains(token.skip("domain="@.len() as int))
    } else if is_neutral_keyword(keyword) {
        OptionToken::Nothing
    } else if !negated && keyword_type(keyword) is Some {
        OptionToken::Type(keyword_type(keyword)->0)
    } else {
        OptionToken::Unsupported
    }
}

/// An [`OptionToken`] as read.
enum ReadOption {
    Nothing,
    Domains(Vec<char>),
    Type(RuleResourceType),
    Unsupported,
}

impl View for ReadOption {
    type V = OptionToken;

    closed spec fn view(&self) -> OptionToken {
        match self {
            ReadOption::Nothing => OptionToken::Nothing,
            ReadOption::Domains(d) => OptionToken::Domains(d@),
            ReadOption::Type(t) => OptionToken::Type(*t),
            ReadOption::Unsupported => OptionToken::Unsupported,
        }
    }
}

fn read_option(part: &[char]) -> (r: ReadOption)
    ensures
        r@ == option_token(part@),
{
    let token = trim_chars(part);
    if token.len() == 0 {
        return ReadOption::Nothing;
    }
    if text::has_prefix(token, "domain=") {
        let value = skip_chars(token, chars_of("domain=").len());
        return ReadOption::Domains(slice_to_vec(value));
    }
    let (negated, keyword) = strip_tilde(token);
    if neutral_keyword(keyword) {
        return ReadOption::Nothing;
    }
    match RuleResourceType::from_keyword(keyword) {
        Some(t) => if negated {
            ReadOption::Unsupported
        } else {
            ReadOption::Type(t)
        },
        None => ReadOption::Unsupported,
    }
}

/// The entries of an option list.
pub open spec fn option_tokens(raw: Seq<char>) -> Seq<OptionToken> {
    text::split_parts(raw, ',').map_values(|p: Seq<char>| option_token(p))
}

/// The resource types that the entries name, in order.
pub open spec fn types_in(tokens: Seq<OptionToken>) -> Seq<RuleResourceType>
    decreases tokens.len(),
{
    if tokens.len() == 0 {
        Seq::empty()
    } else {
        let before = types_in(tokens.drop_last());
        match tokens.last() {
            OptionToken::Type(t) => before.push(t),
            _ => before,
        }
    }
}

/// The value of the first `domain=` entry.
pub open spec fn first_domains(tokens: Seq<OptionToken>) -> Option<Seq<char>>
    decreases tokens.len(),
{
    if tokens.len() == 0 {
        None
    } else {
        match first_domains(tokens.drop_last()) {
            Some(d) => Some(d),
            None => match tokens.last() {
                OptionToken::Domains(d) => Some(d),
                _ => None,
            },
        }
    }
}

proof fn lemma_first_domains_stays(tokens: Seq<OptionToken>, k: int)
    requires
        0 <= k <= tokens.len(),
        first_domains(tokens.take(k)) is Some,
    ensures
        first_domains(tokens) == first_domains(tokens.take(k)),
    decreases tokens.len() - k,
{
    if k == tokens.len() {
        assert(tokens.take(k) =~= tokens);
    } else {
        assert(tokens.take(k + 1).drop_last() =~= tokens.take(k));
        lemma_first_domains_stays(tokens, k + 1);
    }
}

/// What an option list says; `None` where an entry is not supported or the first
/// `domain=` entry is malformed. Later `domain=` entries are ignored.
pub open spec fn options_of(raw: Seq<char>) -> Option<OptionsModel> {
    let tokens = option_tokens(raw);
    let types = types_in(tokens);
    let resource_types = if types.len() == 0 {
        None
    } else {
        Some(types)
    };
    if exists|i: int| 0 <= i < tokens.len() && #[trigger] tokens[i] is Unsupported {
        None
    } else {
        match first_domains(tokens) {
            None => Some(OptionsModel { resource_types, domain_scope: None }),
            Some(d) => match scope_of(d) {
                None => None,
                Some(scope) => Some(OptionsModel { resource_types, domain_scope: Some(scope) }),
            },
        }
    }
}

/// The options of a rule that names none.
pub open spec fn no_options() -> OptionsModel {
    OptionsModel { resource_types: None, domain_scope: None }
}

fn parse_options(raw: &[char]) -> (r: Option<RuleOptions>)
    ensures
        match r {
            Some(o) => options_of(raw@) == Some(o@),
            None => options_of(raw@) is None,
        },
{
    let mut domain_scope: Option<DomainScope> = None;
    let mut types: Vec<RuleResourceType> = Vec::new();
    let entries = text::split_chars(raw, ',');
    let ghost tokens = option_tokens(raw@);
    for i in 0..entries.len()
        invariant
            text::texts(entries@) == text::split_parts(raw@, ','),
            tokens == option_tokens(raw@),
            tokens.len() == entries@.len(),
            types@ == types_in(tokens.take(i as int)),
            match domain_scope {
                Some(s) => first_domains(tokens.take(i as int)) is Some && scope_of(
                    first_domains(tokens.take(i as int))->0,
                ) == Some(s@),
                None => first_domains(tokens.take(i as int)) is None,
            },
            forall|j: int| 0 <= j < i ==> !(#[trigger] tokens[j] is Unsupported),
    {
        proof {
            assert(text::texts(entries@)[i as int] == entries@[i as int]@);
            assert(tokens[i as int] == option_token(entries@[i as int]@));
            assert(tokens.take(i + 1).drop_last() =~= tokens.take(i as int));
            assert(tokens.take(i + 1).last() == tokens[i as int]);
        }
        match read_option(&entries[i]) {
            ReadOption::Nothing => {},
            ReadOption::Domains(value) => {
                if domain_scope.is_none() {
                    match parse_domain_scope(&value) {
                        Some(scope) => {
                            domain_scope = Some(scope);
                        },
                        None => {
                            proof {
                                lemma_first_domains_stays(tokens, i + 1);
                            }
                            return None;
                        },
                    }
                }
            },
            ReadOption::Type(t) => {
                types.push(t);
            },
            ReadOption::Unsupported => {
                assert(tokens[i as int] is Unsupported);
                return None;
            },
        }
    }
    assert(tokens.take(tokens.len() as int) =~= tokens);
    let resource_types = if types.len() == 0 {
        None
    } else {
        Some(types)
    };
    Some(RuleOptions { resource_types, domain_scope })
}

// ---------------------------------------------------------------------------
// Patterns

/// Whether a text reads as one entry of an option list: a keyword, possibly
/// after `~`, and possibly with a value after `=`. Keywords start with a letter,
/// except for the neutral ones that start with a digit.
pub open spec fn is_option_shaped(token: Seq<char>) -> bool {
    let t = without_tilde(token).1;
    ||| is_neutral_keyword(t)
    ||| t.len() > 0 && text::is_ascii_letter(t[0]) && forall|i: int|
        1 <= i < text::position_of(t, '=', 1) ==> is_keyword_char(#[trigger] t[i])
}

/// Whether `c` may stand in a keyword.
pub open spec fn is_keyword_char(c: char) -> bool {
    text::is_ascii_word(c) || c == '-' || c == '_'
}

fn token_looks_like_option(token: &[char]) -> (r: bool)
    ensures
        r == is_option_shaped(token@),
{
    let (_, t) = strip_tilde(token);
    if neutral_keyword(t) {
        return true;
    }
    if t.len() == 0 || !ascii_letter(t[0]) {
        return false;
    }
    let end: usize = text::position(t, '=', 1);
    for i in 1..end
        invariant
            t@ == without_tilde(token@).1,
            !is_neutral_keyword(t@),
            end == text::position_of(t@, '=', 1),
            end <= t@.len(),
            forall|j: int| 1 <= j < i ==> is_keyword_char(#[trigger] t@[j]),
    {
        let c = t[i];
        if !(ascii_word(c) || c == '-' || c == '_') {
            assert(!is_keyword_char(t@[i as int]));
            return false;
        }
    }
    true
}

/// Whether a text reads as an option list.
pub open spec fn is_option_list(s: Seq<char>) -> bool {
    forall|i: int|
        0 <= i < text::split_parts(s, ',').len() ==> {
            let part = #[trigger] text::split_parts(s, ',')[i];
            part.len() == 0 || is_option_shaped(part)
        }
}

fn looks_like_options(s: &[char]) -> (r: bool)
    ensures
        r == is_option_list(s@),
{
    let parts = text::split_chars(s, ',');
    for i in 0..parts.len()
        invariant
            text::texts(parts@) == text::split_parts(s@, ','),
            forall|j: int|
                0 <= j < i ==> (#[trigger] text::split_parts(s@, ',')[j]).len() == 0
                    || is_option_shaped(text::split_parts(s@, ',')[j]),
    {
        assert(text::texts(parts@)[i as int] == parts@[i as int]@);
        if parts[i].len() > 0 && !token_looks_like_option(&parts[i]) {
            return false;
        }
    }
    true
}

/// A rule split into its pattern and its option list. The options follow the
/// last `$`, where what follows it reads as an option list.
pub open spec fn split_rule(rule: Seq<char>) -> (Seq<char>, Option<Seq<char>>) {
    match text::last_position_of(rule, '$') {
        Some(i) => if i + 1 < rule.len() && is_option_list(rule.skip(i + 1)) {
            (rule.take(i), Some(rule.skip(i + 1)))
        } else {
            (rule, None)
        },
        None => (rule, None),
    }
}

fn split_options(rule: &[char]) -> (r: (&[char], Option<&[char]>))
    ensures
        r.0@ == split_rule(rule@).0,
        match r.1 {
            Some(o) => split_rule(rule@).1 == Some(o@),
            None => split_rule(rule@).1 is None,
        },
{
    match text::last_position(rule, '$') {
        Some(i) => {
            let last: usize = rule.len() - 1;
            if i < last {
                let tail = skip_chars(rule, i + 1);
                if looks_like_options(tail) {
                    return (take_chars(rule, i), Some(tail));
                }
            }
            (rule, None)
        },
        None => (rule, None),
    }
}

/// Whether a line is a rule about the content of a page, not about requests.
pub open spec fn is_cosmetic(line: Seq<char>) -> bool {
    ||| text::contains_text(line, "##"@)
    ||| text::contains_text(line, "#@#"@)
    ||| text::contains_text(line, "#$#"@)
    ||| text::contains_text(line, "#%#"@)
    ||| text::contains_text(line, "#?#"@)
}

fn is_cosmetic_rule(line: &[char]) -> (r: bool)
    ensures
        r == is_cosmetic(line@),
{
    text::contains_chars(line, &chars_of("##")) || text::contains_chars(line, &chars_of("#@#"))
        || text::contains_chars(line, &chars_of("#$#")) || text::contains_chars(
        line,
        &chars_of("#%#"),
    ) || text::contains_chars(line, &chars_of("#?#"))
}

/// Whether a pattern is a regular expression: it starts and ends with `/`.
pub open spec fn is_regex(pattern: Seq<char>) -> bool {
    pattern.len() >= 2 && pattern.first() == '/' && pattern.last() == '/'
}

fn is_regex_pattern(pattern: &[char]) -> (r: bool)
    ensures
        r == is_regex(pattern@),
{
    pattern.len() >= 2 && pattern[0] == '/' && pattern[pattern.len() - 1] == '/'
}

/// The domain of a `||` rule: what stands before the first `^` or `/`, in lower
/// case; `None` where that is no domain name.
pub open spec fn anchored_domain(body: Seq<char>) -> Option<Seq<char>> {
    let caret = text::position_of(body, '^', 0);
    let slash = text::position_of(body, '/', 0);
    let end = if caret < slash {
        caret
    } else {
        slash
    };
    let domain = text::ascii_lower(text::trimmed(body.take(end)));
    if is_domain_text(domain) {
        Some(domain)
    } else {
        None
    }
}

fn parse_domain_anchor_body(body: &[char]) -> (r: Option<Vec<char>>)
    ensures
        match r {
            Some(d) => anchored_domain(body@) == Some(d@),
            None => anchored_domain(body@) is None,
        },
{
    let caret: usize = text::position(body, '^', 0);
    let slash: usize = text::position(body, '/', 0);
    let end: usize = if caret < slash {
        caret
    } else {
        slash
    };
    let domain = to_ascii_lower(trim_chars(take_chars(body, end)));
    if is_valid_domain_str(&domain) {
        Some(domain)
    } else {
        None
    }
}

/// The length of the longest prefix of `s` without `*` and `^`.
pub open spec fn literal_len(s: Seq<char>) -> nat
    decreases s.len(),
{
    if s.len() == 0 || s.first() == '*' || s.first() == '^' {
        0
    } else {
        1 + literal_len(s.drop_first())
    }
}

/// The length of the longest prefix of `s` that is made of `*`.
pub open spec fn star_len(s: Seq<char>) -> nat
    decreases s.len(),
{
    if s.len() == 0 || s.first() != '*' {
        0
    } else {
        1 + star_len(s.drop_first())
    }
}

proof fn lemma_run_bounds(s: Seq<char>)
    ensures
        literal_len(s) <= s.len(),
        star_len(s) <= s.len(),
    decreases s.len(),
{
    if s.len() > 0 {
        lemma_run_bounds(s.drop_first());
    }
}

/// The tokens of a pattern: a run of `*` is one wildcard, each `^` is a
/// separator, and what stands between them is literal.
pub open spec fn tokens_of(s: Seq<char>) -> Seq<TokenModel>
    decreases s.len(),
    via tokens_of_decreases
{
    if s.len() == 0 {
        Seq::empty()
    } else if s.first() == '*' {
        seq![TokenModel::Wildcard] + tokens_of(s.skip(star_len(s) as int))
    } else if s.first() == '^' {
        seq![TokenModel::Separator] + tokens_of(s.skip(1))
    } else {
        let n = literal_len(s) as int;
        seq![TokenModel::Literal(s.take(n))] + tokens_of(s.skip(n))
    }
}

#[via_fn]
proof fn tokens_of_decreases(s: Seq<char>) {
    lemma_run_bounds(s);
}

fn literal_end(s: &[char], from: usize) -> (r: usize)
    requires
        from <= s@.len(),
    ensures
        from <= r <= s@.len(),
        r - from == literal_len(s@.skip(from as int)),
{
    let mut i: usize = from;
    while i < s.len() && s[i] != '*' && s[i] != '^'
        invariant
            from <= i <= s@.len(),
            literal_len(s@.skip(from as int)) == (i - from) + literal_len(s@.skip(i as int)),
        decreases s@.len() - i,
    {
        assert(s@.skip(i as int).drop_first() =~= s@.skip(i + 1));
        i = i + 1;
    }
    i
}

fn star_end(s: &[char], from: usize) -> (r: usize)
    requires
        from <= s@.len(),
    ensures
        from <= r <= s@.len(),
        r - from == star_len(s@.skip(from as int)),
{
    let mut i: usize = from;
    while i < s.len() && s[i] == '*'
        invariant
            from <= i <= s@.len(),
            star_len(s@.skip(from as int)) == (i - from) + star_len(s@.skip(i as int)),
        decreases s@.len() - i,
    {
        assert(s@.skip(i as int).drop_first() =~= s@.skip(i + 1));
        i = i + 1;
    }
    i
}

fn tokenize(s: &[char]) -> (r: Vec<Token>)
    ensures
        token_models(r@) == tokens_of(s@),
{
    let mut tokens: Vec<Token> = Vec::new();
    let mut i: usize = 0;
    assert(s@.skip(0) =~= s@);
    assert(token_models(tokens@) + tokens_of(s@) =~= tokens_of(s@));
    while i < s.len()
        invariant
            i <= s@.len(),
            token_models(tokens@) + tokens_of(s@.skip(i as int)) == tokens_of(s@),
        decreases s@.len() - i,
    {
        let ghost rest = s@.skip(i as int);
        let ghost before = token_models(tokens@);
        let (token, end) = if s[i] == '*' {
            (Token::Wildcard, star_end(s, i))
        } else if s[i] == '^' {
            (Token::Separator, i + 1)
        } else {
            let end: usize = literal_end(s, i);
            assert(s@.subrange(i as int, end as int) =~= rest.take(end - i));
            (
                Token::Literal(slice_to_vec(vstd::slice::slice_subrange(s, i, end))),
                end,
            )
        };
        proof {
            assert(rest.skip(end - i) =~= s@.skip(end as int));
            assert(tokens_of(rest) == seq![token@] + tokens_of(s@.skip(end as int)));
            assert(before.push(token@) + tokens_of(s@.skip(end as int)) =~= before + tokens_of(
                rest,
            ));
        }
        let ghost model = token@;
        tokens.push(token);
        assert(token_models(tokens@) =~= before.push(model));
        i = end;
    }
    assert(token_models(tokens@) + Seq::<TokenModel>::empty() =~= token_models(tokens@));
    tokens
}

/// Whether a pattern is anchored at the start and at the end, and what is left
/// of it without the anchors.
pub open spec fn pattern_anchors(pattern: Seq<char>) -> (bool, bool, Seq<char>) {
    let start = pattern.len() > 0 && pattern.first() == '|';
    let rest = if start {
        pattern.drop_first()
    } else {
        pattern
    };
    let end = rest.len() > 0 && rest.last() == '|';
    let body = if end {
        rest.drop_last()
    } else {
        rest
    };
    (start, end, body)
}

/// Whether every token is a wildcard.
pub open spec fn is_only_wildcards(tokens: Seq<TokenModel>) -> bool {
    forall|i: int| 0 <= i < tokens.len() ==> #[trigger] tokens[i] is Wildcard
}

/// The tokens and anchors of a pattern; `None` where it has no tokens but
/// wildcards, so that a lone `*` is not taken to block everything.
pub open spec fn pattern_of(pattern: Seq<char>) -> Option<(Seq<TokenModel>, bool, bool)> {
    let (start, end, body) = pattern_anchors(pattern);
    let tokens = tokens_of(text::ascii_lower(body));
    if is_only_wildcards(tokens) {
        None
    } else {
        Some((tokens, start, end))
    }
}

fn tokenize_pattern(pattern: &[char]) -> (r: Option<(Vec<Token>, bool, bool)>)
    ensures
        match r {
            Some(p) => pattern_of(pattern@) == Some((token_models(p.0@), p.1, p.2)),
            None => pattern_of(pattern@) is None,
        },
{
    let start = pattern.len() > 0 && pattern[0] == '|';
    assert(pattern@.len() > 0 ==> pattern@.skip(1) =~= pattern@.drop_first());
    let rest = if start {
        skip_chars(pattern, 1)
    } else {
        pattern
    };
    let end = rest.len() > 0 && rest[rest.len() - 1] == '|';
    assert(rest@.len() > 0 ==> rest@.take(rest@.len() - 1) =~= rest@.drop_last());
    let body = if end {
        take_chars(rest, rest.len() - 1)
    } else {
        rest
    };
    let tokens = tokenize(&to_ascii_lower(body));
    let ghost models = tokens_of(text::ascii_lower(body@));
    let mut only_wildcards = true;
    for i in 0..tokens.len()
        invariant
            token_models(tokens@) == models,
            only_wildcards == (forall|j: int| 0 <= j < i ==> #[trigger] models[j] is Wildcard),
    {
        assert(models[i as int] == tokens@[i as int]@);
        match &tokens[i] {
            Token::Wildcard => {},
            _ => {
                only_wildcards = false;
            },
        }
    }
    if only_wildcards {
        None
    } else {
        Some((tokens, start, end))
    }
}

/// Whether a separator placeholder matches `c`.
pub open spec fn is_separator(c: char) -> bool {
    !(text::is_ascii_word(c) || c == '.' || c == '-' || c == '_' || c == '%')
}

fn is_separator_char(c: char) -> (r: bool)
    ensures
        r == is_separator(c),
{
    !(ascii_word(c) || c == '.' || c == '-' || c == '_' || c == '%')
}

/// Whether token `k` of a pattern may stand further on than where the one before
/// it left off: behind a wildcard, and at the start of a pattern that is not
/// anchored there.
pub open spec fn is_floating(rule: PatternRuleModel, k: int) -> bool {
    if k == 0 {
        !rule.anchor_start
    } else {
        rule.tokens[k - 1] is Wildcard
    }
}

/// Whether a separator placeholder matches at index `pos` of `url`.
pub open spec fn separates(url: Seq<char>, pos: int) -> bool {
    pos >= url.len() || is_separator(url[pos])
}

/// Where a separator placeholder that matches at index `pos` of `url` leaves off.
pub open spec fn after_separator(url: Seq<char>, pos: int) -> int {
    if pos >= url.len() {
        pos
    } else {
        pos + 1
    }
}

/// Whether the separators of a pattern from token `k` on, and the literal or the
/// anchor behind them, stand at index `pos` of `url`.
pub open spec fn run_stands(rule: PatternRuleModel, k: int, url: Seq<char>, pos: int) -> bool
    decreases rule.tokens.len() - k,
{
    if k >= rule.tokens.len() {
        !rule.anchor_end || pos == url.len()
    } else {
        match rule.tokens[k] {
            TokenModel::Literal(l) => text::occurs_at(url, l, pos),
            TokenModel::Wildcard => true,
            TokenModel::Separator => separates(url, pos) && run_stands(
                rule,
                k + 1,
                url,
                after_separator(url, pos),
            ),
        }
    }
}

/// The least index of `url`, from `pos` on, at which [`run_stands`].
pub open spec fn first_run(rule: PatternRuleModel, k: int, url: Seq<char>, pos: int) -> Option<int>
    decreases url.len() + 1 - pos,
{
    if pos > url.len() {
        None
    } else if run_stands(rule, k, url, pos) {
        Some(pos)
    } else {
        first_run(rule, k, url, pos + 1)
    }
}

/// Where token `k` of a pattern leaves off if the one before it left off at index
/// `pos` of `url`. A token that may stand further on is looked for from there: a
/// literal at its first occurrence, a separator where what must follow it does.
pub open spec fn token_end(rule: PatternRuleModel, k: int, url: Seq<char>, pos: int) -> Option<int> {
    match rule.tokens[k] {
        TokenModel::Literal(l) => if is_floating(rule, k) {
            match text::first_occurrence(url, l, pos) {
                Some(i) => Some(i + l.len()),
                None => None,
            }
        } else if text::occurs_at(url, l, pos) {
            Some(pos + l.len())
        } else {
            None
        },
        TokenModel::Wildcard => Some(pos),
        TokenModel::Separator => if is_floating(rule, k) {
            match first_run(rule, k, url, pos) {
                Some(i) => Some(after_separator(url, i)),
                None => None,
            }
        } else if separates(url, pos) {
            Some(after_separator(url, pos))
        } else {
            None
        },
    }
}

/// Where the first `n` tokens of a pattern leave off in `url`, tried from left to
/// right, with no second try for a literal that occurs again further on.
pub open spec fn match_end(rule: PatternRuleModel, n: int, url: Seq<char>) -> Option<int>
    decreases n,
{
    if n <= 0 {
        Some(0)
    } else {
        match match_end(rule, n - 1, url) {
            Some(pos) => token_end(rule, n - 1, url, pos),
            None => None,
        }
    }
}

/// Whether a pattern rule matches a URL in lower case. A rule that is anchored at
/// the end must reach it, which a wildcard at its end always does.
pub open spec fn pattern_matches(rule: PatternRuleModel, url: Seq<char>) -> bool {
    let n = rule.tokens.len() as int;
    match match_end(rule, n, url) {
        Some(end) => !rule.anchor_end || end == url.len() || is_floating(rule, n),
        None => false,
    }
}

proof fn lemma_match_end_none(rule: PatternRuleModel, k: int, url: Seq<char>)
    requires
        0 <= k <= rule.tokens.len(),
        match_end(rule, k, url) is None,
    ensures
        match_end(rule, rule.tokens.len() as int, url) is None,
    decreases rule.tokens.len() - k,
{
    if k < rule.tokens.len() {
        lemma_match_end_none(rule, k + 1, url);
    }
}

impl PatternRule {
    fn floats(&self, k: usize) -> (r: bool)
        requires
            k <= self.tokens@.len(),
        ensures
            r == is_floating(self@, k as int),
    {
        if k == 0 {
            !self.anchor_start
        } else {
            assert(self@.tokens[k - 1] == self.tokens@[k - 1]@);
            match self.tokens[k - 1] {
                Token::Wildcard => true,
                _ => false,
            }
        }
    }

    fn has_run_at(&self, k: usize, url: &[char], pos: usize) -> (r: bool)
        requires
            k <= self.tokens@.len(),
            pos <= url@.len(),
        ensures
            r == run_stands(self@, k as int, url@, pos as int),
    {
        let mut j: usize = k;
        let mut at: usize = pos;
        while j < self.tokens.len()
            invariant
                j <= self.tokens@.len(),
                at <= url@.len(),
                run_stands(self@, k as int, url@, pos as int) == run_stands(
                    self@,
                    j as int,
                    url@,
                    at as int,
                ),
            decreases self.tokens@.len() - j,
        {
            assert(self@.tokens[j as int] == self.tokens@[j as int]@);
            match &self.tokens[j] {
                Token::Literal(l) => {
                    return matches_at(url, l, at);
                },
                Token::Wildcard => {
                    return true;
                },
                Token::Separator => {
                    if at < url.len() {
                        if !is_separator_char(url[at]) {
                            return false;
                        }
                        at = at + 1;
                    }
                },
            }
            j = j + 1;
        }
        !self.anchor_end || at == url.len()
    }

    fn find_run(&self, k: usize, url: &[char], pos: usize) -> (r: Option<usize>)
        requires
            k <= self.tokens@.len(),
            pos <= url@.len(),
        ensures
            match r {
                Some(i) => first_run(self@, k as int, url@, pos as int) == Some(i as int) && i
                    <= url@.len(),
                None => first_run(self@, k as int, url@, pos as int) is None,
            },
    {
        let mut i: usize = pos;
        loop
            invariant
                k <= self.tokens@.len(),
                i <= url@.len(),
                first_run(self@, k as int, url@, pos as int) == first_run(
                    self@,
                    k as int,
                    url@,
                    i as int,
                ),
            decreases url@.len() - i,
        {
            if self.has_run_at(k, url, i) {
                return Some(i);
            }
            if i == url.len() {
                assert(first_run(self@, k as int, url@, i + 1) is None);
                return None;
            }
            i = i + 1;
        }
    }

    fn try_token(&self, k: usize, url: &[char], pos: usize) -> (r: Option<usize>)
        requires
            k < self.tokens@.len(),
            pos <= url@.len(),
        ensures
            match r {
                Some(end) => token_end(self@, k as int, url@, pos as int) == Some(end as int) && end
                    <= url@.len(),
                None => token_end(self@, k as int, url@, pos as int) is None,
            },
    {
        let len: usize = url.len();
        assert(self@.tokens[k as int] == self.tokens@[k as int]@);
        match &self.tokens[k] {
            Token::Literal(l) => {
                if self.floats(k) {
                    match find_from(url, l, pos) {
                        Some(i) => Some(i + l.len()),
                        None => None,
                    }
                } else if matches_at(url, l, pos) {
                    Some(pos + l.len())
                } else {
                    None
                }
            },
            Token::Wildcard => Some(pos),
            Token::Separator => {
                let at: usize = if self.floats(k) {
                    match self.find_run(k, url, pos) {
                        Some(i) => i,
                        None => {
                            return None;
                        },
                    }
                } else if pos < len && !is_separator_char(url[pos]) {
                    return None;
                } else {
                    pos
                };
                if at < len {
                    Some(at + 1)
                } else {
                    Some(at)
                }
            },
        }
    }

    fn matches(&self, url: &[char]) -> (r: bool)
        ensures
            r == pattern_matches(self@, url@),
    {
        let mut pos: usize = 0;
        for k in 0..self.tokens.len()
            invariant
                pos <= url@.len(),
                self@.tokens.len() == self.tokens@.len(),
                match_end(self@, k as int, url@) == Some(pos as int),
        {
            match self.try_token(k, url, pos) {
                Some(end) => {
                    pos = end;
                },
                None => {
                    proof {
                        lemma_match_end_none(self@, k + 1, url@);
                    }
                    return false;
                },
            }
        }
        !self.anchor_end || pos == url.len() || self.floats(self.tokens.len())
    }
}

// ---------------------------------------------------------------------------
// Lines

/// What one line of a filter list says.
pub enum LineModel {
    DomainBlock(DomainRuleModel),
    DomainException(DomainRuleModel),
    PatternBlock(PatternRuleModel),
    PatternException(PatternRuleModel),
    Ignored,
}

enum ParsedLine {
    DomainBlock(DomainRule),
    DomainException(DomainRule),
    PatternBlock(PatternRule),
    PatternException(PatternRule),
    Ignored,
}

impl View for ParsedLine {
    type V = LineModel;

    closed spec fn view(&self) -> LineModel {
        match self {
            ParsedLine::DomainBlock(r) => LineModel::DomainBlock(r@),
            ParsedLine::DomainException(r) => LineModel::DomainException(r@),
            ParsedLine::PatternBlock(r) => LineModel::PatternBlock(r@),
            ParsedLine::PatternException(r) => LineModel::PatternException(r@),
            ParsedLine::Ignored => LineModel::Ignored,
        }
    }
}

/// The options that an option list stands for; a rule without one has none.
pub open spec fn rule_options(list: Option<Seq<char>>) -> Option<OptionsModel> {
    match list {
        Some(raw) => options_of(raw),
        None => Some(no_options()),
    }
}

/// What a rule without its `@@` says.
pub open spec fn rule_of(rule: Seq<char>, exception: bool) -> LineModel {
    let (pattern, option_list) = split_rule(rule);
    match rule_options(option_list) {
        None => LineModel::Ignored,
        Some(options) => if pattern.len() == 0 || is_regex(pattern) {
            LineModel::Ignored
        } else if "||"@.is_prefix_of(pattern) {
            match anchored_domain(pattern.skip(2)) {
                Some(domain) => {
                    let r = DomainRuleModel { domain, options };
                    if exception {
                        LineModel::DomainException(r)
                    } else {
                        LineModel::DomainBlock(r)
                    }
                },
                None => LineModel::Ignored,
            }
        } else {
            match pattern_of(pattern) {
                Some((tokens, anchor_start, anchor_end)) => {
                    let r = PatternRuleModel { tokens, anchor_start, anchor_end, options };
                    if exception {
                        LineModel::PatternException(r)
                    } else {
                        LineModel::PatternBlock(r)
                    }
                },
                None => LineModel::Ignored,
            }
        },
    }
}

/// Whether a line, once trimmed, holds no rule about requests.
pub open spec fn is_no_rule(line: Seq<char>) -> bool {
    ||| line.len() == 0
    ||| line.first() == '!'
    ||| line.first() == '[' && line.last() == ']'
    ||| is_cosmetic(line)
}

/// What a line of a filter list says.
pub open spec fn parsed_line(line: Seq<char>) -> LineModel {
    let t = text::trimmed(line);
    if text::byte_len(line) > MAX_RULE_LINE_LEN || is_no_rule(t) {
        LineModel::Ignored
    } else if "@@"@.is_prefix_of(t) {
        rule_of(t.skip(2), true)
    } else {
        rule_of(t, false)
    }
}

fn parse_rule(rule: &[char], exception: bool) -> (r: ParsedLine)
    ensures
        r@ == rule_of(rule@, exception),
{
    proof {
        reveal_strlit("||");
    }
    let (pattern, option_list) = split_options(rule);
    let options = match option_list {
        Some(raw) => match parse_options(raw) {
            Some(o) => o,
            None => {
                return ParsedLine::Ignored;
            },
        },
        None => RuleOptions { resource_types: None, domain_scope: None },
    };
    if pattern.len() == 0 || is_regex_pattern(pattern) {
        return ParsedLine::Ignored;
    }
    if text::has_prefix(pattern, "||") {
        return match parse_domain_anchor_body(skip_chars(pattern, 2)) {
            Some(domain) => {
                let rule = DomainRule { domain, options };
                if exception {
                    ParsedLine::DomainException(rule)
                } else {
                    ParsedLine::DomainBlock(rule)
                }
            },
            None => ParsedLine::Ignored,
        };
    }
    match tokenize_pattern(pattern) {
        Some((tokens, anchor_start, anchor_end)) => {
            let rule = PatternRule { tokens, anchor_start, anchor_end, options };
            if exception {
                ParsedLine::PatternException(rule)
            } else {
                ParsedLine::PatternBlock(rule)
            }
        },
        None => ParsedLine::Ignored,
    }
}

fn parse_line(line: &[char]) -> (r: ParsedLine)
    ensures
        r@ == parsed_line(line@),
{
    proof {
        reveal_strlit("@@");
    }
    if !text::fits_in_bytes(line, MAX_RULE_LINE_LEN) {
        return ParsedLine::Ignored;
    }
    let t = trim_chars(line);
    if t.len() == 0 || t[0] == '!' {
        return ParsedLine::Ignored;
    }
    if t[0] == '[' && t[t.len() - 1] == ']' {
        return ParsedLine::Ignored;
    }
    if is_cosmetic_rule(t) {
        return ParsedLine::Ignored;
    }
    if text::has_prefix(t, "@@") {
        parse_rule(skip_chars(t, 2), true)
    } else {
        parse_rule(t, false)
    }
}

// ---------------------------------------------------------------------------
// Lists

/// The list without rules.
pub open spec fn empty_list() -> FilterModel {
    FilterModel {
        domain_blocks: Seq::empty(),
        domain_exceptions: Seq::empty(),
        pattern_blocks: Seq::empty(),
        pattern_exceptions: Seq::empty(),
    }
}

/// The number of rules in a list.
pub open spec fn rule_total(list: FilterModel) -> nat {
    list.domain_blocks.len() + list.domain_exceptions.len() + list.pattern_blocks.len()
        + list.pattern_exceptions.len()
}

/// A list with what one line says added to it.
pub open spec fn with_line(list: FilterModel, line: LineModel) -> FilterModel {
    match line {
        LineModel::DomainBlock(r) => FilterModel {
            domain_blocks: list.domain_blocks.push(r),
            ..list
        },
        LineModel::DomainException(r) => FilterModel {
            domain_exceptions: list.domain_exceptions.push(r),
            ..list
        },
        LineModel::PatternBlock(r) => FilterModel {
            pattern_blocks: list.pattern_blocks.push(r),
            ..list
        },
        LineModel::PatternException(r) => FilterModel {
            pattern_exceptions: list.pattern_exceptions.push(r),
            ..list
        },
        LineModel::Ignored => list,
    }
}

/// A list with the rules of some lines added, in order, for as long as it holds
/// fewer than [`MAX_RULES`].
pub open spec fn with_lines(list: FilterModel, lines: Seq<Seq<char>>) -> FilterModel
    decreases lines.len(),
{
    if lines.len() == 0 {
        list
    } else {
        let before = with_lines(list, lines.drop_last());
        if rule_total(before) >= MAX_RULES {
            before
        } else {
            with_line(before, parsed_line(lines.last()))
        }
    }
}

proof fn lemma_full_list_stays(list: FilterModel, lines: Seq<Seq<char>>, k: int)
    requires
        0 <= k <= lines.len(),
        rule_total(with_lines(list, lines.take(k))) >= MAX_RULES,
    ensures
        with_lines(list, lines) == with_lines(list, lines.take(k)),
    decreases lines.len() - k,
{
    if k == lines.len() {
        assert(lines.take(k) =~= lines);
    } else {
        assert(lines.take(k + 1).drop_last() =~= lines.take(k));
        lemma_full_list_stays(list, lines, k + 1);
    }
}

/// Whether the options of a rule let it apply, as far as the type of the
/// request and the host of its page are known.
pub open spec fn options_allow(
    options: OptionsModel,
    resource_type: Option<RuleResourceType>,
    page_host: Option<Seq<char>>,
) -> bool {
    &&& match (options.resource_types, resource_type) {
        (Some(types), Some(t)) => types.contains(t),
        _ => true,
    }
    &&& match (options.domain_scope, page_host) {
        (Some(scope), Some(page)) => scope_allows(
            scope,
            text::ascii_lower(text::trimmed(page)),
        ),
        _ => true,
    }
}

/// Whether a scope covers a page: one of its included domains holds the page,
/// if it has any, and none of its excluded ones does.
pub open spec fn scope_allows(scope: ScopeModel, page: Seq<char>) -> bool {
    &&& scope.included.len() == 0 || in_some_domain(scope.included, page)
    &&& !in_some_domain(scope.excluded, page)
}

/// Whether a host is in one of some domains.
pub open spec fn in_some_domain(domains: Seq<Seq<char>>, host: Seq<char>) -> bool {
    exists|i: int| 0 <= i < domains.len() && is_in_domain(#[trigger] domains[i], host)
}

/// What a [`MatchContext`] says of the host of the page.
pub open spec fn context_page(ctx: MatchContext) -> Option<Seq<char>> {
    match ctx.page_host {
        Some(h) => Some(h@),
        None => None,
    }
}

/// Whether one of some domain rules matches a host and applies.
pub open spec fn domain_rules_hit(
    rules: Seq<DomainRuleModel>,
    host: Seq<char>,
    resource_type: Option<RuleResourceType>,
    page_host: Option<Seq<char>>,
) -> bool {
    exists|i: int|
        0 <= i < rules.len() && is_in_domain((#[trigger] rules[i]).domain, host) && options_allow(
            rules[i].options,
            resource_type,
            page_host,
        )
}

/// Whether one of some pattern rules matches a URL in lower case and applies.
pub open spec fn pattern_rules_hit(
    rules: Seq<PatternRuleModel>,
    url: Seq<char>,
    resource_type: Option<RuleResourceType>,
    page_host: Option<Seq<char>>,
) -> bool {
    exists|i: int|
        0 <= i < rules.len() && pattern_matches(#[trigger] rules[i], url) && options_allow(
            rules[i].options,
            resource_type,
            page_host,
        )
}

/// Whether a list blocks a request for `url`, whose host is `host`: a block rule
/// matches it and no exception does. A URL without a host is never blocked.
pub open spec fn blocked(
    list: FilterModel,
    host: Option<Seq<char>>,
    url: Seq<char>,
    resource_type: Option<RuleResourceType>,
    page_host: Option<Seq<char>>,
) -> bool {
    match host {
        None => false,
        Some(h) => {
            let lower = text::ascii_lower(url);
            let host = text::ascii_lower(h);
            &&& !domain_rules_hit(list.domain_exceptions, host, resource_type, page_host)
            &&& !pattern_rules_hit(list.pattern_exceptions, lower, resource_type, page_host)
            &&& domain_rules_hit(list.domain_blocks, host, resource_type, page_host)
                || pattern_rules_hit(list.pattern_blocks, lower, resource_type, page_host)
        },
    }
}

/// The host of a URL, as the `url` crate reads it.
pub open spec fn host_in(url: Seq<char>) -> Option<Seq<char>> {
    match weburl::parsed_url(url) {
        Some(u) => u.host_text,
        None => None,
    }
}

fn in_any_domain(domains: &Vec<Vec<char>>, host: &[char]) -> (r: bool)
    ensures
        r == in_some_domain(text::texts(domains@), host@),
{
    let ghost models = text::texts(domains@);
    for i in 0..domains.len()
        invariant
            models == text::texts(domains@),
            forall|j: int| 0 <= j < i ==> !is_in_domain(#[trigger] models[j], host@),
    {
        assert(models[i as int] == domains@[i as int]@);
        if domain_suffix_match(&domains[i], host) {
            return true;
        }
    }
    false
}

fn options_apply(options: &RuleOptions, ctx: &MatchContext) -> (r: bool)
    ensures
        r == options_allow(options@, ctx.resource_type, context_page(*ctx)),
{
    if let Some(types) = &options.resource_types {
        if let Some(t) = ctx.resource_type {
            let mut found = false;
            for i in 0..types.len()
                invariant
                    found == (exists|j: int| 0 <= j < i && types@[j] == t),
            {
                if types[i] == t {
                    found = true;
                }
            }
            if !found {
                return false;
            }
            assert(types@.contains(t));
        }
    }
    if let Some(scope) = &options.domain_scope {
        if let Some(host) = ctx.page_host {
            let page = to_ascii_lower(trim_chars(&chars_of(host)));
            assert(text::texts(scope.included@).len() == scope.included@.len());
            if scope.included.len() > 0 && !in_any_domain(&scope.included, &page) {
                return false;
            }
            if in_any_domain(&scope.excluded, &page) {
                return false;
            }
        }
    }
    true
}

impl DomainRule {
    fn matches(&self, host: &[char]) -> (r: bool)
        ensures
            r == is_in_domain(self@.domain, host@),
    {
        domain_suffix_match(&self.domain, host)
    }
}

fn any_domain_rule(rules: &Vec<DomainRule>, host: &[char], ctx: &MatchContext) -> (r: bool)
    ensures
        r == domain_rules_hit(
            rules@.map_values(|r: DomainRule| r@),
            host@,
            ctx.resource_type,
            context_page(*ctx),
        ),
{
    let ghost models = rules@.map_values(|r: DomainRule| r@);
    for i in 0..rules.len()
        invariant
            models == rules@.map_values(|r: DomainRule| r@),
            forall|j: int|
                0 <= j < i ==> !(is_in_domain((#[trigger] models[j]).domain, host@)
                    && options_allow(models[j].options, ctx.resource_type, context_page(*ctx))),
    {
        assert(models[i as int] == rules@[i as int]@);
        if rules[i].matches(host) && options_apply(&rules[i].options, ctx) {
            return true;
        }
    }
    false
}

fn any_pattern_rule(rules: &Vec<PatternRule>, url: &[char], ctx: &MatchContext) -> (r: bool)
    ensures
        r == pattern_rules_hit(
            rules@.map_values(|r: PatternRule| r@),
            url@,
            ctx.resource_type,
            context_page(*ctx),
        ),
{
    let ghost models = rules@.map_values(|r: PatternRule| r@);
    for i in 0..rules.len()
        invariant
            models == rules@.map_values(|r: PatternRule| r@),
            forall|j: int|
                0 <= j < i ==> !(pattern_matches(#[trigger] models[j], url@) && options_allow(
                    models[j].options,
                    ctx.resource_type,
                    context_page(*ctx),
                )),
    {
        assert(models[i as int] == rules@[i as int]@);
        if rules[i].matches(url) && options_apply(&rules[i].options, ctx) {
            return true;
        }
    }
    false
}

impl FilterList {
    /// A list holds at most [`MAX_RULES`] rules.
    pub open spec fn wf(&self) -> bool {
        rule_total(self@) <= MAX_RULES
    }

    /// The list without rules: nothing is blocked.
    pub fn empty() -> (r: Self)
        ensures
            r.wf(),
            r@ == empty_list(),
    {
        let r = FilterList {
            domain_blocks: Vec::new(),
            domain_exceptions: Vec::new(),
            pattern_blocks: Vec::new(),
            pattern_exceptions: Vec::new(),
        };
        assert(r@.domain_blocks =~= Seq::empty());
        assert(r@.domain_exceptions =~= Seq::empty());
        assert(r@.pattern_blocks =~= Seq::empty());
        assert(r@.pattern_exceptions =~= Seq::empty());
        r
    }

    /// Parses `text`, one rule per line.
    pub fn parse(text: &str) -> (r: Self)
        ensures
            r.wf(),
            r@ == with_lines(empty_list(), text::lines(text@)),
    {
        let mut list = Self::empty();
        list.merge(text);
        list
    }

    /// The built-in list, [`DEFAULT_LIST`].
    pub fn built_in() -> (r: Self)
        ensures
            r.wf(),
            r@ == with_lines(empty_list(), text::lines(DEFAULT_LIST@)),
    {
        Self::parse(DEFAULT_LIST)
    }

    fn add(&mut self, line: ParsedLine)
        ensures
            final(self)@ == with_line(old(self)@, line@),
    {
        let ghost before = self@;
        match line {
            ParsedLine::DomainBlock(rule) => {
                self.domain_blocks.push(rule);
                assert(self@.domain_blocks =~= before.domain_blocks.push(rule@));
            },
            ParsedLine::DomainException(rule) => {
                self.domain_exceptions.push(rule);
                assert(self@.domain_exceptions =~= before.domain_exceptions.push(rule@));
            },
            ParsedLine::PatternBlock(rule) => {
                self.pattern_blocks.push(rule);
                assert(self@.pattern_blocks =~= before.pattern_blocks.push(rule@));
            },
            ParsedLine::PatternException(rule) => {
                self.pattern_exceptions.push(rule);
                assert(self@.pattern_exceptions =~= before.pattern_exceptions.push(rule@));
            },
            ParsedLine::Ignored => {},
        }
    }

    /// Parses `text` and adds its rules to those of the list. Once the list
    /// holds [`MAX_RULES`] rules the rest of `text` is not applied.
    pub fn merge(&mut self, text: &str)
        requires
            old(self).wf(),
        ensures
            final(self).wf(),
            final(self)@ == with_lines(old(self)@, text::lines(text@)),
    {
        let lines = text::lines_of(&chars_of(text));
        let ghost all = text::lines(text@);
        let ghost start = self@;
        let mut i: usize = 0;
        while i < lines.len() && self.total_rule_count() < MAX_RULES
            invariant
                i <= lines@.len(),
                text::texts(lines@) == all,
                self.wf(),
                self@ == with_lines(start, all.take(i as int)),
            decreases lines@.len() - i,
        {
            proof {
                assert(all[i as int] == lines@[i as int]@);
                assert(all.take(i + 1).drop_last() =~= all.take(i as int));
            }
            let line = parse_line(&lines[i]);
            self.add(line);
            i = i + 1;
        }
        proof {
            if i < lines@.len() {
                lemma_full_list_stays(start, all, i as int);
            } else {
                assert(all.take(i as int) =~= all);
            }
        }
    }

    fn total_rule_count(&self) -> (n: usize)
        requires
            self.wf(),
        ensures
            n == rule_total(self@),
    {
        self.domain_blocks.len() + self.domain_exceptions.len() + self.pattern_blocks.len()
            + self.pattern_exceptions.len()
    }

    /// The number of block rules; exceptions do not count.
    pub fn block_rule_count(&self) -> (n: usize)
        requires
            self.wf(),
        ensures
            n == self@.domain_blocks.len() + self@.pattern_blocks.len(),
    {
        self.domain_blocks.len() + self.pattern_blocks.len()
    }

    /// Whether the list blocks a request for `url`, whose host is `host`.
    pub fn is_blocked_at(&self, host: Option<&str>, url: &str, ctx: &MatchContext) -> (r: bool)
        ensures
            r == blocked(
                self@,
                match host {
                    Some(h) => Some(h@),
                    None => None,
                },
                url@,
                ctx.resource_type,
                context_page(*ctx),
            ),
    {
        match host {
            None => false,
            Some(h) => {
                let host = to_ascii_lower(&chars_of(h));
                let lower = to_ascii_lower(&chars_of(url));
                if any_domain_rule(&self.domain_exceptions, &host, ctx) || any_pattern_rule(
                    &self.pattern_exceptions,
                    &lower,
                    ctx,
                ) {
                    return false;
                }
                any_domain_rule(&self.domain_blocks, &host, ctx) || any_pattern_rule(
                    &self.pattern_blocks,
                    &lower,
                    ctx,
                )
            },
        }
    }

    /// Whether `url` is blocked under `ctx`: a block rule matches it and applies
    /// under `ctx`, and no exception does.
    pub fn is_blocked_with_context(&self, url: &str, ctx: &MatchContext) -> (r: bool)
        ensures
            r == blocked(
                self@,
                host_in(url@),
                url@,
                ctx.resource_type,
                context_page(*ctx),
            ),
    {
        match parse_url(url) {
            Some(u) => match &u.host_text {
                Some(h) => self.is_blocked_at(Some(h.as_str()), url, ctx),
                None => false,
            },
            None => false,
        }
    }

    /// Whether `url` is blocked, whatever the options of the rules say. A URL
    /// that cannot be parsed or has no host is never blocked.
    pub fn is_blocked(&self, url: &str) -> (r: bool)
        ensures
            r == blocked(self@, host_in(url@), url@, None, None),
    {
        self.is_blocked_with_context(url, &MatchContext::default())
    }
}

// ---------------------------------------------------------------------------
// Laws

/// Without any knowledge of the request, no option keeps a rule from applying.
pub proof fn unknown_context_excludes_no_rule(options: OptionsModel)
    ensures
        options_allow(options, None, None),
{
}

/// An exception that matches a request and applies to it keeps it from being
/// blocked, whatever the block rules are.
pub proof fn an_exception_overrides_every_block(
    list: FilterModel,
    host: Seq<char>,
    url: Seq<char>,
    resource_type: Option<RuleResourceType>,
    page_host: Option<Seq<char>>,
)
    requires
        domain_rules_hit(
            list.domain_exceptions,
            text::ascii_lower(host),
            resource_type,
            page_host,
        ) || pattern_rules_hit(
            list.pattern_exceptions,
            text::ascii_lower(url),
            resource_type,
            page_host,
        ),
    ensures
        !blocked(list, Some(host), url, resource_type, page_host),
{
}

/// A URL without a host is never blocked.
pub proof fn a_url_without_a_host_is_never_blocked(
    list: FilterModel,
    url: Seq<char>,
    resource_type: Option<RuleResourceType>,
    page_host: Option<Seq<char>>,
)
    requires
        host_in(url) is None,
    ensures
        !blocked(list, host_in(url), url, resource_type, page_host),
{
}

/// The empty list blocks nothing.
pub proof fn the_empty_list_blocks_nothing(
    host: Option<Seq<char>>,
    url: Seq<char>,
    resource_type: Option<RuleResourceType>,
    page_host: Option<Seq<char>>,
)
    ensures
        !blocked(empty_list(), host, url, resource_type, page_host),
{
}

/// A rule for a domain covers every name under each host that it covers.
pub proof fn a_domain_covers_its_subdomains(
    domain: Seq<char>,
    host: Seq<char>,
    label: Seq<char>,
)
    requires
        is_in_domain(domain, host),
    ensures
        is_in_domain(domain, label + "."@ + host),
{
    let sub = label + "."@ + host;
    if host == domain {
        assert(sub.subrange(sub.len() - ("."@ + domain).len(), sub.len() as int) =~= "."@
            + domain);
    } else {
        let d = "."@ + domain;
        assert(sub.subrange(sub.len() - d.len(), sub.len() as int) =~= host.subrange(
            host.len() - d.len(),
            host.len() as int,
        ));
    }
}

/// A host that merely ends with the letters of a domain is not in it: the
/// character before them must be a dot.
pub proof fn a_lookalike_is_not_in_the_domain(domain: Seq<char>, prefix: Seq<char>)
    requires
        prefix.len() > 0,
        prefix.last() != '.',
    ensures
        !is_in_domain(domain, prefix + domain),
{
    reveal_strlit(".");
    let host = prefix + domain;
    let d = "."@ + domain;
    assert(host.len() != domain.len());
    if d.is_suffix_of(host) {
        assert(host.subrange(host.len() - d.len(), host.len() as int)[0] == prefix.last());
        assert(d[0] == '.');
    }
}

/// Merging two texts one after the other is merging the lines of both.
pub proof fn merging_in_parts(
    list: FilterModel,
    first: Seq<Seq<char>>,
    second: Seq<Seq<char>>,
)
    ensures
        with_lines(with_lines(list, first), second) == with_lines(list, first + second),
    decreases second.len(),
{
    if second.len() == 0 {
        assert(first + second =~= first);
    } else {
        merging_in_parts(list, first, second.drop_last());
        assert((first + second).drop_last() =~= first + second.drop_last());
        assert((first + second).last() == second.last());
    }
}

/// Merging never takes a rule away, and never takes a list over its limit.
pub proof fn merging_only_adds(list: FilterModel, lines: Seq<Seq<char>>)
    requires
        rule_total(list) <= MAX_RULES,
    ensures
        list.domain_blocks.is_prefix_of(with_lines(list, lines).domain_blocks),
        list.domain_exceptions.is_prefix_of(with_lines(list, lines).domain_exceptions),
        list.pattern_blocks.is_prefix_of(with_lines(list, lines).pattern_blocks),
        list.pattern_exceptions.is_prefix_of(with_lines(list, lines).pattern_exceptions),
        rule_total(with_lines(list, lines)) <= MAX_RULES,
    decreases lines.len(),
{
    if lines.len() > 0 {
        merging_only_adds(list, lines.drop_last());
    }
}

/// More block rules never unblock a request.
pub proof fn more_blocks_never_unblock(
    list: FilterModel,
    more: FilterModel,
    host: Option<Seq<char>>,
    url: Seq<char>,
    resource_type: Option<RuleResourceType>,
    page_host: Option<Seq<char>>,
)
    requires
        list.domain_blocks.is_prefix_of(more.domain_blocks),
        list.pattern_blocks.is_prefix_of(more.pattern_blocks),
        more.domain_exceptions == list.domain_exceptions,
        more.pattern_exceptions == list.pattern_exceptions,
        blocked(list, host, url, resource_type, page_host),
    ensures
        blocked(more, host, url, resource_type, page_host),
{
    let h = text::ascii_lower(host->0);
    let lower = text::ascii_lower(url);
    if domain_rules_hit(list.domain_blocks, h, resource_type, page_host) {
        let i = choose|i: int|
            0 <= i < list.domain_blocks.len() && is_in_domain(
                (#[trigger] list.domain_blocks[i]).domain,
                h,
            ) && options_allow(list.domain_blocks[i].options, resource_type, page_host);
        assert(more.domain_blocks[i] == list.domain_blocks[i]);
    } else {
        let i = choose|i: int|
            0 <= i < list.pattern_blocks.len() && pattern_matches(
                #[trigger] list.pattern_blocks[i],
                lower,
            ) && options_allow(list.pattern_blocks[i].options, resource_type, page_host);
        assert(more.pattern_blocks[i] == list.pattern_blocks[i]);
    }
}

/// No pattern rule that a line gives is made of wildcards alone.
pub proof fn no_pattern_is_only_wildcards(line: Seq<char>)
    ensures
        match parsed_line(line) {
            LineModel::PatternBlock(r) => !is_only_wildcards(r.tokens),
            LineModel::PatternException(r) => !is_only_wildcards(r.tokens),
            _ => true,
        },
{
}

/// Whether a token stands for the characters of `url` from `from` to `to`.
pub open spec fn token_fits(token: TokenModel, url: Seq<char>, from: int, to: int) -> bool {
    &&& 0 <= from <= to <= url.len()
    &&& match token {
        TokenModel::Literal(l) => url.subrange(from, to) == l,
        TokenModel::Wildcard => true,
        TokenModel::Separator => {
            ||| to == from + 1 && is_separator(url[from])
            ||| from == url.len()
        },
    }
}

/// Whether a URL can be cut so that each token stands for the piece that belongs
/// to it.
pub open spec fn cuts_fit(tokens: Seq<TokenModel>, url: Seq<char>, cuts: Seq<int>) -> bool {
    &&& cuts.len() == tokens.len() + 1
    &&& 0 <= cuts[0] <= url.len()
    &&& forall|i: int|
        0 <= i < tokens.len() ==> token_fits(#[trigger] tokens[i], url, cuts[i], cuts[i + 1])
}

/// Whether a pattern rule fits a URL: its tokens stand for adjacent pieces of
/// it, which reach its start and its end where the rule is anchored there.
pub open spec fn pattern_fits(rule: PatternRuleModel, url: Seq<char>) -> bool {
    exists|cuts: Seq<int>|
        {
            &&& #[trigger] cuts_fit(rule.tokens, url, cuts)
            &&& rule.anchor_start ==> cuts[0] == 0
            &&& rule.anchor_end ==> cuts.last() == url.len()
        }
}

/// Matching never takes a URL for one that the pattern does not fit.
pub proof fn matching_never_goes_too_far(rule: PatternRuleModel, url: Seq<char>)
    requires
        pattern_matches(rule, url),
    ensures
        pattern_fits(rule, url),
{
    let n = rule.tokens.len() as int;
    let end = match_end(rule, n, url)->0;
    let cuts = lemma_match_cuts(rule, n, url, end);
    assert(rule.tokens.take(n) =~= rule.tokens);
    if rule.anchor_end && end != url.len() {
        let longer = cuts.update(n, url.len() as int);
        assert forall|i: int| 0 <= i < n implies token_fits(
            #[trigger] rule.tokens[i],
            url,
            longer[i],
            longer[i + 1],
        ) by {
            assert(token_fits(rule.tokens[i], url, cuts[i], cuts[i + 1]));
        }
        assert(cuts_fit(rule.tokens, url, longer));
    } else {
        assert(cuts_fit(rule.tokens, url, cuts));
    }
}

proof fn lemma_first_run(rule: PatternRuleModel, k: int, url: Seq<char>, pos: int)
    requires
        0 <= pos,
    ensures
        match first_run(rule, k, url, pos) {
            Some(i) => pos <= i <= url.len() && run_stands(rule, k, url, i) && forall|j: int|
                pos <= j < i ==> !run_stands(rule, k, url, j),
            None => forall|j: int| pos <= j <= url.len() ==> !run_stands(rule, k, url, j),
        },
    decreases url.len() + 1 - pos,
{
    if pos <= url.len() && !run_stands(rule, k, url, pos) {
        lemma_first_run(rule, k, url, pos + 1);
    }
}

proof fn lemma_match_cuts(rule: PatternRuleModel, n: int, url: Seq<char>, end: int) -> (cuts: Seq<
    int,
>)
    requires
        0 <= n <= rule.tokens.len(),
        match_end(rule, n, url) == Some(end),
    ensures
        cuts_fit(rule.tokens.take(n), url, cuts),
        cuts.last() == end,
        0 <= end <= url.len(),
        rule.anchor_start ==> cuts[0] == 0,
    decreases n,
{
    if n == 0 {
        seq![0int]
    } else {
        let k = n - 1;
        let pos = match_end(rule, k, url)->0;
        let earlier = lemma_match_cuts(rule, k, url, pos);
        let start = if is_floating(rule, k) {
            match rule.tokens[k] {
                TokenModel::Literal(l) => {
                    text::lemma_first_occurrence(url, l, pos);
                    text::first_occurrence(url, l, pos)->0
                },
                TokenModel::Wildcard => pos,
                TokenModel::Separator => {
                    lemma_first_run(rule, k, url, pos);
                    first_run(rule, k, url, pos)->0
                },
            }
        } else {
            pos
        };
        let cuts = earlier.update(k, start).push(end);
        let tokens = rule.tokens.take(n);
        let before = rule.tokens.take(k);
        assert(tokens[k] == rule.tokens[k]);
        assert(token_fits(tokens[k], url, start, end));
        assert forall|i: int| 0 <= i < n implies token_fits(
            #[trigger] tokens[i],
            url,
            cuts[i],
            cuts[i + 1],
        ) by {
            if i < k {
                assert(before[i] == tokens[i]);
                assert(token_fits(before[i], url, earlier[i], earlier[i + 1]));
            }
        }
        cuts
    }
}

/// Whether no literal of a pattern occurs twice in a URL.
pub open spec fn no_literal_repeats(tokens: Seq<TokenModel>, url: Seq<char>) -> bool {
    forall|k: int, i: int, j: int|
        0 <= k < tokens.len() && tokens[k] is Literal && #[trigger] text::occurs_at(
            url,
            tokens[k]->Literal_0,
            i,
        ) && #[trigger] text::occurs_at(url, tokens[k]->Literal_0, j) ==> i == j
}

/// Matching misses a URL that the pattern fits only where a literal of the pattern
/// occurs in the URL more than once.
pub proof fn only_a_repeated_literal_is_missed(rule: PatternRuleModel, url: Seq<char>)
    requires
        pattern_fits(rule, url),
        no_literal_repeats(rule.tokens, url),
    ensures
        pattern_matches(rule, url),
{
    let cuts = choose|cuts: Seq<int>|
        {
            &&& #[trigger] cuts_fit(rule.tokens, url, cuts)
            &&& rule.anchor_start ==> cuts[0] == 0
            &&& rule.anchor_end ==> cuts.last() == url.len()
        };
    lemma_match_reaches(rule, rule.tokens.len() as int, url, cuts);
}

proof fn lemma_run_stands(rule: PatternRuleModel, k: int, url: Seq<char>, cuts: Seq<int>)
    requires
        0 <= k <= rule.tokens.len(),
        cuts_fit(rule.tokens, url, cuts),
        rule.anchor_end ==> cuts.last() == url.len(),
    ensures
        run_stands(rule, k, url, cuts[k]),
    decreases rule.tokens.len() - k,
{
    if k < rule.tokens.len() {
        assert(token_fits(rule.tokens[k], url, cuts[k], cuts[k + 1]));
        lemma_run_stands(rule, k + 1, url, cuts);
    }
}

proof fn lemma_match_reaches(rule: PatternRuleModel, n: int, url: Seq<char>, cuts: Seq<int>)
    requires
        0 <= n <= rule.tokens.len(),
        cuts_fit(rule.tokens, url, cuts),
        rule.anchor_start ==> cuts[0] == 0,
        rule.anchor_end ==> cuts.last() == url.len(),
        no_literal_repeats(rule.tokens, url),
    ensures
        match_end(rule, n, url) matches Some(end) && 0 <= end <= cuts[n] && (is_floating(rule, n)
            || end == cuts[n] || run_stands(rule, n, url, end)),
    decreases n,
{
    if n > 0 {
        let k = n - 1;
        lemma_match_reaches(rule, k, url, cuts);
        let pos = match_end(rule, k, url)->0;
        assert(token_fits(rule.tokens[k], url, cuts[k], cuts[n]));
        match rule.tokens[k] {
            TokenModel::Literal(l) => {
                assert(text::occurs_at(url, l, cuts[k]));
                text::lemma_first_occurrence(url, l, pos);
                assert(rule.tokens[k]->Literal_0 == l);
            },
            TokenModel::Wildcard => {},
            TokenModel::Separator => {
                lemma_run_stands(rule, k, url, cuts);
                lemma_first_run(rule, k, url, pos);
            },
        }
    }
}

/// Whether a host is a domain, or has a label, or several, and a dot before it.
pub open spec fn is_under(host: Seq<char>, domain: Seq<char>) -> bool {
    host == domain || exists|labels: Seq<char>| host == #[trigger] (labels + "."@ + domain)
}

proof fn lemma_is_under(host: Seq<char>, domain: Seq<char>)
    ensures
        is_under(host, domain) == is_in_domain(domain, host),
{
    let end = "."@ + domain;
    if end.is_suffix_of(host) {
        let labels = host.take(host.len() - end.len());
        assert(host =~= labels + host.subrange(host.len() - end.len(), host.len() as int));
        assert(labels + end =~= labels + "."@ + domain);
    }
    if exists|labels: Seq<char>| host == #[trigger] (labels + "."@ + domain) {
        let labels = choose|labels: Seq<char>| host == #[trigger] (labels + "."@ + domain);
        assert(host =~= labels + end);
        assert(host.subrange(host.len() - end.len(), host.len() as int) =~= end);
    }
}

/// A rule that is limited to some domains applies on the pages of these domains and
/// of all their subdomains, and on no other page. One that spares some domains
/// applies neither on their pages nor on those of their subdomains.
pub proof fn a_scope_holds_for_subdomains(scope: ScopeModel, page: Seq<char>, i: int)
    ensures
        0 <= i < scope.excluded.len() && is_under(page, scope.excluded[i]) ==> !scope_allows(
            scope,
            page,
        ),
        0 <= i < scope.included.len() && is_under(page, scope.included[i]) && (forall|j: int|
            0 <= j < scope.excluded.len() ==> !is_under(page, #[trigger] scope.excluded[j]))
            ==> scope_allows(scope, page),
        scope.included.len() > 0 && (forall|j: int|
            0 <= j < scope.included.len() ==> !is_under(page, #[trigger] scope.included[j]))
            ==> !scope_allows(scope, page),
        scope.included.len() == 0 && (forall|j: int|
            0 <= j < scope.excluded.len() ==> !is_under(page, #[trigger] scope.excluded[j]))
            ==> scope_allows(scope, page),
{
    assert forall|domain: Seq<char>| #[trigger] is_in_domain(domain, page) == is_under(
        page,
        domain,
    ) by {
        lemma_is_under(page, domain);
    }
    if 0 <= i < scope.excluded.len() {
        lemma_is_under(page, scope.excluded[i]);
    }
    if 0 <= i < scope.included.len() {
        lemma_is_under(page, scope.included[i]);
    }
}

/// A scope does not tell a page from one of a subdomain of its host, unless it names
/// a domain that is longer than the host.
pub proof fn a_scope_is_the_same_on_subdomains(
    scope: ScopeModel,
    page: Seq<char>,
    labels: Seq<char>,
)
    requires
        forall|i: int|
            0 <= i < scope.included.len() ==> (#[trigger] scope.included[i]).len() <= page.len(),
        forall|i: int|
            0 <= i < scope.excluded.len() ==> (#[trigger] scope.excluded[i]).len() <= page.len(),
    ensures
        scope_allows(scope, labels + "."@ + page) == scope_allows(scope, page),
{
    let sub = labels + "."@ + page;
    assert forall|i: int| 0 <= i < scope.included.len() implies is_in_domain(
        #[trigger] scope.included[i],
        sub,
    ) == is_in_domain(scope.included[i], page) by {
        lemma_subdomain(scope.included[i], page, labels);
    }
    assert forall|i: int| 0 <= i < scope.excluded.len() implies is_in_domain(
        #[trigger] scope.excluded[i],
        sub,
    ) == is_in_domain(scope.excluded[i], page) by {
        lemma_subdomain(scope.excluded[i], page, labels);
    }
}

proof fn lemma_subdomain(domain: Seq<char>, host: Seq<char>, labels: Seq<char>)
    requires
        domain.len() <= host.len(),
    ensures
        is_in_domain(domain, labels + "."@ + host) == is_in_domain(domain, host),
{
    reveal_strlit(".");
    let sub = labels + "."@ + host;
    if is_in_domain(domain, host) {
        a_domain_covers_its_subdomains(domain, host, labels);
    } else {
        let end = "."@ + domain;
        assert(sub.len() > domain.len());
        if end.is_suffix_of(sub) {
            assert(end.is_suffix_of("."@ + host)) by {
                assert(sub.subrange(sub.len() - end.len(), sub.len() as int) =~= ("."@
                    + host).subrange(host.len() + 1 - end.len(), host.len() as int + 1));
            }
            if domain.len() == host.len() {
                assert(host =~= domain) by {
                    assert(("."@ + host).subrange(0, host.len() as int + 1) =~= "."@ + host);
                    assert(("."@ + host).drop_first() =~= host);
                    assert(end.drop_first() =~= domain);
                }
            } else {
                assert(host.subrange(host.len() - end.len(), host.len() as int) =~= ("."@
                    + host).subrange(host.len() + 1 - end.len(), host.len() as int + 1));
            }
        }
    }
}

/// A rule that names types of resources applies to requests of those types only, as
/// long as the type is known; a rule that names none applies to all.
pub proof fn only_named_types_are_meant(
    options: OptionsModel,
    resource_type: RuleResourceType,
    page_host: Option<Seq<char>>,
)
    ensures
        options.resource_types matches Some(types) && !types.contains(resource_type)
            ==> !options_allow(options, Some(resource_type), page_host),
        options.resource_types matches Some(types) && types.contains(resource_type)
            ==> options_allow(options, Some(resource_type), page_host) == options_allow(
            options,
            None,
            page_host,
        ),
        options.resource_types is None ==> options_allow(options, Some(resource_type), page_host)
            == options_allow(options, None, page_host),
{
}

/// Where the page is known, a rule without a scope applies on it, and one with a scope
/// where the scope holds its host, whatever the case of its letters and the white
/// space around it.
pub proof fn a_page_is_held_against_the_scope(
    options: OptionsModel,
    front: Seq<char>,
    page: Seq<char>,
    back: Seq<char>,
)
    requires
        options.resource_types is None,
        page.len() > 0,
        !text::is_white_space(page.first()),
        !text::is_white_space(page.last()),
        text::is_blank(front),
        text::is_blank(back),
    ensures
        options.domain_scope is None ==> options_allow(options, None, Some(page)),
        options.domain_scope matches Some(scope) ==> options_allow(options, None, Some(page))
            == scope_allows(scope, text::ascii_lower(page)),
        options_allow(options, None, Some(front + page + back)) == options_allow(
            options,
            None,
            Some(page),
        ),
        options_allow(options, None, Some(text::ascii_upper(page))) == options_allow(
            options,
            None,
            Some(page),
        ),
{
    let none = Seq::<char>::empty();
    text::trimming_finds_what_is_inside(front, page, back);
    text::trimming_finds_what_is_inside(none, page, none);
    assert(none + page + none =~= page);
    let upper = text::ascii_upper(page);
    assert(upper.first() == text::ascii_upper_char(page.first()));
    assert(upper.last() == text::ascii_upper_char(page.last()));
    text::trimming_finds_what_is_inside(none, upper, none);
    assert(none + upper + none =~= upper);
    text::case_is_all_that_is_lost(page);
}

/// The list that holds nothing but a block rule for a domain.
pub open spec fn only_domain(rule: DomainRuleModel) -> FilterModel {
    FilterModel { domain_blocks: seq![rule], ..empty_list() }
}

/// The list that holds nothing but a block rule for a pattern.
pub open spec fn only_pattern(rule: PatternRuleModel) -> FilterModel {
    FilterModel { pattern_blocks: seq![rule], ..empty_list() }
}

/// A list blocks what one of its block rules blocks on its own, unless one of its
/// exceptions would block it if it were a block rule.
pub proof fn rules_decide_one_by_one(
    list: FilterModel,
    host: Option<Seq<char>>,
    url: Seq<char>,
    resource_type: Option<RuleResourceType>,
    page_host: Option<Seq<char>>,
)
    ensures
        blocked(list, host, url, resource_type, page_host) <==> {
            &&& (exists|i: int|
                0 <= i < list.domain_blocks.len() && blocked(
                    only_domain(#[trigger] list.domain_blocks[i]),
                    host,
                    url,
                    resource_type,
                    page_host,
                )) || exists|i: int|
                0 <= i < list.pattern_blocks.len() && blocked(
                    only_pattern(#[trigger] list.pattern_blocks[i]),
                    host,
                    url,
                    resource_type,
                    page_host,
                )
            &&& forall|i: int|
                0 <= i < list.domain_exceptions.len() ==> !blocked(
                    only_domain(#[trigger] list.domain_exceptions[i]),
                    host,
                    url,
                    resource_type,
                    page_host,
                )
            &&& forall|i: int|
                0 <= i < list.pattern_exceptions.len() ==> !blocked(
                    only_pattern(#[trigger] list.pattern_exceptions[i]),
                    host,
                    url,
                    resource_type,
                    page_host,
                )
        },
{
    if let Some(h) = host {
        let lower = text::ascii_lower(url);
        let name = text::ascii_lower(h);
        assert forall|r: DomainRuleModel| #[trigger] blocked(
            only_domain(r),
            host,
            url,
            resource_type,
            page_host,
        ) == (is_in_domain(r.domain, name) && options_allow(r.options, resource_type, page_host)) by {
            lemma_only_domain(r, h, url, resource_type, page_host);
        }
        assert forall|r: PatternRuleModel| #[trigger] blocked(
            only_pattern(r),
            host,
            url,
            resource_type,
            page_host,
        ) == (pattern_matches(r, lower) && options_allow(r.options, resource_type, page_host)) by {
            lemma_only_pattern(r, h, url, resource_type, page_host);
        }
        if domain_rules_hit(list.domain_exceptions, name, resource_type, page_host) {
            let i = choose|i: int|
                0 <= i < list.domain_exceptions.len() && is_in_domain(
                    (#[trigger] list.domain_exceptions[i]).domain,
                    name,
                ) && options_allow(list.domain_exceptions[i].options, resource_type, page_host);
            assert(blocked(
                only_domain(list.domain_exceptions[i]),
                host,
                url,
                resource_type,
                page_host,
            ));
        }
        if pattern_rules_hit(list.pattern_exceptions, lower, resource_type, page_host) {
            let i = choose|i: int|
                0 <= i < list.pattern_exceptions.len() && pattern_matches(
                    #[trigger] list.pattern_exceptions[i],
                    lower,
                ) && options_allow(list.pattern_exceptions[i].options, resource_type, page_host);
            assert(blocked(
                only_pattern(list.pattern_exceptions[i]),
                host,
                url,
                resource_type,
                page_host,
            ));
        }
        if domain_rules_hit(list.domain_blocks, name, resource_type, page_host) {
            let i = choose|i: int|
                0 <= i < list.domain_blocks.len() && is_in_domain(
                    (#[trigger] list.domain_blocks[i]).domain,
                    name,
                ) && options_allow(list.domain_blocks[i].options, resource_type, page_host);
            assert(blocked(
                only_domain(list.domain_blocks[i]),
                host,
                url,
                resource_type,
                page_host,
            ));
        }
        if pattern_rules_hit(list.pattern_blocks, lower, resource_type, page_host) {
            let i = choose|i: int|
                0 <= i < list.pattern_blocks.len() && pattern_matches(
                    #[trigger] list.pattern_blocks[i],
                    lower,
                ) && options_allow(list.pattern_blocks[i].options, resource_type, page_host);
            assert(blocked(
                only_pattern(list.pattern_blocks[i]),
                host,
                url,
                resource_type,
                page_host,
            ));
        }
    }
}

proof fn lemma_only_domain(
    rule: DomainRuleModel,
    host: Seq<char>,
    url: Seq<char>,
    resource_type: Option<RuleResourceType>,
    page_host: Option<Seq<char>>,
)
    ensures
        blocked(only_domain(rule), Some(host), url, resource_type, page_host) == (is_in_domain(
            rule.domain,
            text::ascii_lower(host),
        ) && options_allow(rule.options, resource_type, page_host)),
{
    let list = only_domain(rule);
    assert(list.domain_blocks[0] == rule);
}

proof fn lemma_only_pattern(
    rule: PatternRuleModel,
    host: Seq<char>,
    url: Seq<char>,
    resource_type: Option<RuleResourceType>,
    page_host: Option<Seq<char>>,
)
    ensures
        blocked(only_pattern(rule), Some(host), url, resource_type, page_host) == (pattern_matches(
            rule,
            text::ascii_lower(url),
        ) && options_allow(rule.options, resource_type, page_host)),
{
    let list = only_pattern(rule);
    assert(list.pattern_blocks[0] == rule);
}

/// A rule for a domain, on its own, blocks requests to the domain and its subdomains,
/// and no other, wherever its options let it apply. The rest of the URL and the case
/// of the host play no part.
pub proof fn a_domain_rule_blocks_its_domain(
    rule: DomainRuleModel,
    host: Seq<char>,
    url: Seq<char>,
    resource_type: Option<RuleResourceType>,
    page_host: Option<Seq<char>>,
)
    ensures
        blocked(only_domain(rule), Some(host), url, resource_type, page_host) <==> is_under(
            text::ascii_lower(host),
            rule.domain,
        ) && options_allow(rule.options, resource_type, page_host),
{
    lemma_only_domain(rule, host, url, resource_type, page_host);
    lemma_is_under(text::ascii_lower(host), rule.domain);
}

/// A rule for a pattern, on its own, blocks only URLs that the pattern fits in lower
/// case, and only where its options let it apply. It misses one of them only where a
/// literal occurs more than once.
pub proof fn a_pattern_rule_blocks_what_fits(
    rule: PatternRuleModel,
    host: Seq<char>,
    url: Seq<char>,
    resource_type: Option<RuleResourceType>,
    page_host: Option<Seq<char>>,
)
    ensures
        blocked(only_pattern(rule), Some(host), url, resource_type, page_host) ==> pattern_fits(
            rule,
            text::ascii_lower(url),
        ) && options_allow(rule.options, resource_type, page_host),
        pattern_fits(rule, text::ascii_lower(url)) && options_allow(
            rule.options,
            resource_type,
            page_host,
        ) && no_literal_repeats(rule.tokens, text::ascii_lower(url)) ==> blocked(
            only_pattern(rule),
            Some(host),
            url,
            resource_type,
            page_host,
        ),
{
    lemma_only_pattern(rule, host, url, resource_type, page_host);
    let lower = text::ascii_lower(url);
    if pattern_matches(rule, lower) {
        matching_never_goes_too_far(rule, lower);
    }
    if pattern_fits(rule, lower) && no_literal_repeats(rule.tokens, lower) {
        only_a_repeated_literal_is_missed(rule, lower);
    }
}

/// The case of a URL and of its host never decides.
pub proof fn case_never_decides(
    list: FilterModel,
    host: Seq<char>,
    url: Seq<char>,
    resource_type: Option<RuleResourceType>,
    page_host: Option<Seq<char>>,
)
    ensures
        blocked(
            list,
            Some(text::ascii_upper(host)),
            text::ascii_upper(url),
            resource_type,
            page_host,
        ) == blocked(list, Some(host), url, resource_type, page_host),
{
    text::case_is_all_that_is_lost(host);
    text::case_is_all_that_is_lost(url);
}

/// A separator is what cannot be part of a name or of an escaped character: neither
/// a letter or digit of ASCII, nor a dot, hyphen, underscore or percent sign. Every
/// domain name is free of separators.
pub proof fn separators_stand_between_names(c: char, domain: Seq<char>, i: int)
    ensures
        'a' <= c <= 'z' || 'A' <= c <= 'Z' || '0' <= c <= '9' || c == '.' || c == '-' || c == '_'
            || c == '%' <==> !is_separator(c),
        is_domain_text(domain) && 0 <= i < domain.len() ==> !is_separator(domain[i]),
{
    if is_domain_text(domain) && 0 <= i < domain.len() {
        assert(is_domain_char(domain[i]));
    }
}

/// How a token is written in a pattern.
pub open spec fn token_text(token: TokenModel) -> Seq<char> {
    match token {
        TokenModel::Literal(l) => l,
        TokenModel::Wildcard => seq!['*'],
        TokenModel::Separator => seq!['^'],
    }
}

/// How tokens are written in a pattern.
pub open spec fn tokens_text(tokens: Seq<TokenModel>) -> Seq<char>
    decreases tokens.len(),
{
    if tokens.len() == 0 {
        Seq::empty()
    } else {
        token_text(tokens[0]) + tokens_text(tokens.drop_first())
    }
}

/// A pattern without two `*` in a row is what its tokens are written as.
pub proof fn a_pattern_is_its_tokens(s: Seq<char>)
    requires
        forall|i: int| 0 <= i < s.len() - 1 ==> !(#[trigger] s[i] == '*' && s[i + 1] == '*'),
    ensures
        tokens_text(tokens_of(s)) == s,
        forall|i: int|
            0 <= i < tokens_of(s).len() ==> match #[trigger] tokens_of(s)[i] {
                TokenModel::Literal(l) => l.len() > 0 && !l.contains('*') && !l.contains('^'),
                _ => true,
            },
    decreases s.len(),
{
    if s.len() > 0 {
        lemma_run_bounds(s);
        let tokens = tokens_of(s);
        let n: int = if s.first() == '*' {
            star_len(s) as int
        } else if s.first() == '^' {
            1
        } else {
            literal_len(s) as int
        };
        if s.first() == '*' {
            assert(star_len(s) == 1 + star_len(s.drop_first()));
            if s.len() > 1 {
                assert(s.drop_first().first() == s[1]);
                assert(!(s[0] == '*' && s[1] == '*'));
            }
            assert(star_len(s.drop_first()) == 0);
            assert(s.take(1) =~= seq!['*']);
        } else if s.first() == '^' {
            assert(s.take(1) =~= seq!['^']);
        } else {
            lemma_literal_is_plain(s);
        }
        let rest = s.skip(n);
        assert forall|i: int| 0 <= i < rest.len() - 1 implies !(#[trigger] rest[i] == '*' && rest[i
            + 1] == '*') by {
            assert(rest[i] == s[n + i]);
            assert(rest[i + 1] == s[n + i + 1]);
        }
        a_pattern_is_its_tokens(rest);
        assert(tokens.drop_first() =~= tokens_of(rest));
        assert(token_text(tokens[0]) == s.take(n));
        assert(s.take(n) + rest =~= s);
        assert forall|i: int| 0 <= i < tokens.len() implies match #[trigger] tokens[i] {
            TokenModel::Literal(l) => l.len() > 0 && !l.contains('*') && !l.contains('^'),
            _ => true,
        } by {
            if i > 0 {
                assert(tokens[i] == tokens_of(rest)[i - 1]);
            }
        }
    }
}

proof fn lemma_literal_is_plain(s: Seq<char>)
    ensures
        literal_len(s) <= s.len(),
        forall|i: int| 0 <= i < literal_len(s) ==> #[trigger] s[i] != '*' && s[i] != '^',
    decreases s.len(),
{
    if s.len() > 0 && s.first() != '*' && s.first() != '^' {
        let rest = s.drop_first();
        lemma_literal_is_plain(rest);
        assert forall|i: int| 0 <= i < literal_len(s) implies #[trigger] s[i] != '*' && s[i]
            != '^' by {
            if i > 0 {
                assert(rest[i - 1] == s[i]);
            }
        }
    }
}

/// A single domain in a `domain=` option limits the rule to it, and spares it where a
/// `~` stands before it.
pub proof fn a_domain_is_included_or_spared(domain: Seq<char>)
    requires
        domain.len() > 0,
        forall|i: int|
            0 <= i < domain.len() ==> 'a' <= #[trigger] domain[i] <= 'z' || 'A' <= domain[i] <= 'Z'
                || '0' <= domain[i] <= '9' || domain[i] == '.' || domain[i] == '-' || domain[i]
                == '_',
    ensures
        scope_of(domain) matches Some(scope) && scope.included == seq![text::ascii_lower(domain)]
            && scope.excluded.len() == 0,
        scope_of(seq!['~'] + domain) matches Some(scope) && scope.excluded == seq![
            text::ascii_lower(domain),
        ] && scope.included.len() == 0,
{
    let none = Seq::<char>::empty();
    let spared = seq!['~'] + domain;
    assert(is_domain_text(domain));
    assert forall|i: int| 0 <= i < spared.len() implies #[trigger] spared[i] != '|' by {
        if i > 0 {
            assert(spared[i] == domain[i - 1]);
        }
    }
    text::a_text_without_separators_is_one_part(domain, '|');
    text::a_text_without_separators_is_one_part(spared, '|');
    assert(!text::is_white_space(domain[0]) && !text::is_white_space(domain[domain.len() - 1]));
    text::trimming_finds_what_is_inside(none, domain, none);
    text::trimming_finds_what_is_inside(none, spared, none);
    assert(none + domain + none =~= domain);
    assert(none + spared + none =~= spared);
    assert(spared.drop_first() =~= domain);
    assert(domain[0] != '~');
    let parts = scope_parts(domain);
    let spared_parts = scope_parts(spared);
    assert(parts =~= seq![ScopePart::Included(text::ascii_lower(domain))]);
    assert(spared_parts =~= seq![ScopePart::Excluded(text::ascii_lower(domain))]);
    assert(parts.drop_last() =~= Seq::empty());
    assert(spared_parts.drop_last() =~= Seq::empty());
    assert(included_in(parts.drop_last()) =~= Seq::empty());
    assert(excluded_in(parts.drop_last()) =~= Seq::empty());
    assert(included_in(spared_parts.drop_last()) =~= Seq::empty());
    assert(excluded_in(spared_parts.drop_last()) =~= Seq::empty());
    assert(included_in(parts) =~= seq![text::ascii_lower(domain)]);
    assert(excluded_in(spared_parts) =~= seq![text::ascii_lower(domain)]);
}

/// A `|` between the domains of two `domain=` options says what both say.
pub proof fn scopes_add_up(a: Seq<char>, b: Seq<char>)
    requires
        scope_of(a) is Some,
        scope_of(b) is Some,
    ensures
        scope_of(a + seq!['|'] + b) matches Some(scope) && scope.included == (
        scope_of(a)->0).included + (scope_of(b)->0).included && scope.excluded == (
        scope_of(a)->0).excluded + (scope_of(b)->0).excluded,
{
    text::a_separator_parts_two_texts(a, '|', b);
    let parts = scope_parts(a + seq!['|'] + b);
    assert(parts =~= scope_parts(a) + scope_parts(b));
    lemma_scope_parts_add_up(scope_parts(a), scope_parts(b));
    assert forall|i: int| 0 <= i < parts.len() implies !(#[trigger] parts[i] is Invalid) by {
        if i < scope_parts(a).len() {
            assert(parts[i] == scope_parts(a)[i]);
        } else {
            assert(parts[i] == scope_parts(b)[i - scope_parts(a).len()]);
        }
    }
}

proof fn lemma_scope_parts_add_up(a: Seq<ScopePart>, b: Seq<ScopePart>)
    ensures
        included_in(a + b) == included_in(a) + included_in(b),
        excluded_in(a + b) == excluded_in(a) + excluded_in(b),
    decreases b.len(),
{
    if b.len() == 0 {
        assert(a + b =~= a);
        assert(included_in(a) + included_in(b) =~= included_in(a));
        assert(excluded_in(a) + excluded_in(b) =~= excluded_in(a));
    } else {
        assert((a + b).drop_last() =~= a + b.drop_last());
        lemma_scope_parts_add_up(a, b.drop_last());
        assert(included_in(a + b) =~= included_in(a) + included_in(b));
        assert(excluded_in(a + b) =~= excluded_in(a) + excluded_in(b));
    }
}

/// A comma between two option lists says what both say: all their types, and of the
/// pages what the first says, or else what the second says.
pub proof fn options_add_up(a: Seq<char>, b: Seq<char>)
    requires
        options_of(a) is Some,
        options_of(b) is Some,
    ensures
        ({
            let x = options_of(a)->0;
            let y = options_of(b)->0;
            let both = options_of(a + seq![','] + b);
            &&& both is Some
            &&& (both->0).domain_scope == if x.domain_scope is Some {
                x.domain_scope
            } else {
                y.domain_scope
            }
            &&& x.resource_types is None ==> (both->0).resource_types == y.resource_types
            &&& y.resource_types is None ==> (both->0).resource_types == x.resource_types
            &&& x.resource_types is Some && y.resource_types is Some ==> (both->0).resource_types
                == Some(x.resource_types->0 + y.resource_types->0)
        }),
{
    text::a_separator_parts_two_texts(a, ',', b);
    let tokens = option_tokens(a + seq![','] + b);
    assert(tokens =~= option_tokens(a) + option_tokens(b));
    lemma_option_tokens_add_up(option_tokens(a), option_tokens(b));
    assert forall|i: int| 0 <= i < tokens.len() implies !(#[trigger] tokens[i] is Unsupported) by {
        if i < option_tokens(a).len() {
            assert(tokens[i] == option_tokens(a)[i]);
        } else {
            assert(tokens[i] == option_tokens(b)[i - option_tokens(a).len()]);
        }
    }
    assert(types_in(option_tokens(a)).len() == 0 ==> types_in(tokens) =~= types_in(
        option_tokens(b),
    ));
    assert(types_in(option_tokens(b)).len() == 0 ==> types_in(tokens) =~= types_in(
        option_tokens(a),
    ));
}

proof fn lemma_option_tokens_add_up(a: Seq<OptionToken>, b: Seq<OptionToken>)
    ensures
        types_in(a + b) == types_in(a) + types_in(b),
        first_domains(a + b) == if first_domains(a) is Some {
            first_domains(a)
        } else {
            first_domains(b)
        },
    decreases b.len(),
{
    if b.len() == 0 {
        assert(a + b =~= a);
        assert(types_in(a) + types_in(b) =~= types_in(a));
    } else {
        assert((a + b).drop_last() =~= a + b.drop_last());
        lemma_option_tokens_add_up(a, b.drop_last());
        assert(types_in(a + b) =~= types_in(a) + types_in(b));
    }
}

/// An option that is not understood, or is malformed, drops the whole list, wherever
/// in it it stands.
pub proof fn one_unknown_option_drops_all(a: Seq<char>, b: Seq<char>, i: int)
    requires
        0 <= i < option_tokens(b).len(),
        option_tokens(b)[i] is Unsupported,
    ensures
        options_of(b) is None,
        options_of(a + seq![','] + b) is None,
        options_of(b + seq![','] + a) is None,
{
    text::a_separator_parts_two_texts(a, ',', b);
    text::a_separator_parts_two_texts(b, ',', a);
    let first = option_tokens(a + seq![','] + b);
    let second = option_tokens(b + seq![','] + a);
    assert(first =~= option_tokens(a) + option_tokens(b));
    assert(second =~= option_tokens(b) + option_tokens(a));
    assert(first[option_tokens(a).len() + i] is Unsupported);
    assert(second[i] is Unsupported);
}

/// The keyword of a type of resource, and the shorter one that it may have.
pub open spec fn type_keywords(t: RuleResourceType) -> (Seq<char>, Seq<char>) {
    match t {
        RuleResourceType::Script => ("script"@, "script"@),
        RuleResourceType::Image => ("image"@, "image"@),
        RuleResourceType::Stylesheet => ("stylesheet"@, "css"@),
        RuleResourceType::Object => ("object"@, "object"@),
        RuleResourceType::XmlHttpRequest => ("xmlhttprequest"@, "xhr"@),
        RuleResourceType::SubDocument => ("subdocument"@, "frame"@),
        RuleResourceType::Font => ("font"@, "font"@),
        RuleResourceType::Media => ("media"@, "media"@),
        RuleResourceType::WebSocket => ("websocket"@, "websocket"@),
        RuleResourceType::Ping => ("ping"@, "beacon"@),
        RuleResourceType::Popup => ("popup"@, "popup"@),
        RuleResourceType::Document => ("document"@, "doc"@),
        RuleResourceType::Other => ("other"@, "other"@),
    }
}

/// Every type of resource is named by its keywords, and no other type is.
pub proof fn a_keyword_names_its_type(t: RuleResourceType)
    ensures
        keyword_type(type_keywords(t).0) == Some(t),
        keyword_type(type_keywords(t).1) == Some(t),
{
    reveal_strlit("script");
    reveal_strlit("image");
    reveal_strlit("stylesheet");
    reveal_strlit("css");
    reveal_strlit("object");
    reveal_strlit("object-subrequest");
    reveal_strlit("xmlhttprequest");
    reveal_strlit("xhr");
    reveal_strlit("subdocument");
    reveal_strlit("frame");
    reveal_strlit("font");
    reveal_strlit("media");
    reveal_strlit("websocket");
    reveal_strlit("ping");
    reveal_strlit("beacon");
    reveal_strlit("popup");
    reveal_strlit("document");
    reveal_strlit("doc");
    reveal_strlit("other");
    assert("script"@.len() == 6 && "object"@.len() == 6 && "beacon"@.len() == 6);
    assert("script"@[0] == 's' && "object"@[0] == 'o' && "beacon"@[0] == 'b');
    assert("image"@.len() == 5 && "frame"@.len() == 5 && "media"@.len() == 5 && "popup"@.len() == 5
        && "other"@.len() == 5);
    assert("image"@[0] == 'i' && "frame"@[0] == 'f' && "media"@[0] == 'm' && "popup"@[0] == 'p'
        && "other"@[0] == 'o');
    assert("stylesheet"@.len() == 10 && "object-subrequest"@.len() == 17 && "xmlhttprequest"@.len()
        == 14 && "subdocument"@.len() == 11 && "websocket"@.len() == 9 && "document"@.len() == 8);
    assert("font"@.len() == 4 && "ping"@.len() == 4 && "css"@.len() == 3 && "xhr"@.len() == 3
        && "doc"@.len() == 3);
    assert("font"@[0] == 'f' && "ping"@[0] == 'p' && "css"@[0] == 'c' && "xhr"@[0] == 'x'
        && "doc"@[0] == 'd');
}

/// What is ignored of a list: comments, headers, rules about the content of a page,
/// blank lines and lines that are too long, whatever else stands in them.
pub proof fn what_is_no_rule_is_ignored(line: Seq<char>)
    requires
        ({
            let t = text::trimmed(line);
            ||| text::byte_len(line) > 8 * 1024
            ||| t.len() == 0
            ||| t[0] == '!'
            ||| t[0] == '[' && t.last() == ']'
            ||| exists|front: Seq<char>, back: Seq<char>| t == #[trigger] (front + "##"@ + back)
            ||| exists|front: Seq<char>, back: Seq<char>| t == #[trigger] (front + "#@#"@ + back)
            ||| exists|front: Seq<char>, back: Seq<char>| t == #[trigger] (front + "#$#"@ + back)
            ||| exists|front: Seq<char>, back: Seq<char>| t == #[trigger] (front + "#%#"@ + back)
            ||| exists|front: Seq<char>, back: Seq<char>| t == #[trigger] (front + "#?#"@ + back)
        }),
    ensures
        parsed_line(line) is Ignored,
{
    let t = text::trimmed(line);
    text::a_text_holds_its_parts(t, "##"@);
    text::a_text_holds_its_parts(t, "#@#"@);
    text::a_text_holds_its_parts(t, "#$#"@);
    text::a_text_holds_its_parts(t, "#%#"@);
    text::a_text_holds_its_parts(t, "#?#"@);
}

/// Anchors are read off a pattern at its ends and leave the rest of it.
pub proof fn anchors_stand_at_the_ends(body: Seq<char>)
    requires
        body.len() > 0,
        body.first() != '|',
        body.last() != '|',
    ensures
        pattern_anchors(body) == (false, false, body),
        pattern_anchors(seq!['|'] + body) == (true, false, body),
        pattern_anchors(body + seq!['|']) == (false, true, body),
        pattern_anchors(seq!['|'] + body + seq!['|']) == (true, true, body),
{
    assert((seq!['|'] + body).drop_first() =~= body);
    assert((body + seq!['|']).drop_last() =~= body);
    let both = seq!['|'] + body + seq!['|'];
    assert(both.drop_first() =~= body + seq!['|']);
}

/// A list of lines is read line by line, for as long as there is room: a line after
/// the others adds what it says, or nothing once the list is full.
pub proof fn a_line_adds_one_rule_at_most(list: FilterModel, lines: Seq<Seq<char>>, line: Seq<char>)
    ensures
        ({
            let before = with_lines(list, lines);
            let after = with_lines(list, lines.push(line));
            &&& rule_total(after) <= rule_total(before) + 1
            &&& rule_total(before) >= 300_000 ==> after == before
            &&& rule_total(before) < 300_000 ==> match parsed_line(line) {
                LineModel::DomainBlock(r) => after.domain_blocks == before.domain_blocks.push(r)
                    && rule_total(after) == rule_total(before) + 1,
                LineModel::DomainException(r) => after.domain_exceptions
                    == before.domain_exceptions.push(r) && rule_total(after) == rule_total(before)
                    + 1,
                LineModel::PatternBlock(r) => after.pattern_blocks == before.pattern_blocks.push(r)
                    && rule_total(after) == rule_total(before) + 1,
                LineModel::PatternException(r) => after.pattern_exceptions
                    == before.pattern_exceptions.push(r) && rule_total(after) == rule_total(before)
                    + 1,
                LineModel::Ignored => after == before,
            }
        }),
{
    assert(lines.push(line).drop_last() =~= lines);
}

proof fn lemma_not_cosmetic(line: Seq<char>)
    requires
        !line.contains('#'),
    ensures
        !is_cosmetic(line),
{
    reveal_strlit("##");
    reveal_strlit("#@#");
    reveal_strlit("#$#");
    reveal_strlit("#%#");
    reveal_strlit("#?#");
    assert forall|needle: Seq<char>|
        needle.len() > 0 && needle[0] == '#' implies !#[trigger] text::contains_text(
        line,
        needle,
    ) by {
        if text::contains_text(line, needle) {
            let i = choose|i: int| text::occurs_at(line, needle, i);
            assert(line.subrange(i, i + needle.len())[0] == line[i]);
            assert(line.contains(line[i]));
        }
    }
}

/// `@@` before a rule makes an exception of it: the same rule, to the opposite
/// effect.
pub proof fn an_exception_is_a_rule_with_a_mark(rule: Seq<char>)
    requires
        rule.len() > 0,
        !text::is_white_space(rule.first()),
        !text::is_white_space(rule.last()),
        !rule.contains('#'),
        !"@@"@.is_prefix_of(rule),
        rule[0] != '!',
        rule[0] != '[',
        text::byte_len(rule) <= 8 * 1024,
        text::byte_len("@@"@ + rule) <= 8 * 1024,
    ensures
        match parsed_line(rule) {
            LineModel::DomainBlock(r) => parsed_line("@@"@ + rule) == LineModel::DomainException(r),
            LineModel::PatternBlock(r) => parsed_line("@@"@ + rule) == LineModel::PatternException(
                r,
            ),
            LineModel::Ignored => parsed_line("@@"@ + rule) is Ignored,
            _ => false,
        },
{
    reveal_strlit("@@");
    let none = Seq::<char>::empty();
    let marked = "@@"@ + rule;
    text::trimming_finds_what_is_inside(none, rule, none);
    text::trimming_finds_what_is_inside(none, marked, none);
    assert(none + rule + none =~= rule);
    assert(none + marked + none =~= marked);
    assert(!marked.contains('#')) by {
        assert forall|i: int| 0 <= i < marked.len() implies marked[i] != '#' by {
            if i >= 2 {
                assert(marked[i] == rule[i - 2]);
                assert(rule.contains(rule[i - 2]));
            }
        }
    }
    lemma_not_cosmetic(rule);
    lemma_not_cosmetic(marked);
    assert(marked.take(2) =~= "@@"@);
    assert(marked.skip(2) =~= rule);
}

/// A line that holds `||`, a domain and `^` is a rule for the domain in lower case,
/// with what the option list behind a `$` says, if there is one.
pub proof fn a_domain_line_is_a_rule_for_the_domain(domain: Seq<char>, options: Seq<char>)
    requires
        domain.len() > 0,
        forall|i: int|
            0 <= i < domain.len() ==> 'a' <= #[trigger] domain[i] <= 'z' || 'A' <= domain[i] <= 'Z'
                || '0' <= domain[i] <= '9' || domain[i] == '.' || domain[i] == '-' || domain[i]
                == '_',
        options.len() > 0,
        forall|i: int|
            0 <= i < options.len() ==> #[trigger] options[i] != '#' && !text::is_white_space(
                options[i],
            ),
        !options.contains('$'),
        is_option_list(options),
        text::byte_len("||"@ + domain + "^"@) <= 8 * 1024,
        text::byte_len("||"@ + domain + "^$"@ + options) <= 8 * 1024,
    ensures
        parsed_line("||"@ + domain + "^"@) == LineModel::DomainBlock(
            DomainRuleModel {
                domain: text::ascii_lower(domain),
                options: OptionsModel { resource_types: None, domain_scope: None },
            },
        ),
        parsed_line("||"@ + domain + "^$"@ + options) == match options_of(options) {
            Some(o) => LineModel::DomainBlock(
                DomainRuleModel { domain: text::ascii_lower(domain), options: o },
            ),
            None => LineModel::Ignored,
        },
{
    reveal_strlit("||");
    reveal_strlit("^");
    reveal_strlit("$");
    reveal_strlit("^$");
    let none = Seq::<char>::empty();
    let plain = "||"@ + domain + "^"@;
    let tail = "$"@ + options;
    assert(plain + none =~= plain);
    assert(plain + tail =~= "||"@ + domain + "^$"@ + options);
    assert(tail.last() == options[options.len() - 1]);
    assert forall|i: int| 0 <= i < tail.len() implies tail[i] != '#' by {
        if i > 0 {
            assert(tail[i] == options[i - 1]);
        }
    }
    lemma_domain_line_is_read(domain, none);
    lemma_domain_line_is_read(domain, tail);
    assert(!plain.contains('$')) by {
        assert forall|i: int| 0 <= i < plain.len() implies plain[i] != '$' by {
            if 2 <= i < 2 + domain.len() {
                assert(plain[i] == domain[i - 2]);
            }
        }
    }
    lemma_options_are_split_off(plain, options);
    lemma_domain_rule_is_read(domain);
}

/// What follows the only `$` of a rule is its option list.
proof fn lemma_options_are_split_off(pattern: Seq<char>, options: Seq<char>)
    requires
        !pattern.contains('$'),
        !options.contains('$'),
        options.len() > 0,
        is_option_list(options),
    ensures
        split_rule(pattern) == (pattern, None::<Seq<char>>),
        split_rule(pattern + ("$"@ + options)) == (pattern, Some(options)),
{
    reveal_strlit("$");
    let full = pattern + ("$"@ + options);
    let n = pattern.len() as int;
    text::lemma_last_position_of(pattern, '$');
    text::lemma_last_position_of(full, '$');
    assert(full[n] == '$');
    assert(full.contains(full[n]));
    if let Some(i) = text::last_position_of(pattern, '$') {
        assert(pattern.contains(pattern[i]));
    }
    let i = text::last_position_of(full, '$')->0;
    if i > n {
        assert(full[i] == options[i - n - 1]);
        assert(options.contains(options[i - n - 1]));
    }
    assert(full.take(n) =~= pattern);
    assert(full.skip(n + 1) =~= options);
}

/// A line with a rule for a domain is taken for a rule, whatever follows the domain.
proof fn lemma_domain_line_is_read(domain: Seq<char>, rest: Seq<char>)
    requires
        forall|i: int|
            0 <= i < domain.len() ==> 'a' <= #[trigger] domain[i] <= 'z' || 'A' <= domain[i] <= 'Z'
                || '0' <= domain[i] <= '9' || domain[i] == '.' || domain[i] == '-' || domain[i]
                == '_',
        rest.len() > 0 ==> !text::is_white_space(rest.last()),
        forall|i: int| 0 <= i < rest.len() ==> rest[i] != '#',
        text::byte_len("||"@ + domain + "^"@ + rest) <= 8 * 1024,
    ensures
        parsed_line("||"@ + domain + "^"@ + rest) == rule_of("||"@ + domain + "^"@ + rest, false),
{
    reveal_strlit("||");
    reveal_strlit("^");
    reveal_strlit("@@");
    let none = Seq::<char>::empty();
    let line = "||"@ + domain + "^"@ + rest;
    let n = domain.len() as int;
    assert forall|i: int| 0 <= i < line.len() implies line[i] != '#' by {
        if 2 <= i < 2 + n {
            assert(line[i] == domain[i - 2]);
        } else if i >= 3 + n {
            assert(line[i] == rest[i - n - 3]);
        }
    }
    assert(line.first() == '|');
    assert(line.last() == if rest.len() > 0 {
        rest.last()
    } else {
        '^'
    });
    lemma_not_cosmetic(line);
    text::trimming_finds_what_is_inside(none, line, none);
    assert(none + line + none =~= line);
    assert(!"@@"@.is_prefix_of(line)) by {
        if "@@"@.is_prefix_of(line) {
            assert(line.take(2)[0] == '@');
        }
    }
}

/// The domain of a rule is read off the pattern.
proof fn lemma_domain_rule_is_read(domain: Seq<char>)
    requires
        domain.len() > 0,
        forall|i: int|
            0 <= i < domain.len() ==> 'a' <= #[trigger] domain[i] <= 'z' || 'A' <= domain[i] <= 'Z'
                || '0' <= domain[i] <= '9' || domain[i] == '.' || domain[i] == '-' || domain[i]
                == '_',
    ensures
        ({
            let pattern = "||"@ + domain + "^"@;
            &&& pattern.len() > 0
            &&& !is_regex(pattern)
            &&& "||"@.is_prefix_of(pattern)
            &&& anchored_domain(pattern.skip(2)) == Some(text::ascii_lower(domain))
        }),
{
    reveal_strlit("||");
    reveal_strlit("^");
    let none = Seq::<char>::empty();
    let n = domain.len() as int;
    let pattern = "||"@ + domain + "^"@;
    assert(pattern[0] == '|' && pattern[1] == '|');
    assert(pattern.take(2) =~= "||"@);
    let body = pattern.skip(2);
    assert(body =~= domain + "^"@);
    text::lemma_position_of(body, '^', 0);
    text::lemma_position_of(body, '/', 0);
    assert forall|i: int| 0 <= i < n implies body[i] == domain[i] by {}
    assert(body[n] == '^');
    assert(text::position_of(body, '^', 0) == n) by {
        let caret = text::position_of(body, '^', 0);
        if caret < n {
            assert(body[caret] == domain[caret]);
        }
    }
    assert(text::position_of(body, '/', 0) > n) by {
        let slash = text::position_of(body, '/', 0);
        if slash < n {
            assert(body[slash] == domain[slash]);
        }
    }
    assert(body.take(n) =~= domain);
    assert(!text::is_white_space(domain[0]) && !text::is_white_space(domain[n - 1]));
    text::trimming_finds_what_is_inside(none, domain, none);
    assert(none + domain + none =~= domain);
    let lower = text::ascii_lower(domain);
    assert forall|i: int| 0 <= i < lower.len() implies is_domain_char(#[trigger] lower[i]) by {
        assert(lower[i] == text::ascii_lower_char(domain[i]));
    }
}

/// The keywords that say nothing of what a rule is for.
pub open spec fn neutral_keywords() -> Seq<Seq<char>> {
    seq![
        "1p"@,
        "3p"@,
        "all"@,
        "empty"@,
        "first-party"@,
        "important"@,
        "match-case"@,
        "mp4"@,
        "third-party"@,
    ]
}

/// The neutral keywords are these, and there are no others.
pub proof fn neutral_keywords_say_nothing(k: Seq<char>)
    ensures
        neutral_keywords().contains(k) <==> is_neutral_keyword(k),
{
    let all = neutral_keywords();
    if is_neutral_keyword(k) {
        assert(k == all[0] || k == all[1] || k == all[2] || k == all[3] || k == all[4] || k == all[5]
            || k == all[6] || k == all[7] || k == all[8]);
    }
}

/// What may be an option starts with a letter, and holds nothing but letters, digits,
/// `-` and `_` up to an equals sign; what stands behind that does not matter.
pub proof fn an_option_is_a_word(word: Seq<char>, value: Seq<char>)
    requires
        word.len() > 0,
        !word.contains('='),
        'a' <= word[0] <= 'z',
        value.len() == 0 || value[0] == '=',
    ensures
        is_option_shaped(word + value) <==> is_neutral_keyword(word + value) || forall|j: int|
            0 <= j < word.len() ==> ('a' <= #[trigger] word[j] <= 'z' || 'A' <= word[j] <= 'Z'
                || '0' <= word[j] <= '9' || word[j] == '-' || word[j] == '_'),
{
    let token = word + value;
    assert(token[0] == word[0]);
    text::lemma_position_of(token, '=', 1);
    let end = text::position_of(token, '=', 1);
    if end < word.len() {
        assert(word[end] == '=');
    }
    if value.len() > 0 {
        assert(token[word.len() as int] == '=');
    }
    assert(end == word.len());
    if forall|j: int| 1 <= j < end ==> is_keyword_char(#[trigger] token[j]) {
        assert forall|j: int| 0 <= j < word.len() implies ('a' <= #[trigger] word[j] <= 'z' || 'A'
            <= word[j] <= 'Z' || '0' <= word[j] <= '9' || word[j] == '-' || word[j] == '_') by {
            assert(token[j] == word[j]);
            if j > 0 {
                assert(is_keyword_char(token[j]));
            }
        }
    }
    if forall|j: int|
        0 <= j < word.len() ==> ('a' <= #[trigger] word[j] <= 'z' || 'A' <= word[j] <= 'Z' || '0'
            <= word[j] <= '9' || word[j] == '-' || word[j] == '_') {
        assert forall|j: int| 1 <= j < end implies is_keyword_char(#[trigger] token[j]) by {
            assert(token[j] == word[j]);
        }
    }
}

/// What follows the last `$` of a rule are its options where it reads as such: words
/// with commas between them, some of which may be empty. A `$` at the end of a rule
/// belongs to the pattern.
pub proof fn options_follow_the_last_mark(pattern: Seq<char>, options: Seq<char>)
    requires
        !options.contains('$'),
    ensures
        options.len() > 0 && (forall|i: int|
            0 <= i < text::split_parts(options, ',').len() ==> (#[trigger] text::split_parts(
                options,
                ',',
            )[i]).len() == 0 || is_option_shaped(text::split_parts(options, ',')[i]))
            ==> split_rule(pattern + seq!['$'] + options) == (pattern, Some(options)),
        (exists|i: int|
            0 <= i < text::split_parts(options, ',').len() && (#[trigger] text::split_parts(
                options,
                ',',
            )[i]).len() > 0 && !is_option_shaped(text::split_parts(options, ',')[i]))
            ==> split_rule(pattern + seq!['$'] + options) == (
            pattern + seq!['$'] + options,
            None::<Seq<char>>,
        ),
        split_rule(pattern + seq!['$']) == (pattern + seq!['$'], None::<Seq<char>>),
        split_rule(options) == (options, None::<Seq<char>>),
{
    let rule = pattern + seq!['$'] + options;
    let bare = pattern + seq!['$'];
    text::lemma_last_position_of(rule, '$');
    text::lemma_last_position_of(bare, '$');
    text::lemma_last_position_of(options, '$');
    assert(rule[pattern.len() as int] == '$');
    assert(bare[pattern.len() as int] == '$');
    let p = text::last_position_of(rule, '$')->0;
    if p > pattern.len() {
        assert(options[p - pattern.len() - 1] == '$');
        assert(options.contains('$'));
    }
    assert(rule.take(p) =~= pattern);
    assert(rule.skip(p + 1) =~= options);
    match text::last_position_of(options, '$') {
        Some(i) => {
            assert(options.contains(options[i]));
        },
        None => {},
    }
}

} // verus!
