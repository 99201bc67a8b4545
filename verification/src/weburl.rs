//! URLs as plain values: what the `url` crate makes of a text, with the parts
//! of the result that the library reads.

use url::{Host, Url};
use vstd::prelude::*;

verus! {

/// The host of a URL.
#[derive(Debug, Clone)]
pub enum UrlHost {
    Domain(String),
    /// An address as one number, most significant byte first.
    Ipv4(u32),
    /// An address as one number, most significant byte first.
    Ipv6(u128),
}

/// A parsed URL.
#[derive(Debug, Clone)]
pub struct ParsedUrl {
    /// The serialization of the whole URL.
    pub text: String,
    pub scheme: String,
    pub host: Option<UrlHost>,
    /// The serialization of the host.
    pub host_text: Option<String>,
}

/// What a [`UrlHost`] stands for.
pub enum HostModel {
    Domain(Seq<char>),
    Ipv4(u32),
    Ipv6(u128),
}

/// What a [`ParsedUrl`] stands for.
pub struct UrlModel {
    pub text: Seq<char>,
    pub scheme: Seq<char>,
    pub host: Option<HostModel>,
    pub host_text: Option<Seq<char>>,
}

impl View for UrlHost {
    type V = HostModel;

    open spec fn view(&self) -> HostModel {
        match self {
            UrlHost::Domain(d) => HostModel::Domain(d@),
            UrlHost::Ipv4(a) => HostModel::Ipv4(*a),
            UrlHost::Ipv6(a) => HostModel::Ipv6(*a),
        }
    }
}

impl View for ParsedUrl {
    type V = UrlModel;

    open spec fn view(&self) -> UrlModel {
        UrlModel {
            text: self.text@,
            scheme: self.scheme@,
            host: match self.host {
                Some(h) => Some(h@),
                None => None,
            },
            host_text: opt_text(self.host_text),
        }
    }
}

/// The content of an optional string.
pub open spec fn opt_text(s: Option<String>) -> Option<Seq<char>> {
    match s {
        Some(t) => Some(t@),
        None => None,
    }
}

/// What an optional parse result stands for.
pub open spec fn opt_url(u: Option<ParsedUrl>) -> Option<UrlModel> {
    match u {
        Some(p) => Some(p@),
        None => None,
    }
}

/// The URL that `url::Url::parse` reads from a text; `None` where it refuses.
pub uninterp spec fn parsed_url(text: Seq<char>) -> Option<UrlModel>;

/// The serialization that the URL read from a text has once
/// `url::Url::set_scheme` has replaced its scheme; `None` where either refuses.
pub uninterp spec fn text_with_scheme(text: Seq<char>, scheme: Seq<char>) -> Option<Seq<char>>;

/// `url::Url::parse`, with the parts of its result as plain values.
///
/// Claimed of it: the result depends on the text alone; the serialization
/// starts with the scheme and a colon; and a text that starts with `https://`
/// is read as a URL of that scheme.
#[verifier::external_body]
pub(crate) fn parse_url(text: &str) -> (r: Option<ParsedUrl>)
    ensures
        opt_url(r) == parsed_url(text@),
        r matches Some(u) ==> (u.scheme@ + ":"@).is_prefix_of(u.text@),
        r matches Some(u) ==> "https://"@.is_prefix_of(text@) ==> u.scheme@ == "https"@,
{
    let url = Url::parse(text).ok()?;
    let host = url.host().map(|h| match h {
        Host::Domain(d) => UrlHost::Domain(d.to_owned()),
        Host::Ipv4(a) => UrlHost::Ipv4(u32::from(a)),
        Host::Ipv6(a) => UrlHost::Ipv6(u128::from(a)),
    });
    let host_text = url.host_str().map(str::to_owned);
    Some(ParsedUrl { scheme: url.scheme().to_owned(), text: url.into(), host, host_text })
}

/// `url::Url::set_scheme` on the URL that `url::Url::parse` reads from `text`,
/// and the serialization afterwards.
///
/// Claimed of it: the result depends on the two texts alone; and where the
/// scheme is made of lower-case letters, the serialization starts with it and a
/// colon.
#[verifier::external_body]
pub(crate) fn replace_scheme(text: &str, scheme: &str) -> (r: Option<String>)
    ensures
        opt_text(r) == text_with_scheme(text@, scheme@),
        r matches Some(t) ==> (forall|i: int|
            0 <= i < scheme@.len() ==> 'a' <= #[trigger] scheme@[i] <= 'z') ==> (scheme@
            + ":"@).is_prefix_of(t@),
{
    let mut url = Url::parse(text).ok()?;
    url.set_scheme(scheme).ok()?;
    Some(url.into())
}

/// The upper-case hexadecimal digit for a number below sixteen.
pub open spec fn hex_digit(n: int) -> char {
    if n < 10 {
        (48 + n) as char
    } else {
        (55 + n) as char
    }
}

/// Whether a byte stands for itself in a form-encoded text.
pub open spec fn form_unchanged(b: u8) -> bool {
    ||| 48 <= b <= 57
    ||| 65 <= b <= 90
    ||| 97 <= b <= 122
    ||| b == 42
    ||| b == 45
    ||| b == 46
    ||| b == 95
}

/// One byte in `application/x-www-form-urlencoded`: a letter, a digit and
/// `*-._` stand for themselves, a space becomes `+`, any other byte `%XX`.
pub open spec fn form_byte(b: u8) -> Seq<char> {
    if form_unchanged(b) {
        seq![b as char]
    } else if b == 32 {
        seq!['+']
    } else {
        seq!['%', hex_digit(b as int / 16), hex_digit(b as int % 16)]
    }
}

/// [`form_byte`] as a value.
pub open spec fn form_byte_writer() -> spec_fn(u8) -> Seq<char> {
    |b: u8| form_byte(b)
}

/// Bytes in `application/x-www-form-urlencoded`.
pub open spec fn form_encoded_bytes(bytes: Seq<u8>) -> Seq<char> {
    bytes.flat_map(form_byte_writer())
}

/// The UTF-8 bytes of a text in `application/x-www-form-urlencoded`.
pub open spec fn form_encoded(text: Seq<char>) -> Seq<char> {
    form_encoded_bytes(vstd::utf8::encode_utf8(text))
}

/// `url::form_urlencoded::byte_serialize` on the bytes of `text`: each byte is
/// written as [`form_byte`] says.
#[verifier::external_body]
pub(crate) fn form_encode(text: &str) -> (r: String)
    ensures
        r@ == form_encoded(text@),
{
    url::form_urlencoded::byte_serialize(text.as_bytes()).collect()
}

} // verus!
