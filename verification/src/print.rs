//! Printing to a file: what the page measures and what the file is called.

use vstd::prelude::*;
use vstd::string::*;

use crate::ranking;
use crate::text::{self, trim};
use crate::weburl::{self, parse_url};

verus! {

/// Which way up a page is.
#[derive(Debug, Clone, Copy, PartialEq, Eq, Structural)]
pub enum Orientation {
    Portrait,
    Landscape,
}

impl Default for Orientation {
    fn default() -> (r: Self)
        ensures
            r == Orientation::Portrait,
    {
        Orientation::Portrait
    }
}

/// A size of paper.
#[derive(Debug, Clone, Copy, PartialEq, Eq, Structural)]
pub enum PaperSize {
    A4,
    Letter,
    Legal,
}

impl Default for PaperSize {
    fn default() -> (r: Self)
        ensures
            r == PaperSize::A4,
    {
        PaperSize::A4
    }
}

impl PaperSize {
    /// Width and height in hundredths of an inch, upright.
    pub open spec fn portrait_size(self) -> (u32, u32) {
        match self {
            PaperSize::A4 => (827, 1169),
            PaperSize::Letter => (850, 1100),
            PaperSize::Legal => (850, 1400),
        }
    }

    /// Width and height in hundredths of an inch, upright.
    pub fn portrait_hundredths(self) -> (r: (u32, u32))
        ensures
            r == self.portrait_size(),
    {
        match self {
            PaperSize::A4 => (827, 1169),
            PaperSize::Letter => (850, 1100),
            PaperSize::Legal => (850, 1400),
        }
    }

    /// Width and height in hundredths of an inch, for a page that way up.
    pub fn page_hundredths(self, orientation: Orientation) -> (r: (u32, u32))
        ensures
            r == (match orientation {
                Orientation::Portrait => self.portrait_size(),
                Orientation::Landscape => (self.portrait_size().1, self.portrait_size().0),
            }),
    {
        let (width, height): (u32, u32) = self.portrait_hundredths();
        match orientation {
            Orientation::Portrait => (width, height),
            Orientation::Landscape => (height, width),
        }
    }
}

/// What a file is called for a page whose URL has the given host.
pub open spec fn pdf_name(title: Option<Seq<char>>, host: Option<Seq<char>>) -> Seq<char> {
    let base = match title {
        Some(t) if text::trimmed(t).len() > 0 => text::trimmed(t),
        _ => match host {
            Some(h) => h,
            None => "ページ"@,
        },
    };
    base + ".pdf"@
}

/// The host of a URL; `None` for a text that is no URL, or one without a host.
pub open spec fn host_of(url: Seq<char>) -> Option<Seq<char>> {
    match weburl::parsed_url(url) {
        Some(parsed) => parsed.host_text,
        None => None,
    }
}

/// What a file is called for a page with a title and a host: the title if there is
/// one, else the host, else a name that fits all.
pub fn choose_pdf_filename(title: Option<&str>, host: Option<String>) -> (r: String)
    ensures
        r@ == pdf_name(ranking::opt_view(title), weburl::opt_text(host)),
{
    let base: String = match title {
        Some(t) => {
            let trimmed = trim(t);
            if trimmed.unicode_len() > 0 {
                trimmed.to_owned()
            } else {
                host_or_default(host)
            }
        },
        None => host_or_default(host),
    };
    let mut name = base;
    name.append(".pdf");
    name
}

fn host_or_default(host: Option<String>) -> (r: String)
    ensures
        r@ == (match weburl::opt_text(host) {
            Some(h) => h,
            None => "ページ"@,
        }),
{
    match host {
        Some(h) => h,
        None => "ページ".to_owned(),
    }
}

/// What a file is called for a page: its title, else its host, else a name that
/// fits all. It may hold what a file system does not take.
pub fn suggest_pdf_filename(title: Option<&str>, url: &str) -> (r: String)
    ensures
        r@ == pdf_name(ranking::opt_view(title), host_of(url@)),
{
    let host: Option<String> = match parse_url(url) {
        Some(parsed) => parsed.host_text,
        None => None,
    };
    choose_pdf_filename(title, host)
}

// ---------------------------------------------------------------------------
// Laws

/// A file is called after the title without the white space around it; after the
/// host where there is no title, or a blank one; and after neither where there is no
/// host either.
pub proof fn a_title_names_the_file(
    front: Seq<char>,
    title: Seq<char>,
    back: Seq<char>,
    host: Seq<char>,
)
    requires
        text::is_blank(front),
        text::is_blank(back),
        title.len() > 0,
        !text::is_white_space(title.first()),
        !text::is_white_space(title.last()),
    ensures
        pdf_name(Some(front + title + back), Some(host)) == title + ".pdf"@,
        pdf_name(Some(front + title + back), None) == title + ".pdf"@,
        pdf_name(Some(front), Some(host)) == host + ".pdf"@,
        pdf_name(None, Some(host)) == host + ".pdf"@,
        pdf_name(None, None) == "ページ"@ + ".pdf"@,
        pdf_name(Some(front), None) == "ページ"@ + ".pdf"@,
{
    text::trimming_finds_what_is_inside(front, title, back);
    let (i, j) = text::lemma_trimmed_is_part(front);
    text::lemma_trimmed_ends(front);
    if text::trimmed(front).len() > 0 {
        assert(text::trimmed(front).first() == front[i]);
    }
}

/// Every sheet is higher than wide when upright, and the two American sizes are as
/// wide as each other.
pub proof fn sheets_stand_upright(size: PaperSize)
    ensures
        size.portrait_size().0 < size.portrait_size().1,
        PaperSize::Letter.portrait_size().0 == PaperSize::Legal.portrait_size().0,
        PaperSize::Letter.portrait_size().1 < PaperSize::A4.portrait_size().1,
        PaperSize::A4.portrait_size().1 < PaperSize::Legal.portrait_size().1,
        PaperSize::A4.portrait_size().0 < PaperSize::Letter.portrait_size().0,
{
}

} // verus!
