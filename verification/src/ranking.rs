//! Which visited and saved pages, and which queries, go with typed text, and in
//! what order.

use vstd::prelude::*;
use vstd::string::*;

use crate::bookmarks::{self, BookmarkEntry};
use crate::history::{self, occurs_in, to_lowercase, HistoryEntry};
use crate::input_history::{self, InputHistoryEntry, InputModel};
use crate::text::{self, chars_of, matches_at, str_eq, trim};
use crate::weburl;

verus! {

// ---------------------------------------------------------------------------
// Order

/// By what things are ordered: a lower tier comes first, and within a tier what
/// was used later.
#[derive(Debug, Clone, Copy, PartialEq, Eq, Structural)]
pub struct RankKey {
    pub tier: u8,
    /// How long ago it was used, in seconds.
    pub age: u64,
}

/// Whether the order puts `a` before `b`.
pub open spec fn comes_before(a: RankKey, b: RankKey) -> bool {
    a.tier < b.tier || (a.tier == b.tier && a.age < b.age)
}

/// The first place in `order`, from one on, of something that `key` comes before.
pub open spec fn place_for(keys: Seq<RankKey>, order: Seq<int>, key: RankKey, from: int) -> int
    decreases order.len() - from,
{
    if from >= order.len() {
        order.len() as int
    } else if comes_before(key, keys[order[from]]) {
        from
    } else {
        place_for(keys, order, key, from + 1)
    }
}

/// The indices of keys in the order of the keys. Of two that are equal, the
/// earlier comes first.
pub open spec fn ordering(keys: Seq<RankKey>) -> Seq<int>
    decreases keys.len(),
{
    if keys.len() == 0 {
        Seq::empty()
    } else {
        let before = ordering(keys.drop_last());
        before.insert(place_for(keys, before, keys.last(), 0), keys.len() - 1)
    }
}

/// The indices that `order` holds.
pub open spec fn indices(order: Seq<usize>) -> Seq<int> {
    order.map_values(|i: usize| i as int)
}

/// The indices of keys in the order of the keys. Of two that are equal, the
/// earlier comes first.
pub fn order_by(keys: &Vec<RankKey>) -> (r: Vec<usize>)
    ensures
        indices(r@) == ordering(keys@),
        r@.len() == keys@.len(),
        forall|i: int| 0 <= i < r@.len() ==> #[trigger] r@[i] < keys@.len(),
{
    let mut order: Vec<usize> = Vec::new();
    assert(indices(order@) =~= ordering(keys@.take(0)));
    for i in 0..keys.len()
        invariant
            order@.len() == i,
            indices(order@) == ordering(keys@.take(i as int)),
            forall|k: int| 0 <= k < i ==> #[trigger] order@[k] < i,
    {
        let ghost shorter = keys@.take(i as int);
        let ghost longer = keys@.take(i + 1);
        assert(longer.drop_last() =~= shorter);
        let ghost before = order@;
        let key: RankKey = keys[i];
        let mut place: usize = 0;
        while place < i && !(key.tier < keys[order[place]].tier || (key.tier
            == keys[order[place]].tier && key.age < keys[order[place]].age))
            invariant
                i < keys@.len(),
                place <= i,
                order@.len() == i,
                forall|k: int| 0 <= k < i ==> #[trigger] order@[k] < i,
                key == longer.last(),
                longer == keys@.take(i + 1),
                place_for(longer, indices(order@), key, 0) == place_for(
                    longer,
                    indices(order@),
                    key,
                    place as int,
                ),
            decreases i - place,
        {
            place = place + 1;
        }
        order.insert(place, i);
        assert(indices(order@) =~= indices(before).insert(place as int, i as int));
    }
    assert(keys@.take(keys@.len() as int) =~= keys@);
    order
}

// ---------------------------------------------------------------------------
// Pages

/// A page that was visited or saved.
#[derive(Debug, Clone, Copy, PartialEq, Eq)]
pub struct PageEntry<'a> {
    pub url: &'a str,
    pub title: Option<&'a str>,
    pub is_bookmark: bool,
    /// When it was last visited, or saved if it never was, in seconds since the
    /// Unix epoch.
    pub last_used_at: u64,
}

/// What a [`PageEntry`] stands for.
pub struct PageModel {
    pub url: Seq<char>,
    pub title: Option<Seq<char>>,
    pub is_bookmark: bool,
    pub last_used_at: u64,
}

/// The content of an optional text.
pub open spec fn opt_view(s: Option<&str>) -> Option<Seq<char>> {
    match s {
        Some(t) => Some(t@),
        None => None,
    }
}

impl<'a> View for PageEntry<'a> {
    type V = PageModel;

    open spec fn view(&self) -> PageModel {
        PageModel {
            url: self.url@,
            title: opt_view(self.title),
            is_bookmark: self.is_bookmark,
            last_used_at: self.last_used_at,
        }
    }
}

/// What pages stand for.
pub open spec fn page_models(pages: Seq<PageEntry>) -> Seq<PageModel> {
    pages.map_values(|p: PageEntry| p@)
}

/// The index of the first page with a URL, from an index on; the number of pages
/// where there is none.
pub open spec fn page_index(pages: Seq<PageModel>, url: Seq<char>, from: int) -> int
    decreases pages.len() - from,
{
    if from >= pages.len() {
        pages.len() as int
    } else if pages[from].url == url {
        from
    } else {
        page_index(pages, url, from + 1)
    }
}

/// Pages with one more visit: the page's title is that of the last visit that has
/// one.
pub open spec fn with_visit(pages: Seq<PageModel>, entry: HistoryEntry) -> Seq<PageModel> {
    let i = page_index(pages, entry.url@, 0);
    let title = weburl::opt_text(entry.title);
    if i < pages.len() {
        pages.update(
            i,
            PageModel {
                title: if title is Some {
                    title
                } else {
                    pages[i].title
                },
                last_used_at: if entry.visited_at > pages[i].last_used_at {
                    entry.visited_at
                } else {
                    pages[i].last_used_at
                },
                ..pages[i]
            },
        )
    } else {
        pages.push(
            PageModel {
                url: entry.url@,
                title,
                is_bookmark: false,
                last_used_at: entry.visited_at,
            },
        )
    }
}

/// Pages with one more that is saved: a page that has no title gets that of the
/// bookmark.
pub open spec fn with_bookmark(pages: Seq<PageModel>, entry: BookmarkEntry) -> Seq<PageModel> {
    let i = page_index(pages, entry.url@, 0);
    let title = weburl::opt_text(entry.title);
    if i < pages.len() {
        pages.update(
            i,
            PageModel {
                title: if pages[i].title is Some {
                    pages[i].title
                } else {
                    title
                },
                is_bookmark: true,
                ..pages[i]
            },
        )
    } else {
        pages.push(
            PageModel { url: entry.url@, title, is_bookmark: true, last_used_at: entry.created_at },
        )
    }
}

/// The pages that were visited.
pub open spec fn visited_pages(history: Seq<HistoryEntry>) -> Seq<PageModel>
    decreases history.len(),
{
    if history.len() == 0 {
        Seq::empty()
    } else {
        with_visit(visited_pages(history.drop_last()), history.last())
    }
}

/// The pages that were visited or saved, each once.
pub open spec fn merged(history: Seq<HistoryEntry>, bookmarks: Seq<BookmarkEntry>) -> Seq<PageModel>
    decreases bookmarks.len(),
{
    if bookmarks.len() == 0 {
        visited_pages(history)
    } else {
        with_bookmark(merged(history, bookmarks.drop_last()), bookmarks.last())
    }
}

fn find_page(pages: &Vec<PageEntry>, url: &str) -> (r: usize)
    ensures
        r == page_index(page_models(pages@), url@, 0),
        r <= pages@.len(),
{
    let mut i: usize = 0;
    while i < pages.len()
        invariant
            i <= pages@.len(),
            page_index(page_models(pages@), url@, 0) == page_index(
                page_models(pages@),
                url@,
                i as int,
            ),
        decreases pages@.len() - i,
    {
        assert(page_models(pages@)[i as int] == pages@[i as int]@);
        if str_eq(pages[i].url, url) {
            return i;
        }
        i = i + 1;
    }
    i
}

fn opt_str<'a>(s: &'a Option<String>) -> (r: Option<&'a str>)
    ensures
        opt_view(r) == weburl::opt_text(*s),
{
    match s {
        Some(t) => Some(t.as_str()),
        None => None,
    }
}

/// The pages that were visited or saved, each once.
pub fn merge_entries<'a>(
    history: &'a [HistoryEntry],
    bookmarks: &'a [BookmarkEntry],
) -> (r: Vec<PageEntry<'a>>)
    ensures
        page_models(r@) == merged(history@, bookmarks@),
{
    let mut pages: Vec<PageEntry<'a>> = Vec::new();
    assert(page_models(pages@) =~= visited_pages(history@.take(0)));
    for k in 0..history.len()
        invariant
            page_models(pages@) == visited_pages(history@.take(k as int)),
    {
        assert(history@.take(k + 1).drop_last() =~= history@.take(k as int));
        let ghost before = page_models(pages@);
        let entry: &'a HistoryEntry = &history[k];
        let i: usize = find_page(&pages, &entry.url);
        let title: Option<&'a str> = opt_str(&entry.title);
        if i < pages.len() {
            let page: PageEntry<'a> = pages[i];
            assert(before[i as int] == page@);
            let later: u64 = if entry.visited_at > page.last_used_at {
                entry.visited_at
            } else {
                page.last_used_at
            };
            pages.set(
                i,
                PageEntry {
                    url: page.url,
                    title: if title.is_some() {
                        title
                    } else {
                        page.title
                    },
                    is_bookmark: page.is_bookmark,
                    last_used_at: later,
                },
            );
        } else {
            pages.push(
                PageEntry {
                    url: entry.url.as_str(),
                    title,
                    is_bookmark: false,
                    last_used_at: entry.visited_at,
                },
            );
        }
        assert(page_models(pages@) =~= with_visit(before, *entry));
    }
    assert(history@.take(history@.len() as int) =~= history@);
    assert(bookmarks@.take(0) =~= Seq::empty());
    for k in 0..bookmarks.len()
        invariant
            page_models(pages@) == merged(history@, bookmarks@.take(k as int)),
    {
        assert(bookmarks@.take(k + 1).drop_last() =~= bookmarks@.take(k as int));
        let ghost before = page_models(pages@);
        let entry: &'a BookmarkEntry = &bookmarks[k];
        let i: usize = find_page(&pages, &entry.url);
        let title: Option<&'a str> = opt_str(&entry.title);
        if i < pages.len() {
            let page: PageEntry<'a> = pages[i];
            assert(before[i as int] == page@);
            pages.set(
                i,
                PageEntry {
                    url: page.url,
                    title: if page.title.is_some() {
                        page.title
                    } else {
                        title
                    },
                    is_bookmark: true,
                    last_used_at: page.last_used_at,
                },
            );
        } else {
            pages.push(
                PageEntry {
                    url: entry.url.as_str(),
                    title,
                    is_bookmark: true,
                    last_used_at: entry.created_at,
                },
            );
        }
        assert(page_models(pages@) =~= with_bookmark(before, *entry));
    }
    assert(bookmarks@.take(bookmarks@.len() as int) =~= bookmarks@);
    pages
}

/// How long before `now` something was used; 0 if it was after it.
pub open spec fn age_at(now: u64, last_used_at: u64) -> u64 {
    if now > last_used_at {
        (now - last_used_at) as u64
    } else {
        0
    }
}

fn age(now: u64, last_used_at: u64) -> (r: u64)
    ensures
        r == age_at(now, last_used_at),
{
    if now > last_used_at {
        now - last_used_at
    } else {
        0
    }
}

/// Whether a query in lower case goes with a page.
pub open spec fn goes_with_page(page: PageModel, query: Seq<char>) -> bool {
    history::occurs_in_page(
        history::lowercased(page.url),
        match page.title {
            Some(t) => Some(history::lowercased(t)),
            None => None,
        },
        query,
    )
}

/// The pages that a query in lower case goes with.
pub open spec fn pages_with(pages: Seq<PageModel>, query: Seq<char>) -> Seq<PageModel> {
    pages.filter(|p: PageModel| goes_with_page(p, query))
}

/// By what pages are ordered.
pub open spec fn page_keys(pages: Seq<PageModel>, now: u64) -> Seq<RankKey> {
    pages.map_values(|p: PageModel| RankKey { tier: 0, age: age_at(now, p.last_used_at) })
}

/// The first `limit` of what `order` puts in order.
pub open spec fn top<T>(s: Seq<T>, order: Seq<int>, limit: usize) -> Seq<T> {
    Seq::new(
        if order.len() < limit {
            order.len()
        } else {
            limit as nat
        },
        |i: int| s[order[i]],
    )
}

/// The pages that go with typed text, the one that was used last first; at most
/// `limit`.
pub open spec fn ranked_pages(
    pages: Seq<PageModel>,
    input: Seq<char>,
    now: u64,
    limit: usize,
) -> Seq<PageModel> {
    let found = pages_with(pages, history::lowercased(text::trimmed(input)));
    top(found, ordering(page_keys(found, now)), limit)
}

/// The pages that go with typed text: it occurs in the URL or the title, whatever
/// the case. The one that was used last comes first; at most `limit`.
pub fn rank_page_entries<'a>(
    pages: Vec<PageEntry<'a>>,
    input: &str,
    now: u64,
    limit: usize,
) -> (r: Vec<PageEntry<'a>>)
    ensures
        page_models(r@) == ranked_pages(page_models(pages@), input@, now, limit),
{
    let query = to_lowercase(trim(input));
    let ghost all = page_models(pages@);
    let ghost keep = |p: PageModel| goes_with_page(p, query@);
    let mut found: Vec<PageEntry<'a>> = Vec::new();
    let mut keys: Vec<RankKey> = Vec::new();
    proof {
        reveal(Seq::filter);
    }
    assert(page_models(found@) =~= all.take(0).filter(keep));
    assert(keys@ =~= page_keys(page_models(found@), now));
    for i in 0..pages.len()
        invariant
            all == page_models(pages@),
            keep == (|p: PageModel| goes_with_page(p, query@)),
            page_models(found@) == all.take(i as int).filter(keep),
            keys@ == page_keys(page_models(found@), now),
    {
        proof {
            all.take(i as int).lemma_filter_push(all[i as int], keep);
            assert(all.take(i as int).push(all[i as int]) =~= all.take(i + 1));
        }
        let page: PageEntry<'a> = pages[i];
        assert(all[i as int] == page@);
        let url = to_lowercase(page.url);
        let title: Option<String> = match page.title {
            Some(t) => Some(to_lowercase(t)),
            None => None,
        };
        if occurs_in(&url, &title, &query) {
            let ghost before = page_models(found@);
            found.push(page);
            keys.push(RankKey { tier: 0, age: age(now, page.last_used_at) });
            assert(page_models(found@) =~= before.push(page@));
            assert(keys@ =~= page_keys(page_models(found@), now));
        }
    }
    assert(all.take(all.len() as int) =~= all);
    let ghost found_models = page_models(found@);
    let order = order_by(&keys);
    let mut r: Vec<PageEntry<'a>> = Vec::new();
    let count: usize = if order.len() < limit {
        order.len()
    } else {
        limit
    };
    for i in 0..count
        invariant
            count <= order@.len(),
            order@.len() == found@.len(),
            forall|k: int| 0 <= k < order@.len() ==> #[trigger] order@[k] < found@.len(),
            r@.len() == i,
            forall|k: int| 0 <= k < i ==> #[trigger] r@[k] == found@[order@[k] as int],
    {
        r.push(found[order[i]]);
    }
    proof {
        let places = indices(order@);
        assert forall|k: int| 0 <= k < count implies page_models(r@)[k] == #[trigger] top(
            found_models,
            places,
            limit,
        )[k] by {
            assert(r@[k] == found@[order@[k] as int]);
        }
        assert(page_models(r@) =~= top(found_models, places, limit));
    }
    r
}

// ---------------------------------------------------------------------------
// Queries

/// Where a query, both in lower case, stands among those that text goes with: one
/// that starts with the text comes first, one in which it occurs later.
pub open spec fn query_tier(lower: Seq<char>, typed: Seq<char>) -> Option<u8> {
    if typed.is_prefix_of(lower) {
        Some(0u8)
    } else if text::contains_text(lower, typed) {
        Some(1u8)
    } else {
        None
    }
}

/// Where a query, both in lower case, stands among those that text goes with.
pub fn tier_of(lower: &str, typed: &str) -> (r: Option<u8>)
    ensures
        r == query_tier(lower@, typed@),
{
    let hay = chars_of(lower);
    let needle = chars_of(typed);
    if matches_at(&hay, &needle, 0) {
        assert(typed@ =~= lower@.take(typed@.len() as int));
        Some(0)
    } else {
        assert(!typed@.is_prefix_of(lower@)) by {
            if typed@.is_prefix_of(lower@) {
                assert(lower@.subrange(0, typed@.len() as int) =~= typed@);
            }
        }
        if text::contains_chars(&hay, &needle) {
            Some(1)
        } else {
            None
        }
    }
}

/// The queries that text in lower case goes with.
pub open spec fn queries_with(entries: Seq<InputModel>, typed: Seq<char>) -> Seq<InputModel> {
    entries.filter(|e: InputModel| query_tier(history::lowercased(e.text), typed) is Some)
}

/// By what queries are ordered.
pub open spec fn query_keys(entries: Seq<InputModel>, typed: Seq<char>, now: u64) -> Seq<RankKey> {
    entries.map_values(
        |e: InputModel|
            RankKey {
                tier: query_tier(history::lowercased(e.text), typed)->0,
                age: age_at(now, e.last_used_at),
            },
    )
}

/// The queries that typed text goes with, at most `limit`.
pub open spec fn ranked_queries(
    entries: Seq<InputModel>,
    query: Seq<char>,
    now: u64,
    limit: usize,
) -> Seq<InputModel> {
    let typed = history::lowercased(text::trimmed(query));
    let found = queries_with(entries, typed);
    top(found, ordering(query_keys(found, typed, now)), limit)
}

/// What entries stand for.
pub open spec fn entry_models(entries: Seq<&InputHistoryEntry>) -> Seq<InputModel> {
    input_history::input_models(entries.unref())
}

/// The queries that typed text goes with, whatever the case: those that start with
/// it, then those in which it occurs later, and of these the one that was used last
/// first; at most `limit`.
pub fn rank_input_history<'a>(
    entries: &'a [InputHistoryEntry],
    query: &str,
    now: u64,
    limit: usize,
) -> (r: Vec<&'a InputHistoryEntry>)
    ensures
        entry_models(r@) == ranked_queries(
            input_history::input_models(entries@),
            query@,
            now,
            limit,
        ),
{
    let typed = to_lowercase(trim(query));
    let ghost all = input_history::input_models(entries@);
    let ghost keep = |e: InputModel| query_tier(history::lowercased(e.text), typed@) is Some;
    let mut found: Vec<&'a InputHistoryEntry> = Vec::new();
    let mut keys: Vec<RankKey> = Vec::new();
    proof {
        reveal(Seq::filter);
    }
    assert(entry_models(found@) =~= all.take(0).filter(keep));
    assert(keys@ =~= query_keys(entry_models(found@), typed@, now));
    for i in 0..entries.len()
        invariant
            all == input_history::input_models(entries@),
            keep == (|e: InputModel| query_tier(history::lowercased(e.text), typed@) is Some),
            entry_models(found@) == all.take(i as int).filter(keep),
            keys@ == query_keys(entry_models(found@), typed@, now),
    {
        proof {
            all.take(i as int).lemma_filter_push(all[i as int], keep);
            assert(all.take(i as int).push(all[i as int]) =~= all.take(i + 1));
        }
        let entry: &'a InputHistoryEntry = &entries[i];
        assert(all[i as int] == entry@);
        let lower = to_lowercase(&entry.text);
        match tier_of(&lower, &typed) {
            Some(tier) => {
                let ghost before = entry_models(found@);
                found.push(entry);
                keys.push(RankKey { tier, age: age(now, entry.last_used_at) });
                assert(entry_models(found@) =~= before.push(entry@));
                assert(keys@ =~= query_keys(entry_models(found@), typed@, now));
            },
            None => {},
        }
    }
    assert(all.take(all.len() as int) =~= all);
    let ghost found_models = entry_models(found@);
    let order = order_by(&keys);
    let mut r: Vec<&'a InputHistoryEntry> = Vec::new();
    let count: usize = if order.len() < limit {
        order.len()
    } else {
        limit
    };
    for i in 0..count
        invariant
            count <= order@.len(),
            order@.len() == found@.len(),
            forall|k: int| 0 <= k < order@.len() ==> #[trigger] order@[k] < found@.len(),
            r@.len() == i,
            forall|k: int| 0 <= k < i ==> #[trigger] r@[k] == found@[order@[k] as int],
    {
        r.push(found[order[i]]);
    }
    proof {
        let places = indices(order@);
        assert forall|k: int| 0 <= k < count implies entry_models(r@)[k] == #[trigger] top(
            found_models,
            places,
            limit,
        )[k] by {
            assert(r@[k] == found@[order@[k] as int]);
        }
        assert(entry_models(r@) =~= top(found_models, places, limit));
    }
    r
}

// ---------------------------------------------------------------------------
// Laws

/// Whether `order` holds each index of `keys` once, in the order of the keys, and
/// of two that are equal the earlier first.
pub open spec fn is_order(keys: Seq<RankKey>, order: Seq<int>) -> bool {
    &&& order.len() == keys.len()
    &&& forall|i: int| 0 <= i < order.len() ==> 0 <= #[trigger] order[i] < keys.len()
    &&& forall|i: int, j: int|
        0 <= i < j < order.len() ==> {
            ||| comes_before(keys[#[trigger] order[i]], keys[#[trigger] order[j]])
            ||| keys[order[i]] == keys[order[j]] && order[i] < order[j]
        }
}

/// An ordering puts everything in order, and what is equal stays as it was.
pub proof fn an_ordering_is_in_order(keys: Seq<RankKey>)
    ensures
        is_order(keys, ordering(keys)),
    decreases keys.len(),
{
    if keys.len() > 0 {
        let shorter = keys.drop_last();
        let before = ordering(shorter);
        let key = keys.last();
        let n = keys.len() - 1;
        an_ordering_is_in_order(shorter);
        assert forall|i: int| 0 <= i < before.len() implies keys[#[trigger] before[i]]
            == shorter[before[i]] by {}
        let p = place_for(keys, before, key, 0);
        lemma_place_for(keys, before, key, 0);
        let order = before.insert(p, n);
        let from = |i: int|
            if i < p {
                i
            } else {
                i - 1
            };
        assert forall|i: int| 0 <= i < order.len() && i != p implies #[trigger] order[i]
            == before[from(i)] by {}
        assert(order[p] == n);
        assert forall|i: int, j: int| 0 <= i < j < order.len() implies {
            ||| comes_before(keys[#[trigger] order[i]], keys[#[trigger] order[j]])
            ||| keys[order[i]] == keys[order[j]] && order[i] < order[j]
        } by {
            if i == p {
                let q = before[p];
                assert(comes_before(key, keys[q]));
                let m = before[from(j)];
                assert(order[j] == m);
                if from(j) > p {
                    assert(comes_before(shorter[q], shorter[m]) || shorter[q] == shorter[m]);
                }
                assert(comes_before(key, keys[m]));
            } else if j == p {
                let m = before[from(i)];
                assert(order[i] == m);
                assert(!comes_before(key, keys[m]));
            } else {
                assert(order[i] == before[from(i)]);
                assert(order[j] == before[from(j)]);
                assert(from(i) < from(j));
            }
        }
    }
}

proof fn lemma_place_for(keys: Seq<RankKey>, order: Seq<int>, key: RankKey, from: int)
    requires
        0 <= from <= order.len(),
    ensures
        ({
            let p = place_for(keys, order, key, from);
            &&& from <= p <= order.len()
            &&& p < order.len() ==> comes_before(key, keys[order[p]])
            &&& forall|i: int| from <= i < p ==> !comes_before(key, keys[#[trigger] order[i]])
        }),
    decreases order.len() - from,
{
    if from < order.len() && !comes_before(key, keys[order[from]]) {
        lemma_place_for(keys, order, key, from + 1);
    }
}

/// Whether no two pages have the same URL.
pub open spec fn are_distinct(pages: Seq<PageModel>) -> bool {
    forall|i: int, j: int|
        0 <= i < j < pages.len() ==> (#[trigger] pages[i]).url != (#[trigger] pages[j]).url
}

/// Whether a page has a URL.
pub open spec fn has_page(pages: Seq<PageModel>, url: Seq<char>) -> bool {
    page_index(pages, url, 0) < pages.len()
}

/// Whether a page was visited.
pub open spec fn was_visited(history: Seq<HistoryEntry>, url: Seq<char>) -> bool {
    exists|i: int| 0 <= i < history.len() && (#[trigger] history[i]).url@ == url
}

proof fn lemma_page_index(pages: Seq<PageModel>, url: Seq<char>, from: int)
    requires
        0 <= from <= pages.len(),
    ensures
        from <= page_index(pages, url, from) <= pages.len(),
        page_index(pages, url, from) < pages.len() ==> pages[page_index(pages, url, from)].url
            == url,
        forall|j: int|
            from <= j < page_index(pages, url, from) ==> (#[trigger] pages[j]).url != url,
    decreases pages.len() - from,
{
    if from < pages.len() && pages[from].url != url {
        lemma_page_index(pages, url, from + 1);
    }
}

/// Each visited page occurs once among the visited pages, and nothing else does.
proof fn lemma_visited_pages(history: Seq<HistoryEntry>)
    ensures
        are_distinct(visited_pages(history)),
        forall|i: int|
            0 <= i < visited_pages(history).len() ==> was_visited(
                history,
                (#[trigger] visited_pages(history)[i]).url,
            ) && !visited_pages(history)[i].is_bookmark,
        forall|k: int|
            0 <= k < history.len() ==> has_page(
                visited_pages(history),
                (#[trigger] history[k]).url@,
            ),
    decreases history.len(),
{
    if history.len() > 0 {
        let shorter = history.drop_last();
        let entry = history.last();
        let before = visited_pages(shorter);
        let after = visited_pages(history);
        lemma_visited_pages(shorter);
        lemma_page_index(before, entry.url@, 0);
        assert(history[history.len() - 1].url@ == entry.url@);
        assert forall|i: int| 0 <= i < before.len() implies (#[trigger] after[i]).url
            == before[i].url by {}
        assert forall|i: int| 0 <= i < after.len() implies was_visited(
            history,
            (#[trigger] after[i]).url,
        ) && !after[i].is_bookmark by {
            if i < before.len() {
                assert(was_visited(shorter, before[i].url));
                let k = choose|k: int|
                    0 <= k < shorter.len() && (#[trigger] shorter[k]).url@ == before[i].url;
                assert(history[k].url@ == after[i].url);
            }
        }
        assert forall|i: int, j: int| 0 <= i < j < after.len() implies (#[trigger] after[i]).url
            != (#[trigger] after[j]).url by {
            if j < before.len() {
                assert(before[i].url != before[j].url);
            }
        }
        assert forall|k: int| 0 <= k < history.len() implies has_page(
            after,
            (#[trigger] history[k]).url@,
        ) by {
            lemma_page_index(after, history[k].url@, 0);
            if k < shorter.len() {
                assert(has_page(before, shorter[k].url@));
                lemma_page_index(before, shorter[k].url@, 0);
                let i = page_index(before, shorter[k].url@, 0);
                assert(after[i].url == before[i].url);
            } else {
                let i = page_index(before, entry.url@, 0);
                assert(after[i].url == entry.url@);
            }
        }
    }
}

/// Each page that was visited or saved occurs once among the merged pages, nothing
/// else does, and those that are marked are the saved ones.
pub proof fn merging_keeps_each_page_once(
    history: Seq<HistoryEntry>,
    bookmarks: Seq<BookmarkEntry>,
)
    ensures
        are_distinct(merged(history, bookmarks)),
        forall|i: int|
            0 <= i < merged(history, bookmarks).len() ==> {
                let page = #[trigger] merged(history, bookmarks)[i];
                &&& page.is_bookmark == bookmarks::has_url(bookmarks, page.url)
                &&& page.is_bookmark || was_visited(history, page.url)
            },
        forall|k: int|
            0 <= k < history.len() ==> has_page(
                merged(history, bookmarks),
                (#[trigger] history[k]).url@,
            ),
        forall|k: int|
            0 <= k < bookmarks.len() ==> has_page(
                merged(history, bookmarks),
                (#[trigger] bookmarks[k]).url@,
            ),
    decreases bookmarks.len(),
{
    lemma_visited_pages(history);
    if bookmarks.len() > 0 {
        let shorter = bookmarks.drop_last();
        let entry = bookmarks.last();
        let before = merged(history, shorter);
        let after = merged(history, bookmarks);
        let at = page_index(before, entry.url@, 0);
        merging_keeps_each_page_once(history, shorter);
        lemma_page_index(before, entry.url@, 0);
        assert(bookmarks[bookmarks.len() - 1].url@ == entry.url@);
        assert forall|i: int| 0 <= i < before.len() implies (#[trigger] after[i]).url
            == before[i].url by {}
        assert forall|i: int, j: int| 0 <= i < j < after.len() implies (#[trigger] after[i]).url
            != (#[trigger] after[j]).url by {
            if j < before.len() {
                assert(before[i].url != before[j].url);
            }
        }
        assert forall|i: int| 0 <= i < after.len() implies {
            let page = #[trigger] after[i];
            &&& page.is_bookmark == bookmarks::has_url(bookmarks, page.url)
            &&& page.is_bookmark || was_visited(history, page.url)
        } by {
            let url = after[i].url;
            if i == at {
                assert(bookmarks::has_url(bookmarks, url));
            } else {
                assert(before[i].is_bookmark == bookmarks::has_url(shorter, url));
                assert(url != entry.url@) by {
                    if at < before.len() && url == entry.url@ {
                        assert(before[i].url == before[at].url);
                        assert(i < at || at < i);
                    }
                }
                if bookmarks::has_url(shorter, url) {
                    let k = choose|k: int|
                        0 <= k < shorter.len() && (#[trigger] shorter[k]).url@ == url;
                    assert(bookmarks[k].url@ == url);
                }
                if bookmarks::has_url(bookmarks, url) {
                    let k = choose|k: int|
                        0 <= k < bookmarks.len() && (#[trigger] bookmarks[k]).url@ == url;
                    assert(shorter[k].url@ == url);
                }
            }
        }
        assert forall|url: Seq<char>| #[trigger] has_page(before, url) || url
            == entry.url@ implies has_page(after, url) by {
            lemma_page_index(after, url, 0);
            lemma_page_index(before, url, 0);
            if has_page(before, url) {
                assert(after[page_index(before, url, 0)].url == url);
            } else {
                assert(after[at].url == url);
            }
        }
        assert forall|k: int| 0 <= k < bookmarks.len() implies has_page(
            after,
            (#[trigger] bookmarks[k]).url@,
        ) by {
            if k < shorter.len() {
                assert(has_page(before, shorter[k].url@));
            } else {
                assert(has_page(before, entry.url@) || bookmarks[k].url@ == entry.url@);
            }
        }
    }
}

/// A visit gives a known page the title that it brings, if it brings one, and makes it
/// as recent as the visit, unless it was more recent before. No other page changes,
/// and a page that is not known yet is added.
pub proof fn a_visit_updates_its_page(pages: Seq<PageModel>, entry: HistoryEntry, i: int)
    requires
        are_distinct(pages),
        0 <= i < pages.len(),
    ensures
        with_visit(pages, entry).len() >= pages.len(),
        pages[i].url != entry.url@ ==> with_visit(pages, entry)[i] == pages[i],
        pages[i].url == entry.url@ ==> {
            let after = with_visit(pages, entry)[i];
            &&& with_visit(pages, entry).len() == pages.len()
            &&& entry.title matches Some(t) ==> after.title == Some(t@)
            &&& entry.title is None ==> after.title == pages[i].title
            &&& after.last_used_at >= entry.visited_at
            &&& after.last_used_at >= pages[i].last_used_at
            &&& after.last_used_at == entry.visited_at || after.last_used_at
                == pages[i].last_used_at
            &&& after.url == pages[i].url
            &&& after.is_bookmark == pages[i].is_bookmark
        },
{
    lemma_page_index(pages, entry.url@, 0);
    let k = page_index(pages, entry.url@, 0);
    if pages[i].url == entry.url@ {
        assert(k == i) by {
            if k < i {
                assert(pages[k].url != pages[i].url);
            }
        }
    }
}

/// A bookmark marks a known page as saved and gives it a title only where it has none;
/// when it was last used does not change. A page that is not known yet is added as it
/// was saved.
pub proof fn a_bookmark_marks_its_page(pages: Seq<PageModel>, entry: BookmarkEntry, i: int)
    requires
        are_distinct(pages),
        0 <= i < pages.len(),
    ensures
        with_bookmark(pages, entry).len() >= pages.len(),
        pages[i].url != entry.url@ ==> with_bookmark(pages, entry)[i] == pages[i],
        pages[i].url == entry.url@ ==> {
            let after = with_bookmark(pages, entry)[i];
            &&& with_bookmark(pages, entry).len() == pages.len()
            &&& after.is_bookmark
            &&& pages[i].title is Some ==> after.title == pages[i].title
            &&& pages[i].title is None ==> after.title == weburl::opt_text(entry.title)
            &&& after.last_used_at == pages[i].last_used_at
            &&& after.url == pages[i].url
        },
{
    lemma_page_index(pages, entry.url@, 0);
    let k = page_index(pages, entry.url@, 0);
    if pages[i].url == entry.url@ {
        assert(k == i) by {
            if k < i {
                assert(pages[k].url != pages[i].url);
            }
        }
    }
}

/// A page that nothing is known of yet is added with what the visit, or the bookmark,
/// says of it.
pub proof fn an_unknown_page_is_added(
    pages: Seq<PageModel>,
    visit: HistoryEntry,
    saved: BookmarkEntry,
)
    requires
        forall|i: int|
            0 <= i < pages.len() ==> (#[trigger] pages[i]).url != visit.url@ && pages[i].url
                != saved.url@,
    ensures
        with_visit(pages, visit).drop_last() == pages,
        ({
            let page = with_visit(pages, visit).last();
            &&& page.url == visit.url@
            &&& page.title == weburl::opt_text(visit.title)
            &&& page.last_used_at == visit.visited_at
            &&& !page.is_bookmark
        }),
        with_bookmark(pages, saved).drop_last() == pages,
        ({
            let page = with_bookmark(pages, saved).last();
            &&& page.url == saved.url@
            &&& page.title == weburl::opt_text(saved.title)
            &&& page.last_used_at == saved.created_at
            &&& page.is_bookmark
        }),
{
    lemma_page_index(pages, visit.url@, 0);
    lemma_page_index(pages, saved.url@, 0);
    assert(with_visit(pages, visit).drop_last() =~= pages);
    assert(with_bookmark(pages, saved).drop_last() =~= pages);
}

/// Among visited pages, each is as recent as its last visit.
pub proof fn a_page_is_as_recent_as_its_last_visit(history: Seq<HistoryEntry>, i: int, k: int)
    requires
        0 <= i < visited_pages(history).len(),
        0 <= k < history.len(),
        history[k].url@ == visited_pages(history)[i].url,
    ensures
        visited_pages(history)[i].last_used_at >= history[k].visited_at,
    decreases history.len(),
{
    let shorter = history.drop_last();
    let entry = history.last();
    let before = visited_pages(shorter);
    let after = visited_pages(history);
    lemma_visited_pages(shorter);
    lemma_page_index(before, entry.url@, 0);
    let at = page_index(before, entry.url@, 0);
    if i < before.len() {
        a_visit_updates_its_page(before, entry, i);
        if k < shorter.len() {
            assert(shorter[k] == history[k]);
            a_page_is_as_recent_as_its_last_visit(shorter, i, k);
        }
    } else if k < shorter.len() {
        assert(has_page(before, shorter[k].url@));
        lemma_page_index(before, shorter[k].url@, 0);
    }
}

/// What pages are ranked by: of two pages that go with the text, the one that was used
/// later comes first. No more than `limit` are given, only pages that the text goes
/// with, and all of them where there is room.
pub proof fn the_most_recent_pages_come_first(
    pages: Seq<PageModel>,
    input: Seq<char>,
    now: u64,
    limit: usize,
)
    requires
        forall|i: int| 0 <= i < pages.len() ==> (#[trigger] pages[i]).last_used_at <= now,
    ensures
        ({
            let r = ranked_pages(pages, input, now, limit);
            let found = pages_with(pages, history::lowercased(text::trimmed(input)));
            &&& r.len() <= limit
            &&& found.len() <= limit ==> r.len() == found.len()
            &&& found.len() > limit ==> r.len() == limit
            &&& forall|i: int| 0 <= i < r.len() ==> found.contains(#[trigger] r[i])
            &&& forall|i: int, j: int|
                0 <= i < j < r.len() ==> (#[trigger] r[i]).last_used_at >= (
                #[trigger] r[j]).last_used_at
            &&& forall|i: int|
                0 <= i < found.len() ==> r.contains(#[trigger] found[i]) || (r.len() == limit
                    && forall|j: int|
                    0 <= j < r.len() ==> (#[trigger] r[j]).last_used_at >= found[i].last_used_at)
        }),
{
    let typed = history::lowercased(text::trimmed(input));
    let keep = |p: PageModel| goes_with_page(p, typed);
    let found = pages_with(pages, typed);
    let keys = page_keys(found, now);
    let order = ordering(keys);
    let r = ranked_pages(pages, input, now, limit);
    an_ordering_is_in_order(keys);
    assert forall|i: int| 0 <= i < found.len() implies (#[trigger] found[i]).last_used_at <= now by {
        assert(found.contains(found[i]));
        pages.lemma_filter_contains_rev(keep, found[i]);
        let k = pages.index_of(found[i]);
        assert(pages[k] == found[i]);
    }
    assert forall|i: int, j: int| 0 <= i < j < order.len() implies found[#[trigger]
        order[i]].last_used_at >= found[#[trigger] order[j]].last_used_at by {
        assert(found[order[i]].last_used_at <= now);
        assert(found[order[j]].last_used_at <= now);
        assert(keys[order[i]].age == age_at(now, found[order[i]].last_used_at));
        assert(keys[order[j]].age == age_at(now, found[order[j]].last_used_at));
    }
    assert forall|i: int| 0 <= i < r.len() implies found.contains(#[trigger] r[i]) by {
        assert(r[i] == found[order[i]]);
    }
    assert forall|i: int, j: int| 0 <= i < j < r.len() implies (#[trigger] r[i]).last_used_at >= (
    #[trigger] r[j]).last_used_at by {
        assert(r[i] == found[order[i]] && r[j] == found[order[j]]);
    }
    assert forall|i: int| 0 <= i < found.len() implies r.contains(#[trigger] found[i]) || (r.len()
        == limit && forall|j: int|
        0 <= j < r.len() ==> (#[trigger] r[j]).last_used_at >= found[i].last_used_at) by {
        lemma_order_holds_all(keys, order, i);
        let k = order.index_of(i);
        assert(order[k] == i);
        if k < r.len() {
            assert(r[k] == found[i]);
        } else {
            assert forall|j: int| 0 <= j < r.len() implies (#[trigger] r[j]).last_used_at
                >= found[i].last_used_at by {
                assert(r[j] == found[order[j]]);
                assert(found[order[j]].last_used_at >= found[order[k]].last_used_at);
            }
        }
    }
}

proof fn lemma_order_holds_all(keys: Seq<RankKey>, order: Seq<int>, i: int)
    requires
        is_order(keys, order),
        0 <= i < keys.len(),
    ensures
        order.contains(i),
{
    let n = keys.len() as int;
    assert(order.no_duplicates()) by {
        assert forall|a: int, b: int| 0 <= a < b < order.len() implies order[a] != order[b] by {
            assert(comes_before(keys[order[a]], keys[order[b]]) || keys[order[a]] == keys[order[b]]
                && order[a] < order[b]);
        }
    }
    let all = vstd::set_lib::set_int_range(0, n);
    vstd::set_lib::lemma_int_range(0, n);
    order.unique_seq_to_set();
    assert(order.to_set().subset_of(all)) by {
        assert forall|x: int| order.to_set().contains(x) implies all.contains(x) by {
            let k = order.index_of(x);
            assert(0 <= order[k] < n);
        }
    }
    vstd::set_lib::lemma_subset_equality(order.to_set(), all);
    assert(order.to_set().contains(i));
}

/// A query that starts with the typed text comes before one in which it stands later,
/// and is given before it however long ago it was used; of two that do the same, the
/// one that was used later is given first.
pub proof fn a_start_is_worth_more_than_a_middle(
    a: InputModel,
    b: InputModel,
    rest: Seq<char>,
    front: Seq<char>,
    typed: Seq<char>,
    now: u64,
)
    requires
        history::lowercased(a.text) == typed + rest,
        front.len() > 0,
        history::lowercased(b.text) == front + typed + rest,
        !typed.is_prefix_of(history::lowercased(b.text)),
    ensures
        query_tier(history::lowercased(a.text), typed) is Some,
        query_tier(history::lowercased(b.text), typed) is Some,
        comes_before(
            query_keys(seq![a, b], typed, now)[0],
            query_keys(seq![a, b], typed, now)[1],
        ),
        ordering(query_keys(seq![b, a], typed, now)) == seq![1int, 0int],
{
    let x = history::lowercased(a.text);
    let y = history::lowercased(b.text);
    assert(x.take(typed.len() as int) =~= typed);
    assert(text::occurs_at(y, typed, front.len() as int)) by {
        assert(y.subrange(front.len() as int, front.len() as int + typed.len()) =~= typed);
    }
    let keys = query_keys(seq![b, a], typed, now);
    let first = keys.drop_last();
    assert(first.drop_last() =~= Seq::empty());
    assert(ordering(first.drop_last()) =~= Seq::empty());
    assert(place_for(first, Seq::empty(), first.last(), 0) == 0);
    assert(ordering(first) =~= seq![0int]);
    assert(comes_before(keys[1], keys[0]));
    assert(place_for(keys, seq![0int], keys.last(), 0) == 0);
    assert(ordering(keys) =~= seq![1int, 0int]);
}

/// A query goes with typed text exactly where the text stands in it, both in lower
/// case.
pub proof fn a_query_goes_with_its_parts(entries: Seq<InputModel>, typed: Seq<char>, i: int)
    requires
        0 <= i < entries.len(),
    ensures
        queries_with(entries, typed).contains(entries[i]) <==> exists|
            front: Seq<char>,
            back: Seq<char>,
        |
            history::lowercased(entries[i].text) == #[trigger] (front + typed + back),
{
    let keep = |e: InputModel| query_tier(history::lowercased(e.text), typed) is Some;
    let lower = history::lowercased(entries[i].text);
    text::a_text_holds_its_parts(lower, typed);
    if typed.is_prefix_of(lower) {
        assert(lower =~= Seq::empty() + typed + lower.skip(typed.len() as int));
    }
    if keep(entries[i]) {
        entries.lemma_filter_contains(keep, i);
    }
    if queries_with(entries, typed).contains(entries[i]) {
        let k = entries.filter(keep).index_of(entries[i]);
        entries.lemma_filter_pred(keep, k);
    }
}

/// A page goes with typed text exactly where the text stands in its URL or its title,
/// all in lower case.
pub proof fn a_page_goes_with_its_parts(pages: Seq<PageModel>, typed: Seq<char>, i: int)
    requires
        0 <= i < pages.len(),
    ensures
        pages_with(pages, typed).contains(pages[i]) <==> (exists|
            front: Seq<char>,
            back: Seq<char>,
        |
            history::lowercased(pages[i].url) == #[trigger] (front + typed + back)) || (
        pages[i].title is Some && exists|front: Seq<char>, back: Seq<char>|
            history::lowercased(pages[i].title->0) == #[trigger] (front + typed + back)),
{
    let keep = |p: PageModel| goes_with_page(p, typed);
    text::a_text_holds_its_parts(history::lowercased(pages[i].url), typed);
    if let Some(t) = pages[i].title {
        text::a_text_holds_its_parts(history::lowercased(t), typed);
    }
    if keep(pages[i]) {
        pages.lemma_filter_contains(keep, i);
    }
    if pages_with(pages, typed).contains(pages[i]) {
        let k = pages.filter(keep).index_of(pages[i]);
        pages.lemma_filter_pred(keep, k);
    }
}

} // verus!
