//! Rows for the list below the address bar from what the browser remembers:
//! visited and saved pages, and queries.

use vstd::prelude::*;
use vstd::string::*;

use crate::bookmarks::{self, BookmarkEntry, BookmarkStore};
use crate::history::{self, to_lowercase, HistoryEntry, HistoryStore};
use crate::input_history::{InputHistoryStore, InputModel};
use crate::navigation;
use crate::omnibox::{
    self, search_candidate, Candidate, CandidateKind, CandidateModel, CandidateSource,
};
use crate::ranking::{
    self, merge_entries, rank_input_history, rank_page_entries, PageEntry, PageModel,
};
use crate::text::{self, str_eq, trim};

verus! {

/// Visited and saved pages. One source for both, so that a page that is both
/// gives one row.
pub struct HistoryBookmarkSource<'a> {
    /// The visited pages; `None` for a private window, which must not show what
    /// other windows have visited.
    pub history: Option<&'a HistoryStore>,
    pub bookmarks: &'a BookmarkStore,
    /// The time, in seconds since the Unix epoch.
    pub now: u64,
}

/// Queries that were typed before.
pub struct InputHistorySource<'a> {
    pub store: &'a InputHistoryStore,
    pub search_engine_name: &'a str,
    pub search_query_template: &'a str,
    /// The time, in seconds since the Unix epoch.
    pub now: u64,
}

/// The row for a page: its title with the URL beside it, or the URL alone.
pub open spec fn page_row(page: PageModel) -> CandidateModel {
    CandidateModel {
        kind: if page.is_bookmark {
            CandidateKind::Bookmark
        } else {
            CandidateKind::History
        },
        target_url: page.url,
        label: match page.title {
            Some(title) => title,
            None => page.url,
        },
        detail: match page.title {
            Some(_) => Some(page.url),
            None => None,
        },
    }
}

/// [`page_row`] as a value.
pub open spec fn page_row_maker() -> spec_fn(PageModel) -> CandidateModel {
    |page: PageModel| page_row(page)
}

/// The rows for ranked pages.
pub fn page_candidates(pages: Vec<PageEntry>) -> (r: Vec<Candidate>)
    ensures
        omnibox::candidate_models(r@) == ranking::page_models(pages@).map_values(page_row_maker()),
{
    let ghost models = ranking::page_models(pages@);
    let mut rows: Vec<Candidate> = Vec::new();
    for i in 0..pages.len()
        invariant
            models == ranking::page_models(pages@),
            rows@.len() == i,
            forall|k: int| 0 <= k < i ==> (#[trigger] rows@[k])@ == page_row(models[k]),
    {
        let page: PageEntry = pages[i];
        assert(models[i as int] == page@);
        let kind = if page.is_bookmark {
            CandidateKind::Bookmark
        } else {
            CandidateKind::History
        };
        let url: String = page.url.to_owned();
        let row = match page.title {
            Some(title) => Candidate {
                kind,
                target_url: page.url.to_owned(),
                label: title.to_owned(),
                detail: Some(url),
            },
            None => Candidate { kind, target_url: page.url.to_owned(), label: url, detail: None },
        };
        rows.push(row);
    }
    assert(omnibox::candidate_models(rows@) =~= models.map_values(page_row_maker()));
    rows
}

/// The rows for typed text from visited and saved pages.
pub open spec fn page_rows(
    history: Seq<HistoryEntry>,
    bookmarks: Seq<BookmarkEntry>,
    input: Seq<char>,
    now: u64,
    limit: usize,
) -> Seq<CandidateModel> {
    if limit == 0 || text::trimmed(input).len() == 0 {
        Seq::empty()
    } else {
        ranking::ranked_pages(
            ranking::merged(history, bookmarks),
            input,
            now,
            limit,
        ).map_values(page_row_maker())
    }
}

impl<'a> HistoryBookmarkSource<'a> {
    /// The visits that the source may show.
    pub open spec fn visits(&self) -> Seq<HistoryEntry> {
        match self.history {
            Some(store) => store@.entries,
            None => Seq::empty(),
        }
    }
}

impl<'a> CandidateSource for HistoryBookmarkSource<'a> {
    open spec fn may_offer(
        &self,
        input: Seq<char>,
        limit: usize,
        offered: Seq<CandidateModel>,
    ) -> bool {
        offered == page_rows(self.visits(), self.bookmarks@.entries, input, self.now, limit)
    }

    fn candidates(&self, input: &str, limit: usize) -> (r: Vec<Candidate>) {
        let typed = trim(input);
        if limit == 0 || typed.unicode_len() == 0 {
            let none: Vec<Candidate> = Vec::new();
            assert(omnibox::candidate_models(none@) =~= Seq::empty());
            return none;
        }
        let no_visits: Vec<HistoryEntry> = Vec::new();
        let visits: &[HistoryEntry] = match self.history {
            Some(store) => store.entries(),
            None => no_visits.as_slice(),
        };
        let pages = merge_entries(visits, self.bookmarks.entries());
        page_candidates(rank_page_entries(pages, input, self.now, limit))
    }
}

/// The rows for ranked queries, but for one that is, in lower case, what was
/// typed: the list has a row for that already.
pub open spec fn rows_for_queries(
    queries: Seq<InputModel>,
    lower: Seq<char>,
    engine: Seq<char>,
    template: Seq<char>,
) -> Seq<CandidateModel>
    decreases queries.len(),
{
    if queries.len() == 0 {
        Seq::empty()
    } else {
        let before = rows_for_queries(queries.drop_last(), lower, engine, template);
        let query = queries.last().text;
        let row = omnibox::search_row(engine, query, navigation::search_url(template, query));
        if history::lowercased(query) == lower {
            before
        } else {
            match row {
                Some(row) => before.push(row),
                None => before,
            }
        }
    }
}

/// The rows for typed text from queries.
pub open spec fn query_rows(
    queries: Seq<InputModel>,
    engine: Seq<char>,
    template: Seq<char>,
    input: Seq<char>,
    now: u64,
    limit: usize,
) -> Seq<CandidateModel> {
    let typed = text::trimmed(input);
    if limit == 0 || typed.len() == 0 {
        Seq::empty()
    } else {
        rows_for_queries(
            ranking::ranked_queries(queries, typed, now, limit),
            history::lowercased(typed),
            engine,
            template,
        )
    }
}

impl<'a> CandidateSource for InputHistorySource<'a> {
    open spec fn may_offer(
        &self,
        input: Seq<char>,
        limit: usize,
        offered: Seq<CandidateModel>,
    ) -> bool {
        offered == query_rows(
            self.store@,
            self.search_engine_name@,
            self.search_query_template@,
            input,
            self.now,
            limit,
        )
    }

    fn candidates(&self, input: &str, limit: usize) -> (r: Vec<Candidate>) {
        let typed = trim(input);
        let mut rows: Vec<Candidate> = Vec::new();
        assert(omnibox::candidate_models(rows@) =~= Seq::empty());
        if limit == 0 || typed.unicode_len() == 0 {
            return rows;
        }
        let lower = to_lowercase(typed);
        let ranked = rank_input_history(self.store.entries(), typed, self.now, limit);
        let ghost queries = ranking::entry_models(ranked@);
        for i in 0..ranked.len()
            invariant
                queries == ranking::entry_models(ranked@),
                omnibox::candidate_models(rows@) == rows_for_queries(
                    queries.take(i as int),
                    lower@,
                    self.search_engine_name@,
                    self.search_query_template@,
                ),
        {
            assert(queries.take(i + 1).drop_last() =~= queries.take(i as int));
            assert(queries[i as int] == ranked@[i as int]@);
            let query: &str = ranked[i].text.as_str();
            let query_lower = to_lowercase(query);
            if !str_eq(&query_lower, &lower) {
                let ghost before = omnibox::candidate_models(rows@);
                match search_candidate(
                    self.search_engine_name,
                    self.search_query_template,
                    query,
                ) {
                    Some(row) => {
                        rows.push(row);
                        assert(omnibox::candidate_models(rows@) =~= before.push(row@));
                    },
                    None => {},
                }
            }
        }
        assert(queries.take(queries.len() as int) =~= queries);
        rows
    }
}

// ---------------------------------------------------------------------------
// Laws

/// A window without a history shows saved pages only.
pub proof fn a_private_window_shows_no_history(
    bookmarks: Seq<BookmarkEntry>,
    input: Seq<char>,
    now: u64,
    limit: usize,
    i: int,
)
    requires
        0 <= i < page_rows(Seq::empty(), bookmarks, input, now, limit).len(),
    ensures
        ({
            let row = page_rows(Seq::empty(), bookmarks, input, now, limit)[i];
            &&& row.kind == CandidateKind::Bookmark
            &&& bookmarks::has_url(bookmarks, row.target_url)
        }),
{
    a_row_is_for_a_known_page(Seq::empty(), bookmarks, input, now, limit, i);
}

/// Every row is for a page that was visited or saved, and says which.
pub proof fn a_row_is_for_a_known_page(
    history: Seq<HistoryEntry>,
    bookmarks: Seq<BookmarkEntry>,
    input: Seq<char>,
    now: u64,
    limit: usize,
    i: int,
)
    requires
        0 <= i < page_rows(history, bookmarks, input, now, limit).len(),
    ensures
        ({
            let row = page_rows(history, bookmarks, input, now, limit)[i];
            &&& row.kind == CandidateKind::Bookmark <==> bookmarks::has_url(
                bookmarks,
                row.target_url,
            )
            &&& row.kind == CandidateKind::History <==> !bookmarks::has_url(
                bookmarks,
                row.target_url,
            )
            &&& row.kind == CandidateKind::History ==> ranking::was_visited(history, row.target_url)
        }),
        page_rows(history, bookmarks, input, now, limit).len() <= limit,
{
    let pages = ranking::merged(history, bookmarks);
    ranking::merging_keeps_each_page_once(history, bookmarks);
    let query = history::lowercased(text::trimmed(input));
    let found = ranking::pages_with(pages, query);
    lemma_filtered_pages(pages, |p: PageModel| ranking::goes_with_page(p, query));
    let keys = ranking::page_keys(found, now);
    ranking::an_ordering_is_in_order(keys);
    let k = ranking::ordering(keys)[i];
    assert(pages.contains(found[k]));
    let m = pages.index_of(found[k]);
    assert(pages[m] == found[k]);
}

/// No two rows of pages lead to the same URL.
pub proof fn rows_lead_to_different_pages(
    history: Seq<HistoryEntry>,
    bookmarks: Seq<BookmarkEntry>,
    input: Seq<char>,
    now: u64,
    limit: usize,
    i: int,
    j: int,
)
    requires
        0 <= i < j < page_rows(history, bookmarks, input, now, limit).len(),
    ensures
        page_rows(history, bookmarks, input, now, limit)[i].target_url != page_rows(
            history,
            bookmarks,
            input,
            now,
            limit,
        )[j].target_url,
{
    let pages = ranking::merged(history, bookmarks);
    ranking::merging_keeps_each_page_once(history, bookmarks);
    let query = history::lowercased(text::trimmed(input));
    let found = ranking::pages_with(pages, query);
    lemma_filtered_pages(pages, |p: PageModel| ranking::goes_with_page(p, query));
    let keys = ranking::page_keys(found, now);
    ranking::an_ordering_is_in_order(keys);
    let order = ranking::ordering(keys);
    assert(order[i] != order[j]);
    assert(order[i] < order[j] || order[j] < order[i]);
    assert(found[order[i]].url != found[order[j]].url);
}

proof fn lemma_filtered_pages(pages: Seq<PageModel>, keep: spec_fn(PageModel) -> bool)
    requires
        ranking::are_distinct(pages),
    ensures
        ranking::are_distinct(pages.filter(keep)),
        forall|i: int|
            0 <= i < pages.filter(keep).len() ==> pages.contains(#[trigger] pages.filter(keep)[i]),
    decreases pages.len(),
{
    reveal(Seq::filter);
    if pages.len() > 0 {
        let shorter = pages.drop_last();
        let before = shorter.filter(keep);
        assert forall|i: int, j: int| 0 <= i < j < shorter.len() implies (#[trigger] shorter[i]).url
            != (#[trigger] shorter[j]).url by {
            assert(pages[i].url != pages[j].url);
        }
        lemma_filtered_pages(shorter, keep);
        let kept = pages.filter(keep);
        assert forall|i: int| 0 <= i < before.len() implies (#[trigger] before[i]).url
            != pages.last().url && pages.contains(before[i]) by {
            assert(shorter.contains(before[i]));
            let k = shorter.index_of(before[i]);
            assert(pages[k] == before[i]);
            assert(pages[k].url != pages[pages.len() - 1].url);
        }
        assert forall|i: int| 0 <= i < kept.len() implies pages.contains(#[trigger] kept[i]) by {
            if i < before.len() {
                assert(kept[i] == before[i]);
            } else {
                assert(kept[i] == pages[pages.len() - 1]);
            }
        }
    }
}

/// The row of a page leads to the page itself. It shows the title with the URL beside
/// it, or the URL alone where there is no title.
pub proof fn a_row_shows_where_it_leads(page: PageModel)
    ensures
        page_row(page).target_url == page.url,
        page_row(page).kind is Bookmark <==> page.is_bookmark,
        page_row(page).kind is History <==> !page.is_bookmark,
        page.title matches Some(t) ==> page_row(page).label == t && page_row(page).detail == Some(
            page.url,
        ),
        page.title is None ==> page_row(page).label == page.url && page_row(page).detail is None,
{
}

/// Each query gives a row that searches for it, in order, unless it is what was typed,
/// whatever its case, or the engine's template cannot be filled for it.
pub proof fn each_query_gives_its_own_row(
    queries: Seq<InputModel>,
    query: InputModel,
    lower: Seq<char>,
    engine: Seq<char>,
    template: Seq<char>,
)
    ensures
        rows_for_queries(Seq::empty(), lower, engine, template).len() == 0,
        ({
            let before = rows_for_queries(queries, lower, engine, template);
            let after = rows_for_queries(queries.push(query), lower, engine, template);
            let url = navigation::search_url(template, query.text);
            if history::lowercased(query.text) == lower || url is None {
                after == before
            } else {
                &&& after.drop_last() == before
                &&& after.len() == before.len() + 1
                &&& after.last().kind is Search
                &&& after.last().label == query.text
                &&& Some(after.last().target_url) == url
            }
        }),
{
    assert(queries.push(query).drop_last() =~= queries);
    let before = rows_for_queries(queries, lower, engine, template);
    let after = rows_for_queries(queries.push(query), lower, engine, template);
    assert(after.len() == before.len() + 1 ==> after.drop_last() =~= before);
}

/// Nothing is offered for no text, or where there is no room.
pub proof fn nothing_is_offered_for_nothing(
    history: Seq<HistoryEntry>,
    bookmarks: Seq<BookmarkEntry>,
    queries: Seq<InputModel>,
    engine: Seq<char>,
    template: Seq<char>,
    input: Seq<char>,
    now: u64,
    limit: usize,
)
    requires
        limit == 0 || text::is_blank(input),
    ensures
        page_rows(history, bookmarks, input, now, limit).len() == 0,
        query_rows(queries, engine, template, input, now, limit).len() == 0,
{
    let (i, j) = text::lemma_trimmed_is_part(input);
    text::lemma_trimmed_ends(input);
    if text::trimmed(input).len() > 0 {
        assert(text::trimmed(input).first() == input[i]);
    }
}

/// The rows for typed text are those of the pages that go with it, one for each and in
/// their order, wherever there is room for any.
pub proof fn each_page_gives_its_own_row(
    history: Seq<HistoryEntry>,
    bookmarks: Seq<BookmarkEntry>,
    input: Seq<char>,
    now: u64,
    limit: usize,
    i: int,
)
    requires
        limit > 0,
        text::trimmed(input).len() > 0,
    ensures
        ({
            let pages = ranking::ranked_pages(
                ranking::merged(history, bookmarks),
                input,
                now,
                limit,
            );
            let rows = page_rows(history, bookmarks, input, now, limit);
            &&& rows.len() == pages.len()
            &&& 0 <= i < rows.len() ==> rows[i].target_url == pages[i].url
            &&& 0 <= i < rows.len() ==> (rows[i].kind is Bookmark <==> pages[i].is_bookmark)
        }),
{
}

} // verus!
