//! The list below the address bar: what typed text can be taken for, and what
//! else there is that goes with it.

use vstd::prelude::*;
use vstd::string::*;

use crate::navigation::{self, build_search_url, classify_input, Intent, IntentModel};
use crate::text::{self, trim};
use crate::weburl;

verus! {

/// How many rows the list has at most, unless a caller knows better.
pub const DEFAULT_CANDIDATE_LIMIT: usize = 8;

/// What a row of the list is. It decides how the row looks, not what it does.
#[derive(Debug, Clone, Copy, PartialEq, Eq, Structural)]
pub enum CandidateKind {
    /// The text as a URL.
    NavigateUrl,
    /// The text as a query.
    Search,
    /// A visited page.
    History,
    /// A saved page.
    Bookmark,
}

/// A row of the list.
#[derive(Debug, Clone, PartialEq, Eq)]
pub struct Candidate {
    pub kind: CandidateKind,
    /// What is loaded when the row is picked: a whole URL, never typed text.
    pub target_url: String,
    pub label: String,
    /// What is shown beside the label, where it does not say everything.
    pub detail: Option<String>,
}

/// What a [`Candidate`] stands for.
pub struct CandidateModel {
    pub kind: CandidateKind,
    pub target_url: Seq<char>,
    pub label: Seq<char>,
    pub detail: Option<Seq<char>>,
}

impl View for Candidate {
    type V = CandidateModel;

    open spec fn view(&self) -> CandidateModel {
        CandidateModel {
            kind: self.kind,
            target_url: self.target_url@,
            label: self.label@,
            detail: weburl::opt_text(self.detail),
        }
    }
}

/// What candidates stand for.
pub open spec fn candidate_models(candidates: Seq<Candidate>) -> Seq<CandidateModel> {
    candidates.map_values(|c: Candidate| c@)
}

/// Where more rows come from.
pub trait CandidateSource {
    /// Whether `offered` is an answer that the source may give. A source that does
    /// not say may give any.
    open spec fn may_offer(
        &self,
        input: Seq<char>,
        limit: usize,
        offered: Seq<CandidateModel>,
    ) -> bool {
        true
    }

    /// The rows for typed text, the best first. `limit` is how many there is
    /// room for; rows beyond it are dropped. Every row's URL is whole already.
    fn candidates(&self, input: &str, limit: usize) -> (r: Vec<Candidate>)
        ensures
            self.may_offer(input@, limit, candidate_models(r@)),
    ;
}

/// The row that searches for a query, where `url` is what the search engine makes
/// of it.
pub open spec fn search_row(
    engine: Seq<char>,
    query: Seq<char>,
    url: Option<Seq<char>>,
) -> Option<CandidateModel> {
    match url {
        Some(target_url) => Some(
            CandidateModel {
                kind: CandidateKind::Search,
                target_url,
                label: query,
                detail: Some(engine + " で検索"@),
            },
        ),
        None => None,
    }
}

/// What an optional candidate stands for.
pub open spec fn opt_candidate(c: Option<Candidate>) -> Option<CandidateModel> {
    match c {
        Some(row) => Some(row@),
        None => None,
    }
}

/// The row that searches for a query, where `url` is what the search engine makes
/// of it.
pub fn make_search_row(engine: &str, query: &str, url: Option<String>) -> (r: Option<Candidate>)
    ensures
        opt_candidate(r) == search_row(engine@, query@, weburl::opt_text(url)),
{
    match url {
        Some(target_url) => {
            let mut detail = engine.to_owned();
            detail.append(" で検索");
            Some(
                Candidate {
                    kind: CandidateKind::Search,
                    target_url,
                    label: query.to_owned(),
                    detail: Some(detail),
                },
            )
        },
        None => None,
    }
}

/// The row that searches for a query; none if the template makes no URL of it.
pub fn search_candidate(
    search_engine_name: &str,
    search_query_template: &str,
    query: &str,
) -> (r: Option<Candidate>)
    ensures
        opt_candidate(r) == search_row(
            search_engine_name@,
            query@,
            navigation::search_url(search_query_template@, query@),
        ),
        r matches Some(c) ==> navigation::has_allowed_scheme(c.target_url@),
{
    let url = build_search_url(search_query_template, query);
    make_search_row(search_engine_name, query, url)
}

/// The text that typed text is a query for: what follows a question mark, or all
/// of it.
pub open spec fn query_of(intent: Option<IntentModel>, typed: Seq<char>) -> Seq<char> {
    match intent {
        Some(IntentModel::Search(query)) => query,
        _ => typed,
    }
}

/// The rows that text gives by itself: as a URL, if it is one, and as a query.
/// `search` is the row for its query.
pub open spec fn own_rows(
    intent: Option<IntentModel>,
    search: Option<CandidateModel>,
) -> Seq<CandidateModel> {
    let searches = match search {
        Some(row) => seq![row],
        None => Seq::empty(),
    };
    match intent {
        Some(IntentModel::Url(url)) => seq![
            CandidateModel {
                kind: CandidateKind::NavigateUrl,
                target_url: url,
                label: url,
                detail: None,
            },
        ] + searches,
        Some(IntentModel::Search(_)) => searches,
        None => Seq::empty(),
    }
}

/// The rows that text gives by itself, where `intent` is what it is taken for and
/// `search` is the row for its query.
pub fn make_own_rows(intent: Option<Intent>, search: Option<Candidate>) -> (r: Vec<Candidate>)
    ensures
        candidate_models(r@) == own_rows(navigation::opt_intent(intent), opt_candidate(search)),
{
    let ghost expected = own_rows(navigation::opt_intent(intent), opt_candidate(search));
    let mut rows: Vec<Candidate> = Vec::new();
    match intent {
        Some(Intent::Url(url)) => {
            rows.push(
                Candidate {
                    kind: CandidateKind::NavigateUrl,
                    target_url: url.clone(),
                    label: url,
                    detail: None,
                },
            );
            match search {
                Some(row) => {
                    rows.push(row);
                },
                None => {},
            }
        },
        Some(Intent::Search(_)) => {
            match search {
                Some(row) => {
                    rows.push(row);
                },
                None => {},
            }
        },
        None => {},
    }
    assert(candidate_models(rows@) =~= expected);
    rows
}

/// The rows that typed text gives by itself.
pub open spec fn built_in(
    input: Seq<char>,
    engine: Seq<char>,
    template: Seq<char>,
) -> Seq<CandidateModel> {
    let intent = navigation::classified(input);
    let query = query_of(intent, text::trimmed(input));
    own_rows(intent, search_row(engine, query, navigation::search_url(template, query)))
}

/// The rows before any source, and after each of the first `n` that was asked: a
/// source is asked only while there is room.
pub open spec fn gathered(
    own: Seq<CandidateModel>,
    answers: Seq<Seq<CandidateModel>>,
    n: nat,
    limit: usize,
) -> Seq<CandidateModel>
    decreases n,
{
    if n == 0 {
        own
    } else {
        let before = gathered(own, answers, (n - 1) as nat, limit);
        if before.len() >= limit {
            before
        } else {
            before + answers[n - 1]
        }
    }
}

/// Whether `answers` are ones that the sources may give: each source that is asked
/// is asked for as many rows as there is room for.
pub open spec fn are_answers(
    sources: Seq<&dyn CandidateSource>,
    input: Seq<char>,
    own: Seq<CandidateModel>,
    answers: Seq<Seq<CandidateModel>>,
    limit: usize,
) -> bool {
    &&& answers.len() == sources.len()
    &&& forall|k: int|
        0 <= k < sources.len() && gathered(own, answers, k as nat, limit).len() < limit ==> (
        #[trigger] sources[k]).may_offer(
            input,
            (limit - gathered(own, answers, k as nat, limit).len()) as usize,
            answers[k],
        )
}

/// The first `limit` rows.
pub open spec fn cut(rows: Seq<CandidateModel>, limit: usize) -> Seq<CandidateModel> {
    if rows.len() > limit {
        rows.take(limit as int)
    } else {
        rows
    }
}

/// The rows that rows and answers make.
pub open spec fn listed(
    own: Seq<CandidateModel>,
    answers: Seq<Seq<CandidateModel>>,
    limit: usize,
) -> Seq<CandidateModel> {
    cut(gathered(own, answers, answers.len(), limit), limit)
}

proof fn lemma_gathered_is_local(
    own: Seq<CandidateModel>,
    a: Seq<Seq<CandidateModel>>,
    b: Seq<Seq<CandidateModel>>,
    n: nat,
    limit: usize,
)
    requires
        n <= a.len(),
        n <= b.len(),
        forall|k: int| 0 <= k < n ==> #[trigger] a[k] == b[k],
    ensures
        gathered(own, a, n, limit) == gathered(own, b, n, limit),
    decreases n,
{
    if n > 0 {
        lemma_gathered_is_local(own, a, b, (n - 1) as nat, limit);
        assert(a[n - 1] == b[n - 1]);
    }
}

/// The rows for typed text: what it is by itself, as a URL and as a query, then
/// what the sources have, each of which is asked for as many rows as there is room
/// for; `limit` in all. Text that is refused gives no rows of its own.
pub fn build_candidates(
    input: &str,
    search_engine_name: &str,
    search_query_template: &str,
    sources: &[&dyn CandidateSource],
    limit: usize,
) -> (r: Vec<Candidate>)
    ensures
        ({
            let own = built_in(input@, search_engine_name@, search_query_template@);
            &&& exists|answers: Seq<Seq<CandidateModel>>| #[trigger]
                are_answers(sources@, input@, own, answers, limit) && candidate_models(r@)
                    == listed(own, answers, limit)
            &&& cut(own, limit).is_prefix_of(candidate_models(r@))
            &&& forall|i: int|
                0 <= i < r@.len() && i < own.len() ==> navigation::has_allowed_scheme(
                    (#[trigger] r@[i]).target_url@,
                )
        }),
        r@.len() <= limit,
{
    let ghost own = built_in(input@, search_engine_name@, search_query_template@);
    let intent = classify_input(input);
    let search = match &intent {
        Some(Intent::Search(query)) => search_candidate(
            search_engine_name,
            search_query_template,
            query,
        ),
        Some(Intent::Url(_)) => search_candidate(
            search_engine_name,
            search_query_template,
            trim(input),
        ),
        None => None,
    };
    let ghost rows = own_rows(navigation::opt_intent(intent), opt_candidate(search));
    let mut candidates = make_own_rows(intent, search);
    assert(rows =~= own);
    assert forall|i: int| 0 <= i < own.len() implies navigation::has_allowed_scheme(
        (#[trigger] candidates@[i]).target_url@,
    ) by {
        assert(candidate_models(candidates@)[i] == candidates@[i]@);
    }
    let ghost mut answers: Seq<Seq<CandidateModel>> = Seq::empty();
    for k in 0..sources.len()
        invariant
            answers.len() == k,
            candidate_models(candidates@) == gathered(own, answers, k as nat, limit),
            own.is_prefix_of(candidate_models(candidates@)),
            own.len() <= candidates@.len(),
            forall|i: int|
                0 <= i < own.len() ==> navigation::has_allowed_scheme(
                    (#[trigger] candidates@[i]).target_url@,
                ),
            forall|j: int|
                0 <= j < k && gathered(own, answers, j as nat, limit).len() < limit ==> (
                #[trigger] sources@[j]).may_offer(
                    input@,
                    (limit - gathered(own, answers, j as nat, limit).len()) as usize,
                    answers[j],
                ),
    {
        let ghost before = candidates@;
        let ghost asked = answers;
        if candidates.len() < limit {
            let room: usize = limit - candidates.len();
            let mut more = sources[k].candidates(input, room);
            let ghost offered = candidate_models(more@);
            candidates.append(&mut more);
            proof {
                answers = answers.push(offered);
                assert(candidate_models(candidates@) =~= candidate_models(before) + offered);
            }
        } else {
            proof {
                answers = answers.push(Seq::empty());
            }
        }
        proof {
            assert forall|j: int| 0 <= j <= k implies gathered(own, asked, j as nat, limit)
                == #[trigger] gathered(own, answers, j as nat, limit) by {
                lemma_gathered_is_local(own, asked, answers, j as nat, limit);
            }
            lemma_gathered_is_local(own, asked, answers, k as nat, limit);
            assert forall|j: int|
                0 <= j < k + 1 && gathered(own, answers, j as nat, limit).len() < limit implies (
            #[trigger] sources@[j]).may_offer(
                input@,
                (limit - gathered(own, answers, j as nat, limit).len()) as usize,
                answers[j],
            ) by {
                if j < k {
                    assert(answers[j] == asked[j]);
                }
            }
        }
    }
    let ghost all = candidates@;
    if candidates.len() > limit {
        candidates.truncate(limit);
    }
    proof {
        assert(candidate_models(candidates@) =~= cut(candidate_models(all), limit));
        assert(are_answers(sources@, input@, own, answers, limit));
    }
    candidates
}

// ---------------------------------------------------------------------------
// Laws

/// Text that is loaded as a URL gives a row that loads it, and then one that searches
/// for what was typed; text that is searched for gives the search alone; text that is
/// refused gives nothing. A search that the engine's template cannot be filled for is
/// left out.
pub proof fn typed_text_gives_its_own_rows(
    input: Seq<char>,
    engine: Seq<char>,
    template: Seq<char>,
    i: int,
)
    ensures
        ({
            let rows = built_in(input, engine, template);
            match navigation::classified(input) {
                None => rows.len() == 0,
                Some(IntentModel::Search(query)) => {
                    &&& rows.len() == if navigation::search_url(template, query) is Some {
                        1nat
                    } else {
                        0nat
                    }
                    &&& rows.len() > 0 ==> rows[0].kind is Search && rows[0].label == query && Some(
                        rows[0].target_url,
                    ) == navigation::search_url(template, query)
                },
                Some(IntentModel::Url(url)) => {
                    let query = text::trimmed(input);
                    &&& rows.len() == if navigation::search_url(template, query) is Some {
                        2nat
                    } else {
                        1nat
                    }
                    &&& rows[0].kind is NavigateUrl
                    &&& rows[0].target_url == url
                    &&& rows[0].label == url
                    &&& rows[0].detail is None
                    &&& rows.len() > 1 ==> rows[1].kind is Search && rows[1].label == query && Some(
                        rows[1].target_url,
                    ) == navigation::search_url(template, query)
                },
            }
        }),
        0 <= i < built_in(input, engine, template).len() && built_in(
            input,
            engine,
            template,
        )[i].kind is Search ==> built_in(input, engine, template)[i].detail == Some(
            engine + " で検索"@,
        ),
{
}

/// The rows of text itself come first, in their order, and no list is longer than it
/// may be.
pub proof fn own_rows_come_first(
    own: Seq<CandidateModel>,
    answers: Seq<Seq<CandidateModel>>,
    limit: usize,
)
    ensures
        listed(own, answers, limit).len() <= limit,
        own.len() <= limit ==> own.is_prefix_of(listed(own, answers, limit)),
        own.len() >= limit ==> listed(own, answers, limit) == own.take(limit as int),
{
    lemma_gathered(own, answers, answers.len(), limit);
    let rows = gathered(own, answers, answers.len(), limit);
    let list = listed(own, answers, limit);
    assert(own =~= rows.take(own.len() as int));
    if own.len() <= limit {
        assert(list.take(own.len() as int) =~= own);
    }
    if own.len() >= limit {
        assert(list =~= own.take(limit as int));
    }
}

proof fn lemma_gathered(
    own: Seq<CandidateModel>,
    answers: Seq<Seq<CandidateModel>>,
    n: nat,
    limit: usize,
)
    ensures
        own.is_prefix_of(gathered(own, answers, n, limit)),
        own.len() >= limit ==> gathered(own, answers, n, limit) == own,
    decreases n,
{
    if n == 0 {
        assert(own.take(own.len() as int) =~= own);
    } else {
        lemma_gathered(own, answers, (n - 1) as nat, limit);
        let before = gathered(own, answers, (n - 1) as nat, limit);
        let after = gathered(own, answers, n, limit);
        assert(before.take(own.len() as int) =~= own);
        assert(after.take(own.len() as int) =~= own);
    }
}

/// The answers of sources, one after the other.
pub open spec fn all_answers(answers: Seq<Seq<CandidateModel>>) -> Seq<CandidateModel>
    decreases answers.len(),
{
    if answers.len() == 0 {
        Seq::empty()
    } else {
        all_answers(answers.drop_last()) + answers.last()
    }
}

/// A list is its own rows and what the sources answer, in the order of the sources,
/// cut where it is full: whatever a source that was not asked might say never shows.
pub proof fn sources_follow_in_order(
    own: Seq<CandidateModel>,
    answers: Seq<Seq<CandidateModel>>,
    limit: usize,
)
    ensures
        listed(own, answers, limit) == (own + all_answers(answers)).take(
            if (own + all_answers(answers)).len() < limit {
                (own + all_answers(answers)).len() as int
            } else {
                limit as int
            },
        ),
    decreases answers.len(),
{
    let all = own + all_answers(answers);
    if answers.len() == 0 {
        assert(all =~= own);
        assert(listed(own, answers, limit) =~= all.take(
            if all.len() < limit {
                all.len() as int
            } else {
                limit as int
            },
        ));
    } else {
        let front = answers.drop_last();
        sources_follow_in_order(own, front, limit);
        lemma_gathered_of_fewer(own, answers, front.len(), limit);
        let shorter = own + all_answers(front);
        let before = gathered(own, front, front.len(), limit);
        assert(before == gathered(own, answers, front.len(), limit));
        assert(all =~= shorter + answers.last());
        lemma_gathered_is_a_start(own, front, limit);
        let list = listed(own, answers, limit);
        if before.len() >= limit {
            assert(list =~= before.take(limit as int));
            assert(before.take(limit as int) =~= shorter.take(limit as int));
            assert(all.take(limit as int) =~= shorter.take(limit as int));
        } else {
            assert(before =~= shorter);
            assert(gathered(own, answers, answers.len(), limit) =~= all);
            assert(list =~= all.take(
                if all.len() < limit {
                    all.len() as int
                } else {
                    limit as int
                },
            ));
        }
    }
}

proof fn lemma_gathered_is_a_start(
    own: Seq<CandidateModel>,
    answers: Seq<Seq<CandidateModel>>,
    limit: usize,
)
    ensures
        ({
            let rows = gathered(own, answers, answers.len(), limit);
            let all = own + all_answers(answers);
            &&& rows.is_prefix_of(all)
            &&& rows.len() < limit ==> rows == all
        }),
    decreases answers.len(),
{
    let rows = gathered(own, answers, answers.len(), limit);
    let all = own + all_answers(answers);
    if answers.len() == 0 {
        assert(all =~= own);
        assert(all.take(rows.len() as int) =~= rows);
    } else {
        let front = answers.drop_last();
        let shorter = own + all_answers(front);
        lemma_gathered_is_a_start(own, front, limit);
        lemma_gathered_of_fewer(own, answers, front.len(), limit);
        let before = gathered(own, front, front.len(), limit);
        assert(all =~= shorter + answers.last());
        assert(shorter.take(before.len() as int) =~= before);
        if before.len() < limit {
            assert(rows =~= all);
        }
        assert(all.take(rows.len() as int) =~= rows);
    }
}

proof fn lemma_gathered_of_fewer(
    own: Seq<CandidateModel>,
    answers: Seq<Seq<CandidateModel>>,
    n: nat,
    limit: usize,
)
    requires
        0 < answers.len(),
        n < answers.len(),
    ensures
        gathered(own, answers.drop_last(), n, limit) == gathered(own, answers, n, limit),
    decreases n,
{
    if n > 0 {
        lemma_gathered_of_fewer(own, answers, (n - 1) as nat, limit);
        assert(answers.drop_last()[n - 1] == answers[n - 1]);
    }
}

} // verus!
