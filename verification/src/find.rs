//! Finding text in a page: the query, and which of its matches is active. The
//! page itself is searched elsewhere; it reports how many matches there are.

use vstd::prelude::*;
use vstd::string::*;

use crate::tab_id::TabId;
use crate::text::{self, trim};
use crate::weburl;

verus! {

/// What is searched for where a text was typed: the text without white space
/// around it; nothing if nothing else is in it.
pub open spec fn normalized_query(raw: Seq<char>) -> Option<Seq<char>> {
    let query = text::trimmed(raw);
    if query.len() == 0 {
        None
    } else {
        Some(query)
    }
}

/// What is searched for where a text was typed: the text without white space
/// around it. `None` if nothing else is in it: there is nothing to search for, and
/// what was found before is forgotten.
pub fn normalize_query(raw: &str) -> (r: Option<String>)
    ensures
        weburl::opt_text(r) == normalized_query(raw@),
{
    let query = trim(raw);
    if query.unicode_len() == 0 {
        None
    } else {
        Some(query.to_owned())
    }
}

/// A search in the page of one tab.
#[derive(Debug, PartialEq, Eq)]
pub struct FindState {
    tab_id: TabId,
    query: String,
    case_sensitive: bool,
    matches: Matches,
}

/// The matches of a query: how many there are, and which is active.
#[derive(Debug, Clone, Copy, PartialEq, Eq)]
struct Matches {
    total: usize,
    active: Option<usize>,
}

/// What a [`FindState`] stands for.
pub struct FindModel {
    pub tab_id: TabId,
    pub query: Seq<char>,
    pub case_sensitive: bool,
    /// How many matches there are; 0 until the page has reported.
    pub total: usize,
    /// Which match is active, from 0 on.
    pub active: Option<usize>,
}

impl View for FindState {
    type V = FindModel;

    closed spec fn view(&self) -> FindModel {
        FindModel {
            tab_id: self.tab_id,
            query: self.query@,
            case_sensitive: self.case_sensitive,
            total: self.matches.total,
            active: self.matches.active,
        }
    }
}

/// Whether the active match is one of those that there are. There is one whenever
/// there are any.
pub open spec fn is_wf(s: FindModel) -> bool {
    match s.active {
        Some(i) => i < s.total,
        None => s.total == 0,
    }
}

/// The match after one, the first after the last; the first where none is active.
pub open spec fn match_after(active: Option<usize>, total: usize) -> Option<usize> {
    if total == 0 {
        None
    } else {
        match active {
            Some(i) => Some(((i + 1) % total as int) as usize),
            None => Some(0usize),
        }
    }
}

/// The match before one, the last before the first; the last where none is active.
pub open spec fn match_before(active: Option<usize>, total: usize) -> Option<usize> {
    if total == 0 {
        None
    } else {
        match active {
            Some(i) => Some(((i + total - 1) % total as int) as usize),
            None => Some((total - 1) as usize),
        }
    }
}

impl Clone for FindState {
    fn clone(&self) -> (r: Self)
        ensures
            r@ == self@,
    {
        proof {
            use_type_invariant(self);
        }
        FindState {
            tab_id: self.tab_id,
            query: self.query.clone(),
            case_sensitive: self.case_sensitive,
            matches: self.matches,
        }
    }
}

impl FindState {
    #[verifier::type_invariant]
    spec fn active_is_a_match(&self) -> bool {
        is_wf(self@)
    }

    /// A search that has no query yet.
    pub fn new(tab_id: TabId) -> (r: Self)
        ensures
            r@ == (FindModel {
                tab_id,
                query: Seq::empty(),
                case_sensitive: false,
                total: 0,
                active: None,
            }),
    {
        proof {
            reveal_strlit("");
        }
        let query: String = "".to_owned();
        assert(query@ =~= Seq::empty());
        let matches = Matches { total: 0, active: None };
        FindState { tab_id, query, case_sensitive: false, matches }
    }

    /// The tab that is searched.
    pub fn tab_id(&self) -> (r: TabId)
        ensures
            r == self@.tab_id,
    {
        self.tab_id
    }

    /// The query.
    pub fn query(&self) -> (r: &str)
        ensures
            r@ == self@.query,
    {
        self.query.as_str()
    }

    /// Whether upper and lower case differ.
    pub fn case_sensitive(&self) -> (r: bool)
        ensures
            r == self@.case_sensitive,
    {
        self.case_sensitive
    }

    /// How many matches there are; 0 until the page has reported.
    pub fn total(&self) -> (r: usize)
        ensures
            r == self@.total,
    {
        self.matches.total
    }

    /// Which match is active, from 0 on.
    pub fn active(&self) -> (r: Option<usize>)
        ensures
            r == self@.active,
            is_wf(self@),
    {
        proof {
            use_type_invariant(self);
        }
        self.matches.active
    }

    /// Starts a search for another query, of which no match is known.
    pub fn set_query(&mut self, query: String, case_sensitive: bool)
        ensures
            final(self)@ == (FindModel {
                query: query@,
                case_sensitive,
                total: 0,
                active: None,
                ..old(self)@
            }),
    {
        self.matches = Matches { total: 0, active: None };
        self.query = query;
        self.case_sensitive = case_sensitive;
    }

    /// Takes note of how many matches there are. The first becomes the active
    /// one.
    pub fn set_total(&mut self, total: usize)
        ensures
            final(self)@ == (FindModel {
                total,
                active: if total == 0 {
                    None
                } else {
                    Some(0usize)
                },
                ..old(self)@
            }),
    {
        let active: Option<usize> = if total == 0 {
            None
        } else {
            Some(0)
        };
        self.matches = Matches { total, active };
    }

    /// Goes on to the match after the active one, to the first after the last.
    /// Gives which it is; `None` if there are none.
    pub fn next_match(&mut self) -> (r: Option<usize>)
        ensures
            r == match_after(old(self)@.active, old(self)@.total),
            final(self)@ == (FindModel { active: r, ..old(self)@ }),
    {
        proof {
            use_type_invariant(&*self);
        }
        if self.matches.total == 0 {
            self.matches.active = None;
        } else {
            let next: usize = match self.matches.active {
                Some(i) => (i + 1) % self.matches.total,
                None => 0,
            };
            self.matches.active = Some(next);
        }
        self.matches.active
    }

    /// Goes back to the match before the active one, to the last before the first.
    /// Gives which it is; `None` if there are none.
    pub fn previous_match(&mut self) -> (r: Option<usize>)
        ensures
            r == match_before(old(self)@.active, old(self)@.total),
            final(self)@ == (FindModel { active: r, ..old(self)@ }),
    {
        proof {
            use_type_invariant(&*self);
        }
        if self.matches.total == 0 {
            self.matches.active = None;
        } else {
            let previous: usize = match self.matches.active {
                Some(i) => {
                    proof {
                        lemma_one_back(i as int, self.matches.total as int);
                    }
                    if i == 0 {
                        self.matches.total - 1
                    } else {
                        i - 1
                    }
                },
                None => self.matches.total - 1,
            };
            self.matches.active = Some(previous);
        }
        self.matches.active
    }
}

proof fn lemma_one_back(i: int, total: int)
    requires
        0 <= i < total,
    ensures
        (i + total - 1) % total == if i == 0 {
            total - 1
        } else {
            i - 1
        },
{
    if i == 0 {
        vstd::arithmetic::div_mod::lemma_small_mod((total - 1) as nat, total as nat);
    } else {
        vstd::arithmetic::div_mod::lemma_mod_add_multiples_vanish(i - 1, total);
        vstd::arithmetic::div_mod::lemma_small_mod((i - 1) as nat, total as nat);
    }
}

// ---------------------------------------------------------------------------
// Laws

/// Going on and going back undo each other.
pub proof fn next_and_previous_undo_each_other(i: usize, total: usize)
    requires
        i < total,
    ensures
        match_before(match_after(Some(i), total), total) == Some(i),
        match_after(match_before(Some(i), total), total) == Some(i),
{
    lemma_one_back(i as int, total as int);
    lemma_one_on(i as int, total as int);
    lemma_one_back(match_after(Some(i), total)->0 as int, total as int);
    lemma_one_on(match_before(Some(i), total)->0 as int, total as int);
}

proof fn lemma_one_on(i: int, total: int)
    requires
        0 <= i < total,
    ensures
        (i + 1) % total == if i == total - 1 {
            0
        } else {
            i + 1
        },
{
    if i == total - 1 {
        vstd::arithmetic::div_mod::lemma_mod_self_0(total);
    } else {
        vstd::arithmetic::div_mod::lemma_small_mod((i + 1) as nat, total as nat);
    }
}

/// As many steps on as there are matches lead through all of them: after `n` steps
/// from the first, the active match is number `n`.
pub proof fn next_leads_through_all_matches(n: nat, total: usize)
    requires
        n < total,
    ensures
        steps_on(n, total) == Some(n as usize),
    decreases n,
{
    if n > 0 {
        next_leads_through_all_matches((n - 1) as nat, total);
        lemma_one_on(n - 1, total as int);
    }
}

/// The active match after `n` steps on from the first.
pub open spec fn steps_on(n: nat, total: usize) -> Option<usize>
    decreases n,
{
    if n == 0 {
        Some(0usize)
    } else {
        match_after(steps_on((n - 1) as nat, total), total)
    }
}

/// The active match is one of those that there are, whatever was done.
pub proof fn the_active_match_exists(s: FindModel)
    requires
        is_wf(s),
    ensures
        is_wf(FindModel { active: match_after(s.active, s.total), ..s }),
        is_wf(FindModel { active: match_before(s.active, s.total), ..s }),
{
    if let Some(i) = s.active {
        lemma_one_on(i as int, s.total as int);
        lemma_one_back(i as int, s.total as int);
    }
}

/// Where no match is active yet, going on leads to the first, and going back to the
/// last; from any other, going on leads to the next, and from the last to the first.
pub proof fn matches_are_gone_through_in_order(i: usize, total: usize)
    requires
        i < total,
    ensures
        match_after(None, total) == Some(0usize),
        match_before(None, total) == Some((total - 1) as usize),
        i + 1 < total ==> match_after(Some(i), total) == Some((i + 1) as usize),
        i + 1 == total ==> match_after(Some(i), total) == Some(0usize),
        i > 0 ==> match_before(Some(i), total) == Some((i - 1) as usize),
        i == 0 ==> match_before(Some(i), total) == Some((total - 1) as usize),
        match_after(Some(i), 0) is None,
        match_before(Some(i), 0) is None,
{
    lemma_one_on(i as int, total as int);
    let n = total as int;
    if i > 0 {
        assert((i + n - 1) % n == i - 1) by (nonlinear_arith)
            requires
                0 < i < n,
        ;
    } else {
        assert((i + n - 1) % n == n - 1) by (nonlinear_arith)
            requires
                i == 0,
                0 < n,
        ;
    }
    if i + 1 < total {
        assert((i + 1) % n == i + 1) by (nonlinear_arith)
            requires
                0 <= i,
                i + 1 < n,
        ;
    } else {
        assert((i + 1) % n == 0) by (nonlinear_arith)
            requires
                i + 1 == n,
                0 < n,
        ;
    }
}

/// What is searched for is what was typed without the white space around it, and
/// nothing is searched for where nothing else was typed.
pub proof fn a_query_is_what_is_inside(front: Seq<char>, query: Seq<char>, back: Seq<char>)
    requires
        text::is_blank(front),
        text::is_blank(back),
        query.len() > 0,
        !text::is_white_space(query.first()),
        !text::is_white_space(query.last()),
    ensures
        normalized_query(front + query + back) == Some(query),
        normalized_query(front) is None,
{
    text::trimming_finds_what_is_inside(front, query, back);
    let (i, j) = text::lemma_trimmed_is_part(front);
    text::lemma_trimmed_ends(front);
    if text::trimmed(front).len() > 0 {
        assert(text::trimmed(front).first() == front[i]);
    }
}

} // verus!
