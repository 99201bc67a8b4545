//! The queries that were typed into the address bar, kept so that the start of
//! one brings the whole of it back. URLs are not among them: a visited page is in
//! the history.

use vstd::prelude::*;
use vstd::string::*;

use crate::text::{self, str_eq, trim};

verus! {

/// One query.
#[derive(Debug, Clone, PartialEq, Eq)]
pub struct InputHistoryEntry {
    /// The query as it was typed, without white space around it.
    pub text: String,
    /// When it was last used, in seconds since the Unix epoch.
    pub last_used_at: u64,
    /// How often it was used.
    pub use_count: u32,
}

/// What an [`InputHistoryEntry`] stands for.
pub struct InputModel {
    pub text: Seq<char>,
    pub last_used_at: u64,
    pub use_count: u32,
}

impl View for InputHistoryEntry {
    type V = InputModel;

    open spec fn view(&self) -> InputModel {
        InputModel {
            text: self.text@,
            last_used_at: self.last_used_at,
            use_count: self.use_count,
        }
    }
}

/// What entries stand for.
pub open spec fn input_models(entries: Seq<InputHistoryEntry>) -> Seq<InputModel> {
    entries.map_values(|e: InputHistoryEntry| e@)
}

/// How many queries are worth keeping.
pub const DEFAULT_MAX_ENTRIES: usize = 200;

/// Queries, in no order that means anything.
#[derive(Debug, Clone, PartialEq, Eq)]
pub struct InputHistoryStore {
    entries: Vec<InputHistoryEntry>,
}

impl View for InputHistoryStore {
    type V = Seq<InputModel>;

    closed spec fn view(&self) -> Seq<InputModel> {
        input_models(self.entries@)
    }
}

/// The index of the first entry with a text, from an index on; the number of
/// entries where there is none.
pub open spec fn text_index(entries: Seq<InputModel>, t: Seq<char>, from: int) -> int
    decreases entries.len() - from,
{
    if from >= entries.len() {
        entries.len() as int
    } else if entries[from].text == t {
        from
    } else {
        text_index(entries, t, from + 1)
    }
}

/// The index of the entry that was used longest ago, the first of several.
pub open spec fn oldest_index(entries: Seq<InputModel>) -> int
    decreases entries.len(),
{
    if entries.len() <= 1 {
        0
    } else {
        let before = oldest_index(entries.drop_last());
        if entries.last().last_used_at < entries[before].last_used_at {
            entries.len() - 1
        } else {
            before
        }
    }
}

/// An entry that is used once more.
pub open spec fn used_again(entry: InputModel, at: u64) -> InputModel {
    InputModel {
        last_used_at: at,
        use_count: if entry.use_count < u32::MAX {
            (entry.use_count + 1) as u32
        } else {
            u32::MAX
        },
        ..entry
    }
}

/// A query that is used for the first time.
pub open spec fn used_first(t: Seq<char>, at: u64) -> InputModel {
    InputModel { text: t, last_used_at: at, use_count: 1 }
}

/// The entries after a query. Where a new one would make more than `max_entries`
/// of them, the one that was used longest ago goes first; 0 stands for no limit.
pub open spec fn recorded(
    entries: Seq<InputModel>,
    query: Seq<char>,
    at: u64,
    max_entries: usize,
) -> Seq<InputModel> {
    let t = text::trimmed(query);
    let i = text_index(entries, t, 0);
    if t.len() == 0 {
        entries
    } else if i < entries.len() {
        entries.update(i, used_again(entries[i], at))
    } else if 0 < max_entries <= entries.len() {
        entries.remove(oldest_index(entries)).push(used_first(t, at))
    } else {
        entries.push(used_first(t, at))
    }
}

/// No two entries have the same text, none has white space around it or is empty,
/// and each was used at least once.
pub open spec fn is_wf(entries: Seq<InputModel>) -> bool {
    &&& forall|i: int, j: int|
        0 <= i < j < entries.len() ==> (#[trigger] entries[i]).text != (#[trigger] entries[j]).text
    &&& forall|i: int|
        0 <= i < entries.len() ==> (#[trigger] entries[i]).text.len() > 0 && text::trimmed(
            entries[i].text,
        ) == entries[i].text && entries[i].use_count >= 1
}

proof fn lemma_text_index(entries: Seq<InputModel>, t: Seq<char>, from: int)
    requires
        0 <= from <= entries.len(),
    ensures
        from <= text_index(entries, t, from) <= entries.len(),
        text_index(entries, t, from) < entries.len() ==> entries[text_index(entries, t, from)].text
            == t,
        forall|j: int|
            from <= j < text_index(entries, t, from) ==> (#[trigger] entries[j]).text != t,
    decreases entries.len() - from,
{
    if from < entries.len() && entries[from].text != t {
        lemma_text_index(entries, t, from + 1);
    }
}

proof fn lemma_oldest_index(entries: Seq<InputModel>)
    requires
        entries.len() > 0,
    ensures
        0 <= oldest_index(entries) < entries.len(),
        forall|i: int|
            0 <= i < entries.len() ==> entries[oldest_index(entries)].last_used_at <= (
            #[trigger] entries[i]).last_used_at,
    decreases entries.len(),
{
    if entries.len() > 1 {
        let shorter = entries.drop_last();
        lemma_oldest_index(shorter);
        assert forall|i: int| 0 <= i < entries.len() implies entries[oldest_index(
            entries,
        )].last_used_at <= (#[trigger] entries[i]).last_used_at by {
            if i < shorter.len() {
                assert(shorter[oldest_index(shorter)].last_used_at <= shorter[i].last_used_at);
            }
        }
    }
}

impl Default for InputHistoryStore {
    fn default() -> (r: Self)
        ensures
            r@ == Seq::<InputModel>::empty(),
    {
        let r = InputHistoryStore { entries: Vec::new() };
        assert(r@ =~= Seq::empty());
        r
    }
}

impl InputHistoryStore {
    /// An empty store.
    pub fn new() -> (r: Self)
        ensures
            r@ == Seq::<InputModel>::empty(),
    {
        Self::default()
    }

    /// A store with the given entries, as they were saved.
    pub fn from_entries(entries: Vec<InputHistoryEntry>) -> (r: Self)
        ensures
            r@ == input_models(entries@),
    {
        InputHistoryStore { entries }
    }

    /// All entries.
    pub fn entries(&self) -> (r: &[InputHistoryEntry])
        ensures
            input_models(r@) == self@,
    {
        self.entries.as_slice()
    }

    /// Records a query. One that is known is used once more. Where a new one would
    /// make more than `max_entries`, the one that was used longest ago goes first;
    /// 0 stands for no limit. White space around a query does not count, and one of
    /// nothing else is not recorded.
    pub fn record(&mut self, query: &str, at: u64, max_entries: usize)
        ensures
            final(self)@ == recorded(old(self)@, query@, at, max_entries),
            is_wf(old(self)@) ==> is_wf(final(self)@),
    {
        let ghost before = self@;
        let query_text: &str = trim(query);
        proof {
            lemma_recording_keeps_wf(before, query@, at, max_entries);
        }
        if query_text.unicode_len() == 0 {
            return;
        }
        let n: usize = self.entries.len();
        for i in 0..n
            invariant
                n == self.entries@.len(),
                self@ == before,
                old(self)@ == before,
                self@ == input_models(self.entries@),
                query_text@ == text::trimmed(query@),
                query_text@.len() > 0,
                text_index(before, query_text@, 0) == text_index(before, query_text@, i as int),
                is_wf(before) ==> is_wf(recorded(before, query@, at, max_entries)),
        {
            assert(before[i as int] == self.entries@[i as int]@);
            if str_eq(&self.entries[i].text, query_text) {
                self.entries[i].last_used_at = at;
                let count: u32 = self.entries[i].use_count;
                self.entries[i].use_count = count.saturating_add(1);
                assert(self@ =~= before.update(i as int, used_again(before[i as int], at)));
                return;
            }
        }
        let ghost mut kept = before;
        if max_entries > 0 && self.entries.len() >= max_entries {
            let oldest: usize = find_oldest(&self.entries);
            self.entries.remove(oldest);
            proof {
                kept = before.remove(oldest as int);
            }
            assert(self@ =~= kept);
        }
        self.entries.push(
            InputHistoryEntry { text: query_text.to_owned(), last_used_at: at, use_count: 1 },
        );
        assert(self@ =~= kept.push(used_first(query_text@, at)));
    }

    /// Removes every entry.
    pub fn clear(&mut self)
        ensures
            final(self)@ == Seq::<InputModel>::empty(),
    {
        self.entries.clear();
        assert(self@ =~= Seq::empty());
    }
}

fn find_oldest(entries: &Vec<InputHistoryEntry>) -> (r: usize)
    requires
        entries@.len() > 0,
    ensures
        r == oldest_index(input_models(entries@)),
        r < entries@.len(),
{
    let ghost models = input_models(entries@);
    let mut r: usize = 0;
    let n: usize = entries.len();
    for i in 1..n
        invariant
            n == entries@.len(),
            models == input_models(entries@),
            r < i <= n,
            r == oldest_index(models.take(i as int)),
    {
        assert(models.take(i + 1).drop_last() =~= models.take(i as int));
        assert(models[i as int] == entries@[i as int]@);
        assert(models[r as int] == entries@[r as int]@);
        if entries[i].last_used_at < entries[r].last_used_at {
            r = i;
        }
    }
    assert(models.take(n as int) =~= models);
    r
}

proof fn lemma_recording_keeps_wf(
    entries: Seq<InputModel>,
    query: Seq<char>,
    at: u64,
    max_entries: usize,
)
    ensures
        is_wf(entries) ==> is_wf(recorded(entries, query, at, max_entries)),
{
    let t = text::trimmed(query);
    text::trimmed_is_idempotent(query);
    lemma_text_index(entries, t, 0);
    if is_wf(entries) {
        let i = text_index(entries, t, 0);
        let after = recorded(entries, query, at, max_entries);
        if t.len() == 0 {
        } else if i < entries.len() {
            assert forall|j: int| 0 <= j < after.len() implies (#[trigger] after[j]).text
                == entries[j].text by {}
            assert forall|j: int, k: int| 0 <= j < k < after.len() implies (
            #[trigger] after[j]).text != (#[trigger] after[k]).text by {
                assert(entries[j].text != entries[k].text);
            }
        } else {
            let o = if 0 < max_entries <= entries.len() {
                lemma_oldest_index(entries);
                oldest_index(entries)
            } else {
                entries.len() as int
            };
            let from = |j: int|
                if j < o {
                    j
                } else {
                    j + 1
                };
            let last = after.len() - 1;
            assert forall|j: int| 0 <= j < last implies #[trigger] after[j] == entries[from(j)] by {}
            assert forall|j: int, k: int| 0 <= j < k < after.len() implies (
            #[trigger] after[j]).text != (#[trigger] after[k]).text by {
                assert(entries[from(j)].text != t);
                if k < last {
                    assert(entries[from(j)].text != entries[from(k)].text);
                }
            }
        }
    }
}

// ---------------------------------------------------------------------------
// Laws

/// A store within its limit stays within it.
pub proof fn a_limit_is_kept(
    entries: Seq<InputModel>,
    query: Seq<char>,
    at: u64,
    max_entries: usize,
)
    requires
        0 < max_entries,
        entries.len() <= max_entries,
    ensures
        recorded(entries, query, at, max_entries).len() <= max_entries,
{
    lemma_text_index(entries, text::trimmed(query), 0);
    if entries.len() > 0 {
        lemma_oldest_index(entries);
    }
}

/// What gives way to a new query was used no later than anything that was there,
/// and all else stays. The new query is there, whenever it was used.
pub proof fn the_longest_unused_goes(
    entries: Seq<InputModel>,
    query: Seq<char>,
    at: u64,
    max_entries: usize,
)
    requires
        text::trimmed(query).len() > 0,
        text_index(entries, text::trimmed(query), 0) == entries.len(),
        0 < max_entries <= entries.len(),
    ensures
        ({
            let o = oldest_index(entries);
            let after = recorded(entries, query, at, max_entries);
            &&& 0 <= o < entries.len()
            &&& after == entries.remove(o).push(used_first(text::trimmed(query), at))
            &&& forall|i: int|
                0 <= i < entries.len() ==> entries[o].last_used_at <= (
                #[trigger] entries[i]).last_used_at
        }),
{
    lemma_oldest_index(entries);
}

/// A query that is not empty is there once it is recorded.
pub proof fn a_recorded_query_is_there(
    entries: Seq<InputModel>,
    query: Seq<char>,
    at: u64,
    max_entries: usize,
)
    requires
        text::trimmed(query).len() > 0,
    ensures
        ({
            let after = recorded(entries, query, at, max_entries);
            exists|i: int|
                0 <= i < after.len() && (#[trigger] after[i]).text == text::trimmed(query)
                    && after[i].last_used_at == at
        }),
{
    let t = text::trimmed(query);
    let i = text_index(entries, t, 0);
    let after = recorded(entries, query, at, max_entries);
    lemma_text_index(entries, t, 0);
    if i < entries.len() {
        assert(after[i].text == t);
    } else {
        if entries.len() > 0 {
            lemma_oldest_index(entries);
        }
        assert(after[after.len() - 1] == used_first(t, at));
    }
}

/// White space around a query does not count.
pub proof fn surrounding_white_space_is_ignored(
    entries: Seq<InputModel>,
    query: Seq<char>,
    at: u64,
    max_entries: usize,
)
    ensures
        recorded(entries, query, at, max_entries) == recorded(
            entries,
            text::trimmed(query),
            at,
            max_entries,
        ),
{
    text::trimmed_is_idempotent(query);
}

/// A query that is known is counted once more, where it stands, and is then as recent
/// as its last use. Nothing else changes.
pub proof fn a_known_query_is_counted(
    entries: Seq<InputModel>,
    query: Seq<char>,
    at: u64,
    max_entries: usize,
    i: int,
)
    requires
        is_wf(entries),
        0 <= i < entries.len(),
        entries[i].text == text::trimmed(query),
    ensures
        ({
            let after = recorded(entries, query, at, max_entries);
            &&& after.len() == entries.len()
            &&& after[i].text == entries[i].text
            &&& after[i].last_used_at == at
            &&& after[i].use_count > entries[i].use_count || entries[i].use_count == u32::MAX
            &&& entries[i].use_count <= after[i].use_count <= entries[i].use_count + 1
            &&& forall|j: int|
                0 <= j < entries.len() && j != i ==> #[trigger] after[j] == entries[j]
        }),
{
    let t = text::trimmed(query);
    lemma_text_index(entries, t, 0);
    let k = text_index(entries, t, 0);
    assert(entries[i].text.len() > 0);
    assert(k == i) by {
        if k < i {
            assert(entries[k].text != entries[i].text);
        } else if k > i {
            assert(entries[i].text != t);
        }
    }
}

/// A query that is not known comes last, used once; one of nothing but white space
/// changes nothing. Without a limit, or where there is room, nothing goes.
pub proof fn a_new_query_comes_last(
    entries: Seq<InputModel>,
    query: Seq<char>,
    at: u64,
    max_entries: usize,
)
    requires
        forall|i: int|
            0 <= i < entries.len() ==> (#[trigger] entries[i]).text != text::trimmed(query),
    ensures
        text::trimmed(query).len() == 0 ==> recorded(entries, query, at, max_entries) == entries,
        text::trimmed(query).len() > 0 ==> {
            let after = recorded(entries, query, at, max_entries);
            &&& after.len() > 0
            &&& after.last().text == text::trimmed(query)
            &&& after.last().last_used_at == at
            &&& after.last().use_count == 1
            &&& max_entries == 0 || entries.len() < max_entries ==> after.drop_last() == entries
        },
{
    let t = text::trimmed(query);
    lemma_text_index(entries, t, 0);
    let k = text_index(entries, t, 0);
    if k < entries.len() {
        assert(entries[k].text == t);
    }
    if entries.len() > 0 {
        lemma_oldest_index(entries);
    }
    let after = recorded(entries, query, at, max_entries);
    if t.len() > 0 && (max_entries == 0 || entries.len() < max_entries) {
        assert(after.drop_last() =~= entries);
    }
}

} // verus!
