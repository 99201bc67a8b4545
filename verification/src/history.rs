//! The history: which pages were visited, and when. It outlives a session, unlike
//! the list behind the back and forward buttons.

use vstd::prelude::*;
use vstd::string::*;

use crate::text::{self, contains, str_eq};
use crate::weburl;

verus! {

/// One visit, or several to one page in a row.
#[derive(Debug, Clone, PartialEq, Eq)]
pub struct HistoryEntry {
    /// Unique within a store.
    pub id: u64,
    pub url: String,
    /// The page's title, once it is known.
    pub title: Option<String>,
    /// When it was last visited, in seconds since the Unix epoch.
    pub visited_at: u64,
    /// The URL of the page's icon, once it is known.
    pub favicon: Option<String>,
    /// How many visits in a row this entry stands for.
    pub visit_count: u32,
}

/// Visits, the oldest first.
#[derive(Debug, Clone, PartialEq, Eq)]
pub struct HistoryStore {
    entries: Vec<HistoryEntry>,
    next_id: u64,
}

/// What a [`HistoryStore`] stands for.
pub struct HistoryModel {
    pub entries: Seq<HistoryEntry>,
    pub next_id: u64,
}

impl View for HistoryStore {
    type V = HistoryModel;

    closed spec fn view(&self) -> HistoryModel {
        HistoryModel { entries: self.entries@, next_id: self.next_id }
    }
}

/// Ids grow from each entry to the next, and none is yet to be handed out.
pub open spec fn is_wf(s: HistoryModel) -> bool {
    &&& forall|i: int, j: int|
        0 <= i < j < s.entries.len() ==> (#[trigger] s.entries[i]).id < (#[trigger] s.entries[j]).id
    &&& forall|i: int| 0 <= i < s.entries.len() ==> (#[trigger] s.entries[i]).id < s.next_id
}

/// Whether the last entry is that of a page.
pub open spec fn is_at(entries: Seq<HistoryEntry>, url: Seq<char>) -> bool {
    entries.len() > 0 && entries.last().url@ == url
}

/// The entry of a page that is visited once more.
pub open spec fn revisited(
    entry: HistoryEntry,
    title: Option<String>,
    visited_at: u64,
) -> HistoryEntry {
    HistoryEntry {
        title: if title is Some {
            title
        } else {
            entry.title
        },
        visited_at,
        visit_count: if entry.visit_count < u32::MAX {
            (entry.visit_count + 1) as u32
        } else {
            u32::MAX
        },
        ..entry
    }
}

/// Whether an entry is that of a first visit.
pub open spec fn is_first_visit(
    entry: HistoryEntry,
    id: u64,
    url: Seq<char>,
    title: Option<String>,
    visited_at: u64,
) -> bool {
    &&& entry.id == id
    &&& entry.url@ == url
    &&& entry.title == title
    &&& entry.visited_at == visited_at
    &&& entry.favicon is None
    &&& entry.visit_count == 1
}

/// How many of `len` entries stay when one more comes, with at most
/// `max_entries` in all; 0 stands for no limit.
pub open spec fn stay_count(len: nat, max_entries: usize) -> nat {
    if max_entries == 0 || len < max_entries {
        len
    } else {
        (max_entries - 1) as nat
    }
}

/// The store after a visit. A page that was visited last keeps its entry; any
/// other gets a new one, for which the oldest make room.
pub open spec fn is_recorded(
    before: HistoryModel,
    after: HistoryModel,
    url: Seq<char>,
    title: Option<String>,
    visited_at: u64,
    max_entries: usize,
) -> bool {
    if is_at(before.entries, url) {
        after == HistoryModel {
            entries: before.entries.drop_last().push(
                revisited(before.entries.last(), title, visited_at),
            ),
            ..before
        }
    } else {
        &&& after.next_id == before.next_id + 1
        &&& after.entries.len() > 0
        &&& after.entries.drop_last() == before.entries.skip(
            before.entries.len() - stay_count(before.entries.len(), max_entries),
        )
        &&& is_first_visit(after.entries.last(), before.next_id, url, title, visited_at)
    }
}

/// The index of the first entry with an id, from an index on; the number of
/// entries where there is none.
pub open spec fn id_index(entries: Seq<HistoryEntry>, id: u64, from: int) -> int
    decreases entries.len() - from,
{
    if from >= entries.len() {
        entries.len() as int
    } else if entries[from].id == id {
        from
    } else {
        id_index(entries, id, from + 1)
    }
}

/// Whether an entry has an id.
pub open spec fn has_id(entries: Seq<HistoryEntry>, id: u64) -> bool {
    exists|i: int| 0 <= i < entries.len() && (#[trigger] entries[i]).id == id
}

fn find_id(entries: &Vec<HistoryEntry>, id: u64) -> (r: Option<usize>)
    ensures
        match r {
            Some(i) => i == id_index(entries@, id, 0) && i < entries@.len() && entries@[i as int].id
                == id,
            None => !has_id(entries@, id),
        },
{
    let mut i: usize = 0;
    while i < entries.len()
        invariant
            i <= entries@.len(),
            id_index(entries@, id, 0) == id_index(entries@, id, i as int),
            forall|j: int| 0 <= j < i ==> (#[trigger] entries@[j]).id != id,
        decreases entries@.len() - i,
    {
        if entries[i].id == id {
            return Some(i);
        }
        i = i + 1;
    }
    None
}

impl Default for HistoryStore {
    fn default() -> (r: Self)
        ensures
            is_wf(r@),
            r@ == (HistoryModel { entries: Seq::empty(), next_id: 1 }),
    {
        HistoryStore { entries: Vec::new(), next_id: 1 }
    }
}

impl HistoryStore {
    /// An empty store.
    pub fn new() -> (r: Self)
        ensures
            is_wf(r@),
            r@ == (HistoryModel { entries: Seq::empty(), next_id: 1 }),
    {
        Self::default()
    }

    /// A store with the given parts, as they were saved.
    pub fn from_parts(entries: Vec<HistoryEntry>, next_id: u64) -> (r: Self)
        ensures
            r@ == (HistoryModel { entries: entries@, next_id }),
    {
        HistoryStore { entries, next_id }
    }

    /// The id that is handed out next.
    pub fn next_id(&self) -> (r: u64)
        ensures
            r == self@.next_id,
    {
        self.next_id
    }

    /// All entries, the oldest first.
    pub fn entries(&self) -> (r: &[HistoryEntry])
        ensures
            r@ == self@.entries,
    {
        self.entries.as_slice()
    }

    /// All entries, the newest first.
    pub fn entries_newest_first(&self) -> (r: Vec<&HistoryEntry>)
        ensures
            r@.unref() == self@.entries.reverse(),
    {
        let mut r: Vec<&HistoryEntry> = Vec::new();
        let n: usize = self.entries.len();
        for i in 0..n
            invariant
                n == self@.entries.len(),
                r@.len() == i,
                forall|k: int| 0 <= k < i ==> *#[trigger] r@[k] == self@.entries[n - 1 - k],
        {
            r.push(&self.entries[n - 1 - i]);
        }
        assert(r@.unref() =~= self@.entries.reverse());
        r
    }

    /// Records a visit, and gives the id of its entry. A page that was visited
    /// last keeps its entry, with one more visit, and its title unless there is a
    /// new one. Any other gets a new entry, and the oldest entries go if there
    /// are then more than `max_entries`; 0 stands for no limit.
    pub fn record_visit(
        &mut self,
        url: &str,
        title: Option<String>,
        visited_at: u64,
        max_entries: usize,
    ) -> (id: u64)
        requires
            is_at(old(self)@.entries, url@) || old(self)@.next_id < u64::MAX,
        ensures
            is_recorded(old(self)@, final(self)@, url@, title, visited_at, max_entries),
            id == final(self)@.entries.last().id,
            is_wf(old(self)@) ==> is_wf(final(self)@),
    {
        let ghost before = self@;
        let n: usize = self.entries.len();
        if n > 0 && str_eq(&self.entries[n - 1].url, url) {
            if title.is_some() {
                self.entries[n - 1].title = title;
            }
            self.entries[n - 1].visited_at = visited_at;
            let count: u32 = self.entries[n - 1].visit_count;
            self.entries[n - 1].visit_count = count.saturating_add(1);
            assert(self@.entries =~= before.entries.drop_last().push(
                revisited(before.entries.last(), title, visited_at),
            ));
            return self.entries[n - 1].id;
        }
        let id: u64 = self.next_id;
        self.next_id = self.next_id + 1;
        self.entries.push(
            HistoryEntry {
                id,
                url: url.to_owned(),
                title,
                visited_at,
                favicon: None,
                visit_count: 1,
            },
        );
        let ghost all = self.entries@;
        if max_entries > 0 && self.entries.len() > max_entries {
            let surplus: usize = self.entries.len() - max_entries;
            let rest = self.entries.split_off(surplus);
            self.entries = rest;
            assert(self@.entries =~= all.skip(surplus as int));
        }
        assert(self@.entries.drop_last() =~= before.entries.skip(
            n - stay_count(n as nat, max_entries),
        ));
        id
    }

    /// Sets the title of an entry. Gives whether there is one with the id.
    pub fn update_title(&mut self, id: u64, title: String) -> (r: bool)
        ensures
            r == has_id(old(self)@.entries, id),
            final(self)@ == (HistoryModel {
                entries: if r {
                    let i = id_index(old(self)@.entries, id, 0);
                    old(self)@.entries.update(
                        i,
                        HistoryEntry { title: Some(title), ..old(self)@.entries[i] },
                    )
                } else {
                    old(self)@.entries
                },
                ..old(self)@
            }),
            is_wf(old(self)@) ==> is_wf(final(self)@),
    {
        let ghost before = self@;
        match find_id(&self.entries, id) {
            Some(i) => {
                assert(before.entries[i as int].id == id);
                self.entries[i].title = Some(title);
                assert(self@.entries =~= before.entries.update(i as int, self@.entries[i as int]));
                true
            },
            None => false,
        }
    }

    /// Sets the icon of an entry. Gives whether there is one with the id.
    pub fn update_favicon(&mut self, id: u64, url: String) -> (r: bool)
        ensures
            r == has_id(old(self)@.entries, id),
            final(self)@ == (HistoryModel {
                entries: if r {
                    let i = id_index(old(self)@.entries, id, 0);
                    old(self)@.entries.update(
                        i,
                        HistoryEntry { favicon: Some(url), ..old(self)@.entries[i] },
                    )
                } else {
                    old(self)@.entries
                },
                ..old(self)@
            }),
            is_wf(old(self)@) ==> is_wf(final(self)@),
    {
        let ghost before = self@;
        match find_id(&self.entries, id) {
            Some(i) => {
                assert(before.entries[i as int].id == id);
                self.entries[i].favicon = Some(url);
                assert(self@.entries =~= before.entries.update(i as int, self@.entries[i as int]));
                true
            },
            None => false,
        }
    }

    /// The entries that a query finds, the newest first; see [`search`].
    pub fn search(&self, query: &str) -> (r: Vec<&HistoryEntry>)
        ensures
            r@.unref() == found_among(self@.entries.reverse(), query@),
    {
        search(self.entries_newest_first(), query)
    }

    /// Removes an entry. Gives whether there was one with the id.
    pub fn remove(&mut self, id: u64) -> (r: bool)
        ensures
            r == has_id(old(self)@.entries, id),
            final(self)@ == (HistoryModel {
                entries: old(self)@.entries.filter(|e: HistoryEntry| e.id != id),
                ..old(self)@
            }),
            is_wf(old(self)@) ==> is_wf(final(self)@),
    {
        let ghost before = self@;
        let ghost keep = |e: HistoryEntry| e.id != id;
        let mut removed = false;
        let mut kept: Vec<HistoryEntry> = Vec::new();
        let mut all: Vec<HistoryEntry> = Vec::new();
        std::mem::swap(&mut all, &mut self.entries);
        proof {
            reveal(Seq::filter);
        }
        assert(before.entries.take(0).filter(keep) =~= Seq::empty());
        for entry in it: all
            invariant
                it.seq() == before.entries,
                keep == (|e: HistoryEntry| e.id != id),
                kept@ == before.entries.take(it.index()).filter(keep),
                removed == (exists|j: int|
                    0 <= j < it.index() && (#[trigger] before.entries[j]).id == id),
        {
            proof {
                let i = it.index();
                before.entries.take(i).lemma_filter_push(before.entries[i], keep);
                assert(before.entries.take(i).push(before.entries[i]) =~= before.entries.take(
                    i + 1,
                ));
            }
            if entry.id != id {
                kept.push(entry);
            } else {
                removed = true;
            }
        }
        assert(before.entries.take(before.entries.len() as int) =~= before.entries);
        self.entries = kept;
        proof {
            if is_wf(before) {
                lemma_filtered_entries(before.entries, keep, before.next_id);
            }
        }
        removed
    }

    /// Removes every entry. Ids go on from where they were.
    pub fn clear(&mut self)
        ensures
            final(self)@ == (HistoryModel { entries: Seq::empty(), ..old(self)@ }),
    {
        self.entries.clear();
    }
}

proof fn lemma_filtered_entries(
    entries: Seq<HistoryEntry>,
    keep: spec_fn(HistoryEntry) -> bool,
    next_id: u64,
)
    requires
        is_wf(HistoryModel { entries, next_id }),
    ensures
        is_wf(HistoryModel { entries: entries.filter(keep), next_id }),
        forall|i: int|
            0 <= i < entries.filter(keep).len() ==> entries.contains(
                #[trigger] entries.filter(keep)[i],
            ),
    decreases entries.len(),
{
    reveal(Seq::filter);
    if entries.len() > 0 {
        let shorter = entries.drop_last();
        let last = entries.last();
        let model = HistoryModel { entries, next_id };
        assert forall|i: int| 0 <= i < shorter.len() implies #[trigger] shorter[i]
            == model.entries[i] by {}
        assert(model.entries[entries.len() - 1] == last);
        lemma_filtered_entries(shorter, keep, next_id);
        let before = shorter.filter(keep);
        let kept = entries.filter(keep);
        assert forall|i: int| 0 <= i < before.len() implies (#[trigger] before[i]).id < last.id
            && entries.contains(before[i]) by {
            assert(shorter.contains(before[i]));
            let k = shorter.index_of(before[i]);
            assert(model.entries[k] == before[i]);
            assert(entries[k] == before[i]);
        }
        assert forall|i: int| 0 <= i < kept.len() implies entries.contains(#[trigger] kept[i]) by {
            if i < before.len() {
                assert(kept[i] == before[i]);
            } else {
                assert(kept[i] == entries[entries.len() - 1]);
            }
        }
    }
}

// ---------------------------------------------------------------------------
// Searching

/// What `str::to_lowercase` makes of a text.
pub uninterp spec fn lowercased(s: Seq<char>) -> Seq<char>;

/// Calls `str::to_lowercase`, whose result depends on the text alone. Which
/// letters it maps to which is that function's own table, of which nothing is
/// said here.
#[verifier::external_body]
pub(crate) fn to_lowercase(s: &str) -> (r: String)
    ensures
        r@ == lowercased(s@),
{
    s.to_lowercase()
}

/// Whether a query occurs in the URL or the title of a page.
pub open spec fn occurs_in_page(
    url: Seq<char>,
    title: Option<Seq<char>>,
    query: Seq<char>,
) -> bool {
    text::contains_text(url, query) || (title matches Some(t) && text::contains_text(t, query))
}

/// Whether a query occurs in the URL or the title of a page, all three in lower
/// case.
pub fn occurs_in(url: &str, title: &Option<String>, query: &str) -> (r: bool)
    ensures
        r == occurs_in_page(url@, weburl::opt_text(*title), query@),
{
    if contains(url, query) {
        return true;
    }
    match title {
        Some(t) => contains(t, query),
        None => false,
    }
}

/// Whether a query in lower case finds an entry.
pub open spec fn is_found(entry: HistoryEntry, query: Seq<char>) -> bool {
    occurs_in_page(
        lowercased(entry.url@),
        match entry.title {
            Some(t) => Some(lowercased(t@)),
            None => None,
        },
        query,
    )
}

/// The entries that a query finds, in order. The empty query finds none.
pub open spec fn found_among(entries: Seq<HistoryEntry>, query: Seq<char>) -> Seq<HistoryEntry> {
    if query.len() == 0 {
        Seq::empty()
    } else {
        entries.filter(|e: HistoryEntry| is_found(e, lowercased(query)))
    }
}

/// The entries among `entries` in whose URL or title a query occurs, whatever the
/// case, in the order given. The empty query finds none.
pub fn search<'a>(entries: Vec<&'a HistoryEntry>, query: &str) -> (r: Vec<&'a HistoryEntry>)
    ensures
        r@.unref() == found_among(entries@.unref(), query@),
{
    let mut r: Vec<&'a HistoryEntry> = Vec::new();
    if query.unicode_len() == 0 {
        assert(r@.unref() =~= Seq::empty());
        return r;
    }
    let lower = to_lowercase(query);
    let ghost all = entries@.unref();
    let ghost keep = |e: HistoryEntry| is_found(e, lowercased(query@));
    proof {
        reveal(Seq::filter);
    }
    assert(r@.unref() =~= all.take(0).filter(keep));
    for i in 0..entries.len()
        invariant
            all == entries@.unref(),
            lower@ == lowercased(query@),
            keep == (|e: HistoryEntry| is_found(e, lowercased(query@))),
            r@.unref() == all.take(i as int).filter(keep),
    {
        proof {
            all.take(i as int).lemma_filter_push(all[i as int], keep);
            assert(all.take(i as int).push(all[i as int]) =~= all.take(i + 1));
        }
        let entry: &'a HistoryEntry = entries[i];
        let url = to_lowercase(&entry.url);
        let title: Option<String> = match &entry.title {
            Some(t) => Some(to_lowercase(t)),
            None => None,
        };
        if occurs_in(&url, &title, &lower) {
            let ghost before = r@.unref();
            r.push(entry);
            assert(r@.unref() =~= before.push(all[i as int]));
        }
    }
    assert(all.take(all.len() as int) =~= all);
    r
}

// ---------------------------------------------------------------------------
// Dates

/// The number of seconds of a day.
pub const SECS_PER_DAY: u64 = 86_400;

/// How long ago a visit was, in days of UTC.
#[derive(Debug, Clone, Copy, PartialEq, Eq, Structural)]
pub enum HistoryDateBucket {
    Today,
    Yesterday,
    Last7Days,
    Older,
}

/// How long before a time a visit was. A visit after it counts as one of the same
/// day.
pub open spec fn bucket_of(visited_at: u64, now: u64) -> HistoryDateBucket {
    let days = now as int / SECS_PER_DAY as int - visited_at as int / SECS_PER_DAY as int;
    if days <= 0 {
        HistoryDateBucket::Today
    } else if days == 1 {
        HistoryDateBucket::Yesterday
    } else if days <= 6 {
        HistoryDateBucket::Last7Days
    } else {
        HistoryDateBucket::Older
    }
}

/// How long before `now` a visit was, both in seconds since the Unix epoch, in
/// days of UTC. A visit after `now`, by a clock that was set back since, counts as
/// one of the same day.
pub fn date_bucket(visited_at: u64, now: u64) -> (r: HistoryDateBucket)
    ensures
        r == bucket_of(visited_at, now),
{
    let today: u64 = now / SECS_PER_DAY;
    let day: u64 = visited_at / SECS_PER_DAY;
    if day >= today {
        return HistoryDateBucket::Today;
    }
    let days: u64 = today - day;
    if days == 1 {
        HistoryDateBucket::Yesterday
    } else if days <= 6 {
        HistoryDateBucket::Last7Days
    } else {
        HistoryDateBucket::Older
    }
}

/// Entries in a row with the same bucket.
#[derive(Debug, Clone, PartialEq, Eq)]
pub struct HistoryGroup<'a> {
    pub bucket: HistoryDateBucket,
    pub entries: Vec<&'a HistoryEntry>,
}

/// What a [`HistoryGroup`] stands for.
pub struct GroupModel {
    pub bucket: HistoryDateBucket,
    pub entries: Seq<HistoryEntry>,
}

impl<'a> View for HistoryGroup<'a> {
    type V = GroupModel;

    open spec fn view(&self) -> GroupModel {
        GroupModel { bucket: self.bucket, entries: self.entries@.unref() }
    }
}

/// What groups stand for.
pub open spec fn group_models(groups: Seq<HistoryGroup>) -> Seq<GroupModel> {
    groups.map_values(|g: HistoryGroup| g@)
}

/// The groups of entries: each entry joins the group before it if its bucket is
/// the same, and starts one otherwise.
pub open spec fn grouped(entries: Seq<HistoryEntry>, now: u64) -> Seq<GroupModel>
    decreases entries.len(),
{
    if entries.len() == 0 {
        Seq::empty()
    } else {
        let before = grouped(entries.drop_last(), now);
        let entry = entries.last();
        let bucket = bucket_of(entry.visited_at, now);
        if before.len() > 0 && before.last().bucket == bucket {
            before.drop_last().push(
                GroupModel { bucket, entries: before.last().entries.push(entry) },
            )
        } else {
            before.push(GroupModel { bucket, entries: seq![entry] })
        }
    }
}

/// Groups entries that are next to each other and have the same bucket.
pub fn group_by_date<'a>(entries: Vec<&'a HistoryEntry>, now: u64) -> (r: Vec<HistoryGroup<'a>>)
    ensures
        group_models(r@) == grouped(entries@.unref(), now),
{
    let ghost all = entries@.unref();
    let mut groups: Vec<HistoryGroup<'a>> = Vec::new();
    assert(group_models(groups@) =~= grouped(all.take(0), now));
    for i in 0..entries.len()
        invariant
            all == entries@.unref(),
            group_models(groups@) == grouped(all.take(i as int), now),
    {
        assert(all.take(i + 1).drop_last() =~= all.take(i as int));
        let ghost before = group_models(groups@);
        let ghost old_groups = groups@;
        let entry: &'a HistoryEntry = entries[i];
        let bucket = date_bucket(entry.visited_at, now);
        let n: usize = groups.len();
        if n > 0 && groups[n - 1].bucket == bucket {
            groups[n - 1].entries.push(entry);
            proof {
                assert(before.last() == old_groups[n - 1]@);
                assert(groups@[n - 1].entries@.unref() =~= before.last().entries.push(*entry));
                assert(group_models(groups@) =~= before.drop_last().push(
                    GroupModel { bucket, entries: before.last().entries.push(*entry) },
                ));
            }
        } else {
            let mut first: Vec<&'a HistoryEntry> = Vec::new();
            first.push(entry);
            assert(first@.unref() =~= seq![*entry]);
            groups.push(HistoryGroup { bucket, entries: first });
            proof {
                if n > 0 {
                    assert(before.last() == old_groups[n - 1]@);
                }
                assert(group_models(groups@) =~= before.push(
                    GroupModel { bucket, entries: seq![*entry] },
                ));
            }
        }
    }
    assert(all.take(all.len() as int) =~= all);
    groups
}

// ---------------------------------------------------------------------------
// Laws

/// A store within its limit stays within it, and a page that gets a new entry
/// brings it there.
pub proof fn a_limit_is_kept(
    before: HistoryModel,
    after: HistoryModel,
    url: Seq<char>,
    title: Option<String>,
    visited_at: u64,
    max_entries: usize,
)
    requires
        is_recorded(before, after, url, title, visited_at, max_entries),
        max_entries > 0,
        before.entries.len() <= max_entries || !is_at(before.entries, url),
    ensures
        after.entries.len() <= max_entries,
{
    if !is_at(before.entries, url) {
        assert(after.entries.drop_last().len() == stay_count(before.entries.len(), max_entries));
    }
}

/// A visited page is the newest in the store, and no visit is lost: where the page
/// was the newest before, the number of entries stays.
pub proof fn a_visited_page_is_the_newest(
    before: HistoryModel,
    after: HistoryModel,
    url: Seq<char>,
    title: Option<String>,
    visited_at: u64,
    max_entries: usize,
)
    requires
        is_recorded(before, after, url, title, visited_at, max_entries),
    ensures
        is_at(after.entries, url),
        after.entries.last().visited_at == visited_at,
        is_at(before.entries, url) ==> after.entries.len() == before.entries.len(),
        !is_at(before.entries, url) && max_entries == 0 ==> after.entries.len()
            == before.entries.len() + 1,
{
    if !is_at(before.entries, url) {
        assert(after.entries.drop_last().len() == stay_count(before.entries.len(), max_entries));
    }
}

/// A new entry's id is one that no entry has had, also after entries were removed.
pub proof fn a_new_id_is_new(
    before: HistoryModel,
    after: HistoryModel,
    url: Seq<char>,
    title: Option<String>,
    visited_at: u64,
    max_entries: usize,
)
    requires
        is_wf(before),
        is_recorded(before, after, url, title, visited_at, max_entries),
        !is_at(before.entries, url),
    ensures
        after.entries.last().id == before.next_id,
        !has_id(before.entries, before.next_id),
        before.next_id < after.next_id,
{
}

/// Queries that are the same in lower case find the same.
pub proof fn case_does_not_matter(entries: Seq<HistoryEntry>, a: Seq<char>, b: Seq<char>)
    requires
        a.len() > 0,
        b.len() > 0,
        lowercased(a) == lowercased(b),
    ensures
        found_among(entries, a) == found_among(entries, b),
{
}

/// The entries of groups, one group after the other.
pub open spec fn ungrouped(groups: Seq<GroupModel>) -> Seq<HistoryEntry>
    decreases groups.len(),
{
    if groups.len() == 0 {
        Seq::empty()
    } else {
        ungrouped(groups.drop_last()) + groups.last().entries
    }
}

/// Whether all entries of a group have its bucket, and there is one.
pub open spec fn is_sound(group: GroupModel, now: u64) -> bool {
    &&& group.entries.len() > 0
    &&& forall|i: int|
        0 <= i < group.entries.len() ==> bucket_of((#[trigger] group.entries[i]).visited_at, now)
            == group.bucket
}

/// Grouping keeps all entries in their order, puts each under its bucket, and
/// makes no two groups in a row that could be one.
pub proof fn grouping_loses_nothing(entries: Seq<HistoryEntry>, now: u64)
    ensures
        ungrouped(grouped(entries, now)) == entries,
        forall|i: int|
            0 <= i < grouped(entries, now).len() ==> is_sound(
                #[trigger] grouped(entries, now)[i],
                now,
            ),
        forall|i: int, j: int|
            0 <= i < j < grouped(entries, now).len() && j == i + 1 ==> (
            #[trigger] grouped(entries, now)[i]).bucket != (
            #[trigger] grouped(entries, now)[j]).bucket,
    decreases entries.len(),
{
    if entries.len() > 0 {
        let shorter = entries.drop_last();
        let before = grouped(shorter, now);
        let entry = entries.last();
        let bucket = bucket_of(entry.visited_at, now);
        let groups = grouped(entries, now);
        grouping_loses_nothing(shorter, now);
        if before.len() > 0 && before.last().bucket == bucket {
            assert(groups.drop_last() =~= before.drop_last());
            assert(is_sound(before[before.len() - 1], now));
            assert(ungrouped(groups) =~= ungrouped(before).push(entry));
            let last = groups.last();
            assert forall|i: int| 0 <= i < last.entries.len() implies bucket_of(
                (#[trigger] last.entries[i]).visited_at,
                now,
            ) == bucket by {
                if i < last.entries.len() - 1 {
                    assert(last.entries[i] == before.last().entries[i]);
                }
            }
            assert forall|i: int| 0 <= i < groups.len() implies is_sound(
                #[trigger] groups[i],
                now,
            ) by {
                if i < groups.len() - 1 {
                    assert(groups[i] == before[i]);
                }
            }
            assert forall|i: int, j: int| 0 <= i < j < groups.len() && j == i + 1 implies (
            #[trigger] groups[i]).bucket != (#[trigger] groups[j]).bucket by {
                assert(before[i].bucket != before[j].bucket);
            }
        } else {
            assert(groups.drop_last() =~= before);
            assert(ungrouped(groups) =~= ungrouped(before).push(entry));
        }
        assert(shorter.push(entry) =~= entries);
    }
}

/// The place of a bucket, from today on back.
pub open spec fn bucket_rank(bucket: HistoryDateBucket) -> int {
    match bucket {
        HistoryDateBucket::Today => 0,
        HistoryDateBucket::Yesterday => 1,
        HistoryDateBucket::Last7Days => 2,
        HistoryDateBucket::Older => 3,
    }
}

/// Entries that come newest first give at most one group for each bucket, today's
/// first.
pub proof fn newest_first_gives_one_group_per_bucket(entries: Seq<HistoryEntry>, now: u64)
    requires
        forall|i: int, j: int|
            0 <= i < j < entries.len() ==> (#[trigger] entries[i]).visited_at >= (
            #[trigger] entries[j]).visited_at,
    ensures
        forall|i: int, j: int|
            0 <= i < j < grouped(entries, now).len() ==> bucket_rank(
                (#[trigger] grouped(entries, now)[i]).bucket,
            ) < bucket_rank((#[trigger] grouped(entries, now)[j]).bucket),
        entries.len() > 0 ==> grouped(entries, now).len() > 0 && grouped(entries, now).last().bucket
            == bucket_of(entries.last().visited_at, now),
    decreases entries.len(),
{
    if entries.len() > 0 {
        let shorter = entries.drop_last();
        let before = grouped(shorter, now);
        let groups = grouped(entries, now);
        assert forall|i: int, j: int| 0 <= i < j < shorter.len() implies (
        #[trigger] shorter[i]).visited_at >= (#[trigger] shorter[j]).visited_at by {
            assert(entries[i].visited_at >= entries[j].visited_at);
        }
        newest_first_gives_one_group_per_bucket(shorter, now);
        if shorter.len() > 0 {
            let earlier = shorter.last().visited_at;
            let later = entries.last().visited_at;
            assert(entries[shorter.len() - 1].visited_at >= entries[entries.len() - 1].visited_at);
            assert(later as int / SECS_PER_DAY as int <= earlier as int / SECS_PER_DAY as int)
                by (nonlinear_arith)
                requires
                    later <= earlier,
                    SECS_PER_DAY > 0,
            ;
            assert(bucket_rank(bucket_of(earlier, now)) <= bucket_rank(bucket_of(later, now)));
            assert forall|i: int, j: int| 0 <= i < j < groups.len() implies bucket_rank(
                (#[trigger] groups[i]).bucket,
            ) < bucket_rank((#[trigger] groups[j]).bucket) by {
                assert(groups[i] == before[i]);
                if j < before.len() {
                    assert(groups[j].bucket == before[j].bucket);
                } else {
                    assert(before.last() == before[before.len() - 1]);
                    if i < before.len() - 1 {
                        assert(bucket_rank(before[i].bucket) < bucket_rank(
                            before[before.len() - 1].bucket,
                        ));
                    }
                }
            }
        }
    }
}

/// What a visit leaves of the title: the one that it brings, whether or not the page
/// was the newest before. Without one, the newest page keeps its title, and any
/// other has none.
pub proof fn a_visit_brings_its_title(
    before: HistoryModel,
    after: HistoryModel,
    url: Seq<char>,
    title: Option<String>,
    visited_at: u64,
    max_entries: usize,
)
    requires
        is_recorded(before, after, url, title, visited_at, max_entries),
    ensures
        after.entries.len() > 0,
        after.entries.last().url@ == url,
        title is Some ==> after.entries.last().title == title,
        title is None && before.entries.len() > 0 && before.entries.last().url@ == url
            ==> after.entries.last().title == before.entries.last().title,
        title is None && (before.entries.len() == 0 || before.entries.last().url@ != url)
            ==> after.entries.last().title is None,
{
}

/// Visits to a page in a row are counted in one entry, which keeps its id and its
/// icon, and count up to the greatest number there is. A visit to any other page
/// starts an entry of its own, with one visit and without an icon.
pub proof fn visits_in_a_row_are_counted(
    before: HistoryModel,
    after: HistoryModel,
    url: Seq<char>,
    title: Option<String>,
    visited_at: u64,
    max_entries: usize,
)
    requires
        is_recorded(before, after, url, title, visited_at, max_entries),
    ensures
        before.entries.len() > 0 && before.entries.last().url@ == url ==> {
            let was = before.entries.last();
            let is = after.entries.last();
            &&& is.id == was.id
            &&& is.favicon == was.favicon
            &&& is.visit_count > was.visit_count || was.visit_count == u32::MAX
            &&& is.visit_count <= was.visit_count + 1
            &&& is.visit_count >= was.visit_count
            &&& after.next_id == before.next_id
            &&& after.entries.drop_last() == before.entries.drop_last()
        },
        before.entries.len() == 0 || before.entries.last().url@ != url ==> {
            let is = after.entries.last();
            &&& is.id == before.next_id
            &&& is.favicon is None
            &&& is.visit_count == 1
            &&& after.next_id == before.next_id + 1
        },
{
}

/// Whatever else is in a store after a visit was in it before, unchanged and in the
/// same order, and if something had to go it was the oldest.
pub proof fn only_the_oldest_go(
    before: HistoryModel,
    after: HistoryModel,
    url: Seq<char>,
    title: Option<String>,
    visited_at: u64,
    max_entries: usize,
)
    requires
        is_recorded(before, after, url, title, visited_at, max_entries),
        before.entries.len() == 0 || before.entries.last().url@ != url,
    ensures
        after.entries.drop_last().is_suffix_of(before.entries),
        max_entries == 0 || before.entries.len() < max_entries ==> after.entries.drop_last()
            == before.entries,
        max_entries > 0 && before.entries.len() >= max_entries ==> after.entries.len()
            == max_entries,
{
    let rest = after.entries.drop_last();
    assert(rest =~= before.entries.subrange(
        before.entries.len() - rest.len(),
        before.entries.len() as int,
    ));
    if max_entries == 0 || before.entries.len() < max_entries {
        assert(rest =~= before.entries);
    }
}

/// A query finds an entry exactly where it stands, in lower case, within the URL or
/// the title in lower case.
pub proof fn a_query_finds_where_it_stands(
    entries: Seq<HistoryEntry>,
    query: Seq<char>,
    i: int,
)
    requires
        query.len() > 0,
        0 <= i < entries.len(),
    ensures
        found_among(entries, query).contains(entries[i]) <==> (exists|
            front: Seq<char>,
            back: Seq<char>,
        |
            lowercased(entries[i].url@) == #[trigger] (front + lowercased(query) + back)) || (
        entries[i].title is Some && exists|front: Seq<char>, back: Seq<char>|
            lowercased(entries[i].title->0@) == #[trigger] (front + lowercased(query) + back)),
{
    let keep = |e: HistoryEntry| is_found(e, lowercased(query));
    let entry = entries[i];
    text::a_text_holds_its_parts(lowercased(entry.url@), lowercased(query));
    if let Some(t) = entry.title {
        text::a_text_holds_its_parts(lowercased(t@), lowercased(query));
    }
    if keep(entry) {
        entries.lemma_filter_contains(keep, i);
    }
    if found_among(entries, query).contains(entry) {
        let k = entries.filter(keep).index_of(entry);
        entries.lemma_filter_pred(keep, k);
    }
}

/// What a query finds among some entries and more is what it finds among the first,
/// and then what it finds among the others: nothing is found that is not there, and
/// the order stays. The empty query finds nothing.
pub proof fn searching_keeps_the_order(
    some: Seq<HistoryEntry>,
    more: Seq<HistoryEntry>,
    query: Seq<char>,
)
    ensures
        found_among(some + more, query) == found_among(some, query) + found_among(more, query),
        query.len() == 0 ==> found_among(some, query).len() == 0,
        forall|i: int|
            0 <= i < found_among(some, query).len() ==> some.contains(
                #[trigger] found_among(some, query)[i],
            ),
    decreases more.len(),
{
    let keep = |e: HistoryEntry| is_found(e, lowercased(query));
    if query.len() == 0 {
        assert(found_among(some, query) + found_among(more, query) =~= found_among(
            some + more,
            query,
        ));
    } else {
        Seq::filter_distributes_over_add(some, more, keep);
        assert forall|i: int| 0 <= i < found_among(some, query).len() implies some.contains(
            #[trigger] found_among(some, query)[i],
        ) by {
            assert(some.filter(keep).contains(some.filter(keep)[i]));
            some.lemma_filter_contains_rev(keep, some.filter(keep)[i]);
        }
    }
}

/// Visits are told apart by the days on which they were, a visit `a` seconds into a
/// day and `b` seconds into another alike: of the same day or a later one, of the
/// day before, of the five days before that, or older.
pub proof fn days_decide_the_bucket(day: u64, a: u64, today: u64, b: u64, visited_at: u64, now: u64)
    requires
        a < 24 * 60 * 60,
        b < 24 * 60 * 60,
        visited_at == day * (24 * 60 * 60) + a,
        now == today * (24 * 60 * 60) + b,
    ensures
        day >= today ==> bucket_of(visited_at, now) is Today,
        day + 1 == today ==> bucket_of(visited_at, now) is Yesterday,
        day + 2 <= today <= day + 6 ==> bucket_of(visited_at, now) is Last7Days,
        day + 7 <= today ==> bucket_of(visited_at, now) is Older,
{
    assert(visited_at as int / 86_400 == day) by (nonlinear_arith)
        requires
            visited_at == day * 86_400 + a,
            a < 86_400,
    ;
    assert(now as int / 86_400 == today) by (nonlinear_arith)
        requires
            now == today * 86_400 + b,
            b < 86_400,
    ;
}

} // verus!
