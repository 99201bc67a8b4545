//! Bookmarks: saved pages in a single layer of folders. No page is saved twice.

use vstd::prelude::*;
use vstd::string::*;

use crate::text::str_eq;

verus! {

/// One saved page.
#[derive(Debug, Clone, PartialEq, Eq)]
pub struct BookmarkEntry {
    /// Unique within a store.
    pub id: u64,
    pub url: String,
    pub title: Option<String>,
    /// When it was saved, in seconds since the Unix epoch.
    pub created_at: u64,
    /// The folder that it is in; `None` for the root.
    pub folder_id: Option<u64>,
    /// The URL of its icon.
    pub favicon: Option<String>,
}

/// One folder.
#[derive(Debug, Clone, PartialEq, Eq)]
pub struct BookmarkFolder {
    pub id: u64,
    pub name: String,
    /// When it was made, in seconds since the Unix epoch.
    pub created_at: u64,
}

/// Why an edit was refused.
#[derive(Debug, Clone, Copy, PartialEq, Eq, Structural)]
pub enum BookmarkEditError {
    /// There is no entry with the id.
    NotFound,
    /// Another entry has the URL.
    DuplicateUrl,
}

/// Saved pages and their folders. The order of the entries is the order in which
/// they are shown.
#[derive(Debug, Clone, PartialEq, Eq)]
pub struct BookmarkStore {
    entries: Vec<BookmarkEntry>,
    next_id: u64,
    folders: Vec<BookmarkFolder>,
    next_folder_id: u64,
}

/// What a [`BookmarkStore`] stands for.
pub struct StoreModel {
    pub entries: Seq<BookmarkEntry>,
    pub next_id: u64,
    pub folders: Seq<BookmarkFolder>,
    pub next_folder_id: u64,
}

impl View for BookmarkStore {
    type V = StoreModel;

    closed spec fn view(&self) -> StoreModel {
        StoreModel {
            entries: self.entries@,
            next_id: self.next_id,
            folders: self.folders@,
            next_folder_id: self.next_folder_id,
        }
    }
}

// ---------------------------------------------------------------------------
// Finding

/// The index of the first entry with a URL, from an index on; the number of
/// entries where there is none.
pub open spec fn url_index(entries: Seq<BookmarkEntry>, url: Seq<char>, from: int) -> int
    decreases entries.len() - from,
{
    if from >= entries.len() {
        entries.len() as int
    } else if entries[from].url@ == url {
        from
    } else {
        url_index(entries, url, from + 1)
    }
}

/// The index of the first entry with an id, from an index on; the number of
/// entries where there is none.
pub open spec fn id_index(entries: Seq<BookmarkEntry>, id: u64, from: int) -> int
    decreases entries.len() - from,
{
    if from >= entries.len() {
        entries.len() as int
    } else if entries[from].id == id {
        from
    } else {
        id_index(entries, id, from + 1)
    }
}

/// Whether an entry has a URL.
pub open spec fn has_url(entries: Seq<BookmarkEntry>, url: Seq<char>) -> bool {
    exists|i: int| 0 <= i < entries.len() && (#[trigger] entries[i]).url@ == url
}

/// The first place in `entries`, from one on, of an id that is not greater.
pub open spec fn place_by_id(entries: Seq<BookmarkEntry>, id: u64, from: int) -> int
    decreases entries.len() - from,
{
    if from >= entries.len() {
        entries.len() as int
    } else if entries[from].id > id {
        place_by_id(entries, id, from + 1)
    } else {
        from
    }
}

/// Entries by their ids, the greatest first: ids are handed out in the order in
/// which pages are saved.
pub open spec fn newest_first(entries: Seq<BookmarkEntry>) -> Seq<BookmarkEntry>
    decreases entries.len(),
{
    if entries.len() == 0 {
        Seq::empty()
    } else {
        let before = newest_first(entries.drop_last());
        before.insert(place_by_id(before, entries.last().id, 0), entries.last())
    }
}

proof fn lemma_place_by_id(entries: Seq<BookmarkEntry>, id: u64, from: int)
    requires
        0 <= from <= entries.len(),
    ensures
        ({
            let k = place_by_id(entries, id, from);
            &&& from <= k <= entries.len()
            &&& forall|i: int| from <= i < k ==> (#[trigger] entries[i]).id > id
            &&& k < entries.len() ==> entries[k].id <= id
        }),
    decreases entries.len() - from,
{
    if from < entries.len() && entries[from].id > id {
        lemma_place_by_id(entries, id, from + 1);
    }
}

proof fn lemma_newest_first(entries: Seq<BookmarkEntry>)
    ensures
        newest_first(entries).to_multiset() == entries.to_multiset(),
        forall|i: int, j: int|
            0 <= i < j < newest_first(entries).len() ==> (#[trigger] newest_first(entries)[i]).id
                >= (#[trigger] newest_first(entries)[j]).id,
    decreases entries.len(),
{
    if entries.len() == 0 {
        assert(newest_first(entries) =~= entries);
    } else {
        let last = entries.last();
        let before = newest_first(entries.drop_last());
        let k = place_by_id(before, last.id, 0);
        let after = newest_first(entries);
        lemma_newest_first(entries.drop_last());
        lemma_place_by_id(before, last.id, 0);
        vstd::seq_lib::to_multiset_insert(before, k, last);
        vstd::seq_lib::to_multiset_build(entries.drop_last(), last);
        assert(entries.drop_last().push(last) =~= entries);
        assert forall|i: int, j: int| 0 <= i < j < after.len() implies (#[trigger] after[i]).id >= (
        #[trigger] after[j]).id by {
            let p = if i < k {
                i
            } else {
                i - 1
            };
            let q = if j < k {
                j
            } else {
                j - 1
            };
            if i == k {
                assert(after[j] == before[q]);
                assert(before[k].id >= before[q].id);
            } else if j == k {
                assert(after[i] == before[i]);
            } else {
                assert(after[i] == before[p] && after[j] == before[q]);
            }
        }
    }
}

/// Whether an entry has an id.
pub open spec fn has_id(entries: Seq<BookmarkEntry>, id: u64) -> bool {
    exists|i: int| 0 <= i < entries.len() && (#[trigger] entries[i]).id == id
}

/// Whether a folder has an id.
pub open spec fn has_folder(folders: Seq<BookmarkFolder>, id: u64) -> bool {
    exists|i: int| 0 <= i < folders.len() && (#[trigger] folders[i]).id == id
}

proof fn lemma_id_index(entries: Seq<BookmarkEntry>, id: u64, from: int)
    requires
        0 <= from <= entries.len(),
    ensures
        from <= id_index(entries, id, from) <= entries.len(),
        id_index(entries, id, from) < entries.len() ==> entries[id_index(entries, id, from)].id
            == id,
        forall|j: int| from <= j < id_index(entries, id, from) ==> (#[trigger] entries[j]).id != id,
    decreases entries.len() - from,
{
    if from < entries.len() && entries[from].id != id {
        lemma_id_index(entries, id, from + 1);
    }
}

fn find_url(entries: &Vec<BookmarkEntry>, url: &str) -> (r: Option<usize>)
    ensures
        match r {
            Some(i) => i == url_index(entries@, url@, 0) && i < entries@.len() && entries@[i
                as int].url@ == url@,
            None => !has_url(entries@, url@) && url_index(entries@, url@, 0) == entries@.len(),
        },
{
    let mut i: usize = 0;
    while i < entries.len()
        invariant
            i <= entries@.len(),
            url_index(entries@, url@, 0) == url_index(entries@, url@, i as int),
            forall|j: int| 0 <= j < i ==> (#[trigger] entries@[j]).url@ != url@,
        decreases entries@.len() - i,
    {
        if str_eq(&entries[i].url, url) {
            return Some(i);
        }
        i = i + 1;
    }
    None
}

fn find_id(entries: &Vec<BookmarkEntry>, id: u64) -> (r: Option<usize>)
    ensures
        match r {
            Some(i) => i == id_index(entries@, id, 0) && i < entries@.len() && entries@[i as int].id
                == id,
            None => !has_id(entries@, id) && id_index(entries@, id, 0) == entries@.len(),
        },
{
    let mut i: usize = 0;
    while i < entries.len()
        invariant
            i <= entries@.len(),
            id_index(entries@, id, 0) == id_index(entries@, id, i as int),
            forall|j: int| 0 <= j < i ==> (#[trigger] entries@[j]).id != id,
        decreases entries@.len() - i,
    {
        if entries[i].id == id {
            return Some(i);
        }
        i = i + 1;
    }
    None
}

fn find_folder(folders: &Vec<BookmarkFolder>, id: u64) -> (r: Option<usize>)
    ensures
        match r {
            Some(i) => i < folders@.len() && folders@[i as int].id == id && forall|j: int|
                0 <= j < i ==> (#[trigger] folders@[j]).id != id,
            None => !has_folder(folders@, id),
        },
{
    for i in 0..folders.len()
        invariant
            forall|j: int| 0 <= j < i ==> (#[trigger] folders@[j]).id != id,
    {
        if folders[i].id == id {
            return Some(i);
        }
    }
    None
}

// ---------------------------------------------------------------------------
// What operations do

/// The store with a page saved. A page that is saved already keeps its entry,
/// with a new title if there is one.
pub open spec fn is_added(
    before: StoreModel,
    after: StoreModel,
    url: Seq<char>,
    title: Option<String>,
    created_at: u64,
) -> bool {
    &&& after.folders == before.folders
    &&& after.next_folder_id == before.next_folder_id
    &&& if has_url(before.entries, url) {
        let i = url_index(before.entries, url, 0);
        let entry = before.entries[i];
        &&& after.next_id == before.next_id
        &&& after.entries == before.entries.update(
            i,
            BookmarkEntry {
                title: if title is Some {
                    title
                } else {
                    entry.title
                },
                ..entry
            },
        )
    } else {
        &&& after.next_id == before.next_id + 1
        &&& after.entries.len() == before.entries.len() + 1
        &&& after.entries.drop_last() == before.entries
        &&& is_new_entry(after.entries.last(), before.next_id, url, title, created_at)
    }
}

/// What entries other than those of a page have in common.
pub open spec fn other_pages(url: Seq<char>) -> spec_fn(BookmarkEntry) -> bool {
    |e: BookmarkEntry| e.url@ != url
}

/// Whether the store became what it is by removing the page if it was saved, and
/// saving it otherwise.
pub open spec fn is_toggled(
    before: StoreModel,
    after: StoreModel,
    url: Seq<char>,
    title: Option<String>,
    created_at: u64,
) -> bool {
    if has_url(before.entries, url) {
        after == (StoreModel {
            entries: before.entries.filter(other_pages(url)),
            ..before
        })
    } else {
        is_added(before, after, url, title, created_at)
    }
}

proof fn lemma_toggled_urls(
    before: StoreModel,
    after: StoreModel,
    url: Seq<char>,
    title: Option<String>,
    created_at: u64,
)
    requires
        is_toggled(before, after, url, title, created_at),
    ensures
        has_url(after.entries, url) == !has_url(before.entries, url),
        forall|other: Seq<char>|
            other != url ==> #[trigger] has_url(after.entries, other) == has_url(
                before.entries,
                other,
            ),
{
    let keep = other_pages(url);
    if has_url(before.entries, url) {
        assert forall|i: int| 0 <= i < after.entries.len() implies (
        #[trigger] after.entries[i]).url@ != url by {
            before.entries.lemma_filter_pred(keep, i);
        }
        assert forall|other: Seq<char>| other != url implies #[trigger] has_url(
            after.entries,
            other,
        ) == has_url(before.entries, other) by {
            if has_url(before.entries, other) {
                let i = choose|i: int|
                    0 <= i < before.entries.len() && (#[trigger] before.entries[i]).url@ == other;
                before.entries.lemma_filter_contains(keep, i);
                let k = after.entries.index_of(before.entries[i]);
                assert(after.entries[k].url@ == other);
            }
            if has_url(after.entries, other) {
                let k = choose|k: int|
                    0 <= k < after.entries.len() && (#[trigger] after.entries[k]).url@ == other;
                assert(after.entries.contains(after.entries[k]));
                before.entries.lemma_filter_contains_rev(keep, after.entries[k]);
                let i = before.entries.index_of(after.entries[k]);
                assert(before.entries[i].url@ == other);
            }
        }
    } else {
        let n = before.entries.len() as int;
        assert(after.entries[n].url@ == url);
        assert forall|i: int| 0 <= i < n implies #[trigger] after.entries[i]
            == before.entries[i] by {
            assert(after.entries.drop_last()[i] == after.entries[i]);
        }
        assert forall|other: Seq<char>| other != url implies #[trigger] has_url(
            after.entries,
            other,
        ) == has_url(before.entries, other) by {
            if has_url(before.entries, other) {
                let i = choose|i: int|
                    0 <= i < before.entries.len() && (#[trigger] before.entries[i]).url@ == other;
                assert(after.entries[i].url@ == other);
            }
            if has_url(after.entries, other) {
                let k = choose|k: int|
                    0 <= k < after.entries.len() && (#[trigger] after.entries[k]).url@ == other;
                assert(before.entries[k].url@ == other);
            }
        }
    }
}

/// Whether an entry is that of a page that was just saved.
pub open spec fn is_new_entry(
    entry: BookmarkEntry,
    id: u64,
    url: Seq<char>,
    title: Option<String>,
    created_at: u64,
) -> bool {
    &&& entry.id == id
    &&& entry.url@ == url
    &&& entry.title == title
    &&& entry.created_at == created_at
    &&& entry.folder_id is None
    &&& entry.favicon is None
}

/// The folder that an entry is put into: `None` for one that does not exist.
pub open spec fn known_folder(folders: Seq<BookmarkFolder>, folder_id: Option<u64>) -> Option<u64> {
    match folder_id {
        Some(id) => if has_folder(folders, id) {
            Some(id)
        } else {
            None
        },
        None => None,
    }
}

/// Whether another entry than that of an id has a URL.
pub open spec fn is_url_of_another(entries: Seq<BookmarkEntry>, id: u64, url: Seq<char>) -> bool {
    exists|i: int|
        0 <= i < entries.len() && (#[trigger] entries[i]).id != id && entries[i].url@ == url
}

/// The index of the last entry of a folder before an index; -1 where there is
/// none.
pub open spec fn previous_in(entries: Seq<BookmarkEntry>, folder: Option<u64>, before: int) -> int
    decreases before,
{
    if before <= 0 {
        -1
    } else if entries[before - 1].folder_id == folder {
        before - 1
    } else {
        previous_in(entries, folder, before - 1)
    }
}

/// The index of the first entry of a folder from an index on; the number of
/// entries where there is none.
pub open spec fn next_in(entries: Seq<BookmarkEntry>, folder: Option<u64>, from: int) -> int
    decreases entries.len() - from,
{
    if from >= entries.len() {
        entries.len() as int
    } else if entries[from].folder_id == folder {
        from
    } else {
        next_in(entries, folder, from + 1)
    }
}

/// `s` with two elements in each other's place.
pub open spec fn swapped<T>(s: Seq<T>, i: int, j: int) -> Seq<T> {
    s.update(i, s[j]).update(j, s[i])
}

/// The entries with that of an id before the one that precedes it in its folder;
/// `None` if there is no such entry, or none before it.
pub open spec fn moved_up(entries: Seq<BookmarkEntry>, id: u64) -> Option<Seq<BookmarkEntry>> {
    let i = id_index(entries, id, 0);
    let j = previous_in(entries, entries[i].folder_id, i);
    if has_id(entries, id) && j >= 0 {
        Some(swapped(entries, j, i))
    } else {
        None
    }
}

/// The entries with that of an id behind the one that follows it in its folder;
/// `None` if there is no such entry, or none behind it.
pub open spec fn moved_down(entries: Seq<BookmarkEntry>, id: u64) -> Option<Seq<BookmarkEntry>> {
    let i = id_index(entries, id, 0);
    let j = next_in(entries, entries[i].folder_id, i + 1);
    if has_id(entries, id) && j < entries.len() {
        Some(swapped(entries, i, j))
    } else {
        None
    }
}

/// An entry without the folder that is no more.
pub open spec fn out_of_folder(entry: BookmarkEntry, id: u64) -> BookmarkEntry {
    if entry.folder_id == Some(id) {
        BookmarkEntry { folder_id: None, ..entry }
    } else {
        entry
    }
}

/// An entry without a folder that does not exist.
pub open spec fn without_dangling(entry: BookmarkEntry, folders: Seq<BookmarkFolder>) -> BookmarkEntry {
    BookmarkEntry { folder_id: known_folder(folders, entry.folder_id), ..entry }
}

fn find_previous(entries: &Vec<BookmarkEntry>, folder: Option<u64>, before: usize) -> (r: Option<
    usize,
>)
    requires
        before <= entries@.len(),
    ensures
        match r {
            Some(j) => j == previous_in(entries@, folder, before as int) && j < before,
            None => previous_in(entries@, folder, before as int) < 0,
        },
{
    let mut j: usize = before;
    while j > 0
        invariant
            j <= before <= entries@.len(),
            previous_in(entries@, folder, before as int) == previous_in(
                entries@,
                folder,
                j as int,
            ),
        decreases j,
    {
        j = j - 1;
        if entries[j].folder_id == folder {
            return Some(j);
        }
    }
    None
}

fn find_next(entries: &Vec<BookmarkEntry>, folder: Option<u64>, after: usize) -> (r: Option<usize>)
    requires
        after < entries@.len(),
    ensures
        match r {
            Some(j) => j == next_in(entries@, folder, after + 1) && after < j < entries@.len(),
            None => next_in(entries@, folder, after + 1) >= entries@.len(),
        },
{
    let n: usize = entries.len();
    let mut j: usize = after + 1;
    while j < n
        invariant
            after < j <= n,
            n == entries@.len(),
            next_in(entries@, folder, after + 1) == next_in(entries@, folder, j as int),
        decreases n - j,
    {
        if entries[j].folder_id == folder {
            return Some(j);
        }
        j = j + 1;
    }
    None
}

fn swap_entries(entries: &mut Vec<BookmarkEntry>, i: usize, j: usize)
    requires
        i < j < old(entries)@.len(),
    ensures
        final(entries)@ == swapped(old(entries)@, i as int, j as int),
{
    let ghost before = entries@;
    let later = entries.remove(j);
    let earlier = entries.remove(i);
    entries.insert(i, later);
    entries.insert(j, earlier);
    assert(entries@ =~= swapped(before, i as int, j as int));
}

impl BookmarkStore {
    /// No two entries have the same id or the same URL, no two folders the same
    /// id, no id is yet to be handed out, and every entry is in the root or in a
    /// folder that exists.
    pub open spec fn wf(&self) -> bool {
        is_wf(self@)
    }
}

/// See [`BookmarkStore::wf`].
pub open spec fn is_wf(s: StoreModel) -> bool {
    &&& forall|i: int| 0 <= i < s.entries.len() ==> (#[trigger] s.entries[i]).id < s.next_id
    &&& forall|i: int, j: int|
        0 <= i < j < s.entries.len() ==> (#[trigger] s.entries[i]).id != (
        #[trigger] s.entries[j]).id && s.entries[i].url@ != s.entries[j].url@
    &&& forall|i: int| 0 <= i < s.folders.len() ==> (#[trigger] s.folders[i]).id < s.next_folder_id
    &&& forall|i: int, j: int|
        0 <= i < j < s.folders.len() ==> (#[trigger] s.folders[i]).id != (
        #[trigger] s.folders[j]).id
    &&& forall|i: int|
        0 <= i < s.entries.len() ==> ((#[trigger] s.entries[i]).folder_id matches Some(f)
            ==> has_folder(s.folders, f))
}

impl Default for BookmarkStore {
    fn default() -> (r: Self)
        ensures
            r.wf(),
            r@.entries == Seq::<BookmarkEntry>::empty(),
            r@.folders == Seq::<BookmarkFolder>::empty(),
            r@.next_id == 1,
            r@.next_folder_id == 1,
    {
        BookmarkStore {
            entries: Vec::new(),
            next_id: 1,
            folders: Vec::new(),
            next_folder_id: 1,
        }
    }
}

impl BookmarkStore {
    /// An empty store.
    pub fn new() -> (r: Self)
        ensures
            r.wf(),
            r@.entries == Seq::<BookmarkEntry>::empty(),
            r@.folders == Seq::<BookmarkFolder>::empty(),
            r@.next_id == 1,
            r@.next_folder_id == 1,
    {
        Self::default()
    }

    /// A store with the given parts, as they were saved.
    pub fn from_parts(
        entries: Vec<BookmarkEntry>,
        next_id: u64,
        folders: Vec<BookmarkFolder>,
        next_folder_id: u64,
    ) -> (r: Self)
        ensures
            r@.entries == entries@,
            r@.next_id == next_id,
            r@.folders == folders@,
            r@.next_folder_id == next_folder_id,
    {
        BookmarkStore { entries, next_id, folders, next_folder_id }
    }

    /// The ids that are handed out next, for an entry and for a folder.
    pub fn next_ids(&self) -> (r: (u64, u64))
        ensures
            r == (self@.next_id, self@.next_folder_id),
    {
        (self.next_id, self.next_folder_id)
    }

    /// All entries, in order.
    pub fn entries(&self) -> (r: &[BookmarkEntry])
        ensures
            r@ == self@.entries,
    {
        self.entries.as_slice()
    }

    /// All entries, the most recently saved first, whatever their order is.
    pub fn entries_newest_first(&self) -> (r: Vec<&BookmarkEntry>)
        ensures
            r@.unref() == newest_first(self@.entries),
            r@.unref().to_multiset() == self@.entries.to_multiset(),
            forall|i: int, j: int|
                0 <= i < j < r@.len() ==> (#[trigger] r@[i]).id >= (#[trigger] r@[j]).id,
    {
        let ghost all = self.entries@;
        let mut r: Vec<&BookmarkEntry> = Vec::new();
        assert(r@.unref() =~= newest_first(all.take(0)));
        for i in 0..self.entries.len()
            invariant
                all == self.entries@,
                r@.unref() == newest_first(all.take(i as int)),
        {
            assert(all.take(i + 1).drop_last() =~= all.take(i as int));
            let entry: &BookmarkEntry = &self.entries[i];
            let ghost before = r@.unref();
            let mut k: usize = 0;
            while k < r.len() && r[k].id > entry.id
                invariant
                    k <= r@.len(),
                    before == r@.unref(),
                    place_by_id(before, entry.id, 0) == place_by_id(before, entry.id, k as int),
                decreases r@.len() - k,
            {
                assert(before[k as int] == *r@[k as int]);
                k = k + 1;
            }
            assert(k < r@.len() ==> before[k as int] == *r@[k as int]);
            r.insert(k, entry);
            assert(r@.unref() =~= before.insert(k as int, *entry));
        }
        assert(all.take(all.len() as int) =~= all);
        proof {
            lemma_newest_first(all);
            assert forall|i: int, j: int| 0 <= i < j < r@.len() implies (#[trigger] r@[i]).id >= (
            #[trigger] r@[j]).id by {
                assert(r@.unref()[i] == *r@[i] && r@.unref()[j] == *r@[j]);
            }
        }
        r
    }

    /// The entries of a folder, in order; `None` for the root.
    pub fn entries_in(&self, folder_id: Option<u64>) -> (r: Vec<&BookmarkEntry>)
        ensures
            r@.unref() == self@.entries.filter(
                |e: BookmarkEntry| e.folder_id == folder_id,
            ),
    {
        let ghost keep = |e: BookmarkEntry| e.folder_id == folder_id;
        let ghost all = self.entries@;
        let mut r: Vec<&BookmarkEntry> = Vec::new();
        proof {
            reveal(Seq::filter);
        }
        assert(r@.unref() =~= all.take(0).filter(keep));
        for i in 0..self.entries.len()
            invariant
                all == self.entries@,
                keep == (|e: BookmarkEntry| e.folder_id == folder_id),
                r@.unref() == all.take(i as int).filter(keep),
        {
            proof {
                all.take(i as int).lemma_filter_push(all[i as int], keep);
                assert(all.take(i as int).push(all[i as int]) =~= all.take(i + 1));
            }
            if self.entries[i].folder_id == folder_id {
                let ghost before = r@.unref();
                r.push(&self.entries[i]);
                assert(r@.unref() =~= before.push(all[i as int]));
            }
        }
        assert(all.take(all.len() as int) =~= all);
        r
    }

    /// All folders, in the order in which they were made.
    pub fn folders(&self) -> (r: &[BookmarkFolder])
        ensures
            r@ == self@.folders,
    {
        self.folders.as_slice()
    }

    /// Whether a page is saved.
    pub fn is_bookmarked(&self, url: &str) -> (r: bool)
        ensures
            r == has_url(self@.entries, url@),
    {
        let found = find_url(&self.entries, url);
        found.is_some()
    }

    /// Saves a page in the root, and gives its id. A page that is saved already
    /// keeps its id, its place and its folder, and its title unless there is a
    /// new one.
    pub fn add(&mut self, url: &str, title: Option<String>, created_at: u64) -> (id: u64)
        requires
            has_url(old(self)@.entries, url@) || old(self)@.next_id < u64::MAX,
        ensures
            is_added(old(self)@, final(self)@, url@, title, created_at),
            id == (if has_url(old(self)@.entries, url@) {
                old(self)@.entries[url_index(old(self)@.entries, url@, 0)].id
            } else {
                old(self)@.next_id
            }),
            old(self).wf() ==> final(self).wf(),
    {
        let ghost before = self@;
        match find_url(&self.entries, url) {
            Some(i) => {
                assert(has_url(before.entries, url@));
                if title.is_some() {
                    self.entries[i].title = title;
                }
                let id: u64 = self.entries[i].id;
                proof {
                    assert(self@.entries =~= before.entries.update(
                        i as int,
                        self@.entries[i as int],
                    ));
                    if is_wf(before) {
                        lemma_update_keeps_wf(before, i as int, self@.entries[i as int]);
                    }
                }
                id
            },
            None => {
                let id: u64 = self.next_id;
                self.next_id = self.next_id + 1;
                self.entries.push(
                    BookmarkEntry {
                        id,
                        url: url.to_owned(),
                        title,
                        created_at,
                        folder_id: None,
                        favicon: None,
                    },
                );
                proof {
                    assert(self@.entries.drop_last() =~= before.entries);
                    lemma_adding_keeps_wf(before, self@);
                }
                id
            },
        }
    }

    /// Removes the entry with an id. Gives whether there was one.
    pub fn remove(&mut self, id: u64) -> (r: bool)
        ensures
            r == has_id(old(self)@.entries, id),
            final(self)@ == (StoreModel {
                entries: old(self)@.entries.filter(|e: BookmarkEntry| e.id != id),
                ..old(self)@
            }),
            old(self).wf() ==> final(self).wf(),
    {
        let ghost before = self@;
        let ghost keep = |e: BookmarkEntry| e.id != id;
        let mut removed = false;
        let mut kept: Vec<BookmarkEntry> = Vec::new();
        let mut all: Vec<BookmarkEntry> = Vec::new();
        std::mem::swap(&mut all, &mut self.entries);
        proof {
            reveal(Seq::filter);
        }
        assert(before.entries.take(0).filter(keep) =~= Seq::empty());
        for entry in it: all
            invariant
                it.seq() == before.entries,
                keep == (|e: BookmarkEntry| e.id != id),
                kept@ == before.entries.take(it.index()).filter(keep),
                removed == (exists|j: int|
                    0 <= j < it.index() && (#[trigger] before.entries[j]).id == id),
        {
            proof {
                let i = it.index();
                before.entries.take(i).lemma_filter_push(before.entries[i], keep);
                assert(before.entries.take(i).push(before.entries[i]) =~= before.entries.take(
                    i + 1,
                ));
            }
            if entry.id != id {
                kept.push(entry);
            } else {
                removed = true;
            }
        }
        assert(before.entries.take(before.entries.len() as int) =~= before.entries);
        self.entries = kept;
        proof {
            lemma_filter_keeps_wf(before, keep);
        }
        removed
    }

    /// Removes the entry of a page. Gives whether there was one.
    pub fn remove_by_url(&mut self, url: &str) -> (r: bool)
        ensures
            r == has_url(old(self)@.entries, url@),
            final(self)@ == (StoreModel {
                entries: old(self)@.entries.filter(other_pages(url@)),
                ..old(self)@
            }),
            !r ==> final(self)@.entries == old(self)@.entries,
            old(self).wf() ==> final(self).wf(),
    {
        let ghost before = self@;
        let ghost keep = other_pages(url@);
        let mut removed = false;
        let mut kept: Vec<BookmarkEntry> = Vec::new();
        let mut all: Vec<BookmarkEntry> = Vec::new();
        std::mem::swap(&mut all, &mut self.entries);
        proof {
            reveal(Seq::filter);
        }
        assert(before.entries.take(0).filter(keep) =~= Seq::empty());
        for entry in it: all
            invariant
                it.seq() == before.entries,
                keep == other_pages(url@),
                kept@ == before.entries.take(it.index()).filter(keep),
                !removed ==> kept@ == before.entries.take(it.index()),
                removed == (exists|j: int|
                    0 <= j < it.index() && (#[trigger] before.entries[j]).url@ == url@),
        {
            proof {
                let i = it.index();
                before.entries.take(i).lemma_filter_push(before.entries[i], keep);
                assert(before.entries.take(i).push(before.entries[i]) =~= before.entries.take(
                    i + 1,
                ));
            }
            if !str_eq(&entry.url, url) {
                kept.push(entry);
            } else {
                removed = true;
            }
        }
        assert(before.entries.take(before.entries.len() as int) =~= before.entries);
        self.entries = kept;
        proof {
            lemma_filter_keeps_wf(before, keep);
        }
        removed
    }

    /// Removes the page if it is saved, saves it otherwise. Gives whether it is
    /// saved now.
    pub fn toggle(&mut self, url: &str, title: Option<String>, created_at: u64) -> (r: bool)
        requires
            has_url(old(self)@.entries, url@) || old(self)@.next_id < u64::MAX,
        ensures
            r == !has_url(old(self)@.entries, url@),
            r == has_url(final(self)@.entries, url@),
            is_toggled(old(self)@, final(self)@, url@, title, created_at),
            forall|other: Seq<char>|
                other != url@ ==> #[trigger] has_url(final(self)@.entries, other) == has_url(
                    old(self)@.entries,
                    other,
                ),
            old(self).wf() ==> final(self).wf(),
    {
        let ghost before = self@;
        if self.remove_by_url(url) {
            proof {
                let keep = other_pages(url@);
                assert forall|i: int| 0 <= i < self@.entries.len() implies (
                #[trigger] self@.entries[i]).url@ != url@ by {
                    assert(keep(self@.entries[i]));
                }
                lemma_toggled_urls(before, self@, url@, title, created_at);
            }
            false
        } else {
            self.add(url, title, created_at);
            proof {
                assert(self@.entries[self@.entries.len() - 1].url@ == url@);
                lemma_toggled_urls(before, self@, url@, title, created_at);
            }
            true
        }
    }

    /// Gives an entry another title, URL and folder; the root for a folder that
    /// does not exist. The URL is one that the address bar accepts. No other
    /// entry may have it.
    pub fn edit(
        &mut self,
        id: u64,
        title: Option<String>,
        url: String,
        folder_id: Option<u64>,
    ) -> (r: Result<(), BookmarkEditError>)
        ensures
            match r {
                Err(BookmarkEditError::DuplicateUrl) => is_url_of_another(
                    old(self)@.entries,
                    id,
                    url@,
                ),
                Err(BookmarkEditError::NotFound) => !is_url_of_another(
                    old(self)@.entries,
                    id,
                    url@,
                ) && !has_id(old(self)@.entries, id),
                Ok(_) => !is_url_of_another(old(self)@.entries, id, url@) && has_id(
                    old(self)@.entries,
                    id,
                ),
            },
            r is Err ==> final(self)@ == old(self)@,
            r is Ok ==> final(self)@ == ({
                let i = id_index(old(self)@.entries, id, 0);
                StoreModel {
                    entries: old(self)@.entries.update(
                        i,
                        BookmarkEntry {
                            title,
                            url,
                            folder_id: known_folder(old(self)@.folders, folder_id),
                            ..old(self)@.entries[i]
                        },
                    ),
                    ..old(self)@
                }
            }),
            old(self).wf() ==> final(self).wf(),
    {
        let ghost before = self@;
        for i in 0..self.entries.len()
            invariant
                self@ == before,
                before.entries == self.entries@,
                forall|j: int|
                    0 <= j < i ==> (#[trigger] before.entries[j]).id == id
                        || before.entries[j].url@ != url@,
        {
            if self.entries[i].id != id && str_eq(&self.entries[i].url, &url) {
                return Err(BookmarkEditError::DuplicateUrl);
            }
        }
        let known: Option<u64> = match folder_id {
            Some(f) => {
                let found = find_folder(&self.folders, f);
                if found.is_some() {
                    Some(f)
                } else {
                    None
                }
            },
            None => None,
        };
        match find_id(&self.entries, id) {
            Some(i) => {
                assert(before.entries[i as int].id == id);
                self.entries[i].title = title;
                self.entries[i].url = url;
                self.entries[i].folder_id = known;
                proof {
                    assert(self@.entries =~= before.entries.update(
                        i as int,
                        self@.entries[i as int],
                    ));
                    if is_wf(before) {
                        lemma_update_keeps_wf(before, i as int, self@.entries[i as int]);
                    }
                }
                Ok(())
            },
            None => Err(BookmarkEditError::NotFound),
        }
    }

    /// Moves an entry before the one that precedes it in its folder. Gives
    /// whether it was moved: it is not if there is no such entry, or none before
    /// it.
    pub fn move_up(&mut self, id: u64) -> (r: bool)
        ensures
            r == moved_up(old(self)@.entries, id) is Some,
            final(self)@ == (StoreModel {
                entries: match moved_up(old(self)@.entries, id) {
                    Some(entries) => entries,
                    None => old(self)@.entries,
                },
                ..old(self)@
            }),
            old(self).wf() ==> final(self).wf(),
    {
        let ghost before = self@;
        match find_id(&self.entries, id) {
            None => false,
            Some(index) => {
                assert(before.entries[index as int].id == id);
                match find_previous(&self.entries, self.entries[index].folder_id, index) {
                    Some(j) => {
                        swap_entries(&mut self.entries, j, index);
                        proof {
                            lemma_swapping_keeps_wf(before, j as int, index as int);
                        }
                        true
                    },
                    None => false,
                }
            },
        }
    }

    /// Moves an entry behind the one that follows it in its folder. Gives
    /// whether it was moved: it is not if there is no such entry, or none behind
    /// it.
    pub fn move_down(&mut self, id: u64) -> (r: bool)
        ensures
            r == moved_down(old(self)@.entries, id) is Some,
            final(self)@ == (StoreModel {
                entries: match moved_down(old(self)@.entries, id) {
                    Some(entries) => entries,
                    None => old(self)@.entries,
                },
                ..old(self)@
            }),
            old(self).wf() ==> final(self).wf(),
    {
        let ghost before = self@;
        match find_id(&self.entries, id) {
            None => false,
            Some(index) => {
                assert(before.entries[index as int].id == id);
                match find_next(&self.entries, self.entries[index].folder_id, index) {
                    Some(j) => {
                        swap_entries(&mut self.entries, index, j);
                        proof {
                            lemma_swapping_keeps_wf(before, index as int, j as int);
                        }
                        true
                    },
                    None => false,
                }
            },
        }
    }

    /// Makes a folder, and gives its id.
    pub fn create_folder(&mut self, name: String, created_at: u64) -> (id: u64)
        requires
            old(self)@.next_folder_id < u64::MAX,
        ensures
            id == old(self)@.next_folder_id,
            final(self)@ == (StoreModel {
                folders: old(self)@.folders.push(BookmarkFolder { id, name, created_at }),
                next_folder_id: (id + 1) as u64,
                ..old(self)@
            }),
            old(self).wf() ==> final(self).wf(),
    {
        let ghost before = self@;
        let id: u64 = self.next_folder_id;
        self.next_folder_id = self.next_folder_id + 1;
        self.folders.push(BookmarkFolder { id, name, created_at });
        proof {
            lemma_more_folders(before.folders, self@.folders);
        }
        id
    }

    /// Renames a folder. Gives whether there is one with the id.
    pub fn rename_folder(&mut self, id: u64, name: String) -> (r: bool)
        ensures
            r == has_folder(old(self)@.folders, id),
            !r ==> final(self)@ == old(self)@,
            r ==> is_renamed(old(self)@, final(self)@, id, name),
            old(self).wf() ==> final(self).wf(),
    {
        let ghost before = self@;
        match find_folder(&self.folders, id) {
            Some(i) => {
                self.folders[i].name = name;
                proof {
                    assert(self@.folders =~= before.folders.update(
                        i as int,
                        BookmarkFolder { name, ..before.folders[i as int] },
                    ));
                    lemma_more_folders(before.folders, self@.folders);
                }
                true
            },
            None => false,
        }
    }

    /// Removes a folder. What was in it is in the root afterwards. Gives whether
    /// there was a folder with the id.
    pub fn remove_folder(&mut self, id: u64) -> (r: bool)
        ensures
            r == has_folder(old(self)@.folders, id),
            final(self)@ == (StoreModel {
                folders: old(self)@.folders.filter(|f: BookmarkFolder| f.id != id),
                entries: if r {
                    old(self)@.entries.map_values(|e: BookmarkEntry| out_of_folder(e, id))
                } else {
                    old(self)@.entries
                },
                ..old(self)@
            }),
            old(self).wf() ==> final(self).wf(),
    {
        let ghost before = self@;
        let ghost keep = |f: BookmarkFolder| f.id != id;
        let mut removed = false;
        let mut kept: Vec<BookmarkFolder> = Vec::new();
        let mut all: Vec<BookmarkFolder> = Vec::new();
        std::mem::swap(&mut all, &mut self.folders);
        proof {
            reveal(Seq::filter);
        }
        assert(before.folders.take(0).filter(keep) =~= Seq::empty());
        for folder in it: all
            invariant
                it.seq() == before.folders,
                keep == (|f: BookmarkFolder| f.id != id),
                kept@ == before.folders.take(it.index()).filter(keep),
                removed == (exists|j: int|
                    0 <= j < it.index() && (#[trigger] before.folders[j]).id == id),
        {
            proof {
                let i = it.index();
                before.folders.take(i).lemma_filter_push(before.folders[i], keep);
                assert(before.folders.take(i).push(before.folders[i]) =~= before.folders.take(
                    i + 1,
                ));
            }
            if folder.id != id {
                kept.push(folder);
            } else {
                removed = true;
            }
        }
        assert(before.folders.take(before.folders.len() as int) =~= before.folders);
        self.folders = kept;
        if removed {
            let n: usize = self.entries.len();
            for i in 0..n
                invariant
                    n == before.entries.len(),
                    self@.folders == before.folders.filter(keep),
                    self@.next_id == before.next_id,
                    self@.next_folder_id == before.next_folder_id,
                    self@.entries == self.entries@,
                    self@.entries.len() == before.entries.len(),
                    forall|j: int|
                        0 <= j < i ==> #[trigger] self@.entries[j] == out_of_folder(
                            before.entries[j],
                            id,
                        ),
                    forall|j: int|
                        i <= j < before.entries.len() ==> #[trigger] self@.entries[j]
                            == before.entries[j],
            {
                if self.entries[i].folder_id == Some(id) {
                    self.entries[i].folder_id = None;
                }
            }
            assert(self@.entries =~= before.entries.map_values(
                |e: BookmarkEntry| out_of_folder(e, id),
            ));
        }
        proof {
            if is_wf(before) {
                lemma_removing_a_folder_keeps_wf(before, self@, id);
            }
        }
        removed
    }

    /// Sets the icon of a page. Gives whether the page is saved.
    pub fn update_favicon_by_url(&mut self, url: &str, favicon: String) -> (r: bool)
        ensures
            r == has_url(old(self)@.entries, url@),
            !r ==> final(self)@ == old(self)@,
            r ==> final(self)@ == ({
                let i = url_index(old(self)@.entries, url@, 0);
                StoreModel {
                    entries: old(self)@.entries.update(
                        i,
                        BookmarkEntry { favicon: Some(favicon), ..old(self)@.entries[i] },
                    ),
                    ..old(self)@
                }
            }),
            old(self).wf() ==> final(self).wf(),
    {
        let ghost before = self@;
        match find_url(&self.entries, url) {
            Some(i) => {
                assert(before.entries[i as int].url@ == url@);
                self.entries[i].favicon = Some(favicon);
                proof {
                    assert(self@.entries =~= before.entries.update(
                        i as int,
                        self@.entries[i as int],
                    ));
                    if is_wf(before) {
                        lemma_update_keeps_wf(before, i as int, self@.entries[i as int]);
                    }
                }
                true
            },
            None => false,
        }
    }

    /// Moves every entry of a folder that does not exist to the root. Saved
    /// stores need this: nothing keeps a file from naming such a folder.
    pub fn repair_dangling_folder_ids(&mut self)
        ensures
            final(self)@ == (StoreModel {
                entries: old(self)@.entries.map_values(
                    |e: BookmarkEntry| without_dangling(e, old(self)@.folders),
                ),
                ..old(self)@
            }),
            forall|i: int|
                0 <= i < final(self)@.entries.len() ==> ((
                #[trigger] final(self)@.entries[i]).folder_id matches Some(f) ==> has_folder(
                    final(self)@.folders,
                    f,
                )),
            old(self).wf() ==> final(self)@ == old(self)@,
    {
        let ghost before = self@;
        let n: usize = self.entries.len();
        for i in 0..n
            invariant
                n == before.entries.len(),
                self@.folders == before.folders,
                self@.folders == self.folders@,
                self@.next_id == before.next_id,
                self@.next_folder_id == before.next_folder_id,
                self@.entries == self.entries@,
                self@.entries.len() == before.entries.len(),
                forall|j: int|
                    0 <= j < i ==> #[trigger] self@.entries[j] == without_dangling(
                        before.entries[j],
                        before.folders,
                    ),
                forall|j: int|
                    i <= j < before.entries.len() ==> #[trigger] self@.entries[j]
                        == before.entries[j],
        {
            match self.entries[i].folder_id {
                Some(f) => {
                    let found = find_folder(&self.folders, f);
                    if found.is_none() {
                        self.entries[i].folder_id = None;
                    }
                },
                None => {},
            }
        }
        assert(self@.entries =~= before.entries.map_values(
            |e: BookmarkEntry| without_dangling(e, before.folders),
        ));
        proof {
            if is_wf(before) {
                assert(self@.entries =~= before.entries);
            }
        }
    }
}

/// The store with the first folder of an id renamed.
pub open spec fn is_renamed(before: StoreModel, after: StoreModel, id: u64, name: String) -> bool {
    exists|i: int|
        {
            &&& 0 <= i < before.folders.len()
            &&& (#[trigger] before.folders[i]).id == id
            &&& forall|j: int| 0 <= j < i ==> (#[trigger] before.folders[j]).id != id
            &&& after == StoreModel {
                folders: before.folders.update(i, BookmarkFolder { name, ..before.folders[i] }),
                ..before
            }
        }
}

// ---------------------------------------------------------------------------
// What keeps a store well formed

proof fn lemma_update_keeps_wf(s: StoreModel, i: int, entry: BookmarkEntry)
    requires
        is_wf(s),
        0 <= i < s.entries.len(),
        entry.id == s.entries[i].id,
        forall|j: int|
            0 <= j < s.entries.len() && j != i ==> (#[trigger] s.entries[j]).url@ != entry.url@,
        entry.folder_id matches Some(f) ==> has_folder(s.folders, f),
    ensures
        is_wf(StoreModel { entries: s.entries.update(i, entry), ..s }),
{
    let after = s.entries.update(i, entry);
    assert forall|j: int, k: int| 0 <= j < k < after.len() implies (#[trigger] after[j]).id != (
    #[trigger] after[k]).id && after[j].url@ != after[k].url@ by {
        assert(s.entries[j].id != s.entries[k].id);
    }
}

proof fn lemma_adding_keeps_wf(before: StoreModel, after: StoreModel)
    requires
        before.next_id < after.next_id,
        after.entries.len() == before.entries.len() + 1,
        after.entries.drop_last() == before.entries,
        after.entries.last().id == before.next_id,
        after.entries.last().folder_id is None,
        !has_url(before.entries, after.entries.last().url@),
        after.folders == before.folders,
        after.next_folder_id == before.next_folder_id,
    ensures
        is_wf(before) ==> is_wf(after),
{
    if is_wf(before) {
        assert forall|i: int| 0 <= i < before.entries.len() implies #[trigger] after.entries[i]
            == before.entries[i] by {
            assert(after.entries.drop_last()[i] == before.entries[i]);
        }
    }
}

proof fn lemma_swapping_keeps_wf(s: StoreModel, i: int, j: int)
    requires
        0 <= i < j < s.entries.len(),
    ensures
        is_wf(s) ==> is_wf(StoreModel { entries: swapped(s.entries, i, j), ..s }),
{
    if is_wf(s) {
        let after = swapped(s.entries, i, j);
        let from = |k: int|
            if k == i {
                j
            } else if k == j {
                i
            } else {
                k
            };
        assert forall|a: int, b: int| 0 <= a < b < after.len() implies (#[trigger] after[a]).id != (
        #[trigger] after[b]).id && after[a].url@ != after[b].url@ by {
            assert(after[a] == s.entries[from(a)]);
            assert(after[b] == s.entries[from(b)]);
        }
    }
}

proof fn lemma_more_folders(before: Seq<BookmarkFolder>, after: Seq<BookmarkFolder>)
    requires
        before.len() <= after.len(),
        forall|i: int| 0 <= i < before.len() ==> (#[trigger] after[i]).id == before[i].id,
    ensures
        forall|id: u64| #[trigger] has_folder(before, id) ==> has_folder(after, id),
{
    assert forall|id: u64| #[trigger] has_folder(before, id) implies has_folder(after, id) by {
        let i = choose|i: int| 0 <= i < before.len() && (#[trigger] before[i]).id == id;
        assert(after[i].id == id);
    }
}

proof fn lemma_removing_a_folder_keeps_wf(before: StoreModel, after: StoreModel, id: u64)
    requires
        is_wf(before),
        after == (StoreModel {
            folders: before.folders.filter(|f: BookmarkFolder| f.id != id),
            entries: if has_folder(before.folders, id) {
                before.entries.map_values(|e: BookmarkEntry| out_of_folder(e, id))
            } else {
                before.entries
            },
            ..before
        }),
    ensures
        is_wf(after),
{
    let keep = |f: BookmarkFolder| f.id != id;
    lemma_filtered_folders(before.folders, keep, before.next_folder_id);
    assert forall|i: int| 0 <= i < after.entries.len() implies ((
    #[trigger] after.entries[i]).folder_id matches Some(f) ==> has_folder(after.folders, f)) by {
        assert(before.entries[i].id == after.entries[i].id);
        if let Some(f) = after.entries[i].folder_id {
            let k = choose|k: int|
                0 <= k < before.folders.len() && (#[trigger] before.folders[k]).id == f;
            if f == id {
                assert(before.folders[k].id == id);
                assert(has_folder(before.folders, id));
            }
            assert(keep(before.folders[k]));
            assert(after.folders.contains(before.folders[k]));
            let m = after.folders.index_of(before.folders[k]);
            assert(after.folders[m].id == f);
        }
    }
    assert forall|i: int, j: int| 0 <= i < j < after.entries.len() implies (
    #[trigger] after.entries[i]).id != (#[trigger] after.entries[j]).id && after.entries[i].url@
        != after.entries[j].url@ by {
        assert(before.entries[i].id != before.entries[j].id);
    }
    assert forall|i: int| 0 <= i < after.entries.len() implies (#[trigger] after.entries[i]).id
        < after.next_id by {
        assert(before.entries[i].id < before.next_id);
    }
}

proof fn lemma_filtered_folders(
    folders: Seq<BookmarkFolder>,
    keep: spec_fn(BookmarkFolder) -> bool,
    next_id: u64,
)
    requires
        forall|i: int| 0 <= i < folders.len() ==> (#[trigger] folders[i]).id < next_id,
        forall|i: int, j: int|
            0 <= i < j < folders.len() ==> (#[trigger] folders[i]).id != (#[trigger] folders[j]).id,
    ensures
        ({
            let kept = folders.filter(keep);
            &&& forall|i: int| 0 <= i < kept.len() ==> (#[trigger] kept[i]).id < next_id
            &&& forall|i: int, j: int|
                0 <= i < j < kept.len() ==> (#[trigger] kept[i]).id != (#[trigger] kept[j]).id
            &&& forall|i: int| 0 <= i < kept.len() ==> folders.contains(#[trigger] kept[i])
            &&& forall|i: int|
                0 <= i < folders.len() && keep(folders[i]) ==> kept.contains(
                    #[trigger] folders[i],
                )
        }),
    decreases folders.len(),
{
    reveal(Seq::filter);
    if folders.len() > 0 {
        let shorter = folders.drop_last();
        let last = folders.last();
        assert forall|i: int| 0 <= i < shorter.len() implies #[trigger] shorter[i] == folders[i] by {}
        lemma_filtered_folders(shorter, keep, next_id);
        let before = shorter.filter(keep);
        let kept = folders.filter(keep);
        assert(folders[folders.len() - 1] == last);
        assert forall|i: int| 0 <= i < before.len() implies (#[trigger] before[i]).id != last.id
            && folders.contains(before[i]) by {
            let k = shorter.index_of(before[i]);
            assert(shorter.contains(before[i]));
            assert(folders[k] == before[i]);
        }
        assert forall|i: int| 0 <= i < kept.len() implies folders.contains(#[trigger] kept[i]) by {
            if i < before.len() {
                assert(kept[i] == before[i]);
            } else {
                assert(kept[i] == folders[folders.len() - 1]);
            }
        }
        assert forall|i: int| 0 <= i < folders.len() && keep(folders[i]) implies kept.contains(
            #[trigger] folders[i],
        ) by {
            if i < shorter.len() {
                assert(before.contains(shorter[i]));
                let k = before.index_of(shorter[i]);
                assert(kept[k] == folders[i]);
            } else {
                assert(kept[kept.len() - 1] == folders[i]);
            }
        }
    }
}

proof fn lemma_filter_keeps_wf(s: StoreModel, keep: spec_fn(BookmarkEntry) -> bool)
    ensures
        is_wf(s) ==> is_wf(StoreModel { entries: s.entries.filter(keep), ..s }),
{
    if is_wf(s) {
        lemma_filtered_entries(s.entries, keep, s.next_id, s.folders);
    }
}

proof fn lemma_filtered_entries(
    entries: Seq<BookmarkEntry>,
    keep: spec_fn(BookmarkEntry) -> bool,
    next_id: u64,
    folders: Seq<BookmarkFolder>,
)
    requires
        forall|i: int| 0 <= i < entries.len() ==> (#[trigger] entries[i]).id < next_id,
        forall|i: int, j: int|
            0 <= i < j < entries.len() ==> (#[trigger] entries[i]).id != (#[trigger] entries[j]).id
                && entries[i].url@ != entries[j].url@,
        forall|i: int|
            0 <= i < entries.len() ==> ((#[trigger] entries[i]).folder_id matches Some(f)
                ==> has_folder(folders, f)),
    ensures
        ({
            let kept = entries.filter(keep);
            &&& forall|i: int| 0 <= i < kept.len() ==> (#[trigger] kept[i]).id < next_id
            &&& forall|i: int, j: int|
                0 <= i < j < kept.len() ==> (#[trigger] kept[i]).id != (#[trigger] kept[j]).id
                    && kept[i].url@ != kept[j].url@
            &&& forall|i: int|
                0 <= i < kept.len() ==> ((#[trigger] kept[i]).folder_id matches Some(f)
                    ==> has_folder(folders, f))
            &&& forall|i: int| 0 <= i < kept.len() ==> entries.contains(#[trigger] kept[i])
        }),
    decreases entries.len(),
{
    reveal(Seq::filter);
    if entries.len() > 0 {
        let shorter = entries.drop_last();
        let last = entries.last();
        assert forall|i: int| 0 <= i < shorter.len() implies #[trigger] shorter[i] == entries[i] by {}
        lemma_filtered_entries(shorter, keep, next_id, folders);
        let before = shorter.filter(keep);
        let kept = entries.filter(keep);
        assert(entries[entries.len() - 1] == last);
        assert forall|i: int| 0 <= i < before.len() implies (#[trigger] before[i]).id != last.id
            && before[i].url@ != last.url@ && entries.contains(before[i]) by {
            let k = shorter.index_of(before[i]);
            assert(shorter.contains(before[i]));
            assert(entries[k] == before[i]);
        }
        assert forall|i: int| 0 <= i < kept.len() implies entries.contains(#[trigger] kept[i]) by {
            if i < before.len() {
                assert(kept[i] == before[i]);
            } else {
                assert(kept[i] == entries[entries.len() - 1]);
            }
        }
    }
}

// ---------------------------------------------------------------------------
// Laws

/// What is moved up and down again is where it was.
pub proof fn moving_down_undoes_moving_up(s: StoreModel, id: u64)
    requires
        is_wf(s),
        moved_up(s.entries, id) is Some,
    ensures
        moved_down(moved_up(s.entries, id)->0, id) == Some(s.entries),
{
    let entries = s.entries;
    let i = id_index(entries, id, 0);
    let folder = entries[i].folder_id;
    let j = previous_in(entries, folder, i);
    let after = moved_up(entries, id)->0;
    lemma_id_index(entries, id, 0);
    lemma_previous_in(entries, folder, i);
    lemma_id_index(after, id, 0);
    assert(after[j].id == id);
    assert(id_index(after, id, 0) == j) by {
        let k = id_index(after, id, 0);
        if k < j {
            assert(after[k] == entries[k]);
        }
    }
    lemma_next_in(after, folder, j + 1);
    let k = next_in(after, folder, j + 1);
    assert(after[i].folder_id == folder);
    assert(k == i) by {
        if k < i {
            assert(after[k] == entries[k]);
        }
    }
    assert(swapped(after, j, i) =~= entries);
}

/// What is moved down and up again is where it was.
pub proof fn moving_up_undoes_moving_down(s: StoreModel, id: u64)
    requires
        is_wf(s),
        moved_down(s.entries, id) is Some,
    ensures
        moved_up(moved_down(s.entries, id)->0, id) == Some(s.entries),
{
    let entries = s.entries;
    let i = id_index(entries, id, 0);
    let folder = entries[i].folder_id;
    lemma_id_index(entries, id, 0);
    lemma_next_in(entries, folder, i + 1);
    let j = next_in(entries, folder, i + 1);
    let after = moved_down(entries, id)->0;
    lemma_id_index(after, id, 0);
    assert(after[j].id == id);
    assert(id_index(after, id, 0) == j) by {
        let k = id_index(after, id, 0);
        if k < j {
            if k != i {
                assert(after[k] == entries[k]);
            } else {
                assert(after[k] == entries[j]);
            }
        }
    }
    lemma_previous_in(after, folder, j);
    let k = previous_in(after, folder, j);
    assert(after[i].folder_id == folder);
    assert(k == i) by {
        if k > i {
            assert(after[k] == entries[k]);
        }
    }
    assert(swapped(after, i, j) =~= entries);
}

/// Moving an entry changes nothing in any other folder.
pub proof fn moving_stays_in_the_folder(s: StoreModel, id: u64, other: Option<u64>)
    requires
        has_id(s.entries, id),
        other != s.entries[id_index(s.entries, id, 0)].folder_id,
    ensures
        ({
            let inside = |e: BookmarkEntry| e.folder_id == other;
            &&& moved_up(s.entries, id) matches Some(after) ==> after.filter(inside)
                == s.entries.filter(inside)
            &&& moved_down(s.entries, id) matches Some(after) ==> after.filter(inside)
                == s.entries.filter(inside)
        }),
{
    let inside = |e: BookmarkEntry| e.folder_id == other;
    let i = id_index(s.entries, id, 0);
    let folder = s.entries[i].folder_id;
    lemma_id_index(s.entries, id, 0);
    lemma_previous_in(s.entries, folder, i);
    lemma_next_in(s.entries, folder, i + 1);
    if let Some(after) = moved_up(s.entries, id) {
        lemma_filter_ignores(s.entries, after, inside);
    }
    if let Some(after) = moved_down(s.entries, id) {
        lemma_filter_ignores(s.entries, after, inside);
    }
}

/// Toggling a page that is not saved twice leaves the entries as they were.
pub proof fn toggling_twice_changes_no_entry(
    before: StoreModel,
    added: StoreModel,
    url: Seq<char>,
    title: Option<String>,
    created_at: u64,
)
    requires
        !has_url(before.entries, url),
        is_added(before, added, url, title, created_at),
    ensures
        added.entries.filter(other_pages(url)) == before.entries,
{
    reveal(Seq::filter);
    lemma_filter_keeps_all(before.entries, other_pages(url));
}

/// Toggling a page twice leaves every page saved that was saved, and no other.
pub proof fn toggling_twice_restores_what_is_saved(
    before: StoreModel,
    between: StoreModel,
    after: StoreModel,
    url: Seq<char>,
    titles: (Option<String>, Option<String>),
    times: (u64, u64),
    other: Seq<char>,
)
    requires
        is_toggled(before, between, url, titles.0, times.0),
        is_toggled(between, after, url, titles.1, times.1),
    ensures
        has_url(after.entries, other) == has_url(before.entries, other),
{
    lemma_toggled_urls(before, between, url, titles.0, times.0);
    lemma_toggled_urls(between, after, url, titles.1, times.1);
    assert(has_url(between.entries, other) || !has_url(between.entries, other));
}

/// A page that is saved gets an id that no entry has had.
pub proof fn a_new_id_is_new(
    before: StoreModel,
    after: StoreModel,
    url: Seq<char>,
    title: Option<String>,
    created_at: u64,
)
    requires
        is_wf(before),
        !has_url(before.entries, url),
        is_added(before, after, url, title, created_at),
    ensures
        !has_id(before.entries, after.entries.last().id),
        after.entries.last().id < after.next_id,
{
}

/// Removing a folder loses no entry, and changes nothing of one but its folder.
pub proof fn removing_a_folder_loses_no_entry(entries: Seq<BookmarkEntry>, id: u64)
    ensures
        ({
            let after = entries.map_values(|e: BookmarkEntry| out_of_folder(e, id));
            &&& after.len() == entries.len()
            &&& forall|i: int|
                0 <= i < after.len() ==> (BookmarkEntry {
                    folder_id: entries[i].folder_id,
                    ..#[trigger] after[i]
                }) == entries[i]
            &&& forall|i: int| 0 <= i < after.len() ==> (#[trigger] after[i]).folder_id != Some(id)
        }),
{
}

proof fn lemma_previous_in(entries: Seq<BookmarkEntry>, folder: Option<u64>, before: int)
    requires
        0 <= before <= entries.len(),
    ensures
        ({
            let j = previous_in(entries, folder, before);
            &&& -1 <= j < before || (before == 0 && j == -1)
            &&& j >= 0 ==> entries[j].folder_id == folder
            &&& forall|k: int| j < k < before ==> (#[trigger] entries[k]).folder_id != folder
        }),
    decreases before,
{
    if before > 0 && entries[before - 1].folder_id != folder {
        lemma_previous_in(entries, folder, before - 1);
    }
}

proof fn lemma_next_in(entries: Seq<BookmarkEntry>, folder: Option<u64>, from: int)
    requires
        0 <= from <= entries.len(),
    ensures
        ({
            let j = next_in(entries, folder, from);
            &&& from <= j <= entries.len()
            &&& j < entries.len() ==> entries[j].folder_id == folder
            &&& forall|k: int| from <= k < j ==> (#[trigger] entries[k]).folder_id != folder
        }),
    decreases entries.len() - from,
{
    if from < entries.len() && entries[from].folder_id != folder {
        lemma_next_in(entries, folder, from + 1);
    }
}

/// A filter does not see a change among what it leaves out.
proof fn lemma_filter_ignores<T>(s: Seq<T>, t: Seq<T>, keep: spec_fn(T) -> bool)
    requires
        s.len() == t.len(),
        forall|i: int| 0 <= i < s.len() ==> #[trigger] s[i] == t[i] || !keep(s[i]) && !keep(t[i]),
    ensures
        s.filter(keep) == t.filter(keep),
    decreases s.len(),
{
    reveal(Seq::filter);
    if s.len() > 0 {
        assert(s[s.len() - 1] == t[s.len() - 1] || !keep(s.last()) && !keep(t.last()));
        lemma_filter_ignores(s.drop_last(), t.drop_last(), keep);
    }
}

proof fn lemma_filter_keeps_all<T>(s: Seq<T>, keep: spec_fn(T) -> bool)
    requires
        forall|i: int| 0 <= i < s.len() ==> keep(#[trigger] s[i]),
    ensures
        s.filter(keep) == s,
    decreases s.len(),
{
    reveal(Seq::filter);
    if s.len() > 0 {
        lemma_filter_keeps_all(s.drop_last(), keep);
        assert(s.drop_last().push(s.last()) =~= s);
        assert(keep(s[s.len() - 1]));
    }
}

/// Saving a page that is not saved adds one entry at the end, with what is given and
/// nothing else, and leaves the others as they are.
pub proof fn a_page_is_saved_with_what_is_given(
    before: StoreModel,
    after: StoreModel,
    url: Seq<char>,
    title: Option<String>,
    created_at: u64,
)
    requires
        is_added(before, after, url, title, created_at),
        forall|i: int| 0 <= i < before.entries.len() ==> (#[trigger] before.entries[i]).url@ != url,
    ensures
        after.entries.len() == before.entries.len() + 1,
        after.entries.drop_last() == before.entries,
        after.entries.last().url@ == url,
        after.entries.last().title == title,
        after.entries.last().created_at == created_at,
        after.entries.last().folder_id is None,
        after.entries.last().favicon is None,
        after.entries.last().id == before.next_id,
        after.next_id > before.next_id,
        after.folders == before.folders,
{
}

/// Saving a page that is saved already gives its entry the title that is given, if
/// one is, and changes nothing else: neither of that entry nor of another.
pub proof fn saving_again_brings_the_title(
    before: StoreModel,
    after: StoreModel,
    url: Seq<char>,
    title: Option<String>,
    created_at: u64,
    i: int,
)
    requires
        is_wf(before),
        is_added(before, after, url, title, created_at),
        0 <= i < before.entries.len(),
        before.entries[i].url@ == url,
    ensures
        after.entries.len() == before.entries.len(),
        title is Some ==> after.entries[i].title == title,
        title is None ==> after.entries[i].title == before.entries[i].title,
        after.entries[i].id == before.entries[i].id,
        after.entries[i].url == before.entries[i].url,
        after.entries[i].created_at == before.entries[i].created_at,
        after.entries[i].folder_id == before.entries[i].folder_id,
        after.entries[i].favicon == before.entries[i].favicon,
        forall|j: int|
            0 <= j < before.entries.len() && j != i ==> #[trigger] after.entries[j]
                == before.entries[j],
        after.next_id == before.next_id,
        after.folders == before.folders,
{
    assert(has_url(before.entries, url));
    lemma_url_index(before.entries, url, 0);
    let k = url_index(before.entries, url, 0);
    assert(k == i) by {
        if k < i {
            assert(before.entries[k].url@ != before.entries[i].url@);
        }
    }
}

proof fn lemma_url_index(entries: Seq<BookmarkEntry>, url: Seq<char>, from: int)
    requires
        0 <= from <= entries.len(),
    ensures
        from <= url_index(entries, url, from) <= entries.len(),
        url_index(entries, url, from) < entries.len() ==> entries[url_index(
            entries,
            url,
            from,
        )].url@ == url,
        forall|j: int|
            from <= j < url_index(entries, url, from) ==> (#[trigger] entries[j]).url@ != url,
    decreases entries.len() - from,
{
    if from < entries.len() && entries[from].url@ != url {
        lemma_url_index(entries, url, from + 1);
    }
}

/// Moving an entry exchanges it with its neighbour in the same folder, the one
/// before it or the one behind it, and moves nothing else. It is not moved only
/// where it has no such neighbour.
pub proof fn a_move_is_by_one_place(s: StoreModel, id: u64, i: int)
    requires
        is_wf(s),
        0 <= i < s.entries.len(),
        s.entries[i].id == id,
    ensures
        moved_up(s.entries, id) is Some <==> exists|j: int|
            0 <= j < i && (#[trigger] s.entries[j]).folder_id == s.entries[i].folder_id,
        moved_up(s.entries, id) matches Some(after) ==> after.len() == s.entries.len() && exists|
            j: int,
        |
            {
                &&& 0 <= j < i
                &&& (#[trigger] s.entries[j]).folder_id == s.entries[i].folder_id
                &&& after[j] == s.entries[i]
                &&& after[i] == s.entries[j]
                &&& forall|k: int|
                    j < k < i ==> (#[trigger] s.entries[k]).folder_id != s.entries[i].folder_id
                &&& forall|k: int|
                    0 <= k < after.len() && k != i && k != j ==> #[trigger] after[k] == s.entries[k]
            },
        moved_down(s.entries, id) is Some <==> exists|j: int|
            i < j < s.entries.len() && (#[trigger] s.entries[j]).folder_id
                == s.entries[i].folder_id,
        moved_down(s.entries, id) matches Some(after) ==> after.len() == s.entries.len() && exists|
            j: int,
        |
            {
                &&& i < j < s.entries.len()
                &&& (#[trigger] s.entries[j]).folder_id == s.entries[i].folder_id
                &&& after[j] == s.entries[i]
                &&& after[i] == s.entries[j]
                &&& forall|k: int|
                    i < k < j ==> (#[trigger] s.entries[k]).folder_id != s.entries[i].folder_id
                &&& forall|k: int|
                    0 <= k < after.len() && k != i && k != j ==> #[trigger] after[k] == s.entries[k]
            },
{
    let entries = s.entries;
    let folder = entries[i].folder_id;
    assert(has_id(entries, id));
    lemma_id_index(entries, id, 0);
    let at = id_index(entries, id, 0);
    assert(at == i) by {
        if at < i {
            assert(entries[at].id != entries[i].id);
        }
    }
    lemma_previous_in(entries, folder, i);
    lemma_next_in(entries, folder, i + 1);
    let up = previous_in(entries, folder, i);
    let down = next_in(entries, folder, i + 1);
    if up >= 0 {
        assert(entries[up].folder_id == folder);
    }
    if down < entries.len() {
        assert(entries[down].folder_id == folder);
    }
}

/// An entry may keep its own URL in an edit, but not take that of another.
pub proof fn an_entry_may_keep_its_url(s: StoreModel, i: int, j: int)
    requires
        is_wf(s),
        0 <= i < s.entries.len(),
        0 <= j < s.entries.len(),
    ensures
        is_url_of_another(s.entries, s.entries[i].id, s.entries[j].url@) <==> i != j,
{
    let entries = s.entries;
    if i != j {
        assert(entries[j].id != entries[i].id);
    } else if is_url_of_another(entries, entries[i].id, entries[i].url@) {
        let k = choose|k: int|
            0 <= k < entries.len() && (#[trigger] entries[k]).id != entries[i].id
                && entries[k].url@ == entries[i].url@;
        assert(k != i);
        if k < i {
            assert(entries[k].url@ != entries[i].url@);
        } else {
            assert(entries[i].url@ != entries[k].url@);
        }
    }
}

/// An entry goes into a folder that exists, and into the root instead of one that
/// does not.
pub proof fn only_known_folders_are_used(folders: Seq<BookmarkFolder>, id: u64)
    ensures
        known_folder(folders, None) is None,
        (exists|i: int| 0 <= i < folders.len() && (#[trigger] folders[i]).id == id) ==> known_folder(
            folders,
            Some(id),
        ) == Some(id),
        (forall|i: int| 0 <= i < folders.len() ==> (#[trigger] folders[i]).id != id)
            ==> known_folder(folders, Some(id)) is None,
{
}

/// Removing a folder leaves what is in other folders where it is, and moves what was
/// in it to the root.
pub proof fn a_removed_folder_empties_into_the_root(entry: BookmarkEntry, id: u64)
    ensures
        entry.folder_id == Some(id) ==> out_of_folder(entry, id).folder_id is None,
        entry.folder_id != Some(id) ==> out_of_folder(entry, id) == entry,
        out_of_folder(entry, id).id == entry.id,
        out_of_folder(entry, id).url == entry.url,
        out_of_folder(entry, id).title == entry.title,
        out_of_folder(entry, id).created_at == entry.created_at,
        out_of_folder(entry, id).favicon == entry.favicon,
{
}

/// Renaming a folder changes no other folder, and nothing of that one but its name.
pub proof fn renaming_changes_a_name_only(
    before: StoreModel,
    after: StoreModel,
    id: u64,
    name: String,
    i: int,
)
    requires
        is_wf(before),
        is_renamed(before, after, id, name),
        0 <= i < before.folders.len(),
    ensures
        after.folders.len() == before.folders.len(),
        before.folders[i].id == id ==> after.folders[i].name == name,
        before.folders[i].id != id ==> after.folders[i].name == before.folders[i].name,
        after.folders[i].id == before.folders[i].id,
        after.folders[i].created_at == before.folders[i].created_at,
        after.entries == before.entries,
{
    let k = choose|k: int|
        {
            &&& 0 <= k < before.folders.len()
            &&& (#[trigger] before.folders[k]).id == id
            &&& forall|j: int| 0 <= j < k ==> (#[trigger] before.folders[j]).id != id
            &&& after == StoreModel {
                folders: before.folders.update(k, BookmarkFolder { name, ..before.folders[k] }),
                ..before
            }
        };
    if before.folders[i].id == id && i != k {
        if i < k {
            assert(before.folders[i].id != id);
        } else {
            assert(before.folders[k].id != before.folders[i].id);
        }
    }
}

} // verus!
