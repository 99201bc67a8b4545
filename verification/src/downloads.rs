//! Downloads: their states, the list of them, and where they go.

pub use crate::filenames::{
    sanitize_filename, unique_filename, FALLBACK_FILENAME, MAX_FILENAME_BYTES,
};

use vstd::prelude::*;
use vstd::string::*;

use crate::filenames;
use crate::paths::{self, join_on, same_path_on};
use crate::platform::Platform;
use crate::text::str_eq;

verus! {

/// Identifies one download. A [`DownloadStore`] never hands the same one out
/// twice.
#[derive(Debug, Clone, Copy, PartialEq, Eq, Structural, Hash, PartialOrd, Ord)]
pub struct DownloadId(u64);

impl DownloadId {
    /// The number that the id stands for.
    pub closed spec fn number(self) -> u64 {
        self.0
    }

    /// The number that the id stands for.
    pub fn get(self) -> (n: u64)
        ensures
            n == self.number(),
    {
        self.0
    }
}

impl From<u64> for DownloadId {
    fn from(id: u64) -> (r: Self)
        ensures
            r.number() == id,
    {
        DownloadId(id)
    }
}

impl vstd::std_specs::convert::FromSpecImpl<u64> for DownloadId {
    open spec fn obeys_from_spec() -> bool {
        true
    }

    closed spec fn from_spec(v: u64) -> Self {
        DownloadId(v)
    }
}

/// Where a download stands.
#[derive(Debug, Clone, Copy, PartialEq, Eq, Structural)]
pub enum DownloadState {
    /// The engine is writing the file.
    InProgress,
    /// The file is there.
    Completed,
    /// It ended without the file.
    Failed,
    /// The user cancelled it.
    Cancelled,
}

/// A change of state that is not allowed was asked for.
#[derive(Debug, Clone, Copy, PartialEq, Eq, Structural)]
pub struct InvalidDownloadTransition {
    pub from: DownloadState,
    pub to: DownloadState,
}

/// The outcome of moving a download from state `from` to the final state `to`:
/// only a download in progress can move.
pub open spec fn moved(from: DownloadState, to: DownloadState) -> Result<
    DownloadState,
    InvalidDownloadTransition,
> {
    if from is InProgress {
        Ok(to)
    } else {
        Err(InvalidDownloadTransition { from, to })
    }
}

impl DownloadState {
    /// Whether the download has ended; no further change is possible then.
    pub fn is_terminal(self) -> (r: bool)
        ensures
            r == !(self is InProgress),
    {
        match self {
            DownloadState::InProgress => false,
            _ => true,
        }
    }

    /// The name of the state.
    pub open spec fn name_text(self) -> Seq<char> {
        match self {
            DownloadState::InProgress => "InProgress"@,
            DownloadState::Completed => "Completed"@,
            DownloadState::Failed => "Failed"@,
            DownloadState::Cancelled => "Cancelled"@,
        }
    }

    fn name(self) -> (r: &'static str)
        ensures
            r@ == self.name_text(),
    {
        match self {
            DownloadState::InProgress => "InProgress",
            DownloadState::Completed => "Completed",
            DownloadState::Failed => "Failed",
            DownloadState::Cancelled => "Cancelled",
        }
    }

    fn move_to(self, to: DownloadState) -> (r: Result<Self, InvalidDownloadTransition>)
        ensures
            r == moved(self, to),
    {
        match self {
            DownloadState::InProgress => Ok(to),
            _ => Err(InvalidDownloadTransition { from: self, to }),
        }
    }

    fn complete(self) -> (r: Result<Self, InvalidDownloadTransition>)
        ensures
            r == moved(self, DownloadState::Completed),
    {
        self.move_to(DownloadState::Completed)
    }

    fn fail(self) -> (r: Result<Self, InvalidDownloadTransition>)
        ensures
            r == moved(self, DownloadState::Failed),
    {
        self.move_to(DownloadState::Failed)
    }

    fn cancel(self) -> (r: Result<Self, InvalidDownloadTransition>)
        ensures
            r == moved(self, DownloadState::Cancelled),
    {
        self.move_to(DownloadState::Cancelled)
    }
}

impl InvalidDownloadTransition {
    /// The error in words.
    pub fn message(&self) -> (r: String)
        ensures
            r@ == "invalid download state transition: "@ + self.from.name_text() + " -> "@
                + self.to.name_text(),
    {
        let mut r = "invalid download state transition: ".to_owned();
        r.append(self.from.name());
        r.append(" -> ");
        r.append(self.to.name());
        r
    }
}

/// One download.
#[derive(Debug, Clone, PartialEq)]
pub struct DownloadEntry {
    pub id: DownloadId,
    pub url: String,
    /// The name of the file, without a directory.
    pub file_name: String,
    /// The path of the file.
    pub destination: String,
    pub state: DownloadState,
    /// When the download started, in seconds since the Unix epoch.
    pub started_at: u64,
    /// When it ended.
    pub finished_at: Option<u64>,
    /// Why it failed.
    pub error: Option<String>,
}

impl DownloadEntry {
    /// Whether the entry says when its download ended exactly if it has, and why
    /// it failed exactly if it did.
    pub open spec fn is_consistent(self) -> bool {
        &&& self.finished_at is None <==> self.state is InProgress
        &&& self.error is Some <==> self.state is Failed
    }

    /// The entry once its download has ended in state `to`.
    pub open spec fn ended(self, to: DownloadState, finished_at: u64, error: Option<String>) -> Self {
        DownloadEntry { state: to, finished_at: Some(finished_at), error, ..self }
    }

    fn complete(&mut self, finished_at: u64) -> (r: Result<(), InvalidDownloadTransition>)
        ensures
            match r {
                Ok(_) => old(self).state is InProgress && *final(self) == old(self).ended(
                    DownloadState::Completed,
                    finished_at,
                    old(self).error,
                ),
                Err(e) => moved(old(self).state, DownloadState::Completed) == Err::<
                    DownloadState,
                    InvalidDownloadTransition,
                >(e) && *final(self) == *old(self),
            },
    {
        match self.state.complete() {
            Ok(state) => {
                self.state = state;
                self.finished_at = Some(finished_at);
                Ok(())
            },
            Err(e) => Err(e),
        }
    }

    fn fail(&mut self, reason: String, finished_at: u64) -> (r: Result<
        (),
        InvalidDownloadTransition,
    >)
        ensures
            match r {
                Ok(_) => old(self).state is InProgress && *final(self) == old(self).ended(
                    DownloadState::Failed,
                    finished_at,
                    Some(reason),
                ),
                Err(e) => moved(old(self).state, DownloadState::Failed) == Err::<
                    DownloadState,
                    InvalidDownloadTransition,
                >(e) && *final(self) == *old(self),
            },
    {
        match self.state.fail() {
            Ok(state) => {
                self.state = state;
                self.finished_at = Some(finished_at);
                self.error = Some(reason);
                Ok(())
            },
            Err(e) => Err(e),
        }
    }

    fn cancel(&mut self, finished_at: u64) -> (r: Result<(), InvalidDownloadTransition>)
        ensures
            match r {
                Ok(_) => old(self).state is InProgress && *final(self) == old(self).ended(
                    DownloadState::Cancelled,
                    finished_at,
                    old(self).error,
                ),
                Err(e) => moved(old(self).state, DownloadState::Cancelled) == Err::<
                    DownloadState,
                    InvalidDownloadTransition,
                >(e) && *final(self) == *old(self),
            },
    {
        match self.state.cancel() {
            Ok(state) => {
                self.state = state;
                self.finished_at = Some(finished_at);
                Ok(())
            },
            Err(e) => Err(e),
        }
    }
}

/// The downloads of a session, in the order in which they started.
#[derive(Debug, Clone)]
pub struct DownloadStore {
    entries: Vec<DownloadEntry>,
    next_id: u64,
}

impl View for DownloadStore {
    type V = Seq<DownloadEntry>;

    closed spec fn view(&self) -> Seq<DownloadEntry> {
        self.entries@
    }
}

/// Whether `i` is the index of the first entry with the given id.
pub open spec fn is_index_of(entries: Seq<DownloadEntry>, id: DownloadId, i: int) -> bool {
    &&& 0 <= i < entries.len()
    &&& entries[i].id == id
    &&& forall|j: int| 0 <= j < i ==> (#[trigger] entries[j]).id != id
}

/// Whether an entry has the given id.
pub open spec fn has_id(entries: Seq<DownloadEntry>, id: DownloadId) -> bool {
    exists|i: int| 0 <= i < entries.len() && (#[trigger] entries[i]).id == id
}

/// Whether the store became what it is by ending the download `id` in state
/// `to`.
pub open spec fn ended_in(
    before: Seq<DownloadEntry>,
    after: Seq<DownloadEntry>,
    id: DownloadId,
    to: DownloadState,
    finished_at: u64,
    reason: Option<String>,
) -> bool {
    exists|i: int| #[trigger]
        is_index_of(before, id, i) && before[i].state is InProgress && after == before.update(
            i,
            before[i].ended(
                to,
                finished_at,
                if to is Failed {
                    reason
                } else {
                    before[i].error
                },
            ),
        )
}

/// Whether the download `id` is there and in progress.
pub open spec fn is_in_progress(entries: Seq<DownloadEntry>, id: DownloadId) -> bool {
    exists|i: int| #[trigger] is_index_of(entries, id, i) && entries[i].state is InProgress
}

/// Whether an entry is that of a download of `url` in progress.
pub open spec fn is_candidate(entry: DownloadEntry, url: Seq<char>) -> bool {
    entry.state is InProgress && entry.url@ == url
}

/// The first entry in progress for `url` that goes to `destination`.
pub open spec fn exact_match(
    platform: Platform,
    entries: Seq<DownloadEntry>,
    url: Seq<char>,
    destination: Seq<char>,
    from: int,
) -> Option<DownloadId>
    decreases entries.len() - from,
{
    if from >= entries.len() {
        None
    } else if is_candidate(entries[from], url) && paths::is_same_path_on(
        platform,
        entries[from].destination@,
        destination,
    ) {
        Some(entries[from].id)
    } else {
        exact_match(platform, entries, url, destination, from + 1)
    }
}

/// The first entry in progress for `url`.
pub open spec fn oldest_match(entries: Seq<DownloadEntry>, url: Seq<char>, from: int) -> Option<
    DownloadId,
>
    decreases entries.len() - from,
{
    if from >= entries.len() {
        None
    } else if is_candidate(entries[from], url) {
        Some(entries[from].id)
    } else {
        oldest_match(entries, url, from + 1)
    }
}

/// The download that ended, going by its URL and possibly its destination: the
/// one with that destination, or else the oldest one of that URL.
pub open spec fn completion_of(
    platform: Platform,
    entries: Seq<DownloadEntry>,
    url: Seq<char>,
    destination: Option<Seq<char>>,
) -> Option<DownloadId> {
    match destination {
        Some(d) => match exact_match(platform, entries, url, d, 0) {
            Some(id) => Some(id),
            None => oldest_match(entries, url, 0),
        },
        None => oldest_match(entries, url, 0),
    }
}

impl Default for DownloadStore {
    fn default() -> (r: Self)
        ensures
            r.wf(),
            r@ == Seq::<DownloadEntry>::empty(),
            r.next_number() == 0,
    {
        DownloadStore { entries: Vec::new(), next_id: 0 }
    }
}

impl DownloadStore {
    /// The number of the next id.
    pub closed spec fn next_number(&self) -> u64 {
        self.next_id
    }

    /// No two entries have the same id, none has one that is yet to be handed out,
    /// and each is consistent.
    pub open spec fn wf(&self) -> bool {
        &&& forall|i: int| 0 <= i < self@.len() ==> (#[trigger] self@[i]).is_consistent()
        &&& forall|i: int|
            0 <= i < self@.len() ==> (#[trigger] self@[i]).id.number() < self.next_number()
        &&& forall|i: int, j: int|
            0 <= i < j < self@.len() ==> (#[trigger] self@[i]).id != (#[trigger] self@[j]).id
    }

    /// An empty store.
    pub fn new() -> (r: Self)
        ensures
            r.wf(),
            r@ == Seq::<DownloadEntry>::empty(),
            r.next_number() == 1,
    {
        DownloadStore { entries: Vec::new(), next_id: 1 }
    }

    /// All entries, oldest first.
    pub fn entries(&self) -> (r: &[DownloadEntry])
        ensures
            r@ == self@,
    {
        self.entries.as_slice()
    }

    /// All entries, newest first.
    pub fn entries_newest_first(&self) -> (r: Vec<&DownloadEntry>)
        ensures
            r@.len() == self@.len(),
            forall|i: int| 0 <= i < r@.len() ==> *#[trigger] r@[i] == self@[self@.len() - 1 - i],
    {
        let mut r: Vec<&DownloadEntry> = Vec::new();
        let n: usize = self.entries.len();
        for i in 0..n
            invariant
                n == self@.len(),
                r@.len() == i,
                forall|k: int| 0 <= k < i ==> *#[trigger] r@[k] == self@[n - 1 - k],
        {
            r.push(&self.entries[n - 1 - i]);
        }
        r
    }

    fn index_of(&self, id: DownloadId) -> (r: Option<usize>)
        ensures
            match r {
                Some(i) => is_index_of(self@, id, i as int),
                None => !has_id(self@, id),
            },
    {
        for i in 0..self.entries.len()
            invariant
                forall|j: int| 0 <= j < i ==> (#[trigger] self@[j]).id != id,
        {
            if self.entries[i].id == id {
                return Some(i);
            }
        }
        None
    }

    /// The entry with the given id.
    pub fn get(&self, id: DownloadId) -> (r: Option<&DownloadEntry>)
        ensures
            match r {
                Some(e) => exists|i: int| #[trigger] is_index_of(self@, id, i) && *e == self@[i],
                None => !has_id(self@, id),
            },
    {
        match self.index_of(id) {
            Some(i) => Some(&self.entries[i]),
            None => None,
        }
    }

    /// Adds a download that has just started, and gives its id.
    pub fn start(
        &mut self,
        url: String,
        file_name: String,
        destination: String,
        started_at: u64,
    ) -> (id: DownloadId)
        requires
            old(self).wf(),
            old(self).next_number() < u64::MAX,
        ensures
            final(self).wf(),
            id.number() == old(self).next_number(),
            final(self).next_number() == old(self).next_number() + 1,
            !has_id(old(self)@, id),
            final(self)@ == old(self)@.push(
                (DownloadEntry {
                    id,
                    url,
                    file_name,
                    destination,
                    state: DownloadState::InProgress,
                    started_at,
                    finished_at: None,
                    error: None,
                }),
            ),
    {
        let id = DownloadId(self.next_id);
        self.next_id = self.next_id + 1;
        self.entries.push(
            DownloadEntry {
                id,
                url,
                file_name,
                destination,
                state: DownloadState::InProgress,
                started_at,
                finished_at: None,
                error: None,
            },
        );
        id
    }

    /// Ends a download in progress as completed. Gives `false`, and changes
    /// nothing, for an unknown id and for a download that has ended.
    pub fn complete(&mut self, id: DownloadId, finished_at: u64) -> (r: bool)
        requires
            old(self).wf(),
        ensures
            final(self).wf(),
            final(self).next_number() == old(self).next_number(),
            r == is_in_progress(old(self)@, id),
            r ==> ended_in(
                old(self)@,
                final(self)@,
                id,
                DownloadState::Completed,
                finished_at,
                None,
            ),
            !r ==> final(self)@ == old(self)@,
    {
        match self.index_of(id) {
            Some(i) => {
                let ghost before = self@;
                assert(is_index_of(before, id, i as int));
                let r = self.entries[i].complete(finished_at).is_ok();
                r
            },
            None => false,
        }
    }

    /// Ends a download in progress as failed, for the given reason. Gives
    /// `false`, and changes nothing, for an unknown id and for a download that
    /// has ended.
    pub fn fail(&mut self, id: DownloadId, reason: String, finished_at: u64) -> (r: bool)
        requires
            old(self).wf(),
        ensures
            final(self).wf(),
            final(self).next_number() == old(self).next_number(),
            r == is_in_progress(old(self)@, id),
            r ==> ended_in(
                old(self)@,
                final(self)@,
                id,
                DownloadState::Failed,
                finished_at,
                Some(reason),
            ),
            !r ==> final(self)@ == old(self)@,
    {
        match self.index_of(id) {
            Some(i) => {
                let ghost before = self@;
                assert(is_index_of(before, id, i as int));
                let r = self.entries[i].fail(reason, finished_at).is_ok();
                r
            },
            None => false,
        }
    }

    /// Ends a download in progress as cancelled. Gives `false`, and changes
    /// nothing, for an unknown id and for a download that has ended.
    pub fn cancel(&mut self, id: DownloadId, finished_at: u64) -> (r: bool)
        requires
            old(self).wf(),
        ensures
            final(self).wf(),
            final(self).next_number() == old(self).next_number(),
            r == is_in_progress(old(self)@, id),
            r ==> ended_in(
                old(self)@,
                final(self)@,
                id,
                DownloadState::Cancelled,
                finished_at,
                None,
            ),
            !r ==> final(self)@ == old(self)@,
    {
        match self.index_of(id) {
            Some(i) => {
                let ghost before = self@;
                assert(is_index_of(before, id, i as int));
                let r = self.entries[i].cancel(finished_at).is_ok();
                r
            },
            None => false,
        }
    }

    /// Drops an entry from the list; the file is not touched. Gives whether
    /// there was one with this id.
    pub fn remove(&mut self, id: DownloadId) -> (r: bool)
        requires
            old(self).wf(),
        ensures
            final(self).wf(),
            final(self).next_number() == old(self).next_number(),
            r == has_id(old(self)@, id),
            !has_id(final(self)@, id),
            r ==> exists|i: int| #[trigger]
                is_index_of(old(self)@, id, i) && final(self)@ == old(self)@.remove(i),
            !r ==> final(self)@ == old(self)@,
    {
        match self.index_of(id) {
            Some(i) => {
                let ghost before = self@;
                assert(is_index_of(before, id, i as int));
                self.entries.remove(i);
                true
            },
            None => false,
        }
    }

    /// The download that ended, going by its URL and possibly its destination, a path
    /// on Unix.
    pub fn resolve_completion(&self, url: &str, destination: Option<&str>) -> (r: Option<
        DownloadId,
    >)
        ensures
            r == completion_of(
                Platform::Unix,
                self@,
                url@,
                match destination {
                    Some(d) => Some(d@),
                    None => None,
                },
            ),
    {
        self.resolve_completion_on(Platform::Unix, url, destination)
    }

    /// The download that ended, going by its URL and possibly its destination.
    pub fn resolve_completion_on(
        &self,
        platform: Platform,
        url: &str,
        destination: Option<&str>,
    ) -> (r: Option<DownloadId>)
        ensures
            r == completion_of(
                platform,
                self@,
                url@,
                match destination {
                    Some(d) => Some(d@),
                    None => None,
                },
            ),
    {
        if let Some(d) = destination {
            let mut i: usize = 0;
            while i < self.entries.len()
                invariant
                    i <= self@.len(),
                    destination == Some(d),
                    exact_match(platform, self@, url@, d@, 0) == exact_match(platform, self@, url@, d@, i as int),
                decreases self@.len() - i,
            {
                let e = &self.entries[i];
                if e.state == DownloadState::InProgress && str_eq(&e.url, url) && same_path_on(
                    platform,
                    &e.destination,
                    d,
                ) {
                    return Some(e.id);
                }
                i = i + 1;
            }
        }
        let mut i: usize = 0;
        while i < self.entries.len()
            invariant
                i <= self@.len(),
                destination matches Some(d) ==> exact_match(platform, self@, url@, d@, 0) is None,
                oldest_match(self@, url@, 0) == oldest_match(self@, url@, i as int),
            decreases self@.len() - i,
        {
            let e = &self.entries[i];
            if e.state == DownloadState::InProgress && str_eq(&e.url, url) {
                return Some(e.id);
            }
            i = i + 1;
        }
        None
    }
}

// ---------------------------------------------------------------------------
// Where downloads go

/// The name that a download of a suggested name gets: the sanitized name, made
/// unique with a predicate that says which names are taken.
pub open spec fn is_destination<F: Fn(&str) -> bool>(
    platform: Platform,
    path: Seq<char>,
    dir: Seq<char>,
    raw: Seq<char>,
    taken: F,
) -> bool {
    let name = filenames::sanitized(raw);
    ||| exists|n: int| #[trigger]
        filenames::is_first_free(taken, name, n) && path == paths::joined_on(
            platform,
            dir,
            filenames::attempt(name, n),
        )
    ||| filenames::all_taken(taken, name, filenames::MAX_ATTEMPTS + 1) && exists|number: nat|
        path == paths::joined_on(platform, dir, #[trigger] filenames::numbered(name, number))
}

/// The path in `dir`, on Unix, for a download with a suggested name: the name is
/// sanitized and then made unique; `taken` says which names in `dir` are taken.
pub fn build_destination<F: Fn(&str) -> bool>(dir: &str, raw_filename: &str, taken: F) -> (r: String)
    requires
        forall|s: &str| call_requires(taken, (s,)),
    ensures
        is_destination(Platform::Unix, r@, dir@, raw_filename@, taken),
{
    build_destination_on(Platform::Unix, dir, raw_filename, taken)
}

/// The path in `dir` for a download with a suggested name.
pub fn build_destination_on<F: Fn(&str) -> bool>(
    platform: Platform,
    dir: &str,
    raw_filename: &str,
    taken: F,
) -> (r: String)
    requires
        forall|s: &str| call_requires(taken, (s,)),
    ensures
        is_destination(platform, r@, dir@, raw_filename@, taken),
{
    let sanitized = sanitize_filename(raw_filename);
    let chosen = unique_filename(&sanitized, taken);
    join_on(platform, dir, &chosen)
}

/// The directory for downloads, from two variables of the environment: the one
/// that names it, or else `Downloads` in the home directory.
pub open spec fn unix_download_dir(xdg: Option<Seq<char>>, home: Option<Seq<char>>) -> Option<
    Seq<char>,
> {
    match (xdg, home) {
        (Some(d), _) => Some(d),
        (None, Some(h)) => Some(paths::joined_on(Platform::Unix, h, "Downloads"@)),
        (None, None) => None,
    }
}

/// The directory for downloads, from `XDG_DOWNLOAD_DIR` and `HOME`.
pub fn resolve_unix_download_dir(xdg_download_dir: Option<&str>, home: Option<&str>) -> (r: Option<
    String,
>)
    ensures
        crate::weburl::opt_text(r) == unix_download_dir(
            match xdg_download_dir {
                Some(d) => Some(d@),
                None => None,
            },
            match home {
                Some(h) => Some(h@),
                None => None,
            },
        ),
{
    match xdg_download_dir {
        Some(d) => Some(d.to_owned()),
        None => match home {
            Some(h) => Some(join_on(Platform::Unix, h, "Downloads")),
            None => None,
        },
    }
}

/// The name of the program that opens files and directories with the application
/// that the desktop has for them.
pub open spec fn opener(platform: Platform) -> Seq<char> {
    match platform {
        Platform::Unix => "xdg-open"@,
        Platform::MacOs => "open"@,
        Platform::Windows => "explorer"@,
    }
}

/// The program that opens a file or a directory with the application that the
/// desktop has for it, and its arguments. The path is one argument of its own:
/// no shell ever reads it.
pub fn open_path_command_on(platform: Platform, path: &str) -> (r: (&'static str, Vec<String>))
    ensures
        r.0@ == opener(platform),
        r.1@.len() == 1,
        r.1@[0]@ == path@,
{
    let program: &'static str = match platform {
        Platform::Unix => "xdg-open",
        Platform::MacOs => "open",
        Platform::Windows => "explorer",
    };
    let mut args: Vec<String> = Vec::new();
    args.push(path.to_owned());
    (program, args)
}

/// The same on a Unix desktop.
pub fn open_path_command(path: &str) -> (r: (&'static str, Vec<String>))
    ensures
        r.0@ == opener(Platform::Unix),
        r.1@.len() == 1,
        r.1@[0]@ == path@,
{
    open_path_command_on(Platform::Unix, path)
}

// ---------------------------------------------------------------------------
// Laws

/// A download that has ended never changes its state again.
pub proof fn an_ended_download_stays_ended(state: DownloadState, to: DownloadState)
    requires
        !(state is InProgress),
    ensures
        moved(state, to) == Err::<DownloadState, InvalidDownloadTransition>(
            InvalidDownloadTransition { from: state, to },
        ),
{
}

/// Ending a download leaves every other entry, and the order, as it was.
pub proof fn ending_a_download_touches_no_other(
    before: Seq<DownloadEntry>,
    after: Seq<DownloadEntry>,
    id: DownloadId,
    to: DownloadState,
    finished_at: u64,
    reason: Option<String>,
)
    requires
        ended_in(before, after, id, to, finished_at, reason),
    ensures
        after.len() == before.len(),
        forall|k: int|
            0 <= k < after.len() ==> (#[trigger] after[k]).id == before[k].id && (after[k].id != id
                ==> after[k] == before[k]),
{
}

/// A download ends once: one that has ended is not in progress any more, so that
/// it can neither end again nor be what a completion is resolved to.
pub proof fn a_download_ends_once(
    before: Seq<DownloadEntry>,
    after: Seq<DownloadEntry>,
    id: DownloadId,
    to: DownloadState,
    finished_at: u64,
    reason: Option<String>,
)
    requires
        ended_in(before, after, id, to, finished_at, reason),
        !(to is InProgress),
    ensures
        !is_in_progress(after, id),
{
    let i = choose|i: int| #[trigger]
        is_index_of(before, id, i) && before[i].state is InProgress && after == before.update(
            i,
            before[i].ended(
                to,
                finished_at,
                if to is Failed {
                    reason
                } else {
                    before[i].error
                },
            ),
        );
    assert forall|k: int| #[trigger] is_index_of(after, id, k) implies !(
    after[k].state is InProgress) by {
        if k < i {
            assert(after[k] == before[k]);
        } else if k > i {
            assert(after[i].id == id);
        }
    }
}

/// What a completion is resolved to is a download in progress, of the URL.
pub proof fn a_completion_is_in_progress(
    platform: Platform,
    entries: Seq<DownloadEntry>,
    url: Seq<char>,
    destination: Option<Seq<char>>,
)
    ensures
        completion_of(platform, entries, url, destination) matches Some(id) ==> exists|i: int|
            0 <= i < entries.len() && is_candidate(#[trigger] entries[i], url) && entries[i].id
                == id,
{
    if let Some(d) = destination {
        lemma_exact_match(platform, entries, url, d, 0);
    }
    lemma_oldest_match(entries, url, 0);
}

/// A completion is resolved whenever a download of the URL is in progress.
pub proof fn a_completion_is_resolved_if_it_can_be(
    platform: Platform,
    entries: Seq<DownloadEntry>,
    url: Seq<char>,
    destination: Option<Seq<char>>,
    i: int,
)
    requires
        0 <= i < entries.len(),
        is_candidate(entries[i], url),
    ensures
        completion_of(platform, entries, url, destination) is Some,
{
    lemma_oldest_match(entries, url, 0);
}

/// A download of the URL in progress that goes to the destination is preferred to
/// every other.
pub proof fn a_destination_decides_a_completion(
    platform: Platform,
    entries: Seq<DownloadEntry>,
    url: Seq<char>,
    destination: Seq<char>,
    i: int,
)
    requires
        0 <= i < entries.len(),
        is_candidate(entries[i], url),
        paths::is_same_path_on(platform, entries[i].destination@, destination),
    ensures
        completion_of(platform, entries, url, Some(destination)) matches Some(id) && exists|j: int|
            0 <= j <= i && is_candidate(#[trigger] entries[j], url) && paths::is_same_path_on(
                platform,
                entries[j].destination@,
                destination,
            ) && entries[j].id == id,
{
    lemma_exact_match_is_found(platform, entries, url, destination, 0, i);
}

proof fn lemma_exact_match_is_found(
    platform: Platform,
    entries: Seq<DownloadEntry>,
    url: Seq<char>,
    destination: Seq<char>,
    from: int,
    i: int,
)
    requires
        0 <= from <= i < entries.len(),
        is_candidate(entries[i], url),
        paths::is_same_path_on(platform, entries[i].destination@, destination),
    ensures
        exact_match(platform, entries, url, destination, from) matches Some(id) && exists|j: int|
            from <= j <= i && is_candidate(#[trigger] entries[j], url) && paths::is_same_path_on(
                platform,
                entries[j].destination@,
                destination,
            ) && entries[j].id == id,
    decreases i - from,
{
    if is_candidate(entries[from], url) && paths::is_same_path_on(
        platform,
        entries[from].destination@,
        destination,
    ) {
        assert(entries[from].id == exact_match(platform, entries, url, destination, from)->0);
    } else {
        lemma_exact_match_is_found(platform, entries, url, destination, from + 1, i);
    }
}

proof fn lemma_exact_match(
    platform: Platform,
    entries: Seq<DownloadEntry>,
    url: Seq<char>,
    destination: Seq<char>,
    from: int,
)
    requires
        0 <= from,
    ensures
        exact_match(platform, entries, url, destination, from) matches Some(id) ==> exists|i: int|
            0 <= i < entries.len() && is_candidate(#[trigger] entries[i], url) && entries[i].id
                == id,
    decreases entries.len() - from,
{
    if from < entries.len() {
        lemma_exact_match(platform, entries, url, destination, from + 1);
    }
}

proof fn lemma_oldest_match(entries: Seq<DownloadEntry>, url: Seq<char>, from: int)
    requires
        0 <= from,
    ensures
        match oldest_match(entries, url, from) {
            Some(id) => exists|i: int|
                0 <= i < entries.len() && is_candidate(#[trigger] entries[i], url) && entries[i].id
                    == id,
            None => forall|i: int|
                from <= i < entries.len() ==> !is_candidate(#[trigger] entries[i], url),
        },
    decreases entries.len() - from,
{
    if from < entries.len() {
        lemma_oldest_match(entries, url, from + 1);
    }
}

/// What the end of a download leaves: its state, when it ended and, if it failed, why;
/// nothing else of the entry changes, and nothing of any other.
pub proof fn an_end_says_how_and_when(
    before: Seq<DownloadEntry>,
    after: Seq<DownloadEntry>,
    id: DownloadId,
    to: DownloadState,
    finished_at: u64,
    reason: Option<String>,
    i: int,
)
    requires
        ended_in(before, after, id, to, finished_at, reason),
        forall|j: int, k: int|
            0 <= j < k < before.len() ==> (#[trigger] before[j]).id != (#[trigger] before[k]).id,
        0 <= i < before.len(),
    ensures
        after.len() == before.len(),
        before[i].id != id ==> after[i] == before[i],
        before[i].id == id ==> {
            &&& before[i].state is InProgress
            &&& after[i].state == to
            &&& after[i].finished_at == Some(finished_at)
            &&& to is Failed ==> after[i].error == reason
            &&& !(to is Failed) ==> after[i].error == before[i].error
            &&& after[i].id == id
            &&& after[i].url == before[i].url
            &&& after[i].file_name == before[i].file_name
            &&& after[i].destination == before[i].destination
            &&& after[i].started_at == before[i].started_at
        },
{
    let k = choose|k: int| #[trigger]
        is_index_of(before, id, k) && before[k].state is InProgress && after == before.update(
            k,
            before[k].ended(
                to,
                finished_at,
                if to is Failed {
                    reason
                } else {
                    before[k].error
                },
            ),
        );
    if before[i].id == id && i != k {
        if i < k {
            assert(before[i].id != before[k].id);
        } else {
            assert(before[k].id != before[i].id);
        }
    }
}

/// A download in progress can end in any way; one that has ended cannot end again, and
/// the refusal says from what to what.
pub proof fn only_a_running_download_ends(from: DownloadState, to: DownloadState)
    ensures
        from is InProgress ==> moved(from, to) == Ok::<DownloadState, InvalidDownloadTransition>(to),
        !(from is InProgress) ==> moved(from, to) == Err::<DownloadState, InvalidDownloadTransition>(
            InvalidDownloadTransition { from, to },
        ),
{
}

/// Without a destination, or with one that no download in progress of the URL goes to,
/// the one that was started first is taken.
pub proof fn the_oldest_is_taken_otherwise(
    platform: Platform,
    entries: Seq<DownloadEntry>,
    url: Seq<char>,
    destination: Option<Seq<char>>,
    i: int,
)
    requires
        0 <= i < entries.len(),
        entries[i].state is InProgress,
        entries[i].url@ == url,
        forall|j: int|
            0 <= j < i ==> !((#[trigger] entries[j]).state is InProgress && entries[j].url@ == url),
        destination matches Some(d) ==> forall|j: int|
            0 <= j < entries.len() && (#[trigger] entries[j]).state is InProgress
                && entries[j].url@ == url ==> !paths::is_same_path_on(
                platform,
                entries[j].destination@,
                d,
            ),
    ensures
        completion_of(platform, entries, url, destination) == Some(entries[i].id),
{
    lemma_first_candidate(entries, url, 0, i);
    if let Some(d) = destination {
        lemma_no_exact_match(platform, entries, url, d, 0);
    }
}

proof fn lemma_first_candidate(entries: Seq<DownloadEntry>, url: Seq<char>, from: int, i: int)
    requires
        0 <= from <= i < entries.len(),
        is_candidate(entries[i], url),
        forall|j: int| from <= j < i ==> !is_candidate(#[trigger] entries[j], url),
    ensures
        oldest_match(entries, url, from) == Some(entries[i].id),
    decreases i - from,
{
    if from < i {
        assert(!is_candidate(entries[from], url));
        lemma_first_candidate(entries, url, from + 1, i);
    }
}

proof fn lemma_no_exact_match(
    platform: Platform,
    entries: Seq<DownloadEntry>,
    url: Seq<char>,
    destination: Seq<char>,
    from: int,
)
    requires
        0 <= from,
        forall|j: int|
            from <= j < entries.len() && is_candidate(#[trigger] entries[j], url)
                ==> !paths::is_same_path_on(platform, entries[j].destination@, destination),
    ensures
        exact_match(platform, entries, url, destination, from) is None,
    decreases entries.len() - from,
{
    if from < entries.len() {
        assert(is_candidate(entries[from], url) ==> !paths::is_same_path_on(
            platform,
            entries[from].destination@,
            destination,
        ));
        lemma_no_exact_match(platform, entries, url, destination, from + 1);
    }
}

/// The variable that names the directory for downloads decides where it is set; else
/// it is `Downloads` in the home directory.
pub proof fn a_named_directory_comes_first(xdg: Seq<char>, home: Seq<char>)
    requires
        home.len() > 0,
        home.last() != '/',
    ensures
        unix_download_dir(Some(xdg), Some(home)) == Some(xdg),
        unix_download_dir(Some(xdg), None) == Some(xdg),
        unix_download_dir(None, Some(home)) == Some(home + "/Downloads"@),
        unix_download_dir(None, None) is None,
{
    reveal_strlit("Downloads");
    reveal_strlit("/Downloads");
    assert(home + seq!['/'] + "Downloads"@ =~= home + "/Downloads"@);
}

/// No two states have the same name.
pub proof fn a_name_tells_the_state(a: DownloadState, b: DownloadState)
    ensures
        a.name_text() == b.name_text() ==> a == b,
        a is InProgress <==> a.name_text() == "InProgress"@,
        a is Completed <==> a.name_text() == "Completed"@,
        a is Failed <==> a.name_text() == "Failed"@,
        a is Cancelled <==> a.name_text() == "Cancelled"@,
{
    reveal_strlit("InProgress");
    reveal_strlit("Completed");
    reveal_strlit("Failed");
    reveal_strlit("Cancelled");
    assert("InProgress"@.len() == 10 && "Completed"@.len() == 9 && "Failed"@.len() == 6
        && "Cancelled"@.len() == 9);
    assert("Completed"@[1] == 'o' && "Cancelled"@[1] == 'a');
}

/// An entry that says what it should still does so once its download has ended: when,
/// and why if it failed.
pub proof fn an_end_leaves_an_entry_consistent(
    entry: DownloadEntry,
    to: DownloadState,
    finished_at: u64,
    reason: String,
)
    requires
        entry.is_consistent(),
        entry.state is InProgress,
        !(to is InProgress),
    ensures
        entry.finished_at is None,
        entry.error is None,
        to is Failed ==> entry.ended(to, finished_at, Some(reason)).is_consistent(),
        !(to is Failed) ==> entry.ended(to, finished_at, entry.error).is_consistent(),
        to is Failed ==> !entry.ended(to, finished_at, None).is_consistent(),
{
}

} // verus!
