//! Where the browser keeps its files, and what it takes them for when it reads
//! them.

use vstd::prelude::*;

use crate::bookmarks::{self, BookmarkEntry, BookmarkFolder, BookmarkStore};
use crate::history::{self, HistoryStore};
use crate::input_history::{self, InputHistoryStore};
use crate::platform::Platform;

verus! {

pub const HISTORY_FILE: &'static str = "history.json";

pub const BOOKMARKS_FILE: &'static str = "bookmarks.json";

pub const INPUT_HISTORY_FILE: &'static str = "input_history.json";

/// The variable whose value a directory is made from.
#[derive(Debug, Clone, Copy, PartialEq, Eq, Structural)]
pub enum DataDirBase {
    /// `VELOX_DATA_DIR`.
    DataDir,
    /// `XDG_DATA_HOME`.
    XdgDataHome,
    /// `HOME`.
    Home,
    /// `APPDATA`.
    AppData,
}

/// Which of these variables are set.
#[derive(Debug, Clone, Copy, PartialEq, Eq, Structural)]
pub struct DataDirVariables {
    pub data_dir: bool,
    pub xdg_data_home: bool,
    pub home: bool,
    pub app_data: bool,
}

impl DataDirVariables {
    /// Whether a variable is set.
    pub open spec fn has(self, base: DataDirBase) -> bool {
        match base {
            DataDirBase::DataDir => self.data_dir,
            DataDirBase::XdgDataHome => self.xdg_data_home,
            DataDirBase::Home => self.home,
            DataDirBase::AppData => self.app_data,
        }
    }
}

/// The variables that decide on a platform, the first that is set before all others.
pub open spec fn data_dir_bases(platform: Platform) -> Seq<DataDirBase> {
    match platform {
        Platform::Unix => seq![DataDirBase::DataDir, DataDirBase::XdgDataHome, DataDirBase::Home],
        Platform::MacOs => seq![DataDirBase::DataDir, DataDirBase::Home],
        Platform::Windows => seq![DataDirBase::DataDir, DataDirBase::AppData],
    }
}

/// Where below a base the files are; `None` for the base itself.
pub open spec fn data_dir_below(platform: Platform, base: DataDirBase) -> Option<&'static str> {
    match base {
        DataDirBase::DataDir => None,
        DataDirBase::XdgDataHome => Some("velox"),
        DataDirBase::Home => Some(
            if platform is MacOs {
                "Library/Application Support/VeloX"
            } else {
                ".local/share/velox"
            },
        ),
        DataDirBase::AppData => Some("VeloX"),
    }
}

/// Where the browser keeps its files, by which variables are set: in
/// `VELOX_DATA_DIR` itself, or else where the platform keeps the data of
/// applications. `None` if nothing says where that is: nothing is kept.
pub fn choose_data_dir(platform: Platform, set: DataDirVariables) -> (r: Option<
    (DataDirBase, Option<&'static str>),
>)
    ensures
        r is None <==> forall|i: int|
            0 <= i < data_dir_bases(platform).len() ==> !set.has(
                #[trigger] data_dir_bases(platform)[i],
            ),
        r matches Some((base, below)) ==> {
            &&& below == data_dir_below(platform, base)
            &&& set.has(base)
            &&& exists|i: int|
                0 <= i < data_dir_bases(platform).len() && #[trigger] data_dir_bases(platform)[i]
                    == base && forall|j: int|
                    0 <= j < i ==> !set.has(#[trigger] data_dir_bases(platform)[j])
        },
{
    let ghost bases = data_dir_bases(platform);
    assert(bases[0] == DataDirBase::DataDir);
    if set.data_dir {
        return Some((DataDirBase::DataDir, None));
    }
    match platform {
        Platform::Unix => {
            assert(bases[1] == DataDirBase::XdgDataHome);
            assert(bases[2] == DataDirBase::Home);
            if set.xdg_data_home {
                Some((DataDirBase::XdgDataHome, Some("velox")))
            } else if set.home {
                Some((DataDirBase::Home, Some(".local/share/velox")))
            } else {
                None
            }
        },
        Platform::MacOs => {
            assert(bases[1] == DataDirBase::Home);
            if set.home {
                Some((DataDirBase::Home, Some("Library/Application Support/VeloX")))
            } else {
                None
            }
        },
        Platform::Windows => {
            assert(bases[1] == DataDirBase::AppData);
            if set.app_data {
                Some((DataDirBase::AppData, Some("VeloX")))
            } else {
                None
            }
        },
    }
}

/// The history that a file holds; an empty one where it could not be read.
pub fn recover_history(read: Option<HistoryStore>) -> (r: HistoryStore)
    ensures
        match read {
            Some(store) => r == store,
            None => r@ == (history::HistoryModel { entries: Seq::empty(), next_id: 1 }),
        },
{
    match read {
        Some(store) => store,
        None => HistoryStore::new(),
    }
}

/// The bookmarks that a file holds; none where it could not be read. Those of a
/// folder that does not exist are in the root.
pub fn recover_bookmarks(read: Option<BookmarkStore>) -> (r: BookmarkStore)
    ensures
        match read {
            Some(store) => r@ == (bookmarks::StoreModel {
                entries: store@.entries.map_values(
                    |e: BookmarkEntry| bookmarks::without_dangling(e, store@.folders),
                ),
                ..store@
            }),
            None => r@ == (bookmarks::StoreModel {
                entries: Seq::empty(),
                next_id: 1,
                folders: Seq::empty(),
                next_folder_id: 1,
            }),
        },
        forall|i: int|
            0 <= i < r@.entries.len() ==> ((#[trigger] r@.entries[i]).folder_id matches Some(f)
                ==> bookmarks::has_folder(r@.folders, f)),
{
    match read {
        Some(store) => {
            let mut store = store;
            store.repair_dangling_folder_ids();
            store
        },
        None => BookmarkStore::new(),
    }
}

/// The queries that a file holds; none where it could not be read.
pub fn recover_input_history(read: Option<InputHistoryStore>) -> (r: InputHistoryStore)
    ensures
        match read {
            Some(store) => r == store,
            None => r@ == Seq::<input_history::InputModel>::empty(),
        },
{
    match read {
        Some(store) => store,
        None => InputHistoryStore::new(),
    }
}

// ---------------------------------------------------------------------------
// Laws

/// Repairing bookmarks twice is repairing them once.
pub proof fn repairing_twice_is_repairing_once(
    entries: Seq<BookmarkEntry>,
    folders: Seq<BookmarkFolder>,
)
    ensures
        ({
            let repair = |e: BookmarkEntry| bookmarks::without_dangling(e, folders);
            entries.map_values(repair).map_values(repair) == entries.map_values(repair)
        }),
{
    let repair = |e: BookmarkEntry| bookmarks::without_dangling(e, folders);
    assert(entries.map_values(repair).map_values(repair) =~= entries.map_values(repair));
}

/// On every platform the browser's own variable comes before all others, and only
/// those of the platform itself follow it.
pub proof fn the_own_variable_comes_first(platform: Platform, i: int)
    ensures
        data_dir_bases(platform).len() > 1,
        data_dir_bases(platform)[0] is DataDir,
        0 < i < data_dir_bases(platform).len() ==> match data_dir_bases(platform)[i] {
            DataDirBase::DataDir => false,
            DataDirBase::XdgDataHome => platform is Unix && i == 1,
            DataDirBase::Home => !(platform is Windows),
            DataDirBase::AppData => platform is Windows,
        },
        platform is Unix ==> data_dir_bases(platform).contains(DataDirBase::XdgDataHome)
            && data_dir_bases(platform).contains(DataDirBase::Home),
        data_dir_below(platform, DataDirBase::DataDir) is None,
        forall|base: DataDirBase| !(base is DataDir) ==> #[trigger] data_dir_below(platform, base)
            is Some,
{
    let bases = data_dir_bases(platform);
    if platform is Unix {
        assert(bases[1] == DataDirBase::XdgDataHome && bases[2] == DataDirBase::Home);
    }
}

/// Repairing leaves an entry of the root, or of a folder that exists, as it is, and
/// moves any other to the root; nothing else of it changes.
pub proof fn repairing_moves_what_dangles(entry: BookmarkEntry, folders: Seq<BookmarkFolder>, i: int)
    ensures
        entry.folder_id is None ==> bookmarks::without_dangling(entry, folders) == entry,
        0 <= i < folders.len() && entry.folder_id == Some(folders[i].id)
            ==> bookmarks::without_dangling(entry, folders) == entry,
        (forall|j: int| 0 <= j < folders.len() ==> entry.folder_id != Some((#[trigger] folders[j]).id))
            ==> bookmarks::without_dangling(entry, folders).folder_id is None,
        bookmarks::without_dangling(entry, folders).id == entry.id,
        bookmarks::without_dangling(entry, folders).url == entry.url,
        bookmarks::without_dangling(entry, folders).title == entry.title,
        bookmarks::without_dangling(entry, folders).favicon == entry.favicon,
        bookmarks::without_dangling(entry, folders).created_at == entry.created_at,
{
}

} // verus!
