//! Where files are kept, and what they are taken for.

use velox_browser::bookmarks::{BookmarkEntry, BookmarkStore};
use velox_browser::history::HistoryStore;
use velox_browser::input_history::InputHistoryStore;
use velox_browser::persistence::{
    choose_data_dir, recover_bookmarks, recover_history, recover_input_history, DataDirBase,
    DataDirVariables,
};
use velox_browser::platform::Platform;

fn set(data_dir: bool, xdg_data_home: bool, home: bool, app_data: bool) -> DataDirVariables {
    DataDirVariables { data_dir, xdg_data_home, home, app_data }
}

#[test]
fn the_first_variable_that_is_set_decides() {
    let unix = |set| choose_data_dir(Platform::Unix, set);
    assert_eq!(unix(set(true, true, true, true)), Some((DataDirBase::DataDir, None)));
    assert_eq!(
        unix(set(false, true, true, true)),
        Some((DataDirBase::XdgDataHome, Some("velox")))
    );
    assert_eq!(
        unix(set(false, false, true, true)),
        Some((DataDirBase::Home, Some(".local/share/velox")))
    );
    assert_eq!(unix(set(false, false, false, true)), None);
}

#[test]
fn each_platform_has_its_own_place_for_data() {
    let all = set(false, true, true, true);
    assert_eq!(
        choose_data_dir(Platform::MacOs, all),
        Some((DataDirBase::Home, Some("Library/Application Support/VeloX")))
    );
    assert_eq!(
        choose_data_dir(Platform::Windows, all),
        Some((DataDirBase::AppData, Some("VeloX")))
    );
    assert_eq!(choose_data_dir(Platform::MacOs, set(false, true, false, true)), None);
    assert_eq!(choose_data_dir(Platform::Windows, set(false, true, true, false)), None);
    assert_eq!(
        choose_data_dir(Platform::Windows, set(true, false, false, false)),
        Some((DataDirBase::DataDir, None))
    );
}

#[test]
fn what_cannot_be_read_is_empty() {
    assert_eq!(recover_history(None), HistoryStore::new());
    assert_eq!(recover_bookmarks(None), BookmarkStore::new());
    assert_eq!(recover_input_history(None), InputHistoryStore::new());
}

#[test]
fn what_was_read_is_kept() {
    let mut history = HistoryStore::new();
    history.record_visit("https://example.com/", None, 1, 0);
    assert_eq!(recover_history(Some(history.clone())), history);
    let mut queries = InputHistoryStore::new();
    queries.record("rust", 1, 0);
    assert_eq!(recover_input_history(Some(queries.clone())), queries);
    let mut bookmarks = BookmarkStore::new();
    let folder = bookmarks.create_folder("F".to_owned(), 1);
    let id = bookmarks.add("https://example.com/", None, 1);
    bookmarks.edit(id, None, "https://example.com/".to_owned(), Some(folder)).unwrap();
    assert_eq!(recover_bookmarks(Some(bookmarks.clone())), bookmarks);
}

#[test]
fn bookmarks_of_missing_folders_are_repaired() {
    let entry = BookmarkEntry {
        id: 1,
        url: "https://example.com/".to_owned(),
        title: None,
        created_at: 100,
        folder_id: Some(999),
        favicon: None,
    };
    let read = BookmarkStore::from_parts(vec![entry], 2, Vec::new(), 1);
    let store = recover_bookmarks(Some(read));
    assert_eq!(store.entries()[0].folder_id, None);
    assert_eq!(recover_bookmarks(Some(store.clone())), store);
}
