//! Bookmarks and their folders.

use velox_browser::bookmarks::{BookmarkEditError, BookmarkEntry, BookmarkStore};

#[test]
fn adds_a_bookmark() {
    let mut store = BookmarkStore::new();
    let id = store.add("https://example.com/", Some("Example".to_owned()), 100);
    assert_eq!(store.entries().len(), 1);
    assert_eq!(store.entries()[0].id, id);
    assert_eq!(store.entries()[0].url, "https://example.com/");
    assert_eq!(store.entries()[0].title.as_deref(), Some("Example"));
    assert_eq!(store.entries()[0].folder_id, None);
    assert_eq!(store.entries()[0].favicon, None);
    assert!(store.is_bookmarked("https://example.com/"));
    assert!(!store.is_bookmarked("https://other.example/"));
}

#[test]
fn adding_an_existing_url_updates_title_without_duplicating() {
    let mut store = BookmarkStore::new();
    let first = store.add("https://example.com/", None, 1);
    let second = store.add("https://example.com/", Some("Example".to_owned()), 2);
    assert_eq!(first, second);
    assert_eq!(store.entries().len(), 1);
    assert_eq!(store.entries()[0].title.as_deref(), Some("Example"));
    assert_eq!(store.entries()[0].created_at, 1);
}

#[test]
fn adding_an_existing_url_with_no_title_keeps_previous_title() {
    let mut store = BookmarkStore::new();
    store.add("https://example.com/", Some("Example".to_owned()), 1);
    store.add("https://example.com/", None, 2);
    assert_eq!(store.entries()[0].title.as_deref(), Some("Example"));
}

#[test]
fn removes_by_id() {
    let mut store = BookmarkStore::new();
    let id = store.add("https://example.com/", None, 1);
    assert!(store.remove(id));
    assert!(store.entries().is_empty());
    assert!(!store.remove(id));
}

#[test]
fn removes_by_url() {
    let mut store = BookmarkStore::new();
    store.add("https://example.com/", None, 1);
    assert!(store.remove_by_url("https://example.com/"));
    assert!(!store.is_bookmarked("https://example.com/"));
    assert!(!store.remove_by_url("https://example.com/"));
}

#[test]
fn toggle_adds_then_removes() {
    let mut store = BookmarkStore::new();
    assert!(store.toggle("https://example.com/", Some("Example".to_owned()), 1));
    assert!(store.is_bookmarked("https://example.com/"));
    assert!(!store.toggle("https://example.com/", None, 2));
    assert!(!store.is_bookmarked("https://example.com/"));
}

#[test]
fn newest_first_reverses_creation_order() {
    let mut store = BookmarkStore::new();
    store.add("https://a.example/", None, 1);
    store.add("https://b.example/", None, 2);
    let urls: Vec<&str> = store
        .entries_newest_first()
        .iter()
        .map(|e| e.url.as_str())
        .collect();
    assert_eq!(urls, ["https://b.example/", "https://a.example/"]);
}

#[test]
fn newest_first_goes_by_creation_whatever_the_order() {
    let mut store = BookmarkStore::new();
    store.add("https://a.example/", None, 1);
    let b = store.add("https://b.example/", None, 2);
    store.add("https://c.example/", None, 3);
    assert!(store.move_up(b));
    let urls: Vec<&str> = store
        .entries_newest_first()
        .iter()
        .map(|e| e.url.as_str())
        .collect();
    assert_eq!(urls, ["https://c.example/", "https://b.example/", "https://a.example/"]);
}

#[test]
fn toggling_a_saved_page_twice_saves_it_again() {
    let mut store = BookmarkStore::new();
    store.add("https://a.example/", None, 1);
    store.add("https://b.example/", None, 2);
    assert!(!store.toggle("https://a.example/", None, 3));
    assert!(store.is_bookmarked("https://b.example/"));
    assert!(store.toggle("https://a.example/", None, 4));
    assert!(store.is_bookmarked("https://a.example/"));
    assert!(store.is_bookmarked("https://b.example/"));
}

#[test]
fn ids_stay_unique_after_removal() {
    let mut store = BookmarkStore::new();
    let first = store.add("https://a.example/", None, 1);
    store.remove(first);
    let second = store.add("https://a.example/", None, 2);
    assert_ne!(first, second);
}

#[test]
fn creates_and_lists_folders() {
    let mut store = BookmarkStore::new();
    let id = store.create_folder("仕事".to_owned(), 1);
    assert_eq!(store.folders().len(), 1);
    assert_eq!(store.folders()[0].id, id);
    assert_eq!(store.folders()[0].name, "仕事");
}

#[test]
fn folder_ids_are_unique_and_independent_from_bookmark_ids() {
    let mut store = BookmarkStore::new();
    let bookmark_id = store.add("https://example.com/", None, 1);
    let folder_id = store.create_folder("仕事".to_owned(), 1);
    assert_eq!(bookmark_id, 1);
    assert_eq!(folder_id, 1);
}

#[test]
fn renames_a_folder() {
    let mut store = BookmarkStore::new();
    let id = store.create_folder("仕事".to_owned(), 1);
    assert!(store.rename_folder(id, "プライベート".to_owned()));
    assert_eq!(store.folders()[0].name, "プライベート");
    assert!(!store.rename_folder(999, "no such folder".to_owned()));
}

#[test]
fn removing_a_folder_reparents_its_entries_to_root() {
    let mut store = BookmarkStore::new();
    let folder = store.create_folder("仕事".to_owned(), 1);
    let entry = store.add("https://example.com/", None, 1);
    store
        .edit(entry, None, "https://example.com/".to_owned(), Some(folder))
        .unwrap();
    assert_eq!(store.entries()[0].folder_id, Some(folder));

    assert!(store.remove_folder(folder));
    assert!(store.folders().is_empty());
    assert_eq!(store.entries()[0].folder_id, None);
}

#[test]
fn removing_an_unknown_folder_is_a_noop() {
    let mut store = BookmarkStore::new();
    assert!(!store.remove_folder(999));
}

#[test]
fn entries_in_filters_by_folder_preserving_order() {
    let mut store = BookmarkStore::new();
    let folder = store.create_folder("仕事".to_owned(), 1);
    let a = store.add("https://a.example/", None, 1);
    let b = store.add("https://b.example/", None, 2);
    let c = store.add("https://c.example/", None, 3);
    store
        .edit(b, None, "https://b.example/".to_owned(), Some(folder))
        .unwrap();

    let root: Vec<u64> = store.entries_in(None).iter().map(|e| e.id).collect();
    assert_eq!(root, [a, c]);
    let in_folder: Vec<u64> = store.entries_in(Some(folder)).iter().map(|e| e.id).collect();
    assert_eq!(in_folder, [b]);
}

#[test]
fn edit_updates_title_url_and_folder() {
    let mut store = BookmarkStore::new();
    let folder = store.create_folder("仕事".to_owned(), 1);
    let id = store.add("https://example.com/", Some("Old".to_owned()), 1);

    store
        .edit(
            id,
            Some("New Title".to_owned()),
            "https://example.org/".to_owned(),
            Some(folder),
        )
        .unwrap();

    let entry = &store.entries()[0];
    assert_eq!(entry.title.as_deref(), Some("New Title"));
    assert_eq!(entry.url, "https://example.org/");
    assert_eq!(entry.folder_id, Some(folder));
}

#[test]
fn edit_can_clear_the_title() {
    let mut store = BookmarkStore::new();
    let id = store.add("https://example.com/", Some("Old".to_owned()), 1);
    store
        .edit(id, None, "https://example.com/".to_owned(), None)
        .unwrap();
    assert_eq!(store.entries()[0].title, None);
}

#[test]
fn edit_of_unknown_id_is_rejected() {
    let mut store = BookmarkStore::new();
    let result = store.edit(999, None, "https://example.com/".to_owned(), None);
    assert_eq!(result, Err(BookmarkEditError::NotFound));
}

#[test]
fn edit_to_a_url_already_used_by_another_bookmark_is_rejected() {
    let mut store = BookmarkStore::new();
    store.add("https://a.example/", None, 1);
    let b = store.add("https://b.example/", None, 2);

    let result = store.edit(b, None, "https://a.example/".to_owned(), None);
    assert_eq!(result, Err(BookmarkEditError::DuplicateUrl));
    assert_eq!(store.entries()[1].url, "https://b.example/");
}

#[test]
fn edit_keeping_the_same_url_on_the_same_entry_is_allowed() {
    let mut store = BookmarkStore::new();
    let id = store.add("https://example.com/", None, 1);
    let result = store.edit(
        id,
        Some("Renamed".to_owned()),
        "https://example.com/".to_owned(),
        None,
    );
    assert!(result.is_ok());
}

#[test]
fn edit_with_an_unknown_folder_id_falls_back_to_root() {
    let mut store = BookmarkStore::new();
    let id = store.add("https://example.com/", None, 1);
    store
        .edit(id, None, "https://example.com/".to_owned(), Some(999))
        .unwrap();
    assert_eq!(store.entries()[0].folder_id, None);
}

#[test]
fn move_up_and_down_swap_within_the_same_scope() {
    let mut store = BookmarkStore::new();
    let a = store.add("https://a.example/", None, 1);
    let b = store.add("https://b.example/", None, 2);
    let c = store.add("https://c.example/", None, 3);

    assert!(store.move_up(c));
    assert_eq!(
        store.entries().iter().map(|e| e.id).collect::<Vec<_>>(),
        [a, c, b]
    );
    assert!(store.move_down(a));
    assert_eq!(
        store.entries().iter().map(|e| e.id).collect::<Vec<_>>(),
        [c, a, b]
    );
}

#[test]
fn move_up_at_the_top_of_its_scope_is_a_noop() {
    let mut store = BookmarkStore::new();
    let a = store.add("https://a.example/", None, 1);
    store.add("https://b.example/", None, 2);
    assert!(!store.move_up(a));
}

#[test]
fn move_down_at_the_bottom_of_its_scope_is_a_noop() {
    let mut store = BookmarkStore::new();
    store.add("https://a.example/", None, 1);
    let b = store.add("https://b.example/", None, 2);
    assert!(!store.move_down(b));
}

#[test]
fn move_of_unknown_id_is_a_noop() {
    let mut store = BookmarkStore::new();
    store.add("https://a.example/", None, 1);
    assert!(!store.move_up(999));
    assert!(!store.move_down(999));
}

#[test]
fn moving_ignores_entries_in_a_different_folder() {
    let mut store = BookmarkStore::new();
    let folder = store.create_folder("仕事".to_owned(), 1);
    let a = store.add("https://a.example/", None, 1);
    let b = store.add("https://b.example/", None, 2);
    store
        .edit(b, None, "https://b.example/".to_owned(), Some(folder))
        .unwrap();
    assert!(!store.move_down(a));
}

#[test]
fn updates_favicon_by_url() {
    let mut store = BookmarkStore::new();
    store.add("https://example.com/", None, 1);
    assert!(store.update_favicon_by_url(
        "https://example.com/",
        "https://example.com/favicon.ico".to_owned()
    ));
    assert_eq!(
        store.entries()[0].favicon.as_deref(),
        Some("https://example.com/favicon.ico")
    );
}

#[test]
fn updating_favicon_of_an_unbookmarked_url_is_a_noop() {
    let mut store = BookmarkStore::new();
    assert!(!store.update_favicon_by_url(
        "https://example.com/",
        "https://example.com/favicon.ico".to_owned()
    ));
}

fn ids(store: &BookmarkStore) -> Vec<u64> {
    store.entries().iter().map(|e| e.id).collect()
}

#[test]
fn moving_up_and_down_again_changes_nothing() {
    let mut store = BookmarkStore::new();
    let folder = store.create_folder("F".to_owned(), 1);
    let a = store.add("https://a.example/", None, 1);
    let b = store.add("https://b.example/", None, 2);
    let c = store.add("https://c.example/", None, 3);
    store.edit(b, None, "https://b.example/".to_owned(), Some(folder)).unwrap();
    let before = ids(&store);
    assert!(store.move_up(c));
    assert_eq!(ids(&store), [c, b, a]);
    assert!(store.move_down(c));
    assert_eq!(ids(&store), before);
    assert!(store.move_down(a));
    assert!(store.move_up(a));
    assert_eq!(ids(&store), before);
}

#[test]
fn toggling_twice_leaves_the_entries_as_they_were() {
    let mut store = BookmarkStore::new();
    store.add("https://a.example/", None, 1);
    let before = store.entries().to_vec();
    assert!(store.toggle("https://b.example/", None, 2));
    assert!(!store.toggle("https://b.example/", None, 3));
    assert_eq!(store.entries(), before);
    assert_eq!(store.next_ids(), (3, 1));
}

#[test]
fn a_taken_url_is_reported_before_a_missing_id() {
    let mut store = BookmarkStore::new();
    store.add("https://a.example/", None, 1);
    assert_eq!(
        store.edit(99, None, "https://a.example/".to_owned(), None),
        Err(BookmarkEditError::DuplicateUrl)
    );
    assert_eq!(
        store.edit(99, None, "https://b.example/".to_owned(), None),
        Err(BookmarkEditError::NotFound)
    );
}

#[test]
fn entries_of_missing_folders_are_moved_to_the_root() {
    let entry = BookmarkEntry {
        id: 1,
        url: "https://example.com/".to_owned(),
        title: None,
        created_at: 100,
        folder_id: Some(999),
        favicon: None,
    };
    let mut store = BookmarkStore::from_parts(vec![entry], 2, Vec::new(), 1);
    store.repair_dangling_folder_ids();
    assert_eq!(store.entries()[0].folder_id, None);
    assert_eq!(store.entries_in(None).len(), 1);
}
