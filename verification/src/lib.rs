//! The UI-independent logic of a small desktop browser.

use vstd::prelude::*;

pub mod automation;
pub mod benchmark;
pub mod blocklist;
pub mod bookmarks;
pub mod calendar;
pub mod comparison;
pub mod context_menu;
pub mod downloads;
pub mod filenames;
pub mod find;
pub mod gate;
pub mod gui_probe;
pub mod history;
pub mod input_history;
pub mod ipc_summary;
pub mod metric_key;
pub mod metrics;
pub mod navigation;
pub mod network_activity;
pub mod omnibox;
pub mod omnibox_candidates;
pub mod paths;
pub mod perf_events;
pub mod perf_record;
pub mod persistence;
pub mod platform;
pub mod print;
pub mod process_tree;
pub mod ranking;
pub mod scenario;
pub mod tab_id;
pub mod text;
pub mod weburl;

verus! {

} // verus!
