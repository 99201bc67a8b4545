//! Whether a window can be opened.

use velox_browser::gui_probe::gui_probe_reason;

#[test]
fn missing_display_is_reported_first() {
    let reason = gui_probe_reason(false, false).expect("should be Some");
    assert!(reason.contains("DISPLAY"));
}

#[test]
fn missing_dbus_alone_is_reported() {
    let reason = gui_probe_reason(true, false).expect("should be Some");
    assert!(reason.contains("DBUS_SESSION_BUS_ADDRESS"));
}

#[test]
fn both_present_means_no_reason_to_skip() {
    assert_eq!(gui_probe_reason(true, true), None);
}

#[test]
fn display_alone_without_dbus_is_still_a_skip() {
    assert!(gui_probe_reason(true, false).is_some());
}
