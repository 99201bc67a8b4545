//! Whether it is worth trying to open a window at all.

use vstd::prelude::*;

verus! {

/// What is missing where there is no display.
pub const NO_DISPLAY: &'static str = "DISPLAY/WAYLAND_DISPLAY が設定されていません (Xvfb 等のディスプレイが無い環境)";

/// What is missing where there is no session bus.
pub const NO_SESSION_BUS: &'static str = "DBUS_SESSION_BUS_ADDRESS が設定されていません (dbus-run-session 等の D-Bus セッションバスが無い環境。WebKitGTK の web process が起動できず、#72 と同じ 無応答になります — docs/decisions.md D46 参照)";

/// Why no window can be opened here, if it is known: without a display there is
/// none, and without a session bus one opens that never shows a page. `None` says
/// no more than that neither is missing.
///
/// `has_display` says whether `DISPLAY` or `WAYLAND_DISPLAY` is set,
/// `has_dbus_session` whether `DBUS_SESSION_BUS_ADDRESS` is.
pub fn gui_probe_reason(has_display: bool, has_dbus_session: bool) -> (r: Option<&'static str>)
    ensures
        r == (if !has_display {
            Some(NO_DISPLAY)
        } else if !has_dbus_session {
            Some(NO_SESSION_BUS)
        } else {
            None
        }),
{
    if !has_display {
        return Some(NO_DISPLAY);
    }
    if !has_dbus_session {
        return Some(NO_SESSION_BUS);
    }
    None
}

} // verus!
