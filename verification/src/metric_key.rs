//! The metrics that a benchmark reads from performance events.

use vstd::prelude::*;

use crate::text::{chars_of, is_text};

verus! {

/// One metric.
#[derive(Debug, Clone, Copy, PartialEq, Eq, Structural, PartialOrd, Ord)]
pub enum MetricKey {
    /// The event loop of the windowing toolkit is built.
    StartupEventLoopMs,
    /// All that the first window needs is loaded.
    StartupPreWindowSetupMs,
    /// The native window is built.
    StartupNativeWindowMs,
    /// The webview of the toolbar is attached.
    StartupToolbarWebviewMs,
    /// The first window is there.
    StartupWindowCreatedMs,
    /// The event loop is about to be entered.
    StartupRustSetupDoneMs,
    /// The script of the toolbar has started.
    StartupToolbarScriptStartedMs,
    /// The toolbar is ready.
    StartupToolbarReadyMs,
    /// The first page has finished loading.
    StartupFirstLoadMs,
    /// The whole of a page load.
    PageLoadMs,
    /// The part of a page load from the start of loading on.
    PageLoadEngineMs,
    /// The part of a page load before that.
    PageLoadDispatchMs,
    /// Creating a tab.
    TabCreateMs,
    /// Switching to a tab.
    TabSwitchMs,
    /// Coming back to a suspended tab.
    TabResumeMs,
    /// Resident memory of the process tree.
    RssTotalBytes,
    /// The number of processes in it.
    RssProcessCount,
    /// Proportional memory of the process tree.
    PssTotalBytes,
    /// The number of processes whose proportional memory is known.
    PssProcessCount,
    /// CPU use of the process tree, in percent of one core.
    CpuPercent,
    /// How many tabs a trial suspended. The events are counted, no field is read.
    SuspendedTabCount,
}

/// The name of a metric.
pub open spec fn metric_name(key: MetricKey) -> Seq<char> {
    match key {
        MetricKey::StartupEventLoopMs => "startup_event_loop_ms"@,
        MetricKey::StartupPreWindowSetupMs => "startup_pre_window_setup_ms"@,
        MetricKey::StartupNativeWindowMs => "startup_native_window_ms"@,
        MetricKey::StartupToolbarWebviewMs => "startup_toolbar_webview_ms"@,
        MetricKey::StartupWindowCreatedMs => "startup_window_created_ms"@,
        MetricKey::StartupRustSetupDoneMs => "startup_rust_setup_done_ms"@,
        MetricKey::StartupToolbarScriptStartedMs => "startup_toolbar_script_started_ms"@,
        MetricKey::StartupToolbarReadyMs => "startup_toolbar_ready_ms"@,
        MetricKey::StartupFirstLoadMs => "startup_first_load_ms"@,
        MetricKey::PageLoadMs => "page_load_ms"@,
        MetricKey::PageLoadEngineMs => "page_load_engine_ms"@,
        MetricKey::PageLoadDispatchMs => "page_load_dispatch_ms"@,
        MetricKey::TabCreateMs => "tab_create_ms"@,
        MetricKey::TabSwitchMs => "tab_switch_ms"@,
        MetricKey::TabResumeMs => "tab_resume_ms"@,
        MetricKey::RssTotalBytes => "rss_total_bytes"@,
        MetricKey::RssProcessCount => "rss_process_count"@,
        MetricKey::PssTotalBytes => "pss_total_bytes"@,
        MetricKey::PssProcessCount => "pss_process_count"@,
        MetricKey::CpuPercent => "cpu_percent"@,
        MetricKey::SuspendedTabCount => "suspended_tab_count"@,
    }
}

/// The metric that has a name.
pub open spec fn metric_named(name: Seq<char>) -> Option<MetricKey> {
    if name == "startup_event_loop_ms"@ {
        Some(MetricKey::StartupEventLoopMs)
    } else if name == "startup_pre_window_setup_ms"@ {
        Some(MetricKey::StartupPreWindowSetupMs)
    } else if name == "startup_native_window_ms"@ {
        Some(MetricKey::StartupNativeWindowMs)
    } else if name == "startup_toolbar_webview_ms"@ {
        Some(MetricKey::StartupToolbarWebviewMs)
    } else if name == "startup_window_created_ms"@ {
        Some(MetricKey::StartupWindowCreatedMs)
    } else if name == "startup_rust_setup_done_ms"@ {
        Some(MetricKey::StartupRustSetupDoneMs)
    } else if name == "startup_toolbar_script_started_ms"@ {
        Some(MetricKey::StartupToolbarScriptStartedMs)
    } else if name == "startup_toolbar_ready_ms"@ {
        Some(MetricKey::StartupToolbarReadyMs)
    } else if name == "startup_first_load_ms"@ {
        Some(MetricKey::StartupFirstLoadMs)
    } else if name == "page_load_ms"@ {
        Some(MetricKey::PageLoadMs)
    } else if name == "page_load_engine_ms"@ {
        Some(MetricKey::PageLoadEngineMs)
    } else if name == "page_load_dispatch_ms"@ {
        Some(MetricKey::PageLoadDispatchMs)
    } else if name == "tab_create_ms"@ {
        Some(MetricKey::TabCreateMs)
    } else if name == "tab_switch_ms"@ {
        Some(MetricKey::TabSwitchMs)
    } else if name == "tab_resume_ms"@ {
        Some(MetricKey::TabResumeMs)
    } else if name == "rss_total_bytes"@ {
        Some(MetricKey::RssTotalBytes)
    } else if name == "rss_process_count"@ {
        Some(MetricKey::RssProcessCount)
    } else if name == "pss_total_bytes"@ {
        Some(MetricKey::PssTotalBytes)
    } else if name == "pss_process_count"@ {
        Some(MetricKey::PssProcessCount)
    } else if name == "cpu_percent"@ {
        Some(MetricKey::CpuPercent)
    } else if name == "suspended_tab_count"@ {
        Some(MetricKey::SuspendedTabCount)
    } else {
        None
    }
}

/// The kind of event that a metric is read from.
pub open spec fn metric_event(key: MetricKey) -> Seq<char> {
    match key {
        MetricKey::StartupEventLoopMs => "startup"@,
        MetricKey::StartupPreWindowSetupMs => "startup"@,
        MetricKey::StartupNativeWindowMs => "startup"@,
        MetricKey::StartupToolbarWebviewMs => "startup"@,
        MetricKey::StartupWindowCreatedMs => "startup"@,
        MetricKey::StartupRustSetupDoneMs => "startup"@,
        MetricKey::StartupToolbarScriptStartedMs => "startup"@,
        MetricKey::StartupToolbarReadyMs => "startup"@,
        MetricKey::StartupFirstLoadMs => "startup"@,
        MetricKey::PageLoadMs => "page_load"@,
        MetricKey::PageLoadEngineMs => "page_load"@,
        MetricKey::PageLoadDispatchMs => "page_load"@,
        MetricKey::TabCreateMs => "tab_create"@,
        MetricKey::TabSwitchMs => "tab_switch"@,
        MetricKey::TabResumeMs => "tab_resume"@,
        MetricKey::RssTotalBytes => "rss"@,
        MetricKey::RssProcessCount => "rss"@,
        MetricKey::PssTotalBytes => "rss"@,
        MetricKey::PssProcessCount => "rss"@,
        MetricKey::CpuPercent => "cpu"@,
        MetricKey::SuspendedTabCount => "tab_suspend"@,
    }
}

/// The field that a metric is read from; `None` for the one that counts events.
pub open spec fn metric_field(key: MetricKey) -> Option<Seq<char>> {
    match key {
        MetricKey::StartupEventLoopMs => Some("event_loop_ms"@),
        MetricKey::StartupPreWindowSetupMs => Some("pre_window_setup_ms"@),
        MetricKey::StartupNativeWindowMs => Some("native_window_ms"@),
        MetricKey::StartupToolbarWebviewMs => Some("toolbar_webview_ms"@),
        MetricKey::StartupWindowCreatedMs => Some("window_created_ms"@),
        MetricKey::StartupRustSetupDoneMs => Some("rust_setup_done_ms"@),
        MetricKey::StartupToolbarScriptStartedMs => Some("toolbar_script_started_ms"@),
        MetricKey::StartupToolbarReadyMs => Some("toolbar_ready_ms"@),
        MetricKey::StartupFirstLoadMs => Some("first_load_ms"@),
        MetricKey::PageLoadMs => Some("duration_ms"@),
        MetricKey::PageLoadEngineMs => Some("engine_duration_ms"@),
        MetricKey::PageLoadDispatchMs => Some("dispatch_duration_ms"@),
        MetricKey::TabCreateMs => Some("duration_ms"@),
        MetricKey::TabSwitchMs => Some("duration_ms"@),
        MetricKey::TabResumeMs => Some("duration_ms"@),
        MetricKey::RssTotalBytes => Some("total_rss_bytes"@),
        MetricKey::RssProcessCount => Some("process_count"@),
        MetricKey::PssTotalBytes => Some("total_pss_bytes"@),
        MetricKey::PssProcessCount => Some("pss_process_count"@),
        MetricKey::CpuPercent => Some("percent"@),
        MetricKey::SuspendedTabCount => None,
    }
}

/// The least change of a metric that counts at all: 20 milliseconds, 5 MiB, one
/// process or tab, 5 points of CPU use.
pub open spec fn least_change(key: MetricKey) -> nat {
    match key {
        MetricKey::RssTotalBytes | MetricKey::PssTotalBytes => 5 * 1024 * 1024,
        MetricKey::RssProcessCount | MetricKey::PssProcessCount => 1,
        MetricKey::CpuPercent => 5,
        MetricKey::SuspendedTabCount => 1,
        _ => 20,
    }
}

/// All metrics, in order.
pub open spec fn all_metrics() -> Seq<MetricKey> {
    seq![
        MetricKey::StartupEventLoopMs,
        MetricKey::StartupPreWindowSetupMs,
        MetricKey::StartupNativeWindowMs,
        MetricKey::StartupToolbarWebviewMs,
        MetricKey::StartupWindowCreatedMs,
        MetricKey::StartupRustSetupDoneMs,
        MetricKey::StartupToolbarScriptStartedMs,
        MetricKey::StartupToolbarReadyMs,
        MetricKey::StartupFirstLoadMs,
        MetricKey::PageLoadMs,
        MetricKey::PageLoadEngineMs,
        MetricKey::PageLoadDispatchMs,
        MetricKey::TabCreateMs,
        MetricKey::TabSwitchMs,
        MetricKey::TabResumeMs,
        MetricKey::RssTotalBytes,
        MetricKey::RssProcessCount,
        MetricKey::PssTotalBytes,
        MetricKey::PssProcessCount,
        MetricKey::CpuPercent,
        MetricKey::SuspendedTabCount,
    ]
}

impl MetricKey {
    /// All metrics, in order.
    pub const ALL: [MetricKey; 21] = [
        MetricKey::StartupEventLoopMs,
        MetricKey::StartupPreWindowSetupMs,
        MetricKey::StartupNativeWindowMs,
        MetricKey::StartupToolbarWebviewMs,
        MetricKey::StartupWindowCreatedMs,
        MetricKey::StartupRustSetupDoneMs,
        MetricKey::StartupToolbarScriptStartedMs,
        MetricKey::StartupToolbarReadyMs,
        MetricKey::StartupFirstLoadMs,
        MetricKey::PageLoadMs,
        MetricKey::PageLoadEngineMs,
        MetricKey::PageLoadDispatchMs,
        MetricKey::TabCreateMs,
        MetricKey::TabSwitchMs,
        MetricKey::TabResumeMs,
        MetricKey::RssTotalBytes,
        MetricKey::RssProcessCount,
        MetricKey::PssTotalBytes,
        MetricKey::PssProcessCount,
        MetricKey::CpuPercent,
        MetricKey::SuspendedTabCount,
    ];

    /// The name of the metric in a result.
    pub fn as_str(self) -> (r: &'static str)
        ensures
            r@ == metric_name(self),
    {
        match self {
            MetricKey::StartupEventLoopMs => "startup_event_loop_ms",
            MetricKey::StartupPreWindowSetupMs => "startup_pre_window_setup_ms",
            MetricKey::StartupNativeWindowMs => "startup_native_window_ms",
            MetricKey::StartupToolbarWebviewMs => "startup_toolbar_webview_ms",
            MetricKey::StartupWindowCreatedMs => "startup_window_created_ms",
            MetricKey::StartupRustSetupDoneMs => "startup_rust_setup_done_ms",
            MetricKey::StartupToolbarScriptStartedMs => "startup_toolbar_script_started_ms",
            MetricKey::StartupToolbarReadyMs => "startup_toolbar_ready_ms",
            MetricKey::StartupFirstLoadMs => "startup_first_load_ms",
            MetricKey::PageLoadMs => "page_load_ms",
            MetricKey::PageLoadEngineMs => "page_load_engine_ms",
            MetricKey::PageLoadDispatchMs => "page_load_dispatch_ms",
            MetricKey::TabCreateMs => "tab_create_ms",
            MetricKey::TabSwitchMs => "tab_switch_ms",
            MetricKey::TabResumeMs => "tab_resume_ms",
            MetricKey::RssTotalBytes => "rss_total_bytes",
            MetricKey::RssProcessCount => "rss_process_count",
            MetricKey::PssTotalBytes => "pss_total_bytes",
            MetricKey::PssProcessCount => "pss_process_count",
            MetricKey::CpuPercent => "cpu_percent",
            MetricKey::SuspendedTabCount => "suspended_tab_count",
        }
    }

    /// The metric that has a name.
    pub fn from_metric_name(name: &str) -> (r: Option<MetricKey>)
        ensures
            r == metric_named(name@),
    {
        let name = chars_of(name);
        if is_text(&name, "startup_event_loop_ms") {
            Some(MetricKey::StartupEventLoopMs)
        } else if is_text(&name, "startup_pre_window_setup_ms") {
            Some(MetricKey::StartupPreWindowSetupMs)
        } else if is_text(&name, "startup_native_window_ms") {
            Some(MetricKey::StartupNativeWindowMs)
        } else if is_text(&name, "startup_toolbar_webview_ms") {
            Some(MetricKey::StartupToolbarWebviewMs)
        } else if is_text(&name, "startup_window_created_ms") {
            Some(MetricKey::StartupWindowCreatedMs)
        } else if is_text(&name, "startup_rust_setup_done_ms") {
            Some(MetricKey::StartupRustSetupDoneMs)
        } else if is_text(&name, "startup_toolbar_script_started_ms") {
            Some(MetricKey::StartupToolbarScriptStartedMs)
        } else if is_text(&name, "startup_toolbar_ready_ms") {
            Some(MetricKey::StartupToolbarReadyMs)
        } else if is_text(&name, "startup_first_load_ms") {
            Some(MetricKey::StartupFirstLoadMs)
        } else if is_text(&name, "page_load_ms") {
            Some(MetricKey::PageLoadMs)
        } else if is_text(&name, "page_load_engine_ms") {
            Some(MetricKey::PageLoadEngineMs)
        } else if is_text(&name, "page_load_dispatch_ms") {
            Some(MetricKey::PageLoadDispatchMs)
        } else if is_text(&name, "tab_create_ms") {
            Some(MetricKey::TabCreateMs)
        } else if is_text(&name, "tab_switch_ms") {
            Some(MetricKey::TabSwitchMs)
        } else if is_text(&name, "tab_resume_ms") {
            Some(MetricKey::TabResumeMs)
        } else if is_text(&name, "rss_total_bytes") {
            Some(MetricKey::RssTotalBytes)
        } else if is_text(&name, "rss_process_count") {
            Some(MetricKey::RssProcessCount)
        } else if is_text(&name, "pss_total_bytes") {
            Some(MetricKey::PssTotalBytes)
        } else if is_text(&name, "pss_process_count") {
            Some(MetricKey::PssProcessCount)
        } else if is_text(&name, "cpu_percent") {
            Some(MetricKey::CpuPercent)
        } else if is_text(&name, "suspended_tab_count") {
            Some(MetricKey::SuspendedTabCount)
        } else {
            None
        }
    }

    /// The least change of the metric that counts at all.
    pub fn min_significant_delta(self) -> (r: u64)
        ensures
            r == least_change(self),
    {
        match self {
            MetricKey::RssTotalBytes | MetricKey::PssTotalBytes => 5 * 1024 * 1024,
            MetricKey::RssProcessCount | MetricKey::PssProcessCount => 1,
            MetricKey::CpuPercent => 5,
            MetricKey::SuspendedTabCount => 1,
            _ => 20,
        }
    }

    /// The kind of event that the metric is read from.
    pub fn event_name(self) -> (r: &'static str)
        ensures
            r@ == metric_event(self),
    {
        match self {
            MetricKey::StartupEventLoopMs => "startup",
            MetricKey::StartupPreWindowSetupMs => "startup",
            MetricKey::StartupNativeWindowMs => "startup",
            MetricKey::StartupToolbarWebviewMs => "startup",
            MetricKey::StartupWindowCreatedMs => "startup",
            MetricKey::StartupRustSetupDoneMs => "startup",
            MetricKey::StartupToolbarScriptStartedMs => "startup",
            MetricKey::StartupToolbarReadyMs => "startup",
            MetricKey::StartupFirstLoadMs => "startup",
            MetricKey::PageLoadMs => "page_load",
            MetricKey::PageLoadEngineMs => "page_load",
            MetricKey::PageLoadDispatchMs => "page_load",
            MetricKey::TabCreateMs => "tab_create",
            MetricKey::TabSwitchMs => "tab_switch",
            MetricKey::TabResumeMs => "tab_resume",
            MetricKey::RssTotalBytes => "rss",
            MetricKey::RssProcessCount => "rss",
            MetricKey::PssTotalBytes => "rss",
            MetricKey::PssProcessCount => "rss",
            MetricKey::CpuPercent => "cpu",
            MetricKey::SuspendedTabCount => "tab_suspend",
        }
    }

    /// The field that the metric is read from.
    pub fn field_name(self) -> (r: &'static str)
        requires
            self != MetricKey::SuspendedTabCount,
        ensures
            metric_field(self) == Some(r@),
    {
        match self {
            MetricKey::StartupEventLoopMs => "event_loop_ms",
            MetricKey::StartupPreWindowSetupMs => "pre_window_setup_ms",
            MetricKey::StartupNativeWindowMs => "native_window_ms",
            MetricKey::StartupToolbarWebviewMs => "toolbar_webview_ms",
            MetricKey::StartupWindowCreatedMs => "window_created_ms",
            MetricKey::StartupRustSetupDoneMs => "rust_setup_done_ms",
            MetricKey::StartupToolbarScriptStartedMs => "toolbar_script_started_ms",
            MetricKey::StartupToolbarReadyMs => "toolbar_ready_ms",
            MetricKey::StartupFirstLoadMs => "first_load_ms",
            MetricKey::PageLoadMs => "duration_ms",
            MetricKey::PageLoadEngineMs => "engine_duration_ms",
            MetricKey::PageLoadDispatchMs => "dispatch_duration_ms",
            MetricKey::TabCreateMs => "duration_ms",
            MetricKey::TabSwitchMs => "duration_ms",
            MetricKey::TabResumeMs => "duration_ms",
            MetricKey::RssTotalBytes => "total_rss_bytes",
            MetricKey::RssProcessCount => "process_count",
            MetricKey::PssTotalBytes => "total_pss_bytes",
            MetricKey::PssProcessCount => "pss_process_count",
            MetricKey::CpuPercent => "percent",
            MetricKey::SuspendedTabCount => "",
        }
    }

    /// Whether the metric is taken over a whole trial, its warm-up included.
    pub fn counts_whole_trial(self) -> (r: bool)
        ensures
            r == (self is SuspendedTabCount),
    {
        match self {
            MetricKey::SuspendedTabCount => true,
            _ => false,
        }
    }
}

// ---------------------------------------------------------------------------
// Laws

/// Looking up the name of a metric gives the metric.
pub proof fn a_name_reads_back(key: MetricKey)
    ensures
        metric_named(metric_name(key)) == Some(key),
{
    reveal_strlit("startup_event_loop_ms");
    reveal_strlit("startup_pre_window_setup_ms");
    reveal_strlit("startup_native_window_ms");
    reveal_strlit("startup_toolbar_webview_ms");
    reveal_strlit("startup_window_created_ms");
    reveal_strlit("startup_rust_setup_done_ms");
    reveal_strlit("startup_toolbar_script_started_ms");
    reveal_strlit("startup_toolbar_ready_ms");
    reveal_strlit("startup_first_load_ms");
    reveal_strlit("page_load_ms");
    reveal_strlit("page_load_engine_ms");
    reveal_strlit("page_load_dispatch_ms");
    reveal_strlit("tab_create_ms");
    reveal_strlit("tab_switch_ms");
    reveal_strlit("tab_resume_ms");
    reveal_strlit("rss_total_bytes");
    reveal_strlit("rss_process_count");
    reveal_strlit("pss_total_bytes");
    reveal_strlit("pss_process_count");
    reveal_strlit("cpu_percent");
    reveal_strlit("suspended_tab_count");
    assert("startup_event_loop_ms"@.len() == 21);
    assert("startup_pre_window_setup_ms"@.len() == 27);
    assert("startup_native_window_ms"@.len() == 24);
    assert("startup_toolbar_webview_ms"@.len() == 26);
    assert("startup_window_created_ms"@.len() == 25);
    assert("startup_rust_setup_done_ms"@.len() == 26);
    assert("startup_toolbar_script_started_ms"@.len() == 33);
    assert("startup_toolbar_ready_ms"@.len() == 24);
    assert("startup_first_load_ms"@.len() == 21);
    assert("page_load_ms"@.len() == 12);
    assert("page_load_engine_ms"@.len() == 19);
    assert("page_load_dispatch_ms"@.len() == 21);
    assert("tab_create_ms"@.len() == 13);
    assert("tab_switch_ms"@.len() == 13);
    assert("tab_resume_ms"@.len() == 13);
    assert("rss_total_bytes"@.len() == 15);
    assert("rss_process_count"@.len() == 17);
    assert("pss_total_bytes"@.len() == 15);
    assert("pss_process_count"@.len() == 17);
    assert("cpu_percent"@.len() == 11);
    assert("suspended_tab_count"@.len() == 19);
    assert("startup_event_loop_ms"@[0] == 's');
    assert("startup_event_loop_ms"@[8] == 'e');
    assert("startup_first_load_ms"@[0] == 's');
    assert("startup_first_load_ms"@[8] == 'f');
    assert("page_load_dispatch_ms"@[0] == 'p');
    assert("startup_native_window_ms"@[8] == 'n');
    assert("startup_toolbar_ready_ms"@[8] == 't');
    assert("startup_toolbar_webview_ms"@[8] == 't');
    assert("startup_rust_setup_done_ms"@[8] == 'r');
    assert("page_load_engine_ms"@[0] == 'p');
    assert("suspended_tab_count"@[0] == 's');
    assert("tab_create_ms"@[4] == 'c');
    assert("tab_switch_ms"@[4] == 's');
    assert("tab_resume_ms"@[4] == 'r');
    assert("rss_total_bytes"@[0] == 'r');
    assert("pss_total_bytes"@[0] == 'p');
    assert("rss_process_count"@[0] == 'r');
    assert("pss_process_count"@[0] == 'p');
}

/// Every metric is in the list of all of them.
pub proof fn every_metric_is_listed(key: MetricKey)
    ensures
        all_metrics().contains(key),
{
    let all = all_metrics();
    let i: int = match key {
        MetricKey::StartupEventLoopMs => 0,
        MetricKey::StartupPreWindowSetupMs => 1,
        MetricKey::StartupNativeWindowMs => 2,
        MetricKey::StartupToolbarWebviewMs => 3,
        MetricKey::StartupWindowCreatedMs => 4,
        MetricKey::StartupRustSetupDoneMs => 5,
        MetricKey::StartupToolbarScriptStartedMs => 6,
        MetricKey::StartupToolbarReadyMs => 7,
        MetricKey::StartupFirstLoadMs => 8,
        MetricKey::PageLoadMs => 9,
        MetricKey::PageLoadEngineMs => 10,
        MetricKey::PageLoadDispatchMs => 11,
        MetricKey::TabCreateMs => 12,
        MetricKey::TabSwitchMs => 13,
        MetricKey::TabResumeMs => 14,
        MetricKey::RssTotalBytes => 15,
        MetricKey::RssProcessCount => 16,
        MetricKey::PssTotalBytes => 17,
        MetricKey::PssProcessCount => 18,
        MetricKey::CpuPercent => 19,
        MetricKey::SuspendedTabCount => 20,
    };
    assert(all[i] == key);
}

/// No two metrics are read from the same field of the same event.
pub proof fn metrics_are_read_from_different_fields(a: MetricKey, b: MetricKey)
    requires
        metric_event(a) == metric_event(b),
        metric_field(a) == metric_field(b),
    ensures
        a == b,
{
    reveal_strlit("cpu");
    reveal_strlit("dispatch_duration_ms");
    reveal_strlit("duration_ms");
    reveal_strlit("engine_duration_ms");
    reveal_strlit("event_loop_ms");
    reveal_strlit("first_load_ms");
    reveal_strlit("native_window_ms");
    reveal_strlit("page_load");
    reveal_strlit("pre_window_setup_ms");
    reveal_strlit("process_count");
    reveal_strlit("pss_process_count");
    reveal_strlit("rss");
    reveal_strlit("rust_setup_done_ms");
    reveal_strlit("startup");
    reveal_strlit("tab_create");
    reveal_strlit("tab_resume");
    reveal_strlit("tab_suspend");
    reveal_strlit("tab_switch");
    reveal_strlit("toolbar_ready_ms");
    reveal_strlit("toolbar_script_started_ms");
    reveal_strlit("toolbar_webview_ms");
    reveal_strlit("total_pss_bytes");
    reveal_strlit("total_rss_bytes");
    reveal_strlit("window_created_ms");
    assert("cpu"@.len() == 3);
    assert("dispatch_duration_ms"@.len() == 20);
    assert("duration_ms"@.len() == 11);
    assert("engine_duration_ms"@.len() == 18);
    assert("event_loop_ms"@.len() == 13);
    assert("first_load_ms"@.len() == 13);
    assert("native_window_ms"@.len() == 16);
    assert("page_load"@.len() == 9);
    assert("pre_window_setup_ms"@.len() == 19);
    assert("process_count"@.len() == 13);
    assert("pss_process_count"@.len() == 17);
    assert("rss"@.len() == 3);
    assert("rust_setup_done_ms"@.len() == 18);
    assert("startup"@.len() == 7);
    assert("tab_create"@.len() == 10);
    assert("tab_resume"@.len() == 10);
    assert("tab_suspend"@.len() == 11);
    assert("tab_switch"@.len() == 10);
    assert("toolbar_ready_ms"@.len() == 16);
    assert("toolbar_script_started_ms"@.len() == 25);
    assert("toolbar_webview_ms"@.len() == 18);
    assert("total_pss_bytes"@.len() == 15);
    assert("total_rss_bytes"@.len() == 15);
    assert("window_created_ms"@.len() == 17);
    assert("event_loop_ms"@[0] != "first_load_ms"@[0]);
    assert("native_window_ms"@[0] != "toolbar_ready_ms"@[0]);
    assert("rss"@[0] != "cpu"@[0]);
    assert("tab_create"@[4] != "tab_resume"@[4]);
    assert("tab_create"@[4] != "tab_switch"@[4]);
    assert("tab_switch"@[4] != "tab_resume"@[4]);
    assert("toolbar_webview_ms"@[0] != "rust_setup_done_ms"@[0]);
    assert("total_rss_bytes"@[6] != "total_pss_bytes"@[6]);
}

/// Whether a metric is a length of time.
pub open spec fn is_time(key: MetricKey) -> bool {
    !(key is RssTotalBytes || key is PssTotalBytes || key is RssProcessCount || key is PssProcessCount
        || key is CpuPercent || key is SuspendedTabCount)
}

/// The unit of a metric is the end of its name, and decides which changes count: 20
/// milliseconds, 5 MiB, one process or tab, 5 percent.
pub proof fn the_unit_decides_what_counts(key: MetricKey)
    ensures
        "_ms"@.is_suffix_of(metric_name(key)) <==> is_time(key),
        "_bytes"@.is_suffix_of(metric_name(key)) <==> key is RssTotalBytes || key is PssTotalBytes,
        "_count"@.is_suffix_of(metric_name(key)) <==> key is RssProcessCount
            || key is PssProcessCount || key is SuspendedTabCount,
        "_percent"@.is_suffix_of(metric_name(key)) <==> key is CpuPercent,
        "_ms"@.is_suffix_of(metric_name(key)) ==> least_change(key) == 20,
        "_bytes"@.is_suffix_of(metric_name(key)) ==> least_change(key) == 5 * 1024 * 1024,
        "_count"@.is_suffix_of(metric_name(key)) ==> least_change(key) == 1,
        "_percent"@.is_suffix_of(metric_name(key)) ==> least_change(key) == 5,
{
    reveal_strlit("_ms");
    reveal_strlit("_bytes");
    reveal_strlit("_count");
    reveal_strlit("_percent");
    let name = metric_name(key);
    reveal_strlit("startup_event_loop_ms");
    reveal_strlit("startup_pre_window_setup_ms");
    reveal_strlit("startup_native_window_ms");
    reveal_strlit("startup_toolbar_webview_ms");
    reveal_strlit("startup_window_created_ms");
    reveal_strlit("startup_rust_setup_done_ms");
    reveal_strlit("startup_toolbar_script_started_ms");
    reveal_strlit("startup_toolbar_ready_ms");
    reveal_strlit("startup_first_load_ms");
    reveal_strlit("page_load_ms");
    reveal_strlit("page_load_engine_ms");
    reveal_strlit("page_load_dispatch_ms");
    reveal_strlit("tab_create_ms");
    reveal_strlit("tab_switch_ms");
    reveal_strlit("tab_resume_ms");
    reveal_strlit("rss_total_bytes");
    reveal_strlit("rss_process_count");
    reveal_strlit("pss_total_bytes");
    reveal_strlit("pss_process_count");
    reveal_strlit("cpu_percent");
    reveal_strlit("suspended_tab_count");
    let n = name.len() as int;
    assert(n >= 11);
    assert(name.last() == if is_time(key) || key is RssTotalBytes || key is PssTotalBytes {
        's'
    } else {
        't'
    });
    assert(name[n - 2] == if is_time(key) {
        'm'
    } else if key is RssTotalBytes || key is PssTotalBytes {
        'e'
    } else {
        'n'
    });
    assert(name[n - 3] == if is_time(key) {
        '_'
    } else if key is RssTotalBytes || key is PssTotalBytes {
        't'
    } else if key is CpuPercent {
        'e'
    } else {
        'u'
    });
    if is_time(key) {
        assert(name.subrange(n - 3, n) =~= "_ms"@);
    } else if key is RssTotalBytes || key is PssTotalBytes {
        assert(name.subrange(n - 6, n) =~= "_bytes"@);
    } else if key is CpuPercent {
        assert(name.subrange(n - 8, n) =~= "_percent"@);
    } else {
        assert(name.subrange(n - 6, n) =~= "_count"@);
    }
    if "_ms"@.is_suffix_of(name) {
        assert(name.subrange(n - 3, n)[1] == name[n - 2]);
    }
    if "_bytes"@.is_suffix_of(name) {
        assert(name.subrange(n - 6, n)[4] == name[n - 2]);
    }
    if "_count"@.is_suffix_of(name) {
        assert(name.subrange(n - 6, n)[3] == name[n - 3]);
    }
    if "_percent"@.is_suffix_of(name) {
        assert(name.subrange(n - 8, n)[5] == name[n - 3]);
    }
}

} // verus!
