//! Measuring: when the browser has started, how long pages take to load, and what
//! is logged of it. Points in time and lengths of time are in nanoseconds; points
//! in time count from any fixed one.

use vstd::prelude::*;
use vstd::string::*;

use crate::text::{chars_of, is_text, to_ascii_lower, trim};
use crate::{ranking, text};

pub use crate::perf_record::{
    format_page_load, format_rss, format_startup, FieldValue, IpcDirection, PerfRecord,
    StateWriteKind, SuspendReason, TabLatencyKind, TextPart, LOG_PREFIX,
};
pub use crate::process_tree::{
    build_sample, collect_descendants, cpu_nanos_between, filetime_nanos, filetime_ticks,
    kilobytes, parse_cpu_nanos, parse_mem_total_bytes, parse_ps_output, parse_pss_kb, parse_status,
    ProcInfo, ProcStatus, RssError, RssSample, MAX_KILOBYTES,
};

verus! {

// ---------------------------------------------------------------------------
// Starting

/// When the browser reached each step of starting.
///
/// Four steps are details of what comes before the window; the other five are
/// needed for a report.
#[derive(Debug, Clone, Copy, PartialEq, Eq, Structural)]
pub struct StartupTimestamps {
    process_start: u128,
    event_loop_built: Option<u128>,
    pre_window_setup_done: Option<u128>,
    native_window_built: Option<u128>,
    toolbar_webview_built: Option<u128>,
    window_created: Option<u128>,
    rust_setup_done: Option<u128>,
    toolbar_script_started: Option<u128>,
    toolbar_ready: Option<u128>,
    first_load_finished: Option<u128>,
}

/// What a [`StartupTimestamps`] stands for.
pub struct StartupModel {
    pub process_start: u128,
    pub event_loop_built: Option<u128>,
    pub pre_window_setup_done: Option<u128>,
    pub native_window_built: Option<u128>,
    pub toolbar_webview_built: Option<u128>,
    pub window_created: Option<u128>,
    pub rust_setup_done: Option<u128>,
    pub toolbar_script_started: Option<u128>,
    pub toolbar_ready: Option<u128>,
    pub first_load_finished: Option<u128>,
}

impl View for StartupTimestamps {
    type V = StartupModel;

    closed spec fn view(&self) -> StartupModel {
        StartupModel {
            process_start: self.process_start,
            event_loop_built: self.event_loop_built,
            pre_window_setup_done: self.pre_window_setup_done,
            native_window_built: self.native_window_built,
            toolbar_webview_built: self.toolbar_webview_built,
            window_created: self.window_created,
            rust_setup_done: self.rust_setup_done,
            toolbar_script_started: self.toolbar_script_started,
            toolbar_ready: self.toolbar_ready,
            first_load_finished: self.first_load_finished,
        }
    }
}

/// How long each step of starting took, from the start of the process.
#[derive(Debug, Clone, Copy, PartialEq, Eq, Structural)]
pub struct StartupReport {
    pub to_event_loop_built: Option<u128>,
    pub to_pre_window_setup_done: Option<u128>,
    pub to_native_window_built: Option<u128>,
    pub to_toolbar_webview_built: Option<u128>,
    pub to_window_created: u128,
    pub to_rust_setup_done: u128,
    pub to_toolbar_script_started: u128,
    pub to_toolbar_ready: u128,
    pub to_first_load_finished: u128,
}

/// The two steps of starting that are reached while a window is made.
#[derive(Debug, Clone, Copy, PartialEq, Eq, Structural)]
pub struct WindowBuildTimings {
    pub native_window_built: Option<u128>,
    pub toolbar_webview_built: Option<u128>,
}

impl Default for WindowBuildTimings {
    fn default() -> (r: Self)
        ensures
            r.native_window_built is None,
            r.toolbar_webview_built is None,
    {
        WindowBuildTimings { native_window_built: None, toolbar_webview_built: None }
    }
}

/// What is known of a step once it is reached at `now`: the first time counts.
pub open spec fn first_mark(mark: Option<u128>, now: u128) -> Option<u128> {
    match mark {
        Some(at) => Some(at),
        None => Some(now),
    }
}

fn keep_first(mark: Option<u128>, now: u128) -> (r: Option<u128>)
    ensures
        r == first_mark(mark, now),
{
    match mark {
        Some(at) => Some(at),
        None => Some(now),
    }
}

/// How long after `from` a point in time is; 0 if it is before it.
pub open spec fn time_since(at: u128, from: u128) -> u128 {
    if at > from {
        (at - from) as u128
    } else {
        0
    }
}

pub(crate) fn since(at: u128, from: u128) -> (r: u128)
    ensures
        r == time_since(at, from),
{
    if at > from {
        at - from
    } else {
        0
    }
}

/// How long after `from` a step was reached, if it was.
pub open spec fn opt_since(mark: Option<u128>, from: u128) -> Option<u128> {
    match mark {
        Some(at) => Some(time_since(at, from)),
        None => None,
    }
}

fn since_if(mark: Option<u128>, from: u128) -> (r: Option<u128>)
    ensures
        r == opt_since(mark, from),
{
    match mark {
        Some(at) => Some(since(at, from)),
        None => None,
    }
}

/// Whether the five steps that a report needs were reached.
pub open spec fn is_complete(s: StartupModel) -> bool {
    &&& s.window_created is Some
    &&& s.rust_setup_done is Some
    &&& s.toolbar_script_started is Some
    &&& s.toolbar_ready is Some
    &&& s.first_load_finished is Some
}

/// How long each step took, where the five that a report needs were reached.
pub open spec fn reported(s: StartupModel) -> StartupReport {
    StartupReport {
        to_event_loop_built: opt_since(s.event_loop_built, s.process_start),
        to_pre_window_setup_done: opt_since(s.pre_window_setup_done, s.process_start),
        to_native_window_built: opt_since(s.native_window_built, s.process_start),
        to_toolbar_webview_built: opt_since(s.toolbar_webview_built, s.process_start),
        to_window_created: time_since(s.window_created->0, s.process_start),
        to_rust_setup_done: time_since(s.rust_setup_done->0, s.process_start),
        to_toolbar_script_started: time_since(s.toolbar_script_started->0, s.process_start),
        to_toolbar_ready: time_since(s.toolbar_ready->0, s.process_start),
        to_first_load_finished: time_since(s.first_load_finished->0, s.process_start),
    }
}

impl StartupTimestamps {
    /// The process has started, and nothing else is reached.
    pub fn new(process_start: u128) -> (r: Self)
        ensures
            r@ == (StartupModel {
                process_start,
                event_loop_built: None,
                pre_window_setup_done: None,
                native_window_built: None,
                toolbar_webview_built: None,
                window_created: None,
                rust_setup_done: None,
                toolbar_script_started: None,
                toolbar_ready: None,
                first_load_finished: None,
            }),
    {
        StartupTimestamps {
            process_start,
            event_loop_built: None,
            pre_window_setup_done: None,
            native_window_built: None,
            toolbar_webview_built: None,
            window_created: None,
            rust_setup_done: None,
            toolbar_script_started: None,
            toolbar_ready: None,
            first_load_finished: None,
        }
    }

    /// There is an event loop. The first time counts.
    pub fn mark_event_loop_built(&mut self, now: u128)
        ensures
            final(self)@ == (StartupModel {
                event_loop_built: first_mark(old(self)@.event_loop_built, now),
                ..old(self)@
            }),
    {
        self.event_loop_built = keep_first(self.event_loop_built, now);
    }

    /// All that the first window needs is ready. The first time counts.
    pub fn mark_pre_window_setup_done(&mut self, now: u128)
        ensures
            final(self)@ == (StartupModel {
                pre_window_setup_done: first_mark(old(self)@.pre_window_setup_done, now),
                ..old(self)@
            }),
    {
        self.pre_window_setup_done = keep_first(self.pre_window_setup_done, now);
    }

    /// There is a window, with nothing in it. The first time counts.
    pub fn mark_native_window_built(&mut self, now: u128)
        ensures
            final(self)@ == (StartupModel {
                native_window_built: first_mark(old(self)@.native_window_built, now),
                ..old(self)@
            }),
    {
        self.native_window_built = keep_first(self.native_window_built, now);
    }

    /// The toolbar has its view. The first time counts.
    pub fn mark_toolbar_webview_built(&mut self, now: u128)
        ensures
            final(self)@ == (StartupModel {
                toolbar_webview_built: first_mark(old(self)@.toolbar_webview_built, now),
                ..old(self)@
            }),
    {
        self.toolbar_webview_built = keep_first(self.toolbar_webview_built, now);
    }

    /// The window is complete. The first time counts.
    pub fn mark_window_created(&mut self, now: u128)
        ensures
            final(self)@ == (StartupModel {
                window_created: first_mark(old(self)@.window_created, now),
                ..old(self)@
            }),
    {
        self.window_created = keep_first(self.window_created, now);
    }

    /// The event loop is about to run. The first time counts.
    pub fn mark_rust_setup_done(&mut self, now: u128)
        ensures
            final(self)@ == (StartupModel {
                rust_setup_done: first_mark(old(self)@.rust_setup_done, now),
                ..old(self)@
            }),
    {
        self.rust_setup_done = keep_first(self.rust_setup_done, now);
    }

    /// The toolbar's script runs. The first time counts.
    pub fn mark_toolbar_script_started(&mut self, now: u128)
        ensures
            final(self)@ == (StartupModel {
                toolbar_script_started: first_mark(old(self)@.toolbar_script_started, now),
                ..old(self)@
            }),
    {
        self.toolbar_script_started = keep_first(self.toolbar_script_started, now);
    }

    /// The toolbar says that it is ready. The first time counts.
    pub fn mark_toolbar_ready(&mut self, now: u128)
        ensures
            final(self)@ == (StartupModel {
                toolbar_ready: first_mark(old(self)@.toolbar_ready, now),
                ..old(self)@
            }),
    {
        self.toolbar_ready = keep_first(self.toolbar_ready, now);
    }

    /// A page has loaded. The first time counts.
    pub fn mark_first_load_finished(&mut self, now: u128)
        ensures
            final(self)@ == (StartupModel {
                first_load_finished: first_mark(old(self)@.first_load_finished, now),
                ..old(self)@
            }),
    {
        self.first_load_finished = keep_first(self.first_load_finished, now);
    }

    /// How long each step took, once the five that a report needs are reached, in
    /// whatever order. The four others are left out where they were not reached;
    /// they never hold a report back.
    pub fn report(&self) -> (r: Option<StartupReport>)
        ensures
            match r {
                Some(report) => is_complete(self@) && report == reported(self@),
                None => !is_complete(self@),
            },
    {
        let start: u128 = self.process_start;
        match (
            self.window_created,
            self.rust_setup_done,
            self.toolbar_script_started,
            self.toolbar_ready,
            self.first_load_finished,
        ) {
            (Some(window), Some(setup), Some(script), Some(toolbar), Some(page)) => Some(
                StartupReport {
                    to_event_loop_built: since_if(self.event_loop_built, start),
                    to_pre_window_setup_done: since_if(self.pre_window_setup_done, start),
                    to_native_window_built: since_if(self.native_window_built, start),
                    to_toolbar_webview_built: since_if(self.toolbar_webview_built, start),
                    to_window_created: since(window, start),
                    to_rust_setup_done: since(setup, start),
                    to_toolbar_script_started: since(script, start),
                    to_toolbar_ready: since(toolbar, start),
                    to_first_load_finished: since(page, start),
                },
            ),
            _ => None,
        }
    }
}

// ---------------------------------------------------------------------------
// Loading pages

/// Measures one page load at a time.
#[derive(Debug, Clone, Copy, PartialEq, Eq, Structural)]
pub struct PageLoadTimer {
    started_at: Option<u128>,
    load_started_at: Option<u128>,
}

/// What a [`PageLoadTimer`] stands for.
pub struct TimerModel {
    /// When the load began, while one goes on.
    pub started_at: Option<u128>,
    /// When the page began to arrive, if it has.
    pub load_started_at: Option<u128>,
}

impl View for PageLoadTimer {
    type V = TimerModel;

    closed spec fn view(&self) -> TimerModel {
        TimerModel { started_at: self.started_at, load_started_at: self.load_started_at }
    }
}

/// How long a page took to load.
#[derive(Debug, Clone, Copy, PartialEq, Eq, Structural)]
pub struct PageLoadOutcome {
    /// From the begin of the load to its end.
    pub total: u128,
    /// From when the page began to arrive to the end; `None` if it is not known
    /// when it did.
    pub engine: Option<u128>,
}

impl Default for PageLoadTimer {
    fn default() -> (r: Self)
        ensures
            r@ == (TimerModel { started_at: None, load_started_at: None }),
    {
        PageLoadTimer { started_at: None, load_started_at: None }
    }
}

impl PageLoadTimer {
    /// A timer while no page loads.
    pub fn new() -> (r: Self)
        ensures
            r@ == (TimerModel { started_at: None, load_started_at: None }),
    {
        Self::default()
    }

    /// A load begins. One that goes on is forgotten.
    pub fn start(&mut self, now: u128)
        ensures
            final(self)@ == (TimerModel { started_at: Some(now), load_started_at: None }),
    {
        self.started_at = Some(now);
        self.load_started_at = None;
    }

    /// The page begins to arrive. The first time in a load counts; without a load
    /// nothing happens.
    pub fn mark_load_started(&mut self, now: u128)
        ensures
            final(self)@ == (TimerModel {
                load_started_at: if old(self)@.started_at is Some {
                    first_mark(old(self)@.load_started_at, now)
                } else {
                    old(self)@.load_started_at
                },
                ..old(self)@
            }),
    {
        if self.started_at.is_some() {
            self.load_started_at = keep_first(self.load_started_at, now);
        }
    }

    /// The load ends. Gives how long it took; `None` without a load.
    pub fn finish(&mut self, now: u128) -> (r: Option<PageLoadOutcome>)
        ensures
            r == (match old(self)@.started_at {
                Some(start) => Some(
                    PageLoadOutcome {
                        total: time_since(now, start),
                        engine: match old(self)@.load_started_at {
                            Some(at) => Some(time_since(now, at)),
                            None => None,
                        },
                    },
                ),
                None => None,
            }),
            final(self)@ == (if old(self)@.started_at is Some {
                TimerModel { started_at: None, load_started_at: None }
            } else {
                old(self)@
            }),
    {
        match self.started_at {
            Some(start) => {
                let engine: Option<u128> = match self.load_started_at {
                    Some(at) => Some(since(now, at)),
                    None => None,
                };
                self.started_at = None;
                self.load_started_at = None;
                Some(PageLoadOutcome { total: since(now, start), engine })
            },
            None => None,
        }
    }
}

impl PageLoadOutcome {
    /// From the begin of the load to when the page began to arrive; `None` if it
    /// is not known when it did.
    pub fn dispatch(&self) -> (r: Option<u128>)
        ensures
            r == (match self.engine {
                Some(engine) => Some(time_since(self.total, engine)),
                None => None,
            }),
    {
        match self.engine {
            Some(engine) => Some(since(self.total, engine)),
            None => None,
        }
    }
}

// ---------------------------------------------------------------------------
// Logging

/// How the log is written.
#[derive(Debug, Clone, Copy, PartialEq, Eq, Structural)]
pub enum PerfFormat {
    /// Lines for readers.
    Text,
    /// A JSON object in each line.
    Json,
}

impl Default for PerfFormat {
    fn default() -> (r: Self)
        ensures
            r == PerfFormat::Text,
    {
        PerfFormat::Text
    }
}

impl PerfFormat {
    /// Which format a text names, whatever the case and the white space around it:
    /// text unless it is `json`.
    pub fn parse(raw: Option<&str>) -> (r: Self)
        ensures
            r == (match ranking::opt_view(raw) {
                Some(value) => if text::ascii_lower(text::trimmed(value)) == "json"@ {
                    PerfFormat::Json
                } else {
                    PerfFormat::Text
                },
                None => PerfFormat::Text,
            }),
    {
        match raw {
            Some(value) => {
                let lower = to_ascii_lower(&chars_of(trim(value)));
                if is_text(&lower, "json") {
                    PerfFormat::Json
                } else {
                    PerfFormat::Text
                }
            },
            None => PerfFormat::Text,
        }
    }
}

// ---------------------------------------------------------------------------
// Laws

/// The steps before the window never hold a report back: whether there is one does
/// not depend on them, nor does what it says of the other steps.
pub proof fn details_hold_no_report_back(a: StartupModel, b: StartupModel)
    requires
        b == (StartupModel {
            event_loop_built: b.event_loop_built,
            pre_window_setup_done: b.pre_window_setup_done,
            native_window_built: b.native_window_built,
            toolbar_webview_built: b.toolbar_webview_built,
            ..a
        }),
    ensures
        is_complete(a) == is_complete(b),
        reported(b) == (StartupReport {
            to_event_loop_built: reported(b).to_event_loop_built,
            to_pre_window_setup_done: reported(b).to_pre_window_setup_done,
            to_native_window_built: reported(b).to_native_window_built,
            to_toolbar_webview_built: reported(b).to_toolbar_webview_built,
            ..reported(a)
        }),
{
}

/// The first mark of a step counts, whatever comes later.
pub proof fn later_marks_change_nothing(mark: Option<u128>, now: u128, later: u128)
    ensures
        first_mark(first_mark(mark, now), later) == first_mark(mark, now),
{
}

/// Where the page began to arrive after the load began, the two parts of a load add
/// up to the whole.
pub proof fn a_load_is_the_sum_of_its_parts(start: u128, arrival: u128, end: u128)
    requires
        start <= arrival <= end,
    ensures
        ({
            let total = time_since(end, start);
            let engine = time_since(end, arrival);
            time_since(total, engine) + engine == total
        }),
{
}

/// A report says of each step how long after the start of the process it was reached,
/// and of none anything else; a step that was not reached is left out.
pub proof fn a_report_tells_each_step_apart(s: StartupModel, d: Seq<u128>)
    requires
        d.len() == 9,
        forall|i: int| 0 <= i < 9 ==> s.process_start + #[trigger] d[i] <= u128::MAX,
        s.event_loop_built == Some((s.process_start + d[0]) as u128),
        s.pre_window_setup_done == Some((s.process_start + d[1]) as u128),
        s.native_window_built == Some((s.process_start + d[2]) as u128),
        s.toolbar_webview_built == Some((s.process_start + d[3]) as u128),
        s.window_created == Some((s.process_start + d[4]) as u128),
        s.rust_setup_done == Some((s.process_start + d[5]) as u128),
        s.toolbar_script_started == Some((s.process_start + d[6]) as u128),
        s.toolbar_ready == Some((s.process_start + d[7]) as u128),
        s.first_load_finished == Some((s.process_start + d[8]) as u128),
    ensures
        reported(s).to_event_loop_built == Some(d[0]),
        reported(s).to_pre_window_setup_done == Some(d[1]),
        reported(s).to_native_window_built == Some(d[2]),
        reported(s).to_toolbar_webview_built == Some(d[3]),
        reported(s).to_window_created == d[4],
        reported(s).to_rust_setup_done == d[5],
        reported(s).to_toolbar_script_started == d[6],
        reported(s).to_toolbar_ready == d[7],
        reported(s).to_first_load_finished == d[8],
        reported(StartupModel { event_loop_built: None, ..s }).to_event_loop_built is None,
        reported(StartupModel { pre_window_setup_done: None, ..s }).to_pre_window_setup_done is None,
        reported(StartupModel { native_window_built: None, ..s }).to_native_window_built is None,
        reported(StartupModel { toolbar_webview_built: None, ..s }).to_toolbar_webview_built is None,
        is_complete(s),
        !is_complete(StartupModel { window_created: None, ..s }),
        !is_complete(StartupModel { rust_setup_done: None, ..s }),
        !is_complete(StartupModel { toolbar_script_started: None, ..s }),
        !is_complete(StartupModel { toolbar_ready: None, ..s }),
        !is_complete(StartupModel { first_load_finished: None, ..s }),
{
}

/// A first mark is when a step was first reached, and a point in time before another
/// is no time after it.
pub proof fn the_first_mark_is_kept(at: u128, now: u128, later: u128)
    ensures
        first_mark(None, now) == Some(now),
        first_mark(Some(at), now) == Some(at),
        now <= later ==> now + time_since(later, now) == later,
        now >= later ==> time_since(later, now) == 0,
        opt_since(Some(later), now) == Some(time_since(later, now)),
        opt_since(None, now) is None,
{
}

} // verus!
