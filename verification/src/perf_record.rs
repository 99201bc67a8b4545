//! What is logged of the browser's performance: one record for each event, as a
//! line of text or as the members of a JSON object. Both are lists of parts, of
//! which those that need arithmetic on fractions are kept as numbers.

use vstd::prelude::*;
use vstd::string::*;

use crate::metric_key::{self, MetricKey};
use crate::metrics::{self, since, StartupReport};
use crate::process_tree::RssSample;
use crate::text::{self, decimal_of};

verus! {

/// What every line of text in the log starts with.
pub const LOG_PREFIX: &'static str = "velox[perf] ";

/// What was done with a tab.
#[derive(Debug, Clone, Copy, PartialEq, Eq, Structural)]
pub enum TabLatencyKind {
    Create,
    /// Shown, where its page was still there.
    Switch,
    /// Shown, where its page had to be made again.
    Resume,
}

impl TabLatencyKind {
    /// The name of the event.
    pub open spec fn name(self) -> Seq<char> {
        match self {
            TabLatencyKind::Create => "tab_create"@,
            TabLatencyKind::Switch => "tab_switch"@,
            TabLatencyKind::Resume => "tab_resume"@,
        }
    }

    /// The name of the event.
    pub fn event_name(self) -> (r: &'static str)
        ensures
            r@ == self.name(),
    {
        match self {
            TabLatencyKind::Create => "tab_create",
            TabLatencyKind::Switch => "tab_switch",
            TabLatencyKind::Resume => "tab_resume",
        }
    }
}

/// Which way a message between the toolbar and the rest goes.
#[derive(Debug, Clone, Copy, PartialEq, Eq, Structural)]
pub enum IpcDirection {
    /// From the toolbar.
    In,
    /// To the toolbar.
    Out,
}

impl IpcDirection {
    /// The direction as a word.
    pub open spec fn name(self) -> Seq<char> {
        match self {
            IpcDirection::In => "in"@,
            IpcDirection::Out => "out"@,
        }
    }

    /// The direction as a word.
    pub fn as_str(self) -> (r: &'static str)
        ensures
            r@ == self.name(),
    {
        match self {
            IpcDirection::In => "in",
            IpcDirection::Out => "out",
        }
    }
}

/// Which file was written.
#[derive(Debug, Clone, Copy, PartialEq, Eq, Structural)]
pub enum StateWriteKind {
    Session,
    History,
    Bookmarks,
    InputHistory,
}

impl StateWriteKind {
    /// The file's name without its extension.
    pub open spec fn name(self) -> Seq<char> {
        match self {
            StateWriteKind::Session => "session"@,
            StateWriteKind::History => "history"@,
            StateWriteKind::Bookmarks => "bookmarks"@,
            StateWriteKind::InputHistory => "input_history"@,
        }
    }

    /// The file's name without its extension.
    pub fn as_str(self) -> (r: &'static str)
        ensures
            r@ == self.name(),
    {
        match self {
            StateWriteKind::Session => "session",
            StateWriteKind::History => "history",
            StateWriteKind::Bookmarks => "bookmarks",
            StateWriteKind::InputHistory => "input_history",
        }
    }
}

/// Why a tab was put to sleep.
#[derive(Debug, Clone, Copy, PartialEq, Eq, Structural)]
pub enum SuspendReason {
    /// It was not used for long.
    Idle,
    /// Memory was short.
    Memory,
    /// There were many tabs.
    TabCount,
}

impl SuspendReason {
    /// The reason as a word.
    pub open spec fn name(self) -> Seq<char> {
        match self {
            SuspendReason::Idle => "idle"@,
            SuspendReason::Memory => "memory"@,
            SuspendReason::TabCount => "tab_count"@,
        }
    }

    /// The reason as a word.
    pub fn as_str(self) -> (r: &'static str)
        ensures
            r@ == self.name(),
    {
        match self {
            SuspendReason::Idle => "idle",
            SuspendReason::Memory => "memory",
            SuspendReason::TabCount => "tab_count",
        }
    }
}

/// One event. Lengths of time are in nanoseconds.
#[derive(Debug, Clone, PartialEq, Eq)]
pub enum PerfRecord {
    /// The browser has started.
    Startup(StartupReport),
    /// A page has loaded.
    PageLoad {
        url: String,
        duration: u128,
        /// From when the page began to arrive; `None` if it is not known when it
        /// did.
        engine: Option<u128>,
    },
    /// Something was done with a tab.
    TabLatency { kind: TabLatencyKind, tab_id: u64, duration: u128 },
    /// What comes before this event does not count.
    MeasureStart,
    /// A tab was put to sleep.
    TabSuspend { tab_id: u64, reason: SuspendReason },
    /// What the browser's processes use.
    Rss(RssSample),
    /// The processor time that they have used within a length of time.
    Cpu { used: u128, wall: u128 },
    /// A message between the toolbar and the rest.
    Ipc { direction: IpcDirection, name: String, bytes: u64, duration: u128 },
    /// A file was written.
    StateWrite { kind: StateWriteKind, duration: u128 },
}

/// What a [`PerfRecord`] stands for.
pub enum RecordModel {
    Startup(StartupReport),
    PageLoad { url: Seq<char>, duration: u128, engine: Option<u128> },
    TabLatency { kind: TabLatencyKind, tab_id: u64, duration: u128 },
    MeasureStart,
    TabSuspend { tab_id: u64, reason: SuspendReason },
    Rss(RssSample),
    Cpu { used: u128, wall: u128 },
    Ipc { direction: IpcDirection, name: Seq<char>, bytes: u64, duration: u128 },
    StateWrite { kind: StateWriteKind, duration: u128 },
}

impl View for PerfRecord {
    type V = RecordModel;

    open spec fn view(&self) -> RecordModel {
        match self {
            PerfRecord::Startup(report) => RecordModel::Startup(*report),
            PerfRecord::PageLoad { url, duration, engine } => RecordModel::PageLoad {
                url: url@,
                duration: *duration,
                engine: *engine,
            },
            PerfRecord::TabLatency { kind, tab_id, duration } => RecordModel::TabLatency {
                kind: *kind,
                tab_id: *tab_id,
                duration: *duration,
            },
            PerfRecord::MeasureStart => RecordModel::MeasureStart,
            PerfRecord::TabSuspend { tab_id, reason } => RecordModel::TabSuspend {
                tab_id: *tab_id,
                reason: *reason,
            },
            PerfRecord::Rss(sample) => RecordModel::Rss(*sample),
            PerfRecord::Cpu { used, wall } => RecordModel::Cpu { used: *used, wall: *wall },
            PerfRecord::Ipc { direction, name, bytes, duration } => RecordModel::Ipc {
                direction: *direction,
                name: name@,
                bytes: *bytes,
                duration: *duration,
            },
            PerfRecord::StateWrite { kind, duration } => RecordModel::StateWrite {
                kind: *kind,
                duration: *duration,
            },
        }
    }
}

/// A part of a line.
#[derive(Debug, Clone, PartialEq, Eq)]
pub enum TextPart {
    Text(String),
    /// Nanoseconds, to be written as milliseconds with one decimal place and `ms`.
    Millis(u128),
    /// Bytes, to be written as mebibytes with one decimal place.
    Mebibytes(u64),
    /// Nanoseconds, to be written as seconds with two decimal places.
    Seconds(u128),
    /// A share of a length of time, to be written as a percentage with one decimal
    /// place.
    Percent { used: u128, wall: u128 },
}

/// What a [`TextPart`] stands for.
pub enum PartModel {
    Text(Seq<char>),
    Millis(u128),
    Mebibytes(u64),
    Seconds(u128),
    Percent { used: u128, wall: u128 },
}

impl View for TextPart {
    type V = PartModel;

    open spec fn view(&self) -> PartModel {
        match self {
            TextPart::Text(t) => PartModel::Text(t@),
            TextPart::Millis(n) => PartModel::Millis(*n),
            TextPart::Mebibytes(n) => PartModel::Mebibytes(*n),
            TextPart::Seconds(n) => PartModel::Seconds(*n),
            TextPart::Percent { used, wall } => PartModel::Percent { used: *used, wall: *wall },
        }
    }
}

/// What parts stand for.
pub open spec fn part_models(parts: Seq<TextPart>) -> Seq<PartModel> {
    parts.map_values(|p: TextPart| p@)
}

/// The value of a member of a JSON object.
#[derive(Debug, Clone, PartialEq, Eq)]
pub enum FieldValue {
    Null,
    Text(String),
    Number(u64),
    /// Nanoseconds, to be written as milliseconds, rounded to one decimal place.
    Millis(u128),
    /// Nanoseconds, to be written as seconds.
    Seconds(u128),
    /// A share of a length of time, to be written as a percentage.
    Percent { used: u128, wall: u128 },
}

/// What a [`FieldValue`] stands for.
pub enum ValueModel {
    Null,
    Text(Seq<char>),
    Number(u64),
    Millis(u128),
    Seconds(u128),
    Percent { used: u128, wall: u128 },
}

impl View for FieldValue {
    type V = ValueModel;

    open spec fn view(&self) -> ValueModel {
        match self {
            FieldValue::Null => ValueModel::Null,
            FieldValue::Text(t) => ValueModel::Text(t@),
            FieldValue::Number(n) => ValueModel::Number(*n),
            FieldValue::Millis(n) => ValueModel::Millis(*n),
            FieldValue::Seconds(n) => ValueModel::Seconds(*n),
            FieldValue::Percent { used, wall } => ValueModel::Percent {
                used: *used,
                wall: *wall,
            },
        }
    }
}

/// What members stand for.
pub open spec fn field_models(fields: Seq<(&'static str, FieldValue)>) -> Seq<
    (Seq<char>, ValueModel),
> {
    fields.map_values(|f: (&'static str, FieldValue)| (f.0@, f.1@))
}

// ---------------------------------------------------------------------------
// What records say

/// The name of a record's event.
pub open spec fn event_of(record: RecordModel) -> Seq<char> {
    match record {
        RecordModel::Startup(_) => "startup"@,
        RecordModel::PageLoad { .. } => "page_load"@,
        RecordModel::TabLatency { kind, .. } => kind.name(),
        RecordModel::TabSuspend { .. } => "tab_suspend"@,
        RecordModel::MeasureStart => "measure_start"@,
        RecordModel::Cpu { .. } => "cpu"@,
        RecordModel::Rss(_) => "rss"@,
        RecordModel::Ipc { .. } => "ipc"@,
        RecordModel::StateWrite { .. } => "state_write"@,
    }
}

/// A length of time that may not be known, in a line.
pub open spec fn opt_part(nanos: Option<u128>) -> PartModel {
    match nanos {
        Some(n) => PartModel::Millis(n),
        None => PartModel::Text("-"@),
    }
}

/// A length of time that may not be known, in an object: the member is there in
/// any case.
pub open spec fn opt_value(nanos: Option<u128>) -> ValueModel {
    match nanos {
        Some(n) => ValueModel::Millis(n),
        None => ValueModel::Null,
    }
}

/// The line for a start.
pub open spec fn startup_line(r: StartupReport) -> Seq<PartModel> {
    seq![
        PartModel::Text("startup event_loop="@),
        opt_part(r.to_event_loop_built),
        PartModel::Text(" pre_window_setup="@),
        opt_part(r.to_pre_window_setup_done),
        PartModel::Text(" native_window="@),
        opt_part(r.to_native_window_built),
        PartModel::Text(" toolbar_webview="@),
        opt_part(r.to_toolbar_webview_built),
        PartModel::Text(" window_created="@),
        PartModel::Millis(r.to_window_created),
        PartModel::Text(" rust_setup_done="@),
        PartModel::Millis(r.to_rust_setup_done),
        PartModel::Text(" toolbar_script_started="@),
        PartModel::Millis(r.to_toolbar_script_started),
        PartModel::Text(" toolbar_ready="@),
        PartModel::Millis(r.to_toolbar_ready),
        PartModel::Text(" first_page="@),
        PartModel::Millis(r.to_first_load_finished),
    ]
}

/// The line for a page load of which only the whole is known.
pub open spec fn page_load_line(url: Seq<char>, duration: u128) -> Seq<PartModel> {
    seq![
        PartModel::Text("page_load url="@ + url + " duration="@),
        PartModel::Millis(duration),
    ]
}

/// The line for what processes use.
pub open spec fn rss_line(s: RssSample) -> Seq<PartModel> {
    seq![
        PartModel::Text(
            "rss pid="@ + text::decimal(s.root_pid as nat) + " processes="@ + text::decimal(
                s.process_count as nat,
            ) + " total_mib="@,
        ),
        PartModel::Mebibytes(s.total_rss_bytes),
        PartModel::Text(
            " pss_processes="@ + text::decimal(s.pss_process_count as nat) + "/"@ + text::decimal(
                s.process_count as nat,
            ) + " pss_mib="@,
        ),
        match s.total_pss_bytes {
            Some(bytes) => PartModel::Mebibytes(bytes),
            None => PartModel::Text("n/a"@),
        },
        PartModel::Text(" cpu_s="@),
        match s.total_cpu_nanos {
            Some(nanos) => PartModel::Seconds(nanos),
            None => PartModel::Text("n/a"@),
        },
    ]
}

/// The line for a record.
pub open spec fn line_of(record: RecordModel) -> Seq<PartModel> {
    match record {
        RecordModel::Startup(report) => startup_line(report),
        RecordModel::PageLoad { url, duration, engine } => match engine {
            Some(engine) => page_load_line(url, duration) + seq![
                PartModel::Text(" engine_duration="@),
                PartModel::Millis(engine),
                PartModel::Text(" dispatch_duration="@),
                PartModel::Millis(metrics::time_since(duration, engine)),
            ],
            None => page_load_line(url, duration),
        },
        RecordModel::TabLatency { kind, tab_id, duration } => seq![
            PartModel::Text(kind.name() + " id="@ + text::decimal(tab_id as nat) + " duration="@),
            PartModel::Millis(duration),
        ],
        RecordModel::TabSuspend { tab_id, reason } => seq![
            PartModel::Text(
                "tab_suspend id="@ + text::decimal(tab_id as nat) + " reason="@ + reason.name(),
            ),
        ],
        RecordModel::MeasureStart => seq![PartModel::Text("measure_start"@)],
        RecordModel::Cpu { used, wall } => seq![
            PartModel::Text("cpu percent="@),
            PartModel::Percent { used, wall },
        ],
        RecordModel::Rss(sample) => rss_line(sample),
        RecordModel::Ipc { direction, name, bytes, duration } => seq![
            PartModel::Text(
                "ipc dir="@ + direction.name() + " name="@ + name + " bytes="@ + text::decimal(
                    bytes as nat,
                ) + " duration="@,
            ),
            PartModel::Millis(duration),
        ],
        RecordModel::StateWrite { kind, duration } => seq![
            PartModel::Text("state_write name="@ + kind.name() + " duration="@),
            PartModel::Millis(duration),
        ],
    }
}

/// The members of a record's own.
pub open spec fn own_fields(record: RecordModel) -> Seq<(Seq<char>, ValueModel)> {
    match record {
        RecordModel::Startup(r) => seq![
            ("event_loop_ms"@, opt_value(r.to_event_loop_built)),
            ("pre_window_setup_ms"@, opt_value(r.to_pre_window_setup_done)),
            ("native_window_ms"@, opt_value(r.to_native_window_built)),
            ("toolbar_webview_ms"@, opt_value(r.to_toolbar_webview_built)),
            ("window_created_ms"@, ValueModel::Millis(r.to_window_created)),
            ("rust_setup_done_ms"@, ValueModel::Millis(r.to_rust_setup_done)),
            ("toolbar_script_started_ms"@, ValueModel::Millis(r.to_toolbar_script_started)),
            ("toolbar_ready_ms"@, ValueModel::Millis(r.to_toolbar_ready)),
            ("first_load_ms"@, ValueModel::Millis(r.to_first_load_finished)),
        ],
        RecordModel::PageLoad { url, duration, engine } => seq![
            ("url"@, ValueModel::Text(url)),
            ("duration_ms"@, ValueModel::Millis(duration)),
            ("engine_duration_ms"@, opt_value(engine)),
            (
                "dispatch_duration_ms"@,
                match engine {
                    Some(engine) => ValueModel::Millis(metrics::time_since(duration, engine)),
                    None => ValueModel::Null,
                },
            ),
        ],
        RecordModel::TabLatency { tab_id, duration, .. } => seq![
            ("tab_id"@, ValueModel::Number(tab_id)),
            ("duration_ms"@, ValueModel::Millis(duration)),
        ],
        RecordModel::TabSuspend { tab_id, reason } => seq![
            ("tab_id"@, ValueModel::Number(tab_id)),
            ("reason"@, ValueModel::Text(reason.name())),
        ],
        RecordModel::MeasureStart => Seq::empty(),
        RecordModel::Cpu { used, wall } => seq![("percent"@, ValueModel::Percent { used, wall })],
        RecordModel::Rss(s) => seq![
            ("pid"@, ValueModel::Number(s.root_pid as u64)),
            ("process_count"@, ValueModel::Number(s.process_count as u64)),
            ("total_rss_bytes"@, ValueModel::Number(s.total_rss_bytes)),
            (
                "total_pss_bytes"@,
                match s.total_pss_bytes {
                    Some(bytes) => ValueModel::Number(bytes),
                    None => ValueModel::Null,
                },
            ),
            ("pss_process_count"@, ValueModel::Number(s.pss_process_count as u64)),
            (
                "total_cpu_seconds"@,
                match s.total_cpu_nanos {
                    Some(nanos) => ValueModel::Seconds(nanos),
                    None => ValueModel::Null,
                },
            ),
        ],
        RecordModel::Ipc { direction, name, bytes, duration } => seq![
            ("direction"@, ValueModel::Text(direction.name())),
            ("name"@, ValueModel::Text(name)),
            ("bytes"@, ValueModel::Number(bytes)),
            ("duration_ms"@, ValueModel::Millis(duration)),
        ],
        RecordModel::StateWrite { kind, duration } => seq![
            ("name"@, ValueModel::Text(kind.name())),
            ("duration_ms"@, ValueModel::Millis(duration)),
        ],
    }
}

/// All members of a record's object: which event it is and when, since the start of
/// the process, and those of its own.
pub open spec fn fields_of(record: RecordModel, elapsed: u128) -> Seq<(Seq<char>, ValueModel)> {
    seq![
        ("event"@, ValueModel::Text(event_of(record))),
        ("ts_ms"@, ValueModel::Millis(elapsed)),
    ] + own_fields(record)
}

// ---------------------------------------------------------------------------
// Building records

fn text_part(t: &str) -> (r: TextPart)
    ensures
        r@ == PartModel::Text(t@),
{
    TextPart::Text(t.to_owned())
}

fn opt_millis(nanos: Option<u128>) -> (r: TextPart)
    ensures
        r@ == opt_part(nanos),
{
    match nanos {
        Some(n) => TextPart::Millis(n),
        None => text_part("-"),
    }
}

fn opt_field(nanos: Option<u128>) -> (r: FieldValue)
    ensures
        r@ == opt_value(nanos),
{
    match nanos {
        Some(n) => FieldValue::Millis(n),
        None => FieldValue::Null,
    }
}

fn text_field(t: &str) -> (r: FieldValue)
    ensures
        r@ == ValueModel::Text(t@),
{
    FieldValue::Text(t.to_owned())
}

/// The line for a start.
pub fn format_startup(r: &StartupReport) -> (parts: Vec<TextPart>)
    ensures
        part_models(parts@) == startup_line(*r),
{
    let mut parts: Vec<TextPart> = Vec::new();
    parts.push(text_part("startup event_loop="));
    parts.push(opt_millis(r.to_event_loop_built));
    parts.push(text_part(" pre_window_setup="));
    parts.push(opt_millis(r.to_pre_window_setup_done));
    parts.push(text_part(" native_window="));
    parts.push(opt_millis(r.to_native_window_built));
    parts.push(text_part(" toolbar_webview="));
    parts.push(opt_millis(r.to_toolbar_webview_built));
    parts.push(text_part(" window_created="));
    parts.push(TextPart::Millis(r.to_window_created));
    parts.push(text_part(" rust_setup_done="));
    parts.push(TextPart::Millis(r.to_rust_setup_done));
    parts.push(text_part(" toolbar_script_started="));
    parts.push(TextPart::Millis(r.to_toolbar_script_started));
    parts.push(text_part(" toolbar_ready="));
    parts.push(TextPart::Millis(r.to_toolbar_ready));
    parts.push(text_part(" first_page="));
    parts.push(TextPart::Millis(r.to_first_load_finished));
    assert(part_models(parts@) =~= startup_line(*r));
    parts
}

/// The line for a page load.
pub fn format_page_load(url: &str, duration: u128) -> (parts: Vec<TextPart>)
    ensures
        part_models(parts@) == page_load_line(url@, duration),
{
    let mut start = "page_load url=".to_owned();
    start.append(url);
    start.append(" duration=");
    let mut parts: Vec<TextPart> = Vec::new();
    parts.push(TextPart::Text(start));
    parts.push(TextPart::Millis(duration));
    assert(part_models(parts@) =~= page_load_line(url@, duration));
    parts
}

/// The line for what processes use.
pub fn format_rss(s: &RssSample) -> (parts: Vec<TextPart>)
    ensures
        part_models(parts@) == rss_line(*s),
{
    let mut start = "rss pid=".to_owned();
    start.append(&decimal_of(s.root_pid as u128));
    start.append(" processes=");
    start.append(&decimal_of(s.process_count as u128));
    start.append(" total_mib=");
    let mut shares = " pss_processes=".to_owned();
    shares.append(&decimal_of(s.pss_process_count as u128));
    shares.append("/");
    shares.append(&decimal_of(s.process_count as u128));
    shares.append(" pss_mib=");
    let mut parts: Vec<TextPart> = Vec::new();
    parts.push(TextPart::Text(start));
    parts.push(TextPart::Mebibytes(s.total_rss_bytes));
    parts.push(TextPart::Text(shares));
    parts.push(
        match s.total_pss_bytes {
            Some(bytes) => TextPart::Mebibytes(bytes),
            None => text_part("n/a"),
        },
    );
    parts.push(text_part(" cpu_s="));
    parts.push(
        match s.total_cpu_nanos {
            Some(nanos) => TextPart::Seconds(nanos),
            None => text_part("n/a"),
        },
    );
    assert(part_models(parts@) =~= rss_line(*s));
    parts
}

impl PerfRecord {
    /// The browser has started.
    pub fn startup(report: StartupReport) -> (r: Self)
        ensures
            r@ == RecordModel::Startup(report),
    {
        PerfRecord::Startup(report)
    }

    /// A page has loaded.
    pub fn page_load(url: String, duration: u128, engine: Option<u128>) -> (r: Self)
        ensures
            r@ == (RecordModel::PageLoad { url: url@, duration, engine }),
    {
        PerfRecord::PageLoad { url, duration, engine }
    }

    /// Something was done with a tab.
    pub fn tab_latency(kind: TabLatencyKind, tab_id: u64, duration: u128) -> (r: Self)
        ensures
            r@ == (RecordModel::TabLatency { kind, tab_id, duration }),
    {
        PerfRecord::TabLatency { kind, tab_id, duration }
    }

    /// What the browser's processes use.
    pub fn rss(sample: RssSample) -> (r: Self)
        ensures
            r@ == RecordModel::Rss(sample),
    {
        PerfRecord::Rss(sample)
    }

    /// The processor time that they have used within a length of time.
    pub fn cpu(used: u128, wall: u128) -> (r: Self)
        ensures
            r@ == (RecordModel::Cpu { used, wall }),
    {
        PerfRecord::Cpu { used, wall }
    }

    /// A tab was put to sleep.
    pub fn tab_suspend(tab_id: u64, reason: SuspendReason) -> (r: Self)
        ensures
            r@ == (RecordModel::TabSuspend { tab_id, reason }),
    {
        PerfRecord::TabSuspend { tab_id, reason }
    }

    /// What comes before does not count.
    pub fn measure_start() -> (r: Self)
        ensures
            r@ == RecordModel::MeasureStart,
    {
        PerfRecord::MeasureStart
    }

    /// A message between the toolbar and the rest.
    pub fn ipc(direction: IpcDirection, name: String, bytes: usize, duration: u128) -> (r: Self)
        ensures
            r@ == (RecordModel::Ipc { direction, name: name@, bytes: bytes as u64, duration }),
    {
        PerfRecord::Ipc { direction, name, bytes: bytes as u64, duration }
    }

    /// A file was written.
    pub fn state_write(kind: StateWriteKind, duration: u128) -> (r: Self)
        ensures
            r@ == (RecordModel::StateWrite { kind, duration }),
    {
        PerfRecord::StateWrite { kind, duration }
    }

    /// The name of the event.
    pub fn event_name(&self) -> (r: &'static str)
        ensures
            r@ == event_of(self@),
    {
        match self {
            PerfRecord::Startup(_) => "startup",
            PerfRecord::PageLoad { .. } => "page_load",
            PerfRecord::TabLatency { kind, .. } => kind.event_name(),
            PerfRecord::TabSuspend { .. } => "tab_suspend",
            PerfRecord::MeasureStart => "measure_start",
            PerfRecord::Cpu { .. } => "cpu",
            PerfRecord::Rss(_) => "rss",
            PerfRecord::Ipc { .. } => "ipc",
            PerfRecord::StateWrite { .. } => "state_write",
        }
    }

    /// The line for the record.
    pub fn to_text(&self) -> (parts: Vec<TextPart>)
        ensures
            part_models(parts@) == line_of(self@),
    {
        let mut parts: Vec<TextPart> = Vec::new();
        match self {
            PerfRecord::Startup(report) => {
                return format_startup(report);
            },
            PerfRecord::PageLoad { url, duration, engine } => {
                parts = format_page_load(url, *duration);
                if let Some(engine) = engine {
                    parts.push(text_part(" engine_duration="));
                    parts.push(TextPart::Millis(*engine));
                    parts.push(text_part(" dispatch_duration="));
                    parts.push(TextPart::Millis(since(*duration, *engine)));
                }
            },
            PerfRecord::TabLatency { kind, tab_id, duration } => {
                let mut start = kind.event_name().to_owned();
                start.append(" id=");
                start.append(&decimal_of(*tab_id as u128));
                start.append(" duration=");
                parts.push(TextPart::Text(start));
                parts.push(TextPart::Millis(*duration));
            },
            PerfRecord::TabSuspend { tab_id, reason } => {
                let mut line = "tab_suspend id=".to_owned();
                line.append(&decimal_of(*tab_id as u128));
                line.append(" reason=");
                line.append(reason.as_str());
                parts.push(TextPart::Text(line));
            },
            PerfRecord::MeasureStart => {
                parts.push(text_part("measure_start"));
            },
            PerfRecord::Cpu { used, wall } => {
                parts.push(text_part("cpu percent="));
                parts.push(TextPart::Percent { used: *used, wall: *wall });
            },
            PerfRecord::Rss(sample) => {
                return format_rss(sample);
            },
            PerfRecord::Ipc { direction, name, bytes, duration } => {
                let mut start = "ipc dir=".to_owned();
                start.append(direction.as_str());
                start.append(" name=");
                start.append(name);
                start.append(" bytes=");
                start.append(&decimal_of(*bytes as u128));
                start.append(" duration=");
                parts.push(TextPart::Text(start));
                parts.push(TextPart::Millis(*duration));
            },
            PerfRecord::StateWrite { kind, duration } => {
                let mut start = "state_write name=".to_owned();
                start.append(kind.as_str());
                start.append(" duration=");
                parts.push(TextPart::Text(start));
                parts.push(TextPart::Millis(*duration));
            },
        }
        assert(part_models(parts@) =~= line_of(self@));
        parts
    }

    /// The members of the record's object, `elapsed` after the start of the
    /// process. A member whose value is not known is there all the same.
    pub fn to_fields(&self, elapsed: u128) -> (fields: Vec<(&'static str, FieldValue)>)
        ensures
            field_models(fields@) == fields_of(self@, elapsed),
    {
        let mut fields: Vec<(&'static str, FieldValue)> = Vec::new();
        fields.push(("event", text_field(self.event_name())));
        fields.push(("ts_ms", FieldValue::Millis(elapsed)));
        match self {
            PerfRecord::Startup(r) => {
                fields.push(("event_loop_ms", opt_field(r.to_event_loop_built)));
                fields.push(("pre_window_setup_ms", opt_field(r.to_pre_window_setup_done)));
                fields.push(("native_window_ms", opt_field(r.to_native_window_built)));
                fields.push(("toolbar_webview_ms", opt_field(r.to_toolbar_webview_built)));
                fields.push(("window_created_ms", FieldValue::Millis(r.to_window_created)));
                fields.push(("rust_setup_done_ms", FieldValue::Millis(r.to_rust_setup_done)));
                fields.push(
                    ("toolbar_script_started_ms", FieldValue::Millis(r.to_toolbar_script_started)),
                );
                fields.push(("toolbar_ready_ms", FieldValue::Millis(r.to_toolbar_ready)));
                fields.push(("first_load_ms", FieldValue::Millis(r.to_first_load_finished)));
            },
            PerfRecord::PageLoad { url, duration, engine } => {
                fields.push(("url", text_field(url)));
                fields.push(("duration_ms", FieldValue::Millis(*duration)));
                fields.push(("engine_duration_ms", opt_field(*engine)));
                fields.push(
                    (
                        "dispatch_duration_ms",
                        match engine {
                            Some(engine) => FieldValue::Millis(since(*duration, *engine)),
                            None => FieldValue::Null,
                        },
                    ),
                );
            },
            PerfRecord::TabLatency { tab_id, duration, .. } => {
                fields.push(("tab_id", FieldValue::Number(*tab_id)));
                fields.push(("duration_ms", FieldValue::Millis(*duration)));
            },
            PerfRecord::TabSuspend { tab_id, reason } => {
                fields.push(("tab_id", FieldValue::Number(*tab_id)));
                fields.push(("reason", text_field(reason.as_str())));
            },
            PerfRecord::MeasureStart => {},
            PerfRecord::Cpu { used, wall } => {
                fields.push(("percent", FieldValue::Percent { used: *used, wall: *wall }));
            },
            PerfRecord::Rss(s) => {
                fields.push(("pid", FieldValue::Number(s.root_pid as u64)));
                fields.push(("process_count", FieldValue::Number(s.process_count as u64)));
                fields.push(("total_rss_bytes", FieldValue::Number(s.total_rss_bytes)));
                fields.push(
                    (
                        "total_pss_bytes",
                        match s.total_pss_bytes {
                            Some(bytes) => FieldValue::Number(bytes),
                            None => FieldValue::Null,
                        },
                    ),
                );
                fields.push(("pss_process_count", FieldValue::Number(s.pss_process_count as u64)));
                fields.push(
                    (
                        "total_cpu_seconds",
                        match s.total_cpu_nanos {
                            Some(nanos) => FieldValue::Seconds(nanos),
                            None => FieldValue::Null,
                        },
                    ),
                );
            },
            PerfRecord::Ipc { direction, name, bytes, duration } => {
                fields.push(("direction", text_field(direction.as_str())));
                fields.push(("name", text_field(name)));
                fields.push(("bytes", FieldValue::Number(*bytes)));
                fields.push(("duration_ms", FieldValue::Millis(*duration)));
            },
            PerfRecord::StateWrite { kind, duration } => {
                fields.push(("name", text_field(kind.as_str())));
                fields.push(("duration_ms", FieldValue::Millis(*duration)));
            },
        }
        assert(field_models(fields@) =~= fields_of(self@, elapsed));
        fields
    }
}

// ---------------------------------------------------------------------------
// Laws

/// Whether members have a name among theirs.
pub open spec fn has_field(fields: Seq<(Seq<char>, ValueModel)>, name: Seq<char>) -> bool {
    exists|i: int| 0 <= i < fields.len() && (#[trigger] fields[i]).0 == name
}

/// Every record of the event that a metric is read from has the member that it is
/// read from, whether its value is known or not.
pub proof fn a_metric_finds_its_field(record: RecordModel, key: MetricKey, elapsed: u128)
    requires
        event_of(record) == metric_key::metric_event(key),
        metric_key::metric_field(key) is Some,
    ensures
        has_field(own_fields(record), metric_key::metric_field(key)->0),
        has_field(fields_of(record, elapsed), metric_key::metric_field(key)->0),
{
    lemma_events_differ();
    let name = metric_key::metric_field(key)->0;
    let own = own_fields(record);
    let i: int = match key {
        MetricKey::StartupEventLoopMs => 0,
        MetricKey::StartupPreWindowSetupMs => 1,
        MetricKey::StartupNativeWindowMs => 2,
        MetricKey::StartupToolbarWebviewMs => 3,
        MetricKey::StartupWindowCreatedMs => 4,
        MetricKey::StartupRustSetupDoneMs => 5,
        MetricKey::StartupToolbarScriptStartedMs => 6,
        MetricKey::StartupToolbarReadyMs => 7,
        MetricKey::StartupFirstLoadMs => 8,
        MetricKey::PageLoadMs => 1,
        MetricKey::PageLoadEngineMs => 2,
        MetricKey::PageLoadDispatchMs => 3,
        MetricKey::TabCreateMs => 1,
        MetricKey::TabSwitchMs => 1,
        MetricKey::TabResumeMs => 1,
        MetricKey::RssTotalBytes => 2,
        MetricKey::RssProcessCount => 1,
        MetricKey::PssTotalBytes => 3,
        MetricKey::PssProcessCount => 4,
        MetricKey::CpuPercent => 0,
        MetricKey::SuspendedTabCount => 0,
    };
    assert(own[i].0 == name);
    assert(fields_of(record, elapsed)[i + 2] == own[i]);
}

/// No two kinds of events have the same name.
proof fn lemma_events_differ()
    ensures
        "startup"@.len() == 7,
        "page_load"@.len() == 9,
        "tab_create"@.len() == 10,
        "tab_switch"@.len() == 10,
        "tab_resume"@.len() == 10,
        "tab_suspend"@.len() == 11,
        "state_write"@.len() == 11,
        "measure_start"@.len() == 13,
        "cpu"@.len() == 3,
        "rss"@.len() == 3,
        "ipc"@.len() == 3,
        "tab_create"@[4] != "tab_switch"@[4],
        "tab_create"@[4] != "tab_resume"@[4],
        "tab_switch"@[4] != "tab_resume"@[4],
        "tab_suspend"@[0] != "state_write"@[0],
        "cpu"@[0] != "rss"@[0],
        "cpu"@[0] != "ipc"@[0],
        "rss"@[0] != "ipc"@[0],
{
    reveal_strlit("startup");
    reveal_strlit("page_load");
    reveal_strlit("tab_create");
    reveal_strlit("tab_switch");
    reveal_strlit("tab_resume");
    reveal_strlit("tab_suspend");
    reveal_strlit("state_write");
    reveal_strlit("measure_start");
    reveal_strlit("cpu");
    reveal_strlit("rss");
    reveal_strlit("ipc");
}

/// Lines grow at their end only: the line for a page load of which the parts are
/// known starts with the line for one of which only the whole is.
pub proof fn known_parts_are_appended(url: Seq<char>, duration: u128, engine: Option<u128>)
    ensures
        page_load_line(url, duration).is_prefix_of(
            line_of(RecordModel::PageLoad { url, duration, engine }),
        ),
{
    let whole = line_of(RecordModel::PageLoad { url, duration, engine });
    assert(page_load_line(url, duration) =~= whole.take(
        page_load_line(url, duration).len() as int,
    ));
}

/// Whether a record is one of the events that a metric is about.
pub open spec fn is_about(record: RecordModel, key: MetricKey) -> bool {
    match key {
        MetricKey::PageLoadMs
        | MetricKey::PageLoadEngineMs
        | MetricKey::PageLoadDispatchMs => record is PageLoad,
        MetricKey::TabCreateMs => record matches RecordModel::TabLatency { kind, .. }
            && kind is Create,
        MetricKey::TabSwitchMs => record matches RecordModel::TabLatency { kind, .. }
            && kind is Switch,
        MetricKey::TabResumeMs => record matches RecordModel::TabLatency { kind, .. }
            && kind is Resume,
        MetricKey::RssTotalBytes
        | MetricKey::RssProcessCount
        | MetricKey::PssTotalBytes
        | MetricKey::PssProcessCount => record is Rss,
        MetricKey::CpuPercent => record is Cpu,
        MetricKey::SuspendedTabCount => record is TabSuspend,
        _ => record is Startup,
    }
}

/// A length of time in a record, or nothing where it is not known.
pub open spec fn time_value(nanos: Option<u128>) -> ValueModel {
    match nanos {
        Some(n) => ValueModel::Millis(n),
        None => ValueModel::Null,
    }
}

/// What was measured of a metric, out of the record itself.
pub open spec fn quantity(record: RecordModel, key: MetricKey) -> ValueModel {
    match record {
        RecordModel::Startup(r) => match key {
            MetricKey::StartupEventLoopMs => time_value(r.to_event_loop_built),
            MetricKey::StartupPreWindowSetupMs => time_value(r.to_pre_window_setup_done),
            MetricKey::StartupNativeWindowMs => time_value(r.to_native_window_built),
            MetricKey::StartupToolbarWebviewMs => time_value(r.to_toolbar_webview_built),
            MetricKey::StartupWindowCreatedMs => time_value(Some(r.to_window_created)),
            MetricKey::StartupRustSetupDoneMs => time_value(Some(r.to_rust_setup_done)),
            MetricKey::StartupToolbarScriptStartedMs => time_value(
                Some(r.to_toolbar_script_started),
            ),
            MetricKey::StartupToolbarReadyMs => time_value(Some(r.to_toolbar_ready)),
            _ => time_value(Some(r.to_first_load_finished)),
        },
        RecordModel::PageLoad { duration, engine, .. } => match key {
            MetricKey::PageLoadMs => time_value(Some(duration)),
            MetricKey::PageLoadEngineMs => time_value(engine),
            _ => match engine {
                Some(e) => time_value(
                    Some(
                        if e <= duration {
                            (duration - e) as u128
                        } else {
                            0
                        },
                    ),
                ),
                None => ValueModel::Null,
            },
        },
        RecordModel::TabLatency { duration, .. } => time_value(Some(duration)),
        RecordModel::Cpu { used, wall } => ValueModel::Percent { used, wall },
        RecordModel::Rss(s) => match key {
            MetricKey::RssTotalBytes => ValueModel::Number(s.total_rss_bytes),
            MetricKey::RssProcessCount => ValueModel::Number(s.process_count as u64),
            MetricKey::PssProcessCount => ValueModel::Number(s.pss_process_count as u64),
            _ => match s.total_pss_bytes {
                Some(bytes) => ValueModel::Number(bytes),
                None => ValueModel::Null,
            },
        },
        _ => ValueModel::Null,
    }
}

/// A metric is read from the records that it is about, and from no others.
pub proof fn a_metric_is_read_from_its_own_records(record: RecordModel, key: MetricKey)
    ensures
        event_of(record) == metric_key::metric_event(key) <==> is_about(record, key),
{
    lemma_events_differ();
}

/// What a metric reads from a record is what was measured of it: whatever member of
/// the record's object has the name that the metric reads, its value is the quantity
/// that the record holds, and there is one.
pub proof fn a_metric_reads_what_was_measured(
    record: RecordModel,
    key: MetricKey,
    elapsed: u128,
    i: int,
)
    requires
        is_about(record, key),
        !(key is SuspendedTabCount),
    ensures
        metric_key::metric_field(key) is Some,
        fields_of(record, elapsed).contains(
            (metric_key::metric_field(key)->0, quantity(record, key)),
        ),
        0 <= i < fields_of(record, elapsed).len() && fields_of(record, elapsed)[i].0
            == metric_key::metric_field(key)->0 ==> fields_of(record, elapsed)[i].1 == quantity(
            record,
            key,
        ),
{
    lemma_events_differ();
    lemma_fields_differ();
    let name = metric_key::metric_field(key)->0;
    let own = own_fields(record);
    let all = fields_of(record, elapsed);
    let k: int = match key {
        MetricKey::StartupEventLoopMs => 0,
        MetricKey::StartupPreWindowSetupMs => 1,
        MetricKey::StartupNativeWindowMs => 2,
        MetricKey::StartupToolbarWebviewMs => 3,
        MetricKey::StartupWindowCreatedMs => 4,
        MetricKey::StartupRustSetupDoneMs => 5,
        MetricKey::StartupToolbarScriptStartedMs => 6,
        MetricKey::StartupToolbarReadyMs => 7,
        MetricKey::StartupFirstLoadMs => 8,
        MetricKey::PageLoadMs => 1,
        MetricKey::PageLoadEngineMs => 2,
        MetricKey::PageLoadDispatchMs => 3,
        MetricKey::TabCreateMs => 1,
        MetricKey::TabSwitchMs => 1,
        MetricKey::TabResumeMs => 1,
        MetricKey::RssTotalBytes => 2,
        MetricKey::RssProcessCount => 1,
        MetricKey::PssTotalBytes => 3,
        MetricKey::PssProcessCount => 4,
        MetricKey::CpuPercent => 0,
        MetricKey::SuspendedTabCount => 0,
    };
    assert(own[k] == (name, quantity(record, key)));
    assert(all[k + 2] == own[k]);
    if 0 <= i < all.len() && all[i].0 == name {
        if i >= 2 {
            assert(all[i] == own[i - 2]);
        }
        assert(i == k + 2);
    }
}

/// Every record says which event it is and when it was, before all else.
pub proof fn a_record_says_what_and_when(record: RecordModel, elapsed: u128)
    ensures
        fields_of(record, elapsed)[0] == ("event"@, ValueModel::Text(event_of(record))),
        fields_of(record, elapsed)[1] == ("ts_ms"@, ValueModel::Millis(elapsed)),
        fields_of(record, elapsed).skip(2) == own_fields(record),
{
    assert(fields_of(record, elapsed).skip(2) =~= own_fields(record));
}

/// Records of different kinds are events of different names.
pub proof fn events_are_told_apart_by_name(a: RecordModel, b: RecordModel)
    requires
        event_of(a) == event_of(b),
    ensures
        a is Startup == b is Startup,
        a is PageLoad == b is PageLoad,
        a is TabLatency == b is TabLatency,
        a is MeasureStart == b is MeasureStart,
        a is TabSuspend == b is TabSuspend,
        a is Rss == b is Rss,
        a is Cpu == b is Cpu,
        a is Ipc == b is Ipc,
        a is StateWrite == b is StateWrite,
        a is TabLatency ==> a->TabLatency_kind == b->TabLatency_kind,
{
    lemma_events_differ();
}

/// No two members of a record have the same name.
proof fn lemma_fields_differ()
    ensures
        "event"@.len() == 5,
        "ts_ms"@.len() == 5,
        "event_loop_ms"@.len() == 13,
        "pre_window_setup_ms"@.len() == 19,
        "native_window_ms"@.len() == 16,
        "toolbar_webview_ms"@.len() == 18,
        "window_created_ms"@.len() == 17,
        "rust_setup_done_ms"@.len() == 18,
        "toolbar_script_started_ms"@.len() == 25,
        "toolbar_ready_ms"@.len() == 16,
        "first_load_ms"@.len() == 13,
        "url"@.len() == 3,
        "duration_ms"@.len() == 11,
        "engine_duration_ms"@.len() == 18,
        "dispatch_duration_ms"@.len() == 20,
        "tab_id"@.len() == 6,
        "percent"@.len() == 7,
        "pid"@.len() == 3,
        "process_count"@.len() == 13,
        "total_rss_bytes"@.len() == 15,
        "total_pss_bytes"@.len() == 15,
        "pss_process_count"@.len() == 17,
        "total_cpu_seconds"@.len() == 17,
        "event"@[0] != "ts_ms"@[0],
        "event_loop_ms"@[0] != "first_load_ms"@[0],
        "native_window_ms"@[0] != "toolbar_ready_ms"@[0],
        "toolbar_webview_ms"@[0] != "rust_setup_done_ms"@[0],
        "total_rss_bytes"@[6] != "total_pss_bytes"@[6],
        "pss_process_count"@[0] != "total_cpu_seconds"@[0],
{
    reveal_strlit("event");
    reveal_strlit("ts_ms");
    reveal_strlit("event_loop_ms");
    reveal_strlit("pre_window_setup_ms");
    reveal_strlit("native_window_ms");
    reveal_strlit("toolbar_webview_ms");
    reveal_strlit("window_created_ms");
    reveal_strlit("rust_setup_done_ms");
    reveal_strlit("toolbar_script_started_ms");
    reveal_strlit("toolbar_ready_ms");
    reveal_strlit("first_load_ms");
    reveal_strlit("url");
    reveal_strlit("duration_ms");
    reveal_strlit("engine_duration_ms");
    reveal_strlit("dispatch_duration_ms");
    reveal_strlit("tab_id");
    reveal_strlit("percent");
    reveal_strlit("pid");
    reveal_strlit("process_count");
    reveal_strlit("total_rss_bytes");
    reveal_strlit("total_pss_bytes");
    reveal_strlit("pss_process_count");
    reveal_strlit("total_cpu_seconds");
}

/// The line for a start names each step and says behind the name how long it took, or
/// `-` where that is not known.
pub proof fn a_start_is_told_step_by_step(r: StartupReport)
    ensures
        ({
            let line = startup_line(r);
            &&& line.len() == 18
            &&& line[0] == PartModel::Text("startup event_loop="@)
            &&& line[2] == PartModel::Text(" pre_window_setup="@)
            &&& line[4] == PartModel::Text(" native_window="@)
            &&& line[6] == PartModel::Text(" toolbar_webview="@)
            &&& line[8] == PartModel::Text(" window_created="@)
            &&& line[10] == PartModel::Text(" rust_setup_done="@)
            &&& line[12] == PartModel::Text(" toolbar_script_started="@)
            &&& line[14] == PartModel::Text(" toolbar_ready="@)
            &&& line[16] == PartModel::Text(" first_page="@)
            &&& r.to_event_loop_built matches Some(d) ==> line[1] == PartModel::Millis(d)
            &&& r.to_event_loop_built is None ==> line[1] == PartModel::Text("-"@)
            &&& r.to_pre_window_setup_done matches Some(d) ==> line[3] == PartModel::Millis(d)
            &&& r.to_pre_window_setup_done is None ==> line[3] == PartModel::Text("-"@)
            &&& r.to_native_window_built matches Some(d) ==> line[5] == PartModel::Millis(d)
            &&& r.to_native_window_built is None ==> line[5] == PartModel::Text("-"@)
            &&& r.to_toolbar_webview_built matches Some(d) ==> line[7] == PartModel::Millis(d)
            &&& r.to_toolbar_webview_built is None ==> line[7] == PartModel::Text("-"@)
            &&& line[9] == PartModel::Millis(r.to_window_created)
            &&& line[11] == PartModel::Millis(r.to_rust_setup_done)
            &&& line[13] == PartModel::Millis(r.to_toolbar_script_started)
            &&& line[15] == PartModel::Millis(r.to_toolbar_ready)
            &&& line[17] == PartModel::Millis(r.to_first_load_finished)
        }),
{
}

/// The line for what processes use tells their number, of how many the share is known,
/// and the three amounts, or `n/a` for one that is not known.
pub proof fn a_sample_is_told_amount_by_amount(s: RssSample)
    ensures
        ({
            let line = rss_line(s);
            let pid = text::decimal(s.root_pid as nat);
            let count = text::decimal(s.process_count as nat);
            let known = text::decimal(s.pss_process_count as nat);
            &&& line.len() == 6
            &&& line[0] == PartModel::Text(
                "rss pid="@ + pid + " processes="@ + count + " total_mib="@,
            )
            &&& line[1] == PartModel::Mebibytes(s.total_rss_bytes)
            &&& line[2] == PartModel::Text(
                " pss_processes="@ + known + "/"@ + count + " pss_mib="@,
            )
            &&& s.total_pss_bytes matches Some(b) ==> line[3] == PartModel::Mebibytes(b)
            &&& s.total_pss_bytes is None ==> line[3] == PartModel::Text("n/a"@)
            &&& line[4] == PartModel::Text(" cpu_s="@)
            &&& s.total_cpu_nanos matches Some(t) ==> line[5] == PartModel::Seconds(t)
            &&& s.total_cpu_nanos is None ==> line[5] == PartModel::Text("n/a"@)
        }),
{
}

/// The line for a page load says of which page it is and how long the load took; where
/// the engine's share is known, that and the rest follow.
pub proof fn a_page_load_is_told_with_its_parts(url: Seq<char>, duration: u128, engine: u128)
    requires
        engine <= duration,
    ensures
        ({
            let short = line_of(RecordModel::PageLoad { url, duration, engine: None });
            let long = line_of(RecordModel::PageLoad { url, duration, engine: Some(engine) });
            &&& short.len() == 2
            &&& short[0] == PartModel::Text("page_load url="@ + url + " duration="@)
            &&& short[1] == PartModel::Millis(duration)
            &&& long.len() == 6
            &&& long.take(2) == short
            &&& long[2] == PartModel::Text(" engine_duration="@)
            &&& long[3] == PartModel::Millis(engine)
            &&& long[4] == PartModel::Text(" dispatch_duration="@)
            &&& long[5] == PartModel::Millis((duration - engine) as u128)
        }),
{
    let short = line_of(RecordModel::PageLoad { url, duration, engine: None });
    let long = line_of(RecordModel::PageLoad { url, duration, engine: Some(engine) });
    assert(long.take(2) =~= short);
}

/// Each other line starts with what it is about and ends with what was measured.
pub proof fn a_line_ends_with_what_was_measured(
    kind: TabLatencyKind,
    tab_id: u64,
    duration: u128,
    wall: u128,
    direction: IpcDirection,
    name: Seq<char>,
    bytes: u64,
    written: StateWriteKind,
)
    ensures
        line_of(RecordModel::TabLatency { kind, tab_id, duration }) == seq![
            PartModel::Text(kind.name() + " id="@ + text::decimal(tab_id as nat) + " duration="@),
            PartModel::Millis(duration),
        ],
        line_of(RecordModel::Cpu { used: duration, wall }) == seq![
            PartModel::Text("cpu percent="@),
            PartModel::Percent { used: duration, wall },
        ],
        line_of(RecordModel::Ipc { direction, name, bytes, duration }) == seq![
            PartModel::Text(
                "ipc dir="@ + direction.name() + " name="@ + name + " bytes="@ + text::decimal(
                    bytes as nat,
                ) + " duration="@,
            ),
            PartModel::Millis(duration),
        ],
        line_of(RecordModel::StateWrite { kind: written, duration }) == seq![
            PartModel::Text("state_write name="@ + written.name() + " duration="@),
            PartModel::Millis(duration),
        ],
        line_of(RecordModel::MeasureStart) == seq![PartModel::Text("measure_start"@)],
{
}

} // verus!
