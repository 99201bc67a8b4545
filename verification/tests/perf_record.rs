//! What is logged of the browser's performance.
//!
//! Numbers with fractions are written here, as in the program around the library.

use serde_json::Value;
use velox_browser::benchmark::{parse_jsonl, MetricKey};
use velox_browser::metrics::{
    format_page_load, format_rss, format_startup, FieldValue, IpcDirection, PerfRecord, RssSample,
    StartupReport, StateWriteKind, SuspendReason, TabLatencyKind, TextPart,
};

fn millis(n: u128) -> u128 {
    n * 1_000_000
}

fn micros(n: u128) -> u128 {
    n * 1_000
}

fn line(parts: &[TextPart]) -> String {
    parts
        .iter()
        .map(|part| match part {
            TextPart::Text(text) => text.clone(),
            TextPart::Millis(n) => format!("{:.1}ms", *n as f64 / 1_000_000.0),
            TextPart::Mebibytes(n) => format!("{:.1}", *n as f64 / (1024.0 * 1024.0)),
            TextPart::Seconds(n) => format!("{:.2}", *n as f64 / 1_000_000_000.0),
            TextPart::Percent { used, wall } => {
                format!("{:.1}", *used as f64 / *wall as f64 * 100.0)
            }
        })
        .collect()
}

fn json_of(record: &PerfRecord, elapsed: u128) -> Value {
    let fields: serde_json::Map<String, Value> = record
        .to_fields(elapsed)
        .into_iter()
        .map(|(name, value)| {
            let value = match value {
                FieldValue::Null => Value::Null,
                FieldValue::Text(text) => Value::from(text),
                FieldValue::Number(n) => Value::from(n),
                FieldValue::Millis(n) => Value::from((n as f64 / 100_000.0).round() / 10.0),
                FieldValue::Seconds(n) => Value::from(n as f64 / 1_000_000_000.0),
                FieldValue::Percent { used, wall } => {
                    Value::from(used as f64 / wall as f64 * 100.0)
                }
            };
            (name.to_owned(), value)
        })
        .collect();
    Value::Object(fields)
}

fn full_startup_report() -> StartupReport {
    StartupReport {
        to_event_loop_built: Some(millis(2)),
        to_pre_window_setup_done: Some(millis(4)),
        to_native_window_built: Some(millis(5)),
        to_toolbar_webview_built: Some(millis(8)),
        to_window_created: millis(10),
        to_rust_setup_done: millis(12),
        to_toolbar_script_started: millis(15),
        to_toolbar_ready: millis(20),
        to_first_load_finished: millis(30),
    }
}

#[test]
fn perf_record_startup_text_matches_legacy_display() {
    let report = full_startup_report();
    let expected = line(&format_startup(&report));
    assert_eq!(line(&PerfRecord::startup(report).to_text()), expected);
    assert_eq!(PerfRecord::startup(report).event_name(), "startup");
}

#[test]
fn perf_record_page_load_text_matches_legacy_format_function() {
    let record =
        PerfRecord::page_load("https://example.com/".to_owned(), millis(250), None);
    assert_eq!(
        line(&record.to_text()),
        line(&format_page_load("https://example.com/", millis(250)))
    );
    assert_eq!(record.event_name(), "page_load");
}

#[test]
fn perf_record_page_load_text_appends_engine_and_dispatch_when_present() {
    let record = PerfRecord::page_load("https://example.com/".to_owned(),
        millis(250),
        Some(millis(230)),
    );
    assert_eq!(
        line(&record.to_text()),
        format!(
            "{} engine_duration=230.0ms dispatch_duration=20.0ms",
            line(&format_page_load("https://example.com/", millis(250)))
        )
    );
}

#[test]
fn perf_record_rss_text_matches_legacy_display() {
    let sample = RssSample {
        root_pid: 42,
        process_count: 3,
        total_rss_bytes: 2 * 1024 * 1024,
        total_pss_bytes: Some(1024 * 1024),
        pss_process_count: 3,
        total_cpu_nanos: None,
    };
    let expected = line(&format_rss(&sample));
    assert_eq!(line(&PerfRecord::rss(sample).to_text()), expected);
    assert_eq!(PerfRecord::rss(sample).event_name(), "rss");
}

#[test]
fn perf_record_tab_latency_text_is_readable() {
    let record = PerfRecord::tab_latency(TabLatencyKind::Create, 7, millis(15));
    assert_eq!(line(&record.to_text()), "tab_create id=7 duration=15.0ms");
    assert_eq!(record.event_name(), "tab_create");

    let record =
        PerfRecord::tab_latency(TabLatencyKind::Switch, 7, micros(3100));
    assert_eq!(line(&record.to_text()), "tab_switch id=7 duration=3.1ms");
    assert_eq!(record.event_name(), "tab_switch");

    let record = PerfRecord::tab_latency(TabLatencyKind::Resume, 7, millis(40));
    assert_eq!(line(&record.to_text()), "tab_resume id=7 duration=40.0ms");
    assert_eq!(record.event_name(), "tab_resume");
}

#[test]
fn perf_record_cpu_renders_in_both_formats() {
    let record = PerfRecord::cpu(975, 1_000);
    assert_eq!(record.event_name(), "cpu");
    assert_eq!(line(&record.to_text()), "cpu percent=97.5");
    let value = json_of(&record, millis(20));
    assert_eq!(value["event"], "cpu");
    assert_eq!(value["percent"], 97.5);
    assert_eq!(value["ts_ms"], 20.0);
}

#[test]
fn perf_record_measure_start_is_just_the_marker() {
    let record = PerfRecord::measure_start();
    assert_eq!(record.event_name(), "measure_start");
    assert_eq!(line(&record.to_text()), "measure_start");
    let value = json_of(&record, millis(12));
    assert_eq!(value["event"], "measure_start");
    assert_eq!(value["ts_ms"], 12.0);
    assert_eq!(value.as_object().unwrap().len(), 2);
}

#[test]
fn perf_record_tab_suspend_carries_the_reason_in_both_formats() {
    let record = PerfRecord::tab_suspend(9, SuspendReason::Memory);
    assert_eq!(record.event_name(), "tab_suspend");
    assert_eq!(line(&record.to_text()), "tab_suspend id=9 reason=memory");
    let value = json_of(&record, millis(5));
    assert_eq!(value["event"], "tab_suspend");
    assert_eq!(value["ts_ms"], 5.0);
    assert_eq!(value["tab_id"], 9);
    assert_eq!(value["reason"], "memory");
    assert_eq!(
        json_of(&PerfRecord::tab_suspend(1, SuspendReason::Idle), 0)["reason"],
        "idle"
    );
    assert_eq!(
        json_of(&PerfRecord::tab_suspend(1, SuspendReason::TabCount), 0)["reason"],
        "tab_count"
    );
}

#[test]
fn perf_record_json_always_has_event_and_ts_ms() {
    let record =
        PerfRecord::page_load("https://example.com/".to_owned(), millis(250), None);
    let value = json_of(&record, millis(1234));
    assert_eq!(value["event"], "page_load");
    assert_eq!(value["ts_ms"], 1234.0);
    assert_eq!(value["url"], "https://example.com/");
    assert_eq!(value["duration_ms"], 250.0);
    assert!(value["engine_duration_ms"].is_null());
    assert!(value["dispatch_duration_ms"].is_null());
}

#[test]
fn perf_record_json_reports_engine_and_dispatch_when_present() {
    let record = PerfRecord::page_load("https://example.com/".to_owned(),
        millis(250),
        Some(millis(230)),
    );
    let value = json_of(&record, 0);
    assert_eq!(value["engine_duration_ms"], 230.0);
    assert_eq!(value["dispatch_duration_ms"], 20.0);
}

#[test]
fn perf_record_json_line_is_valid_single_line_json() {
    let record = PerfRecord::tab_latency(TabLatencyKind::Switch, 3, millis(5));
    let line = json_of(&record, 0).to_string();
    assert!(!line.contains('\n'));
    let parsed: serde_json::Value = serde_json::from_str(&line).expect("valid JSON");
    assert_eq!(parsed["event"], "tab_switch");
    assert_eq!(parsed["tab_id"], 3);
    assert_eq!(parsed["duration_ms"], 5.0);
}

#[test]
fn perf_record_startup_json_has_all_nine_checkpoints() {
    let value = json_of(&PerfRecord::startup(full_startup_report()), millis(30));
    assert_eq!(value["event_loop_ms"], 2.0);
    assert_eq!(value["pre_window_setup_ms"], 4.0);
    assert_eq!(value["native_window_ms"], 5.0);
    assert_eq!(value["toolbar_webview_ms"], 8.0);
    assert_eq!(value["window_created_ms"], 10.0);
    assert_eq!(value["rust_setup_done_ms"], 12.0);
    assert_eq!(value["toolbar_script_started_ms"], 15.0);
    assert_eq!(value["toolbar_ready_ms"], 20.0);
    assert_eq!(value["first_load_ms"], 30.0);
}

#[test]
fn perf_record_startup_json_nulls_absent_sub_checkpoints() {
    let report = StartupReport {
        to_event_loop_built: None,
        to_pre_window_setup_done: None,
        to_native_window_built: None,
        to_toolbar_webview_built: None,
        ..full_startup_report()
    };
    let value = json_of(&PerfRecord::startup(report), millis(30));
    for key in [
        "event_loop_ms",
        "pre_window_setup_ms",
        "native_window_ms",
        "toolbar_webview_ms",
    ] {
        assert!(value.get(key).is_some(), "{key} must still be present");
        assert!(value[key].is_null(), "{key} must be null, not 0");
    }
    assert_eq!(value["window_created_ms"], 10.0);
    assert_eq!(value["first_load_ms"], 30.0);
}

#[test]
fn perf_record_rss_json_has_pid_process_count_and_bytes() {
    let sample = RssSample {
        root_pid: 42,
        process_count: 3,
        total_rss_bytes: 2 * 1024 * 1024,
        total_pss_bytes: Some(1024 * 1024),
        pss_process_count: 2,
        total_cpu_nanos: None,
    };
    let value = json_of(&PerfRecord::rss(sample), 0);
    assert_eq!(value["pid"], 42);
    assert_eq!(value["process_count"], 3);
    assert_eq!(value["total_rss_bytes"], 2 * 1024 * 1024);
    assert_eq!(value["total_pss_bytes"], 1024 * 1024);
    assert_eq!(value["pss_process_count"], 2);
}

#[test]
fn perf_record_rss_json_total_pss_bytes_is_null_when_unavailable() {
    let sample = RssSample {
        root_pid: 42,
        process_count: 3,
        total_rss_bytes: 2 * 1024 * 1024,
        total_pss_bytes: None,
        pss_process_count: 0,
        total_cpu_nanos: None,
    };
    let value = json_of(&PerfRecord::rss(sample), 0);
    assert!(value["total_pss_bytes"].is_null());
    assert_eq!(value["pss_process_count"], 0);
}

#[test]
fn perf_record_ipc_renders_in_both_formats() {
    let record = PerfRecord::ipc(IpcDirection::In, "navigate".to_owned(), 42, micros(40));
    assert_eq!(record.event_name(), "ipc");
    let text = line(&record.to_text());
    assert!(text.starts_with("ipc dir=in name=navigate bytes=42 duration="));
    let value = json_of(&record, millis(7));
    assert_eq!(value["event"], "ipc");
    assert_eq!(value["ts_ms"], 7.0);
    assert_eq!(value["direction"], "in");
    assert_eq!(value["name"], "navigate");
    assert_eq!(value["bytes"], 42);
    assert!(value["duration_ms"].as_f64().unwrap() >= 0.0);
}

#[test]
fn perf_record_ipc_out_direction_renders_as_out() {
    let record = PerfRecord::ipc(IpcDirection::Out, "set_tabs".to_owned(), 128, micros(40));
    assert_eq!(json_of(&record, 0)["direction"], "out");
    assert!(line(&record.to_text()).contains("dir=out"));
    assert!(line(&record.to_text()).contains("name=set_tabs"));
    assert!(line(&record.to_text()).contains("bytes=128"));
}

#[test]
fn perf_record_state_write_renders_in_both_formats() {
    let record = PerfRecord::state_write(StateWriteKind::Session, millis(3));
    assert_eq!(record.event_name(), "state_write");
    let text = line(&record.to_text());
    assert_eq!(text, "state_write name=session duration=3.0ms");
    let value = json_of(&record, millis(7));
    assert_eq!(value["event"], "state_write");
    assert_eq!(value["ts_ms"], 7.0);
    assert_eq!(value["name"], "session");
    assert_eq!(value["duration_ms"], 3.0);
}

#[test]
fn startup_display_renders_absent_sub_checkpoints_as_a_dash() {
    let full = line(&format_startup(&full_startup_report()));
    assert!(full.contains("event_loop=2.0ms"), "{full}");
    assert!(full.contains("toolbar_webview=8.0ms"), "{full}");
    assert!(full.contains("window_created=10.0ms"), "{full}");

    let partial = line(&format_startup(&StartupReport {
        to_event_loop_built: None,
        to_pre_window_setup_done: None,
        to_native_window_built: None,
        to_toolbar_webview_built: None,
        ..full_startup_report()
    }));
    assert!(partial.contains("event_loop=- "), "{partial}");
    assert!(partial.contains("toolbar_webview=- "), "{partial}");
    assert!(partial.contains("window_created=10.0ms"), "{partial}");
}

#[test]
fn page_load_line_includes_url_and_duration() {
    let line = line(&format_page_load("https://example.com/", millis(250)));
    assert_eq!(line, "page_load url=https://example.com/ duration=250.0ms");
}

#[test]
fn rss_sample_display_reports_mib() {
    let sample = RssSample {
        root_pid: 42,
        process_count: 3,
        total_rss_bytes: 2 * 1024 * 1024,
        total_pss_bytes: Some(1024 * 1024),
        pss_process_count: 3,
        total_cpu_nanos: None,
    };
    assert_eq!(
        line(&format_rss(&sample)),
        "rss pid=42 processes=3 total_mib=2.0 pss_processes=3/3 pss_mib=1.0 cpu_s=n/a"
    );
}

#[test]
fn rss_sample_display_reports_n_a_when_pss_unavailable() {
    let sample = RssSample {
        root_pid: 42,
        process_count: 3,
        total_rss_bytes: 2 * 1024 * 1024,
        total_pss_bytes: None,
        pss_process_count: 0,
        total_cpu_nanos: None,
    };
    assert_eq!(
        line(&format_rss(&sample)),
        "rss pid=42 processes=3 total_mib=2.0 pss_processes=0/3 pss_mib=n/a cpu_s=n/a"
    );
}

#[test]
fn state_write_kind_as_str_matches_persistence_file_stems() {
    assert_eq!(StateWriteKind::Session.as_str(), "session");
    assert_eq!(StateWriteKind::History.as_str(), "history");
    assert_eq!(StateWriteKind::Bookmarks.as_str(), "bookmarks");
    assert_eq!(StateWriteKind::InputHistory.as_str(), "input_history");
}

#[test]
fn names_of_reasons_and_directions() {
    assert_eq!(SuspendReason::Idle.as_str(), "idle");
    assert_eq!(SuspendReason::Memory.as_str(), "memory");
    assert_eq!(SuspendReason::TabCount.as_str(), "tab_count");
    assert_eq!(IpcDirection::In.as_str(), "in");
    assert_eq!(IpcDirection::Out.as_str(), "out");
}

#[test]
fn what_is_logged_is_what_metrics_are_read_from() {
    let records = [
        PerfRecord::startup(full_startup_report()),
        PerfRecord::page_load("https://example.com/".to_owned(), millis(250), Some(millis(230))),
        PerfRecord::tab_latency(TabLatencyKind::Create, 1, millis(10)),
        PerfRecord::tab_latency(TabLatencyKind::Switch, 1, millis(11)),
        PerfRecord::tab_latency(TabLatencyKind::Resume, 1, millis(12)),
        PerfRecord::rss(RssSample {
            root_pid: 42,
            process_count: 3,
            total_rss_bytes: 2048,
            total_pss_bytes: Some(1024),
            pss_process_count: 2,
            total_cpu_nanos: Some(1_500_000_000),
        }),
        PerfRecord::cpu(1, 2),
        PerfRecord::tab_suspend(1, SuspendReason::Idle),
    ];
    let log: String = records
        .iter()
        .map(|record| json_of(record, millis(1)).to_string() + "\n")
        .collect();
    let events = parse_jsonl(&log);
    assert_eq!(events.len(), records.len());
    for key in MetricKey::ALL {
        assert_eq!(key.extract(&events).len(), 1, "{}", key.as_str());
    }
    assert_eq!(MetricKey::PageLoadDispatchMs.extract(&events), ["20.0"]);
    assert_eq!(MetricKey::CpuPercent.extract(&events), ["50.0"]);
}

#[test]
fn processor_time_is_in_both_formats() {
    let record = PerfRecord::rss(RssSample {
        root_pid: 1,
        process_count: 1,
        total_rss_bytes: 0,
        total_pss_bytes: None,
        pss_process_count: 0,
        total_cpu_nanos: Some(1_250_000_000),
    });
    assert!(line(&record.to_text()).ends_with(" cpu_s=1.25"));
    assert_eq!(json_of(&record, 0)["total_cpu_seconds"], 1.25);
}

#[test]
fn a_dispatch_is_never_negative() {
    let record = PerfRecord::page_load("u".to_owned(), millis(1), Some(millis(2)));
    assert_eq!(
        record.to_text(),
        [
            TextPart::Text("page_load url=u duration=".to_owned()),
            TextPart::Millis(millis(1)),
            TextPart::Text(" engine_duration=".to_owned()),
            TextPart::Millis(millis(2)),
            TextPart::Text(" dispatch_duration=".to_owned()),
            TextPart::Millis(0),
        ]
    );
}
