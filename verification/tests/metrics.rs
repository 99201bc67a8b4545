//! Measuring how the browser starts and how pages load.

use velox_browser::metrics::{PageLoadTimer, PerfFormat, StartupTimestamps};

const START: u128 = 5_000_000_000;

fn millis(n: u128) -> u128 {
    n * 1_000_000
}

fn secs(n: u128) -> u128 {
    n * 1_000_000_000
}

#[test]
fn report_is_none_until_all_checkpoints_recorded() {
    let start = START;
    let mut timestamps = StartupTimestamps::new(start);
    assert!(timestamps.report().is_none());

    timestamps.mark_window_created(START);
    assert!(timestamps.report().is_none());

    timestamps.mark_rust_setup_done(START);
    assert!(timestamps.report().is_none());

    timestamps.mark_toolbar_script_started(START);
    assert!(timestamps.report().is_none());

    timestamps.mark_toolbar_ready(START);
    assert!(timestamps.report().is_none());

    timestamps.mark_first_load_finished(START);
    assert!(timestamps.report().is_some());
}

#[test]
fn report_order_of_checkpoints_does_not_matter() {
    let start = START;
    let mut timestamps = StartupTimestamps::new(start);
    timestamps.mark_first_load_finished(START);
    timestamps.mark_toolbar_ready(START);
    timestamps.mark_toolbar_script_started(START);
    timestamps.mark_rust_setup_done(START);
    timestamps.mark_window_created(START);
    assert!(timestamps.report().is_some());
}

#[test]
fn only_the_first_mark_counts() {
    let start = START;
    let mut timestamps = StartupTimestamps::new(start);
    timestamps.mark_window_created(start);
    let later = start + secs(10);
    timestamps.mark_window_created(later);
    timestamps.mark_rust_setup_done(start);
    timestamps.mark_toolbar_script_started(start);
    timestamps.mark_toolbar_ready(start);
    timestamps.mark_first_load_finished(start);
    let report = timestamps.report().unwrap();
    assert_eq!(report.to_window_created, 0);
}

#[test]
fn report_does_not_require_the_issue_182_sub_checkpoints() {
    let start = START;
    let mut timestamps = StartupTimestamps::new(start);
    timestamps.mark_window_created(start);
    timestamps.mark_rust_setup_done(start);
    timestamps.mark_toolbar_script_started(start);
    timestamps.mark_toolbar_ready(start);
    timestamps.mark_first_load_finished(start);

    let report = timestamps.report().expect("the original five suffice");
    assert_eq!(report.to_event_loop_built, None);
    assert_eq!(report.to_pre_window_setup_done, None);
    assert_eq!(report.to_native_window_built, None);
    assert_eq!(report.to_toolbar_webview_built, None);
}

#[test]
fn report_measures_the_issue_182_sub_checkpoints_from_process_start() {
    let start = START;
    let mut timestamps = StartupTimestamps::new(start);
    timestamps.mark_event_loop_built(start + millis(100));
    timestamps.mark_pre_window_setup_done(start + millis(110));
    timestamps.mark_native_window_built(start + millis(120));
    timestamps.mark_toolbar_webview_built(start + millis(600));
    timestamps.mark_window_created(start + millis(644));
    timestamps.mark_rust_setup_done(start + millis(645));
    timestamps.mark_toolbar_script_started(start + millis(646));
    timestamps.mark_toolbar_ready(start + millis(646));
    timestamps.mark_first_load_finished(start + millis(717));

    let report = timestamps.report().expect("every checkpoint recorded");
    assert_eq!(report.to_event_loop_built, Some(millis(100)));
    assert_eq!(
        report.to_pre_window_setup_done,
        Some(millis(110))
    );
    assert_eq!(
        report.to_native_window_built,
        Some(millis(120))
    );
    assert_eq!(
        report.to_toolbar_webview_built,
        Some(millis(600))
    );
    assert_eq!(report.to_window_created, millis(644));
}

#[test]
fn only_the_first_mark_counts_for_the_issue_182_sub_checkpoints() {
    let start = START;
    let mut timestamps = StartupTimestamps::new(start);
    timestamps.mark_event_loop_built(start);
    timestamps.mark_event_loop_built(start + secs(10));
    timestamps.mark_pre_window_setup_done(start);
    timestamps.mark_pre_window_setup_done(start + secs(10));
    timestamps.mark_native_window_built(start);
    timestamps.mark_native_window_built(start + secs(10));
    timestamps.mark_toolbar_webview_built(start);
    timestamps.mark_toolbar_webview_built(start + secs(10));
    timestamps.mark_window_created(start);
    timestamps.mark_rust_setup_done(start);
    timestamps.mark_toolbar_script_started(start);
    timestamps.mark_toolbar_ready(start);
    timestamps.mark_first_load_finished(start);

    let report = timestamps.report().unwrap();
    assert_eq!(report.to_event_loop_built, Some(0));
    assert_eq!(report.to_pre_window_setup_done, Some(0));
    assert_eq!(report.to_native_window_built, Some(0));
    assert_eq!(report.to_toolbar_webview_built, Some(0));
}

#[test]
fn finish_without_start_is_none() {
    let mut timer = PageLoadTimer::new();
    assert_eq!(timer.finish(START), None);
}

#[test]
fn start_then_finish_reports_a_duration() {
    let mut timer = PageLoadTimer::new();
    let start = START;
    timer.start(start);
    let end = start + millis(42);
    let outcome = timer.finish(end).expect("start was called");
    assert_eq!(outcome.total, millis(42));
    assert_eq!(outcome.engine, None);
    assert_eq!(outcome.dispatch(), None);
}

#[test]
fn finish_consumes_the_start_mark() {
    let mut timer = PageLoadTimer::new();
    let start = START;
    timer.start(start);
    assert!(timer.finish(start).is_some());
    assert_eq!(timer.finish(start), None);
}

#[test]
fn restarting_before_finish_discards_the_earlier_start() {
    let mut timer = PageLoadTimer::new();
    let first_start = START;
    timer.start(first_start);
    let second_start = first_start + millis(100);
    timer.start(second_start);
    let end = second_start + millis(10);
    assert_eq!(
        timer.finish(end).map(|o| o.total),
        Some(millis(10))
    );
}

#[test]
fn mark_load_started_without_start_is_ignored() {
    let mut timer = PageLoadTimer::new();
    let now = START;
    timer.mark_load_started(now);
    assert_eq!(timer.finish(now), None);
}

#[test]
fn load_started_between_start_and_finish_splits_into_dispatch_and_engine() {
    let mut timer = PageLoadTimer::new();
    let start = START;
    timer.start(start);
    let load_started = start + millis(5);
    timer.mark_load_started(load_started);
    let end = start + millis(50);
    let outcome = timer.finish(end).expect("start was called");
    assert_eq!(outcome.total, millis(50));
    assert_eq!(outcome.engine, Some(millis(45)));
    assert_eq!(outcome.dispatch(), Some(millis(5)));
}

#[test]
fn only_the_first_load_started_call_counts() {
    let mut timer = PageLoadTimer::new();
    let start = START;
    timer.start(start);
    timer.mark_load_started(start + millis(5));
    timer.mark_load_started(start + millis(20));
    let outcome = timer
        .finish(start + millis(50))
        .expect("start was called");
    assert_eq!(outcome.engine, Some(millis(45)));
}

#[test]
fn restarting_clears_a_pending_load_started_mark() {
    let mut timer = PageLoadTimer::new();
    let first_start = START;
    timer.start(first_start);
    timer.mark_load_started(first_start + millis(5));
    let second_start = first_start + millis(100);
    timer.start(second_start);
    let end = second_start + millis(10);
    let outcome = timer.finish(end).expect("start was called");
    assert_eq!(outcome.total, millis(10));
    assert_eq!(outcome.engine, None);
}

#[test]
fn perf_format_parses_json_case_insensitively() {
    assert_eq!(PerfFormat::parse(Some("json")), PerfFormat::Json);
    assert_eq!(PerfFormat::parse(Some("JSON")), PerfFormat::Json);
    assert_eq!(PerfFormat::parse(Some("  Json  ")), PerfFormat::Json);
}

#[test]
fn perf_format_defaults_to_text_for_anything_else() {
    assert_eq!(PerfFormat::parse(None), PerfFormat::Text);
    assert_eq!(PerfFormat::parse(Some("")), PerfFormat::Text);
    assert_eq!(PerfFormat::parse(Some("text")), PerfFormat::Text);
    assert_eq!(PerfFormat::parse(Some("xml")), PerfFormat::Text);
}

#[test]
fn a_load_is_the_sum_of_its_parts() {
    let mut timer = PageLoadTimer::new();
    timer.start(START);
    timer.mark_load_started(START + millis(7));
    let outcome = timer.finish(START + millis(30)).unwrap();
    assert_eq!(outcome.dispatch().unwrap() + outcome.engine.unwrap(), outcome.total);
}

#[test]
fn a_clock_that_goes_back_gives_no_time() {
    let mut timer = PageLoadTimer::new();
    timer.start(START);
    assert_eq!(timer.finish(START - 1).unwrap().total, 0);
}
