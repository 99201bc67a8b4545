//! Performance events: reading them, and what is counted and pooled of them.

use velox_browser::benchmark::{
    aggregate_trials, parse_jsonl, summarize_ipc, MetricKey, MetricSamples, PerfEvent,
};

struct Stats {
    count: usize,
    median: f64,
}

fn event(json: &str) -> PerfEvent {
    parse_jsonl(json).remove(0)
}

fn numbers(samples: &[String]) -> Vec<f64> {
    samples.iter().map(|s| s.parse().unwrap()).collect()
}

fn median(values: &[f64]) -> f64 {
    let mut sorted = values.to_vec();
    sorted.sort_by(|a, b| a.total_cmp(b));
    let n = sorted.len();
    if n % 2 == 1 {
        sorted[n / 2]
    } else {
        (sorted[n / 2 - 1] + sorted[n / 2]) / 2.0
    }
}

fn has(pooled: &[MetricSamples], name: &str) -> bool {
    pooled.iter().any(|m| m.key.as_str() == name)
}

fn stats(pooled: &[MetricSamples], name: &str) -> Stats {
    let samples = &pooled.iter().find(|m| m.key.as_str() == name).unwrap().samples;
    Stats { count: samples.len(), median: median(&numbers(samples)) }
}

#[test]
fn parse_jsonl_skips_blank_and_non_json_lines() {
    let text = "\n{\"event\":\"startup\",\"ts_ms\":1.0}\n\nnot json at all\nvelox: some other diagnostic\n";
    let events = parse_jsonl(text);
    assert_eq!(events.len(), 1);
    assert_eq!(events[0].text("event"), Some("startup"));
}

#[test]
fn parse_jsonl_skips_json_without_an_event_field() {
    let text = "{\"foo\":1}\n{\"event\":\"page_load\",\"duration_ms\":5.0}\n";
    let events = parse_jsonl(text);
    assert_eq!(events.len(), 1);
    assert_eq!(events[0].text("event"), Some("page_load"));
}

#[test]
fn parse_jsonl_skips_a_truncated_final_line() {
    let text =
        "{\"event\":\"tab_create\",\"tab_id\":1,\"duration_ms\":2.0}\n{\"event\":\"tab_cre";
    let events = parse_jsonl(text);
    assert_eq!(events.len(), 1);
}

#[test]
fn parse_jsonl_of_empty_input_is_empty() {
    assert!(parse_jsonl("").is_empty());
    assert!(parse_jsonl("\n\n\n").is_empty());
}

#[test]
fn aggregate_ignores_events_before_the_last_measure_start() {
    let trial = vec![
        event(r#"{"event":"tab_create","tab_id":1,"duration_ms":50.0}"#),
        event(r#"{"event":"tab_create","tab_id":2,"duration_ms":60.0}"#),
        event(r#"{"event":"measure_start","ts_ms":100.0}"#),
        event(r#"{"event":"tab_create","tab_id":3,"duration_ms":10.0}"#),
        event(r#"{"event":"tab_create","tab_id":4,"duration_ms":12.0}"#),
    ];
    let aggregated = aggregate_trials(&[trial]);
    let found = stats(&aggregated, "tab_create_ms");
    assert_eq!(found.count, 2, "warm-up samples must not be pooled in");
    assert_eq!(found.median, 11.0);
}

#[test]
fn the_last_measure_start_is_the_one_that_cuts() {
    let trial = vec![
        event(r#"{"event":"measure_start","ts_ms":1.0}"#),
        event(r#"{"event":"tab_switch","tab_id":1,"duration_ms":99.0}"#),
        event(r#"{"event":"measure_start","ts_ms":2.0}"#),
        event(r#"{"event":"tab_switch","tab_id":2,"duration_ms":3.0}"#),
    ];
    let aggregated = aggregate_trials(&[trial]);
    let found = stats(&aggregated, "tab_switch_ms");
    assert_eq!(found.count, 1);
    assert_eq!(found.median, 3.0);
}

#[test]
fn a_trial_without_a_marker_keeps_every_event() {
    let trial = vec![
        event(r#"{"event":"tab_create","tab_id":1,"duration_ms":10.0}"#),
        event(r#"{"event":"tab_create","tab_id":2,"duration_ms":20.0}"#),
    ];
    let aggregated = aggregate_trials(&[trial]);
    assert_eq!(stats(&aggregated, "tab_create_ms").count, 2);
}

#[test]
fn a_marker_with_nothing_after_it_yields_no_samples() {
    let trial = vec![
        event(r#"{"event":"tab_create","tab_id":1,"duration_ms":10.0}"#),
        event(r#"{"event":"measure_start","ts_ms":5.0}"#),
    ];
    assert!(!has(&aggregate_trials(&[trial]), "tab_create_ms"));
}

#[test]
fn summarize_ipc_groups_by_direction_and_name_and_sums_bytes_and_count() {
    let events = vec![
        event(
            r#"{"event":"ipc","direction":"in","name":"navigate","bytes":40,"duration_ms":0.5}"#,
        ),
        event(
            r#"{"event":"ipc","direction":"in","name":"navigate","bytes":42,"duration_ms":0.7}"#,
        ),
        event(
            r#"{"event":"ipc","direction":"out","name":"set_tabs","bytes":500,"duration_ms":1.0}"#,
        ),
    ];
    let rows = summarize_ipc(&events);
    assert_eq!(rows.len(), 2);

    let navigate = rows.iter().find(|r| r.name == "navigate").unwrap();
    assert_eq!(navigate.direction, "in");
    assert_eq!(navigate.count, 2);
    assert_eq!(navigate.total_bytes, 82);
    assert_eq!(navigate.durations.len(), 2);
    assert_eq!(median(&numbers(&navigate.durations)), 0.6);

    let set_tabs = rows.iter().find(|r| r.name == "set_tabs").unwrap();
    assert_eq!(set_tabs.direction, "out");
    assert_eq!(set_tabs.count, 1);
    assert_eq!(set_tabs.total_bytes, 500);
}

#[test]
fn summarize_ipc_ignores_non_ipc_events() {
    let events = vec![
        event(r#"{"event":"tab_create","tab_id":1,"duration_ms":2.0}"#),
        event(r#"{"event":"ipc","direction":"in","name":"back","bytes":12,"duration_ms":0.1}"#),
    ];
    let rows = summarize_ipc(&events);
    assert_eq!(rows.len(), 1);
    assert_eq!(rows[0].name, "back");
}

#[test]
fn summarize_ipc_of_no_ipc_events_is_empty() {
    let events = vec![event(r#"{"event":"startup","ts_ms":1.0}"#)];
    assert!(summarize_ipc(&events).is_empty());
}

#[test]
fn summarize_ipc_sorts_by_total_bytes_descending() {
    let events = vec![
        event(
            r#"{"event":"ipc","direction":"in","name":"small","bytes":10,"duration_ms":0.1}"#,
        ),
        event(
            r#"{"event":"ipc","direction":"out","name":"big","bytes":9000,"duration_ms":0.1}"#,
        ),
        event(
            r#"{"event":"ipc","direction":"in","name":"medium","bytes":500,"duration_ms":0.1}"#,
        ),
    ];
    let rows = summarize_ipc(&events);
    let names: Vec<&str> = rows.iter().map(|r| r.name.as_str()).collect();
    assert_eq!(names, vec!["big", "medium", "small"]);
}

#[test]
fn cpu_percent_is_read_from_the_cpu_event() {
    let events = vec![
        event(r#"{"event":"cpu","percent":97.5,"ts_ms":10.0}"#),
        event(r#"{"event":"cpu","percent":0.6,"ts_ms":20.0}"#),
        event(
            r#"{"event":"rss","process_count":4,"total_rss_bytes":10,"total_cpu_seconds":3.0,"ts_ms":20.0}"#,
        ),
    ];
    assert_eq!(numbers(&MetricKey::CpuPercent.extract(&events)), vec![97.5, 0.6]);
    assert_eq!(numbers(&MetricKey::RssProcessCount.extract(&events)), vec![4.0]);
}

#[test]
fn extract_reads_matching_events_only() {
    let events = vec![
        event(r#"{"event":"tab_create","tab_id":1,"duration_ms":10.0}"#),
        event(r#"{"event":"tab_switch","tab_id":1,"duration_ms":2.0}"#),
        event(r#"{"event":"tab_create","tab_id":2,"duration_ms":12.0}"#),
    ];
    assert_eq!(numbers(&MetricKey::TabCreateMs.extract(&events)), vec![10.0, 12.0]);
    assert_eq!(numbers(&MetricKey::TabSwitchMs.extract(&events)), vec![2.0]);
}

#[test]
fn extract_startup_reads_all_three_fields_from_one_event() {
    let events = vec![event(
        r#"{"event":"startup","ts_ms":30.0,"window_created_ms":10.0,"toolbar_ready_ms":20.0,"first_load_ms":30.0}"#,
    )];
    assert_eq!(
        numbers(&MetricKey::StartupWindowCreatedMs.extract(&events)),
        vec![10.0]
    );
    assert_eq!(
        numbers(&MetricKey::StartupToolbarReadyMs.extract(&events)),
        vec![20.0]
    );
    assert_eq!(numbers(&MetricKey::StartupFirstLoadMs.extract(&events)), vec![30.0]);
}

#[test]
fn extract_rss_reads_bytes_and_process_count_separately() {
    let events = vec![event(
        r#"{"event":"rss","ts_ms":1.0,"pid":42,"process_count":5,"total_rss_bytes":1048576}"#,
    )];
    assert_eq!(numbers(&MetricKey::RssTotalBytes.extract(&events)), vec![1048576.0]);
    assert_eq!(numbers(&MetricKey::RssProcessCount.extract(&events)), vec![5.0]);
}

#[test]
fn extract_pss_reads_bytes_and_process_count_separately() {
    let events = vec![event(
        r#"{"event":"rss","ts_ms":1.0,"pid":42,"process_count":5,"total_rss_bytes":1048576,"total_pss_bytes":524288,"pss_process_count":4}"#,
    )];
    assert_eq!(numbers(&MetricKey::PssTotalBytes.extract(&events)), vec![524288.0]);
    assert_eq!(numbers(&MetricKey::PssProcessCount.extract(&events)), vec![4.0]);
}

#[test]
fn extract_pss_total_bytes_is_empty_when_json_null() {
    let events = vec![event(
        r#"{"event":"rss","ts_ms":1.0,"pid":42,"process_count":5,"total_rss_bytes":1048576,"total_pss_bytes":null,"pss_process_count":0}"#,
    )];
    assert!(MetricKey::PssTotalBytes.extract(&events).is_empty());
    assert_eq!(numbers(&MetricKey::PssProcessCount.extract(&events)), vec![0.0]);
}

#[test]
fn extract_pss_total_bytes_is_empty_when_field_absent() {
    let events = vec![event(
        r#"{"event":"rss","ts_ms":1.0,"pid":42,"process_count":5,"total_rss_bytes":1048576}"#,
    )];
    assert!(MetricKey::PssTotalBytes.extract(&events).is_empty());
    assert!(MetricKey::PssProcessCount.extract(&events).is_empty());
}

#[test]
fn extract_returns_empty_for_absent_metric() {
    let events = vec![event(
        r#"{"event":"page_load","url":"x","duration_ms":1.0}"#,
    )];
    assert!(MetricKey::TabCreateMs.extract(&events).is_empty());
}

#[test]
fn suspended_tab_count_counts_every_tab_suspend_event_as_one_sample() {
    let events = vec![
        event(r#"{"event":"tab_suspend","tab_id":1,"reason":"memory","ts_ms":1.0}"#),
        event(r#"{"event":"tab_suspend","tab_id":2,"reason":"memory","ts_ms":2.0}"#),
        event(r#"{"event":"tab_suspend","tab_id":3,"reason":"idle","ts_ms":3.0}"#),
    ];
    assert_eq!(numbers(&MetricKey::SuspendedTabCount.extract(&events)), vec![3.0]);
}

#[test]
fn suspended_tab_count_is_a_real_zero_when_the_event_never_fires_but_others_did() {
    let events = vec![
        event(r#"{"event":"tab_create","tab_id":1,"duration_ms":10.0}"#),
        event(r#"{"event":"rss","process_count":1,"total_rss_bytes":100,"ts_ms":1.0}"#),
    ];
    assert_eq!(numbers(&MetricKey::SuspendedTabCount.extract(&events)), vec![0.0]);
}

#[test]
fn suspended_tab_count_is_absent_for_a_wholly_empty_trial() {
    assert!(MetricKey::SuspendedTabCount.extract(&[]).is_empty());
}

#[test]
fn suspended_tab_count_ignores_other_event_kinds() {
    let events = vec![
        event(r#"{"event":"tab_resume","tab_id":1,"duration_ms":5.0}"#),
        event(r#"{"event":"tab_suspend","tab_id":1,"reason":"tab_count","ts_ms":1.0}"#),
        event(r#"{"event":"tab_create","tab_id":2,"duration_ms":10.0}"#),
    ];
    assert_eq!(numbers(&MetricKey::SuspendedTabCount.extract(&events)), vec![1.0]);
}

#[test]
fn suspended_tab_count_round_trips_through_from_metric_name() {
    assert_eq!(
        MetricKey::from_metric_name("suspended_tab_count"),
        Some(MetricKey::SuspendedTabCount)
    );
}

#[test]
fn aggregate_trials_counts_suspensions_from_before_the_measure_start_marker() {
    let trial = vec![
        event(r#"{"event":"tab_create","tab_id":1,"duration_ms":50.0}"#),
        event(r#"{"event":"tab_suspend","tab_id":1,"reason":"memory","ts_ms":60.0}"#),
        event(r#"{"event":"tab_suspend","tab_id":2,"reason":"memory","ts_ms":61.0}"#),
        event(r#"{"event":"measure_start","ts_ms":100.0}"#),
        event(r#"{"event":"tab_create","tab_id":3,"duration_ms":10.0}"#),
    ];
    let aggregated = aggregate_trials(&[trial]);
    assert_eq!(
        stats(&aggregated, "suspended_tab_count").median,
        2.0,
        "suspensions before measure_start must still be counted"
    );
    assert_eq!(
        stats(&aggregated, "tab_create_ms").count,
        1,
        "the warm-up tab_create must still be cut, unlike suspended_tab_count"
    );
}

#[test]
fn aggregate_trials_pools_samples_across_trials() {
    let trial_a = vec![event(
        r#"{"event":"tab_create","tab_id":1,"duration_ms":10.0}"#,
    )];
    let trial_b = vec![event(
        r#"{"event":"tab_create","tab_id":1,"duration_ms":20.0}"#,
    )];
    let aggregated = aggregate_trials(&[trial_a, trial_b]);
    let found = stats(&aggregated, "tab_create_ms");
    assert_eq!(found.count, 2);
    assert_eq!(found.median, 15.0);
}

#[test]
fn aggregate_trials_of_a_single_trial_works() {
    let trial = vec![event(
        r#"{"event":"page_load","url":"https://example.com/","duration_ms":250.0}"#,
    )];
    let aggregated = aggregate_trials(std::slice::from_ref(&trial));
    assert_eq!(stats(&aggregated, "page_load_ms").count, 1);
    assert_eq!(stats(&aggregated, "page_load_ms").median, 250.0);
}

#[test]
fn aggregate_trials_of_no_trials_is_empty() {
    assert!(aggregate_trials(&[]).is_empty());
}

#[test]
fn aggregate_trials_omits_metrics_with_no_samples() {
    let trial = vec![event(
        r#"{"event":"startup","window_created_ms":1.0,"toolbar_ready_ms":2.0,"first_load_ms":3.0}"#,
    )];
    let aggregated = aggregate_trials(&[trial]);
    assert!(!has(&aggregated, "tab_create_ms"));
    assert!(!has(&aggregated, "rss_total_bytes"));
    assert_eq!(aggregated.len(), 4);
    assert_eq!(stats(&aggregated, "suspended_tab_count").median, 0.0);
}

#[test]
fn aggregate_trials_includes_pss_when_present() {
    let trial = vec![event(
        r#"{"event":"rss","process_count":5,"total_rss_bytes":1000,"total_pss_bytes":600,"pss_process_count":5}"#,
    )];
    let aggregated = aggregate_trials(&[trial]);
    assert_eq!(stats(&aggregated, "pss_total_bytes").median, 600.0);
    assert_eq!(stats(&aggregated, "pss_process_count").median, 5.0);
}

#[test]
fn aggregate_trials_omits_pss_total_bytes_when_unreadable_but_keeps_rss() {
    let trial = vec![event(
        r#"{"event":"rss","process_count":5,"total_rss_bytes":1000,"total_pss_bytes":null,"pss_process_count":0}"#,
    )];
    let aggregated = aggregate_trials(&[trial]);
    assert!(!has(&aggregated, "pss_total_bytes"));
    assert_eq!(stats(&aggregated, "rss_total_bytes").median, 1000.0);
    assert_eq!(stats(&aggregated, "pss_process_count").median, 0.0);
}

#[test]
fn aggregate_trials_ignores_a_trial_with_broken_lines_via_parse_jsonl() {
    let good = parse_jsonl("{\"event\":\"tab_switch\",\"tab_id\":1,\"duration_ms\":5.0}\n");
    let broken = parse_jsonl("not json\n\n");
    let aggregated = aggregate_trials(&[good, broken]);
    assert_eq!(stats(&aggregated, "tab_switch_ms").count, 1);
}

#[test]
fn metric_names_read_back() {
    for key in MetricKey::ALL {
        assert_eq!(MetricKey::from_metric_name(key.as_str()), Some(key));
    }
    assert_eq!(MetricKey::from_metric_name("no_such_metric"), None);
}

#[test]
fn the_rows_of_a_summary_hold_all_messages() {
    let events: Vec<PerfEvent> = (0..10)
        .map(|i| {
            event(&format!(
                r#"{{"event":"ipc","direction":"in","name":"n{}","bytes":{i},"duration_ms":1.5}}"#,
                i % 3
            ))
        })
        .collect();
    let rows = summarize_ipc(&events);
    assert_eq!(rows.iter().map(|r| r.count).sum::<usize>(), 10);
    assert_eq!(rows.iter().map(|r| r.total_bytes).sum::<u64>(), 45);
    assert_eq!(rows.iter().map(|r| r.durations.len()).sum::<usize>(), 10);
}
