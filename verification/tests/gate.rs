//! Judging a benchmark against a baseline.
//!
//! Medians are numbers with fractions, which the library does not hold: here as in
//! the program around it, they are compared before the library is asked.

use velox_browser::benchmark::{
    classify_change, evaluate_gate, render_gate_markdown, CandidateFigure, CandidateSummary,
    GateFigures, GateInputProblem, GateMetricVerdict, GateReport, JudgedMetric, MetricFigures,
    MetricKey, MetricSummary, ResultSummary, Severity, MIN_TRIALS_FOR_CONFIDENT_GATE,
};

const WARN_PCT: f64 = 20.0;
const FAIL_PCT: f64 = 60.0;

struct Stats {
    count: usize,
    median: f64,
}

struct Measured {
    scenario: String,
    os: String,
    metrics: Vec<(String, Stats)>,
}

impl Measured {
    fn get(&self, name: &str) -> Option<&Stats> {
        self.metrics.iter().find(|(n, _)| n == name).map(|(_, s)| s)
    }
}

fn stats_with(count: usize, median: f64) -> Stats {
    Stats { count, median }
}

fn result_with_stats<const N: usize>(scenario: &str, metrics: &[(&str, Stats); N]) -> Measured {
    let mut metrics: Vec<(String, Stats)> = metrics
        .iter()
        .map(|(name, stats)| ((*name).to_owned(), stats_with(stats.count, stats.median)))
        .collect();
    metrics.sort_by(|a, b| a.0.cmp(&b.0));
    Measured {
        scenario: scenario.to_owned(),
        os: "linux".to_owned(),
        metrics,
    }
}

fn pct_change(baseline: f64, candidate: f64) -> f64 {
    if baseline == 0.0 {
        if candidate == 0.0 {
            0.0
        } else {
            f64::INFINITY
        }
    } else {
        (candidate - baseline) / baseline * 100.0
    }
}

fn judge(name: &str, baseline: f64, candidate: f64) -> Severity {
    let floor = MetricKey::from_metric_name(name)
        .map(|key| key.min_significant_delta() as f64)
        .unwrap_or(0.0);
    let change = pct_change(baseline, candidate);
    classify_change(
        (candidate - baseline).abs() >= floor,
        change > FAIL_PCT,
        change > WARN_PCT,
    )
}

fn gate(baseline: &Measured, candidates: &[&Measured]) -> GateReport {
    let summary = ResultSummary {
        scenario: baseline.scenario.clone(),
        os: baseline.os.clone(),
        metrics: baseline
            .metrics
            .iter()
            .map(|(name, stats)| MetricSummary { name: name.clone(), count: stats.count })
            .collect(),
    };
    let judged: Vec<CandidateSummary> = candidates
        .iter()
        .map(|c| CandidateSummary {
            scenario: c.scenario.clone(),
            os: c.os.clone(),
            metrics: c
                .metrics
                .iter()
                .map(|(name, stats)| JudgedMetric {
                    name: name.clone(),
                    count: stats.count,
                    severity: match baseline.get(name) {
                        Some(b) => judge(name, b.median, stats.median),
                        None => Severity::Okay,
                    },
                })
                .collect(),
        })
        .collect();
    evaluate_gate(&summary, &judged)
}

fn verdict<'a>(report: &'a GateReport, name: &str) -> &'a GateMetricVerdict {
    report.metrics.iter().find(|m| m.name == name).unwrap()
}

fn changes(name: &str, baseline: &Measured, candidates: &[&Measured]) -> Vec<f64> {
    let before = baseline.get(name).unwrap().median;
    candidates
        .iter()
        .filter_map(|c| c.get(name))
        .map(|s| pct_change(before, s.median))
        .collect()
}

fn markdown_of(report: &GateReport, baseline: &Measured, candidates: &[&Measured]) -> String {
    let metrics = report
        .metrics
        .iter()
        .map(|m| MetricFigures {
            baseline: format!("{:.1}", baseline.get(&m.name).unwrap().median),
            candidates: candidates
                .iter()
                .filter_map(|c| c.get(&m.name))
                .map(|s| CandidateFigure {
                    median: format!("{:.1}", s.median),
                    change: Some(format!(
                        "{:+.1}",
                        pct_change(baseline.get(&m.name).unwrap().median, s.median)
                    )),
                })
                .collect(),
        })
        .collect();
    render_gate_markdown(
        report,
        &GateFigures {
            warn_pct: WARN_PCT.to_string(),
            fail_pct: FAIL_PCT.to_string(),
            metrics,
        },
    )
}

const KEY: &str = "startup_first_load_ms";

#[test]
fn ok_when_change_is_negligible() {
    let baseline = result_with_stats("cold_startup", &[(KEY, stats_with(10, 500.0))]);
    let candidate = result_with_stats("cold_startup", &[(KEY, stats_with(10, 502.0))]);
    let report = gate(&baseline, &[&candidate]);
    assert_eq!(verdict(&report, KEY).severity, Severity::Okay);
    assert_eq!(report.overall, Severity::Okay);
}

#[test]
fn warn_when_change_exceeds_warn_pct_but_not_fail_pct() {
    let baseline = result_with_stats("cold_startup", &[(KEY, stats_with(10, 500.0))]);
    let candidate = result_with_stats("cold_startup", &[(KEY, stats_with(10, 650.0))]);
    let report = gate(&baseline, &[&candidate]);
    assert_eq!(verdict(&report, KEY).severity, Severity::Warn);
    assert_eq!(report.overall, Severity::Warn);
}

#[test]
fn fail_when_single_candidate_exceeds_fail_pct() {
    let baseline = result_with_stats("cold_startup", &[(KEY, stats_with(10, 500.0))]);
    let candidate = result_with_stats("cold_startup", &[(KEY, stats_with(10, 900.0))]);
    let report = gate(&baseline, &[&candidate]);
    assert_eq!(verdict(&report, KEY).severity, Severity::Fail);
    assert_eq!(report.overall, Severity::Fail);
}

#[test]
fn improvement_is_ok_not_warn_or_fail() {
    let baseline = result_with_stats("cold_startup", &[(KEY, stats_with(10, 500.0))]);
    let candidate = result_with_stats("cold_startup", &[(KEY, stats_with(10, 200.0))]);
    let report = gate(&baseline, &[&candidate]);
    assert_eq!(verdict(&report, KEY).severity, Severity::Okay);
}

#[test]
fn exactly_at_warn_pct_is_still_ok() {
    let baseline = result_with_stats("cold_startup", &[(KEY, stats_with(10, 500.0))]);
    let candidate = result_with_stats("cold_startup", &[(KEY, stats_with(10, 600.0))]);
    let report = gate(&baseline, &[&candidate]);
    assert_eq!(verdict(&report, KEY).severity, Severity::Okay);
}

#[test]
fn just_above_warn_pct_is_warn() {
    let baseline = result_with_stats("cold_startup", &[(KEY, stats_with(10, 500.0))]);
    let candidate = result_with_stats("cold_startup", &[(KEY, stats_with(10, 600.01))]);
    let report = gate(&baseline, &[&candidate]);
    assert_eq!(verdict(&report, KEY).severity, Severity::Warn);
}

#[test]
fn exactly_at_fail_pct_is_warn_not_fail() {
    let baseline = result_with_stats("cold_startup", &[(KEY, stats_with(10, 500.0))]);
    let candidate = result_with_stats("cold_startup", &[(KEY, stats_with(10, 800.0))]);
    let report = gate(&baseline, &[&candidate]);
    assert_eq!(verdict(&report, KEY).severity, Severity::Warn);
}

#[test]
fn just_above_fail_pct_is_fail() {
    let baseline = result_with_stats("cold_startup", &[(KEY, stats_with(10, 500.0))]);
    let candidate = result_with_stats("cold_startup", &[(KEY, stats_with(10, 800.01))]);
    let report = gate(&baseline, &[&candidate]);
    assert_eq!(verdict(&report, KEY).severity, Severity::Fail);
}

#[test]
fn identical_medians_are_ok() {
    let baseline = result_with_stats("cold_startup", &[(KEY, stats_with(10, 500.0))]);
    let candidate = result_with_stats("cold_startup", &[(KEY, stats_with(10, 500.0))]);
    let report = gate(&baseline, &[&candidate]);
    let verdict = verdict(&report, KEY);
    assert_eq!(verdict.severity, Severity::Okay);
    assert_eq!(changes(KEY, &baseline, &[&candidate]), vec![0.0]);
}

#[test]
fn zero_baseline_and_zero_candidate_is_ok_not_nan() {
    let baseline = result_with_stats("cold_startup", &[(KEY, stats_with(10, 0.0))]);
    let candidate = result_with_stats("cold_startup", &[(KEY, stats_with(10, 0.0))]);
    let report = gate(&baseline, &[&candidate]);
    assert_eq!(verdict(&report, KEY).severity, Severity::Okay);
    assert_eq!(changes(KEY, &baseline, &[&candidate]), vec![0.0]);
}

#[test]
fn tiny_absolute_change_stays_ok_despite_huge_pct_change() {
    let baseline = result_with_stats("tab_switch", &[("tab_switch_ms", stats_with(10, 0.1))]);
    let candidate = result_with_stats("tab_switch", &[("tab_switch_ms", stats_with(10, 5.0))]);
    let report = gate(&baseline, &[&candidate]);
    assert_eq!(verdict(&report, "tab_switch_ms").severity, Severity::Okay);
}

#[test]
fn zero_baseline_with_delta_above_floor_is_fail() {
    let baseline = result_with_stats("tab_switch", &[("tab_switch_ms", stats_with(10, 0.0))]);
    let candidate = result_with_stats("tab_switch", &[("tab_switch_ms", stats_with(10, 20.0))]);
    let report = gate(&baseline, &[&candidate]);
    let verdict = verdict(&report, "tab_switch_ms");
    assert_eq!(changes("tab_switch_ms", &baseline, &[&candidate]), vec![f64::INFINITY]);
    assert_eq!(verdict.severity, Severity::Fail);
}

#[test]
fn metric_with_no_known_min_delta_falls_back_to_zero_floor() {
    let baseline =
        result_with_stats("cold_startup", &[("future_metric_ms", stats_with(10, 1.0))]);
    let candidate =
        result_with_stats("cold_startup", &[("future_metric_ms", stats_with(10, 2.0))]);
    let report = gate(&baseline, &[&candidate]);
    assert_eq!(verdict(&report, "future_metric_ms").severity, Severity::Fail);
}

#[test]
fn low_baseline_trial_count_caps_severity_at_warn() {
    let baseline = result_with_stats("cold_startup", &[(KEY, stats_with(2, 500.0))]);
    let candidate = result_with_stats("cold_startup", &[(KEY, stats_with(10, 1000.0))]);
    let report = gate(&baseline, &[&candidate]);
    let verdict = verdict(&report, KEY);
    assert!(verdict.low_confidence);
    assert_eq!(verdict.severity, Severity::Warn);
}

#[test]
fn low_candidate_trial_count_caps_severity_at_warn() {
    let baseline = result_with_stats("cold_startup", &[(KEY, stats_with(10, 500.0))]);
    let candidate = result_with_stats("cold_startup", &[(KEY, stats_with(1, 1000.0))]);
    let report = gate(&baseline, &[&candidate]);
    let verdict = verdict(&report, KEY);
    assert!(verdict.low_confidence);
    assert_eq!(verdict.severity, Severity::Warn);
}

#[test]
fn low_confidence_with_no_real_change_stays_ok() {
    let baseline = result_with_stats("cold_startup", &[(KEY, stats_with(1, 500.0))]);
    let candidate = result_with_stats("cold_startup", &[(KEY, stats_with(1, 502.0))]);
    let report = gate(&baseline, &[&candidate]);
    let verdict = verdict(&report, KEY);
    assert!(verdict.low_confidence);
    assert_eq!(verdict.severity, Severity::Okay);
}

#[test]
fn exactly_at_min_trials_threshold_is_not_low_confidence() {
    let baseline = result_with_stats(
        "cold_startup",
        &[(KEY, stats_with(MIN_TRIALS_FOR_CONFIDENT_GATE, 500.0))],
    );
    let candidate = result_with_stats(
        "cold_startup",
        &[(KEY, stats_with(MIN_TRIALS_FOR_CONFIDENT_GATE, 900.0))],
    );
    let report = gate(&baseline, &[&candidate]);
    let verdict = verdict(&report, KEY);
    assert!(!verdict.low_confidence);
    assert_eq!(verdict.severity, Severity::Fail);
}

#[test]
fn metric_missing_from_baseline_is_reported_not_guessed() {
    let baseline = result_with_stats("cold_startup", &[]);
    let candidate = result_with_stats("cold_startup", &[(KEY, stats_with(10, 500.0))]);
    let report = gate(&baseline, &[&candidate]);
    assert!(report.metrics.is_empty());
    assert_eq!(report.only_in_candidates, vec![KEY.to_owned()]);
    assert_eq!(report.problems, vec![GateInputProblem::NoComparableMetrics]);
    assert_eq!(report.overall, Severity::Fail);
}

#[test]
fn empty_baseline_result_is_not_a_silent_pass() {
    let baseline = result_with_stats("cold_startup", &[]);
    let candidate = result_with_stats(
        "cold_startup",
        &[
            (KEY, stats_with(10, 500.0)),
            ("rss_total_bytes", stats_with(10, 1.0)),
        ],
    );
    let report = gate(&baseline, &[&candidate]);
    assert_eq!(report.overall, Severity::Fail);
    assert_eq!(report.only_in_candidates.len(), 2);
    assert!(report
        .problems
        .contains(&GateInputProblem::NoComparableMetrics));
}

#[test]
fn metric_missing_from_one_candidate_is_still_evaluated_from_the_other() {
    let baseline = result_with_stats("cold_startup", &[(KEY, stats_with(10, 500.0))]);
    let with_metric = result_with_stats("cold_startup", &[(KEY, stats_with(10, 900.0))]);
    let without_metric = result_with_stats("cold_startup", &[]);
    let report = gate(&baseline, &[&with_metric, &without_metric]);
    let verdict = verdict(&report, KEY);
    assert_eq!(verdict.per_candidate_severity.len(), 1);
    assert_eq!(verdict.severity, Severity::Fail);
}

#[test]
fn no_candidates_at_all_fails_instead_of_panicking() {
    let baseline = result_with_stats("cold_startup", &[(KEY, stats_with(10, 500.0))]);
    let report = gate(&baseline, &[]);
    assert!(report.metrics.is_empty());
    assert_eq!(report.problems, vec![GateInputProblem::NoComparableMetrics]);
    assert_eq!(report.overall, Severity::Fail);
    assert_eq!(report.only_in_baseline, vec![KEY.to_owned()]);
    assert_eq!(report.candidate_count, 0);
}

#[test]
fn two_candidates_both_failing_is_fail() {
    let baseline = result_with_stats("cold_startup", &[(KEY, stats_with(10, 500.0))]);
    let candidate_a = result_with_stats("cold_startup", &[(KEY, stats_with(10, 900.0))]);
    let candidate_b = result_with_stats("cold_startup", &[(KEY, stats_with(10, 1000.0))]);
    let report = gate(&baseline, &[&candidate_a, &candidate_b]);
    assert_eq!(verdict(&report, KEY).severity, Severity::Fail);
}

#[test]
fn two_candidates_only_one_failing_is_warn_not_fail() {
    let baseline = result_with_stats("cold_startup", &[(KEY, stats_with(10, 500.0))]);
    let candidate_a = result_with_stats("cold_startup", &[(KEY, stats_with(10, 900.0))]);
    let candidate_b = result_with_stats("cold_startup", &[(KEY, stats_with(10, 505.0))]);
    let report = gate(&baseline, &[&candidate_a, &candidate_b]);
    assert_eq!(verdict(&report, KEY).severity, Severity::Warn);
}

#[test]
fn three_candidates_two_of_three_failing_is_fail() {
    let baseline = result_with_stats("cold_startup", &[(KEY, stats_with(10, 500.0))]);
    let a = result_with_stats("cold_startup", &[(KEY, stats_with(10, 900.0))]);
    let b = result_with_stats("cold_startup", &[(KEY, stats_with(10, 1000.0))]);
    let c = result_with_stats("cold_startup", &[(KEY, stats_with(10, 502.0))]);
    let report = gate(&baseline, &[&a, &b, &c]);
    assert_eq!(verdict(&report, KEY).severity, Severity::Fail);
}

#[test]
fn three_candidates_one_of_three_failing_is_warn() {
    let baseline = result_with_stats("cold_startup", &[(KEY, stats_with(10, 500.0))]);
    let a = result_with_stats("cold_startup", &[(KEY, stats_with(10, 900.0))]);
    let b = result_with_stats("cold_startup", &[(KEY, stats_with(10, 502.0))]);
    let c = result_with_stats("cold_startup", &[(KEY, stats_with(10, 503.0))]);
    let report = gate(&baseline, &[&a, &b, &c]);
    assert_eq!(verdict(&report, KEY).severity, Severity::Warn);
}

#[test]
fn overall_is_the_worst_of_all_metrics() {
    let baseline = result_with_stats(
        "cold_startup",
        &[
            (KEY, stats_with(10, 500.0)),
            ("rss_total_bytes", stats_with(10, 300_000_000.0)),
        ],
    );
    let candidate = result_with_stats(
        "cold_startup",
        &[
            (KEY, stats_with(10, 502.0)),
            ("rss_total_bytes", stats_with(10, 600_000_000.0)),
        ],
    );
    let report = gate(&baseline, &[&candidate]);
    assert_eq!(verdict(&report, KEY).severity, Severity::Okay);
    assert_eq!(verdict(&report, "rss_total_bytes").severity, Severity::Fail);
    assert_eq!(report.overall, Severity::Fail);
}

#[test]
fn markdown_report_mentions_overall_severity_and_metric_rows() {
    let baseline = result_with_stats("cold_startup", &[(KEY, stats_with(10, 500.0))]);
    let candidate = result_with_stats("cold_startup", &[(KEY, stats_with(10, 900.0))]);
    let report = gate(&baseline, &[&candidate]);
    let markdown = markdown_of(&report, &baseline, &[&candidate]);
    assert!(markdown.contains("FAIL"));
    assert!(markdown.contains(KEY));
    assert!(markdown.contains("cold_startup"));
}

#[test]
fn markdown_report_of_empty_metrics_does_not_panic() {
    let baseline = result_with_stats("cold_startup", &[]);
    let candidate = result_with_stats("cold_startup", &[]);
    let report = gate(&baseline, &[&candidate]);
    let markdown = markdown_of(&report, &baseline, &[&candidate]);
    assert!(markdown.contains("比較可能なメトリクスがありません"));
    assert!(markdown.contains("FAIL"));
    assert!(markdown.contains("入力の前提を満たしていません"));
}

#[test]
fn scenario_mismatch_fails_even_when_the_numbers_look_fine() {
    let baseline = result_with_stats("cold_startup", &[(KEY, stats_with(10, 500.0))]);
    let candidate = result_with_stats("tabs_20", &[(KEY, stats_with(10, 500.0))]);
    let report = gate(&baseline, &[&candidate]);
    assert_eq!(verdict(&report, KEY).severity, Severity::Okay);
    assert_eq!(
        report.problems,
        vec![GateInputProblem::ScenarioMismatch {
            candidate_index: 0,
            baseline: "cold_startup".to_owned(),
            candidate: "tabs_20".to_owned(),
        }]
    );
    assert_eq!(report.overall, Severity::Fail);
}

#[test]
fn os_mismatch_fails() {
    let baseline = result_with_stats("cold_startup", &[(KEY, stats_with(10, 500.0))]);
    let mut candidate = result_with_stats("cold_startup", &[(KEY, stats_with(10, 505.0))]);
    candidate.os = "windows".to_owned();
    let report = gate(&baseline, &[&candidate]);
    assert_eq!(
        report.problems,
        vec![GateInputProblem::OsMismatch {
            candidate_index: 0,
            baseline: "linux".to_owned(),
            candidate: "windows".to_owned(),
        }]
    );
    assert_eq!(report.overall, Severity::Fail);
}

#[test]
fn mismatch_names_the_offending_candidate_by_index() {
    let baseline = result_with_stats("cold_startup", &[(KEY, stats_with(10, 500.0))]);
    let good = result_with_stats("cold_startup", &[(KEY, stats_with(10, 505.0))]);
    let bad = result_with_stats("tabs_5", &[(KEY, stats_with(10, 505.0))]);
    let report = gate(&baseline, &[&good, &bad]);
    assert_eq!(
        report.problems,
        vec![GateInputProblem::ScenarioMismatch {
            candidate_index: 1,
            baseline: "cold_startup".to_owned(),
            candidate: "tabs_5".to_owned(),
        }]
    );
    assert!(report.problems[0].describe().contains("candidate[1]"));
}

#[test]
fn candidate_with_no_metrics_at_all_fails() {
    let baseline = result_with_stats("cold_startup", &[(KEY, stats_with(10, 500.0))]);
    let candidate = result_with_stats("cold_startup", &[]);
    let report = gate(&baseline, &[&candidate]);
    assert!(report.metrics.is_empty());
    assert_eq!(report.only_in_baseline, vec![KEY.to_owned()]);
    assert!(report
        .problems
        .contains(&GateInputProblem::CandidateWithoutMetrics { candidate_index: 0 }));
    assert_eq!(report.overall, Severity::Fail);
}

#[test]
fn baseline_metric_missing_from_every_candidate_warns_but_does_not_block() {
    let baseline = result_with_stats(
        "cold_startup",
        &[
            (KEY, stats_with(10, 500.0)),
            ("rss_total_bytes", stats_with(10, 100.0)),
        ],
    );
    let candidate = result_with_stats("cold_startup", &[(KEY, stats_with(10, 505.0))]);
    let report = gate(&baseline, &[&candidate]);
    assert_eq!(verdict(&report, KEY).severity, Severity::Okay);
    assert_eq!(
        report.problems,
        vec![GateInputProblem::MetricsMissingFromCandidates {
            metrics: vec!["rss_total_bytes".to_owned()],
        }]
    );
    assert_eq!(report.overall, Severity::Warn);
}

#[test]
fn a_metric_regression_still_outranks_a_warn_level_problem() {
    let baseline = result_with_stats(
        "cold_startup",
        &[
            (KEY, stats_with(10, 500.0)),
            ("rss_total_bytes", stats_with(10, 100.0)),
        ],
    );
    let candidate = result_with_stats("cold_startup", &[(KEY, stats_with(10, 900.0))]);
    let report = gate(&baseline, &[&candidate]);
    assert_eq!(verdict(&report, KEY).severity, Severity::Fail);
    assert_eq!(report.overall, Severity::Fail);
}

#[test]
fn a_well_formed_comparison_reports_no_problems() {
    let baseline = result_with_stats("cold_startup", &[(KEY, stats_with(10, 500.0))]);
    let first = result_with_stats("cold_startup", &[(KEY, stats_with(10, 505.0))]);
    let second = result_with_stats("cold_startup", &[(KEY, stats_with(10, 498.0))]);
    let report = gate(&baseline, &[&first, &second]);
    assert!(report.problems.is_empty());
    assert_eq!(report.overall, Severity::Okay);
}

#[test]
fn problems_describe_themselves() {
    let candidate_index = 2;
    for (problem, severity) in [
        (GateInputProblem::NoComparableMetrics, Severity::Fail),
        (GateInputProblem::CandidateWithoutMetrics { candidate_index }, Severity::Fail),
        (
            GateInputProblem::ScenarioMismatch {
                candidate_index,
                baseline: "a".to_owned(),
                candidate: "b".to_owned(),
            },
            Severity::Fail,
        ),
        (
            GateInputProblem::OsMismatch {
                candidate_index,
                baseline: "a".to_owned(),
                candidate: "b".to_owned(),
            },
            Severity::Fail,
        ),
        (
            GateInputProblem::MetricsMissingFromCandidates { metrics: vec!["m".to_owned()] },
            Severity::Warn,
        ),
    ] {
        assert_eq!(problem.severity(), severity);
        assert!(!problem.describe().is_empty());
    }
}

#[test]
fn changes_are_classified_in_order() {
    assert_eq!(classify_change(false, true, true), Severity::Okay);
    assert_eq!(classify_change(true, true, true), Severity::Fail);
    assert_eq!(classify_change(true, false, true), Severity::Warn);
    assert_eq!(classify_change(true, false, false), Severity::Okay);
}

#[test]
fn verdicts_stand_in_the_order_of_the_names() {
    let all = |names: [&'static str; 4]| {
        result_with_stats("cold_startup", &names.map(|name| (name, stats_with(10, 1.0))))
    };
    let report = gate(&all(["d", "b", "c", "a"]), &[&all(["z", "d", "y", "b"])]);
    let names: Vec<&str> = report.metrics.iter().map(|m| m.name.as_str()).collect();
    assert_eq!(names, ["b", "d"]);
    assert_eq!(report.only_in_baseline, ["a", "c"]);
    assert_eq!(report.only_in_candidates, ["y", "z"]);
}
