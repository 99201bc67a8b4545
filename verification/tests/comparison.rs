//! Comparing two benchmark results, and how far to trust memory samples.
//!
//! Medians are numbers with fractions, which the library does not hold: here as in
//! the program around it, they are compared before the library is asked.

use velox_browser::benchmark::{
    compare, memory_sample_confidence, ComparisonReport, JudgedResult, MemorySampleConfidence,
    MetricDiff, MetricKey, MetricSummary, ResultSummary, MIN_RSS_SAMPLES_PER_TRIAL,
};
use velox_browser::scenario::Scenario;

struct Measured {
    scenario: String,
    metrics: Vec<(String, f64)>,
}

fn result_with(scenario: &str, metrics: &[(&str, f64)]) -> Measured {
    let mut metrics: Vec<(String, f64)> =
        metrics.iter().map(|(name, median)| ((*name).to_owned(), *median)).collect();
    metrics.sort_by(|a, b| a.0.cmp(&b.0));
    Measured { scenario: scenario.to_owned(), metrics }
}

fn change(before: f64, after: f64) -> f64 {
    if before == 0.0 {
        if after == 0.0 {
            0.0
        } else {
            f64::INFINITY
        }
    } else {
        (after - before) / before * 100.0
    }
}

fn pct_change(baseline: &Measured, candidate: &Measured) -> f64 {
    change(baseline.metrics[0].1, candidate.metrics[0].1)
}

fn compared(baseline: &Measured, candidate: &Measured, threshold_pct: f64) -> ComparisonReport {
    let summary = ResultSummary {
        scenario: baseline.scenario.clone(),
        os: "linux".to_owned(),
        metrics: baseline
            .metrics
            .iter()
            .map(|(name, _)| MetricSummary { name: name.clone(), count: 10 })
            .collect(),
    };
    let judged = JudgedResult {
        scenario: candidate.scenario.clone(),
        metrics: candidate
            .metrics
            .iter()
            .map(|(name, after)| MetricDiff {
                name: name.clone(),
                regressed: baseline
                    .metrics
                    .iter()
                    .any(|(n, before)| n == name && change(*before, *after) > threshold_pct),
            })
            .collect(),
    };
    compare(&summary, &judged)
}

fn diff<'a>(report: &'a ComparisonReport, name: &str) -> &'a MetricDiff {
    report.diffs.iter().find(|d| d.name == name).unwrap()
}

fn samples_of(key: MetricKey, count: usize) -> MetricSummary {
    MetricSummary { name: key.as_str().to_owned(), count }
}

#[test]
fn compare_flags_a_regression_beyond_threshold() {
    let baseline = result_with("cold_startup", &[("startup_first_load_ms", 100.0)]);
    let candidate = result_with("cold_startup", &[("startup_first_load_ms", 120.0)]);
    let report = compared(&baseline, &candidate, 10.0);
    let diff = diff(&report, "startup_first_load_ms");
    assert_eq!(pct_change(&baseline, &candidate), 20.0);
    assert!(diff.regressed);
    assert!(report.any_regressed);
}

#[test]
fn compare_does_not_flag_an_improvement() {
    let baseline = result_with("cold_startup", &[("startup_first_load_ms", 100.0)]);
    let candidate = result_with("cold_startup", &[("startup_first_load_ms", 80.0)]);
    let report = compared(&baseline, &candidate, 10.0);
    let diff = diff(&report, "startup_first_load_ms");
    assert_eq!(pct_change(&baseline, &candidate), -20.0);
    assert!(!diff.regressed);
    assert!(!report.any_regressed);
}

#[test]
fn compare_within_threshold_is_not_a_regression() {
    let baseline = result_with("cold_startup", &[("startup_first_load_ms", 100.0)]);
    let candidate = result_with("cold_startup", &[("startup_first_load_ms", 105.0)]);
    let report = compared(&baseline, &candidate, 10.0);
    assert!(!diff(&report, "startup_first_load_ms").regressed);
    assert!(!report.any_regressed);
}

#[test]
fn compare_zero_baseline_with_nonzero_candidate_is_infinite_and_regressed() {
    let baseline = result_with("tab_create", &[("tab_create_ms", 0.0)]);
    let candidate = result_with("tab_create", &[("tab_create_ms", 5.0)]);
    let report = compared(&baseline, &candidate, 10.0);
    let diff = diff(&report, "tab_create_ms");
    assert_eq!(pct_change(&baseline, &candidate), f64::INFINITY);
    assert!(diff.regressed);
}

#[test]
fn compare_zero_baseline_and_zero_candidate_is_unchanged() {
    let baseline = result_with("tab_create", &[("tab_create_ms", 0.0)]);
    let candidate = result_with("tab_create", &[("tab_create_ms", 0.0)]);
    let report = compared(&baseline, &candidate, 10.0);
    let diff = diff(&report, "tab_create_ms");
    assert_eq!(pct_change(&baseline, &candidate), 0.0);
    assert!(!diff.regressed);
}

#[test]
fn compare_lists_metrics_present_on_only_one_side() {
    let baseline = result_with(
        "cold_startup",
        &[("startup_first_load_ms", 100.0), ("only_baseline", 1.0)],
    );
    let candidate = result_with(
        "cold_startup",
        &[("startup_first_load_ms", 100.0), ("only_candidate", 1.0)],
    );
    let report = compared(&baseline, &candidate, 10.0);
    assert_eq!(report.only_in_baseline, vec!["only_baseline".to_owned()]);
    assert_eq!(report.only_in_candidate, vec!["only_candidate".to_owned()]);
    assert_eq!(report.diffs.len(), 1);
}

#[test]
fn memory_confidence_is_not_applicable_to_non_memory_scenarios() {
    let metrics: Vec<MetricSummary> = Vec::new();
    for scenario in [
        Scenario::ColdStartup,
        Scenario::WarmStartup,
        Scenario::FirstPageLoad,
        Scenario::Navigation,
        Scenario::TabCreate,
        Scenario::TabSwitch,
        Scenario::TabResume,
        Scenario::BackgroundCpu,
    ] {
        assert_eq!(
            memory_sample_confidence(scenario, 3, &metrics),
            MemorySampleConfidence::NotApplicable,
            "{scenario:?} should not be checked at all"
        );
    }
}

#[test]
fn memory_confidence_insufficient_with_zero_samples_reproduces_the_bug() {
    let metrics: Vec<MetricSummary> = Vec::new();
    let confidence =
        memory_sample_confidence(Scenario::TabCountMemory(20), 3, &metrics);
    assert_eq!(
        confidence,
        MemorySampleConfidence::Insufficient {
            observed: 0,
            required: 3 * MIN_RSS_SAMPLES_PER_TRIAL,
        }
    );
    assert!(confidence.is_insufficient());
}

#[test]
fn memory_confidence_insufficient_one_sample_below_the_floor() {
    let mut metrics: Vec<MetricSummary> = Vec::new();
    let required = 4 * MIN_RSS_SAMPLES_PER_TRIAL;
    metrics.push(samples_of(MetricKey::PssTotalBytes, required - 1));
    let confidence =
        memory_sample_confidence(Scenario::TabCountMemory(5), 4, &metrics);
    assert!(confidence.is_insufficient());
    assert_eq!(
        confidence,
        MemorySampleConfidence::Insufficient {
            observed: required - 1,
            required,
        }
    );
}

#[test]
fn memory_confidence_sufficient_exactly_at_the_boundary() {
    let mut metrics: Vec<MetricSummary> = Vec::new();
    let required = 4 * MIN_RSS_SAMPLES_PER_TRIAL;
    metrics.push(samples_of(MetricKey::PssTotalBytes, required));
    let confidence =
        memory_sample_confidence(Scenario::TabCountMemory(5), 4, &metrics);
    assert!(!confidence.is_insufficient());
    assert_eq!(
        confidence,
        MemorySampleConfidence::Sufficient {
            observed: required,
            required
        }
    );
}

#[test]
fn memory_confidence_sufficient_comfortably_above_the_boundary() {
    let mut metrics: Vec<MetricSummary> = Vec::new();
    metrics.push(samples_of(MetricKey::PssTotalBytes, 50));
    let confidence =
        memory_sample_confidence(Scenario::TabCountMemory(1), 3, &metrics);
    assert!(!confidence.is_insufficient());
}

#[test]
fn memory_confidence_falls_back_to_rss_when_pss_is_absent() {
    let mut metrics: Vec<MetricSummary> = Vec::new();
    let required = 2 * MIN_RSS_SAMPLES_PER_TRIAL;
    metrics.push(samples_of(MetricKey::RssTotalBytes, required));
    let confidence =
        memory_sample_confidence(Scenario::TabCountMemory(10), 2, &metrics);
    assert_eq!(
        confidence,
        MemorySampleConfidence::Sufficient {
            observed: required,
            required
        }
    );
}

#[test]
fn memory_confidence_prefers_pss_count_over_rss_when_both_present() {
    let mut metrics: Vec<MetricSummary> = Vec::new();
    metrics.push(samples_of(MetricKey::PssTotalBytes, 2));
    metrics.push(samples_of(MetricKey::RssTotalBytes, 99));
    let confidence =
        memory_sample_confidence(Scenario::TabCountMemory(1), 2, &metrics);
    assert_eq!(
        confidence,
        MemorySampleConfidence::Insufficient {
            observed: 2,
            required: 2 * MIN_RSS_SAMPLES_PER_TRIAL,
        }
    );
}

#[test]
fn memory_confidence_required_scales_with_trial_count() {
    let metrics: Vec<MetricSummary> = Vec::new();
    for trials in [1u32, 5, 10] {
        let confidence =
            memory_sample_confidence(Scenario::TabCountMemory(1), trials, &metrics);
        assert_eq!(
            confidence,
            MemorySampleConfidence::Insufficient {
                observed: 0,
                required: trials as usize * MIN_RSS_SAMPLES_PER_TRIAL,
            }
        );
    }
}

#[test]
fn every_list_stands_in_the_order_of_the_names() {
    let baseline =
        result_with("cold_startup", &[("d", 1.0), ("b", 1.0), ("c", 1.0), ("a", 1.0)]);
    let candidate =
        result_with("cold_startup", &[("z", 1.0), ("d", 9.0), ("y", 1.0), ("b", 1.0)]);
    let report = compared(&baseline, &candidate, 10.0);
    let names: Vec<&str> = report.diffs.iter().map(|d| d.name.as_str()).collect();
    assert_eq!(names, ["b", "d"]);
    assert_eq!(report.only_in_baseline, ["a", "c"]);
    assert_eq!(report.only_in_candidate, ["y", "z"]);
    assert!(report.any_regressed);
}
