//! Comparing two results, and judging whether a result can be trusted.

use vstd::prelude::*;
use vstd::string::*;

use crate::gate::{self, MetricModel, MetricSummary, ResultSummary};
use crate::metric_key::{self, MetricKey};
use crate::perf_events;
use crate::scenario::Scenario;
use crate::text::str_eq;

verus! {

/// The number of memory samples that each trial of a memory scenario should
/// give.
pub const MIN_RSS_SAMPLES_PER_TRIAL: usize = 2;

/// Where a result was measured.
#[derive(Debug, Clone, PartialEq, Eq)]
pub struct RunEnvironment {
    pub os: String,
    pub cpu_count: usize,
    /// The commit that the measured binary was built from, where it is known.
    pub git_commit: Option<String>,
    /// When the result was made, as a timestamp in UTC.
    pub generated_at: String,
    /// The number of trials.
    pub trials: u32,
    pub cpu_model: Option<String>,
    pub total_memory_bytes: Option<u64>,
    pub os_version: Option<String>,
    pub webview_runtime: Option<String>,
}

// ---------------------------------------------------------------------------
// Memory samples

/// Whether the memory metrics of a result rest on enough samples.
#[derive(Debug, Clone, Copy, PartialEq, Eq, Structural)]
pub enum MemorySampleConfidence {
    /// The scenario does not measure memory with its tabs open.
    NotApplicable,
    Sufficient { observed: usize, required: usize },
    /// The metrics may describe a browser that had not opened its tabs yet.
    Insufficient { observed: usize, required: usize },
}

impl MemorySampleConfidence {
    /// Whether there are too few samples.
    pub fn is_insufficient(self) -> (r: bool)
        ensures
            r == (self is Insufficient),
    {
        match self {
            MemorySampleConfidence::Insufficient { .. } => true,
            _ => false,
        }
    }
}

/// The number of samples of the first metric with a name, from an index on.
pub open spec fn count_from(metrics: Seq<MetricModel>, name: Seq<char>, from: int) -> Option<nat>
    decreases metrics.len() - from,
{
    if from >= metrics.len() {
        None
    } else if metrics[from].name == name {
        Some(metrics[from].count)
    } else {
        count_from(metrics, name, from + 1)
    }
}

/// The number of memory samples of a result: those of the proportional memory,
/// or of the resident memory where the other could not be read.
pub open spec fn memory_samples(metrics: Seq<MetricModel>) -> nat {
    match count_from(metrics, metric_key::metric_name(MetricKey::PssTotalBytes), 0) {
        Some(n) => n,
        None => match count_from(metrics, metric_key::metric_name(MetricKey::RssTotalBytes), 0) {
            Some(n) => n,
            None => 0,
        },
    }
}

/// What metrics stand for.
pub open spec fn metric_models(v: Seq<MetricSummary>) -> Seq<MetricModel> {
    v.map_values(|m: MetricSummary| m@)
}

fn find_count(metrics: &[MetricSummary], name: &str) -> (r: Option<usize>)
    ensures
        match r {
            Some(n) => count_from(metric_models(metrics@), name@, 0) == Some(n as nat),
            None => count_from(metric_models(metrics@), name@, 0) is None,
        },
{
    let ghost models = metric_models(metrics@);
    let mut i: usize = 0;
    while i < metrics.len()
        invariant
            models == metric_models(metrics@),
            i <= metrics@.len(),
            count_from(models, name@, 0) == count_from(models, name@, i as int),
        decreases metrics@.len() - i,
    {
        assert(models[i as int] == metrics@[i as int]@);
        if str_eq(&metrics[i].name, name) {
            return Some(metrics[i].count);
        }
        i = i + 1;
    }
    None
}

/// Whether the memory metrics of a result rest on enough samples: at least
/// [`MIN_RSS_SAMPLES_PER_TRIAL`] for each trial. Only the `tabs_N` scenarios are
/// judged.
pub fn memory_sample_confidence(scenario: Scenario, trials: u32, metrics: &[MetricSummary]) -> (r:
    MemorySampleConfidence)
    requires
        trials * MIN_RSS_SAMPLES_PER_TRIAL <= usize::MAX,
    ensures
        !(scenario is TabCountMemory) ==> r is NotApplicable,
        scenario is TabCountMemory ==> match r {
            MemorySampleConfidence::NotApplicable => false,
            MemorySampleConfidence::Sufficient { observed, required } => observed
                == memory_samples(metric_models(metrics@)) && required == trials
                * MIN_RSS_SAMPLES_PER_TRIAL && observed >= required,
            MemorySampleConfidence::Insufficient { observed, required } => observed
                == memory_samples(metric_models(metrics@)) && required == trials
                * MIN_RSS_SAMPLES_PER_TRIAL && observed < required,
        },
{
    match scenario {
        Scenario::TabCountMemory(_) => {},
        _ => {
            return MemorySampleConfidence::NotApplicable;
        },
    }
    let required: usize = trials as usize * MIN_RSS_SAMPLES_PER_TRIAL;
    let observed: usize = match find_count(metrics, MetricKey::PssTotalBytes.as_str()) {
        Some(n) => n,
        None => match find_count(metrics, MetricKey::RssTotalBytes.as_str()) {
            Some(n) => n,
            None => 0,
        },
    };
    if observed >= required {
        MemorySampleConfidence::Sufficient { observed, required }
    } else {
        MemorySampleConfidence::Insufficient { observed, required }
    }
}

// ---------------------------------------------------------------------------
// Comparing

/// A metric of a result, judged against another result.
#[derive(Debug, Clone, PartialEq, Eq)]
pub struct MetricDiff {
    pub name: String,
    /// Whether its median has grown by more than is allowed, if the other result
    /// has the metric.
    pub regressed: bool,
}

/// A result, judged against another.
#[derive(Debug, Clone, PartialEq, Eq)]
pub struct JudgedResult {
    pub scenario: String,
    /// The metrics, by name.
    pub metrics: Vec<MetricDiff>,
}

/// The outcome of comparing two results.
#[derive(Debug, Clone, PartialEq, Eq)]
pub struct ComparisonReport {
    pub baseline_scenario: String,
    pub candidate_scenario: String,
    /// The metrics that both results have.
    pub diffs: Vec<MetricDiff>,
    pub only_in_baseline: Vec<String>,
    pub only_in_candidate: Vec<String>,
    /// Whether any metric has regressed.
    pub any_regressed: bool,
}

/// What a [`MetricDiff`] stands for.
pub struct DiffModel {
    pub name: Seq<char>,
    pub regressed: bool,
}

impl View for MetricDiff {
    type V = DiffModel;

    open spec fn view(&self) -> DiffModel {
        DiffModel { name: self.name@, regressed: self.regressed }
    }
}

/// What diffs stand for.
pub open spec fn diff_models(v: Seq<MetricDiff>) -> Seq<DiffModel> {
    v.map_values(|d: MetricDiff| d@)
}

/// The first diff with a name, from an index on.
pub open spec fn diff_from(diffs: Seq<DiffModel>, name: Seq<char>, from: int) -> Option<DiffModel>
    decreases diffs.len() - from,
{
    if from >= diffs.len() {
        None
    } else if diffs[from].name == name {
        Some(diffs[from])
    } else {
        diff_from(diffs, name, from + 1)
    }
}

/// The diffs of the metrics that both results have, in the order of the baseline.
pub open spec fn shared_diffs(baseline: Seq<MetricModel>, candidate: Seq<DiffModel>) -> Seq<
    DiffModel,
>
    decreases baseline.len(),
{
    if baseline.len() == 0 {
        Seq::empty()
    } else {
        let before = shared_diffs(baseline.drop_last(), candidate);
        match diff_from(candidate, baseline.last().name, 0) {
            Some(d) => before.push(d),
            None => before,
        }
    }
}

/// The names of the metrics that only the baseline has.
pub open spec fn baseline_only(baseline: Seq<MetricModel>, candidate: Seq<DiffModel>) -> Seq<
    Seq<char>,
>
    decreases baseline.len(),
{
    if baseline.len() == 0 {
        Seq::empty()
    } else {
        let before = baseline_only(baseline.drop_last(), candidate);
        match diff_from(candidate, baseline.last().name, 0) {
            Some(_) => before,
            None => before.push(baseline.last().name),
        }
    }
}

/// The names of the metrics that only the candidate has.
pub open spec fn candidate_only(baseline: Seq<MetricModel>, candidate: Seq<DiffModel>) -> Seq<
    Seq<char>,
>
    decreases candidate.len(),
{
    if candidate.len() == 0 {
        Seq::empty()
    } else {
        let before = candidate_only(baseline, candidate.drop_last());
        match count_from(baseline, candidate.last().name, 0) {
            Some(_) => before,
            None => before.push(candidate.last().name),
        }
    }
}

/// Whether any diff is a regression.
pub open spec fn some_regressed(diffs: Seq<DiffModel>) -> bool {
    exists|i: int| 0 <= i < diffs.len() && (#[trigger] diffs[i]).regressed
}

fn find_diff(diffs: &Vec<MetricDiff>, name: &str) -> (r: Option<bool>)
    ensures
        match r {
            Some(regressed) => diff_from(diff_models(diffs@), name@, 0) == Some(
                DiffModel { name: name@, regressed },
            ),
            None => diff_from(diff_models(diffs@), name@, 0) is None,
        },
{
    let ghost models = diff_models(diffs@);
    let mut i: usize = 0;
    while i < diffs.len()
        invariant
            models == diff_models(diffs@),
            i <= diffs@.len(),
            diff_from(models, name@, 0) == diff_from(models, name@, i as int),
        decreases diffs@.len() - i,
    {
        assert(models[i as int] == diffs@[i as int]@);
        if str_eq(&diffs[i].name, name) {
            return Some(diffs[i].regressed);
        }
        i = i + 1;
    }
    None
}

/// Compares a candidate with a baseline: the metrics that both have, those that
/// only one has, and whether any has regressed.
pub fn compare(baseline: &ResultSummary, candidate: &JudgedResult) -> (r: ComparisonReport)
    ensures
        r.baseline_scenario@ == baseline.scenario@,
        r.candidate_scenario@ == candidate.scenario@,
        diff_models(r.diffs@) == shared_diffs(
            metric_models(baseline.metrics@),
            diff_models(candidate.metrics@),
        ),
        perf_events::string_models(r.only_in_baseline@) == baseline_only(
            metric_models(baseline.metrics@),
            diff_models(candidate.metrics@),
        ),
        perf_events::string_models(r.only_in_candidate@) == candidate_only(
            metric_models(baseline.metrics@),
            diff_models(candidate.metrics@),
        ),
        r.any_regressed == some_regressed(diff_models(r.diffs@)),
{
    let ghost metrics = metric_models(baseline.metrics@);
    let ghost judged = diff_models(candidate.metrics@);
    let mut diffs: Vec<MetricDiff> = Vec::new();
    let mut only_in_baseline: Vec<String> = Vec::new();
    let mut any_regressed = false;
    assert(diff_models(diffs@) =~= Seq::empty());
    assert(perf_events::string_models(only_in_baseline@) =~= Seq::empty());
    for i in 0..baseline.metrics.len()
        invariant
            metrics == metric_models(baseline.metrics@),
            judged == diff_models(candidate.metrics@),
            diff_models(diffs@) == shared_diffs(metrics.take(i as int), judged),
            perf_events::string_models(only_in_baseline@) == baseline_only(
                metrics.take(i as int),
                judged,
            ),
            any_regressed == some_regressed(diff_models(diffs@)),
    {
        let m = &baseline.metrics[i];
        proof {
            assert(metrics.take(i + 1).drop_last() =~= metrics.take(i as int));
            assert(metrics.take(i + 1).last() == m@);
        }
        match find_diff(&candidate.metrics, &m.name) {
            Some(regressed) => {
                let ghost before = diff_models(diffs@);
                let ghost model = DiffModel { name: m.name@, regressed };
                diffs.push(MetricDiff { name: m.name.clone(), regressed });
                proof {
                    let after = diff_models(diffs@);
                    assert(after =~= before.push(model));
                    assert(after[before.len() as int].regressed == regressed);
                    assert forall|k: int| 0 <= k < before.len() implies after[k]
                        == #[trigger] before[k] by {}
                    if some_regressed(before) {
                        let k = choose|k: int| 0 <= k < before.len() && (#[trigger] before[k]).regressed;
                        assert(after[k].regressed);
                    }
                }
                any_regressed = any_regressed || regressed;
            },
            None => {
                let ghost before = perf_events::string_models(only_in_baseline@);
                only_in_baseline.push(m.name.clone());
                assert(perf_events::string_models(only_in_baseline@) =~= before.push(m.name@));
            },
        }
    }
    assert(metrics.take(metrics.len() as int) =~= metrics);
    let mut only_in_candidate: Vec<String> = Vec::new();
    assert(perf_events::string_models(only_in_candidate@) =~= Seq::empty());
    for i in 0..candidate.metrics.len()
        invariant
            metrics == metric_models(baseline.metrics@),
            judged == diff_models(candidate.metrics@),
            perf_events::string_models(only_in_candidate@) == candidate_only(
                metrics,
                judged.take(i as int),
            ),
    {
        let d = &candidate.metrics[i];
        proof {
            assert(judged.take(i + 1).drop_last() =~= judged.take(i as int));
            assert(judged.take(i + 1).last() == d@);
        }
        if find_count(baseline.metrics.as_slice(), &d.name).is_none() {
            let ghost before = perf_events::string_models(only_in_candidate@);
            only_in_candidate.push(d.name.clone());
            assert(perf_events::string_models(only_in_candidate@) =~= before.push(d.name@));
        }
    }
    assert(judged.take(judged.len() as int) =~= judged);
    ComparisonReport {
        baseline_scenario: baseline.scenario.clone(),
        candidate_scenario: candidate.scenario.clone(),
        diffs,
        only_in_baseline,
        only_in_candidate,
        any_regressed,
    }
}

// ---------------------------------------------------------------------------
// Laws

/// Every metric of the baseline is either compared or listed as missing.
pub proof fn no_metric_is_lost(baseline: Seq<MetricModel>, candidate: Seq<DiffModel>)
    ensures
        shared_diffs(baseline, candidate).len() + baseline_only(baseline, candidate).len()
            == baseline.len(),
    decreases baseline.len(),
{
    if baseline.len() > 0 {
        no_metric_is_lost(baseline.drop_last(), candidate);
    }
}

/// What is compared is what both results have.
pub proof fn only_shared_metrics_are_compared(
    baseline: Seq<MetricModel>,
    candidate: Seq<DiffModel>,
    i: int,
)
    requires
        0 <= i < shared_diffs(baseline, candidate).len(),
    ensures
        diff_from(candidate, shared_diffs(baseline, candidate)[i].name, 0) == Some(
            shared_diffs(baseline, candidate)[i],
        ),
    decreases baseline.len(),
{
    let before = shared_diffs(baseline.drop_last(), candidate);
    let found = diff_from(candidate, baseline.last().name, 0);
    if i < before.len() {
        only_shared_metrics_are_compared(baseline.drop_last(), candidate, i);
    } else {
        lemma_found_diff(candidate, baseline.last().name, 0);
    }
}

/// The names of diffs.
pub open spec fn diff_names(diffs: Seq<DiffModel>) -> Seq<Seq<char>> {
    diffs.map_values(|d: DiffModel| d.name)
}

/// Where the metrics of both results stand in the order of their names, so do all
/// lists of a comparison.
pub proof fn names_stay_in_order(baseline: Seq<MetricModel>, candidate: Seq<DiffModel>)
    requires
        gate::is_ascending(gate::metric_names(baseline)),
        gate::is_ascending(diff_names(candidate)),
    ensures
        gate::is_ascending(diff_names(shared_diffs(baseline, candidate))),
        gate::is_ascending(baseline_only(baseline, candidate)),
        gate::is_ascending(candidate_only(baseline, candidate)),
{
    lemma_baseline_names(baseline, candidate);
    lemma_candidate_names(baseline, candidate);
}

proof fn lemma_baseline_names(baseline: Seq<MetricModel>, candidate: Seq<DiffModel>)
    requires
        gate::is_ascending(gate::metric_names(baseline)),
    ensures
        ({
            let shared = diff_names(shared_diffs(baseline, candidate));
            let missing = baseline_only(baseline, candidate);
            &&& gate::is_ascending(shared)
            &&& gate::is_ascending(missing)
            &&& forall|i: int|
                0 <= i < shared.len() ==> gate::metric_names(baseline).contains(#[trigger] shared[i])
            &&& forall|i: int|
                0 <= i < missing.len() ==> gate::metric_names(baseline).contains(#[trigger] missing[i])
        }),
    decreases baseline.len(),
{
    if baseline.len() > 0 {
        let front = baseline.drop_last();
        let names = gate::metric_names(baseline);
        assert(gate::metric_names(front) =~= names.drop_last());
        lemma_baseline_names(front, candidate);
        lemma_found_diff(candidate, baseline.last().name, 0);
        assert(names.last() == baseline.last().name);
        let before = diff_names(shared_diffs(front, candidate));
        let shared = diff_names(shared_diffs(baseline, candidate));
        match diff_from(candidate, baseline.last().name, 0) {
            Some(d) => {
                assert(shared =~= before.push(d.name));
            },
            None => {
                assert(shared =~= before);
            },
        }
        gate::lemma_names_grow(names, before);
        gate::lemma_names_grow(names, baseline_only(front, candidate));
    }
}

proof fn lemma_candidate_names(baseline: Seq<MetricModel>, candidate: Seq<DiffModel>)
    requires
        gate::is_ascending(diff_names(candidate)),
    ensures
        ({
            let missing = candidate_only(baseline, candidate);
            &&& gate::is_ascending(missing)
            &&& forall|i: int|
                0 <= i < missing.len() ==> diff_names(candidate).contains(#[trigger] missing[i])
        }),
    decreases candidate.len(),
{
    if candidate.len() > 0 {
        let front = candidate.drop_last();
        let names = diff_names(candidate);
        assert(diff_names(front) =~= names.drop_last());
        lemma_candidate_names(baseline, front);
        assert(names.last() == candidate.last().name);
        gate::lemma_names_grow(names, candidate_only(baseline, front));
    }
}

proof fn lemma_found_diff(diffs: Seq<DiffModel>, name: Seq<char>, from: int)
    ensures
        diff_from(diffs, name, from) matches Some(d) ==> d.name == name,
    decreases diffs.len() - from,
{
    if from < diffs.len() {
        lemma_found_diff(diffs, name, from + 1);
    }
}

/// The memory samples are those of the proportional memory where there are any, and
/// those of the resident memory otherwise.
pub proof fn proportional_memory_counts_first(metrics: Seq<MetricModel>, i: int)
    requires
        0 <= i < metrics.len(),
        forall|j: int| 0 <= j < i ==> (#[trigger] metrics[j]).name != metrics[i].name,
    ensures
        metrics[i].name == "pss_total_bytes"@ ==> memory_samples(metrics) == metrics[i].count,
        metrics[i].name == "rss_total_bytes"@ && (forall|j: int|
            0 <= j < metrics.len() ==> (#[trigger] metrics[j]).name != "pss_total_bytes"@)
            ==> memory_samples(metrics) == metrics[i].count,
{
    lemma_count_from(metrics, "pss_total_bytes"@, 0);
    lemma_count_from(metrics, metrics[i].name, 0);
    lemma_first_count(metrics, 0, i);
}

/// A result without memory metrics has no memory samples.
pub proof fn no_memory_no_samples(metrics: Seq<MetricModel>)
    requires
        forall|j: int|
            0 <= j < metrics.len() ==> (#[trigger] metrics[j]).name != "pss_total_bytes"@
                && metrics[j].name != "rss_total_bytes"@,
    ensures
        memory_samples(metrics) == 0,
{
    lemma_count_from(metrics, "pss_total_bytes"@, 0);
    lemma_count_from(metrics, "rss_total_bytes"@, 0);
}

proof fn lemma_count_from(metrics: Seq<MetricModel>, name: Seq<char>, from: int)
    requires
        0 <= from,
    ensures
        count_from(metrics, name, from) is Some ==> exists|k: int|
            from <= k < metrics.len() && (#[trigger] metrics[k]).name == name,
    decreases metrics.len() - from,
{
    if from < metrics.len() {
        if metrics[from].name != name {
            lemma_count_from(metrics, name, from + 1);
        }
    }
}

proof fn lemma_first_count(metrics: Seq<MetricModel>, from: int, i: int)
    requires
        0 <= from <= i < metrics.len(),
        forall|j: int| from <= j < i ==> (#[trigger] metrics[j]).name != metrics[i].name,
    ensures
        count_from(metrics, metrics[i].name, from) == Some(metrics[i].count),
    decreases i - from,
{
    if from < i {
        lemma_first_count(metrics, from + 1, i);
    }
}

/// A metric of the baseline is compared where the candidate has one of its name, with
/// what the candidate says of it, and is listed as only in the baseline otherwise.
pub proof fn a_metric_is_compared_by_its_name(
    baseline: Seq<MetricModel>,
    m: MetricModel,
    candidate: Seq<DiffModel>,
    i: int,
)
    ensures
        0 <= i < candidate.len() && candidate[i].name == m.name && (forall|j: int|
            0 <= j < i ==> (#[trigger] candidate[j]).name != m.name) ==> shared_diffs(
            baseline.push(m),
            candidate,
        ) == shared_diffs(baseline, candidate).push(candidate[i]) && baseline_only(
            baseline.push(m),
            candidate,
        ) == baseline_only(baseline, candidate),
        (forall|j: int| 0 <= j < candidate.len() ==> (#[trigger] candidate[j]).name != m.name)
            ==> shared_diffs(baseline.push(m), candidate) == shared_diffs(baseline, candidate)
            && baseline_only(baseline.push(m), candidate) == baseline_only(baseline, candidate).push(
            m.name,
        ),
{
    assert(baseline.push(m).drop_last() =~= baseline);
    if 0 <= i < candidate.len() && candidate[i].name == m.name && (forall|j: int|
        0 <= j < i ==> (#[trigger] candidate[j]).name != m.name) {
        lemma_first_diff(candidate, 0, i);
    }
    lemma_diff_is_there(candidate, m.name, 0);
}

proof fn lemma_first_diff(diffs: Seq<DiffModel>, from: int, i: int)
    requires
        0 <= from <= i < diffs.len(),
        forall|j: int| from <= j < i ==> (#[trigger] diffs[j]).name != diffs[i].name,
    ensures
        diff_from(diffs, diffs[i].name, from) == Some(diffs[i]),
    decreases i - from,
{
    if from < i {
        lemma_first_diff(diffs, from + 1, i);
    }
}

proof fn lemma_diff_is_there(diffs: Seq<DiffModel>, name: Seq<char>, from: int)
    requires
        0 <= from,
    ensures
        diff_from(diffs, name, from) is Some ==> exists|k: int|
            from <= k < diffs.len() && (#[trigger] diffs[k]).name == name,
    decreases diffs.len() - from,
{
    if from < diffs.len() {
        if diffs[from].name != name {
            lemma_diff_is_there(diffs, name, from + 1);
        }
    }
}

/// A metric of the candidate is listed as only there exactly where the baseline has
/// none of its name.
pub proof fn a_new_metric_is_listed(
    baseline: Seq<MetricModel>,
    candidate: Seq<DiffModel>,
    d: DiffModel,
)
    ensures
        (exists|i: int| 0 <= i < baseline.len() && (#[trigger] baseline[i]).name == d.name)
            ==> candidate_only(baseline, candidate.push(d)) == candidate_only(baseline, candidate),
        (forall|i: int| 0 <= i < baseline.len() ==> (#[trigger] baseline[i]).name != d.name)
            ==> candidate_only(baseline, candidate.push(d)) == candidate_only(
            baseline,
            candidate,
        ).push(d.name),
{
    assert(candidate.push(d).drop_last() =~= candidate);
    lemma_count_from(baseline, d.name, 0);
    if exists|i: int| 0 <= i < baseline.len() && (#[trigger] baseline[i]).name == d.name {
        let i = choose|i: int| 0 <= i < baseline.len() && (#[trigger] baseline[i]).name == d.name;
        lemma_count_exists(baseline, d.name, 0, i);
    }
}

proof fn lemma_count_exists(metrics: Seq<MetricModel>, name: Seq<char>, from: int, i: int)
    requires
        0 <= from <= i < metrics.len(),
        metrics[i].name == name,
    ensures
        count_from(metrics, name, from) is Some,
    decreases i - from,
{
    if metrics[from].name != name {
        lemma_count_exists(metrics, name, from + 1, i);
    }
}

/// Memory is trusted with two samples for each trial, and regressions are found one by
/// one: a diff more makes a comparison a regression exactly where it is one or there
/// was one before.
pub proof fn one_regression_is_enough(diffs: Seq<DiffModel>, d: DiffModel)
    ensures
        MIN_RSS_SAMPLES_PER_TRIAL == 2,
        !some_regressed(Seq::empty()),
        some_regressed(diffs.push(d)) <==> some_regressed(diffs) || d.regressed,
{
    let more = diffs.push(d);
    if some_regressed(diffs) {
        let i = choose|i: int| 0 <= i < diffs.len() && (#[trigger] diffs[i]).regressed;
        assert(more[i].regressed);
    }
    if d.regressed {
        assert(more[diffs.len() as int].regressed);
    }
    if some_regressed(more) {
        let i = choose|i: int| 0 <= i < more.len() && (#[trigger] more[i]).regressed;
        if i < diffs.len() {
            assert(diffs[i].regressed);
        }
    }
}

} // verus!
