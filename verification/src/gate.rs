//! The regression gate: whether the results of a change are to hold it up.
//!
//! A result is compared metric by metric. How far apart two medians are is
//! judged elsewhere; here it is decided what follows from those judgements, and
//! whether the results can be compared at all.

use vstd::prelude::*;
use vstd::string::*;

use crate::perf_events;
use crate::text::{self, str_eq};

verus! {

/// A number of trials below this is not enough to trust a median.
pub const MIN_TRIALS_FOR_CONFIDENT_GATE: usize = 5;

/// A verdict, for one metric or for all.
#[derive(Debug, Clone, Copy, PartialEq, Eq, Structural, PartialOrd, Ord)]
pub enum Severity {
    /// Nothing that needs attention.
    Okay,
    /// Worth a look, but within what noise alone can do.
    Warn,
    /// Too large for noise to explain.
    Fail,
}

/// Severities as numbers, the worst highest.
pub open spec fn rank(s: Severity) -> int {
    match s {
        Severity::Okay => 0,
        Severity::Warn => 1,
        Severity::Fail => 2,
    }
}

/// The worse of two severities.
pub open spec fn worse(a: Severity, b: Severity) -> Severity {
    if rank(a) >= rank(b) {
        a
    } else {
        b
    }
}

fn worse_of(a: Severity, b: Severity) -> (r: Severity)
    ensures
        r == worse(a, b),
{
    match (a, b) {
        (Severity::Fail, _) => Severity::Fail,
        (_, Severity::Fail) => Severity::Fail,
        (Severity::Warn, _) => Severity::Warn,
        (_, Severity::Warn) => Severity::Warn,
        (Severity::Okay, Severity::Okay) => Severity::Okay,
    }
}

/// The severity of a change between two medians. A change that is not
/// significant in itself is none, however large it is in percent.
pub fn classify_change(significant: bool, over_fail: bool, over_warn: bool) -> (r: Severity)
    ensures
        r == (if !significant {
            Severity::Okay
        } else if over_fail {
            Severity::Fail
        } else if over_warn {
            Severity::Warn
        } else {
            Severity::Okay
        }),
{
    if !significant {
        Severity::Okay
    } else if over_fail {
        Severity::Fail
    } else if over_warn {
        Severity::Warn
    } else {
        Severity::Okay
    }
}

// ---------------------------------------------------------------------------
// Results

/// A metric of a result.
#[derive(Debug, Clone, PartialEq, Eq)]
pub struct MetricSummary {
    pub name: String,
    /// The number of samples.
    pub count: usize,
}

/// A result, as far as it takes part in a comparison.
#[derive(Debug, Clone, PartialEq, Eq)]
pub struct ResultSummary {
    pub scenario: String,
    pub os: String,
    /// The metrics, by name.
    pub metrics: Vec<MetricSummary>,
}

/// A metric of a candidate, judged against the baseline.
#[derive(Debug, Clone, PartialEq, Eq)]
pub struct JudgedMetric {
    pub name: String,
    pub count: usize,
    /// How much its median has changed, if the baseline has the metric.
    pub severity: Severity,
}

/// A candidate, judged against the baseline.
#[derive(Debug, Clone, PartialEq, Eq)]
pub struct CandidateSummary {
    pub scenario: String,
    pub os: String,
    /// The metrics, by name.
    pub metrics: Vec<JudgedMetric>,
}

/// A metric of a result.
pub struct MetricModel {
    pub name: Seq<char>,
    pub count: nat,
}

/// A result.
pub struct ResultModel {
    pub scenario: Seq<char>,
    pub os: Seq<char>,
    pub metrics: Seq<MetricModel>,
}

/// A metric of a candidate.
pub struct JudgedModel {
    pub name: Seq<char>,
    pub count: nat,
    pub severity: Severity,
}

/// A candidate.
pub struct CandidateModel {
    pub scenario: Seq<char>,
    pub os: Seq<char>,
    pub metrics: Seq<JudgedModel>,
}

impl View for MetricSummary {
    type V = MetricModel;

    open spec fn view(&self) -> MetricModel {
        MetricModel { name: self.name@, count: self.count as nat }
    }
}

impl View for ResultSummary {
    type V = ResultModel;

    open spec fn view(&self) -> ResultModel {
        ResultModel {
            scenario: self.scenario@,
            os: self.os@,
            metrics: self.metrics@.map_values(|m: MetricSummary| m@),
        }
    }
}

impl View for JudgedMetric {
    type V = JudgedModel;

    open spec fn view(&self) -> JudgedModel {
        JudgedModel { name: self.name@, count: self.count as nat, severity: self.severity }
    }
}

impl View for CandidateSummary {
    type V = CandidateModel;

    open spec fn view(&self) -> CandidateModel {
        CandidateModel {
            scenario: self.scenario@,
            os: self.os@,
            metrics: self.metrics@.map_values(|m: JudgedMetric| m@),
        }
    }
}

/// What candidates stand for.
pub open spec fn candidate_models(v: Seq<CandidateSummary>) -> Seq<CandidateModel> {
    v.map_values(|c: CandidateSummary| c@)
}

// ---------------------------------------------------------------------------
// The verdict on a metric

/// The first metric of a candidate with a name, from an index on.
pub open spec fn judged_from(metrics: Seq<JudgedModel>, name: Seq<char>, from: int) -> Option<
    JudgedModel,
>
    decreases metrics.len() - from,
{
    if from >= metrics.len() {
        None
    } else if metrics[from].name == name {
        Some(metrics[from])
    } else {
        judged_from(metrics, name, from + 1)
    }
}

/// The metric of a candidate with a name.
pub open spec fn judged(c: CandidateModel, name: Seq<char>) -> Option<JudgedModel> {
    judged_from(c.metrics, name, 0)
}

/// What the candidates that have a metric say of it, in order.
pub open spec fn votes(candidates: Seq<CandidateModel>, name: Seq<char>) -> Seq<JudgedModel>
    decreases candidates.len(),
{
    if candidates.len() == 0 {
        Seq::empty()
    } else {
        let before = votes(candidates.drop_last(), name);
        match judged(candidates.last(), name) {
            Some(m) => before.push(m),
            None => before,
        }
    }
}

/// The severities of votes.
pub open spec fn severities(v: Seq<JudgedModel>) -> Seq<Severity> {
    v.map_values(|m: JudgedModel| m.severity)
}

/// The number of failures among severities.
pub open spec fn fail_count(s: Seq<Severity>) -> nat
    decreases s.len(),
{
    if s.len() == 0 {
        0
    } else {
        fail_count(s.drop_last()) + if s.last() is Fail {
            1nat
        } else {
            0nat
        }
    }
}

/// Whether a severity is anything but `Okay`.
pub open spec fn any_notable(s: Seq<Severity>) -> bool {
    exists|i: int| 0 <= i < s.len() && !(#[trigger] s[i] is Okay)
}

/// Whether a metric rests on too few trials, in the baseline or in a candidate.
pub open spec fn is_low_confidence(baseline_count: nat, v: Seq<JudgedModel>) -> bool {
    ||| baseline_count < MIN_TRIALS_FOR_CONFIDENT_GATE
    ||| exists|i: int| 0 <= i < v.len() && (#[trigger] v[i]).count < MIN_TRIALS_FOR_CONFIDENT_GATE
}

/// The verdict that severities amount to: a failure where more than half of them
/// are failures, and the trials suffice; otherwise a warning where one of them is
/// anything but `Okay`.
pub open spec fn verdict_severity(s: Seq<Severity>, low_confidence: bool) -> Severity {
    if !low_confidence && fail_count(s) * 2 > s.len() {
        Severity::Fail
    } else if any_notable(s) {
        Severity::Warn
    } else {
        Severity::Okay
    }
}

/// The verdict on one metric.
#[derive(Debug, Clone, PartialEq, Eq)]
pub struct GateMetricVerdict {
    pub name: String,
    pub baseline_count: usize,
    /// The severity in each candidate that has the metric, in order.
    pub per_candidate_severity: Vec<Severity>,
    /// Whether the verdict rests on too few trials; it is never `Fail` then.
    pub low_confidence: bool,
    pub severity: Severity,
}

/// The verdict on one metric.
pub struct VerdictModel {
    pub name: Seq<char>,
    pub baseline_count: nat,
    pub per_candidate_severity: Seq<Severity>,
    pub low_confidence: bool,
    pub severity: Severity,
}

impl View for GateMetricVerdict {
    type V = VerdictModel;

    open spec fn view(&self) -> VerdictModel {
        VerdictModel {
            name: self.name@,
            baseline_count: self.baseline_count as nat,
            per_candidate_severity: self.per_candidate_severity@,
            low_confidence: self.low_confidence,
            severity: self.severity,
        }
    }
}

/// The verdict on a metric of the baseline.
pub open spec fn verdict_on(m: MetricModel, candidates: Seq<CandidateModel>) -> VerdictModel {
    let v = votes(candidates, m.name);
    let low_confidence = is_low_confidence(m.count, v);
    VerdictModel {
        name: m.name,
        baseline_count: m.count,
        per_candidate_severity: severities(v),
        low_confidence,
        severity: verdict_severity(severities(v), low_confidence),
    }
}

/// The verdicts on the metrics of the baseline that a candidate has too.
pub open spec fn verdicts(metrics: Seq<MetricModel>, candidates: Seq<CandidateModel>) -> Seq<
    VerdictModel,
>
    decreases metrics.len(),
{
    if metrics.len() == 0 {
        Seq::empty()
    } else {
        let before = verdicts(metrics.drop_last(), candidates);
        if votes(candidates, metrics.last().name).len() == 0 {
            before
        } else {
            before.push(verdict_on(metrics.last(), candidates))
        }
    }
}

/// The names of the metrics of the baseline that no candidate has.
pub open spec fn missing(metrics: Seq<MetricModel>, candidates: Seq<CandidateModel>) -> Seq<
    Seq<char>,
>
    decreases metrics.len(),
{
    if metrics.len() == 0 {
        Seq::empty()
    } else {
        let before = missing(metrics.drop_last(), candidates);
        if votes(candidates, metrics.last().name).len() == 0 {
            before.push(metrics.last().name)
        } else {
            before
        }
    }
}

fn find_judged(c: &CandidateSummary, name: &str) -> (r: Option<(usize, Severity)>)
    ensures
        match r {
            Some((count, severity)) => judged(c@, name@) matches Some(m) && m.name == name@
                && m.count == count && m.severity == severity,
            None => judged(c@, name@) is None,
        },
{
    let mut i: usize = 0;
    while i < c.metrics.len()
        invariant
            i <= c.metrics@.len(),
            judged(c@, name@) == judged_from(c@.metrics, name@, i as int),
        decreases c.metrics@.len() - i,
    {
        assert(c@.metrics[i as int] == c.metrics@[i as int]@);
        if str_eq(&c.metrics[i].name, name) {
            return Some((c.metrics[i].count, c.metrics[i].severity));
        }
        i = i + 1;
    }
    None
}

/// The verdict on a metric of the baseline; `None` where no candidate has it.
fn judge_metric(m: &MetricSummary, candidates: &[CandidateSummary]) -> (r: Option<
    GateMetricVerdict,
>)
    ensures
        match r {
            Some(v) => votes(candidate_models(candidates@), m@.name).len() > 0 && v@ == verdict_on(
                m@,
                candidate_models(candidates@),
            ),
            None => votes(candidate_models(candidates@), m@.name).len() == 0,
        },
{
    let ghost models = candidate_models(candidates@);
    let mut per_candidate_severity: Vec<Severity> = Vec::new();
    let mut low_confidence = m.count < MIN_TRIALS_FOR_CONFIDENT_GATE;
    let mut fails: usize = 0;
    let mut notable = false;
    assert(severities(votes(models.take(0), m@.name)) =~= Seq::empty());
    for i in 0..candidates.len()
        invariant
            models == candidate_models(candidates@),
            per_candidate_severity@ == severities(votes(models.take(i as int), m@.name)),
            low_confidence == is_low_confidence(m@.count, votes(models.take(i as int), m@.name)),
            fails == fail_count(per_candidate_severity@),
            fails <= per_candidate_severity@.len() <= i,
            notable == any_notable(per_candidate_severity@),
    {
        let ghost v = votes(models.take(i as int), m@.name);
        let ghost s = per_candidate_severity@;
        proof {
            assert(models.take(i + 1).drop_last() =~= models.take(i as int));
            assert(models.take(i + 1).last() == candidates@[i as int]@);
        }
        if let Some((count, severity)) = find_judged(&candidates[i], &m.name) {
            let ghost w = votes(models.take(i + 1), m@.name);
            assert(w == v.push(judged(candidates@[i as int]@, m@.name)->0));
            if count < MIN_TRIALS_FOR_CONFIDENT_GATE {
                low_confidence = true;
                assert(w[v.len() as int].count < MIN_TRIALS_FOR_CONFIDENT_GATE);
            }
            proof {
                assert forall|k: int| 0 <= k < v.len() implies w[k] == #[trigger] v[k] by {}
                if is_low_confidence(m@.count, v) && m@.count >= MIN_TRIALS_FOR_CONFIDENT_GATE {
                    let k = choose|k: int|
                        0 <= k < v.len() && (#[trigger] v[k]).count < MIN_TRIALS_FOR_CONFIDENT_GATE;
                    assert(w[k].count < MIN_TRIALS_FOR_CONFIDENT_GATE);
                }
            }
            per_candidate_severity.push(severity);
            assert(per_candidate_severity@ =~= severities(w));
            assert(per_candidate_severity@.drop_last() =~= s);
            match severity {
                Severity::Okay => {},
                Severity::Warn => {
                    notable = true;
                    assert(!(per_candidate_severity@[s.len() as int] is Okay));
                },
                Severity::Fail => {
                    notable = true;
                    fails = fails + 1;
                    assert(!(per_candidate_severity@[s.len() as int] is Okay));
                },
            }
            proof {
                assert forall|k: int| 0 <= k < s.len() implies per_candidate_severity@[k]
                    == #[trigger] s[k] by {}
                if any_notable(s) {
                    let k = choose|k: int| 0 <= k < s.len() && !(#[trigger] s[k] is Okay);
                    assert(!(per_candidate_severity@[k] is Okay));
                }
            }
        }
    }
    assert(models.take(models.len() as int) =~= models);
    if per_candidate_severity.len() == 0 {
        assert(severities(votes(models, m@.name)).len() == 0);
        return None;
    }
    let severity = if !low_confidence && fails > per_candidate_severity.len() - fails {
        Severity::Fail
    } else if notable {
        Severity::Warn
    } else {
        Severity::Okay
    };
    assert(severities(votes(models, m@.name)).len() == votes(models, m@.name).len());
    Some(
        GateMetricVerdict {
            name: m.name.clone(),
            baseline_count: m.count,
            per_candidate_severity,
            low_confidence,
            severity,
        },
    )
}

// ---------------------------------------------------------------------------
// Problems with the input

/// A reason why results cannot be compared as they should.
#[derive(Debug, Clone, PartialEq, Eq)]
pub enum GateInputProblem {
    /// The baseline and a candidate measured different scenarios.
    ScenarioMismatch { candidate_index: usize, baseline: String, candidate: String },
    /// The baseline and a candidate were measured on different systems.
    OsMismatch { candidate_index: usize, baseline: String, candidate: String },
    /// A candidate has no metrics: a run that measured nothing.
    CandidateWithoutMetrics { candidate_index: usize },
    /// No metric could be compared.
    NoComparableMetrics,
    /// Metrics of the baseline that no candidate has.
    MetricsMissingFromCandidates { metrics: Vec<String> },
}

/// What a [`GateInputProblem`] stands for.
pub enum ProblemModel {
    ScenarioMismatch { candidate_index: nat, baseline: Seq<char>, candidate: Seq<char> },
    OsMismatch { candidate_index: nat, baseline: Seq<char>, candidate: Seq<char> },
    CandidateWithoutMetrics { candidate_index: nat },
    NoComparableMetrics,
    MetricsMissingFromCandidates { metrics: Seq<Seq<char>> },
}

impl View for GateInputProblem {
    type V = ProblemModel;

    open spec fn view(&self) -> ProblemModel {
        match self {
            GateInputProblem::ScenarioMismatch { candidate_index, baseline, candidate } =>
                ProblemModel::ScenarioMismatch {
                candidate_index: *candidate_index as nat,
                baseline: baseline@,
                candidate: candidate@,
            },
            GateInputProblem::OsMismatch { candidate_index, baseline, candidate } =>
                ProblemModel::OsMismatch {
                candidate_index: *candidate_index as nat,
                baseline: baseline@,
                candidate: candidate@,
            },
            GateInputProblem::CandidateWithoutMetrics { candidate_index } =>
                ProblemModel::CandidateWithoutMetrics { candidate_index: *candidate_index as nat },
            GateInputProblem::NoComparableMetrics => ProblemModel::NoComparableMetrics,
            GateInputProblem::MetricsMissingFromCandidates { metrics } =>
                ProblemModel::MetricsMissingFromCandidates {
                metrics: perf_events::string_models(metrics@),
            },
        }
    }
}

/// How much a problem weighs: missing metrics are worth a look, all others rule
/// out any comparison.
pub open spec fn problem_severity(p: ProblemModel) -> Severity {
    match p {
        ProblemModel::MetricsMissingFromCandidates { .. } => Severity::Warn,
        _ => Severity::Fail,
    }
}

/// Texts with a separator between them.
pub open spec fn joined(parts: Seq<Seq<char>>, separator: Seq<char>) -> Seq<char>
    decreases parts.len(),
{
    if parts.len() == 0 {
        Seq::empty()
    } else if parts.len() == 1 {
        parts[0]
    } else {
        joined(parts.drop_last(), separator) + separator + parts.last()
    }
}

fn join(parts: &Vec<String>, separator: &str) -> (r: String)
    ensures
        r@ == joined(perf_events::string_models(parts@), separator@),
{
    let ghost models = perf_events::string_models(parts@);
    let mut r = String::new();
    for i in 0..parts.len()
        invariant
            models == perf_events::string_models(parts@),
            r@ == joined(models.take(i as int), separator@),
    {
        assert(models.take(i + 1).drop_last() =~= models.take(i as int));
        assert(models.take(i + 1).last() == parts@[i as int]@);
        if i > 0 {
            r.append(separator);
        }
        r.append(&parts[i]);
        assert(i == 0 ==> r@ =~= parts@[0]@);
    }
    assert(models.take(models.len() as int) =~= models);
    r
}

/// A problem in words.
pub open spec fn problem_text(p: ProblemModel) -> Seq<char> {
    match p {
        ProblemModel::ScenarioMismatch { candidate_index, baseline, candidate } => "candidate["@
            + text::decimal(candidate_index) + "] のシナリオが baseline と異なります (baseline="@
            + baseline + " / candidate="@ + candidate + ")"@,
        ProblemModel::OsMismatch { candidate_index, baseline, candidate } => "candidate["@
            + text::decimal(candidate_index) + "] の OS が baseline と異なります (baseline="@
            + baseline + " / candidate="@ + candidate
            + ") — OS をまたぐ比較は成立しません"@,
        ProblemModel::CandidateWithoutMetrics { candidate_index } => "candidate["@ + text::decimal(
            candidate_index,
        )
            + "] にメトリクスが 1 件もありません (計測に失敗した結果ファイルの可能性があります)"@,
        ProblemModel::NoComparableMetrics =>
            "baseline と candidate に共通するメトリクスが 1 件もないため、比較は行われていません"@,
        ProblemModel::MetricsMissingFromCandidates { metrics } =>
            "baseline にはあるが candidate に無いメトリクス: "@ + joined(metrics, ", "@),
    }
}

impl GateInputProblem {
    /// How much the problem weighs.
    pub fn severity(&self) -> (r: Severity)
        ensures
            r == problem_severity(self@),
    {
        match self {
            GateInputProblem::MetricsMissingFromCandidates { .. } => Severity::Warn,
            _ => Severity::Fail,
        }
    }

    /// The problem in words.
    pub fn describe(&self) -> (r: String)
        ensures
            r@ == problem_text(self@),
    {
        match self {
            GateInputProblem::ScenarioMismatch { candidate_index, baseline, candidate } => {
                let mut r = "candidate[".to_owned();
                r.append(&text::decimal_of(*candidate_index as u128));
                r.append("] のシナリオが baseline と異なります (baseline=");
                r.append(baseline);
                r.append(" / candidate=");
                r.append(candidate);
                r.append(")");
                r
            },
            GateInputProblem::OsMismatch { candidate_index, baseline, candidate } => {
                let mut r = "candidate[".to_owned();
                r.append(&text::decimal_of(*candidate_index as u128));
                r.append("] の OS が baseline と異なります (baseline=");
                r.append(baseline);
                r.append(" / candidate=");
                r.append(candidate);
                r.append(") — OS をまたぐ比較は成立しません");
                r
            },
            GateInputProblem::CandidateWithoutMetrics { candidate_index } => {
                let mut r = "candidate[".to_owned();
                r.append(&text::decimal_of(*candidate_index as u128));
                r.append(
                    "] にメトリクスが 1 件もありません (計測に失敗した結果ファイルの可能性があります)",
                );
                r
            },
            GateInputProblem::NoComparableMetrics => {
                "baseline と candidate に共通するメトリクスが 1 件もないため、比較は行われていません".to_owned()
            },
            GateInputProblem::MetricsMissingFromCandidates { metrics } => {
                let mut r = "baseline にはあるが candidate に無いメトリクス: ".to_owned();
                r.append(&join(metrics, ", "));
                r
            },
        }
    }
}

/// What problems stand for.
pub open spec fn problem_models(v: Seq<GateInputProblem>) -> Seq<ProblemModel> {
    v.map_values(|p: GateInputProblem| p@)
}

/// The problems with one candidate.
pub open spec fn problems_with(baseline: ResultModel, c: CandidateModel, index: nat) -> Seq<
    ProblemModel,
> {
    let scenario = if c.scenario != baseline.scenario {
        seq![
            ProblemModel::ScenarioMismatch {
                candidate_index: index,
                baseline: baseline.scenario,
                candidate: c.scenario,
            },
        ]
    } else {
        Seq::empty()
    };
    let os = if c.os != baseline.os {
        seq![
            ProblemModel::OsMismatch {
                candidate_index: index,
                baseline: baseline.os,
                candidate: c.os,
            },
        ]
    } else {
        Seq::empty()
    };
    let metrics = if c.metrics.len() == 0 {
        seq![ProblemModel::CandidateWithoutMetrics { candidate_index: index }]
    } else {
        Seq::empty()
    };
    scenario + os + metrics
}

/// The problems with the candidates, in order.
pub open spec fn candidate_problems(baseline: ResultModel, candidates: Seq<CandidateModel>) -> Seq<
    ProblemModel,
>
    decreases candidates.len(),
{
    if candidates.len() == 0 {
        Seq::empty()
    } else {
        candidate_problems(baseline, candidates.drop_last()) + problems_with(
            baseline,
            candidates.last(),
            (candidates.len() - 1) as nat,
        )
    }
}

/// All problems with the input of a comparison.
pub open spec fn problems(baseline: ResultModel, candidates: Seq<CandidateModel>) -> Seq<
    ProblemModel,
> {
    let left_out = missing(baseline.metrics, candidates);
    let of_all = if verdicts(baseline.metrics, candidates).len() == 0 {
        seq![ProblemModel::NoComparableMetrics]
    } else if left_out.len() > 0 {
        seq![ProblemModel::MetricsMissingFromCandidates { metrics: left_out }]
    } else {
        Seq::empty()
    };
    candidate_problems(baseline, candidates) + of_all
}

/// The worst verdict on a metric.
pub open spec fn worst_verdict(v: Seq<VerdictModel>) -> Severity
    decreases v.len(),
{
    if v.len() == 0 {
        Severity::Okay
    } else {
        worse(worst_verdict(v.drop_last()), v.last().severity)
    }
}

/// The weight of the worst problem.
pub open spec fn worst_problem(p: Seq<ProblemModel>) -> Severity
    decreases p.len(),
{
    if p.len() == 0 {
        Severity::Okay
    } else {
        worse(worst_problem(p.drop_last()), problem_severity(p.last()))
    }
}

/// The verdict on the whole comparison: the worst of the verdicts on the metrics
/// and of the problems.
pub open spec fn overall_verdict(baseline: ResultModel, candidates: Seq<CandidateModel>) -> Severity {
    worse(
        worst_verdict(verdicts(baseline.metrics, candidates)),
        worst_problem(problems(baseline, candidates)),
    )
}

// ---------------------------------------------------------------------------
// Metrics that only candidates have

/// Whether the baseline has a metric.
pub open spec fn baseline_has(baseline: ResultModel, name: Seq<char>) -> bool {
    exists|i: int| 0 <= i < baseline.metrics.len() && (#[trigger] baseline.metrics[i]).name == name
}

/// Whether a candidate has a metric.
pub open spec fn candidate_has(c: CandidateModel, name: Seq<char>) -> bool {
    exists|i: int| 0 <= i < c.metrics.len() && (#[trigger] c.metrics[i]).name == name
}

/// Whether some candidate has a metric.
pub open spec fn some_candidate_has(candidates: Seq<CandidateModel>, name: Seq<char>) -> bool {
    exists|i: int| 0 <= i < candidates.len() && candidate_has(#[trigger] candidates[i], name)
}

/// Whether names stand in order, none of them twice.
pub open spec fn is_ascending(names: Seq<Seq<char>>) -> bool {
    forall|i: int, j: int|
        0 <= i < j < names.len() ==> text::text_less(#[trigger] names[i], #[trigger] names[j])
}

/// Whether names are those of the metrics that some candidate has and the
/// baseline has not, in order.
pub open spec fn is_only_in_candidates(
    names: Seq<Seq<char>>,
    baseline: ResultModel,
    candidates: Seq<CandidateModel>,
) -> bool {
    &&& is_ascending(names)
    &&& forall|name: Seq<char>| #[trigger]
        names.contains(name) <==> some_candidate_has(candidates, name) && !baseline_has(
            baseline,
            name,
        )
}

/// Adds a name to names that stand in order, unless it is there.
fn insert_name(names: &mut Vec<String>, name: &str)
    requires
        is_ascending(perf_events::string_models(old(names)@)),
    ensures
        is_ascending(perf_events::string_models(final(names)@)),
        forall|x: Seq<char>| #[trigger]
            perf_events::string_models(final(names)@).contains(x) <==> x == name@
                || perf_events::string_models(old(names)@).contains(x),
{
    let ghost before = perf_events::string_models(names@);
    let mut k: usize = 0;
    while k < names.len() && text::less(&names[k], name)
        invariant
            k <= names@.len(),
            before == perf_events::string_models(names@),
            forall|i: int| 0 <= i < k ==> text::text_less(#[trigger] before[i], name@),
        decreases names@.len() - k,
    {
        assert(before[k as int] == names@[k as int]@);
        k = k + 1;
    }
    if k < names.len() && str_eq(&names[k], name) {
        assert(before[k as int] == name@);
        return ;
    }
    proof {
        assert forall|i: int| k <= i < before.len() implies text::text_less(
            name@,
            #[trigger] before[i],
        ) by {
            assert(before[k as int] == names@[k as int]@);
            text::lemma_text_less_is_total(name@, before[k as int]);
            if i > k {
                assert(text::text_less(before[k as int], before[i]));
                text::lemma_text_less_is_transitive(name@, before[k as int], before[i]);
            }
        }
    }
    names.insert(k, name.to_owned());
    proof {
        let after = perf_events::string_models(names@);
        assert(after =~= before.insert(k as int, name@));
        assert forall|i: int, j: int| 0 <= i < j < after.len() implies text::text_less(
            #[trigger] after[i],
            #[trigger] after[j],
        ) by {
            let p = if i < k {
                i
            } else {
                i - 1
            };
            let q = if j < k {
                j
            } else {
                j - 1
            };
            if i == k {
                assert(after[j] == before[q]);
            } else if j == k {
                assert(after[i] == before[p]);
            } else {
                assert(after[i] == before[p] && after[j] == before[q]);
                assert(text::text_less(before[p], before[q]));
            }
        }
        assert forall|x: Seq<char>| #[trigger] after.contains(x) <==> x == name@
            || before.contains(x) by {
            if before.contains(x) {
                let i = before.index_of(x);
                let j = if i < k {
                    i
                } else {
                    i + 1
                };
                assert(after[j] == x);
            }
            if x == name@ {
                assert(after[k as int] == x);
            }
            if after.contains(x) && x != name@ {
                let j = after.index_of(x);
                let i = if j < k {
                    j
                } else {
                    j - 1
                };
                assert(before[i] == x);
            }
        }
    }
}

fn has_metric(baseline: &ResultSummary, name: &str) -> (r: bool)
    ensures
        r == baseline_has(baseline@, name@),
{
    for i in 0..baseline.metrics.len()
        invariant
            forall|j: int| 0 <= j < i ==> (#[trigger] baseline@.metrics[j]).name != name@,
    {
        assert(baseline@.metrics[i as int] == baseline.metrics@[i as int]@);
        if str_eq(&baseline.metrics[i].name, name) {
            return true;
        }
    }
    false
}

fn names_only_in(baseline: &ResultSummary, candidates: &[CandidateSummary]) -> (r: Vec<String>)
    ensures
        is_only_in_candidates(
            perf_events::string_models(r@),
            baseline@,
            candidate_models(candidates@),
        ),
{
    let ghost models = candidate_models(candidates@);
    let mut names: Vec<String> = Vec::new();
    assert(perf_events::string_models(names@) =~= Seq::empty());
    for i in 0..candidates.len()
        invariant
            models == candidate_models(candidates@),
            is_only_in_candidates(
                perf_events::string_models(names@),
                baseline@,
                models.take(i as int),
            ),
    {
        let c = &candidates[i];
        let ghost start = perf_events::string_models(names@);
        assert(models[i as int] == c@);
        for k in 0..c.metrics.len()
            invariant
                c@.metrics == c.metrics@.map_values(|m: JudgedMetric| m@),
                is_ascending(perf_events::string_models(names@)),
                forall|x: Seq<char>| #[trigger]
                    perf_events::string_models(names@).contains(x) <==> start.contains(x) || (
                    !baseline_has(baseline@, x) && exists|j: int|
                        0 <= j < k && (#[trigger] c@.metrics[j]).name == x),
        {
            assert(c@.metrics[k as int] == c.metrics@[k as int]@);
            if !has_metric(baseline, &c.metrics[k].name) {
                insert_name(&mut names, &c.metrics[k].name);
            }
        }
        proof {
            let after = perf_events::string_models(names@);
            assert forall|x: Seq<char>| #[trigger] after.contains(x) <==> some_candidate_has(
                models.take(i + 1),
                x,
            ) && !baseline_has(baseline@, x) by {
                let next = models.take(i + 1);
                if some_candidate_has(models.take(i as int), x) {
                    let j = choose|j: int|
                        0 <= j < i && candidate_has(#[trigger] models.take(i as int)[j], x);
                    assert(next[j] == models.take(i as int)[j]);
                }
                if candidate_has(c@, x) {
                    assert(next[i as int] == c@);
                }
                if some_candidate_has(next, x) && !candidate_has(c@, x) {
                    let j = choose|j: int| 0 <= j < i + 1 && candidate_has(#[trigger] next[j], x);
                    assert(models.take(i as int)[j] == next[j]);
                }
                assert(start.contains(x) <==> some_candidate_has(models.take(i as int), x)
                    && !baseline_has(baseline@, x));
            }
        }
    }
    assert(models.take(models.len() as int) =~= models);
    names
}

// ---------------------------------------------------------------------------
// The report

/// The outcome of a comparison of candidates with a baseline.
#[derive(Debug, Clone, PartialEq, Eq)]
pub struct GateReport {
    pub scenario: String,
    pub candidate_count: usize,
    /// The verdicts on the metrics that the baseline and a candidate have.
    pub metrics: Vec<GateMetricVerdict>,
    /// The metrics that only the baseline has.
    pub only_in_baseline: Vec<String>,
    /// The metrics that only candidates have.
    pub only_in_candidates: Vec<String>,
    pub problems: Vec<GateInputProblem>,
    /// The worst of the verdicts and of the problems.
    pub overall: Severity,
}

/// What verdicts stand for.
pub open spec fn verdict_models(v: Seq<GateMetricVerdict>) -> Seq<VerdictModel> {
    v.map_values(|m: GateMetricVerdict| m@)
}

fn push_problems_with(
    out: &mut Vec<GateInputProblem>,
    baseline: &ResultSummary,
    c: &CandidateSummary,
    index: usize,
)
    ensures
        problem_models(final(out)@) == problem_models(old(out)@) + problems_with(
            baseline@,
            c@,
            index as nat,
        ),
{
    let ghost before = problem_models(out@);
    if !str_eq(&c.scenario, &baseline.scenario) {
        out.push(
            GateInputProblem::ScenarioMismatch {
                candidate_index: index,
                baseline: baseline.scenario.clone(),
                candidate: c.scenario.clone(),
            },
        );
    }
    if !str_eq(&c.os, &baseline.os) {
        out.push(
            GateInputProblem::OsMismatch {
                candidate_index: index,
                baseline: baseline.os.clone(),
                candidate: c.os.clone(),
            },
        );
    }
    if c.metrics.len() == 0 {
        out.push(GateInputProblem::CandidateWithoutMetrics { candidate_index: index });
    }
    assert(c@.metrics.len() == c.metrics@.len());
    assert(problem_models(out@) =~= before + problems_with(baseline@, c@, index as nat));
}

fn copy_names(names: &Vec<String>) -> (r: Vec<String>)
    ensures
        perf_events::string_models(r@) == perf_events::string_models(names@),
{
    let mut r: Vec<String> = Vec::new();
    for i in 0..names.len()
        invariant
            r@.len() == i,
            forall|j: int| 0 <= j < i ==> (#[trigger] r@[j])@ == names@[j]@,
    {
        r.push(names[i].clone());
    }
    assert(perf_events::string_models(r@) =~= perf_events::string_models(names@));
    r
}

/// Compares candidates with a baseline of the same scenario and system.
///
/// A metric fails where more than half of the candidates that have it fail, and
/// no count of trials is too low; see [`verdict_severity`]. That the results can
/// be compared is checked, not assumed: what speaks against it is listed as a
/// problem and weighs on the verdict, so that a comparison of nothing never
/// passes.
pub fn evaluate_gate(baseline: &ResultSummary, candidates: &[CandidateSummary]) -> (r: GateReport)
    ensures
        r.scenario@ == baseline@.scenario,
        r.candidate_count == candidates@.len(),
        verdict_models(r.metrics@) == verdicts(
            baseline@.metrics,
            candidate_models(candidates@),
        ),
        perf_events::string_models(r.only_in_baseline@) == missing(
            baseline@.metrics,
            candidate_models(candidates@),
        ),
        is_only_in_candidates(
            perf_events::string_models(r.only_in_candidates@),
            baseline@,
            candidate_models(candidates@),
        ),
        problem_models(r.problems@) == problems(baseline@, candidate_models(candidates@)),
        r.overall == overall_verdict(baseline@, candidate_models(candidates@)),
{
    let ghost models = candidate_models(candidates@);
    let ghost all = baseline@.metrics;
    let mut metrics: Vec<GateMetricVerdict> = Vec::new();
    let mut only_in_baseline: Vec<String> = Vec::new();
    let mut worst = Severity::Okay;
    assert(verdict_models(metrics@) =~= Seq::empty());
    assert(perf_events::string_models(only_in_baseline@) =~= Seq::empty());
    for i in 0..baseline.metrics.len()
        invariant
            models == candidate_models(candidates@),
            all == baseline.metrics@.map_values(|m: MetricSummary| m@),
            verdict_models(metrics@) == verdicts(all.take(i as int), models),
            perf_events::string_models(only_in_baseline@) == missing(all.take(i as int), models),
            worst == worst_verdict(verdicts(all.take(i as int), models)),
    {
        let m = &baseline.metrics[i];
        proof {
            assert(all.take(i + 1).drop_last() =~= all.take(i as int));
            assert(all.take(i + 1).last() == m@);
        }
        match judge_metric(m, candidates) {
            Some(v) => {
                let ghost before = verdict_models(metrics@);
                let ghost model = v@;
                worst = worse_of(worst, v.severity);
                metrics.push(v);
                assert(verdict_models(metrics@) =~= before.push(model));
                assert(before.push(model).drop_last() =~= before);
            },
            None => {
                let ghost before = perf_events::string_models(only_in_baseline@);
                only_in_baseline.push(m.name.clone());
                assert(perf_events::string_models(only_in_baseline@) =~= before.push(m@.name));
            },
        }
    }
    assert(all.take(all.len() as int) =~= all);
    let only_in_candidates = names_only_in(baseline, candidates);
    let mut problems: Vec<GateInputProblem> = Vec::new();
    assert(problem_models(problems@) =~= Seq::empty());
    for i in 0..candidates.len()
        invariant
            models == candidate_models(candidates@),
            problem_models(problems@) == candidate_problems(baseline@, models.take(i as int)),
    {
        proof {
            assert(models.take(i + 1).drop_last() =~= models.take(i as int));
            assert(models.take(i + 1).last() == candidates@[i as int]@);
        }
        push_problems_with(&mut problems, baseline, &candidates[i], i);
    }
    assert(models.take(models.len() as int) =~= models);
    let ghost of_candidates = problem_models(problems@);
    assert(verdict_models(metrics@).len() == metrics@.len());
    assert(perf_events::string_models(only_in_baseline@).len() == only_in_baseline@.len());
    if metrics.len() == 0 {
        problems.push(GateInputProblem::NoComparableMetrics);
    } else if only_in_baseline.len() > 0 {
        problems.push(
            GateInputProblem::MetricsMissingFromCandidates {
                metrics: copy_names(&only_in_baseline),
            },
        );
    }
    let ghost all_problems = crate::gate::problems(baseline@, models);
    assert(problem_models(problems@) =~= all_problems);
    let mut heaviest = Severity::Okay;
    for i in 0..problems.len()
        invariant
            problem_models(problems@) == all_problems,
            heaviest == worst_problem(all_problems.take(i as int)),
    {
        assert(all_problems.take(i + 1).drop_last() =~= all_problems.take(i as int));
        assert(all_problems.take(i + 1).last() == problems@[i as int]@);
        heaviest = worse_of(heaviest, problems[i].severity());
    }
    assert(all_problems.take(all_problems.len() as int) =~= all_problems);
    GateReport {
        scenario: baseline.scenario.clone(),
        candidate_count: candidates.len(),
        metrics,
        only_in_baseline,
        only_in_candidates,
        problems,
        overall: worse_of(worst, heaviest),
    }
}

// ---------------------------------------------------------------------------
// The report as Markdown

/// What a candidate measured of a metric, as texts.
#[derive(Debug, Clone, PartialEq, Eq)]
pub struct CandidateFigure {
    pub median: String,
    /// The change in percent, with its sign; `None` where it is infinite.
    pub change: Option<String>,
}

/// What was measured of a metric, as texts.
#[derive(Debug, Clone, PartialEq, Eq)]
pub struct MetricFigures {
    pub baseline: String,
    pub candidates: Vec<CandidateFigure>,
}

/// The numbers that go with a report, as texts.
#[derive(Debug, Clone, PartialEq, Eq)]
pub struct GateFigures {
    pub warn_pct: String,
    pub fail_pct: String,
    /// The figures of the metrics of the report, in the same order.
    pub metrics: Vec<MetricFigures>,
}

/// The label of a severity.
pub open spec fn severity_label(s: Severity) -> Seq<char> {
    match s {
        Severity::Okay => "OK"@,
        Severity::Warn => "WARN"@,
        Severity::Fail => "FAIL"@,
    }
}

fn label(s: Severity) -> (r: &'static str)
    ensures
        r@ == severity_label(s),
{
    match s {
        Severity::Okay => "OK",
        Severity::Warn => "WARN",
        Severity::Fail => "FAIL",
    }
}

/// How a candidate's figure is shown.
pub open spec fn figure_text(f: CandidateFigure) -> Seq<char> {
    match f.change {
        Some(change) => f.median@ + " ("@ + change@ + "%)"@,
        None => f.median@ + " (inf)"@,
    }
}

/// How the figures of the candidates are shown.
pub open spec fn figures_text(f: Seq<CandidateFigure>) -> Seq<char> {
    joined(f.map_values(|c: CandidateFigure| figure_text(c)), ", "@)
}

/// The row of a metric.
pub open spec fn metric_row(v: VerdictModel, f: MetricFigures) -> Seq<char> {
    "| "@ + v.name + " | "@ + f.baseline@ + " | "@ + figures_text(f.candidates@) + " | — | "@
        + severity_label(v.severity) + (if v.low_confidence {
        " ⚠️試行数不足"@
    } else {
        Seq::empty()
    }) + " |\n"@
}

/// The rows of metrics.
pub open spec fn metric_rows(v: Seq<VerdictModel>, f: Seq<MetricFigures>) -> Seq<char>
    decreases v.len(),
{
    if v.len() == 0 {
        Seq::empty()
    } else {
        metric_rows(v.drop_last(), f) + metric_row(v.last(), f[v.len() - 1])
    }
}

/// The lines of problems.
pub open spec fn problem_lines(p: Seq<ProblemModel>) -> Seq<char>
    decreases p.len(),
{
    if p.len() == 0 {
        Seq::empty()
    } else {
        problem_lines(p.drop_last()) + ("- ["@ + severity_label(problem_severity(p.last())) + "] "@
            + problem_text(p.last()) + "\n"@)
    }
}

/// The head of the report: the scenario, the verdict and the thresholds.
pub open spec fn report_head(r: GateReport, f: GateFigures) -> Seq<char> {
    "### 性能回帰ゲート: "@ + r.scenario@ + " — 総合判定: **"@ + severity_label(r.overall)
        + "**\n\n"@ + "候補測定 "@ + text::decimal(r.candidate_count as nat) + " 件 / warn 閾値 "@
        + f.warn_pct@ + "% / fail 閾値 "@ + f.fail_pct@ + "%\n\n"@
}

/// The table of the report.
pub open spec fn report_table(r: GateReport, f: GateFigures) -> Seq<char> {
    if r.metrics@.len() == 0 {
        "_比較可能なメトリクスがありません。_\n"@
    } else {
        "| metric | baseline | candidate (中央値) | 変化率 | 判定 |\n|---|---:|---|---|---|\n"@
            + metric_rows(verdict_models(r.metrics@), f.metrics@)
    }
}

/// A line that lists names, if there are any.
pub open spec fn name_line(title: Seq<char>, names: Seq<Seq<char>>) -> Seq<char> {
    if names.len() == 0 {
        Seq::empty()
    } else {
        title + joined(names, ", "@) + "\n"@
    }
}

/// The problems of the report, if there are any.
pub open spec fn report_problems(p: Seq<ProblemModel>) -> Seq<char> {
    if p.len() == 0 {
        Seq::empty()
    } else {
        "\n**入力の前提を満たしていません:**\n\n"@ + problem_lines(p)
    }
}

/// The report as Markdown.
pub open spec fn markdown(r: GateReport, f: GateFigures) -> Seq<char> {
    report_head(r, f) + report_table(r, f) + name_line(
        "\nbaseline のみに存在: "@,
        perf_events::string_models(r.only_in_baseline@),
    ) + name_line(
        "\ncandidate のみに存在: "@,
        perf_events::string_models(r.only_in_candidates@),
    ) + report_problems(problem_models(r.problems@))
}

fn show_figures(figures: &Vec<CandidateFigure>) -> (r: String)
    ensures
        r@ == figures_text(figures@),
{
    let ghost all = figures@.map_values(|c: CandidateFigure| figure_text(c));
    let mut shown: Vec<String> = Vec::new();
    assert(perf_events::string_models(shown@) =~= all.take(0));
    for i in 0..figures.len()
        invariant
            all == figures@.map_values(|c: CandidateFigure| figure_text(c)),
            perf_events::string_models(shown@) == all.take(i as int),
    {
        let mut t = figures[i].median.clone();
        match &figures[i].change {
            Some(change) => {
                t.append(" (");
                t.append(change);
                t.append("%)");
            },
            None => {
                t.append(" (inf)");
            },
        }
        assert(t@ =~= all[i as int]);
        let ghost before = perf_events::string_models(shown@);
        let ghost next = t@;
        shown.push(t);
        assert(perf_events::string_models(shown@) =~= before.push(next));
        assert(all.take(i + 1) =~= all.take(i as int).push(all[i as int]));
    }
    assert(all.take(all.len() as int) =~= all);
    join(&shown, ", ")
}

fn push_metric_row(out: &mut String, v: &GateMetricVerdict, f: &MetricFigures)
    ensures
        final(out)@ == old(out)@ + metric_row(v@, *f),
{
    let ghost before = out@;
    out.append("| ");
    out.append(&v.name);
    out.append(" | ");
    out.append(&f.baseline);
    out.append(" | ");
    out.append(&show_figures(&f.candidates));
    out.append(" | — | ");
    out.append(label(v.severity));
    if v.low_confidence {
        out.append(" ⚠️試行数不足");
    }
    out.append(" |\n");
    assert(out@ =~= before + metric_row(v@, *f));
}

fn push_name_line(out: &mut String, title: &str, names: &Vec<String>)
    ensures
        final(out)@ == old(out)@ + name_line(title@, perf_events::string_models(names@)),
{
    let ghost before = out@;
    assert(perf_events::string_models(names@).len() == names@.len());
    if names.len() > 0 {
        out.append(title);
        out.append(&join(names, ", "));
        out.append("\n");
    }
    assert(out@ =~= before + name_line(title@, perf_events::string_models(names@)));
}

fn push_head(out: &mut String, report: &GateReport, figures: &GateFigures)
    ensures
        final(out)@ == old(out)@ + report_head(*report, *figures),
{
    let ghost before = out@;
    out.append("### 性能回帰ゲート: ");
    out.append(&report.scenario);
    out.append(" — 総合判定: **");
    out.append(label(report.overall));
    out.append("**\n\n");
    out.append("候補測定 ");
    out.append(&text::decimal_of(report.candidate_count as u128));
    out.append(" 件 / warn 閾値 ");
    out.append(&figures.warn_pct);
    out.append("% / fail 閾値 ");
    out.append(&figures.fail_pct);
    out.append("%\n\n");
    assert(out@ =~= before + report_head(*report, *figures));
}

fn push_table(out: &mut String, report: &GateReport, figures: &GateFigures)
    requires
        figures.metrics@.len() == report.metrics@.len(),
    ensures
        final(out)@ == old(out)@ + report_table(*report, *figures),
{
    let ghost before = out@;
    if report.metrics.len() == 0 {
        out.append("_比較可能なメトリクスがありません。_\n");
        return ;
    }
    out.append("| metric | baseline | candidate (中央値) | 変化率 | 判定 |\n|---|---:|---|---|---|\n");
    let ghost head = out@;
    let ghost all = verdict_models(report.metrics@);
    assert(out@ =~= head + metric_rows(all.take(0), figures.metrics@));
    for i in 0..report.metrics.len()
        invariant
            figures.metrics@.len() == report.metrics@.len(),
            all == verdict_models(report.metrics@),
            out@ == head + metric_rows(all.take(i as int), figures.metrics@),
    {
        proof {
            assert(all.take(i + 1).drop_last() =~= all.take(i as int));
            assert(all.take(i + 1).last() == report.metrics@[i as int]@);
        }
        push_metric_row(out, &report.metrics[i], &figures.metrics[i]);
        assert(out@ =~= head + metric_rows(all.take(i + 1), figures.metrics@));
    }
    assert(all.take(all.len() as int) =~= all);
    assert(out@ =~= before + report_table(*report, *figures));
}

fn push_problems(out: &mut String, problems: &Vec<GateInputProblem>)
    ensures
        final(out)@ == old(out)@ + report_problems(problem_models(problems@)),
{
    let ghost before = out@;
    let ghost all = problem_models(problems@);
    if problems.len() == 0 {
        assert(out@ =~= before + report_problems(all));
        return ;
    }
    out.append("\n**入力の前提を満たしていません:**\n\n");
    let ghost head = out@;
    assert(out@ =~= head + problem_lines(all.take(0)));
    for i in 0..problems.len()
        invariant
            all == problem_models(problems@),
            out@ == head + problem_lines(all.take(i as int)),
    {
        let ghost start = out@;
        proof {
            assert(all.take(i + 1).drop_last() =~= all.take(i as int));
            assert(all.take(i + 1).last() == problems@[i as int]@);
        }
        out.append("- [");
        out.append(label(problems[i].severity()));
        out.append("] ");
        out.append(&problems[i].describe());
        out.append("\n");
        assert(out@ =~= head + problem_lines(all.take(i + 1)));
    }
    assert(all.take(all.len() as int) =~= all);
    assert(out@ =~= before + report_problems(all));
}

/// The report as Markdown, with the figures that go with it.
pub fn render_gate_markdown(report: &GateReport, figures: &GateFigures) -> (r: String)
    requires
        figures.metrics@.len() == report.metrics@.len(),
    ensures
        r@ == markdown(*report, *figures),
{
    let mut out = String::new();
    push_head(&mut out, report, figures);
    push_table(&mut out, report, figures);
    push_name_line(&mut out, "\nbaseline のみに存在: ", &report.only_in_baseline);
    push_name_line(&mut out, "\ncandidate のみに存在: ", &report.only_in_candidates);
    push_problems(&mut out, &report.problems);
    assert(out@ =~= markdown(*report, *figures));
    out
}

// ---------------------------------------------------------------------------
// Laws

/// A gate that compared nothing fails.
pub proof fn comparing_nothing_fails(baseline: ResultModel, candidates: Seq<CandidateModel>)
    requires
        verdicts(baseline.metrics, candidates).len() == 0,
    ensures
        overall_verdict(baseline, candidates) is Fail,
{
    let p = problems(baseline, candidates);
    assert(p.last() == ProblemModel::NoComparableMetrics);
}

/// A gate passes exactly where something was compared, every metric passes, and
/// there is no problem.
pub proof fn a_pass_means_that_all_is_well(
    baseline: ResultModel,
    candidates: Seq<CandidateModel>,
)
    ensures
        overall_verdict(baseline, candidates) is Okay <==> verdicts(
            baseline.metrics,
            candidates,
        ).len() > 0 && problems(baseline, candidates).len() == 0 && forall|i: int|
            0 <= i < verdicts(baseline.metrics, candidates).len() ==> (#[trigger] verdicts(
                baseline.metrics,
                candidates,
            )[i]).severity is Okay,
{
    let v = verdicts(baseline.metrics, candidates);
    let p = problems(baseline, candidates);
    lemma_worst_verdict(v);
    lemma_worst_problem(p);
    if v.len() == 0 {
        comparing_nothing_fails(baseline, candidates);
    }
}

/// A verdict that rests on too few trials never fails.
pub proof fn too_few_trials_never_fail(m: MetricModel, candidates: Seq<CandidateModel>)
    requires
        verdict_on(m, candidates).low_confidence,
    ensures
        !(verdict_on(m, candidates).severity is Fail),
{
}

/// With one candidate and enough trials, the verdict is that of the candidate.
pub proof fn one_candidate_decides(m: MetricModel, c: CandidateModel)
    requires
        m.count >= MIN_TRIALS_FOR_CONFIDENT_GATE,
        judged(c, m.name) matches Some(j) && j.count >= MIN_TRIALS_FOR_CONFIDENT_GATE,
    ensures
        verdict_on(m, seq![c]).severity == (judged(c, m.name)->0).severity,
{
    let j = judged(c, m.name)->0;
    let v = votes(seq![c], m.name);
    assert(seq![c].drop_last() =~= Seq::empty());
    assert(v =~= seq![j]) by {
        assert(votes(seq![c].drop_last(), m.name) =~= Seq::empty());
        assert(Seq::<JudgedModel>::empty().push(j) =~= seq![j]);
    }
    let s = severities(v);
    assert(s =~= seq![j.severity]);
    assert(s.drop_last() =~= Seq::empty());
    assert(fail_count(s.drop_last()) == 0);
    assert(s[0] == j.severity);
    assert(!is_low_confidence(m.count, v)) by {
        assert forall|i: int| 0 <= i < v.len() implies (#[trigger] v[i]).count
            >= MIN_TRIALS_FOR_CONFIDENT_GATE by {}
    }
}

/// A metric fails only where more than half of the candidates that have it fail.
pub proof fn a_failure_needs_a_majority(m: MetricModel, candidates: Seq<CandidateModel>)
    ensures
        verdict_on(m, candidates).severity is Fail ==> 2 * fail_count(
            severities(votes(candidates, m.name)),
        ) > votes(candidates, m.name).len(),
{
}

/// A candidate of another scenario or another system, or without metrics, makes
/// the whole a failure.
pub proof fn a_mismatch_fails(baseline: ResultModel, candidates: Seq<CandidateModel>, i: int)
    requires
        0 <= i < candidates.len(),
        candidates[i].scenario != baseline.scenario || candidates[i].os != baseline.os
            || candidates[i].metrics.len() == 0,
    ensures
        overall_verdict(baseline, candidates) is Fail,
{
    lemma_candidate_problem_fails(baseline, candidates, i);
    let of_candidates = candidate_problems(baseline, candidates);
    let p = problems(baseline, candidates);
    lemma_worst_problem(of_candidates);
    lemma_worst_problem(p);
    let k = choose|k: int|
        0 <= k < of_candidates.len() && problem_severity(#[trigger] of_candidates[k]) is Fail;
    assert(p[k] == of_candidates[k]);
}

/// Whether a text holds another.
pub open spec fn holds_text(whole: Seq<char>, part: Seq<char>) -> bool {
    exists|before: Seq<char>, after: Seq<char>| whole == #[trigger] (before + part + after)
}

/// Every problem stands in the report, in words.
pub proof fn every_problem_is_reported(r: GateReport, f: GateFigures, i: int)
    requires
        0 <= i < r.problems@.len(),
    ensures
        holds_text(markdown(r, f), problem_text(r.problems@[i]@)),
{
    let problems = problem_models(r.problems@);
    let text = problem_text(problems[i]);
    let (before, after) = lemma_problem_lines(problems, i);
    let head = markdown(r, f).take(markdown(r, f).len() - problem_lines(problems).len());
    assert(markdown(r, f) =~= head + problem_lines(problems));
    assert(markdown(r, f) =~= (head + before) + text + after);
}

proof fn lemma_problem_lines(p: Seq<ProblemModel>, i: int) -> (around: (Seq<char>, Seq<char>))
    requires
        0 <= i < p.len(),
    ensures
        problem_lines(p) == around.0 + problem_text(p[i]) + around.1,
    decreases p.len(),
{
    let front = problem_lines(p.drop_last());
    let line = "- ["@ + severity_label(problem_severity(p.last())) + "] "@ + problem_text(p.last())
        + "\n"@;
    if i == p.len() - 1 {
        let before = front + ("- ["@ + severity_label(problem_severity(p.last())) + "] "@);
        assert(problem_lines(p) =~= before + problem_text(p[i]) + "\n"@);
        (before, "\n"@)
    } else {
        let (before, after) = lemma_problem_lines(p.drop_last(), i);
        assert(problem_lines(p) =~= before + problem_text(p[i]) + (after + line));
        (before, after + line)
    }
}

/// The names of metrics.
pub open spec fn metric_names(metrics: Seq<MetricModel>) -> Seq<Seq<char>> {
    metrics.map_values(|m: MetricModel| m.name)
}

/// The names of verdicts.
pub open spec fn verdict_names(v: Seq<VerdictModel>) -> Seq<Seq<char>> {
    v.map_values(|v: VerdictModel| v.name)
}

/// Where the metrics of the baseline stand in the order of their names, so do the
/// verdicts and the names of what no candidate has.
pub proof fn names_stay_in_order(metrics: Seq<MetricModel>, candidates: Seq<CandidateModel>)
    requires
        is_ascending(metric_names(metrics)),
    ensures
        is_ascending(verdict_names(verdicts(metrics, candidates))),
        is_ascending(missing(metrics, candidates)),
        forall|i: int|
            0 <= i < verdicts(metrics, candidates).len() ==> metric_names(metrics).contains(
                #[trigger] verdict_names(verdicts(metrics, candidates))[i],
            ),
        forall|i: int|
            0 <= i < missing(metrics, candidates).len() ==> metric_names(metrics).contains(
                #[trigger] missing(metrics, candidates)[i],
            ),
    decreases metrics.len(),
{
    if metrics.len() > 0 {
        let front = metrics.drop_last();
        let names = metric_names(metrics);
        assert(metric_names(front) =~= names.drop_last());
        names_stay_in_order(front, candidates);
        assert(names.last() == metrics.last().name);
        let before = verdict_names(verdicts(front, candidates));
        let judged_names = verdict_names(verdicts(metrics, candidates));
        if votes(candidates, metrics.last().name).len() == 0 {
            assert(judged_names =~= before);
        } else {
            assert(judged_names =~= before.push(metrics.last().name));
        }
        lemma_names_grow(names, before);
        lemma_names_grow(names, missing(front, candidates));
    }
}

/// Names out of all but the last of names in order can be followed by the last.
pub proof fn lemma_names_grow(names: Seq<Seq<char>>, some: Seq<Seq<char>>)
    requires
        names.len() > 0,
        is_ascending(names),
        is_ascending(some),
        forall|i: int| 0 <= i < some.len() ==> names.drop_last().contains(#[trigger] some[i]),
    ensures
        is_ascending(some.push(names.last())),
        forall|i: int| 0 <= i < some.len() ==> names.contains(#[trigger] some[i]),
        forall|i: int|
            0 <= i <= some.len() ==> names.contains(#[trigger] some.push(names.last())[i]),
{
    let grown = some.push(names.last());
    assert forall|i: int| 0 <= i < some.len() implies names.contains(#[trigger] some[i])
        && text::text_less(some[i], names.last()) by {
        let k = choose|k: int|
            0 <= k < names.drop_last().len() && names.drop_last()[k] == some[i];
        assert(names[k] == some[i]);
    }
    assert(names.contains(names.last()));
    assert forall|i: int, j: int| 0 <= i < j < grown.len() implies text::text_less(
        #[trigger] grown[i],
        #[trigger] grown[j],
    ) by {
        assert(grown[i] == some[i]);
        if j < some.len() {
            assert(grown[j] == some[j]);
        }
    }
    assert forall|i: int| 0 <= i <= some.len() implies names.contains(#[trigger] grown[i]) by {
        if i < some.len() {
            assert(grown[i] == some[i]);
        }
    }
}

proof fn lemma_candidate_problem_fails(
    baseline: ResultModel,
    candidates: Seq<CandidateModel>,
    i: int,
)
    requires
        0 <= i < candidates.len(),
        candidates[i].scenario != baseline.scenario || candidates[i].os != baseline.os
            || candidates[i].metrics.len() == 0,
    ensures
        exists|k: int|
            0 <= k < candidate_problems(baseline, candidates).len() && problem_severity(
                #[trigger] candidate_problems(baseline, candidates)[k],
            ) is Fail,
    decreases candidates.len(),
{
    let all = candidate_problems(baseline, candidates);
    let before = candidate_problems(baseline, candidates.drop_last());
    let own = problems_with(baseline, candidates.last(), (candidates.len() - 1) as nat);
    if i == candidates.len() - 1 {
        assert(own.len() > 0);
        assert(problem_severity(own[0]) is Fail);
        assert(all[before.len() as int] == own[0]);
    } else {
        lemma_candidate_problem_fails(baseline, candidates.drop_last(), i);
        let k = choose|k: int|
            0 <= k < before.len() && problem_severity(#[trigger] before[k]) is Fail;
        assert(all[k] == before[k]);
    }
}

proof fn lemma_worst_verdict(v: Seq<VerdictModel>)
    ensures
        worst_verdict(v) is Okay <==> forall|i: int|
            0 <= i < v.len() ==> (#[trigger] v[i]).severity is Okay,
    decreases v.len(),
{
    if v.len() > 0 {
        lemma_worst_verdict(v.drop_last());
        let before = v.drop_last();
        assert(v.last() == v[v.len() - 1]);
        assert forall|i: int| 0 <= i < before.len() implies #[trigger] before[i] == v[i] by {}
        if worst_verdict(v) is Okay {
            assert forall|i: int| 0 <= i < v.len() implies (#[trigger] v[i]).severity is Okay by {
                if i < before.len() {
                    assert(before[i].severity is Okay);
                }
            }
        }
    }
}

proof fn lemma_worst_problem(p: Seq<ProblemModel>)
    ensures
        worst_problem(p) is Okay <==> p.len() == 0,
        forall|i: int|
            0 <= i < p.len() && problem_severity(#[trigger] p[i]) is Fail ==> worst_problem(
                p,
            ) is Fail,
    decreases p.len(),
{
    if p.len() > 0 {
        lemma_worst_problem(p.drop_last());
        let before = p.drop_last();
        assert forall|i: int|
            0 <= i < p.len() && problem_severity(#[trigger] p[i]) is Fail implies worst_problem(
            p,
        ) is Fail by {
            if i < before.len() {
                assert(before[i] == p[i]);
            }
        }
    }
}

/// A candidate has the metric of a name where one of its metrics has the name; of
/// several, the first counts.
pub proof fn a_metric_is_found_by_its_name(
    front: Seq<JudgedModel>,
    m: JudgedModel,
    back: Seq<JudgedModel>,
    scenario: Seq<char>,
    os: Seq<char>,
)
    requires
        forall|i: int| 0 <= i < front.len() ==> (#[trigger] front[i]).name != m.name,
    ensures
        judged(CandidateModel { scenario, os, metrics: front + seq![m] + back }, m.name) == Some(m),
        judged(CandidateModel { scenario, os, metrics: front }, m.name) is None,
{
    lemma_judged_from(front + seq![m] + back, m.name, 0);
    lemma_judged_from(front, m.name, 0);
    let all = front + seq![m] + back;
    let n = front.len() as int;
    assert(all[n] == m);
    let k = lemma_judged_index(all, m.name, 0, n);
    if k < n {
        assert(all[k] == front[k]);
    }
}

proof fn lemma_judged_from(metrics: Seq<JudgedModel>, name: Seq<char>, from: int)
    requires
        0 <= from,
    ensures
        judged_from(metrics, name, from) matches Some(m) ==> m.name == name && metrics.contains(m),
    decreases metrics.len() - from,
{
    if from < metrics.len() && metrics[from].name != name {
        lemma_judged_from(metrics, name, from + 1);
    }
}

proof fn lemma_judged_index(metrics: Seq<JudgedModel>, name: Seq<char>, from: int, at: int) -> (k:
    int)
    requires
        0 <= from <= at < metrics.len(),
        metrics[at].name == name,
    ensures
        from <= k <= at,
        metrics[k].name == name,
        judged_from(metrics, name, from) == Some(metrics[k]),
    decreases at - from,
{
    if metrics[from].name == name {
        from
    } else {
        lemma_judged_index(metrics, name, from + 1, at)
    }
}

/// Each candidate that has a metric has one vote on it, in the order of the
/// candidates; one that has it not has none.
pub proof fn each_candidate_has_one_vote(
    candidates: Seq<CandidateModel>,
    c: CandidateModel,
    name: Seq<char>,
)
    ensures
        votes(Seq::empty(), name).len() == 0,
        votes(candidates.push(c), name) == match judged(c, name) {
            Some(m) => votes(candidates, name).push(m),
            None => votes(candidates, name),
        },
{
    assert(candidates.push(c).drop_last() =~= candidates);
}

/// Whether a severity is a failure.
pub open spec fn is_failure() -> spec_fn(Severity) -> bool {
    |s: Severity| s is Fail
}

proof fn lemma_fail_count(s: Seq<Severity>)
    ensures
        fail_count(s) == s.filter(is_failure()).len(),
    decreases s.len(),
{
    reveal(Seq::filter);
    if s.len() > 0 {
        lemma_fail_count(s.drop_last());
    }
}

/// What the votes on a metric come to. With at least five trials on either side it
/// fails exactly where more than half of the votes are failures. Where it does not
/// fail it is a warning if any vote is a warning or a failure, and passes otherwise.
/// With fewer trials anywhere it never fails.
pub proof fn a_majority_decides(m: MetricModel, candidates: Seq<CandidateModel>)
    ensures
        ({
            let v = votes(candidates, m.name);
            let s = v.map_values(|j: JudgedModel| j.severity);
            let enough = m.count >= 5 && forall|i: int|
                0 <= i < v.len() ==> (#[trigger] v[i]).count >= 5;
            let majority = 2 * s.filter(is_failure()).len() > v.len();
            let any = exists|i: int|
                0 <= i < v.len() && (#[trigger] v[i]).severity != Severity::Okay;
            let verdict = verdict_on(m, candidates);
            &&& verdict.severity is Fail <==> enough && majority
            &&& verdict.severity is Okay <==> !any
            &&& verdict.low_confidence <==> !enough
            &&& verdict.per_candidate_severity == s
            &&& verdict.name == m.name
            &&& verdict.baseline_count == m.count
        }),
{
    let v = votes(candidates, m.name);
    let s = severities(v);
    lemma_fail_count(s);
    assert(s =~= v.map_values(|j: JudgedModel| j.severity));
    let any = exists|i: int| 0 <= i < v.len() && (#[trigger] v[i]).severity != Severity::Okay;
    if any {
        let i = choose|i: int| 0 <= i < v.len() && (#[trigger] v[i]).severity != Severity::Okay;
        assert(s[i] == v[i].severity);
    }
    if any_notable(s) {
        let i = choose|i: int| 0 <= i < s.len() && !(#[trigger] s[i] is Okay);
        assert(v[i].severity == s[i]);
    }
    if s.filter(is_failure()).len() > 0 {
        let f = s.filter(is_failure());
        assert(f.contains(f[0]));
        s.lemma_filter_pred(is_failure(), 0);
        s.lemma_filter_contains_rev(is_failure(), f[0]);
        let i = s.index_of(f[0]);
        assert(!(s[i] is Okay));
    }
}

/// Every metric of the baseline is judged if a candidate has it, and is listed as
/// missing otherwise; the order stays.
pub proof fn every_metric_is_judged_or_missing(
    metrics: Seq<MetricModel>,
    m: MetricModel,
    candidates: Seq<CandidateModel>,
)
    ensures
        verdicts(Seq::empty(), candidates).len() == 0,
        missing(Seq::empty(), candidates).len() == 0,
        (exists|i: int| 0 <= i < candidates.len() && judged(#[trigger] candidates[i], m.name) is Some)
            ==> verdicts(metrics.push(m), candidates) == verdicts(metrics, candidates).push(
            verdict_on(m, candidates),
        ) && missing(metrics.push(m), candidates) == missing(metrics, candidates),
        (forall|i: int| 0 <= i < candidates.len() ==> judged(#[trigger] candidates[i], m.name) is None)
            ==> verdicts(metrics.push(m), candidates) == verdicts(metrics, candidates) && missing(
            metrics.push(m),
            candidates,
        ) == missing(metrics, candidates).push(m.name),
{
    assert(metrics.push(m).drop_last() =~= metrics);
    lemma_votes_exist(candidates, m.name);
}

proof fn lemma_votes_exist(candidates: Seq<CandidateModel>, name: Seq<char>)
    ensures
        votes(candidates, name).len() > 0 <==> exists|i: int|
            0 <= i < candidates.len() && judged(#[trigger] candidates[i], name) is Some,
    decreases candidates.len(),
{
    if candidates.len() > 0 {
        let front = candidates.drop_last();
        lemma_votes_exist(front, name);
        if exists|i: int| 0 <= i < candidates.len() && judged(#[trigger] candidates[i], name) is Some {
            let i = choose|i: int|
                0 <= i < candidates.len() && judged(#[trigger] candidates[i], name) is Some;
            if i < front.len() {
                assert(judged(front[i], name) is Some);
            }
        }
        if votes(candidates, name).len() > 0 {
            if judged(candidates.last(), name) is Some {
                assert(judged(candidates[candidates.len() - 1], name) is Some);
            } else {
                let i = choose|i: int|
                    0 <= i < front.len() && judged(#[trigger] front[i], name) is Some;
                assert(judged(candidates[i], name) is Some);
            }
        }
    }
}

/// The whole fails exactly where a metric fails or a problem rules out the
/// comparison: one with a candidate, or that nothing could be compared.
pub proof fn the_worst_decides(baseline: ResultModel, candidates: Seq<CandidateModel>)
    ensures
        overall_verdict(baseline, candidates) is Fail <==> (exists|i: int|
            0 <= i < verdicts(baseline.metrics, candidates).len() && (#[trigger] verdicts(
                baseline.metrics,
                candidates,
            )[i]).severity is Fail) || exists|i: int|
            0 <= i < problems(baseline, candidates).len() && !(#[trigger] problems(
                baseline,
                candidates,
            )[i] is MetricsMissingFromCandidates),
{
    lemma_worst_verdict_fails(verdicts(baseline.metrics, candidates));
    lemma_worst_problem_fails(problems(baseline, candidates));
}

proof fn lemma_worst_verdict_fails(v: Seq<VerdictModel>)
    ensures
        worst_verdict(v) is Fail <==> exists|i: int|
            0 <= i < v.len() && (#[trigger] v[i]).severity is Fail,
    decreases v.len(),
{
    if v.len() > 0 {
        let front = v.drop_last();
        lemma_worst_verdict_fails(front);
        if exists|i: int| 0 <= i < v.len() && (#[trigger] v[i]).severity is Fail {
            let i = choose|i: int| 0 <= i < v.len() && (#[trigger] v[i]).severity is Fail;
            if i < front.len() {
                assert(front[i].severity is Fail);
            }
        }
        if worst_verdict(v) is Fail {
            if v.last().severity is Fail {
                assert(v[v.len() - 1].severity is Fail);
            } else {
                let i = choose|i: int| 0 <= i < front.len() && (#[trigger] front[i]).severity is Fail;
                assert(v[i].severity is Fail);
            }
        }
    }
}

proof fn lemma_worst_problem_fails(p: Seq<ProblemModel>)
    ensures
        worst_problem(p) is Fail <==> exists|i: int|
            0 <= i < p.len() && !(#[trigger] p[i] is MetricsMissingFromCandidates),
    decreases p.len(),
{
    if p.len() > 0 {
        let front = p.drop_last();
        lemma_worst_problem_fails(front);
        if exists|i: int| 0 <= i < p.len() && !(#[trigger] p[i] is MetricsMissingFromCandidates) {
            let i = choose|i: int|
                0 <= i < p.len() && !(#[trigger] p[i] is MetricsMissingFromCandidates);
            if i < front.len() {
                assert(!(front[i] is MetricsMissingFromCandidates));
            }
        }
        if worst_problem(p) is Fail {
            if !(p.last() is MetricsMissingFromCandidates) {
                assert(!(p[p.len() - 1] is MetricsMissingFromCandidates));
            } else {
                let i = choose|i: int|
                    0 <= i < front.len() && !(#[trigger] front[i] is MetricsMissingFromCandidates);
                assert(!(p[i] is MetricsMissingFromCandidates));
            }
        }
    }
}

/// The problems with a candidate are those that it has, each of them told with what
/// differs: another scenario, another system, or no metrics at all.
pub proof fn each_problem_is_told(baseline: ResultModel, c: CandidateModel, index: nat)
    ensures
        ({
            let p = problems_with(baseline, c, index);
            &&& c.scenario != baseline.scenario <==> p.contains(
                ProblemModel::ScenarioMismatch {
                    candidate_index: index,
                    baseline: baseline.scenario,
                    candidate: c.scenario,
                },
            )
            &&& c.os != baseline.os <==> p.contains(
                ProblemModel::OsMismatch {
                    candidate_index: index,
                    baseline: baseline.os,
                    candidate: c.os,
                },
            )
            &&& c.metrics.len() == 0 <==> p.contains(
                ProblemModel::CandidateWithoutMetrics { candidate_index: index },
            )
            &&& p.len() == (if c.scenario != baseline.scenario {
                1int
            } else {
                0
            }) + (if c.os != baseline.os {
                1int
            } else {
                0
            }) + (if c.metrics.len() == 0 {
                1int
            } else {
                0
            })
        }),
{
    let p = problems_with(baseline, c, index);
    let os_at: int = if c.scenario != baseline.scenario {
        1
    } else {
        0
    };
    if c.scenario != baseline.scenario {
        assert(p[0] is ScenarioMismatch);
    }
    if c.os != baseline.os {
        assert(p[os_at] is OsMismatch);
    }
    if c.metrics.len() == 0 {
        assert(p[p.len() - 1] is CandidateWithoutMetrics);
    }
}

/// The problems of a comparison are those with each candidate, under its number, and
/// then what of the metrics could not be compared.
pub proof fn problems_are_told_in_order(
    baseline: ResultModel,
    candidates: Seq<CandidateModel>,
    c: CandidateModel,
)
    ensures
        candidate_problems(baseline, Seq::empty()).len() == 0,
        candidate_problems(baseline, candidates.push(c)) == candidate_problems(baseline, candidates)
            + problems_with(baseline, c, candidates.len()),
        candidate_problems(baseline, candidates).is_prefix_of(problems(baseline, candidates)),
        verdicts(baseline.metrics, candidates).len() == 0 ==> problems(baseline, candidates).last()
            is NoComparableMetrics,
        verdicts(baseline.metrics, candidates).len() > 0 && missing(
            baseline.metrics,
            candidates,
        ).len() > 0 ==> problems(baseline, candidates).last()
            == (ProblemModel::MetricsMissingFromCandidates {
            metrics: missing(baseline.metrics, candidates),
        }),
        verdicts(baseline.metrics, candidates).len() > 0 && missing(
            baseline.metrics,
            candidates,
        ).len() == 0 ==> problems(baseline, candidates) == candidate_problems(baseline, candidates),
{
    assert(candidates.push(c).drop_last() =~= candidates);
    let of_candidates = candidate_problems(baseline, candidates);
    let all = problems(baseline, candidates);
    assert(all.take(of_candidates.len() as int) =~= of_candidates);
    assert(all.len() == of_candidates.len() ==> all =~= of_candidates);
}

/// Every metric has its row in the report.
pub proof fn every_verdict_is_reported(r: GateReport, f: GateFigures, i: int)
    requires
        0 <= i < r.metrics@.len(),
    ensures
        holds_text(markdown(r, f), metric_row(r.metrics@[i]@, f.metrics@[i])),
{
    let v = verdict_models(r.metrics@);
    let row = metric_row(v[i], f.metrics@[i]);
    let rows = metric_rows(v, f.metrics@);
    let (before, after) = lemma_metric_rows(v, f.metrics@, i);
    let head = report_head(r, f)
        + "| metric | baseline | candidate (中央値) | 変化率 | 判定 |\n|---|---:|---|---|---|\n"@;
    let whole = markdown(r, f);
    assert(whole =~= head + rows + whole.skip((head + rows).len() as int));
    let tail = whole.skip((head + rows).len() as int);
    assert(head + (before + row + after) + tail =~= (head + before) + row + (after + tail));
}

/// The row of a metric starts with its name, holds the figures, and ends with its
/// verdict, which is marked where it rests on too few trials.
pub proof fn a_row_tells_the_verdict(v: VerdictModel, f: MetricFigures)
    ensures
        ("| "@ + v.name + " | "@ + f.baseline@ + " | "@).is_prefix_of(metric_row(v, f)),
        !v.low_confidence ==> ("| "@ + severity_label(v.severity) + " |\n"@).is_suffix_of(
            metric_row(v, f),
        ),
        v.low_confidence ==> ("| "@ + severity_label(v.severity) + " ⚠️試行数不足 |\n"@).is_suffix_of(
            metric_row(v, f),
        ),
{
    reveal_strlit(" | — | ");
    reveal_strlit(" | — ");
    reveal_strlit("| ");
    reveal_strlit(" ⚠️試行数不足");
    reveal_strlit(" |\n");
    reveal_strlit(" ⚠️試行数不足 |\n");
    let row = metric_row(v, f);
    let name = "| "@ + v.name + " | "@ + f.baseline@ + " | "@;
    assert(row.take(name.len() as int) =~= name);
    let label = severity_label(v.severity);
    let start = name + figures_text(f.candidates@) + " | — "@;
    let mark = if v.low_confidence {
        " ⚠️試行数不足"@
    } else {
        Seq::empty()
    };
    let end = "| "@ + label + mark + " |\n"@;
    assert(" | — | "@ =~= " | — "@ + "| "@);
    assert(row =~= start + end);
    assert(row.subrange(row.len() - end.len(), row.len() as int) =~= end);
    if v.low_confidence {
        assert(end =~= "| "@ + label + " ⚠️試行数不足 |\n"@);
    } else {
        assert(end =~= "| "@ + label + " |\n"@);
    }
}

proof fn lemma_metric_rows(v: Seq<VerdictModel>, f: Seq<MetricFigures>, i: int) -> (around: (
    Seq<char>,
    Seq<char>,
))
    requires
        0 <= i < v.len(),
    ensures
        metric_rows(v, f) == around.0 + metric_row(v[i], f[i]) + around.1,
    decreases v.len(),
{
    let front = metric_rows(v.drop_last(), f);
    let row = metric_row(v.last(), f[v.len() - 1]);
    if i == v.len() - 1 {
        assert(metric_rows(v, f) =~= front + metric_row(v[i], f[i]) + Seq::empty());
        (front, Seq::empty())
    } else {
        let (before, after) = lemma_metric_rows(v.drop_last(), f, i);
        assert(metric_rows(v, f) =~= before + metric_row(v[i], f[i]) + (after + row));
        (before, after + row)
    }
}

/// A report tells its scenario, its verdict and how many candidates there were, and
/// no two severities have the same label.
pub proof fn a_report_tells_the_verdict(r: GateReport, f: GateFigures, a: Severity, b: Severity)
    ensures
        holds_text(markdown(r, f), r.scenario@),
        holds_text(markdown(r, f), "**"@ + severity_label(r.overall) + "**"@),
        holds_text(markdown(r, f), text::decimal(r.candidate_count as nat)),
        severity_label(a) == severity_label(b) ==> a == b,
{
    reveal_strlit("OK");
    reveal_strlit("WARN");
    reveal_strlit("FAIL");
    assert("WARN"@[0] == 'W' && "FAIL"@[0] == 'F');
    assert("OK"@.len() == 2 && "WARN"@.len() == 4 && "FAIL"@.len() == 4);
    let whole = markdown(r, f);
    let title = "### 性能回帰ゲート: "@;
    let s = r.scenario@;
    assert(whole =~= title + s + whole.skip((title + s).len() as int));
    let label = "**"@ + severity_label(r.overall) + "**"@;
    reveal_strlit(" — 総合判定: **");
    reveal_strlit(" — 総合判定: ");
    reveal_strlit("**");
    reveal_strlit("**\n\n");
    reveal_strlit("\n\n");
    assert(" — 総合判定: **"@ =~= " — 総合判定: "@ + "**"@);
    assert("**\n\n"@ =~= "**"@ + "\n\n"@);
    let front = title + s + " — 総合判定: "@;
    assert(whole =~= front + label + whole.skip((front + label).len() as int));
    let number = text::decimal(r.candidate_count as nat);
    let ahead = title + s + " — 総合判定: **"@ + severity_label(r.overall) + "**\n\n"@ + "候補測定 "@;
    assert(whole =~= ahead + number + whole.skip((ahead + number).len() as int));
}

/// A metric is listed as new exactly where a candidate has it and the baseline has not,
/// and each but once.
pub proof fn new_metrics_are_those_of_candidates_alone(
    names: Seq<Seq<char>>,
    baseline: ResultModel,
    candidates: Seq<CandidateModel>,
    c: int,
    m: int,
)
    requires
        is_only_in_candidates(names, baseline, candidates),
        0 <= c < candidates.len(),
        0 <= m < candidates[c].metrics.len(),
    ensures
        (forall|i: int|
            0 <= i < baseline.metrics.len() ==> (#[trigger] baseline.metrics[i]).name
                != candidates[c].metrics[m].name) <==> names.contains(candidates[c].metrics[m].name),
        forall|i: int|
            0 <= i < baseline.metrics.len() ==> !names.contains(
                (#[trigger] baseline.metrics[i]).name,
            ),
        forall|k: int|
            0 <= k < names.len() ==> exists|i: int, j: int|
                0 <= i < candidates.len() && 0 <= j < candidates[i].metrics.len()
                    && #[trigger] candidates[i].metrics[j].name == #[trigger] names[k],
        names.no_duplicates(),
{
    let name = candidates[c].metrics[m].name;
    assert(candidate_has(candidates[c], name));
    assert(some_candidate_has(candidates, name));
    assert(names.contains(name) <==> !baseline_has(baseline, name));
    assert forall|i: int| 0 <= i < baseline.metrics.len() implies !names.contains(
        (#[trigger] baseline.metrics[i]).name,
    ) by {
        assert(baseline_has(baseline, baseline.metrics[i].name));
    }
    assert forall|k: int| 0 <= k < names.len() implies exists|i: int, j: int|
        0 <= i < candidates.len() && 0 <= j < candidates[i].metrics.len()
            && #[trigger] candidates[i].metrics[j].name == #[trigger] names[k] by {
        assert(names.contains(names[k]));
        let i = choose|i: int|
            0 <= i < candidates.len() && candidate_has(#[trigger] candidates[i], names[k]);
        let j = choose|j: int|
            0 <= j < candidates[i].metrics.len() && (#[trigger] candidates[i].metrics[j]).name
                == names[k];
        assert(candidates[i].metrics[j].name == names[k]);
    }
    assert forall|i: int, j: int| 0 <= i < names.len() && 0 <= j < names.len() && i
        != j implies names[i] != names[j] by {
        text::lemma_text_less_is_strict(names[i]);
        if i < j {
            assert(text::text_less(names[i], names[j]));
        } else {
            assert(text::text_less(names[j], names[i]));
        }
    }
}

/// A figure is a median and, in brackets, the change in percent, or `inf` where there
/// is none to speak of. Figures stand in order, with a comma and a space between them.
pub proof fn a_figure_is_a_median_and_a_change(
    figures: Seq<CandidateFigure>,
    f: CandidateFigure,
    change: String,
)
    ensures
        f.change == Some(change) ==> figure_text(f) == f.median@ + " ("@ + change@ + "%)"@,
        f.change is None ==> figure_text(f) == f.median@ + " (inf)"@,
        figures_text(seq![f]) == figure_text(f),
        figures.len() > 0 ==> figures_text(figures.push(f)) == figures_text(figures) + ", "@
            + figure_text(f),
{
    reveal_with_fuel(joined, 2);
    let one = seq![f].map_values(|c: CandidateFigure| figure_text(c));
    assert(one.drop_last() =~= Seq::empty());
    let all = figures.push(f).map_values(|c: CandidateFigure| figure_text(c));
    assert(all.drop_last() =~= figures.map_values(|c: CandidateFigure| figure_text(c)));
}

} // verus!
