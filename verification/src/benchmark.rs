//! Benchmark results: reading them, pooling their samples, comparing them, and
//! deciding what a comparison means.

pub use crate::calendar::format_unix_time_utc;
pub use crate::comparison::{
    compare, memory_sample_confidence, ComparisonReport, JudgedResult, MemorySampleConfidence,
    MetricDiff, RunEnvironment, MIN_RSS_SAMPLES_PER_TRIAL,
};
pub use crate::gate::{
    classify_change, evaluate_gate, render_gate_markdown, CandidateFigure, CandidateSummary,
    GateFigures, GateInputProblem, GateMetricVerdict, GateReport, JudgedMetric, MetricFigures,
    MetricSummary, ResultSummary, Severity, MIN_TRIALS_FOR_CONFIDENT_GATE,
};
pub use crate::ipc_summary::{summarize_ipc, IpcSummary};
pub use crate::metric_key::MetricKey;
pub use crate::perf_events::{
    aggregate_trials, measured_phase, parse_jsonl, JsonScalar, MetricSamples, PerfEvent,
};
pub use crate::scenario;
