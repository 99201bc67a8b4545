//! Performance events: reading them from JSON lines, and taking samples of the
//! metrics from them.

use serde_json::Value;
use vstd::prelude::*;
use vstd::string::*;

use crate::metric_key::{self, MetricKey};
use crate::text::{self, chars_of, str_eq, string_of, trim_chars};

verus! {

// ---------------------------------------------------------------------------
// Events

/// A member of a JSON object, as far as events use it.
#[derive(Debug, Clone, PartialEq)]
pub enum JsonScalar {
    Null,
    Bool(bool),
    /// A number, as JSON text.
    Number(String),
    Text(String),
    /// An array or an object.
    Nested,
}

/// One performance event: the members of its JSON object.
#[derive(Debug, Clone, PartialEq)]
pub struct PerfEvent {
    pub members: Vec<(String, JsonScalar)>,
}

/// What a [`JsonScalar`] stands for.
pub enum ScalarModel {
    Null,
    Bool(bool),
    Number(Seq<char>),
    Text(Seq<char>),
    Nested,
}

/// What a [`PerfEvent`] stands for.
pub type EventModel = Seq<(Seq<char>, ScalarModel)>;

impl View for JsonScalar {
    type V = ScalarModel;

    open spec fn view(&self) -> ScalarModel {
        match self {
            JsonScalar::Null => ScalarModel::Null,
            JsonScalar::Bool(b) => ScalarModel::Bool(*b),
            JsonScalar::Number(n) => ScalarModel::Number(n@),
            JsonScalar::Text(t) => ScalarModel::Text(t@),
            JsonScalar::Nested => ScalarModel::Nested,
        }
    }
}

/// What the members of an event stand for.
pub open spec fn member_models(members: Seq<(String, JsonScalar)>) -> EventModel {
    members.map_values(|m: (String, JsonScalar)| (m.0@, m.1@))
}

impl View for PerfEvent {
    type V = EventModel;

    open spec fn view(&self) -> EventModel {
        member_models(self.members@)
    }
}

/// What events stand for.
pub open spec fn event_models(events: Seq<PerfEvent>) -> Seq<EventModel> {
    events.map_values(|e: PerfEvent| e@)
}

/// The index of the first member with a name; the number of members where there
/// is none.
pub open spec fn member_index(event: EventModel, key: Seq<char>, from: int) -> int
    decreases event.len() - from,
{
    if from >= event.len() {
        event.len() as int
    } else if event[from].0 == key {
        from
    } else {
        member_index(event, key, from + 1)
    }
}

/// The member of an event with a name.
pub open spec fn member(event: EventModel, key: Seq<char>) -> Option<ScalarModel> {
    let i = member_index(event, key, 0);
    if i < event.len() {
        Some(event[i].1)
    } else {
        None
    }
}

/// The text that a member holds.
pub open spec fn text_member(event: EventModel, key: Seq<char>) -> Option<Seq<char>> {
    match member(event, key) {
        Some(ScalarModel::Text(t)) => Some(t),
        _ => None,
    }
}

/// The number that a member holds, as JSON text.
pub open spec fn number_member(event: EventModel, key: Seq<char>) -> Option<Seq<char>> {
    match member(event, key) {
        Some(ScalarModel::Number(n)) => Some(n),
        _ => None,
    }
}

/// Whether an event is of a kind.
pub open spec fn is_kind(event: EventModel, kind: Seq<char>) -> bool {
    text_member(event, "event"@) == Some(kind)
}

impl PerfEvent {
    fn find(&self, key: &str) -> (r: Option<&JsonScalar>)
        ensures
            match r {
                Some(s) => member(self@, key@) == Some(s@),
                None => member(self@, key@) is None,
            },
    {
        let mut i: usize = 0;
        while i < self.members.len()
            invariant
                i <= self.members@.len(),
                member_index(self@, key@, 0) == member_index(self@, key@, i as int),
            decreases self.members@.len() - i,
        {
            assert(self@[i as int] == (self.members@[i as int].0@, self.members@[i as int].1@));
            if str_eq(&self.members[i].0, key) {
                return Some(&self.members[i].1);
            }
            i = i + 1;
        }
        None
    }

    /// The text that a member holds.
    pub fn text(&self, key: &str) -> (r: Option<&str>)
        ensures
            match r {
                Some(t) => text_member(self@, key@) == Some(t@),
                None => text_member(self@, key@) is None,
            },
    {
        match self.find(key) {
            Some(JsonScalar::Text(t)) => Some(t.as_str()),
            _ => None,
        }
    }

    /// The number that a member holds, as JSON text.
    pub fn number(&self, key: &str) -> (r: Option<&str>)
        ensures
            match r {
                Some(t) => number_member(self@, key@) == Some(t@),
                None => number_member(self@, key@) is None,
            },
    {
        match self.find(key) {
            Some(JsonScalar::Number(n)) => Some(n.as_str()),
            _ => None,
        }
    }

    /// Whether the event is of a kind.
    pub fn is_of_kind(&self, kind: &str) -> (r: bool)
        ensures
            r == is_kind(self@, kind@),
    {
        match self.text("event") {
            Some(k) => str_eq(k, kind),
            None => false,
        }
    }
}

// ---------------------------------------------------------------------------
// Reading

/// The members of the JSON object that `serde_json` reads from a text; `None`
/// where the text is no JSON object.
pub uninterp spec fn json_members(text: Seq<char>) -> Option<EventModel>;

/// What an optional event stands for.
pub open spec fn opt_event(e: Option<PerfEvent>) -> Option<EventModel> {
    match e {
        Some(e) => Some(e@),
        None => None,
    }
}

/// `serde_json::from_str` into a `serde_json::Value`, whose members are handed on
/// as plain values where it is an object: numbers as the text that
/// `serde_json::Number` displays, arrays and objects without their contents. The
/// result depends on the text alone.
#[verifier::external_body]
fn read_json_object(text: &str) -> (r: Option<PerfEvent>)
    ensures
        opt_event(r) == json_members(text@),
{
    let scalar = |v: Value| match v {
        Value::Null => JsonScalar::Null,
        Value::Bool(b) => JsonScalar::Bool(b),
        Value::Number(n) => JsonScalar::Number(n.to_string()),
        Value::String(s) => JsonScalar::Text(s),
        Value::Array(_) => JsonScalar::Nested,
        Value::Object(_) => JsonScalar::Nested,
    };
    match serde_json::from_str::<Value>(text).ok()? {
        Value::Object(m) => Some(PerfEvent { members: m.into_iter().map(|(k, v)| (k, scalar(v))).collect() }),
        _ => None,
    }
}

/// What a JSON object on a line counts as: an event where it names its kind.
pub open spec fn event_of(object: Option<EventModel>) -> Option<EventModel> {
    match object {
        Some(e) => if text_member(e, "event"@) is Some {
            Some(e)
        } else {
            None
        },
        None => None,
    }
}

/// What a JSON object on a line counts as.
pub fn keep_event(object: Option<PerfEvent>) -> (r: Option<PerfEvent>)
    ensures
        opt_event(r) == event_of(opt_event(object)),
{
    match object {
        Some(e) => {
            let named = e.text("event").is_some();
            if named {
                Some(e)
            } else {
                None
            }
        },
        None => None,
    }
}

/// The event on a line; `None` for a blank line and for one that holds no event.
pub open spec fn line_event(line: Seq<char>) -> Option<EventModel> {
    let content = text::trimmed(line);
    if content.len() == 0 {
        None
    } else {
        event_of(json_members(content))
    }
}

/// The events on lines, in order.
pub open spec fn events_on(lines: Seq<Seq<char>>) -> Seq<EventModel>
    decreases lines.len(),
{
    if lines.len() == 0 {
        Seq::empty()
    } else {
        let before = events_on(lines.drop_last());
        match line_event(lines.last()) {
            Some(e) => before.push(e),
            None => before,
        }
    }
}

/// Reads events from JSON lines. Lines that are blank, are no JSON or name no
/// kind of event are skipped, so that one broken line does not cost the others.
pub fn parse_jsonl(text: &str) -> (r: Vec<PerfEvent>)
    ensures
        event_models(r@) == events_on(text::lines(text@)),
{
    let lines = text::lines_of(&chars_of(text));
    let ghost all = text::lines(text@);
    let mut events: Vec<PerfEvent> = Vec::new();
    assert(event_models(events@) =~= events_on(all.take(0)));
    for i in 0..lines.len()
        invariant
            text::texts(lines@) == all,
            event_models(events@) == events_on(all.take(i as int)),
    {
        proof {
            assert(all[i as int] == lines@[i as int]@);
            assert(all.take(i + 1).drop_last() =~= all.take(i as int));
            assert(all.take(i + 1).last() == lines@[i as int]@);
        }
        let content = trim_chars(&lines[i]);
        if content.len() > 0 {
            if let Some(e) = keep_event(read_json_object(&string_of(content))) {
                let ghost before = event_models(events@);
                events.push(e);
                assert(event_models(events@) =~= before.push(e@));
            }
        }
    }
    assert(all.take(all.len() as int) =~= all);
    events
}

// ---------------------------------------------------------------------------
// Samples

/// The index at which the measured part of a trial starts: after the last
/// `measure_start` event, or at 0 where there is none.
pub open spec fn measured_from(trial: Seq<EventModel>) -> int
    decreases trial.len(),
{
    if trial.len() == 0 {
        0
    } else if is_kind(trial.last(), "measure_start"@) {
        trial.len() as int
    } else {
        measured_from(trial.drop_last())
    }
}

/// The measured part of a trial.
pub open spec fn measured(trial: Seq<EventModel>) -> Seq<EventModel> {
    trial.skip(measured_from(trial))
}

/// The measured part of a trial: what follows its last `measure_start` event, or
/// the whole where it has none. What precedes it is warm-up.
pub fn measured_phase(trial: &[PerfEvent]) -> (r: &[PerfEvent])
    ensures
        event_models(r@) == measured(event_models(trial@)),
{
    let ghost models = event_models(trial@);
    let mut i: usize = trial.len();
    assert(models.take(models.len() as int) =~= models);
    while i > 0 && !trial[i - 1].is_of_kind("measure_start")
        invariant
            i <= trial@.len(),
            models == event_models(trial@),
            measured_from(models) == measured_from(models.take(i as int)),
        decreases i,
    {
        assert(models.take(i as int).drop_last() =~= models.take(i - 1));
        assert(models.take(i as int).last() == trial@[i - 1]@);
        i = i - 1;
    }
    proof {
        if i > 0 {
            assert(models.take(i as int).last() == trial@[i - 1]@);
        }
        assert(measured_from(models) == i);
    }
    let r = vstd::slice::slice_subrange(trial, i, trial.len());
    assert(event_models(r@) =~= models.skip(i as int));
    r
}

/// The number of events of a kind.
pub open spec fn kind_count(events: Seq<EventModel>, kind: Seq<char>) -> nat
    decreases events.len(),
{
    if events.len() == 0 {
        0
    } else {
        kind_count(events.drop_last(), kind) + if is_kind(events.last(), kind) {
            1nat
        } else {
            0nat
        }
    }
}

/// The numbers in a field of the events of a kind, in order.
pub open spec fn field_numbers(events: Seq<EventModel>, kind: Seq<char>, field: Seq<char>) -> Seq<
    Seq<char>,
>
    decreases events.len(),
{
    if events.len() == 0 {
        Seq::empty()
    } else {
        let before = field_numbers(events.drop_last(), kind, field);
        match number_member(events.last(), field) {
            Some(n) => if is_kind(events.last(), kind) {
                before.push(n)
            } else {
                before
            },
            None => before,
        }
    }
}

/// The samples of a metric in events, as JSON numbers. The metric that counts
/// events gives one sample, unless there are no events at all.
pub open spec fn samples(key: MetricKey, events: Seq<EventModel>) -> Seq<Seq<char>> {
    match metric_key::metric_field(key) {
        Some(field) => field_numbers(events, metric_key::metric_event(key), field),
        None => if events.len() == 0 {
            Seq::empty()
        } else {
            seq![text::decimal(kind_count(events, metric_key::metric_event(key)))]
        },
    }
}

/// What strings stand for.
pub open spec fn string_models(v: Seq<String>) -> Seq<Seq<char>> {
    v.map_values(|s: String| s@)
}

impl MetricKey {
    /// The samples of the metric in events, as JSON numbers.
    pub fn extract(self, events: &[PerfEvent]) -> (r: Vec<String>)
        ensures
            string_models(r@) == samples(self, event_models(events@)),
    {
        let ghost models = event_models(events@);
        let mut r: Vec<String> = Vec::new();
        assert(string_models(r@) =~= Seq::empty());
        if self == MetricKey::SuspendedTabCount {
            if events.len() == 0 {
                return r;
            }
            let mut count: usize = 0;
            for i in 0..events.len()
                invariant
                    models == event_models(events@),
                    count <= i,
                    count == kind_count(
                        models.take(i as int),
                        metric_key::metric_event(MetricKey::SuspendedTabCount),
                    ),
            {
                assert(models.take(i + 1).drop_last() =~= models.take(i as int));
                assert(models.take(i + 1).last() == events@[i as int]@);
                if events[i].is_of_kind(MetricKey::SuspendedTabCount.event_name()) {
                    count = count + 1;
                }
            }
            assert(models.take(models.len() as int) =~= models);
            r.push(text::decimal_of(count as u128));
            assert(string_models(r@) =~= samples(self, models));
            return r;
        }
        let kind = self.event_name();
        let field = self.field_name();
        for i in 0..events.len()
            invariant
                models == event_models(events@),
                string_models(r@) == field_numbers(models.take(i as int), kind@, field@),
        {
            assert(models.take(i + 1).drop_last() =~= models.take(i as int));
            assert(models.take(i + 1).last() == events@[i as int]@);
            if events[i].is_of_kind(kind) {
                if let Some(n) = events[i].number(field) {
                    let ghost before = string_models(r@);
                    r.push(n.to_owned());
                    assert(string_models(r@) =~= before.push(n@));
                }
            }
        }
        assert(models.take(models.len() as int) =~= models);
        r
    }
}

/// What trials stand for.
pub open spec fn trial_models(trials: Seq<Vec<PerfEvent>>) -> Seq<Seq<EventModel>> {
    trials.map_values(|t: Vec<PerfEvent>| event_models(t@))
}

/// The part of a trial that a metric is taken from.
pub open spec fn part_for(key: MetricKey, trial: Seq<EventModel>) -> Seq<EventModel> {
    if key is SuspendedTabCount {
        trial
    } else {
        measured(trial)
    }
}

/// The samples of a metric in all trials, one trial after the other.
pub open spec fn pooled(key: MetricKey, trials: Seq<Seq<EventModel>>) -> Seq<Seq<char>>
    decreases trials.len(),
{
    if trials.len() == 0 {
        Seq::empty()
    } else {
        pooled(key, trials.drop_last()) + samples(key, part_for(key, trials.last()))
    }
}

/// The samples of one metric.
#[derive(Debug, Clone, PartialEq)]
pub struct MetricSamples {
    pub key: MetricKey,
    /// The samples, as JSON numbers.
    pub samples: Vec<String>,
}

/// What the samples of metrics stand for.
pub open spec fn metric_samples_models(v: Seq<MetricSamples>) -> Seq<(MetricKey, Seq<Seq<char>>)> {
    v.map_values(|m: MetricSamples| (m.key, string_models(m.samples@)))
}

/// The metrics among `keys` that have a sample, with all their samples.
pub open spec fn aggregated(keys: Seq<MetricKey>, trials: Seq<Seq<EventModel>>) -> Seq<
    (MetricKey, Seq<Seq<char>>),
>
    decreases keys.len(),
{
    if keys.len() == 0 {
        Seq::empty()
    } else {
        let before = aggregated(keys.drop_last(), trials);
        let values = pooled(keys.last(), trials);
        if values.len() == 0 {
            before
        } else {
            before.push((keys.last(), values))
        }
    }
}

fn pool(key: MetricKey, trials: &[Vec<PerfEvent>]) -> (r: Vec<String>)
    ensures
        string_models(r@) == pooled(key, trial_models(trials@)),
{
    let ghost models = trial_models(trials@);
    let mut r: Vec<String> = Vec::new();
    assert(string_models(r@) =~= Seq::empty());
    for i in 0..trials.len()
        invariant
            models == trial_models(trials@),
            string_models(r@) == pooled(key, models.take(i as int)),
    {
        proof {
            assert(models.take(i + 1).drop_last() =~= models.take(i as int));
            assert(models.take(i + 1).last() == event_models(trials@[i as int]@));
        }
        let mut more = if key.counts_whole_trial() {
            key.extract(trials[i].as_slice())
        } else {
            key.extract(measured_phase(trials[i].as_slice()))
        };
        let ghost before = string_models(r@);
        let ghost added = string_models(more@);
        r.append(&mut more);
        assert(string_models(r@) =~= before + added);
    }
    assert(models.take(models.len() as int) =~= models);
    r
}

/// Pools the samples of all trials, metric by metric. Of each trial the measured
/// part counts, except for the metric that is taken over the whole. A metric
/// without a sample is left out.
pub fn aggregate_trials(trials: &[Vec<PerfEvent>]) -> (r: Vec<MetricSamples>)
    ensures
        metric_samples_models(r@) == aggregated(metric_key::all_metrics(), trial_models(trials@)),
{
    let keys = MetricKey::ALL;
    let ghost all = metric_key::all_metrics();
    assert(keys@ =~= all);
    let mut r: Vec<MetricSamples> = Vec::new();
    assert(metric_samples_models(r@) =~= Seq::empty());
    for i in 0..21
        invariant
            keys@ == all,
            all.len() == 21,
            metric_samples_models(r@) == aggregated(all.take(i as int), trial_models(trials@)),
    {
        proof {
            assert(all.take(i + 1).drop_last() =~= all.take(i as int));
            assert(all.take(i + 1).last() == all[i as int]);
        }
        let key = keys[i];
        let values = pool(key, trials);
        assert(string_models(values@).len() == values@.len());
        if values.len() > 0 {
            let ghost before = metric_samples_models(r@);
            let ghost model = (key, string_models(values@));
            r.push(MetricSamples { key, samples: values });
            assert(metric_samples_models(r@) =~= before.push(model));
        }
    }
    assert(all.take(21) =~= all);
    r
}

// ---------------------------------------------------------------------------
// Laws

/// Whether no member has a name.
pub open spec fn lacks(event: EventModel, key: Seq<char>) -> bool {
    forall|i: int| 0 <= i < event.len() ==> (#[trigger] event[i]).0 != key
}

/// A member is found by its name, wherever it stands, and none is found where no
/// member has the name. Only text is taken for text, and only a number for a number.
pub proof fn a_member_is_found_by_its_name(
    front: EventModel,
    key: Seq<char>,
    value: ScalarModel,
    back: EventModel,
)
    requires
        lacks(front, key),
    ensures
        member(front + seq![(key, value)] + back, key) == Some(value),
        member(front, key) is None,
        text_member(front, key) is None,
        number_member(front, key) is None,
        text_member(front + seq![(key, value)] + back, key) == match value {
            ScalarModel::Text(t) => Some(t),
            _ => None,
        },
        number_member(front + seq![(key, value)] + back, key) == match value {
            ScalarModel::Number(n) => Some(n),
            _ => None,
        },
{
    let event = front + seq![(key, value)] + back;
    lemma_member_index(front, key, 0);
    lemma_member_index(event, key, 0);
    let n = front.len() as int;
    assert(event[n] == (key, value));
    let i = member_index(event, key, 0);
    if i < n {
        assert(event[i] == front[i]);
    }
}

proof fn lemma_member_index(event: EventModel, key: Seq<char>, from: int)
    requires
        0 <= from <= event.len(),
    ensures
        ({
            let i = member_index(event, key, from);
            &&& from <= i <= event.len()
            &&& i < event.len() ==> event[i].0 == key
            &&& forall|j: int| from <= j < i ==> (#[trigger] event[j]).0 != key
        }),
    decreases event.len() - from,
{
    if from < event.len() && event[from].0 != key {
        lemma_member_index(event, key, from + 1);
    }
}

/// What follows the last `measure_start` of a trial is measured; where there is none,
/// all of it is.
pub proof fn warming_up_does_not_count(
    front: Seq<EventModel>,
    start: EventModel,
    back: Seq<EventModel>,
)
    requires
        text_member(start, "event"@) == Some("measure_start"@),
        forall|i: int|
            0 <= i < back.len() ==> text_member(#[trigger] back[i], "event"@) != Some(
                "measure_start"@,
            ),
    ensures
        measured(front.push(start) + back) == back,
        measured(back) == back,
    decreases back.len(),
{
    let trial = front.push(start) + back;
    if back.len() == 0 {
        assert(trial =~= front.push(start));
        assert(trial.last() == start);
        assert(trial.skip(trial.len() as int) =~= back);
        assert(back.skip(0) =~= back);
    } else {
        let shorter = back.drop_last();
        assert forall|i: int| 0 <= i < shorter.len() implies text_member(
            #[trigger] shorter[i],
            "event"@,
        ) != Some("measure_start"@) by {
            assert(shorter[i] == back[i]);
        }
        warming_up_does_not_count(front, start, shorter);
        assert(trial.drop_last() =~= front.push(start) + shorter);
        assert(back[back.len() - 1] == trial.last());
        lemma_measured_from(front.push(start) + shorter);
        lemma_measured_from(shorter);
        let a = measured_from(front.push(start) + shorter);
        let b = measured_from(shorter);
        assert((front.push(start) + shorter).skip(a).len() == shorter.len());
        assert(shorter.skip(b).len() == shorter.len());
        assert(a == front.len() + 1 && b == 0);
        assert(trial.skip(a) =~= back);
        assert(back.skip(0) =~= back);
    }
}

proof fn lemma_measured_from(trial: Seq<EventModel>)
    ensures
        0 <= measured_from(trial) <= trial.len(),
    decreases trial.len(),
{
    if trial.len() > 0 {
        lemma_measured_from(trial.drop_last());
    }
}

/// Whether an event gives a sample of a metric that reads a field: it is of the kind
/// that the metric is about, and has a number in the field.
pub open spec fn gives_sample(key: MetricKey, event: EventModel) -> bool {
    text_member(event, "event"@) == Some(metric_key::metric_event(key)) && number_member(
        event,
        metric_key::metric_field(key)->0,
    ) is Some
}

/// Each event gives the number in its field, if it is of the right kind and has one,
/// and no other sample; the samples are in the order of the events.
pub proof fn each_event_gives_its_own_sample(
    key: MetricKey,
    events: Seq<EventModel>,
    event: EventModel,
)
    requires
        !(key is SuspendedTabCount),
    ensures
        samples(key, Seq::empty()).len() == 0,
        gives_sample(key, event) ==> samples(key, events.push(event)) == samples(key, events).push(
            number_member(event, metric_key::metric_field(key)->0)->0,
        ),
        !gives_sample(key, event) ==> samples(key, events.push(event)) == samples(key, events),
{
    assert(events.push(event).drop_last() =~= events);
}

/// The suspended tabs of a trial are counted: one sample, which grows by one with
/// each `tab_suspend` and with no other event. A trial without events has none.
pub proof fn suspended_tabs_are_counted(events: Seq<EventModel>, event: EventModel, n: nat)
    requires
        events.len() > 0,
        samples(MetricKey::SuspendedTabCount, events) == seq![text::decimal(n)],
    ensures
        samples(MetricKey::SuspendedTabCount, Seq::empty()).len() == 0,
        samples(MetricKey::SuspendedTabCount, events.push(event)) == if text_member(
            event,
            "event"@,
        ) == Some("tab_suspend"@) {
            seq![text::decimal(n + 1)]
        } else {
            seq![text::decimal(n)]
        },
        samples(MetricKey::SuspendedTabCount, seq![event]) == if text_member(event, "event"@)
            == Some("tab_suspend"@) {
            seq![text::decimal(1)]
        } else {
            seq![text::decimal(0)]
        },
{
    let kind = "tab_suspend"@;
    assert(events.push(event).drop_last() =~= events);
    let m = kind_count(events, kind);
    assert(samples(MetricKey::SuspendedTabCount, events)[0] == text::decimal(m));
    text::lemma_decimal_digits(m);
    text::lemma_decimal_digits(n);
    assert(m == n);
    assert(seq![event].drop_last() =~= Seq::empty());
    assert(kind_count(seq![event].drop_last(), kind) == 0);
}

/// The samples of trials are those of one trial after the other, out of the measured
/// part of each; suspended tabs are counted over the whole of a trial.
pub proof fn trials_are_pooled_in_order(
    key: MetricKey,
    trials: Seq<Seq<EventModel>>,
    trial: Seq<EventModel>,
)
    ensures
        pooled(key, Seq::empty()).len() == 0,
        !(key is SuspendedTabCount) ==> pooled(key, trials.push(trial)) == pooled(key, trials)
            + samples(key, measured(trial)),
        key is SuspendedTabCount ==> pooled(key, trials.push(trial)) == pooled(key, trials)
            + samples(key, trial),
{
    assert(trials.push(trial).drop_last() =~= trials);
}

/// A metric is in the result exactly where it has a sample, once, and with all its
/// samples.
pub proof fn a_metric_with_samples_is_reported(
    keys: Seq<MetricKey>,
    trials: Seq<Seq<EventModel>>,
    key: MetricKey,
    values: Seq<Seq<char>>,
)
    ensures
        aggregated(keys, trials).contains((key, values)) <==> keys.contains(key) && values == pooled(
            key,
            trials,
        ) && values.len() > 0,
        aggregated(keys, trials).len() <= keys.len(),
    decreases keys.len(),
{
    if keys.len() > 0 {
        let front = keys.drop_last();
        let last = keys.last();
        let before = aggregated(front, trials);
        let all = aggregated(keys, trials);
        a_metric_with_samples_is_reported(front, trials, key, values);
        assert(keys =~= front.push(last));
        if keys.contains(key) {
            let i = keys.index_of(key);
            if i < front.len() {
                assert(front[i] == key);
            }
        }
        if front.contains(key) {
            let i = front.index_of(key);
            assert(keys[i] == key);
        }
        assert(keys[keys.len() - 1] == last);
        if before.contains((key, values)) {
            let i = before.index_of((key, values));
            assert(all[i] == (key, values));
        }
        if pooled(last, trials).len() > 0 {
            assert(all[all.len() - 1] == (last, pooled(last, trials)));
            if all.contains((key, values)) {
                let i = all.index_of((key, values));
                if i < before.len() {
                    assert(before[i] == (key, values));
                }
            }
        }
    }
}

/// Every line that holds a JSON object with the kind of an event gives that event,
/// in order; any other line costs nothing but itself.
pub proof fn each_line_gives_its_own_event(lines: Seq<Seq<char>>, line: Seq<char>)
    ensures
        events_on(Seq::empty()).len() == 0,
        ({
            let object = json_members(text::trimmed(line));
            let after = events_on(lines.push(line));
            if text::trimmed(line).len() > 0 && object is Some && text_member(
                object->0,
                "event"@,
            ) is Some {
                after == events_on(lines).push(object->0)
            } else {
                after == events_on(lines)
            }
        }),
{
    assert(lines.push(line).drop_last() =~= lines);
}

} // verus!
