//! A summary of the messages between the toolbar and the browser.

use vstd::prelude::*;
use vstd::string::*;

use crate::perf_events::{self, EventModel, PerfEvent};
use crate::text::{self, chars_of, parse_number, str_eq};

verus! {

// ---------------------------------------------------------------------------
// Messages

/// One message.
pub struct MessageModel {
    pub direction: Seq<char>,
    pub name: Seq<char>,
    pub bytes: nat,
    /// A JSON number.
    pub duration: Seq<char>,
}

/// The message that an event tells of. A direction or a name that is missing is
/// `?`, a number of bytes or a duration that is missing is 0.
pub open spec fn message_of(event: EventModel) -> MessageModel {
    MessageModel {
        direction: match perf_events::text_member(event, "direction"@) {
            Some(d) => d,
            None => "?"@,
        },
        name: match perf_events::text_member(event, "name"@) {
            Some(n) => n,
            None => "?"@,
        },
        bytes: match perf_events::number_member(event, "bytes"@) {
            Some(n) => match text::parsed_number(n, u64::MAX as nat) {
                Some(b) => b,
                None => 0,
            },
            None => 0,
        },
        duration: match perf_events::number_member(event, "duration_ms"@) {
            Some(n) => n,
            None => "0"@,
        },
    }
}

/// The messages that events tell of.
pub open spec fn messages(events: Seq<EventModel>) -> Seq<MessageModel>
    decreases events.len(),
{
    if events.len() == 0 {
        Seq::empty()
    } else {
        let before = messages(events.drop_last());
        if perf_events::is_kind(events.last(), "ipc"@) {
            before.push(message_of(events.last()))
        } else {
            before
        }
    }
}

/// Whether a message goes in a direction under a name.
pub open spec fn is_of(m: MessageModel, direction: Seq<char>, name: Seq<char>) -> bool {
    m.direction == direction && m.name == name
}

/// The messages of one direction and name.
pub open spec fn messages_of(ms: Seq<MessageModel>, direction: Seq<char>, name: Seq<char>) -> Seq<
    MessageModel,
>
    decreases ms.len(),
{
    if ms.len() == 0 {
        Seq::empty()
    } else {
        let before = messages_of(ms.drop_last(), direction, name);
        if is_of(ms.last(), direction, name) {
            before.push(ms.last())
        } else {
            before
        }
    }
}

/// The bytes of messages together.
pub open spec fn total_bytes(ms: Seq<MessageModel>) -> nat
    decreases ms.len(),
{
    if ms.len() == 0 {
        0
    } else {
        total_bytes(ms.drop_last()) + ms.last().bytes
    }
}

/// Whether the bytes of the messages of each direction and name can be counted.
pub open spec fn totals_fit(ms: Seq<MessageModel>) -> bool {
    forall|direction: Seq<char>, name: Seq<char>|
        total_bytes(#[trigger] messages_of(ms, direction, name)) <= u64::MAX
}

/// The durations of messages.
pub open spec fn durations(ms: Seq<MessageModel>) -> Seq<Seq<char>> {
    ms.map_values(|m: MessageModel| m.duration)
}

// ---------------------------------------------------------------------------
// Rows

/// The messages of one direction and name, summed up.
#[derive(Debug, Clone, PartialEq)]
pub struct IpcSummary {
    /// `in` for a command of the toolbar, `out` for a call into it.
    pub direction: String,
    pub name: String,
    pub count: usize,
    pub total_bytes: u64,
    /// The durations, in milliseconds, as JSON numbers.
    pub durations: Vec<String>,
}

/// What an [`IpcSummary`] stands for.
pub struct RowModel {
    pub direction: Seq<char>,
    pub name: Seq<char>,
    pub count: nat,
    pub total_bytes: nat,
    pub durations: Seq<Seq<char>>,
}

impl View for IpcSummary {
    type V = RowModel;

    open spec fn view(&self) -> RowModel {
        RowModel {
            direction: self.direction@,
            name: self.name@,
            count: self.count as nat,
            total_bytes: self.total_bytes as nat,
            durations: perf_events::string_models(self.durations@),
        }
    }
}

/// What rows stand for.
pub open spec fn row_models(rows: Seq<IpcSummary>) -> Seq<RowModel> {
    rows.map_values(|r: IpcSummary| r@)
}

/// The row for the messages of one direction and name.
pub open spec fn row_for(ms: Seq<MessageModel>, direction: Seq<char>, name: Seq<char>) -> RowModel {
    let own = messages_of(ms, direction, name);
    RowModel {
        direction,
        name,
        count: own.len(),
        total_bytes: total_bytes(own),
        durations: durations(own),
    }
}

/// Whether two rows are for the same direction and name.
pub open spec fn same_key(a: RowModel, b: RowModel) -> bool {
    a.direction == b.direction && a.name == b.name
}

/// Whether rows sum up messages: one row for each direction and name that there
/// is a message of.
pub open spec fn sums_up(rows: Seq<RowModel>, ms: Seq<MessageModel>) -> bool {
    &&& forall|i: int|
        0 <= i < rows.len() ==> #[trigger] rows[i] == row_for(ms, rows[i].direction, rows[i].name)
            && rows[i].count > 0
    &&& forall|i: int, j: int|
        0 <= i < j < rows.len() ==> !same_key(#[trigger] rows[i], #[trigger] rows[j])
    &&& forall|k: int| 0 <= k < ms.len() ==> has_row_for(rows, #[trigger] ms[k])
}

/// Whether one of some rows is for the direction and name of a message.
pub open spec fn has_row_for(rows: Seq<RowModel>, m: MessageModel) -> bool {
    exists|i: int|
        0 <= i < rows.len() && is_of(m, (#[trigger] rows[i]).direction, rows[i].name)
}

/// Whether row `a` stands before row `b`: by bytes, most first; then by count,
/// most first; then by direction and name.
pub open spec fn row_less(a: RowModel, b: RowModel) -> bool {
    ||| a.total_bytes > b.total_bytes
    ||| a.total_bytes == b.total_bytes && a.count > b.count
    ||| a.total_bytes == b.total_bytes && a.count == b.count && (text::text_less(a.direction, b.direction)
        || (a.direction == b.direction && text::text_less(a.name, b.name)))
}

/// Whether rows stand in order.
pub open spec fn in_order(rows: Seq<RowModel>) -> bool {
    forall|i: int, j: int|
        0 <= i < j < rows.len() ==> row_less(#[trigger] rows[i], #[trigger] rows[j])
}

proof fn lemma_row_less(a: RowModel, b: RowModel, c: RowModel)
    ensures
        row_less(a, b) && row_less(b, c) ==> row_less(a, c),
        row_less(a, b) || row_less(b, a) || same_key(a, b),
{
    text::lemma_text_less_is_total(a.direction, b.direction);
    text::lemma_text_less_is_total(a.name, b.name);
    if text::text_less(a.direction, b.direction) && text::text_less(b.direction, c.direction) {
        text::lemma_text_less_is_transitive(a.direction, b.direction, c.direction);
    }
    if text::text_less(a.name, b.name) && text::text_less(b.name, c.name) {
        text::lemma_text_less_is_transitive(a.name, b.name, c.name);
    }
}

fn row_before(a: &IpcSummary, b: &IpcSummary) -> (r: bool)
    ensures
        r == row_less(a@, b@),
{
    if a.total_bytes != b.total_bytes {
        return a.total_bytes > b.total_bytes;
    }
    if a.count != b.count {
        return a.count > b.count;
    }
    if str_eq(&a.direction, &b.direction) {
        proof {
            text::lemma_text_less_is_strict(a.direction@);
        }
        text::less(&a.name, &b.name)
    } else {
        text::less(&a.direction, &b.direction)
    }
}

// ---------------------------------------------------------------------------
// Summing up

proof fn lemma_own_total(ms: Seq<MessageModel>, direction: Seq<char>, name: Seq<char>)
    ensures
        total_bytes(messages_of(ms, direction, name)) <= total_bytes(ms),
        messages_of(ms, direction, name).len() <= ms.len(),
    decreases ms.len(),
{
    if ms.len() > 0 {
        let before = messages_of(ms.drop_last(), direction, name);
        lemma_own_total(ms.drop_last(), direction, name);
        if is_of(ms.last(), direction, name) {
            assert(before.push(ms.last()).drop_last() =~= before);
        }
    }
}

/// How the row for a direction and a name changes with one more message.
proof fn lemma_row_for_push(
    ms: Seq<MessageModel>,
    m: MessageModel,
    direction: Seq<char>,
    name: Seq<char>,
)
    ensures
        !is_of(m, direction, name) ==> row_for(ms.push(m), direction, name) == row_for(
            ms,
            direction,
            name,
        ),
        is_of(m, direction, name) ==> ({
            let before = row_for(ms, direction, name);
            row_for(ms.push(m), direction, name) == RowModel {
                count: before.count + 1,
                total_bytes: before.total_bytes + m.bytes,
                durations: before.durations.push(m.duration),
                ..before
            }
        }),
{
    let own = messages_of(ms, direction, name);
    assert(ms.push(m).drop_last() =~= ms);
    if is_of(m, direction, name) {
        assert(own.push(m).drop_last() =~= own);
        assert(durations(own.push(m)) =~= durations(own).push(m.duration));
    }
}

fn index_of_row(rows: &Vec<IpcSummary>, direction: &str, name: &str) -> (r: Option<usize>)
    ensures
        match r {
            Some(i) => i < rows@.len() && rows@[i as int].direction@ == direction@
                && rows@[i as int].name@ == name@,
            None => forall|i: int|
                0 <= i < rows@.len() ==> !((#[trigger] rows@[i]).direction@ == direction@
                    && rows@[i].name@ == name@),
        },
{
    for i in 0..rows.len()
        invariant
            forall|j: int|
                0 <= j < i ==> !((#[trigger] rows@[j]).direction@ == direction@ && rows@[j].name@
                    == name@),
    {
        if str_eq(&rows[i].direction, direction) && str_eq(&rows[i].name, name) {
            return Some(i);
        }
    }
    None
}

/// A message as read.
struct Message {
    direction: String,
    name: String,
    bytes: u64,
    duration: String,
}

fn read_message(event: &PerfEvent) -> (r: Message)
    ensures
        (MessageModel {
            direction: r.direction@,
            name: r.name@,
            bytes: r.bytes as nat,
            duration: r.duration@,
        }) == message_of(event@),
{
    let direction = match event.text("direction") {
        Some(d) => d.to_owned(),
        None => "?".to_owned(),
    };
    let name = match event.text("name") {
        Some(n) => n.to_owned(),
        None => "?".to_owned(),
    };
    let bytes: u64 = match event.number("bytes") {
        Some(n) => match parse_number(&chars_of(n), u64::MAX) {
            Some(b) => b,
            None => 0,
        },
        None => 0,
    };
    let duration = match event.number("duration_ms") {
        Some(n) => n.to_owned(),
        None => "0".to_owned(),
    };
    Message { direction, name, bytes, duration }
}

/// Adds a message to the row that it belongs to.
fn add_message(rows: &mut Vec<IpcSummary>, m: Message, Ghost(ms): Ghost<Seq<MessageModel>>)
    requires
        sums_up(row_models(old(rows)@), ms),
        total_bytes(messages_of(ms, m.direction@, m.name@)) + m.bytes <= u64::MAX,
        ms.len() < usize::MAX,
    ensures
        sums_up(
            row_models(final(rows)@),
            ms.push(
                (MessageModel {
                    direction: m.direction@,
                    name: m.name@,
                    bytes: m.bytes as nat,
                    duration: m.duration@,
                }),
            ),
        ),
{
    let ghost model = MessageModel {
        direction: m.direction@,
        name: m.name@,
        bytes: m.bytes as nat,
        duration: m.duration@,
    };
    let ghost before = row_models(rows@);
    let ghost all = ms.push(model);
    proof {
        assert forall|d: Seq<char>, n: Seq<char>| !#[trigger] is_of(model, d, n) implies row_for(
            all,
            d,
            n,
        ) == row_for(ms, d, n) by {
            lemma_row_for_push(ms, model, d, n);
        }
        lemma_row_for_push(ms, model, model.direction, model.name);
        lemma_own_total(ms, model.direction, model.name);
    }
    match index_of_row(rows, &m.direction, &m.name) {
        Some(i) => {
            assert(before[i as int] == rows@[i as int]@);
            let Message { direction, name, bytes, duration } = m;
            let ghost was = rows@[i as int];
            let mut row = rows.swap_remove(i);
            let ghost others = rows@;
            row.count = row.count + 1;
            row.total_bytes = row.total_bytes + bytes;
            let ghost durations_before = row.durations@;
            row.durations.push(duration);
            proof {
                assert(perf_events::string_models(row.durations@) =~= perf_events::string_models(
                    durations_before,
                ).push(duration@));
            }
            let ghost new_row = row@;
            rows.push(row);
            proof {
                let after = row_models(rows@);
                let last = others.len() as int;
                assert(after[last] == new_row);
                assert(new_row == row_for(all, model.direction, model.name));
                assert forall|k: int| 0 <= k < after.len() implies #[trigger] after[k] == row_for(
                    all,
                    after[k].direction,
                    after[k].name,
                ) && after[k].count > 0 by {
                    if k < last {
                        let src = if k == i {
                            before.len() - 1
                        } else {
                            k
                        };
                        assert(after[k] == before[src]);
                        assert(src != i);
                        assert(!same_key(before[src], before[i as int]));
                        assert(!is_of(model, before[src].direction, before[src].name));
                    }
                }
                assert forall|a: int, b: int| 0 <= a < b < after.len() implies !same_key(
                    #[trigger] after[a],
                    #[trigger] after[b],
                ) by {
                    let src_a = if a == i && a < last {
                        before.len() - 1
                    } else {
                        a
                    };
                    let src_b = if b == last {
                        i as int
                    } else if b == i {
                        before.len() - 1
                    } else {
                        b
                    };
                    assert(same_key(after[a], before[src_a]));
                    assert(same_key(after[b], before[src_b]));
                    assert(src_a != src_b);
                    assert(!same_key(before[src_a], before[src_b]));
                }
                assert forall|k: int| 0 <= k < all.len() implies has_row_for(
                    after,
                    #[trigger] all[k],
                ) by {
                    if k == ms.len() {
                        assert(is_of(all[k], after[last].direction, after[last].name));
                    } else {
                        assert(all[k] == ms[k]);
                        assert(has_row_for(before, ms[k]));
                        let src = choose|r: int|
                            0 <= r < before.len() && is_of(
                                ms[k],
                                (#[trigger] before[r]).direction,
                                before[r].name,
                            );
                        let dst = if src == i {
                            last
                        } else if src == before.len() - 1 {
                            i as int
                        } else {
                            src
                        };
                        assert(same_key(after[dst], before[src]));
                        assert(is_of(all[k], after[dst].direction, after[dst].name));
                    }
                }
            }
        },
        None => {
            let Message { direction, name, bytes, duration } = m;
            let mut list: Vec<String> = Vec::new();
            list.push(duration);
            let row = IpcSummary { direction, name, count: 1, total_bytes: bytes, durations: list };
            proof {
                assert(messages_of(ms, model.direction, model.name).len() == 0) by {
                    lemma_no_row_no_message(before, ms, model.direction, model.name);
                }
                assert(perf_events::string_models(row.durations@) =~= seq![duration@]);
                let empty = row_for(ms, model.direction, model.name);
                assert(empty.durations =~= Seq::empty());
                assert(empty.durations.push(duration@) =~= seq![duration@]);
                assert(row@ == row_for(all, model.direction, model.name));
            }
            let ghost new_row = row@;
            rows.push(row);
            proof {
                let after = row_models(rows@);
                let last = before.len() as int;
                assert(after =~= before.push(new_row));
                assert forall|k: int| 0 <= k < after.len() implies #[trigger] after[k] == row_for(
                    all,
                    after[k].direction,
                    after[k].name,
                ) && after[k].count > 0 by {
                    if k < last {
                        assert(after[k] == before[k]);
                        assert(before[k] == rows@[k]@);
                        assert(!is_of(model, before[k].direction, before[k].name));
                    }
                }
                assert forall|k: int| 0 <= k < all.len() implies has_row_for(
                    after,
                    #[trigger] all[k],
                ) by {
                    if k == ms.len() {
                        assert(is_of(all[k], after[last].direction, after[last].name));
                    } else {
                        assert(all[k] == ms[k]);
                        assert(has_row_for(before, ms[k]));
                        let src = choose|r: int|
                            0 <= r < before.len() && is_of(
                                ms[k],
                                (#[trigger] before[r]).direction,
                                before[r].name,
                            );
                        assert(after[src] == before[src]);
                    }
                }
            }
        },
    }
}

proof fn lemma_no_row_no_message(
    rows: Seq<RowModel>,
    ms: Seq<MessageModel>,
    direction: Seq<char>,
    name: Seq<char>,
)
    requires
        sums_up(rows, ms),
        forall|i: int|
            0 <= i < rows.len() ==> !((#[trigger] rows[i]).direction == direction && rows[i].name
                == name),
    ensures
        messages_of(ms, direction, name).len() == 0,
{
    assert forall|k: int| 0 <= k < ms.len() implies !is_of(#[trigger] ms[k], direction, name) by {
        assert(has_row_for(rows, ms[k]));
        let r = choose|r: int|
            0 <= r < rows.len() && is_of(ms[k], (#[trigger] rows[r]).direction, rows[r].name);
        assert(!(rows[r].direction == direction && rows[r].name == name));
    }
    lemma_none_of(ms, direction, name);
}

proof fn lemma_none_of(ms: Seq<MessageModel>, direction: Seq<char>, name: Seq<char>)
    requires
        forall|k: int| 0 <= k < ms.len() ==> !is_of(#[trigger] ms[k], direction, name),
    ensures
        messages_of(ms, direction, name).len() == 0,
    decreases ms.len(),
{
    if ms.len() > 0 {
        assert(!is_of(ms[ms.len() - 1], direction, name));
        lemma_none_of(ms.drop_last(), direction, name);
    }
}

proof fn lemma_moving_a_row(a: Seq<RowModel>, x: RowModel, b: Seq<RowModel>, k: int, ms: Seq<MessageModel>)
    requires
        0 <= k <= b.len(),
        sums_up(a.push(x) + b, ms),
    ensures
        sums_up(a + b.insert(k, x), ms),
{
    let from = a.push(x) + b;
    let to = a + b.insert(k, x);
    let n = a.len() as int;
    let source = |j: int|
        if j < n {
            j
        } else if j < n + k {
            j + 1
        } else if j == n + k {
            n
        } else {
            j
        };
    assert(to.len() == from.len());
    assert forall|j: int| 0 <= j < to.len() implies #[trigger] to[j] == from[source(j)] by {}
    assert forall|i: int| 0 <= i < to.len() implies #[trigger] to[i] == row_for(
        ms,
        to[i].direction,
        to[i].name,
    ) && to[i].count > 0 by {
        assert(to[i] == from[source(i)]);
    }
    assert forall|i: int, j: int| 0 <= i < j < to.len() implies !same_key(
        #[trigger] to[i],
        #[trigger] to[j],
    ) by {
        let p = source(i);
        let q = source(j);
        assert(p != q);
        if p < q {
            assert(!same_key(from[p], from[q]));
        } else {
            assert(!same_key(from[q], from[p]));
        }
    }
    assert forall|m: int| 0 <= m < ms.len() implies has_row_for(to, #[trigger] ms[m]) by {
        assert(has_row_for(from, ms[m]));
        let r = choose|r: int|
            0 <= r < from.len() && is_of(ms[m], (#[trigger] from[r]).direction, from[r].name);
        let t = if r < n {
            r
        } else if r == n {
            n + k
        } else if r <= n + k {
            r - 1
        } else {
            r
        };
        assert(source(t) == r);
        assert(to[t] == from[r]);
    }
}

/// Puts a row where it belongs in rows that stand in order.
fn insert_row(rows: &mut Vec<IpcSummary>, row: IpcSummary) -> (k: usize)
    requires
        in_order(row_models(old(rows)@)),
        forall|i: int| 0 <= i < old(rows)@.len() ==> !same_key((#[trigger] old(rows)@[i])@, row@),
    ensures
        k <= old(rows)@.len(),
        in_order(row_models(final(rows)@)),
        row_models(final(rows)@) == row_models(old(rows)@).insert(k as int, row@),
{
    let ghost before = row_models(rows@);
    let mut k: usize = 0;
    while k < rows.len() && row_before(&rows[k], &row)
        invariant
            k <= rows@.len(),
            before == row_models(rows@),
            forall|i: int| 0 <= i < k ==> row_less(#[trigger] before[i], row@),
        decreases rows@.len() - k,
    {
        assert(before[k as int] == rows@[k as int]@);
        k = k + 1;
    }
    proof {
        assert forall|i: int| k <= i < before.len() implies row_less(row@, #[trigger] before[i]) by {
            assert(before[k as int] == rows@[k as int]@);
            lemma_row_less(row@, before[k as int], before[i]);
            if i > k {
                assert(row_less(before[k as int], before[i]));
            }
        }
    }
    let ghost model = row@;
    rows.insert(k, row);
    assert(row_models(rows@) =~= before.insert(k as int, model));
    proof {
        let after = before.insert(k as int, model);
        assert forall|i: int, j: int| 0 <= i < j < after.len() implies row_less(
            #[trigger] after[i],
            #[trigger] after[j],
        ) by {
            let p = if i < k {
                i
            } else {
                i - 1
            };
            let q = if j < k {
                j
            } else {
                j - 1
            };
            if i == k {
                assert(after[j] == before[j - 1]);
            } else if j == k {
                assert(after[i] == before[i]);
            } else {
                assert(after[i] == before[p] && after[j] == before[q]);
                assert(row_less(before[p], before[q]));
            }
        }
    }
    k
}

/// Sums up the messages that events tell of: one row for each direction and
/// name, those with the most bytes first, then those with the most messages.
pub fn summarize_ipc(events: &[PerfEvent]) -> (r: Vec<IpcSummary>)
    requires
        totals_fit(messages(perf_events::event_models(events@))),
    ensures
        sums_up(row_models(r@), messages(perf_events::event_models(events@))),
        in_order(row_models(r@)),
{
    let ghost models = perf_events::event_models(events@);
    let ghost all = messages(models);
    let mut rows: Vec<IpcSummary> = Vec::new();
    for i in 0..events.len()
        invariant
            models == perf_events::event_models(events@),
            all == messages(models),
            totals_fit(all),
            messages(models.take(i as int)).len() <= i,
            sums_up(row_models(rows@), messages(models.take(i as int))),
    {
        let ghost ms = messages(models.take(i as int));
        proof {
            assert(models.take(i + 1).drop_last() =~= models.take(i as int));
            assert(models.take(i + 1).last() == events@[i as int]@);
        }
        if events[i].is_of_kind("ipc") {
            let m = read_message(&events[i]);
            proof {
                let model = message_of(events@[i as int]@);
                assert(ms.push(model).drop_last() =~= ms);
                let own = messages_of(ms, model.direction, model.name);
                assert(own.push(model).drop_last() =~= own);
                lemma_messages_of_a_prefix(models, i + 1, model.direction, model.name);
            }
            add_message(&mut rows, m, Ghost(ms));
        }
    }
    assert(models.take(models.len() as int) =~= models);
    let mut sorted: Vec<IpcSummary> = Vec::new();
    assert(row_models(rows@) + row_models(sorted@) =~= row_models(rows@));
    loop
        invariant
            sums_up(row_models(rows@) + row_models(sorted@), all),
            in_order(row_models(sorted@)),
        ensures
            sums_up(row_models(sorted@), all),
            in_order(row_models(sorted@)),
        decreases rows@.len(),
    {
        let ghost before = rows@;
        match rows.pop() {
            Some(row) => {
                proof {
                    let a = row_models(rows@);
                    let b = row_models(sorted@);
                    assert(row_models(before) =~= a.push(row@));
                    let whole = a.push(row@) + b;
                    assert forall|i: int| 0 <= i < sorted@.len() implies !same_key(
                        (#[trigger] sorted@[i])@,
                        row@,
                    ) by {
                        assert(whole[a.len() as int] == row@);
                        assert(whole[a.len() + 1 + i] == sorted@[i]@);
                    }
                }
                let ghost model = row@;
                let ghost a = row_models(rows@);
                let ghost b = row_models(sorted@);
                let k: usize = insert_row(&mut sorted, row);
                proof {
                    lemma_moving_a_row(a, model, b, k as int, all);
                }
            },
            None => {
                assert(row_models(rows@) + row_models(sorted@) =~= row_models(sorted@));
                break ;
            },
        }
    }
    sorted
}

proof fn lemma_messages_of_a_prefix(
    events: Seq<EventModel>,
    k: int,
    direction: Seq<char>,
    name: Seq<char>,
)
    requires
        0 <= k <= events.len(),
    ensures
        total_bytes(messages_of(messages(events.take(k)), direction, name)) <= total_bytes(
            messages_of(messages(events), direction, name),
        ),
    decreases events.len() - k,
{
    if k == events.len() {
        assert(events.take(k) =~= events);
    } else {
        lemma_messages_of_a_prefix(events, k + 1, direction, name);
        let before = messages(events.take(k));
        let message = message_of(events[k]);
        let own = messages_of(before, direction, name);
        assert(events.take(k + 1).drop_last() =~= events.take(k));
        assert(before.push(message).drop_last() =~= before);
        assert(own.push(message).drop_last() =~= own);
    }
}

// ---------------------------------------------------------------------------
// Laws

/// A row has as many durations as messages, and no more bytes than there are in
/// all.
pub proof fn a_row_holds_what_its_messages_hold(
    rows: Seq<RowModel>,
    ms: Seq<MessageModel>,
    i: int,
)
    requires
        sums_up(rows, ms),
        0 <= i < rows.len(),
    ensures
        rows[i].count == rows[i].durations.len(),
        rows[i].total_bytes <= total_bytes(ms),
{
    lemma_own_total(ms, rows[i].direction, rows[i].name);
    assert(rows[i] == row_for(ms, rows[i].direction, rows[i].name));
}

/// Messages have one summary: two lists of rows that sum them up, in order, are
/// the same.
pub proof fn a_summary_is_unique(a: Seq<RowModel>, b: Seq<RowModel>, ms: Seq<MessageModel>)
    requires
        sums_up(a, ms),
        in_order(a),
        sums_up(b, ms),
        in_order(b),
    ensures
        a == b,
    decreases a.len(),
{
    lemma_same_rows(a, b, ms);
    lemma_same_rows(b, a, ms);
    lemma_ordered_lists_agree(a, b);
}

proof fn lemma_same_rows(a: Seq<RowModel>, b: Seq<RowModel>, ms: Seq<MessageModel>)
    requires
        sums_up(a, ms),
        sums_up(b, ms),
    ensures
        forall|i: int| 0 <= i < a.len() ==> b.contains(#[trigger] a[i]),
{
    assert forall|i: int| 0 <= i < a.len() implies b.contains(#[trigger] a[i]) by {
        let d = a[i].direction;
        let n = a[i].name;
        assert(a[i] == row_for(ms, d, n) && a[i].count > 0);
        let k = lemma_some_of(ms, d, n);
        assert(has_row_for(b, ms[k]));
        let j = choose|j: int|
            0 <= j < b.len() && is_of(ms[k], (#[trigger] b[j]).direction, b[j].name);
        assert(b[j] == row_for(ms, b[j].direction, b[j].name));
        assert(b[j] == a[i]);
    }
}

proof fn lemma_some_of(ms: Seq<MessageModel>, direction: Seq<char>, name: Seq<char>) -> (k: int)
    requires
        messages_of(ms, direction, name).len() > 0,
    ensures
        0 <= k < ms.len(),
        is_of(ms[k], direction, name),
    decreases ms.len(),
{
    if is_of(ms.last(), direction, name) {
        ms.len() - 1
    } else {
        lemma_some_of(ms.drop_last(), direction, name)
    }
}

proof fn lemma_row_less_is_strict(a: RowModel)
    ensures
        !row_less(a, a),
{
    text::lemma_text_less_is_strict(a.direction);
    text::lemma_text_less_is_strict(a.name);
}

proof fn lemma_ordered_lists_agree(a: Seq<RowModel>, b: Seq<RowModel>)
    requires
        in_order(a),
        in_order(b),
        forall|i: int| 0 <= i < a.len() ==> b.contains(#[trigger] a[i]),
        forall|i: int| 0 <= i < b.len() ==> a.contains(#[trigger] b[i]),
    ensures
        a == b,
    decreases a.len(),
{
    if a.len() == 0 {
        if b.len() > 0 {
            assert(a.contains(b[0]));
        }
        assert(a =~= b);
    } else {
        assert(b.contains(a[0]));
        let x = a.last();
        let y = b.last();
        assert(b.contains(a[a.len() - 1]));
        assert(a.contains(b[b.len() - 1]));
        let p = b.index_of(x);
        let q = a.index_of(y);
        if p < b.len() - 1 && q < a.len() - 1 {
            assert(row_less(b[p], b[b.len() - 1]));
            assert(row_less(a[q], a[a.len() - 1]));
            lemma_row_less(x, y, x);
            lemma_row_less_is_strict(x);
        }
        assert(x == y) by {
            if p == b.len() - 1 {
                assert(b[p] == x);
            } else {
                assert(q == a.len() - 1);
                assert(a[q] == y);
            }
        }
        let c = a.drop_last();
        let d = b.drop_last();
        assert forall|i: int| 0 <= i < c.len() implies d.contains(#[trigger] c[i]) by {
            assert(b.contains(a[i]));
            let j = b.index_of(a[i]);
            if j == b.len() - 1 {
                assert(row_less(a[i], a[a.len() - 1]));
                lemma_row_less_is_strict(x);
            }
            assert(d[j] == c[i]);
        }
        assert forall|i: int| 0 <= i < d.len() implies c.contains(#[trigger] d[i]) by {
            assert(a.contains(b[i]));
            let j = a.index_of(b[i]);
            if j == a.len() - 1 {
                assert(row_less(b[i], b[b.len() - 1]));
                lemma_row_less_is_strict(x);
            }
            assert(c[j] == d[i]);
        }
        lemma_ordered_lists_agree(c, d);
        assert(a =~= c.push(x));
        assert(b =~= d.push(y));
    }
}

/// What an event tells of a message, and what stands for what it does not tell.
pub proof fn a_message_is_what_its_event_tells(event: EventModel, n: nat)
    ensures
        perf_events::text_member(event, "direction"@) matches Some(d) ==> message_of(event).direction
            == d,
        perf_events::text_member(event, "direction"@) is None ==> message_of(event).direction
            == "?"@,
        perf_events::text_member(event, "name"@) matches Some(t) ==> message_of(event).name == t,
        perf_events::text_member(event, "name"@) is None ==> message_of(event).name == "?"@,
        perf_events::number_member(event, "bytes"@) == Some(text::decimal(n)) && n <= u64::MAX
            ==> message_of(event).bytes == n,
        perf_events::number_member(event, "bytes"@) is None ==> message_of(event).bytes == 0,
        perf_events::number_member(event, "duration_ms"@) matches Some(t) ==> message_of(
            event,
        ).duration == t,
        perf_events::number_member(event, "duration_ms"@) is None ==> message_of(event).duration
            == "0"@,
{
    if n <= u64::MAX {
        text::decimal_reads_back(n, u64::MAX as nat);
    }
}

/// Each `ipc` event tells of one message, in order, and no other event does.
pub proof fn each_ipc_event_is_a_message(events: Seq<EventModel>, event: EventModel)
    ensures
        messages(Seq::empty()).len() == 0,
        perf_events::text_member(event, "event"@) == Some("ipc"@) ==> messages(events.push(event))
            == messages(events).push(message_of(event)),
        perf_events::text_member(event, "event"@) != Some("ipc"@) ==> messages(events.push(event))
            == messages(events),
{
    assert(events.push(event).drop_last() =~= events);
}

/// A message counts in the row of its direction and its name, and in no other: one
/// message more, its bytes, and its duration.
pub proof fn a_message_counts_in_its_own_row(
    ms: Seq<MessageModel>,
    m: MessageModel,
    direction: Seq<char>,
    name: Seq<char>,
)
    ensures
        ({
            let before = row_for(ms, direction, name);
            let after = row_for(ms.push(m), direction, name);
            if m.direction == direction && m.name == name {
                &&& after.count == before.count + 1
                &&& after.total_bytes == before.total_bytes + m.bytes
                &&& after.durations == before.durations.push(m.duration)
            } else {
                after == before
            }
        }),
        row_for(Seq::empty(), direction, name).count == 0,
        row_for(Seq::empty(), direction, name).total_bytes == 0,
        row_for(ms, direction, name).direction == direction,
        row_for(ms, direction, name).name == name,
{
    assert(ms.push(m).drop_last() =~= ms);
    let own = messages_of(ms, direction, name);
    assert(own.push(m).drop_last() =~= own);
    assert(durations(own.push(m)) =~= durations(own).push(m.duration));
}

/// Rows with more bytes stand first; of those with as many, the ones with more
/// messages; and then they stand by direction and by name.
pub proof fn more_bytes_stand_first(a: RowModel, b: RowModel)
    ensures
        a.total_bytes > b.total_bytes ==> row_less(a, b) && !row_less(b, a),
        a.total_bytes == b.total_bytes && a.count > b.count ==> row_less(a, b) && !row_less(b, a),
        a.total_bytes == b.total_bytes && a.count == b.count && text::text_less(
            a.direction,
            b.direction,
        ) ==> row_less(a, b),
        a.total_bytes == b.total_bytes && a.count == b.count && a.direction == b.direction
            && text::text_less(a.name, b.name) ==> row_less(a, b),
{
}

} // verus!
