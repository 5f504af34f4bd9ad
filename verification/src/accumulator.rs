//! Per-session totals of decoded datapoints and events. The data decides how they fold: an
//! increment adds to its series, a total replaces it.
//!
//! The amounts themselves are kept outside, in numbered slots, one for each series; what is kept
//! here is which series there are and which slot is whose.
use vstd::prelude::*;
use crate::decode::{point_models, MetricPoint, PointModel};
use crate::report::pair_views;
use crate::sorted::{sort_set, sorted_set};
use crate::text::{owned, same, views};

verus! {

/// The metrics that make up a session's totals.
pub const TOKENS: &'static str = "token.usage";

pub const COST: &'static str = "cost.usage";

pub const ACTIVE_TIME: &'static str = "active_time.total";

pub const LINES: &'static str = "lines_of_code.count";

/// What a slot belongs to: a session, a metric and a series.
#[derive(Debug)]
pub struct SlotKey {
    pub session: String,
    pub metric: String,
    pub series: Vec<(String, String)>,
}

#[verifier::ext_equal]
pub struct KeyModel {
    pub session: Seq<char>,
    pub metric: Seq<char>,
    pub series: Seq<(Seq<char>, Seq<char>)>,
}

impl SlotKey {
    pub open spec fn model(self) -> KeyModel {
        KeyModel { session: self.session@, metric: self.metric@, series: pair_views(self.series@) }
    }
}

pub open spec fn key_models(v: Seq<SlotKey>) -> Seq<KeyModel> {
    Seq::new(v.len(), |i: int| v[i].model())
}

/// The key of a datapoint.
pub open spec fn key_of(p: PointModel) -> KeyModel {
    KeyModel { session: p.session, metric: p.name, series: p.series }
}

/// How often an event was counted for a session.
#[derive(Debug)]
pub struct EventCount {
    pub session: String,
    pub event: String,
    pub count: u64,
}

#[verifier::ext_equal]
pub struct CountModel {
    pub session: Seq<char>,
    pub event: Seq<char>,
    pub count: u64,
}

impl EventCount {
    pub open spec fn model(self) -> CountModel {
        CountModel { session: self.session@, event: self.event@, count: self.count }
    }
}

pub open spec fn count_models(v: Seq<EventCount>) -> Seq<CountModel> {
    Seq::new(v.len(), |i: int| v[i].model())
}

/// The series seen so far, in the order of their slots; the metrics of a session that were seen as
/// totals; and the counted events.
#[derive(Debug)]
pub struct Accumulator {
    pub slots: Vec<SlotKey>,
    pub cumulative: Vec<(String, String)>,
    pub events: Vec<EventCount>,
}

#[verifier::ext_equal]
pub struct AccModel {
    pub slots: Seq<KeyModel>,
    pub cumulative: Seq<(Seq<char>, Seq<char>)>,
    pub events: Seq<CountModel>,
}

impl Accumulator {
    pub open spec fn model(self) -> AccModel {
        AccModel {
            slots: key_models(self.slots@),
            cumulative: pair_views(self.cumulative@),
            events: count_models(self.events@),
        }
    }
}

/// What becomes of a slot: an increment is added to it, a total replaces it.
#[derive(Debug, Clone, Copy, PartialEq, Eq, Structural)]
pub struct Step {
    pub slot: usize,
    pub delta: bool,
}

/// The position of a key, or the length.
pub open spec fn slot_of(slots: Seq<KeyModel>, key: KeyModel) -> int
    decreases slots.len(),
{
    if slots.len() == 0 {
        0
    } else if slots[0] == key {
        0
    } else {
        1 + slot_of(slots.skip(1), key)
    }
}

/// The accumulator after a datapoint: its series has a slot, and its metric is marked where the
/// point is a total.
pub open spec fn seen(acc: AccModel, p: PointModel) -> AccModel {
    AccModel {
        slots: if acc.slots.contains(key_of(p)) {
            acc.slots
        } else {
            acc.slots.push(key_of(p))
        },
        cumulative: if p.delta || acc.cumulative.contains((p.session, p.name)) {
            acc.cumulative
        } else {
            acc.cumulative.push((p.session, p.name))
        },
        ..acc
    }
}

/// The accumulator after the first `n` datapoints.
pub open spec fn seen_all(acc: AccModel, points: Seq<PointModel>, n: int) -> AccModel
    decreases n,
{
    if n <= 0 {
        acc
    } else {
        seen(seen_all(acc, points, n - 1), points[n - 1])
    }
}

/// What becomes of the slots, datapoint by datapoint.
pub open spec fn steps_of(acc: AccModel, points: Seq<PointModel>, n: int) -> Seq<Step>
    decreases n,
{
    if n <= 0 {
        Seq::empty()
    } else {
        let p = points[n - 1];
        steps_of(acc, points, n - 1).push(
            Step {
                slot: slot_of(seen_all(acc, points, n).slots, key_of(p)) as usize,
                delta: p.delta,
            },
        )
    }
}

proof fn lemma_slot_of(slots: Seq<KeyModel>, key: KeyModel, at: int)
    requires
        0 <= at <= slots.len(),
        forall|k: int| 0 <= k < at ==> #[trigger] slots[k] != key,
        at < slots.len() ==> slots[at] == key,
    ensures
        slot_of(slots, key) == at,
    decreases slots.len(),
{
    if slots.len() > 0 && at > 0 {
        assert(slots[0] != key);
        assert forall|k: int| 0 <= k < at - 1 implies #[trigger] slots.skip(1)[k] != key by {
            assert(slots.skip(1)[k] == slots[k + 1]);
        }
        if at < slots.len() {
            assert(slots.skip(1)[at - 1] == slots[at]);
        }
        lemma_slot_of(slots.skip(1), key, at - 1);
    }
}

fn same_pairs(a: &Vec<(String, String)>, b: &Vec<(String, String)>) -> (r: bool)
    ensures
        r == (pair_views(a@) == pair_views(b@)),
{
    if a.len() != b.len() {
        assert(pair_views(a@).len() != pair_views(b@).len());
        return false;
    }
    let mut i: usize = 0;
    while i < a.len()
        invariant
            0 <= i <= a.len(),
            a.len() == b.len(),
            forall|k: int| 0 <= k < i ==> pair_views(a@)[k] == #[trigger] pair_views(b@)[k],
        decreases a.len() - i,
    {
        if !same(&a[i].0, &b[i].0) || !same(&a[i].1, &b[i].1) {
            assert(pair_views(a@)[i as int] != pair_views(b@)[i as int]);
            return false;
        }
        i = i + 1;
    }
    assert(pair_views(a@) =~= pair_views(b@));
    true
}

fn copy_pairs(a: &Vec<(String, String)>) -> (r: Vec<(String, String)>)
    ensures
        pair_views(r@) == pair_views(a@),
{
    let mut out: Vec<(String, String)> = Vec::new();
    let mut i: usize = 0;
    while i < a.len()
        invariant
            0 <= i <= a.len(),
            out.len() == i,
            forall|k: int|
                0 <= k < i ==> (#[trigger] out@[k]).0@ == a@[k].0@ && out@[k].1@ == a@[k].1@,
        decreases a.len() - i,
    {
        out.push((owned(&a[i].0), owned(&a[i].1)));
        i = i + 1;
    }
    assert(pair_views(out@) =~= pair_views(a@));
    out
}

fn find_slot(slots: &Vec<SlotKey>, p: &MetricPoint) -> (r: usize)
    ensures
        r <= slots.len(),
        r == slot_of(key_models(slots@), key_of(p.model())),
        r < slots.len() <==> key_models(slots@).contains(key_of(p.model())),
{
    let ghost all = key_models(slots@);
    let ghost key = key_of(p.model());
    let mut i: usize = 0;
    while i < slots.len()
        invariant
            0 <= i <= slots.len(),
            all == key_models(slots@),
            key == key_of(p.model()),
            forall|k: int| 0 <= k < i ==> #[trigger] all[k] != key,
        decreases slots.len() - i,
    {
        assert(all[i as int] == slots@[i as int].model());
        if same(&slots[i].session, &p.session_id) && same(&slots[i].metric, &p.name) && same_pairs(
            &slots[i].series,
            &p.series,
        ) {
            proof {
                lemma_slot_of(all, key, i as int);
                assert(all.contains(key));
            }
            return i;
        }
        i = i + 1;
    }
    proof {
        lemma_slot_of(all, key, slots.len() as int);
    }
    slots.len()
}

fn has_pair(list: &Vec<(String, String)>, a: &str, b: &str) -> (r: bool)
    ensures
        r == pair_views(list@).contains((a@, b@)),
{
    let ghost all = pair_views(list@);
    let mut i: usize = 0;
    while i < list.len()
        invariant
            0 <= i <= list.len(),
            all == pair_views(list@),
            forall|k: int| 0 <= k < i ==> #[trigger] all[k] != (a@, b@),
        decreases list.len() - i,
    {
        assert(all[i as int] == (list@[i as int].0@, list@[i as int].1@));
        if same(&list[i].0, a) && same(&list[i].1, b) {
            assert(all.contains((a@, b@)));
            return true;
        }
        i = i + 1;
    }
    false
}

impl Accumulator {
    /// An accumulator that has seen nothing.
    pub fn new() -> (r: Accumulator)
        ensures
            r.model() == (AccModel {
                slots: Seq::empty(),
                cumulative: Seq::empty(),
                events: Seq::empty(),
            }),
    {
        let r = Accumulator { slots: Vec::new(), cumulative: Vec::new(), events: Vec::new() };
        assert(r.model() =~= (AccModel {
            slots: Seq::empty(),
            cumulative: Seq::empty(),
            events: Seq::empty(),
        }));
        r
    }

    /// Take in datapoints. The result says of each which slot it goes to, and whether it is added
    /// there or replaces what is there; a slot that is new starts at zero.
    pub fn update_metrics(&mut self, points: &Vec<MetricPoint>) -> (r: Vec<Step>)
        ensures
            final(self).model() == seen_all(
                old(self).model(),
                point_models(points@),
                points@.len() as int,
            ),
            r@ == steps_of(old(self).model(), point_models(points@), points@.len() as int),
    {
        let ghost start = self.model();
        let ghost all = point_models(points@);
        let mut out: Vec<Step> = Vec::new();
        let mut i: usize = 0;
        while i < points.len()
            invariant
                0 <= i <= points.len(),
                all == point_models(points@),
                self.model() == seen_all(start, all, i as int),
                out@ == steps_of(start, all, i as int),
            decreases points.len() - i,
        {
            let p = &points[i];
            let ghost before = self.model();
            assert(all[i as int] == p.model());
            if !p.delta && !has_pair(&self.cumulative, &p.session_id, &p.name) {
                let ghost held = self.cumulative@;
                self.cumulative.push((owned(&p.session_id), owned(&p.name)));
                assert(pair_views(self.cumulative@) =~= pair_views(held).push(
                    (p.session_id@, p.name@),
                ));
            }
            let at = find_slot(&self.slots, p);
            if at == self.slots.len() {
                let ghost held = self.slots@;
                let key = SlotKey {
                    session: owned(&p.session_id),
                    metric: owned(&p.name),
                    series: copy_pairs(&p.series),
                };
                self.slots.push(key);
                proof {
                    assert(key.model() == key_of(p.model()));
                    assert(key_models(self.slots@) =~= key_models(held).push(key.model()));
                    let now = key_models(self.slots@);
                    assert forall|k: int| 0 <= k < at implies #[trigger] now[k] != key.model() by {
                        if now[k] == key.model() {
                            assert(key_models(held)[k] == key.model());
                            assert(key_models(held).contains(key.model()));
                        }
                    }
                    lemma_slot_of(now, key.model(), at as int);
                }
            }
            out.push(Step { slot: at, delta: p.delta });
            proof {
                assert(self.model() =~= seen(before, p.model()));
            }
            i = i + 1;
        }
        out
    }
}

// ---------------------------------------------------------------------------------------------
// Events
// ---------------------------------------------------------------------------------------------

/// The position of an event of a session, or the length.
pub open spec fn event_at(events: Seq<CountModel>, session: Seq<char>, event: Seq<char>) -> int
    decreases events.len(),
{
    if events.len() == 0 {
        0
    } else if events[0].session == session && events[0].event == event {
        0
    } else {
        1 + event_at(events.skip(1), session, event)
    }
}

/// The events with one more counted; a count stops at the greatest number.
pub open spec fn event_counted(
    events: Seq<CountModel>,
    session: Seq<char>,
    event: Seq<char>,
) -> Seq<CountModel> {
    let at = event_at(events, session, event);
    if at < events.len() {
        let count = if events[at].count < u64::MAX {
            (events[at].count + 1) as u64
        } else {
            events[at].count
        };
        events.update(at, CountModel { session, event, count })
    } else {
        events.push(CountModel { session, event, count: 1 })
    }
}

/// The events with the first `n` pairs of session and event counted.
pub open spec fn events_counted(
    events: Seq<CountModel>,
    pairs: Seq<(Seq<char>, Seq<char>)>,
    n: int,
) -> Seq<CountModel>
    decreases n,
{
    if n <= 0 {
        events
    } else {
        event_counted(events_counted(events, pairs, n - 1), pairs[n - 1].0, pairs[n - 1].1)
    }
}

/// How often an event was counted for a session.
pub open spec fn count_of(events: Seq<CountModel>, session: Seq<char>, event: Seq<char>) -> u64 {
    let at = event_at(events, session, event);
    if at < events.len() {
        events[at].count
    } else {
        0
    }
}

fn find_event(events: &Vec<EventCount>, session: &str, event: &str) -> (r: usize)
    ensures
        r == event_at(count_models(events@), session@, event@),
        r <= events.len(),
        r < events.len() ==> events@[r as int].session@ == session@ && events@[r as int].event@
            == event@,
{
    let ghost all = count_models(events@);
    let mut i: usize = 0;
    assert(all.skip(0) =~= all);
    while i < events.len()
        invariant
            0 <= i <= events.len(),
            all == count_models(events@),
            event_at(all, session@, event@) == i + event_at(
                all.skip(i as int),
                session@,
                event@,
            ),
        decreases events.len() - i,
    {
        proof {
            assert(all.skip(i as int)[0] == events@[i as int].model());
            assert(all.skip(i as int).skip(1) =~= all.skip(i + 1));
        }
        if same(&events[i].session, session) && same(&events[i].event, event) {
            return i;
        }
        i = i + 1;
    }
    assert(all.skip(events.len() as int).len() == 0);
    events.len()
}

impl Accumulator {
    /// Count events, given as pairs of session and event.
    pub fn update_events(&mut self, pairs: &Vec<(String, String)>)
        ensures
            final(self).model() == (AccModel {
                events: events_counted(
                    old(self).model().events,
                    pair_views(pairs@),
                    pairs@.len() as int,
                ),
                ..old(self).model()
            }),
    {
        let ghost start = self.model();
        let ghost all = pair_views(pairs@);
        let mut i: usize = 0;
        while i < pairs.len()
            invariant
                0 <= i <= pairs.len(),
                all == pair_views(pairs@),
                self.model() == (AccModel {
                    events: events_counted(start.events, all, i as int),
                    ..start
                }),
            decreases pairs.len() - i,
        {
            assert(all[i as int] == (pairs@[i as int].0@, pairs@[i as int].1@));
            let at = find_event(&self.events, &pairs[i].0, &pairs[i].1);
            let ghost held = self.events@;
            if at < self.events.len() {
                let count = self.events[at].count;
                let one = EventCount {
                    session: owned(&pairs[i].0),
                    event: owned(&pairs[i].1),
                    count: if count < u64::MAX {
                        count + 1
                    } else {
                        count
                    },
                };
                self.events.set(at, one);
                assert(count_models(self.events@) =~= count_models(held).update(
                    at as int,
                    one.model(),
                ));
            } else {
                let one = EventCount {
                    session: owned(&pairs[i].0),
                    event: owned(&pairs[i].1),
                    count: 1,
                };
                self.events.push(one);
                assert(count_models(self.events@) =~= count_models(held).push(one.model()));
            }
            i = i + 1;
        }
    }

    /// How often an event was counted for a session.
    pub fn event_count(&self, session: &str, event: &str) -> (r: u64)
        ensures
            r == count_of(self.model().events, session@, event@),
    {
        let at = find_event(&self.events, session, event);
        if at < self.events.len() {
            self.events[at].count
        } else {
            0
        }
    }
}

// ---------------------------------------------------------------------------------------------
// Totals
// ---------------------------------------------------------------------------------------------

/// Everything a session is named by, in order of appearance.
pub open spec fn session_names(acc: AccModel) -> Seq<Seq<char>> {
    Seq::new(acc.slots.len(), |i: int| acc.slots[i].session) + Seq::new(
        acc.events.len(),
        |i: int| acc.events[i].session,
    )
}

/// The slots among the first `n` of a metric of a session.
pub open spec fn slots_for(
    slots: Seq<KeyModel>,
    session: Seq<char>,
    metric: Seq<char>,
    n: int,
) -> Seq<usize>
    decreases n,
{
    if n <= 0 {
        Seq::empty()
    } else {
        let rest = slots_for(slots, session, metric, n - 1);
        if slots[n - 1].session == session && slots[n - 1].metric == metric {
            rest.push((n - 1) as usize)
        } else {
            rest
        }
    }
}

impl Accumulator {
    /// The sessions, in order.
    pub fn sessions(&self) -> (r: Vec<String>)
        ensures
            views(r@) == sorted_set(session_names(self.model())),
    {
        let mut all: Vec<String> = Vec::new();
        let mut i: usize = 0;
        while i < self.slots.len()
            invariant
                0 <= i <= self.slots.len(),
                all.len() == i,
                forall|k: int| 0 <= k < i ==> (#[trigger] all@[k])@ == self.slots@[k].session@,
            decreases self.slots.len() - i,
        {
            all.push(owned(&self.slots[i].session));
            i = i + 1;
        }
        let mut j: usize = 0;
        while j < self.events.len()
            invariant
                0 <= j <= self.events.len(),
                all.len() == self.slots.len() + j,
                forall|k: int|
                    0 <= k < self.slots.len() ==> (#[trigger] all@[k])@
                        == self.slots@[k].session@,
                forall|k: int|
                    self.slots.len() <= k < self.slots.len() + j ==> (#[trigger] all@[k])@
                        == self.events@[k - self.slots.len()].session@,
            decreases self.events.len() - j,
        {
            all.push(owned(&self.events[j].session));
            j = j + 1;
        }
        assert(views(all@) =~= session_names(self.model()));
        sort_set(&all)
    }

    /// The slots whose amounts add up to a session's total of a metric.
    pub fn metric_slots(&self, session: &str, metric: &str) -> (r: Vec<usize>)
        ensures
            r@ == slots_for(
                self.model().slots,
                session@,
                metric@,
                self.model().slots.len() as int,
            ),
    {
        let ghost all = key_models(self.slots@);
        let mut out: Vec<usize> = Vec::new();
        let mut i: usize = 0;
        while i < self.slots.len()
            invariant
                0 <= i <= self.slots.len(),
                all == key_models(self.slots@),
                out@ == slots_for(all, session@, metric@, i as int),
            decreases self.slots.len() - i,
        {
            assert(all[i as int] == self.slots@[i as int].model());
            if same(&self.slots[i].session, session) && same(&self.slots[i].metric, metric) {
                out.push(i);
            }
            i = i + 1;
        }
        out
    }

    /// Whether a metric of a session came as increments only, so that what an earlier run counted
    /// is to be added; a metric that came as a total carries it already.
    pub fn metric_is_delta(&self, session: &str, metric: &str) -> (r: bool)
        ensures
            r == !self.model().cumulative.contains((session@, metric@)),
    {
        !has_pair(&self.cumulative, session, metric)
    }
}

// ---------------------------------------------------------------------------------------------
// Breakdowns
// ---------------------------------------------------------------------------------------------

/// The value of the first attribute of a series with a key.
pub open spec fn series_value(series: Seq<(Seq<char>, Seq<char>)>, key: Seq<char>) -> Option<
    Seq<char>,
>
    decreases series.len(),
{
    if series.len() == 0 {
        None
    } else if series[0].0 == key {
        Some(series[0].1)
    } else {
        series_value(series.skip(1), key)
    }
}

/// The bucket of a series: its value of the first dimension it has; one that has none is not
/// attributed, never guessed.
pub open spec fn bucket_of(
    series: Seq<(Seq<char>, Seq<char>)>,
    dimensions: Seq<Seq<char>>,
) -> Seq<char>
    decreases dimensions.len(),
{
    if dimensions.len() == 0 {
        "(unattributed)"@
    } else {
        match series_value(series, dimensions[0]) {
            Some(v) => v,
            None => bucket_of(series, dimensions.skip(1)),
        }
    }
}

/// The buckets of the first `n` slots of a metric of a session.
pub open spec fn buckets_of(
    slots: Seq<KeyModel>,
    session: Seq<char>,
    metric: Seq<char>,
    dimensions: Seq<Seq<char>>,
    n: int,
) -> Seq<Seq<char>>
    decreases n,
{
    if n <= 0 {
        Seq::empty()
    } else {
        let rest = buckets_of(slots, session, metric, dimensions, n - 1);
        if slots[n - 1].session == session && slots[n - 1].metric == metric {
            rest.push(bucket_of(slots[n - 1].series, dimensions))
        } else {
            rest
        }
    }
}

/// The slots among the first `n` of a metric of a session that fall into a bucket.
pub open spec fn bucket_slots(
    slots: Seq<KeyModel>,
    session: Seq<char>,
    metric: Seq<char>,
    dimensions: Seq<Seq<char>>,
    bucket: Seq<char>,
    n: int,
) -> Seq<usize>
    decreases n,
{
    if n <= 0 {
        Seq::empty()
    } else {
        let rest = bucket_slots(slots, session, metric, dimensions, bucket, n - 1);
        if slots[n - 1].session == session && slots[n - 1].metric == metric && bucket_of(
            slots[n - 1].series,
            dimensions,
        ) == bucket {
            rest.push((n - 1) as usize)
        } else {
            rest
        }
    }
}

fn value_in(series: &Vec<(String, String)>, key: &str) -> (r: usize)
    ensures
        r <= series.len(),
        r < series.len() ==> series_value(pair_views(series@), key@) == Some(
            series@[r as int].1@,
        ),
        r == series.len() ==> series_value(pair_views(series@), key@) is None,
{
    let ghost all = pair_views(series@);
    let mut i: usize = 0;
    assert(all.skip(0) =~= all);
    while i < series.len()
        invariant
            0 <= i <= series.len(),
            all == pair_views(series@),
            series_value(all, key@) == series_value(all.skip(i as int), key@),
        decreases series.len() - i,
    {
        proof {
            assert(all.skip(i as int)[0] == (series@[i as int].0@, series@[i as int].1@));
            assert(all.skip(i as int).skip(1) =~= all.skip(i + 1));
        }
        if same(&series[i].0, key) {
            return i;
        }
        i = i + 1;
    }
    assert(all.skip(series.len() as int).len() == 0);
    series.len()
}

fn bucket(series: &Vec<(String, String)>, dimensions: &Vec<String>) -> (r: String)
    ensures
        r@ == bucket_of(pair_views(series@), views(dimensions@)),
{
    let ghost dims = views(dimensions@);
    let ghost all = pair_views(series@);
    let mut i: usize = 0;
    assert(dims.skip(0) =~= dims);
    while i < dimensions.len()
        invariant
            0 <= i <= dimensions.len(),
            dims == views(dimensions@),
            all == pair_views(series@),
            bucket_of(all, dims) == bucket_of(all, dims.skip(i as int)),
        decreases dimensions.len() - i,
    {
        proof {
            assert(dims.skip(i as int)[0] == dimensions@[i as int]@);
            assert(dims.skip(i as int).skip(1) =~= dims.skip(i + 1));
        }
        let at = value_in(series, &dimensions[i]);
        if at < series.len() {
            return owned(&series[at].1);
        }
        i = i + 1;
    }
    assert(dims.skip(dimensions.len() as int).len() == 0);
    owned("(unattributed)")
}

/// The slots of one bucket.
#[derive(Debug)]
pub struct Bucket {
    pub label: String,
    pub slots: Vec<usize>,
}

#[verifier::ext_equal]
pub struct BucketModel {
    pub label: Seq<char>,
    pub slots: Seq<usize>,
}

impl Bucket {
    pub open spec fn model(self) -> BucketModel {
        BucketModel { label: self.label@, slots: self.slots@ }
    }
}

pub open spec fn bucket_models(v: Seq<Bucket>) -> Seq<BucketModel> {
    Seq::new(v.len(), |i: int| v[i].model())
}

/// A metric of a session by bucket, the buckets in order.
pub open spec fn broken_down(
    slots: Seq<KeyModel>,
    session: Seq<char>,
    metric: Seq<char>,
    dimensions: Seq<Seq<char>>,
) -> Seq<BucketModel> {
    let labels = sorted_set(
        buckets_of(slots, session, metric, dimensions, slots.len() as int),
    );
    Seq::new(
        labels.len(),
        |i: int|
            BucketModel {
                label: labels[i],
                slots: bucket_slots(
                    slots,
                    session,
                    metric,
                    dimensions,
                    labels[i],
                    slots.len() as int,
                ),
            },
    )
}

impl Accumulator {
    fn slots_in(
        &self,
        session: &str,
        metric: &str,
        dimensions: &Vec<String>,
        label: &str,
    ) -> (r: Vec<usize>)
        ensures
            r@ == bucket_slots(
                self.model().slots,
                session@,
                metric@,
                views(dimensions@),
                label@,
                self.model().slots.len() as int,
            ),
    {
        let ghost all = key_models(self.slots@);
        let mut out: Vec<usize> = Vec::new();
        let mut i: usize = 0;
        while i < self.slots.len()
            invariant
                0 <= i <= self.slots.len(),
                all == key_models(self.slots@),
                out@ == bucket_slots(
                    all,
                    session@,
                    metric@,
                    views(dimensions@),
                    label@,
                    i as int,
                ),
            decreases self.slots.len() - i,
        {
            assert(all[i as int] == self.slots@[i as int].model());
            if same(&self.slots[i].session, session) && same(&self.slots[i].metric, metric)
                && same(&bucket(&self.slots[i].series, dimensions), label) {
                out.push(i);
            }
            i = i + 1;
        }
        out
    }

    /// Break a metric of a session down by the first of some dimensions that each series has.
    pub fn breakdown(&self, session: &str, metric: &str, dimensions: &Vec<String>) -> (r: Vec<
        Bucket,
    >)
        ensures
            bucket_models(r@) == broken_down(
                self.model().slots,
                session@,
                metric@,
                views(dimensions@),
            ),
    {
        let ghost all = key_models(self.slots@);
        let ghost dims = views(dimensions@);
        let mut found: Vec<String> = Vec::new();
        let mut i: usize = 0;
        assert(views(found@) =~= Seq::<Seq<char>>::empty());
        while i < self.slots.len()
            invariant
                0 <= i <= self.slots.len(),
                all == key_models(self.slots@),
                dims == views(dimensions@),
                views(found@) == buckets_of(all, session@, metric@, dims, i as int),
            decreases self.slots.len() - i,
        {
            assert(all[i as int] == self.slots@[i as int].model());
            if same(&self.slots[i].session, session) && same(&self.slots[i].metric, metric) {
                let ghost held = found@;
                let label = bucket(&self.slots[i].series, dimensions);
                found.push(label);
                assert(views(found@) =~= views(held).push(label@));
            }
            i = i + 1;
        }
        let labels = sort_set(&found);
        let ghost want = broken_down(all, session@, metric@, dims);
        let mut out: Vec<Bucket> = Vec::new();
        let mut n: usize = 0;
        while n < labels.len()
            invariant
                0 <= n <= labels.len(),
                all == key_models(self.slots@),
                dims == views(dimensions@),
                want == broken_down(all, session@, metric@, dims),
                views(labels@) == sorted_set(
                    buckets_of(all, session@, metric@, dims, all.len() as int),
                ),
                out.len() == n,
                forall|k: int| 0 <= k < n ==> (#[trigger] out@[k]).model() == want[k],
            decreases labels.len() - n,
        {
            assert(views(labels@)[n as int] == labels@[n as int]@);
            let slots = self.slots_in(session, metric, dimensions, &labels[n]);
            out.push(Bucket { label: owned(&labels[n]), slots });
            n = n + 1;
        }
        assert(bucket_models(out@) =~= want);
        out
    }
}

// ---------------------------------------------------------------------------------------------
// Laws
// ---------------------------------------------------------------------------------------------

/// No two slots belong to one series.
pub open spec fn slots_distinct(acc: AccModel) -> bool {
    forall|i: int, j: int|
        0 <= i < j < acc.slots.len() ==> #[trigger] acc.slots[i] != #[trigger] acc.slots[j]
}

/// A series keeps its slot: what is taken in later adds slots behind those that are there, and
/// never a second one for a series.
pub proof fn law_a_series_keeps_its_slot(acc: AccModel, points: Seq<PointModel>, n: int)
    requires
        slots_distinct(acc),
        0 <= n <= points.len(),
    ensures
        slots_distinct(seen_all(acc, points, n)),
        acc.slots.len() <= seen_all(acc, points, n).slots.len(),
        forall|i: int|
            0 <= i < acc.slots.len() ==> #[trigger] seen_all(acc, points, n).slots[i]
                == acc.slots[i],
    decreases n,
{
    if n > 0 {
        law_a_series_keeps_its_slot(acc, points, n - 1);
        let prev = seen_all(acc, points, n - 1);
        let key = key_of(points[n - 1]);
        let next = seen(prev, points[n - 1]);
        assert forall|i: int, j: int| 0 <= i < j < next.slots.len() implies #[trigger] next.slots[i]
            != #[trigger] next.slots[j] by {
            if !prev.slots.contains(key) {
                assert(next.slots[i] == prev.slots[i]);
                if j == prev.slots.len() {
                    assert(prev.slots[i] != key);
                } else {
                    assert(next.slots[j] == prev.slots[j]);
                }
            }
        }
    }
}

proof fn lemma_slot_found(slots: Seq<KeyModel>, key: KeyModel)
    requires
        slots.contains(key),
    ensures
        0 <= slot_of(slots, key) < slots.len(),
        slots[slot_of(slots, key)] == key,
    decreases slots.len(),
{
    if slots[0] != key {
        let i = choose|i: int| 0 <= i < slots.len() && slots[i] == key;
        assert(slots.skip(1)[i - 1] == key);
        assert(slots.skip(1).contains(key));
        lemma_slot_found(slots.skip(1), key);
    }
}

/// Each datapoint goes to the slot of its own session, metric and series.
pub proof fn law_a_point_goes_to_its_own_slot(acc: AccModel, points: Seq<PointModel>, n: int)
    requires
        0 < n <= points.len(),
        seen_all(acc, points, n).slots.len() <= usize::MAX,
    ensures
        ({
            let step = steps_of(acc, points, n).last();
            &&& step.delta == points[n - 1].delta
            &&& step.slot < seen_all(acc, points, n).slots.len()
            &&& seen_all(acc, points, n).slots[step.slot as int] == key_of(points[n - 1])
        }),
{
    let prev = seen_all(acc, points, n - 1);
    let next = seen(prev, points[n - 1]);
    let key = key_of(points[n - 1]);
    if !prev.slots.contains(key) {
        assert(next.slots[prev.slots.len() as int] == key);
    }
    assert(next.slots.contains(key));
    lemma_slot_found(next.slots, key);
}

} // verus!
