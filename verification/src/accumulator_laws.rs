//! What folding keeps: every datapoint has its slot, every slot its bucket, and every event its
//! count.
use vstd::prelude::*;
use crate::accumulator::{
    broken_down, bucket_of, bucket_slots, buckets_of, count_of, event_at, event_counted,
    events_counted, key_of, seen_all, series_value, session_names, slot_of, slots_for, steps_of,
    AccModel, CountModel, KeyModel,
};
use crate::decode::PointModel;
use crate::sorted::{ascending, lemma_sorted_set, sorted_set};

verus! {

/// A slot belongs to a metric of a session.
pub open spec fn slot_is_of(k: KeyModel, session: Seq<char>, metric: Seq<char>) -> bool {
    k.session == session && k.metric == metric
}

/// Indices in ascending order, none twice.
pub open spec fn rising(s: Seq<usize>) -> bool {
    forall|i: int, j: int| 0 <= i < j < s.len() ==> #[trigger] s[i] < #[trigger] s[j]
}

proof fn lemma_slots_for(slots: Seq<KeyModel>, session: Seq<char>, metric: Seq<char>, n: int)
    requires
        0 <= n <= slots.len() <= usize::MAX,
    ensures
        rising(slots_for(slots, session, metric, n)),
        forall|i: usize| #[trigger]
            slots_for(slots, session, metric, n).contains(i) <==> i < n && slot_is_of(
                slots[i as int],
                session,
                metric,
            ),
    decreases n,
{
    if n > 0 {
        lemma_slots_for(slots, session, metric, n - 1);
        let rest = slots_for(slots, session, metric, n - 1);
        let all = slots_for(slots, session, metric, n);
        assert forall|j: int| 0 <= j < rest.len() implies (#[trigger] rest[j]) < n - 1 by {
            assert(rest.contains(rest[j]));
        }
        assert forall|i: usize| #[trigger] all.contains(i) <==> i < n && slot_is_of(
            slots[i as int],
            session,
            metric,
        ) by {
            assert(rest.contains(i) <==> i < n - 1 && slot_is_of(
                slots[i as int],
                session,
                metric,
            ));
            if all.contains(i) && !rest.contains(i) {
                let j = all.index_of(i);
                if j < rest.len() {
                    assert(rest[j] == i);
                }
            }
            if rest.contains(i) {
                assert(all[rest.index_of(i)] == i);
            }
            if i == n - 1 && slot_is_of(slots[i as int], session, metric) {
                assert(all.last() == i);
                assert(all[all.len() - 1] == i);
            }
        }
    }
}

/// A session's total of a metric is made of all its series: the slots of the metric are exactly those
/// that belong to it and to the session, each once.
pub proof fn law_a_total_has_every_series(acc: AccModel, session: Seq<char>, metric: Seq<char>)
    requires
        acc.slots.len() <= usize::MAX,
    ensures
        ({
            let slots = slots_for(acc.slots, session, metric, acc.slots.len() as int);
            &&& rising(slots)
            &&& forall|i: usize| #[trigger]
                slots.contains(i) <==> i < acc.slots.len() && acc.slots[i as int].session == session
                    && acc.slots[i as int].metric == metric
        }),
{
    lemma_slots_for(acc.slots, session, metric, acc.slots.len() as int);
}

proof fn lemma_bucket_slots(
    slots: Seq<KeyModel>,
    session: Seq<char>,
    metric: Seq<char>,
    dimensions: Seq<Seq<char>>,
    bucket: Seq<char>,
    n: int,
)
    requires
        0 <= n <= slots.len() <= usize::MAX,
    ensures
        ({
            let all = bucket_slots(slots, session, metric, dimensions, bucket, n);
            &&& rising(all)
            &&& forall|i: usize| #[trigger]
                all.contains(i) <==> i < n && slot_is_of(slots[i as int], session, metric)
                    && bucket_of(slots[i as int].series, dimensions) == bucket
        }),
    decreases n,
{
    if n > 0 {
        lemma_bucket_slots(slots, session, metric, dimensions, bucket, n - 1);
        let rest = bucket_slots(slots, session, metric, dimensions, bucket, n - 1);
        let all = bucket_slots(slots, session, metric, dimensions, bucket, n);
        assert forall|j: int| 0 <= j < rest.len() implies (#[trigger] rest[j]) < n - 1 by {
            assert(rest.contains(rest[j]));
        }
        assert forall|i: usize| #[trigger] all.contains(i) <==> i < n && slot_is_of(
            slots[i as int],
            session,
            metric,
        ) && bucket_of(slots[i as int].series, dimensions) == bucket by {
            assert(rest.contains(i) <==> i < n - 1 && slot_is_of(slots[i as int], session, metric)
                && bucket_of(slots[i as int].series, dimensions) == bucket);
            if all.contains(i) && !rest.contains(i) {
                let j = all.index_of(i);
                if j < rest.len() {
                    assert(rest[j] == i);
                }
            }
            if rest.contains(i) {
                assert(all[rest.index_of(i)] == i);
            }
            if i == n - 1 && slot_is_of(slots[i as int], session, metric) && bucket_of(
                slots[i as int].series,
                dimensions,
            ) == bucket {
                assert(all[all.len() - 1] == i);
            }
        }
    }
}

proof fn lemma_buckets(
    slots: Seq<KeyModel>,
    session: Seq<char>,
    metric: Seq<char>,
    dimensions: Seq<Seq<char>>,
    n: int,
)
    requires
        0 <= n <= slots.len(),
    ensures
        forall|i: int|
            0 <= i < n && slot_is_of(#[trigger] slots[i], session, metric) ==> buckets_of(
                slots,
                session,
                metric,
                dimensions,
                n,
            ).contains(bucket_of(slots[i].series, dimensions)),
    decreases n,
{
    if n > 0 {
        lemma_buckets(slots, session, metric, dimensions, n - 1);
        let rest = buckets_of(slots, session, metric, dimensions, n - 1);
        let all = buckets_of(slots, session, metric, dimensions, n);
        assert forall|i: int| 0 <= i < n && slot_is_of(
            #[trigger] slots[i],
            session,
            metric,
        ) implies all.contains(bucket_of(slots[i].series, dimensions)) by {
            let b = bucket_of(slots[i].series, dimensions);
            if i < n - 1 {
                assert(all[rest.index_of(b)] == b);
            } else {
                assert(all[all.len() - 1] == b);
            }
        }
    }
}

/// A breakdown partitions the metric. Its buckets have different labels; each slot of the session and
/// the metric is in the bucket of its series, and in no other; and a bucket holds nothing else, and
/// nothing twice.
pub proof fn law_a_breakdown_partitions_the_metric(
    acc: AccModel,
    session: Seq<char>,
    metric: Seq<char>,
    dimensions: Seq<Seq<char>>,
)
    requires
        acc.slots.len() <= usize::MAX,
    ensures
        ({
            let buckets = broken_down(acc.slots, session, metric, dimensions);
            let slots = slots_for(acc.slots, session, metric, acc.slots.len() as int);
            &&& forall|a: int, b: int|
                0 <= a < b < buckets.len() ==> (#[trigger] buckets[a]).label != (
                #[trigger] buckets[b]).label
            &&& forall|b: int| 0 <= b < buckets.len() ==> rising((#[trigger] buckets[b]).slots)
            &&& forall|b: int, i: usize|
                0 <= b < buckets.len() ==> (#[trigger] buckets[b].slots.contains(i)
                    <==> slots.contains(i) && bucket_of(acc.slots[i as int].series, dimensions)
                    == buckets[b].label)
            &&& forall|i: usize| #[trigger]
                slots.contains(i) ==> exists|b: int|
                    0 <= b < buckets.len() && (#[trigger] buckets[b]).slots.contains(i)
        }),
{
    let n = acc.slots.len() as int;
    let buckets = broken_down(acc.slots, session, metric, dimensions);
    let slots = slots_for(acc.slots, session, metric, n);
    let found = buckets_of(acc.slots, session, metric, dimensions, n);
    let labels = sorted_set(found);
    lemma_sorted_set(found);
    lemma_slots_for(acc.slots, session, metric, n);
    lemma_buckets(acc.slots, session, metric, dimensions, n);
    assert forall|a: int, b: int| 0 <= a < b < buckets.len() implies (#[trigger] buckets[a]).label
        != (#[trigger] buckets[b]).label by {
        assert(crate::order::before(labels[a], labels[b]));
        crate::order::lemma_irreflexive(labels[a]);
    }
    assert forall|b: int| 0 <= b < buckets.len() implies rising((#[trigger] buckets[b]).slots) by {
        lemma_bucket_slots(acc.slots, session, metric, dimensions, labels[b], n);
    }
    assert forall|b: int, i: usize| 0 <= b < buckets.len() implies (#[trigger] buckets[b].slots.contains(
        i,
    ) <==> slots.contains(i) && bucket_of(acc.slots[i as int].series, dimensions)
        == buckets[b].label) by {
        lemma_bucket_slots(acc.slots, session, metric, dimensions, labels[b], n);
    }
    assert forall|i: usize| #[trigger] slots.contains(i) implies exists|b: int|
        0 <= b < buckets.len() && (#[trigger] buckets[b]).slots.contains(i) by {
        let label = bucket_of(acc.slots[i as int].series, dimensions);
        assert(found.contains(label));
        assert(labels.contains(label));
        let b = labels.index_of(label);
        assert(buckets[b].label == label);
        assert(buckets[b].slots.contains(i));
    }
}

/// A series has a value for a key, its first.
pub open spec fn has_value(series: Seq<(Seq<char>, Seq<char>)>, key: Seq<char>, at: int) -> bool {
    &&& 0 <= at < series.len()
    &&& series[at].0 == key
    &&& forall|j: int| 0 <= j < at ==> (#[trigger] series[j]).0 != key
}

/// A series has no value for a key.
pub open spec fn has_no_value(series: Seq<(Seq<char>, Seq<char>)>, key: Seq<char>) -> bool {
    forall|j: int| 0 <= j < series.len() ==> (#[trigger] series[j]).0 != key
}

proof fn lemma_series_value(series: Seq<(Seq<char>, Seq<char>)>, key: Seq<char>)
    ensures
        forall|at: int| #[trigger]
            has_value(series, key, at) ==> series_value(series, key) == Some(series[at].1),
        has_no_value(series, key) ==> series_value(series, key) is None,
    decreases series.len(),
{
    if series.len() > 0 {
        let rest = series.skip(1);
        lemma_series_value(rest, key);
        assert forall|at: int| #[trigger] has_value(series, key, at) implies series_value(series, key)
            == Some(series[at].1) by {
            if at > 0 {
                assert(series[0].0 != key);
                assert(rest[at - 1] == series[at]);
                assert forall|j: int| 0 <= j < at - 1 implies (#[trigger] rest[j]).0 != key by {
                    assert(rest[j] == series[j + 1]);
                }
                assert(has_value(rest, key, at - 1));
            }
        }
        if has_no_value(series, key) {
            assert(series[0].0 != key);
            assert forall|j: int| 0 <= j < rest.len() implies (#[trigger] rest[j]).0 != key by {
                assert(rest[j] == series[j + 1]);
            }
        }
    }
}

/// A series falls into the bucket of the first dimension that it has, and one that has none of them
/// is not attributed.
pub proof fn law_the_first_dimension_decides(
    series: Seq<(Seq<char>, Seq<char>)>,
    dimensions: Seq<Seq<char>>,
)
    ensures
        forall|d: int, at: int|
            0 <= d < dimensions.len() && (forall|e: int|
                0 <= e < d ==> has_no_value(series, #[trigger] dimensions[e]))
                && #[trigger] has_value(series, dimensions[d], at) ==> bucket_of(series, dimensions)
                == series[at].1,
        (forall|e: int|
            0 <= e < dimensions.len() ==> has_no_value(series, #[trigger] dimensions[e]))
            ==> bucket_of(series, dimensions) == "(unattributed)"@,
    decreases dimensions.len(),
{
    if dimensions.len() > 0 {
        let rest = dimensions.skip(1);
        law_the_first_dimension_decides(series, rest);
        lemma_series_value(series, dimensions[0]);
        assert forall|d: int, at: int|
            0 <= d < dimensions.len() && (forall|e: int|
                0 <= e < d ==> has_no_value(series, #[trigger] dimensions[e]))
                && #[trigger] has_value(series, dimensions[d], at) implies bucket_of(
            series,
            dimensions,
        ) == series[at].1 by {
            if d > 0 {
                assert(has_no_value(series, dimensions[0]));
                assert(rest[d - 1] == dimensions[d]);
                assert forall|e: int| 0 <= e < d - 1 implies has_no_value(
                    series,
                    #[trigger] rest[e],
                ) by {
                    assert(rest[e] == dimensions[e + 1]);
                }
                assert(has_value(series, rest[d - 1], at));
            }
        }
        if forall|e: int|
            0 <= e < dimensions.len() ==> has_no_value(series, #[trigger] dimensions[e]) {
            assert(has_no_value(series, dimensions[0]));
            assert forall|e: int| 0 <= e < rest.len() implies has_no_value(
                series,
                #[trigger] rest[e],
            ) by {
                assert(rest[e] == dimensions[e + 1]);
            }
        }
    }
}

// ---------------------------------------------------------------------------------------------
// Datapoints
// ---------------------------------------------------------------------------------------------

/// Two datapoints share a slot exactly where session, metric and series are the same.
pub proof fn law_a_slot_is_session_metric_and_series(p: PointModel, q: PointModel)
    ensures
        key_of(p) == key_of(q) <==> p.session == q.session && p.name == q.name && p.series
            == q.series,
        key_of(p).session == p.session,
        key_of(p).metric == p.name,
        key_of(p).series == p.series,
{
}

/// Taking in datapoints makes a slot for each of their series and for no other, marks a metric of a
/// session as a total exactly where a point of it was one, and counts no event.
pub proof fn law_every_datapoint_is_taken_in(acc: AccModel, points: Seq<PointModel>, n: int)
    requires
        0 <= n <= points.len(),
    ensures
        ({
            let after = seen_all(acc, points, n);
            &&& forall|k: KeyModel| #[trigger]
                after.slots.contains(k) <==> acc.slots.contains(k) || exists|i: int|
                    0 <= i < n && key_of(#[trigger] points[i]) == k
            &&& forall|s: Seq<char>, m: Seq<char>| #[trigger]
                after.cumulative.contains((s, m)) <==> acc.cumulative.contains((s, m)) || exists|
                    i: int,
                |
                    0 <= i < n && (#[trigger] points[i]).session == s && points[i].name == m
                        && !points[i].delta
            &&& after.events == acc.events
        }),
    decreases n,
{
    if n > 0 {
        law_every_datapoint_is_taken_in(acc, points, n - 1);
        let was = seen_all(acc, points, n - 1);
        let after = seen_all(acc, points, n);
        let p = points[n - 1];
        assert forall|k: KeyModel| #[trigger] after.slots.contains(k) <==> acc.slots.contains(k)
            || exists|i: int| 0 <= i < n && key_of(#[trigger] points[i]) == k by {
            lemma_pushed(was.slots, key_of(p), k);
            if was.slots.contains(k) && !acc.slots.contains(k) {
                let i = choose|i: int| 0 <= i < n - 1 && key_of(#[trigger] points[i]) == k;
                assert(0 <= i < n && key_of(points[i]) == k);
            }
            if key_of(p) == k {
                assert(0 <= n - 1 < n && key_of(points[n - 1]) == k);
            }
        }
        assert forall|s: Seq<char>, m: Seq<char>| #[trigger]
            after.cumulative.contains((s, m)) <==> acc.cumulative.contains((s, m)) || exists|i: int|
                0 <= i < n && (#[trigger] points[i]).session == s && points[i].name == m
                    && !points[i].delta by {
            lemma_pushed(was.cumulative, (p.session, p.name), (s, m));
            if was.cumulative.contains((s, m)) && !acc.cumulative.contains((s, m)) {
                let i = choose|i: int|
                    0 <= i < n - 1 && (#[trigger] points[i]).session == s && points[i].name == m
                        && !points[i].delta;
                assert(0 <= i < n && points[i].session == s && points[i].name == m
                    && !points[i].delta);
            }
            if !p.delta && p.session == s && p.name == m {
                assert(points[n - 1].session == s);
            }
        }
    }
}

proof fn lemma_pushed<T>(s: Seq<T>, x: T, y: T)
    ensures
        s.push(x).contains(y) <==> s.contains(y) || x == y,
{
    let all = s.push(x);
    if s.contains(y) {
        assert(all[s.index_of(y)] == y);
    }
    if x == y {
        assert(all[s.len() as int] == y);
    }
    if all.contains(y) {
        let i = all.index_of(y);
        if i < s.len() {
            assert(s[i] == y);
        }
    }
}

proof fn lemma_slot_of(slots: Seq<KeyModel>, key: KeyModel)
    ensures
        0 <= slot_of(slots, key) <= slots.len(),
        slots.contains(key) ==> slot_of(slots, key) < slots.len() && slots[slot_of(slots, key)]
            == key,
    decreases slots.len(),
{
    if slots.len() > 0 && slots[0] != key {
        let rest = slots.skip(1);
        lemma_slot_of(rest, key);
        if slots.contains(key) {
            let i = slots.index_of(key);
            assert(rest[i - 1] == key);
            assert(rest.contains(key));
            assert(rest[slot_of(rest, key)] == slots[slot_of(rest, key) + 1]);
        }
    }
}

proof fn lemma_slots_stay(acc: AccModel, points: Seq<PointModel>, n: int, m: int)
    requires
        0 <= n <= m <= points.len(),
    ensures
        seen_all(acc, points, n).slots.len() <= seen_all(acc, points, m).slots.len(),
        forall|i: int|
            0 <= i < seen_all(acc, points, n).slots.len() ==> #[trigger] seen_all(acc, points, m).slots[i]
                == seen_all(acc, points, n).slots[i],
    decreases m - n,
{
    if n < m {
        lemma_slots_stay(acc, points, n, m - 1);
    }
}

/// Every datapoint is told its slot, in order, and whether it is added there: the slot is that of its
/// own session, metric and series, then and at the end.
pub proof fn law_every_datapoint_has_its_step(acc: AccModel, points: Seq<PointModel>, n: int, m: int)
    requires
        0 <= n <= m <= points.len(),
        seen_all(acc, points, m).slots.len() <= usize::MAX,
    ensures
        steps_of(acc, points, n).len() == n,
        forall|i: int|
            0 <= i < n ==> {
                let step = #[trigger] steps_of(acc, points, n)[i];
                &&& step.delta == points[i].delta
                &&& step.slot < seen_all(acc, points, m).slots.len()
                &&& seen_all(acc, points, m).slots[step.slot as int] == key_of(points[i])
            },
    decreases n,
{
    if n > 0 {
        law_every_datapoint_has_its_step(acc, points, n - 1, m);
        lemma_slots_stay(acc, points, n, m);
        let now = seen_all(acc, points, n);
        let key = key_of(points[n - 1]);
        lemma_pushed(seen_all(acc, points, n - 1).slots, key, key);
        lemma_slot_of(now.slots, key);
        let steps = steps_of(acc, points, n);
        assert forall|i: int| 0 <= i < n implies {
            let step = #[trigger] steps[i];
            &&& step.delta == points[i].delta
            &&& step.slot < seen_all(acc, points, m).slots.len()
            &&& seen_all(acc, points, m).slots[step.slot as int] == key_of(points[i])
        } by {
            if i < n - 1 {
                assert(steps[i] == steps_of(acc, points, n - 1)[i]);
            }
        }
    }
}

// ---------------------------------------------------------------------------------------------
// Events
// ---------------------------------------------------------------------------------------------

/// How often a pair stands among the first `n`.
pub open spec fn occurrences(
    pairs: Seq<(Seq<char>, Seq<char>)>,
    session: Seq<char>,
    event: Seq<char>,
    n: int,
) -> nat
    decreases n,
{
    if n <= 0 {
        0
    } else {
        occurrences(pairs, session, event, n - 1) + if pairs[n - 1] == (session, event) {
            1nat
        } else {
            0nat
        }
    }
}

proof fn lemma_event_at(events: Seq<CountModel>, session: Seq<char>, event: Seq<char>)
    ensures
        0 <= event_at(events, session, event) <= events.len(),
        event_at(events, session, event) < events.len() ==> events[event_at(
            events,
            session,
            event,
        )].session == session && events[event_at(events, session, event)].event == event,
    decreases events.len(),
{
    if events.len() > 0 {
        lemma_event_at(events.skip(1), session, event);
    }
}

proof fn lemma_event_at_same(
    a: Seq<CountModel>,
    b: Seq<CountModel>,
    session: Seq<char>,
    event: Seq<char>,
)
    requires
        a.len() <= b.len(),
        forall|i: int|
            0 <= i < a.len() ==> (#[trigger] a[i]).session == b[i].session && a[i].event
                == b[i].event,
    ensures
        event_at(a, session, event) < a.len() ==> event_at(b, session, event) == event_at(
            a,
            session,
            event,
        ),
        event_at(a, session, event) == a.len() ==> event_at(b, session, event) >= a.len() && event_at(
            b,
            session,
            event,
        ) == a.len() + event_at(b.skip(a.len() as int), session, event),
    decreases a.len(),
{
    if a.len() == 0 {
        assert(b.skip(0) =~= b);
        lemma_event_at(b, session, event);
    } else {
        assert(a[0].session == b[0].session);
        let x = a.skip(1);
        let y = b.skip(1);
        assert forall|i: int| 0 <= i < x.len() implies (#[trigger] x[i]).session == y[i].session
            && x[i].event == y[i].event by {
            assert(x[i] == a[i + 1] && y[i] == b[i + 1]);
        }
        lemma_event_at_same(x, y, session, event);
        lemma_event_at(x, session, event);
        assert(y.skip(x.len() as int) =~= b.skip(a.len() as int));
    }
}

proof fn lemma_one_counted(
    events: Seq<CountModel>,
    session: Seq<char>,
    event: Seq<char>,
    s: Seq<char>,
    e: Seq<char>,
)
    ensures
        count_of(event_counted(events, session, event), s, e) == if s == session && e == event {
            if count_of(events, s, e) < u64::MAX {
                count_of(events, s, e) + 1
            } else {
                u64::MAX as int
            }
        } else {
            count_of(events, s, e) as int
        },
{
    let after = event_counted(events, session, event);
    lemma_event_at(events, session, event);
    lemma_event_at(events, s, e);
    lemma_event_at_same(events, after, s, e);
    if event_at(events, session, event) == events.len() {
        let tail = after.skip(events.len() as int);
        assert(tail =~= seq![CountModel { session, event, count: 1 }]);
        assert(tail.skip(1) =~= Seq::<CountModel>::empty());
        assert(tail[0] == CountModel { session, event, count: 1 });
        assert(event_at(tail.skip(1), s, e) == 0);
    } else {
        assert(after.skip(after.len() as int) =~= Seq::<CountModel>::empty());
        assert(event_at(after.skip(after.len() as int), s, e) == 0);
    }
}

/// Every event is counted once for each time it came, for its own session, and no other count
/// changes; a count stops at the greatest number.
pub proof fn law_every_event_is_counted(
    events: Seq<CountModel>,
    pairs: Seq<(Seq<char>, Seq<char>)>,
    n: int,
    session: Seq<char>,
    event: Seq<char>,
)
    requires
        0 <= n <= pairs.len(),
    ensures
        ({
            let sum = count_of(events, session, event) + occurrences(pairs, session, event, n);
            count_of(events_counted(events, pairs, n), session, event) == if sum <= u64::MAX {
                sum
            } else {
                u64::MAX as int
            }
        }),
    decreases n,
{
    if n > 0 {
        law_every_event_is_counted(events, pairs, n - 1, session, event);
        lemma_one_counted(
            events_counted(events, pairs, n - 1),
            pairs[n - 1].0,
            pairs[n - 1].1,
            session,
            event,
        );
    }
}

/// A session is listed exactly where it has a series or a counted event.
pub proof fn law_every_session_is_listed(acc: AccModel, session: Seq<char>)
    ensures
        sorted_set(session_names(acc)).contains(session) <==> (exists|i: int|
            0 <= i < acc.slots.len() && (#[trigger] acc.slots[i]).session == session) || (exists|
            i: int,
        |
            0 <= i < acc.events.len() && (#[trigger] acc.events[i]).session == session),
        ascending(sorted_set(session_names(acc))),
{
    let names = session_names(acc);
    lemma_sorted_set(names);
    let n = acc.slots.len() as int;
    if names.contains(session) {
        let i = names.index_of(session);
        if i < n {
            assert(acc.slots[i].session == session);
        } else {
            assert(acc.events[i - n].session == session);
        }
    }
    if exists|i: int| 0 <= i < acc.slots.len() && (#[trigger] acc.slots[i]).session == session {
        let i = choose|i: int|
            0 <= i < acc.slots.len() && (#[trigger] acc.slots[i]).session == session;
        assert(names[i] == session);
    }
    if exists|i: int| 0 <= i < acc.events.len() && (#[trigger] acc.events[i]).session == session {
        let i = choose|i: int|
            0 <= i < acc.events.len() && (#[trigger] acc.events[i]).session == session;
        assert(names[n + i] == session);
    }
    assert(sorted_set(names).contains(session) <==> names.contains(session));
}

} // verus!
