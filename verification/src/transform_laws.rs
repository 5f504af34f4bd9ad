//! What enrichment reaches: every datapoint and every log record of a body, wherever it stands.
use vstd::prelude::*;
use crate::json::{compact_text, parsed_bytes, Tree};
use crate::session::SessionIndexCache;
use crate::sorted::{ascending, lemma_sorted_set};
use crate::transform::{
    attribute, body_sessions, enriched, enriched_along, enriched_body, enriched_list,
    enriched_metric, enriched_point, enriched_points, enriched_shape, labels_of, member_list_of,
    path_of, point_session, point_sessions, sessions_along, sessions_in, shape_points,
};

verus! {

broadcast use vstd::map::group_map_axioms;

/// What stands at a place of a body: each name leads to a list, and each index into it.
pub open spec fn standing(t: Tree, names: Seq<Seq<char>>, at: Seq<int>) -> Option<Tree>
    decreases names.len(),
{
    if names.len() == 0 {
        Some(t)
    } else {
        match t {
            Tree::Obj(m) => if m.contains_key(names[0]) {
                match m[names[0]] {
                    Tree::Arr(a) => if at.len() > 0 && 0 <= at[0] < a.len() {
                        standing(a[at[0]], names.skip(1), at.skip(1))
                    } else {
                        None
                    },
                    _ => None,
                }
            } else {
                None
            },
            _ => None,
        }
    }
}

/// The lists of a body that lead to its metrics, or to its log records.
pub open spec fn lists_to(metrics: bool) -> Seq<Seq<char>> {
    if metrics {
        seq!["resourceMetrics"@, "scopeMetrics"@, "metrics"@]
    } else {
        seq!["resourceLogs"@, "scopeLogs"@, "logRecords"@]
    }
}

/// A datapoint of a metric: of the list under a shape of it.
pub open spec fn datapoint(metric: Tree, shape: Seq<char>, i: int) -> Option<Tree> {
    match metric {
        Tree::Obj(m) => if m.contains_key(shape) {
            match m[shape] {
                Tree::Obj(s) => if s.contains_key("dataPoints"@) {
                    match s["dataPoints"@] {
                        Tree::Arr(a) => if 0 <= i < a.len() {
                            Some(a[i])
                        } else {
                            None
                        },
                        _ => None,
                    }
                } else {
                    None
                },
                _ => None,
            }
        } else {
            None
        },
        _ => None,
    }
}

/// An attribute has a key.
pub open spec fn keyed(a: Tree, key: Seq<char>) -> bool {
    a matches Tree::Obj(m) && m.contains_key("key"@) && m["key"@] == Tree::Str(key)
}

/// An attribute has a text for a value.
pub open spec fn says(a: Tree, text: Seq<char>) -> bool {
    &&& a matches Tree::Obj(m)
    &&& m.contains_key("value"@)
    &&& m["value"@] matches Tree::Obj(v)
    &&& v.contains_key("stringValue"@)
    &&& v["stringValue"@] == Tree::Str(text)
}

/// The attributes of a datapoint or a log record, where it has them.
pub open spec fn attributes_are(x: Tree, attrs: Seq<Tree>) -> bool {
    x matches Tree::Obj(m) && m.contains_key("attributes"@) && m["attributes"@] == Tree::Arr(attrs)
}

/// The first `session.id` among attributes is a session.
pub open spec fn names_session(attrs: Seq<Tree>, session: Seq<char>) -> bool {
    exists|i: int|
        0 <= i < attrs.len() && keyed(#[trigger] attrs[i], "session.id"@) && says(attrs[i], session)
            && forall|j: int| 0 <= j < i ==> !keyed(#[trigger] attrs[j], "session.id"@)
}

/// A datapoint or a log record that is owed a label: it has attributes, no project among them, and
/// a session that the label is known of.
pub open spec fn owed(
    x: Tree,
    attrs: Seq<Tree>,
    label: Seq<char>,
    labels: spec_fn(Seq<char>) -> Option<Seq<char>>,
) -> bool {
    &&& attributes_are(x, attrs)
    &&& forall|i: int| 0 <= i < attrs.len() ==> !keyed(#[trigger] attrs[i], "project"@)
    &&& exists|session: Seq<char>| #[trigger]
        names_session(attrs, session) && labels(session) == Some(label)
}

/// One thing is another with a project label for its last attribute, and nothing else changed.
pub open spec fn has_gained(x: Tree, attrs: Seq<Tree>, y: Tree, label: Seq<char>) -> bool {
    &&& x matches Tree::Obj(m) && y matches Tree::Obj(n) && n.dom() == m.dom() && forall|
        k: Seq<char>,
    | #[trigger]
        m.contains_key(k) && k != "attributes"@ ==> n[k] == m[k]
    &&& exists|b: Seq<Tree>|
        {
            &&& #[trigger] attributes_are(y, b)
            &&& b.len() == attrs.len() + 1
            &&& b.drop_last() == attrs
            &&& keyed(b.last(), "project"@)
            &&& says(b.last(), label)
        }
}

/// What enrichment does to one datapoint or log record: it gains the label that it is owed, and
/// stays as it is where it is owed none.
pub open spec fn treated(x: Tree, y: Tree, labels: spec_fn(Seq<char>) -> Option<Seq<char>>) -> bool {
    &&& forall|attrs: Seq<Tree>, label: Seq<char>| #[trigger]
        owed(x, attrs, label, labels) ==> has_gained(x, attrs, y, label)
    &&& (forall|attrs: Seq<Tree>, label: Seq<char>| !#[trigger] owed(x, attrs, label, labels)) ==> y
        == x
}

proof fn lemma_attribute(attrs: Seq<Tree>, key: Seq<char>)
    ensures
        attribute(attrs, key) is None <==> forall|i: int|
            0 <= i < attrs.len() ==> !keyed(#[trigger] attrs[i], key),
        attribute(attrs, key) matches Some(a) ==> exists|i: int|
            0 <= i < attrs.len() && attrs[i] == a && keyed(#[trigger] attrs[i], key) && forall|j: int|
                0 <= j < i ==> !keyed(#[trigger] attrs[j], key),
    decreases attrs.len(),
{
    if attrs.len() > 0 {
        let rest = attrs.skip(1);
        lemma_attribute(rest, key);
        assert forall|i: int| 0 <= i < rest.len() implies #[trigger] rest[i] == attrs[i + 1] by {}
        if keyed(attrs[0], key) {
            assert(attribute(attrs, key) == Some(attrs[0]));
        } else {
            assert(attribute(attrs, key) == attribute(rest, key));
            if attribute(rest, key) is None {
                assert forall|i: int| 0 <= i < attrs.len() implies !keyed(#[trigger] attrs[i], key) by {
                    if i > 0 {
                        assert(rest[i - 1] == attrs[i]);
                    }
                }
            } else {
                let a = attribute(rest, key)->0;
                let i = choose|i: int|
                    0 <= i < rest.len() && rest[i] == a && keyed(#[trigger] rest[i], key) && forall|
                        j: int,
                    |
                        0 <= j < i ==> !keyed(#[trigger] rest[j], key);
                assert(attrs[i + 1] == a);
                assert forall|j: int| 0 <= j < i + 1 implies !keyed(#[trigger] attrs[j], key) by {
                    if j > 0 {
                        assert(rest[j - 1] == attrs[j]);
                    }
                }
                assert(keyed(attrs[i + 1], key));
            }
        }
    }
}

proof fn lemma_point_session(x: Tree, attrs: Seq<Tree>)
    requires
        attributes_are(x, attrs),
    ensures
        forall|s: Seq<char>| point_session(x) == Some(s) <==> #[trigger] names_session(attrs, s),
{
    lemma_attribute(attrs, "session.id"@);
    assert(member_list_of(x, "attributes"@) == Some(attrs));
    assert forall|s: Seq<char>| point_session(x) == Some(s) <==> #[trigger] names_session(attrs, s) by {
        if attribute(attrs, "session.id"@) is Some {
            let a = attribute(attrs, "session.id"@)->0;
            let i = choose|i: int|
                0 <= i < attrs.len() && attrs[i] == a && keyed(#[trigger] attrs[i], "session.id"@)
                    && forall|j: int| 0 <= j < i ==> !keyed(#[trigger] attrs[j], "session.id"@);
            if point_session(x) == Some(s) {
                assert(says(attrs[i], s));
                assert(names_session(attrs, s));
            }
            if names_session(attrs, s) {
                let k = choose|k: int|
                    0 <= k < attrs.len() && keyed(#[trigger] attrs[k], "session.id"@) && says(
                        attrs[k],
                        s,
                    ) && forall|j: int| 0 <= j < k ==> !keyed(#[trigger] attrs[j], "session.id"@);
                assert(k == i) by {
                    if k < i {
                        assert(!keyed(attrs[k], "session.id"@));
                    }
                    if i < k {
                        assert(!keyed(attrs[i], "session.id"@));
                    }
                }
            }
        }
    }
}

/// One datapoint or log record gains the project of its session, and no other changes.
pub proof fn law_a_point_gains_the_label_of_its_session(
    x: Tree,
    labels: spec_fn(Seq<char>) -> Option<Seq<char>>,
)
    ensures
        treated(x, enriched_point(x, labels), labels),
{
    let y = enriched_point(x, labels);
    assert forall|attrs: Seq<Tree>, label: Seq<char>| #[trigger]
        owed(x, attrs, label, labels) implies has_gained(x, attrs, y, label) by {
        lemma_attribute(attrs, "project"@);
        lemma_point_session(x, attrs);
        assert(member_list_of(x, "attributes"@) == Some(attrs));
        let session = choose|s: Seq<char>| #[trigger]
            names_session(attrs, s) && labels(s) == Some(label);
        assert(point_session(x) == Some(session));
        let b = attrs.push(crate::transform::project_attribute(label));
        reveal_strlit("key");
        reveal_strlit("value");
        assert("key"@.len() != "value"@.len());
        assert(b.drop_last() =~= attrs);
        assert(attributes_are(y, b));
        assert(keyed(b.last(), "project"@));
        assert(says(b.last(), label));
        assert(y->Obj_0.dom() =~= x->Obj_0.dom());
    }
    if y != x {
        let attrs = member_list_of(x, "attributes"@)->0;
        assert(attributes_are(x, attrs));
        lemma_attribute(attrs, "project"@);
        lemma_point_session(x, attrs);
        let session = point_session(x)->0;
        assert(names_session(attrs, session));
        assert(owed(x, attrs, labels(session)->0, labels));
    }
}

proof fn lemma_along(
    t: Tree,
    path: Seq<Seq<char>>,
    metrics: bool,
    labels: spec_fn(Seq<char>) -> Option<Seq<char>>,
    k: int,
    at: Seq<int>,
)
    requires
        0 <= k <= path.len(),
    ensures
        match standing(t, path.take(k), at) {
            Some(x) => standing(enriched_along(t, path, metrics, labels), path.take(k), at) == Some(
                enriched_along(x, path.skip(k), metrics, labels),
            ),
            None => standing(enriched_along(t, path, metrics, labels), path.take(k), at) is None,
        },
    decreases k,
{
    let names = path.take(k);
    let u = enriched_along(t, path, metrics, labels);
    if k == 0 {
        assert(path.skip(0) =~= path);
    } else {
        assert(names[0] == path[0]);
        assert(names.skip(1) =~= path.skip(1).take(k - 1));
        assert(path.skip(1).skip(k - 1) =~= path.skip(k));
        match member_list_of(t, path[0]) {
            Some(a) => {
                let b = enriched_list(a, path.skip(1), metrics, labels);
                assert(u->Obj_0[path[0]] == Tree::Arr(b));
                if at.len() > 0 && 0 <= at[0] < a.len() {
                    lemma_along(a[at[0]], path.skip(1), metrics, labels, k - 1, at.skip(1));
                    assert(b[at[0]] == enriched_along(a[at[0]], path.skip(1), metrics, labels));
                }
            },
            None => {},
        }
    }
}

/// Every log record of a body, wherever it stands in its lists, is treated: one that has
/// attributes, no project of its own and a session that is attributed to a project carries that
/// project's label, and any other is as it was. None goes and none comes.
pub proof fn law_every_log_record_is_treated(
    t: Tree,
    labels: spec_fn(Seq<char>) -> Option<Seq<char>>,
    at: Seq<int>,
)
    ensures
        ({
            let names = lists_to(false);
            match standing(t, names, at) {
                Some(x) => standing(enriched(t, false, labels), names, at) matches Some(y)
                    && treated(x, y, labels),
                None => standing(enriched(t, false, labels), names, at) is None,
            }
        }),
{
    let names = lists_to(false);
    assert(path_of(false) =~= names);
    lemma_along(t, path_of(false), false, labels, 3, at);
    assert(path_of(false).take(3) =~= names);
    if let Some(x) = standing(t, names, at) {
        assert(path_of(false).skip(3).len() == 0);
        law_a_point_gains_the_label_of_its_session(x, labels);
    }
}

proof fn lemma_shape(
    metric: Tree,
    shape: Seq<char>,
    labels: spec_fn(Seq<char>) -> Option<Seq<char>>,
    i: int,
)
    ensures
        match datapoint(metric, shape, i) {
            Some(p) => datapoint(enriched_shape(metric, shape, labels), shape, i) == Some(
                enriched_point(p, labels),
            ),
            None => datapoint(enriched_shape(metric, shape, labels), shape, i) is None,
        },
        forall|other: Seq<char>|
            other != shape ==> #[trigger] datapoint(
                enriched_shape(metric, shape, labels),
                other,
                i,
            ) == datapoint(metric, other, i),
{
    if let Tree::Obj(m) = metric {
        if m.contains_key(shape) {
            if let Some(points) = member_list_of(m[shape], "dataPoints"@) {
                if 0 <= i < points.len() {
                    assert(enriched_points(points, labels)[i] == enriched_point(points[i], labels));
                }
            }
        }
    }
}

proof fn lemma_metric(metric: Tree, labels: spec_fn(Seq<char>) -> Option<Seq<char>>, i: int)
    ensures
        forall|shape: Seq<char>|
            shape == "sum"@ || shape == "gauge"@ ==> match #[trigger] datapoint(metric, shape, i) {
                Some(p) => datapoint(enriched_metric(metric, labels), shape, i) == Some(
                    enriched_point(p, labels),
                ),
                None => datapoint(enriched_metric(metric, labels), shape, i) is None,
            },
{
    reveal_strlit("sum");
    reveal_strlit("gauge");
    assert("sum"@.len() != "gauge"@.len());
    let first = enriched_shape(metric, "sum"@, labels);
    lemma_shape(metric, "sum"@, labels, i);
    lemma_shape(first, "gauge"@, labels, i);
}

/// Every datapoint of a body, wherever it stands in its lists, is treated: one that has attributes,
/// no project of its own and a session that is attributed to a project carries that project's
/// label, and any other is as it was. None goes and none comes.
pub proof fn law_every_datapoint_is_treated(
    t: Tree,
    labels: spec_fn(Seq<char>) -> Option<Seq<char>>,
    at: Seq<int>,
    shape: Seq<char>,
    i: int,
)
    requires
        shape == "sum"@ || shape == "gauge"@,
    ensures
        ({
            let names = lists_to(true);
            match standing(t, names, at) {
                Some(metric) => standing(enriched(t, true, labels), names, at) matches Some(after)
                    && match datapoint(metric, shape, i) {
                    Some(x) => datapoint(after, shape, i) matches Some(y) && treated(x, y, labels),
                    None => datapoint(after, shape, i) is None,
                },
                None => standing(enriched(t, true, labels), names, at) is None,
            }
        }),
{
    let names = lists_to(true);
    assert(path_of(true) =~= names);
    lemma_along(t, path_of(true), true, labels, 3, at);
    assert(path_of(true).take(3) =~= names);
    if let Some(metric) = standing(t, names, at) {
        assert(path_of(true).skip(3).len() == 0);
        lemma_metric(metric, labels, i);
        if let Some(x) = datapoint(metric, shape, i) {
            law_a_point_gains_the_label_of_its_session(x, labels);
        }
    }
}

/// The members of two trees are the same but for one, and both have that or neither.
pub open spec fn same_but_for(x: Tree, y: Tree, name: Seq<char>) -> bool {
    ||| x == y
    ||| {
        &&& x matches Tree::Obj(m)
        &&& y matches Tree::Obj(n)
        &&& n.dom() == m.dom()
        &&& forall|k: Seq<char>| #[trigger] m.contains_key(k) && k != name ==> n[k] == m[k]
    }
}

/// Nothing on the way to what is enriched changes but the list that leads on: neither of the body
/// itself, nor of a resource, nor of a scope.
pub proof fn law_the_way_stays_as_it_is(
    t: Tree,
    metrics: bool,
    labels: spec_fn(Seq<char>) -> Option<Seq<char>>,
    k: int,
    at: Seq<int>,
)
    requires
        0 <= k < 3,
    ensures
        ({
            let names = lists_to(metrics);
            match standing(t, names.take(k), at) {
                Some(x) => standing(enriched(t, metrics, labels), names.take(k), at) matches Some(y)
                    && same_but_for(x, y, names[k]),
                None => standing(enriched(t, metrics, labels), names.take(k), at) is None,
            }
        }),
{
    let path = path_of(metrics);
    assert(path =~= lists_to(metrics));
    lemma_along(t, path, metrics, labels, k, at);
    if let Some(x) = standing(t, path.take(k), at) {
        let y = enriched_along(x, path.skip(k), metrics, labels);
        assert(path.skip(k)[0] == path[k]);
        if let Some(a) = member_list_of(x, path[k]) {
            assert(y->Obj_0.dom() =~= x->Obj_0.dom());
        }
    }
}

/// A metric keeps everything but the datapoints of its sum and its gauge.
pub proof fn law_a_metric_keeps_the_rest(
    metric: Tree,
    labels: spec_fn(Seq<char>) -> Option<Seq<char>>,
)
    ensures
        metric matches Tree::Obj(m) ==> enriched_metric(metric, labels) matches Tree::Obj(n)
            && n.dom() == m.dom() && forall|k: Seq<char>| #[trigger]
            m.contains_key(k) ==> if k == "sum"@ || k == "gauge"@ {
                same_but_for(m[k], n[k], "dataPoints"@)
            } else {
                n[k] == m[k]
            },
        !(metric is Obj) ==> enriched_metric(metric, labels) == metric,
{
    reveal_strlit("sum");
    reveal_strlit("gauge");
    assert("sum"@.len() != "gauge"@.len());
    let first = enriched_shape(metric, "sum"@, labels);
    let both = enriched_metric(metric, labels);
    if let Tree::Obj(m) = metric {
        assert(first is Obj && both is Obj);
        assert(first->Obj_0.dom() =~= m.dom());
        assert(both->Obj_0.dom() =~= m.dom());
        assert forall|k: Seq<char>| #[trigger] m.contains_key(k) implies if k == "sum"@ || k
            == "gauge"@ {
            same_but_for(m[k], both->Obj_0[k], "dataPoints"@)
        } else {
            both->Obj_0[k] == m[k]
        } by {
            if k == "sum"@ || k == "gauge"@ {
                if let Some(points) = member_list_of(m[k], "dataPoints"@) {
                    assert(both->Obj_0[k] is Obj);
                    assert(both->Obj_0[k]->Obj_0.dom() =~= m[k]->Obj_0.dom());
                }
            }
        }
    }
}

/// The label of a session is that of the project it is known to belong to; a session that is not
/// known has none.
pub proof fn law_a_label_is_the_projects(
    index: SessionIndexCache,
    session: Seq<char>,
    label: Seq<char>,
)
    ensures
        labels_of(index)(session) == Some(label) <==> (index.project_row(session) matches Some(row)
            && row.label == label),
        index.project_row(session) is None ==> labels_of(index)(session) is None,
{
}

/// A body that reads as JSON is written out again, enriched; one that does not is refused, and the
/// refusal names what it was sent as.
pub proof fn law_a_body_is_enriched_or_refused(
    body: Seq<u8>,
    metrics: bool,
    labels: spec_fn(Seq<char>) -> Option<Seq<char>>,
)
    ensures
        parsed_bytes(body) matches Ok(t) ==> enriched_body(body, metrics, labels) == Ok::<
            Seq<char>,
            Seq<char>,
        >(compact_text(enriched(t, metrics, labels))),
        parsed_bytes(body) matches Err(e) ==> enriched_body(body, metrics, labels) == Err::<
            Seq<char>,
            Seq<char>,
        >(
            if metrics {
                "metrics body is not JSON: "@ + e
            } else {
                "logs body is not JSON: "@ + e
            },
        ),
{
}

// ---------------------------------------------------------------------------------------------
// The sessions of a body
// ---------------------------------------------------------------------------------------------

/// A datapoint or a log record names a session.
pub open spec fn point_names(x: Tree, session: Seq<char>) -> bool {
    exists|attrs: Seq<Tree>| #[trigger] attributes_are(x, attrs) && names_session(attrs, session)
}

/// A metric has a datapoint that names a session.
pub open spec fn metric_names(metric: Tree, shape: Seq<char>, i: int, session: Seq<char>) -> bool {
    datapoint(metric, shape, i) matches Some(x) && point_names(x, session)
}

/// A log record names a session, or one of a metric's datapoints does.
pub open spec fn leaf_names(x: Tree, metrics: bool, session: Seq<char>) -> bool {
    if metrics {
        (exists|i: int| #[trigger] metric_names(x, "sum"@, i, session)) || (exists|i: int| #[trigger]
            metric_names(x, "gauge"@, i, session))
    } else {
        point_names(x, session)
    }
}

/// What stands at a place names a session: a log record does, or one of a metric's datapoints.
pub open spec fn place_names(
    t: Tree,
    names: Seq<Seq<char>>,
    at: Seq<int>,
    metrics: bool,
    session: Seq<char>,
) -> bool {
    match standing(t, names, at) {
        Some(x) => leaf_names(x, metrics, session),
        None => false,
    }
}

proof fn lemma_names(x: Tree, session: Seq<char>)
    ensures
        point_session(x) == Some(session) <==> point_names(x, session),
{
    if point_session(x) == Some(session) {
        let attrs = member_list_of(x, "attributes"@)->0;
        assert(attributes_are(x, attrs));
        lemma_point_session(x, attrs);
        assert(names_session(attrs, session));
    }
    if point_names(x, session) {
        let attrs = choose|attrs: Seq<Tree>| #[trigger]
            attributes_are(x, attrs) && names_session(attrs, session);
        lemma_point_session(x, attrs);
    }
}

proof fn lemma_point_sessions_hold(points: Seq<Tree>, n: int, session: Seq<char>)
    requires
        0 <= n <= points.len(),
    ensures
        point_sessions(points, n).contains(session) <==> exists|i: int|
            0 <= i < n && point_session(#[trigger] points[i]) == Some(session),
    decreases n,
{
    if n > 0 {
        lemma_point_sessions_hold(points, n - 1, session);
        let rest = point_sessions(points, n - 1);
        let all = point_sessions(points, n);
        match point_session(points[n - 1]) {
            Some(s) => {
                assert(all == rest.push(s));
                if all.contains(session) {
                    let j = all.index_of(session);
                    if j < rest.len() {
                        assert(rest[j] == session);
                    } else {
                        assert(point_session(points[n - 1]) == Some(session));
                    }
                }
                if rest.contains(session) {
                    assert(all[rest.index_of(session)] == session);
                }
                if s == session {
                    assert(all[rest.len() as int] == session);
                }
            },
            None => {},
        }
    }
}

proof fn lemma_shape_sessions(metric: Tree, shape: Seq<char>, session: Seq<char>)
    ensures
        point_sessions(
            shape_points(metric, shape),
            shape_points(metric, shape).len() as int,
        ).contains(session) <==> exists|i: int| #[trigger]
            metric_names(metric, shape, i, session),
{
    let points = shape_points(metric, shape);
    let n = points.len() as int;
    lemma_point_sessions_hold(points, n, session);
    assert forall|i: int| 0 <= i < n implies #[trigger] datapoint(metric, shape, i) == Some(
        points[i],
    ) by {}
    if point_sessions(points, n).contains(session) {
        let i = choose|i: int| 0 <= i < n && point_session(#[trigger] points[i]) == Some(session);
        lemma_names(points[i], session);
        assert(datapoint(metric, shape, i) == Some(points[i]));
        assert(metric_names(metric, shape, i, session));
    }
    if exists|i: int| #[trigger] metric_names(metric, shape, i, session) {
        let i = choose|i: int| #[trigger] metric_names(metric, shape, i, session);
        let x = datapoint(metric, shape, i)->0;
        assert(0 <= i < n && x == points[i]);
        lemma_names(x, session);
    }
}

proof fn lemma_joined<T>(a: Seq<T>, b: Seq<T>, x: T)
    ensures
        (a + b).contains(x) <==> a.contains(x) || b.contains(x),
{
    let all = a + b;
    if a.contains(x) {
        assert(all[a.index_of(x)] == x);
    }
    if b.contains(x) {
        assert(all[a.len() + b.index_of(x)] == x);
    }
    if all.contains(x) {
        let i = all.index_of(x);
        if i < a.len() {
            assert(a[i] == x);
        } else {
            assert(b[i - a.len()] == x);
        }
    }
}

proof fn lemma_sessions_along(t: Tree, path: Seq<Seq<char>>, metrics: bool, session: Seq<char>)
    ensures
        sessions_along(t, path, metrics).contains(session) <==> exists|at: Seq<int>| #[trigger]
            place_names(t, path, at, metrics, session),
    decreases path.len(), 0int, 0int,
{
    let all = sessions_along(t, path, metrics);
    if path.len() == 0 {
        let here: Seq<int> = Seq::empty();
        if metrics {
            let sums = shape_points(t, "sum"@);
            let gauges = shape_points(t, "gauge"@);
            lemma_shape_sessions(t, "sum"@, session);
            lemma_shape_sessions(t, "gauge"@, session);
            lemma_joined(
                point_sessions(sums, sums.len() as int),
                point_sessions(gauges, gauges.len() as int),
                session,
            );
            if all.contains(session) {
                assert(place_names(t, path, here, metrics, session));
            }
        } else {
            lemma_point_sessions_hold(seq![t], 1, session);
            lemma_names(t, session);
            if all.contains(session) {
                assert(place_names(t, path, here, metrics, session));
            }
            if point_session(t) == Some(session) {
                assert(point_session(seq![t][0]) == Some(session));
            }
        }
    } else {
        match member_list_of(t, path[0]) {
            Some(a) => {
                let rest = path.skip(1);
                lemma_sessions_in(a, rest, metrics, a.len() as int, session);
                if all.contains(session) {
                    let (i, at) = choose|i: int, at: Seq<int>|
                        0 <= i < a.len() && #[trigger] place_names(a[i], rest, at, metrics, session);
                    let whole = seq![i] + at;
                    assert(whole.skip(1) =~= at);
                    assert(whole[0] == i);
                    assert(standing(t, path, whole) == standing(a[i], rest, at));
                    assert(place_names(t, path, whole, metrics, session));
                }
                if exists|at: Seq<int>| #[trigger] place_names(t, path, at, metrics, session) {
                    let at = choose|at: Seq<int>| #[trigger]
                        place_names(t, path, at, metrics, session);
                    assert(place_names(a[at[0]], rest, at.skip(1), metrics, session));
                }
            },
            None => {},
        }
    }
}

proof fn lemma_sessions_in(
    a: Seq<Tree>,
    path: Seq<Seq<char>>,
    metrics: bool,
    n: int,
    session: Seq<char>,
)
    requires
        0 <= n <= a.len(),
    ensures
        sessions_in(a, path, metrics, n).contains(session) <==> exists|i: int, at: Seq<int>|
            0 <= i < n && #[trigger] place_names(a[i], path, at, metrics, session),
    decreases path.len(), 1int, n,
{
    if n > 0 {
        lemma_sessions_in(a, path, metrics, n - 1, session);
        lemma_sessions_along(a[n - 1], path, metrics, session);
        lemma_joined(
            sessions_in(a, path, metrics, n - 1),
            sessions_along(a[n - 1], path, metrics),
            session,
        );
        if sessions_in(a, path, metrics, n).contains(session) {
            if sessions_along(a[n - 1], path, metrics).contains(session) {
                let at = choose|at: Seq<int>| #[trigger]
                    place_names(a[n - 1], path, at, metrics, session);
                assert(0 <= n - 1 < n && place_names(a[n - 1], path, at, metrics, session));
            } else {
                let (i, at) = choose|i: int, at: Seq<int>|
                    0 <= i < n - 1 && #[trigger] place_names(a[i], path, at, metrics, session);
                assert(0 <= i < n && place_names(a[i], path, at, metrics, session));
            }
        }
        if exists|i: int, at: Seq<int>|
            0 <= i < n && #[trigger] place_names(a[i], path, at, metrics, session) {
            let (i, at) = choose|i: int, at: Seq<int>|
                0 <= i < n && #[trigger] place_names(a[i], path, at, metrics, session);
            if i < n - 1 {
                assert(0 <= i < n - 1 && place_names(a[i], path, at, metrics, session));
            }
        }
    }
}

/// The sessions of a body are exactly those that a datapoint or a log record of it names, wherever
/// it stands, each once and in order.
pub proof fn law_the_sessions_of_a_body_are_those_it_names(
    body: Seq<u8>,
    t: Tree,
    metrics: bool,
    session: Seq<char>,
)
    requires
        parsed_bytes(body) == Ok::<Tree, Seq<char>>(t),
    ensures
        ({
            let names = lists_to(metrics);
            body_sessions(body, metrics) matches Some(all) && ascending(all) && (all.contains(
                session,
            ) <==> exists|at: Seq<int>| #[trigger] place_names(t, names, at, metrics, session))
        }),
{
    let path = path_of(metrics);
    assert(path =~= lists_to(metrics));
    let found = sessions_along(t, path, metrics);
    lemma_sorted_set(found);
    lemma_sessions_along(t, path, metrics, session);
    assert(crate::sorted::sorted_set(found).contains(session) <==> found.contains(session));
}

} // verus!
