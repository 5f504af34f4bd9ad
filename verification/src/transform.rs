//! Enrichment of OTLP/JSON bodies: the project label, resolved for each datapoint from its own
//! `session.id`, is added to a metrics or logs body. Nothing else of the body changes, and a
//! datapoint of an unknown session keeps what it has.
use vstd::prelude::*;
use crate::json::{
    compact, compact_text, dup, dup_items, dup_members, items, members, parse_bytes, parsed_bytes,
    set_member, tree_get, tree_get_str, Json, Tree,
};
use crate::session::SessionIndexCache;
use crate::sorted::{sort_set, sorted_set};
use crate::text::{cat2, opt_str_view, owned, same, views};

verus! {

broadcast use vstd::map::group_map_axioms;

/// What resolves a session to the label of its project.
pub open spec fn labels_of(index: SessionIndexCache) -> spec_fn(Seq<char>) -> Option<Seq<char>> {
    |session: Seq<char>|
        {
            match index.project_row(session) {
                Some(row) => Some(row.label),
                None => None,
            }
        }
}

/// The first attribute with a key.
pub open spec fn attribute(attrs: Seq<Tree>, key: Seq<char>) -> Option<Tree>
    decreases attrs.len(),
{
    if attrs.len() == 0 {
        None
    } else if tree_get_str(attrs[0], "key"@) == Some(key) {
        Some(attrs[0])
    } else {
        attribute(attrs.skip(1), key)
    }
}

/// The list that a member holds, where it is a list.
pub open spec fn member_list_of(t: Tree, key: Seq<char>) -> Option<Seq<Tree>> {
    match tree_get(t, key) {
        Some(Tree::Arr(a)) => Some(a),
        _ => None,
    }
}

/// The `session.id` of a datapoint or a log record.
pub open spec fn point_session(point: Tree) -> Option<Seq<char>> {
    match member_list_of(point, "attributes"@) {
        Some(attrs) => match attribute(attrs, "session.id"@) {
            Some(a) => match tree_get(a, "value"@) {
                Some(v) => tree_get_str(v, "stringValue"@),
                None => None,
            },
            None => None,
        },
        None => None,
    }
}

/// The attribute that names a project.
pub open spec fn project_attribute(label: Seq<char>) -> Tree {
    Tree::Obj(
        map![
            "key"@ => Tree::Str("project"@),
            "value"@ => Tree::Obj(map!["stringValue"@ => Tree::Str(label)]),
        ],
    )
}

/// A tree with one member replaced.
pub open spec fn with_member(t: Tree, key: Seq<char>, value: Tree) -> Tree {
    match t {
        Tree::Obj(m) => Tree::Obj(m.insert(key, value)),
        _ => t,
    }
}

/// A datapoint or log record with the project of its session: as it is where it has no
/// attributes, has a project already, names no session, or its session does not resolve.
pub open spec fn enriched_point(
    point: Tree,
    labels: spec_fn(Seq<char>) -> Option<Seq<char>>,
) -> Tree {
    match member_list_of(point, "attributes"@) {
        None => point,
        Some(attrs) => if attribute(attrs, "project"@) is Some {
            point
        } else {
            match point_session(point) {
                None => point,
                Some(session) => match labels(session) {
                    None => point,
                    Some(label) => with_member(
                        point,
                        "attributes"@,
                        Tree::Arr(attrs.push(project_attribute(label))),
                    ),
                },
            }
        },
    }
}

pub open spec fn enriched_points(
    points: Seq<Tree>,
    labels: spec_fn(Seq<char>) -> Option<Seq<char>>,
) -> Seq<Tree> {
    Seq::new(points.len(), |i: int| enriched_point(points[i], labels))
}

/// A metric with the datapoints of one of its shapes enriched.
pub open spec fn enriched_shape(
    metric: Tree,
    shape: Seq<char>,
    labels: spec_fn(Seq<char>) -> Option<Seq<char>>,
) -> Tree {
    match tree_get(metric, shape) {
        Some(s) => match member_list_of(s, "dataPoints"@) {
            Some(points) => with_member(
                metric,
                shape,
                with_member(s, "dataPoints"@, Tree::Arr(enriched_points(points, labels))),
            ),
            None => metric,
        },
        None => metric,
    }
}

/// A metric with its datapoints enriched: a metric is a sum or a gauge.
pub open spec fn enriched_metric(
    metric: Tree,
    labels: spec_fn(Seq<char>) -> Option<Seq<char>>,
) -> Tree {
    enriched_shape(enriched_shape(metric, "sum"@, labels), "gauge"@, labels)
}

/// The lists that lead to what is enriched.
pub open spec fn path_of(metrics: bool) -> Seq<Seq<char>> {
    if metrics {
        seq!["resourceMetrics"@, "scopeMetrics"@, "metrics"@]
    } else {
        seq!["resourceLogs"@, "scopeLogs"@, "logRecords"@]
    }
}

/// A tree with everything at the end of a path of lists enriched.
pub open spec fn enriched_along(
    t: Tree,
    path: Seq<Seq<char>>,
    metrics: bool,
    labels: spec_fn(Seq<char>) -> Option<Seq<char>>,
) -> Tree
    decreases path.len(), 0int,
{
    if path.len() == 0 {
        if metrics {
            enriched_metric(t, labels)
        } else {
            enriched_point(t, labels)
        }
    } else {
        match member_list_of(t, path[0]) {
            Some(a) => with_member(
                t,
                path[0],
                Tree::Arr(enriched_list(a, path.skip(1), metrics, labels)),
            ),
            None => t,
        }
    }
}

pub open spec fn enriched_list(
    a: Seq<Tree>,
    path: Seq<Seq<char>>,
    metrics: bool,
    labels: spec_fn(Seq<char>) -> Option<Seq<char>>,
) -> Seq<Tree>
    decreases path.len(), 1int,
{
    Seq::new(a.len(), |i: int| enriched_along(a[i], path, metrics, labels))
}

/// A body enriched.
pub open spec fn enriched(
    t: Tree,
    metrics: bool,
    labels: spec_fn(Seq<char>) -> Option<Seq<char>>,
) -> Tree {
    enriched_along(t, path_of(metrics), metrics, labels)
}

fn find_attribute(attrs: &Vec<Json>, key: &str) -> (r: usize)
    ensures
        r <= attrs.len(),
        r < attrs.len() ==> attribute(items(attrs@), key@) == Some(attrs@[r as int].view()),
        r == attrs.len() ==> attribute(items(attrs@), key@) is None,
{
    let ghost all = items(attrs@);
    let mut i: usize = 0;
    assert(all.skip(0) =~= all);
    while i < attrs.len()
        invariant
            0 <= i <= attrs.len(),
            all == items(attrs@),
            attribute(all, key@) == attribute(all.skip(i as int), key@),
        decreases attrs.len() - i,
    {
        proof {
            assert(all.skip(i as int)[0] == attrs@[i as int].view());
            assert(all.skip(i as int).skip(1) =~= all.skip(i + 1));
        }
        let found = match attrs[i].get_str("key") {
            Some(k) => same(k, key),
            None => false,
        };
        if found {
            return i;
        }
        i = i + 1;
    }
    assert(all.skip(attrs.len() as int).len() == 0);
    attrs.len()
}

fn list_at<'a>(t: &'a Json, key: &str) -> (r: Option<&'a Vec<Json>>)
    ensures
        match r {
            Some(a) => member_list_of(t.view(), key@) == Some(items(a@)),
            None => member_list_of(t.view(), key@) is None,
        },
{
    match t.get(key) {
        Some(v) => match v {
            Json::Array(a) => Some(a),
            _ => None,
        },
        None => None,
    }
}

/// The `session.id` of a datapoint or a log record.
pub fn point_session_id(point: &Json) -> (r: Option<&str>)
    ensures
        opt_str_view(r) == point_session(point.view()),
{
    match list_at(point, "attributes") {
        Some(attrs) => {
            let at = find_attribute(attrs, "session.id");
            if at < attrs.len() {
                match attrs[at].get("value") {
                    Some(v) => v.get_str("stringValue"),
                    None => None,
                }
            } else {
                None
            }
        },
        None => None,
    }
}

fn replaced(t: &Json, key: &str, value: Json) -> (r: Json)
    ensures
        r.view() == with_member(t.view(), key@, value.view()),
{
    match t {
        Json::Object(m) => {
            let mut out = dup_members(m);
            set_member(&mut out, key, value);
            Json::Object(out)
        },
        _ => dup(t),
    }
}

fn project_attr(label: &str) -> (r: Json)
    ensures
        r.view() == project_attribute(label@),
{
    let mut value: Vec<(String, Json)> = Vec::new();
    set_member(&mut value, "stringValue", Json::text(label));
    let mut out: Vec<(String, Json)> = Vec::new();
    set_member(&mut out, "key", Json::text("project"));
    set_member(&mut out, "value", Json::Object(value));
    proof {
        assert(members(value@) =~= map!["stringValue"@ => Tree::Str(label@)]);
        assert(members(out@) =~= map![
            "key"@ => Tree::Str("project"@),
            "value"@ => Tree::Obj(map!["stringValue"@ => Tree::Str(label@)]),
        ]);
    }
    Json::Object(out)
}

/// Add the project of its session to one datapoint or log record.
pub fn inject_project(point: &Json, index: &SessionIndexCache) -> (r: Json)
    ensures
        r.view() == enriched_point(point.view(), labels_of(*index)),
{
    let attrs = match list_at(point, "attributes") {
        Some(a) => a,
        None => {
            return dup(point);
        },
    };
    if find_attribute(attrs, "project") < attrs.len() {
        return dup(point);
    }
    let session = match point_session_id(point) {
        Some(s) => s,
        None => {
            return dup(point);
        },
    };
    let label = match index.label(session) {
        Some(l) => l,
        None => {
            return dup(point);
        },
    };
    let mut more = dup_items(attrs);
    let attr = project_attr(&label);
    let ghost held = more@;
    more.push(attr);
    assert(items(more@) =~= items(held).push(attr.view()));
    replaced(point, "attributes", Json::Array(more))
}

fn inject_all(points: &Vec<Json>, index: &SessionIndexCache) -> (r: Vec<Json>)
    ensures
        items(r@) == enriched_points(items(points@), labels_of(*index)),
{
    let mut out: Vec<Json> = Vec::new();
    let mut i: usize = 0;
    while i < points.len()
        invariant
            0 <= i <= points.len(),
            out.len() == i,
            forall|k: int|
                0 <= k < i ==> (#[trigger] out@[k]).view() == enriched_point(
                    points@[k].view(),
                    labels_of(*index),
                ),
        decreases points.len() - i,
    {
        out.push(inject_project(&points[i], index));
        i = i + 1;
    }
    assert(items(out@) =~= enriched_points(items(points@), labels_of(*index)));
    out
}

fn enrich_shape(metric: &Json, shape: &str, index: &SessionIndexCache) -> (r: Json)
    ensures
        r.view() == enriched_shape(metric.view(), shape@, labels_of(*index)),
{
    match metric.get(shape) {
        Some(s) => match list_at(s, "dataPoints") {
            Some(points) => {
                let done = inject_all(points, index);
                replaced(metric, shape, replaced(s, "dataPoints", Json::Array(done)))
            },
            None => dup(metric),
        },
        None => dup(metric),
    }
}

fn enrich_along(
    t: &Json,
    path: &Vec<&'static str>,
    depth: usize,
    metrics: bool,
    index: &SessionIndexCache,
) -> (r: Json)
    requires
        depth <= path.len(),
    ensures
        r.view() == enriched_along(
            t.view(),
            crate::claude_settings::names(path@).skip(depth as int),
            metrics,
            labels_of(*index),
        ),
    decreases path.len() - depth,
{
    let ghost rest = crate::claude_settings::names(path@).skip(depth as int);
    let ghost labels = labels_of(*index);
    if depth == path.len() {
        if metrics {
            let half = enrich_shape(t, "sum", index);
            enrich_shape(&half, "gauge", index)
        } else {
            inject_project(t, index)
        }
    } else {
        let key = path[depth];
        assert(rest[0] == key@);
        assert(rest.skip(1) =~= crate::claude_settings::names(path@).skip(depth + 1));
        match list_at(t, key) {
            Some(a) => {
                let mut out: Vec<Json> = Vec::new();
                let mut i: usize = 0;
                while i < a.len()
                    invariant
                        0 <= i <= a.len(),
                        depth < path.len(),
                        out.len() == i,
                        labels == labels_of(*index),
                        rest.skip(1) == crate::claude_settings::names(path@).skip(depth + 1),
                        forall|k: int|
                            0 <= k < i ==> (#[trigger] out@[k]).view() == enriched_along(
                                a@[k].view(),
                                rest.skip(1),
                                metrics,
                                labels,
                            ),
                    decreases a.len() - i,
                {
                    out.push(enrich_along(&a[i], path, depth + 1, metrics, index));
                    i = i + 1;
                }
                assert(items(out@) =~= enriched_list(items(a@), rest.skip(1), metrics, labels));
                replaced(t, key, Json::Array(out))
            },
            None => dup(t),
        }
    }
}

fn path_names(metrics: bool) -> (r: Vec<&'static str>)
    ensures
        crate::claude_settings::names(r@) == path_of(metrics),
{
    let mut out: Vec<&'static str> = Vec::new();
    if metrics {
        out.push("resourceMetrics");
        out.push("scopeMetrics");
        out.push("metrics");
    } else {
        out.push("resourceLogs");
        out.push("scopeLogs");
        out.push("logRecords");
    }
    assert(crate::claude_settings::names(out@) =~= path_of(metrics));
    out
}

fn enrich(t: &Json, metrics: bool, index: &SessionIndexCache) -> (r: Json)
    ensures
        r.view() == enriched(t.view(), metrics, labels_of(*index)),
{
    let path = path_names(metrics);
    assert(crate::claude_settings::names(path@).skip(0) =~= path_of(metrics));
    enrich_along(t, &path, 0, metrics, index)
}

/// The text that a body is enriched to, or why it cannot be.
pub open spec fn enriched_body(
    body: Seq<u8>,
    metrics: bool,
    labels: spec_fn(Seq<char>) -> Option<Seq<char>>,
) -> Result<Seq<char>, Seq<char>> {
    match parsed_bytes(body) {
        Ok(t) => Ok(compact_text(enriched(t, metrics, labels))),
        Err(e) => Err(
            (if metrics {
                "metrics body is not JSON: "@
            } else {
                "logs body is not JSON: "@
            }) + e,
        ),
    }
}

pub open spec fn text_agrees(r: Result<String, String>, want: Result<Seq<char>, Seq<char>>) -> bool {
    match (r, want) {
        (Ok(a), Ok(b)) => a@ == b,
        (Err(a), Err(b)) => a@ == b,
        _ => false,
    }
}

/// Add the project to every metrics datapoint whose session resolves. A body that is not JSON is
/// an error.
pub fn enrich_metrics(body: &[u8], index: &SessionIndexCache) -> (r: Result<String, String>)
    ensures
        text_agrees(r, enriched_body(body@, true, labels_of(*index))),
{
    match parse_bytes(body) {
        Ok(t) => Ok(compact(&enrich(&t, true, index))),
        Err(e) => Err(cat2("metrics body is not JSON: ", &e)),
    }
}

/// Add the project to every log record whose session resolves. A body that is not JSON is an
/// error.
pub fn enrich_logs(body: &[u8], index: &SessionIndexCache) -> (r: Result<String, String>)
    ensures
        text_agrees(r, enriched_body(body@, false, labels_of(*index))),
{
    match parse_bytes(body) {
        Ok(t) => Ok(compact(&enrich(&t, false, index))),
        Err(e) => Err(cat2("logs body is not JSON: ", &e)),
    }
}

// ---------------------------------------------------------------------------------------------
// Sessions
// ---------------------------------------------------------------------------------------------

/// The sessions that the first `n` of a list of points name.
pub open spec fn point_sessions(points: Seq<Tree>, n: int) -> Seq<Seq<char>>
    decreases n,
{
    if n <= 0 {
        Seq::empty()
    } else {
        let rest = point_sessions(points, n - 1);
        match point_session(points[n - 1]) {
            Some(s) => rest.push(s),
            None => rest,
        }
    }
}

/// The datapoints of one shape of a metric.
pub open spec fn shape_points(metric: Tree, shape: Seq<char>) -> Seq<Tree> {
    match tree_get(metric, shape) {
        Some(s) => match member_list_of(s, "dataPoints"@) {
            Some(points) => points,
            None => Seq::empty(),
        },
        None => Seq::empty(),
    }
}

/// The sessions named at the end of a path of lists.
pub open spec fn sessions_along(t: Tree, path: Seq<Seq<char>>, metrics: bool) -> Seq<Seq<char>>
    decreases path.len(), 0int,
{
    if path.len() == 0 {
        if metrics {
            let sums = shape_points(t, "sum"@);
            let gauges = shape_points(t, "gauge"@);
            point_sessions(sums, sums.len() as int) + point_sessions(gauges, gauges.len() as int)
        } else {
            point_sessions(seq![t], 1)
        }
    } else {
        match member_list_of(t, path[0]) {
            Some(a) => sessions_in(a, path.skip(1), metrics, a.len() as int),
            None => Seq::empty(),
        }
    }
}

/// The sessions named under the first `n` of a list.
pub open spec fn sessions_in(a: Seq<Tree>, path: Seq<Seq<char>>, metrics: bool, n: int) -> Seq<
    Seq<char>,
>
    decreases path.len(), n,
{
    if n <= 0 {
        Seq::empty()
    } else {
        sessions_in(a, path, metrics, n - 1) + sessions_along(a[n - 1], path, metrics)
    }
}

/// The distinct sessions of a body, in order; `None` where it is not JSON.
pub open spec fn body_sessions(body: Seq<u8>, metrics: bool) -> Option<Seq<Seq<char>>> {
    match parsed_bytes(body) {
        Ok(t) => Some(sorted_set(sessions_along(t, path_of(metrics), metrics))),
        Err(_) => None,
    }
}

fn push_sessions(out: &mut Vec<String>, points: &Vec<Json>)
    ensures
        views(final(out)@) == views(old(out)@) + point_sessions(
            items(points@),
            points@.len() as int,
        ),
{
    let ghost start = views(out@);
    let ghost all = items(points@);
    let mut i: usize = 0;
    assert(start + point_sessions(all, 0) =~= start);
    while i < points.len()
        invariant
            0 <= i <= points.len(),
            all == items(points@),
            views(out@) == start + point_sessions(all, i as int),
        decreases points.len() - i,
    {
        assert(all[i as int] == points@[i as int].view());
        if let Some(s) = point_session_id(&points[i]) {
            let ghost held = out@;
            out.push(owned(s));
            assert(views(out@) =~= views(held).push(s@));
        }
        assert(views(out@) =~= start + point_sessions(all, i + 1));
        i = i + 1;
    }
}

fn push_shape(out: &mut Vec<String>, metric: &Json, shape: &str)
    ensures
        views(final(out)@) == views(old(out)@) + point_sessions(
            shape_points(metric.view(), shape@),
            shape_points(metric.view(), shape@).len() as int,
        ),
{
    let ghost start = views(out@);
    if let Some(s) = metric.get(shape) {
        if let Some(points) = list_at(s, "dataPoints") {
            push_sessions(out, points);
            return;
        }
    }
    assert(shape_points(metric.view(), shape@) =~= Seq::<Tree>::empty());
    assert(start + point_sessions(Seq::<Tree>::empty(), 0) =~= start);
}

fn push_along(
    out: &mut Vec<String>,
    t: &Json,
    path: &Vec<&'static str>,
    depth: usize,
    metrics: bool,
)
    requires
        depth <= path.len(),
    ensures
        views(final(out)@) == views(old(out)@) + sessions_along(
            t.view(),
            crate::claude_settings::names(path@).skip(depth as int),
            metrics,
        ),
    decreases path.len() - depth,
{
    let ghost start = views(out@);
    let ghost rest = crate::claude_settings::names(path@).skip(depth as int);
    if depth == path.len() {
        if metrics {
            push_shape(out, t, "sum");
            push_shape(out, t, "gauge");
            assert(views(out@) =~= start + sessions_along(t.view(), rest, metrics));
        } else {
            reveal_with_fuel(point_sessions, 2);
            if let Some(s) = point_session_id(t) {
                let ghost held = out@;
                out.push(owned(s));
                assert(views(out@) =~= views(held).push(s@));
            }
            assert(views(out@) =~= start + sessions_along(t.view(), rest, metrics));
        }
    } else {
        let key = path[depth];
        assert(rest[0] == key@);
        assert(rest.skip(1) =~= crate::claude_settings::names(path@).skip(depth + 1));
        match list_at(t, key) {
            Some(a) => {
                let ghost all = items(a@);
                let mut i: usize = 0;
                assert(start + sessions_in(all, rest.skip(1), metrics, 0) =~= start);
                while i < a.len()
                    invariant
                        0 <= i <= a.len(),
                        depth < path.len(),
                        all == items(a@),
                        rest.skip(1) == crate::claude_settings::names(path@).skip(depth + 1),
                        views(out@) == start + sessions_in(all, rest.skip(1), metrics, i as int),
                    decreases a.len() - i,
                {
                    push_along(out, &a[i], path, depth + 1, metrics);
                    assert(views(out@) =~= start + sessions_in(
                        all,
                        rest.skip(1),
                        metrics,
                        i + 1,
                    ));
                    i = i + 1;
                }
            },
            None => {
                assert(start + Seq::<Seq<char>>::empty() =~= start);
            },
        }
    }
}

pub open spec fn opt_views(o: Option<Vec<String>>) -> Option<Seq<Seq<char>>> {
    match o {
        Some(v) => Some(views(v@)),
        None => None,
    }
}

/// The distinct sessions of a body, in order, read where enrichment reads them; `None` where the
/// body is not JSON.
pub fn session_ids(body: &[u8], metrics: bool) -> (r: Option<Vec<String>>)
    ensures
        opt_views(r) == body_sessions(body@, metrics),
{
    match parse_bytes(body) {
        Ok(t) => {
            let path = path_names(metrics);
            let mut all: Vec<String> = Vec::new();
            assert(views(all@) =~= Seq::<Seq<char>>::empty());
            assert(crate::claude_settings::names(path@).skip(0) =~= path_of(metrics));
            push_along(&mut all, &t, &path, 0, metrics);
            assert(views(all@) =~= sessions_along(t.view(), path_of(metrics), metrics));
            Some(sort_set(&all))
        },
        Err(_) => None,
    }
}

// ---------------------------------------------------------------------------------------------
// Laws
// ---------------------------------------------------------------------------------------------

proof fn lemma_attribute_push(attrs: Seq<Tree>, more: Tree, key: Seq<char>)
    ensures
        attribute(attrs.push(more), key) == match attribute(attrs, key) {
            Some(a) => Some(a),
            None => if tree_get_str(more, "key"@) == Some(key) {
                Some(more)
            } else {
                None
            },
        },
    decreases attrs.len(),
{
    let all = attrs.push(more);
    reveal_with_fuel(attribute, 2);
    if attrs.len() == 0 {
        assert(all.skip(1).len() == 0);
    } else {
        assert(all[0] == attrs[0]);
        assert(all.skip(1) =~= attrs.skip(1).push(more));
        lemma_attribute_push(attrs.skip(1), more, key);
    }
}

proof fn lemma_point(point: Tree, labels: spec_fn(Seq<char>) -> Option<Seq<char>>)
    ensures
        enriched_point(enriched_point(point, labels), labels) == enriched_point(point, labels),
        point_session(enriched_point(point, labels)) == point_session(point),
{
    if let Some(attrs) = member_list_of(point, "attributes"@) {
        if let Some(session) = point_session(point) {
            if let Some(label) = labels(session) {
                let more = project_attribute(label);
                reveal_strlit("key");
                reveal_strlit("value");
                reveal_strlit("project");
                reveal_strlit("session.id");
                assert("key"@.len() != "value"@.len());
                assert("project"@.len() != "session.id"@.len());
                assert(tree_get_str(more, "key"@) == Some("project"@));
                lemma_attribute_push(attrs, more, "project"@);
                lemma_attribute_push(attrs, more, "session.id"@);
                let after = with_member(point, "attributes"@, Tree::Arr(attrs.push(more)));
                assert(member_list_of(after, "attributes"@) == Some(attrs.push(more)));
            }
        }
    }
}

/// Enriching a point adds at most one attribute, the project of its session behind those that are
/// there; a point that has a project keeps it as the only one, and no other member changes.
pub proof fn law_enrichment_adds_the_project_only(
    point: Tree,
    labels: spec_fn(Seq<char>) -> Option<Seq<char>>,
    key: Seq<char>,
)
    ensures
        key != "attributes"@ ==> tree_get(enriched_point(point, labels), key) == tree_get(
            point,
            key,
        ),
        enriched_point(point, labels) != point ==> exists|attrs: Seq<Tree>, label: Seq<char>|
            {
                &&& member_list_of(point, "attributes"@) == Some(attrs)
                &&& attribute(attrs, "project"@) is None
                &&& point_session(point) matches Some(session) && labels(session) == Some(label)
                &&& member_list_of(enriched_point(point, labels), "attributes"@) == Some(
                    #[trigger] attrs.push(project_attribute(label)),
                )
            },
{
    if enriched_point(point, labels) != point {
        let attrs = member_list_of(point, "attributes"@)->0;
        let label = labels(point_session(point)->0)->0;
        assert(member_list_of(enriched_point(point, labels), "attributes"@) == Some(
            attrs.push(project_attribute(label)),
        ));
    }
}

/// A point whose session does not resolve is forwarded as it is: no label is made up.
pub proof fn law_no_label_is_made_up(
    point: Tree,
    labels: spec_fn(Seq<char>) -> Option<Seq<char>>,
)
    requires
        point_session(point) matches Some(session) ==> labels(session) is None,
    ensures
        enriched_point(point, labels) == point,
{
}

proof fn lemma_shape_fixed(
    metric: Tree,
    shape: Seq<char>,
    labels: spec_fn(Seq<char>) -> Option<Seq<char>>,
)
    requires
        forall|i: int|
            0 <= i < shape_points(metric, shape).len() ==> enriched_point(
                #[trigger] shape_points(metric, shape)[i],
                labels,
            ) == shape_points(metric, shape)[i],
    ensures
        enriched_shape(metric, shape, labels) == metric,
{
    if let Some(s) = tree_get(metric, shape) {
        if let Some(points) = member_list_of(s, "dataPoints"@) {
            assert(shape_points(metric, shape) == points);
            assert(enriched_points(points, labels) =~= points);
            let m = metric->Obj_0;
            let inner = s->Obj_0;
            assert(inner.insert("dataPoints"@, Tree::Arr(points)) =~= inner);
            assert(m.insert(shape, s) =~= m);
        }
    }
}

proof fn lemma_shape_points(
    metric: Tree,
    shape: Seq<char>,
    other: Seq<char>,
    labels: spec_fn(Seq<char>) -> Option<Seq<char>>,
)
    ensures
        shape_points(enriched_shape(metric, shape, labels), other) == if other == shape {
            enriched_points(shape_points(metric, shape), labels)
        } else {
            shape_points(metric, other)
        },
{
    if other == shape {
        assert(enriched_points(Seq::<Tree>::empty(), labels) =~= Seq::<Tree>::empty());
    }
}

proof fn lemma_metric_idempotent(
    metric: Tree,
    labels: spec_fn(Seq<char>) -> Option<Seq<char>>,
)
    ensures
        enriched_metric(enriched_metric(metric, labels), labels) == enriched_metric(metric, labels),
{
    let half = enriched_shape(metric, "sum"@, labels);
    let full = enriched_shape(half, "gauge"@, labels);
    reveal_strlit("sum");
    reveal_strlit("gauge");
    assert("sum"@.len() != "gauge"@.len());
    lemma_shape_points(metric, "sum"@, "sum"@, labels);
    lemma_shape_points(half, "gauge"@, "sum"@, labels);
    lemma_shape_points(half, "gauge"@, "gauge"@, labels);
    assert forall|i: int| 0 <= i < shape_points(full, "sum"@).len() implies enriched_point(
        #[trigger] shape_points(full, "sum"@)[i],
        labels,
    ) == shape_points(full, "sum"@)[i] by {
        lemma_point(shape_points(metric, "sum"@)[i], labels);
    }
    lemma_shape_fixed(full, "sum"@, labels);
    assert forall|i: int| 0 <= i < shape_points(full, "gauge"@).len() implies enriched_point(
        #[trigger] shape_points(full, "gauge"@)[i],
        labels,
    ) == shape_points(full, "gauge"@)[i] by {
        lemma_point(shape_points(half, "gauge"@)[i], labels);
    }
    lemma_shape_fixed(full, "gauge"@, labels);
}

proof fn lemma_along_idempotent(
    t: Tree,
    path: Seq<Seq<char>>,
    metrics: bool,
    labels: spec_fn(Seq<char>) -> Option<Seq<char>>,
)
    ensures
        enriched_along(enriched_along(t, path, metrics, labels), path, metrics, labels)
            == enriched_along(t, path, metrics, labels),
    decreases path.len(),
{
    if path.len() == 0 {
        if metrics {
            lemma_metric_idempotent(t, labels);
        } else {
            lemma_point(t, labels);
        }
    } else if let Some(a) = member_list_of(t, path[0]) {
        let rest = path.skip(1);
        let once = enriched_list(a, rest, metrics, labels);
        let done = enriched_along(t, path, metrics, labels);
        assert(member_list_of(done, path[0]) == Some(once));
        assert forall|i: int| 0 <= i < once.len() implies #[trigger] enriched_list(
            once,
            rest,
            metrics,
            labels,
        )[i] == once[i] by {
            lemma_along_idempotent(a[i], rest, metrics, labels);
        }
        assert(enriched_list(once, rest, metrics, labels) =~= once);
        let m = t->Obj_0;
        assert(m.insert(path[0], Tree::Arr(once)).insert(path[0], Tree::Arr(once)) =~= m.insert(
            path[0],
            Tree::Arr(once),
        ));
    }
}

/// Enriching a body that is enriched already changes nothing.
pub proof fn law_enrichment_is_idempotent(
    t: Tree,
    metrics: bool,
    labels: spec_fn(Seq<char>) -> Option<Seq<char>>,
)
    ensures
        enriched(enriched(t, metrics, labels), metrics, labels) == enriched(t, metrics, labels),
{
    lemma_along_idempotent(t, path_of(metrics), metrics, labels);
}

proof fn lemma_point_sessions(
    points: Seq<Tree>,
    labels: spec_fn(Seq<char>) -> Option<Seq<char>>,
    n: int,
)
    requires
        0 <= n <= points.len(),
    ensures
        point_sessions(enriched_points(points, labels), n) == point_sessions(points, n),
    decreases n,
{
    if n > 0 {
        lemma_point_sessions(points, labels, n - 1);
        lemma_point(points[n - 1], labels);
    }
}

proof fn lemma_along_sessions(
    t: Tree,
    path: Seq<Seq<char>>,
    metrics: bool,
    labels: spec_fn(Seq<char>) -> Option<Seq<char>>,
)
    ensures
        sessions_along(enriched_along(t, path, metrics, labels), path, metrics) == sessions_along(
            t,
            path,
            metrics,
        ),
    decreases path.len(), 0int,
{
    if path.len() == 0 {
        if metrics {
            let half = enriched_shape(t, "sum"@, labels);
            reveal_strlit("sum");
            reveal_strlit("gauge");
            assert("sum"@.len() != "gauge"@.len());
            lemma_shape_points(t, "sum"@, "sum"@, labels);
            lemma_shape_points(t, "sum"@, "gauge"@, labels);
            lemma_shape_points(half, "gauge"@, "sum"@, labels);
            lemma_shape_points(half, "gauge"@, "gauge"@, labels);
            let sums = shape_points(t, "sum"@);
            let gauges = shape_points(t, "gauge"@);
            lemma_point_sessions(sums, labels, sums.len() as int);
            lemma_point_sessions(gauges, labels, gauges.len() as int);
        } else {
            lemma_point(t, labels);
            reveal_with_fuel(point_sessions, 2);
        }
    } else if let Some(a) = member_list_of(t, path[0]) {
        let rest = path.skip(1);
        let once = enriched_list(a, rest, metrics, labels);
        assert(member_list_of(enriched_along(t, path, metrics, labels), path[0]) == Some(once));
        lemma_list_sessions(a, rest, metrics, labels, a.len() as int);
    }
}

proof fn lemma_list_sessions(
    a: Seq<Tree>,
    path: Seq<Seq<char>>,
    metrics: bool,
    labels: spec_fn(Seq<char>) -> Option<Seq<char>>,
    n: int,
)
    requires
        0 <= n <= a.len(),
    ensures
        sessions_in(enriched_list(a, path, metrics, labels), path, metrics, n) == sessions_in(
            a,
            path,
            metrics,
            n,
        ),
    decreases path.len(), n,
{
    if n > 0 {
        lemma_list_sessions(a, path, metrics, labels, n - 1);
        lemma_along_sessions(a[n - 1], path, metrics, labels);
    }
}

/// Enrichment keeps the sessions that a body names.
pub proof fn law_enrichment_keeps_the_sessions(
    t: Tree,
    metrics: bool,
    labels: spec_fn(Seq<char>) -> Option<Seq<char>>,
)
    ensures
        sessions_along(enriched(t, metrics, labels), path_of(metrics), metrics) == sessions_along(
            t,
            path_of(metrics),
            metrics,
        ),
{
    lemma_along_sessions(t, path_of(metrics), metrics, labels);
}

} // verus!
