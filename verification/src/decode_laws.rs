//! What decoding keeps: the parts of a body add up, and what is said of a datapoint or a record is
//! what its attributes say.
use vstd::prelude::*;
use crate::claude_settings::slot;
use crate::decode::{
    all_points, all_records, any_text, attr_of, attributed_shape, attrs_of, bare, body_logs,
    body_points, counted_event, decoded_logs, decoded_points, first_key, is_increment, last_text,
    last_value, leaves, leaves_in, listed_shape, logs_shape, metric_name, metric_points,
    metrics_shape, nested_shape, pair_before, pair_position, point_of, points_of, record_attrs,
    shape_of, sorted_pairs, texts_without, tool_outcome, wanted, AttrModel, LogsModel, PointModel,
    ReadingModel, ToolModel,
};
use crate::json::{compact_text, parsed_bytes, Tree};
use crate::shape::{fields_shaped, in_shape, items_shaped, law_shaping_keeps_objects, shaped, Shape};

verus! {

broadcast use vstd::map::group_map_axioms;

/// Two lists one after the other, where both are there.
pub open spec fn both<T>(a: Option<Seq<T>>, b: Option<Seq<T>>) -> Option<Seq<T>> {
    match (a, b) {
        (Some(x), Some(y)) => Some(x + y),
        _ => None,
    }
}

/// An object with one list.
pub open spec fn holding(key: Seq<char>, v: Seq<Tree>) -> Tree {
    Tree::Obj(map![key => Tree::Arr(v)])
}

/// A metrics body with one scope.
pub open spec fn scope_of_metrics(v: Seq<Tree>) -> Tree {
    holding(
        "resourceMetrics"@,
        seq![holding("scopeMetrics"@, seq![holding("metrics"@, v)])],
    )
}

/// A logs body with one scope.
pub open spec fn scope_of_records(v: Seq<Tree>) -> Tree {
    holding("resourceLogs"@, seq![holding("scopeLogs"@, seq![holding("logRecords"@, v)])])
}

/// A metric with datapoints of a shape, whatever else it and the shape hold.
pub open spec fn with_datapoints(
    metric: Map<Seq<char>, Tree>,
    shape: Seq<char>,
    rest: Map<Seq<char>, Tree>,
    points: Seq<Tree>,
) -> Tree {
    Tree::Obj(metric.insert(shape, Tree::Obj(rest.insert("dataPoints"@, Tree::Arr(points)))))
}

// ---------------------------------------------------------------------------------------------
// Splitting
// ---------------------------------------------------------------------------------------------

proof fn lemma_leaves_prefix(a: Seq<Tree>, b: Seq<Tree>, path: Seq<Seq<char>>, n: int)
    requires
        0 <= n <= a.len(),
    ensures
        leaves_in(a + b, path, n) == leaves_in(a, path, n),
    decreases n,
{
    if n > 0 {
        lemma_leaves_prefix(a, b, path, n - 1);
        assert((a + b)[n - 1] == a[n - 1]);
    }
}

proof fn lemma_leaves_split(a: Seq<Tree>, b: Seq<Tree>, path: Seq<Seq<char>>, n: int)
    requires
        0 <= n <= b.len(),
    ensures
        leaves_in(a + b, path, a.len() + n) == both(
            leaves_in(a, path, a.len() as int),
            leaves_in(b, path, n),
        ),
    decreases n,
{
    if n > 0 {
        lemma_leaves_split(a, b, path, n - 1);
        assert((a + b)[a.len() + n - 1] == b[n - 1]);
        if let (Some(x), Some(y)) = (
            leaves_in(a, path, a.len() as int),
            leaves_in(b, path, n - 1),
        ) {
            if let Some(z) = leaves(b[n - 1], path) {
                assert((x + y) + z =~= x + (y + z));
            }
        }
    } else {
        lemma_leaves_prefix(a, b, path, a.len() as int);
        if let Some(x) = leaves_in(a, path, a.len() as int) {
            assert(x + Seq::<Tree>::empty() =~= x);
        }
    }
}

proof fn lemma_leaves_one(x: Tree, path: Seq<Seq<char>>)
    ensures
        leaves_in(seq![x], path, 1) == leaves(x, path),
{
    assert(leaves_in(seq![x], path, 0) == Some(Seq::<Tree>::empty()));
    if let Some(y) = leaves(x, path) {
        assert(Seq::<Tree>::empty() + y =~= y);
    }
}

proof fn lemma_leaves_holding(key: Seq<char>, v: Seq<Tree>, path: Seq<Seq<char>>)
    requires
        path.len() > 0,
        path[0] == key,
    ensures
        leaves(holding(key, v), path) == leaves_in(v, path.skip(1), v.len() as int),
{
    let m = map![key => Tree::Arr(v)];
    assert(slot(m, key) == Some(Tree::Arr(v)));
}

proof fn lemma_points_prefix(a: Seq<Tree>, b: Seq<Tree>, list: Seq<Seq<char>>, n: int)
    requires
        0 <= n <= a.len(),
    ensures
        all_points(a + b, list, n) == all_points(a, list, n),
    decreases n,
{
    if n > 0 {
        lemma_points_prefix(a, b, list, n - 1);
        assert((a + b)[n - 1] == a[n - 1]);
    }
}

proof fn lemma_points_split(a: Seq<Tree>, b: Seq<Tree>, list: Seq<Seq<char>>, n: int)
    requires
        0 <= n <= b.len(),
    ensures
        all_points(a + b, list, a.len() + n) == both(
            all_points(a, list, a.len() as int),
            all_points(b, list, n),
        ),
    decreases n,
{
    if n > 0 {
        lemma_points_split(a, b, list, n - 1);
        assert((a + b)[a.len() + n - 1] == b[n - 1]);
        if let (Some(x), Some(y)) = (
            all_points(a, list, a.len() as int),
            all_points(b, list, n - 1),
        ) {
            if let Some(z) = metric_points(b[n - 1], list) {
                assert((x + y) + z =~= x + (y + z));
            }
        }
    } else {
        lemma_points_prefix(a, b, list, a.len() as int);
        if let Some(x) = all_points(a, list, a.len() as int) {
            assert(x + Seq::<PointModel>::empty() =~= x);
        }
    }
}

proof fn lemma_data_prefix(a: Seq<Tree>, b: Seq<Tree>, name: Seq<char>, delta: bool, n: int)
    requires
        0 <= n <= a.len(),
    ensures
        points_of(a + b, name, delta, n) == points_of(a, name, delta, n),
    decreases n,
{
    if n > 0 {
        lemma_data_prefix(a, b, name, delta, n - 1);
        assert((a + b)[n - 1] == a[n - 1]);
    }
}

proof fn lemma_data_split(a: Seq<Tree>, b: Seq<Tree>, name: Seq<char>, delta: bool, n: int)
    requires
        0 <= n <= b.len(),
    ensures
        points_of(a + b, name, delta, a.len() + n) == both(
            points_of(a, name, delta, a.len() as int),
            points_of(b, name, delta, n),
        ),
    decreases n,
{
    if n > 0 {
        lemma_data_split(a, b, name, delta, n - 1);
        assert((a + b)[a.len() + n - 1] == b[n - 1]);
        if let (Some(x), Some(y)) = (
            points_of(a, name, delta, a.len() as int),
            points_of(b, name, delta, n - 1),
        ) {
            if let Some(Some(p)) = point_of(b[n - 1], name, delta) {
                assert((x + y).push(p) =~= x + y.push(p));
            }
        }
    } else {
        lemma_data_prefix(a, b, name, delta, a.len() as int);
        if let Some(x) = points_of(a, name, delta, a.len() as int) {
            assert(x + Seq::<PointModel>::empty() =~= x);
        }
    }
}

proof fn lemma_metrics_path()
    ensures
        ({
            let path = seq!["resourceMetrics"@, "scopeMetrics"@, "metrics"@];
            &&& path.skip(1) == seq!["scopeMetrics"@, "metrics"@]
            &&& path.skip(1).skip(1) == seq!["metrics"@]
            &&& path.skip(1).skip(1).skip(1) == Seq::<Seq<char>>::empty()
        }),
{
    let path = seq!["resourceMetrics"@, "scopeMetrics"@, "metrics"@];
    assert(path.skip(1) =~= seq!["scopeMetrics"@, "metrics"@]);
    assert(path.skip(1).skip(1) =~= seq!["metrics"@]);
    assert(path.skip(1).skip(1).skip(1) =~= Seq::<Seq<char>>::empty());
}

/// What a body of two runs of resources says is what the two bodies say, one after the other: no
/// datapoint of a resource is lost beside another.
pub proof fn law_resources_of_metrics_add_up(a: Seq<Tree>, b: Seq<Tree>, list: Seq<Seq<char>>)
    ensures
        body_points(holding("resourceMetrics"@, a + b), list) == both(
            body_points(holding("resourceMetrics"@, a), list),
            body_points(holding("resourceMetrics"@, b), list),
        ),
{
    let path = seq!["resourceMetrics"@, "scopeMetrics"@, "metrics"@];
    lemma_leaves_holding("resourceMetrics"@, a, path);
    lemma_leaves_holding("resourceMetrics"@, b, path);
    lemma_leaves_holding("resourceMetrics"@, a + b, path);
    lemma_leaves_split(a, b, path.skip(1), b.len() as int);
    if let (Some(x), Some(y)) = (
        leaves_in(a, path.skip(1), a.len() as int),
        leaves_in(b, path.skip(1), b.len() as int),
    ) {
        lemma_points_split(x, y, list, y.len() as int);
    }
}

/// The same of the scopes of a resource.
pub proof fn law_scopes_of_metrics_add_up(a: Seq<Tree>, b: Seq<Tree>, list: Seq<Seq<char>>)
    ensures
        ({
            let body = |v: Seq<Tree>| holding("resourceMetrics"@, seq![holding("scopeMetrics"@, v)]);
            body_points(body(a + b), list) == both(
                body_points(body(a), list),
                body_points(body(b), list),
            )
        }),
{
    lemma_metrics_path();
    lemma_scope_leaves(a);
    lemma_scope_leaves(b);
    lemma_scope_leaves(a + b);
    let path = seq!["metrics"@];
    lemma_leaves_split(a, b, path, b.len() as int);
    if let (Some(x), Some(y)) = (
        leaves_in(a, path, a.len() as int),
        leaves_in(b, path, b.len() as int),
    ) {
        lemma_points_split(x, y, list, y.len() as int);
    }
}

proof fn lemma_scope_leaves(v: Seq<Tree>)
    ensures
        leaves(
            holding("resourceMetrics"@, seq![holding("scopeMetrics"@, v)]),
            seq!["resourceMetrics"@, "scopeMetrics"@, "metrics"@],
        ) == leaves_in(v, seq!["metrics"@], v.len() as int),
{
    let path = seq!["resourceMetrics"@, "scopeMetrics"@, "metrics"@];
    lemma_metrics_path();
    let inner = holding("scopeMetrics"@, v);
    lemma_leaves_holding("resourceMetrics"@, seq![inner], path);
    lemma_leaves_one(inner, path.skip(1));
    lemma_leaves_holding("scopeMetrics"@, v, path.skip(1));
}

proof fn lemma_metric_leaves(v: Seq<Tree>)
    ensures
        leaves(
            scope_of_metrics(v),
            seq!["resourceMetrics"@, "scopeMetrics"@, "metrics"@],
        ) == leaves_in(v, Seq::empty(), v.len() as int),
{
    lemma_metrics_path();
    lemma_scope_leaves(seq![holding("metrics"@, v)]);
    lemma_leaves_one(holding("metrics"@, v), seq!["metrics"@]);
    lemma_leaves_holding("metrics"@, v, seq!["metrics"@]);
    assert(seq!["metrics"@].skip(1) =~= Seq::<Seq<char>>::empty());
}

/// The same of the metrics of a scope: the points of every metric are there, those of the earlier
/// metrics first.
pub proof fn law_metrics_of_a_scope_add_up(a: Seq<Tree>, b: Seq<Tree>, list: Seq<Seq<char>>)
    ensures
        body_points(scope_of_metrics(a + b), list) == both(
            body_points(scope_of_metrics(a), list),
            body_points(scope_of_metrics(b), list),
        ),
{
    lemma_metric_leaves(a);
    lemma_metric_leaves(b);
    lemma_metric_leaves(a + b);
    let path = Seq::<Seq<char>>::empty();
    lemma_leaves_split(a, b, path, b.len() as int);
    if let (Some(x), Some(y)) = (
        leaves_in(a, path, a.len() as int),
        leaves_in(b, path, b.len() as int),
    ) {
        lemma_points_split(x, y, list, y.len() as int);
    }
}

proof fn lemma_one_metric(m: Map<Seq<char>, Tree>, list: Seq<Seq<char>>)
    ensures
        body_points(scope_of_metrics(seq![Tree::Obj(m)]), list) == metric_points(
            Tree::Obj(m),
            list,
        ),
{
    let t = Tree::Obj(m);
    lemma_metric_leaves(seq![t]);
    lemma_leaves_one(t, Seq::empty());
    assert(leaves(t, Seq::empty()) == Some(seq![t]));
    assert(all_points(seq![t], list, 0) == Some(Seq::<PointModel>::empty()));
    if let Some(p) = metric_points(t, list) {
        assert(Seq::<PointModel>::empty() + p =~= p);
    }
}

/// The same of the datapoints of a sum, whatever else the metric and the sum hold.
pub proof fn law_datapoints_of_a_sum_add_up(
    metric: Map<Seq<char>, Tree>,
    sum: Map<Seq<char>, Tree>,
    a: Seq<Tree>,
    b: Seq<Tree>,
    list: Seq<Seq<char>>,
)
    ensures
        ({
            let body = |v: Seq<Tree>|
                scope_of_metrics(seq![with_datapoints(metric, "sum"@, sum, v)]);
            body_points(body(a + b), list) == both(
                body_points(body(a), list),
                body_points(body(b), list),
            )
        }),
{
    lemma_sum_points(metric, sum, a, list);
    lemma_sum_points(metric, sum, b, list);
    lemma_sum_points(metric, sum, a + b, list);
    if let Some(full) = metric_name(metric) {
        let delta = slot(sum, "aggregationTemporality"@) matches Some(t) && is_increment(t);
        lemma_data_split(a, b, bare(full), delta, b.len() as int);
        assert(Seq::<PointModel>::empty() + Seq::<PointModel>::empty() =~= Seq::<
            PointModel,
        >::empty());
    }
}

proof fn lemma_shape_names()
    ensures
        "sum"@ != "gauge"@,
        "sum"@ != "name"@,
        "gauge"@ != "name"@,
        "dataPoints"@ != "aggregationTemporality"@,
{
    reveal_strlit("sum");
    reveal_strlit("gauge");
    reveal_strlit("name");
    reveal_strlit("dataPoints");
    reveal_strlit("aggregationTemporality");
    assert("gauge"@.len() == 5 && "name"@.len() == 4 && "sum"@.len() == 3);
    assert("dataPoints"@.len() == 10 && "aggregationTemporality"@.len() == 22);
}

proof fn lemma_sum_points(
    metric: Map<Seq<char>, Tree>,
    sum: Map<Seq<char>, Tree>,
    v: Seq<Tree>,
    list: Seq<Seq<char>>,
)
    ensures
        body_points(scope_of_metrics(seq![with_datapoints(metric, "sum"@, sum, v)]), list) == match (
            metric_name(metric),
            shape_of(metric, "gauge"@, bare(metric_name(metric)->0)),
        ) {
            (Some(full), Some(_)) => {
                let delta = slot(sum, "aggregationTemporality"@) matches Some(t) && is_increment(t);
                match points_of(v, bare(full), delta, v.len() as int) {
                    Some(p) => if wanted(list, bare(full)) {
                        Some(p)
                    } else {
                        Some(Seq::empty())
                    },
                    None => None,
                }
            },
            _ => None,
        },
{
    lemma_shape_names();
    let s = sum.insert("dataPoints"@, Tree::Arr(v));
    let m = metric.insert("sum"@, Tree::Obj(s));
    lemma_one_metric(m, list);
    assert(slot(m, "name"@) == slot(metric, "name"@));
    assert(slot(m, "gauge"@) == slot(metric, "gauge"@));
    assert(slot(m, "sum"@) == Some(Tree::Obj(s)));
    assert(slot(s, "aggregationTemporality"@) == slot(sum, "aggregationTemporality"@));
    assert(slot(s, "dataPoints"@) == Some(Tree::Arr(v)));
    if let Some(full) = metric_name(metric) {
        assert(shape_of(m, "gauge"@, bare(full)) == shape_of(metric, "gauge"@, bare(full)));
    }
}

proof fn lemma_gauge_points(
    metric: Map<Seq<char>, Tree>,
    gauge: Map<Seq<char>, Tree>,
    v: Seq<Tree>,
    list: Seq<Seq<char>>,
)
    requires
        !metric.contains_key("sum"@),
    ensures
        body_points(scope_of_metrics(seq![with_datapoints(metric, "gauge"@, gauge, v)]), list)
            == match metric_name(metric) {
            Some(full) => match points_of(v, bare(full), false, v.len() as int) {
                Some(p) => if wanted(list, bare(full)) {
                    Some(p)
                } else {
                    Some(Seq::empty())
                },
                None => None,
            },
            _ => None,
        },
{
    lemma_shape_names();
    let s = gauge.insert("dataPoints"@, Tree::Arr(v));
    let m = metric.insert("gauge"@, Tree::Obj(s));
    lemma_one_metric(m, list);
    assert(slot(m, "name"@) == slot(metric, "name"@));
    assert(slot(m, "gauge"@) == Some(Tree::Obj(s)));
    assert(slot(m, "sum"@) is None);
    assert(slot(s, "dataPoints"@) == Some(Tree::Arr(v)));
}

/// The same of the datapoints of a gauge, where the metric has no sum.
pub proof fn law_datapoints_of_a_gauge_add_up(
    metric: Map<Seq<char>, Tree>,
    gauge: Map<Seq<char>, Tree>,
    a: Seq<Tree>,
    b: Seq<Tree>,
    list: Seq<Seq<char>>,
)
    requires
        !metric.contains_key("sum"@),
    ensures
        ({
            let body = |v: Seq<Tree>|
                scope_of_metrics(seq![with_datapoints(metric, "gauge"@, gauge, v)]);
            body_points(body(a + b), list) == both(
                body_points(body(a), list),
                body_points(body(b), list),
            )
        }),
{
    lemma_gauge_points(metric, gauge, a, list);
    lemma_gauge_points(metric, gauge, b, list);
    lemma_gauge_points(metric, gauge, a + b, list);
    if let Some(full) = metric_name(metric) {
        lemma_data_split(a, b, bare(full), false, b.len() as int);
        assert(Seq::<PointModel>::empty() + Seq::<PointModel>::empty() =~= Seq::<
            PointModel,
        >::empty());
    }
}

// ---------------------------------------------------------------------------------------------
// Attributes
// ---------------------------------------------------------------------------------------------

/// A list of attributes is read attribute by attribute, in order, and fails as a whole where one of
/// them is malformed.
pub proof fn law_attributes_are_read_one_by_one(a: Seq<Tree>)
    ensures
        attrs_of(a) is Some <==> forall|i: int| 0 <= i < a.len() ==> attr_of(#[trigger] a[i]) is Some,
        attrs_of(a) matches Some(v) ==> v.len() == a.len() && forall|i: int|
            0 <= i < a.len() ==> attr_of(#[trigger] a[i]) == Some(v[i]),
    decreases a.len(),
{
    if a.len() > 0 {
        let front = a.drop_last();
        law_attributes_are_read_one_by_one(front);
        assert forall|i: int| 0 <= i < front.len() implies front[i] == #[trigger] a[i] by {}
        assert(a[a.len() - 1] == a.last());
        if attrs_of(a) is None {
            if attrs_of(front) is None {
                let i = choose|i: int| 0 <= i < front.len() && attr_of(#[trigger] front[i]) is None;
                assert(attr_of(a[i]) is None);
            }
        } else {
            assert forall|i: int| 0 <= i < a.len() implies attr_of(#[trigger] a[i]) is Some by {
                if i < front.len() {
                    assert(attr_of(front[i]) is Some);
                }
            }
        }
    }
}

/// An attribute has the text of its string; else of its integer, quoted or not; else of its double;
/// else of its boolean; and else none.
pub proof fn law_an_attribute_has_the_text_it_says(
    key: Seq<char>,
    value: Map<Seq<char>, Tree>,
    t: Tree,
)
    requires
        t == Tree::Obj(map!["key"@ => Tree::Str(key), "value"@ => Tree::Obj(value)]),
    ensures
        attr_of(t) matches Some(a) ==> a.key == key,
        attr_of(t) is Some && value.contains_key("stringValue"@) ==> (
        value["stringValue"@] matches Tree::Str(s) ==> any_text(attr_of(t)->0.value) == s),
        attr_of(t) is Some && !value.contains_key("stringValue"@) ==> {
            let text = any_text(attr_of(t)->0.value);
            &&& value.contains_key("intValue"@) ==> (value["intValue"@] matches Tree::Str(s) ==> text
                == s)
            &&& value.contains_key("intValue"@) && value["intValue"@] is Num ==> text
                == compact_text(value["intValue"@])
            &&& !value.contains_key("intValue"@) && !value.contains_key("doubleValue"@) ==> {
                &&& value.contains_key("boolValue"@) && value["boolValue"@] == Tree::Bool(true)
                    ==> text == "true"@
                &&& value.contains_key("boolValue"@) && value["boolValue"@] == Tree::Bool(false)
                    ==> text == "false"@
                &&& !value.contains_key("boolValue"@) ==> text.len() == 0
            }
        },
        (forall|k: Seq<char>| #[trigger] value.contains_key(k) ==> k == "stringValue"@ || k
            == "intValue"@) && (value.contains_key("stringValue"@) ==> value["stringValue"@] is Str)
            ==> attr_of(t) is Some,
{
    reveal_strlit("key");
    reveal_strlit("value");
    reveal_strlit("stringValue");
    reveal_strlit("intValue");
    reveal_strlit("doubleValue");
    reveal_strlit("boolValue");
    assert("key"@.len() == 3 && "value"@.len() == 5 && "stringValue"@.len() == 11
        && "intValue"@.len() == 8 && "doubleValue"@.len() == 11 && "boolValue"@.len() == 9);
    assert("doubleValue"@[0] == 'd' && "stringValue"@[0] == 's');
    let m = map!["key"@ => Tree::Str(key), "value"@ => Tree::Obj(value)];
    assert(slot(m, "key"@) == Some(Tree::Str(key)));
    assert(slot(m, "value"@) == Some(Tree::Obj(value)));
}

/// A name is asked for with its prefix or without, and decoded without it.
pub proof fn law_a_prefix_makes_no_difference(name: Seq<char>, list: Seq<Seq<char>>)
    ensures
        bare("claude_code."@ + name) == name,
        !"claude_code."@.is_prefix_of(name) ==> bare(name) == name,
        list.contains("claude_code."@ + name) ==> wanted(list, name),
        !"claude_code."@.is_prefix_of(name) && list.contains(name) ==> wanted(list, name),
        wanted(list, name) ==> list.contains("claude_code."@ + name) || list.contains(name),
{
    let p = "claude_code."@;
    assert((p + name).skip(p.len() as int) =~= name);
    assert(p.is_prefix_of(p + name)) by {
        assert((p + name).subrange(0, p.len() as int) =~= p);
    }
    if list.contains(p + name) {
        let i = list.index_of(p + name);
        assert(bare(list[i]) == name);
    }
    if !p.is_prefix_of(name) && list.contains(name) {
        let i = list.index_of(name);
        assert(bare(list[i]) == name);
    }
    if wanted(list, name) {
        let i = choose|i: int| 0 <= i < list.len() && bare(#[trigger] list[i]) == name;
        if p.is_prefix_of(list[i]) {
            assert(p + list[i].skip(p.len() as int) =~= list[i]);
            assert(list.contains(list[i]));
        } else {
            assert(list.contains(list[i]));
        }
    }
}

// ---------------------------------------------------------------------------------------------
// Datapoints
// ---------------------------------------------------------------------------------------------

/// The first attribute with a key stands at `k`.
pub open spec fn first_at_key(attrs: Seq<AttrModel>, key: Seq<char>, k: int) -> bool {
    &&& 0 <= k < attrs.len()
    &&& attrs[k].key == key
    &&& forall|j: int| 0 <= j < k ==> (#[trigger] attrs[j]).key != key
}

/// The last attribute with a key stands at `k`.
pub open spec fn last_at_key(attrs: Seq<AttrModel>, key: Seq<char>, k: int) -> bool {
    &&& 0 <= k < attrs.len()
    &&& attrs[k].key == key
    &&& forall|j: int| k < j < attrs.len() ==> (#[trigger] attrs[j]).key != key
}

/// No attribute has a key.
pub open spec fn lacks_key(attrs: Seq<AttrModel>, key: Seq<char>) -> bool {
    forall|j: int| 0 <= j < attrs.len() ==> (#[trigger] attrs[j]).key != key
}

/// Keys and texts of attributes.
pub open spec fn texts(attrs: Seq<AttrModel>) -> Seq<(Seq<char>, Seq<char>)> {
    attrs.map_values(|a: AttrModel| (a.key, any_text(a.value)))
}

proof fn lemma_first_key(attrs: Seq<AttrModel>, key: Seq<char>, k: int)
    requires
        first_at_key(attrs, key, k),
    ensures
        first_key(attrs, key) == k,
    decreases attrs.len(),
{
    if k > 0 {
        assert(attrs[0].key != key);
        let rest = attrs.skip(1);
        assert(rest[k - 1] == attrs[k]);
        assert forall|j: int| 0 <= j < k - 1 implies (#[trigger] rest[j]).key != key by {
            assert(rest[j] == attrs[j + 1]);
        }
        lemma_first_key(rest, key, k - 1);
    }
}

proof fn lemma_no_key(attrs: Seq<AttrModel>, key: Seq<char>)
    requires
        lacks_key(attrs, key),
    ensures
        first_key(attrs, key) == attrs.len(),
        last_value(attrs, key) is None,
    decreases attrs.len(),
{
    if attrs.len() > 0 {
        assert(attrs[0].key != key);
        assert(attrs[attrs.len() - 1].key != key);
        let rest = attrs.skip(1);
        assert forall|j: int| 0 <= j < rest.len() implies (#[trigger] rest[j]).key != key by {
            assert(rest[j] == attrs[j + 1]);
        }
        lemma_no_key(rest, key);
        let front = attrs.drop_last();
        assert forall|j: int| 0 <= j < front.len() implies (#[trigger] front[j]).key != key by {
            assert(front[j] == attrs[j]);
        }
        lemma_no_key(front, key);
    }
}

proof fn lemma_last_value(attrs: Seq<AttrModel>, key: Seq<char>, k: int)
    requires
        last_at_key(attrs, key, k),
    ensures
        last_value(attrs, key) == Some(attrs[k].value),
    decreases attrs.len(),
{
    if k < attrs.len() - 1 {
        assert(attrs[attrs.len() - 1].key != key);
        let front = attrs.drop_last();
        assert forall|j: int| k < j < front.len() implies (#[trigger] front[j]).key != key by {
            assert(front[j] == attrs[j]);
        }
        lemma_last_value(front, key, k);
    }
}

proof fn lemma_texts_without(attrs: Seq<AttrModel>, at: int, n: int)
    requires
        0 <= at < attrs.len(),
        0 <= n <= attrs.len(),
    ensures
        texts_without(attrs, at, n) == if n <= at {
            texts(attrs.take(n))
        } else {
            texts(attrs.take(n).remove(at))
        },
    decreases n,
{
    if n > 0 {
        lemma_texts_without(attrs, at, n - 1);
        let got = texts_without(attrs, at, n);
        if n <= at {
            assert(got =~= texts(attrs.take(n)));
        } else if n - 1 == at {
            assert(attrs.take(n).remove(at) =~= attrs.take(n - 1));
        } else {
            assert(attrs.take(n).remove(at) =~= attrs.take(n - 1).remove(at).push(attrs[n - 1]));
            assert(got =~= texts(attrs.take(n).remove(at)));
        }
    } else {
        assert(texts(attrs.take(0)) =~= Seq::<(Seq<char>, Seq<char>)>::empty());
    }
}

/// Pairs in order: none stands behind one that it comes before.
pub open spec fn in_pair_order(s: Seq<(Seq<char>, Seq<char>)>) -> bool {
    forall|i: int, j: int| 0 <= i < j < s.len() ==> !pair_before(#[trigger] s[j], #[trigger] s[i])
}

proof fn lemma_pair_total(a: (Seq<char>, Seq<char>), b: (Seq<char>, Seq<char>))
    ensures
        a == b || pair_before(a, b) || pair_before(b, a),
        pair_before(a, b) ==> !pair_before(b, a),
{
    crate::order::lemma_total(a.0, b.0);
    crate::order::lemma_total(a.1, b.1);
    crate::order::lemma_irreflexive(a.0);
    crate::order::lemma_irreflexive(a.1);
    if crate::order::before(a.0, b.0) && crate::order::before(b.0, a.0) {
        crate::order::lemma_transitive(a.0, b.0, a.0);
    }
    if crate::order::before(a.1, b.1) && crate::order::before(b.1, a.1) {
        crate::order::lemma_transitive(a.1, b.1, a.1);
    }
}

proof fn lemma_pair_transitive(
    a: (Seq<char>, Seq<char>),
    b: (Seq<char>, Seq<char>),
    c: (Seq<char>, Seq<char>),
)
    requires
        !pair_before(b, a),
        !pair_before(c, b),
    ensures
        !pair_before(c, a),
{
    lemma_pair_total(a, b);
    lemma_pair_total(b, c);
    lemma_pair_total(a, c);
    if pair_before(a, b) && pair_before(b, c) {
        if crate::order::before(a.0, b.0) && crate::order::before(b.0, c.0) {
            crate::order::lemma_transitive(a.0, b.0, c.0);
        }
        if crate::order::before(a.1, b.1) && crate::order::before(b.1, c.1) {
            crate::order::lemma_transitive(a.1, b.1, c.1);
        }
    }
}

proof fn lemma_position(s: Seq<(Seq<char>, Seq<char>)>, p: (Seq<char>, Seq<char>))
    ensures
        0 <= pair_position(s, p) <= s.len(),
        forall|i: int| 0 <= i < pair_position(s, p) ==> !pair_before(p, #[trigger] s[i]),
        pair_position(s, p) < s.len() ==> pair_before(p, s[pair_position(s, p)]),
    decreases s.len(),
{
    if s.len() > 0 && !pair_before(p, s[0]) {
        let rest = s.skip(1);
        lemma_position(rest, p);
        assert forall|i: int| 0 <= i < pair_position(s, p) implies !pair_before(
            p,
            #[trigger] s[i],
        ) by {
            if i > 0 {
                assert(rest[i - 1] == s[i]);
            }
        }
    }
}

/// Ordering the pairs of a series drops none, adds none and leaves them in order.
pub proof fn law_ordering_a_series_keeps_its_pairs(s: Seq<(Seq<char>, Seq<char>)>)
    ensures
        sorted_pairs(s).to_multiset() == s.to_multiset(),
        in_pair_order(sorted_pairs(s)),
    decreases s.len(),
{
    if s.len() > 0 {
        let front = s.drop_last();
        let rest = sorted_pairs(front);
        let p = s.last();
        law_ordering_a_series_keeps_its_pairs(front);
        lemma_position(rest, p);
        let at = pair_position(rest, p);
        vstd::seq_lib::to_multiset_insert(rest, at, p);
        vstd::seq_lib::to_multiset_build(front, p);
        assert(front.push(p) =~= s);
        let all = rest.insert(at, p);
        assert forall|i: int, j: int| 0 <= i < j < all.len() implies !pair_before(
            #[trigger] all[j],
            #[trigger] all[i],
        ) by {
            let x = if i < at { i } else { i - 1 };
            let y = if j < at { j } else { j - 1 };
            if i == at {
                lemma_pair_total(p, rest[at]);
                if y > at {
                    assert(!pair_before(rest[y], rest[at]));
                    lemma_pair_transitive(p, rest[at], rest[y]);
                }
            } else if j != at {
                assert(all[i] == rest[x] && all[j] == rest[y]);
            }
        }
    }
}

/// A datapoint that names a session is decoded as what it says: the session is that of its first
/// `session.id`; the series is every other attribute, none lost and in order; and the value is its
/// integer, else its double.
pub proof fn law_a_datapoint_is_what_it_says(
    point: Map<Seq<char>, Tree>,
    list: Seq<Tree>,
    attrs: Seq<AttrModel>,
    k: int,
    name: Seq<char>,
    delta: bool,
)
    requires
        point.contains_key("attributes"@),
        point["attributes"@] == Tree::Arr(list),
        attrs_of(list) == Some(attrs),
        first_at_key(attrs, "session.id"@, k),
        any_text(attrs[k].value).len() > 0,
        point.contains_key("asDouble"@) ==> point["asDouble"@] is Num,
    ensures
        point_of(Tree::Obj(point), name, delta) matches Some(Some(p)) && {
            &&& p.name == name
            &&& p.delta == delta
            &&& p.session == any_text(attrs[k].value)
            &&& p.series.to_multiset() == texts(attrs.remove(k)).to_multiset()
            &&& in_pair_order(p.series)
            &&& point.contains_key("asInt"@) ==> (point["asInt"@] matches Tree::Str(s) ==> p.value
                == ReadingModel::Text(s))
            &&& point.contains_key("asInt"@) ==> (point["asInt"@] matches Tree::Num(s) ==> p.value
                == ReadingModel::Number(s))
            &&& !point.contains_key("asInt"@) && point.contains_key("asDouble"@) ==> Tree::Num(
                p.value->Number_0,
            ) == point["asDouble"@] && p.value is Number
            &&& !point.contains_key("asInt"@) && !point.contains_key("asDouble"@) ==> p.value
                is Nothing
        },
{
    reveal_strlit("attributes");
    reveal_strlit("asInt");
    reveal_strlit("asDouble");
    lemma_first_key(attrs, "session.id"@, k);
    lemma_texts_without(attrs, k, attrs.len() as int);
    assert(attrs.take(attrs.len() as int) =~= attrs);
    law_ordering_a_series_keeps_its_pairs(texts(attrs.remove(k)));
}

/// A datapoint that names no session is left out, and fails nothing.
pub proof fn law_a_datapoint_without_a_session_is_left_out(
    point: Map<Seq<char>, Tree>,
    list: Seq<Tree>,
    attrs: Seq<AttrModel>,
    name: Seq<char>,
    delta: bool,
)
    requires
        point.contains_key("attributes"@),
        point["attributes"@] == Tree::Arr(list),
        attrs_of(list) == Some(attrs),
        lacks_key(attrs, "session.id"@),
        point.contains_key("asDouble"@) ==> point["asDouble"@] is Num,
    ensures
        point_of(Tree::Obj(point), name, delta) == Some(None::<PointModel>),
{
    lemma_no_key(attrs, "session.id"@);
}

/// A body with one datapoint of a sum gives that datapoint, under the metric's name; and as an
/// increment exactly where the sum is a delta.
pub proof fn law_one_datapoint_of_a_sum(
    full: Seq<char>,
    temporality: Tree,
    point: Tree,
    list: Seq<Seq<char>>,
)
    requires
        list.contains(full),
    ensures
        ({
            let metric = map!["name"@ => Tree::Str(full)];
            let sum = map!["aggregationTemporality"@ => temporality];
            let body = scope_of_metrics(seq![with_datapoints(metric, "sum"@, sum, seq![point])]);
            let delta = temporality == Tree::Num("1"@) || temporality == Tree::Str("1"@)
                || temporality == Tree::Str("AGGREGATION_TEMPORALITY_DELTA"@);
            body_points(body, list) == match point_of(point, bare(full), delta) {
                Some(Some(p)) => Some(seq![p]),
                Some(None) => Some(Seq::empty()),
                None => None,
            }
        }),
{
    lemma_shape_names();
    let metric = map!["name"@ => Tree::Str(full)];
    let sum = map!["aggregationTemporality"@ => temporality];
    lemma_sum_points(metric, sum, seq![point], list);
    assert(slot(metric, "name"@) == Some(Tree::Str(full)));
    assert(slot(metric, "gauge"@) is None);
    assert(slot(sum, "aggregationTemporality"@) == Some(temporality));
    assert(bare(list[list.index_of(full)]) == bare(full));
    let delta = is_increment(temporality);
    assert(points_of(seq![point], bare(full), delta, 0) == Some(Seq::<PointModel>::empty()));
    if let Some(Some(p)) = point_of(point, bare(full), delta) {
        assert(Seq::<PointModel>::empty().push(p) =~= seq![p]);
    }
}

/// A body with one datapoint of a gauge gives that datapoint, never as an increment.
pub proof fn law_one_datapoint_of_a_gauge(full: Seq<char>, point: Tree, list: Seq<Seq<char>>)
    requires
        list.contains(full),
    ensures
        ({
            let metric = map!["name"@ => Tree::Str(full)];
            let body = scope_of_metrics(
                seq![with_datapoints(metric, "gauge"@, Map::empty(), seq![point])],
            );
            body_points(body, list) == match point_of(point, bare(full), false) {
                Some(Some(p)) => Some(seq![p]),
                Some(None) => Some(Seq::empty()),
                None => None,
            }
        }),
{
    lemma_shape_names();
    let metric = map!["name"@ => Tree::Str(full)];
    lemma_gauge_points(metric, Map::empty(), seq![point], list);
    assert(slot(metric, "name"@) == Some(Tree::Str(full)));
    assert(bare(list[list.index_of(full)]) == bare(full));
    assert(points_of(seq![point], bare(full), false, 0) == Some(Seq::<PointModel>::empty()));
    if let Some(Some(p)) = point_of(point, bare(full), false) {
        assert(Seq::<PointModel>::empty().push(p) =~= seq![p]);
    }
}

// ---------------------------------------------------------------------------------------------
// Logs
// ---------------------------------------------------------------------------------------------

/// Two readings of logs, one after the other.
pub open spec fn both_logs(a: Option<LogsModel>, b: Option<LogsModel>) -> Option<LogsModel> {
    match (a, b) {
        (Some(x), Some(y)) => Some(
            LogsModel { events: x.events + y.events, tools: x.tools + y.tools },
        ),
        _ => None,
    }
}

proof fn lemma_records_prefix(a: Seq<Tree>, b: Seq<Tree>, list: Seq<Seq<char>>, n: int)
    requires
        0 <= n <= a.len(),
    ensures
        all_records(a + b, list, n) == all_records(a, list, n),
    decreases n,
{
    if n > 0 {
        lemma_records_prefix(a, b, list, n - 1);
        assert((a + b)[n - 1] == a[n - 1]);
    }
}

proof fn lemma_records_split(a: Seq<Tree>, b: Seq<Tree>, list: Seq<Seq<char>>, n: int)
    requires
        0 <= n <= b.len(),
    ensures
        all_records(a + b, list, a.len() + n) == both_logs(
            all_records(a, list, a.len() as int),
            all_records(b, list, n),
        ),
    decreases n,
{
    if n > 0 {
        lemma_records_split(a, b, list, n - 1);
        assert((a + b)[a.len() + n - 1] == b[n - 1]);
        if let (Some(x), Some(y)) = (
            all_records(a, list, a.len() as int),
            all_records(b, list, n - 1),
        ) {
            if let Some(attrs) = record_attrs(b[n - 1]) {
                if let Some(e) = counted_event(attrs, list) {
                    assert((x.events + y.events).push(e) =~= x.events + y.events.push(e));
                }
                if let Some(t) = tool_outcome(attrs) {
                    assert((x.tools + y.tools).push(t) =~= x.tools + y.tools.push(t));
                }
            }
        }
    } else {
        lemma_records_prefix(a, b, list, a.len() as int);
        if let Some(x) = all_records(a, list, a.len() as int) {
            assert(x.events + Seq::<(Seq<char>, Seq<char>)>::empty() =~= x.events);
            assert(x.tools + Seq::<ToolModel>::empty() =~= x.tools);
        }
    }
}

proof fn lemma_logs_path()
    ensures
        ({
            let path = seq!["resourceLogs"@, "scopeLogs"@, "logRecords"@];
            &&& path.skip(1) == seq!["scopeLogs"@, "logRecords"@]
            &&& path.skip(1).skip(1) == seq!["logRecords"@]
            &&& seq!["logRecords"@].skip(1) == Seq::<Seq<char>>::empty()
        }),
{
    let path = seq!["resourceLogs"@, "scopeLogs"@, "logRecords"@];
    assert(path.skip(1) =~= seq!["scopeLogs"@, "logRecords"@]);
    assert(path.skip(1).skip(1) =~= seq!["logRecords"@]);
    assert(seq!["logRecords"@].skip(1) =~= Seq::<Seq<char>>::empty());
}

proof fn lemma_log_scope_leaves(v: Seq<Tree>)
    ensures
        leaves(
            holding("resourceLogs"@, seq![holding("scopeLogs"@, v)]),
            seq!["resourceLogs"@, "scopeLogs"@, "logRecords"@],
        ) == leaves_in(v, seq!["logRecords"@], v.len() as int),
{
    let path = seq!["resourceLogs"@, "scopeLogs"@, "logRecords"@];
    lemma_logs_path();
    let inner = holding("scopeLogs"@, v);
    lemma_leaves_holding("resourceLogs"@, seq![inner], path);
    lemma_leaves_one(inner, path.skip(1));
    lemma_leaves_holding("scopeLogs"@, v, path.skip(1));
}

proof fn lemma_record_leaves(v: Seq<Tree>)
    ensures
        leaves(
            scope_of_records(v),
            seq!["resourceLogs"@, "scopeLogs"@, "logRecords"@],
        ) == leaves_in(v, Seq::empty(), v.len() as int),
{
    lemma_logs_path();
    lemma_log_scope_leaves(seq![holding("logRecords"@, v)]);
    lemma_leaves_one(holding("logRecords"@, v), seq!["logRecords"@]);
    lemma_leaves_holding("logRecords"@, v, seq!["logRecords"@]);
}

/// What a logs body of two runs of resources says is what the two bodies say, one after the other.
pub proof fn law_resources_of_logs_add_up(a: Seq<Tree>, b: Seq<Tree>, list: Seq<Seq<char>>)
    ensures
        body_logs(holding("resourceLogs"@, a + b), list) == both_logs(
            body_logs(holding("resourceLogs"@, a), list),
            body_logs(holding("resourceLogs"@, b), list),
        ),
{
    let path = seq!["resourceLogs"@, "scopeLogs"@, "logRecords"@];
    lemma_leaves_holding("resourceLogs"@, a, path);
    lemma_leaves_holding("resourceLogs"@, b, path);
    lemma_leaves_holding("resourceLogs"@, a + b, path);
    lemma_leaves_split(a, b, path.skip(1), b.len() as int);
    if let (Some(x), Some(y)) = (
        leaves_in(a, path.skip(1), a.len() as int),
        leaves_in(b, path.skip(1), b.len() as int),
    ) {
        lemma_records_split(x, y, list, y.len() as int);
    }
}

/// The same of the scopes of a resource.
pub proof fn law_scopes_of_logs_add_up(a: Seq<Tree>, b: Seq<Tree>, list: Seq<Seq<char>>)
    ensures
        ({
            let body = |v: Seq<Tree>| holding("resourceLogs"@, seq![holding("scopeLogs"@, v)]);
            body_logs(body(a + b), list) == both_logs(
                body_logs(body(a), list),
                body_logs(body(b), list),
            )
        }),
{
    lemma_logs_path();
    lemma_log_scope_leaves(a);
    lemma_log_scope_leaves(b);
    lemma_log_scope_leaves(a + b);
    let path = seq!["logRecords"@];
    lemma_leaves_split(a, b, path, b.len() as int);
    if let (Some(x), Some(y)) = (
        leaves_in(a, path, a.len() as int),
        leaves_in(b, path, b.len() as int),
    ) {
        lemma_records_split(x, y, list, y.len() as int);
    }
}

/// The same of the records of a scope: every record is looked at, wherever it stands.
pub proof fn law_records_of_a_scope_add_up(a: Seq<Tree>, b: Seq<Tree>, list: Seq<Seq<char>>)
    ensures
        body_logs(scope_of_records(a + b), list) == both_logs(
            body_logs(scope_of_records(a), list),
            body_logs(scope_of_records(b), list),
        ),
{
    lemma_record_leaves(a);
    lemma_record_leaves(b);
    lemma_record_leaves(a + b);
    let path = Seq::<Seq<char>>::empty();
    lemma_leaves_split(a, b, path, b.len() as int);
    if let (Some(x), Some(y)) = (
        leaves_in(a, path, a.len() as int),
        leaves_in(b, path, b.len() as int),
    ) {
        lemma_records_split(x, y, list, y.len() as int);
    }
}

/// A record counts an event for its session where it names both and the event is asked for: those of
/// its last `session.id` and `event.name`.
pub proof fn law_one_record_counts_its_event(
    record: Map<Seq<char>, Tree>,
    list: Seq<Tree>,
    attrs: Seq<AttrModel>,
    session: int,
    event: int,
    asked: Seq<Seq<char>>,
)
    requires
        record.contains_key("attributes"@),
        record["attributes"@] == Tree::Arr(list),
        attrs_of(list) == Some(attrs),
        last_at_key(attrs, "session.id"@, session),
        any_text(attrs[session].value).len() > 0,
        last_at_key(attrs, "event.name"@, event),
    ensures
        body_logs(scope_of_records(seq![Tree::Obj(record)]), asked) matches Some(logs)
            && logs.events == if wanted(asked, bare(any_text(attrs[event].value))) {
            seq![(any_text(attrs[session].value), bare(any_text(attrs[event].value)))]
        } else {
            Seq::empty()
        },
{
    lemma_last_value(attrs, "session.id"@, session);
    lemma_last_value(attrs, "event.name"@, event);
    lemma_one_record(record, list, attrs, asked);
}

proof fn lemma_one_record(
    record: Map<Seq<char>, Tree>,
    list: Seq<Tree>,
    attrs: Seq<AttrModel>,
    asked: Seq<Seq<char>>,
)
    requires
        record.contains_key("attributes"@),
        record["attributes"@] == Tree::Arr(list),
        attrs_of(list) == Some(attrs),
    ensures
        body_logs(scope_of_records(seq![Tree::Obj(record)]), asked) == Some(
            LogsModel {
                events: match counted_event(attrs, asked) {
                    Some(e) => seq![e],
                    None => Seq::empty(),
                },
                tools: match tool_outcome(attrs) {
                    Some(t) => seq![t],
                    None => Seq::empty(),
                },
            },
        ),
{
    let t = Tree::Obj(record);
    lemma_record_leaves(seq![t]);
    lemma_leaves_one(t, Seq::empty());
    assert(leaves(t, Seq::empty()) == Some(seq![t]));
    assert(all_records(seq![t], asked, 0) == Some(
        LogsModel { events: Seq::empty(), tools: Seq::empty() },
    ));
    assert(record_attrs(t) == Some(attrs));
    if let Some(e) = counted_event(attrs, asked) {
        assert(Seq::<(Seq<char>, Seq<char>)>::empty().push(e) =~= seq![e]);
    }
    if let Some(x) = tool_outcome(attrs) {
        assert(Seq::<ToolModel>::empty().push(x) =~= seq![x]);
    }
}

/// A record of a tool's result gives its outcome: the session, the tool and the duration it names,
/// and failure exactly where its `success` says something else than true.
pub proof fn law_one_record_reports_its_outcome(
    record: Map<Seq<char>, Tree>,
    list: Seq<Tree>,
    attrs: Seq<AttrModel>,
    session: int,
    event: int,
    tool: int,
    asked: Seq<Seq<char>>,
)
    requires
        record.contains_key("attributes"@),
        record["attributes"@] == Tree::Arr(list),
        attrs_of(list) == Some(attrs),
        last_at_key(attrs, "session.id"@, session),
        last_at_key(attrs, "event.name"@, event),
        last_at_key(attrs, "tool_name"@, tool),
        any_text(attrs[session].value).len() > 0,
        any_text(attrs[tool].value).len() > 0,
        bare(any_text(attrs[event].value)) == "tool_result"@,
    ensures
        body_logs(scope_of_records(seq![Tree::Obj(record)]), asked) matches Some(logs)
            && logs.tools.len() == 1 && {
            let out = logs.tools[0];
            &&& out.session == any_text(attrs[session].value)
            &&& out.tool == any_text(attrs[tool].value)
            &&& lacks_key(attrs, "success"@) ==> out.ok
            &&& forall|k: int| #[trigger]
                last_at_key(attrs, "success"@, k) ==> out.ok == (attrs[k].value.boolean == Some(true)
                    || (attrs[k].value.boolean is None && attrs[k].value.string == Some("true"@)))
            &&& lacks_key(attrs, "duration_ms"@) ==> out.duration is Nothing
            &&& forall|k: int| #[trigger]
                last_at_key(attrs, "duration_ms"@, k) ==> {
                    let v = attrs[k].value;
                    &&& v.int matches Some(Tree::Num(s)) ==> out.duration == ReadingModel::Number(s)
                    &&& v.int matches Some(Tree::Str(s)) ==> out.duration == ReadingModel::Text(s)
                    &&& v.int is None && v.double is Some ==> out.duration == ReadingModel::Number(
                        v.double->0,
                    )
                    &&& v.int is None && v.double is None && v.string is Some ==> out.duration
                        == ReadingModel::Text(v.string->0)
                }
        },
{
    lemma_last_value(attrs, "session.id"@, session);
    lemma_last_value(attrs, "event.name"@, event);
    lemma_last_value(attrs, "tool_name"@, tool);
    lemma_one_record(record, list, attrs, asked);
    if lacks_key(attrs, "success"@) {
        lemma_no_key(attrs, "success"@);
    }
    if lacks_key(attrs, "duration_ms"@) {
        lemma_no_key(attrs, "duration_ms"@);
    }
    assert forall|k: int| #[trigger] last_at_key(attrs, "success"@, k) implies last_value(
        attrs,
        "success"@,
    ) == Some(attrs[k].value) by {
        lemma_last_value(attrs, "success"@, k);
    }
    assert forall|k: int| #[trigger] last_at_key(attrs, "duration_ms"@, k) implies last_value(
        attrs,
        "duration_ms"@,
    ) == Some(attrs[k].value) by {
        lemma_last_value(attrs, "duration_ms"@, k);
    }
}

/// A record of anything else, or without a session or a tool, reports no outcome.
pub proof fn law_only_a_tool_result_reports_an_outcome(attrs: Seq<AttrModel>)
    ensures
        tool_outcome(attrs) is Some ==> bare(last_text(attrs, "event.name"@)) == "tool_result"@
            && last_text(attrs, "session.id"@).len() > 0 && last_text(attrs, "tool_name"@).len() > 0,
        lacks_key(attrs, "session.id"@) ==> tool_outcome(attrs) is None && forall|
            asked: Seq<Seq<char>>,
        |
            (#[trigger] counted_event(attrs, asked)) is None,
        lacks_key(attrs, "tool_name"@) ==> tool_outcome(attrs) is None,
        lacks_key(attrs, "event.name"@) ==> tool_outcome(attrs) is None,
{
    reveal_strlit("tool_result");
    reveal_strlit("claude_code.");
    if lacks_key(attrs, "session.id"@) {
        lemma_no_key(attrs, "session.id"@);
    }
    if lacks_key(attrs, "tool_name"@) {
        lemma_no_key(attrs, "tool_name"@);
    }
    if lacks_key(attrs, "event.name"@) {
        lemma_no_key(attrs, "event.name"@);
        assert("tool_result"@.len() == 11);
    }
}

// ---------------------------------------------------------------------------------------------
// Bodies as they arrive
// ---------------------------------------------------------------------------------------------

proof fn lemma_shaped_holding(key: &'static str, v: Seq<Tree>, item: Shape)
    ensures
        shaped(holding(key@, v), listed_shape(key, item, Shape::End)) == holding(
            key@,
            items_shaped(v, item),
        ),
{
    let m = map![key@ => Tree::Arr(v)];
    let s = listed_shape(key, item, Shape::End);
    assert(fields_shaped(m, Shape::End) == m);
    assert(shaped(Tree::Arr(v), Shape::List(Box::new(item))) == Tree::Arr(items_shaped(v, item)));
    assert(fields_shaped(m, s) == m.insert(key@, Tree::Arr(items_shaped(v, item))));
    assert(m.insert(key@, Tree::Arr(items_shaped(v, item))) =~= map![
        key@ => Tree::Arr(items_shaped(v, item)),
    ]);
}

proof fn lemma_shaped_nested(
    outer: &'static str,
    middle: &'static str,
    inner: &'static str,
    leaf: Shape,
    v: Seq<Tree>,
)
    ensures
        shaped(
            holding(outer@, seq![holding(middle@, seq![holding(inner@, v)])]),
            nested_shape(outer, middle, inner, leaf),
        ) == holding(
            outer@,
            seq![holding(middle@, seq![holding(inner@, items_shaped(v, leaf))])],
        ),
{
    let scope = listed_shape(inner, leaf, Shape::End);
    let resource = listed_shape(middle, scope, Shape::End);
    let x = holding(inner@, v);
    let y = holding(middle@, seq![x]);
    lemma_shaped_holding(inner, v, leaf);
    lemma_shaped_holding(middle, seq![x], scope);
    lemma_shaped_holding(outer, seq![y], resource);
    assert(items_shaped(seq![x], scope) =~= seq![shaped(x, scope)]);
    assert(items_shaped(seq![y], resource) =~= seq![shaped(y, resource)]);
}

/// A metrics body whose records are objects is decoded as what it says; what is not JSON, or not a
/// body, is an error and never an empty batch.
pub proof fn law_a_metrics_body_is_decoded(bytes: Seq<u8>, list: Seq<Seq<char>>)
    ensures
        parsed_bytes(bytes) is Err ==> decoded_points(bytes, list) is Err,
        parsed_bytes(bytes) matches Ok(t) ==> in_shape(t, metrics_shape()) ==> (match body_points(
            t,
            list,
        ) {
            Some(p) => decoded_points(bytes, list) == Ok::<Seq<PointModel>, Seq<char>>(p),
            None => decoded_points(bytes, list) is Err,
        }),
{
    if let Ok(t) = parsed_bytes(bytes) {
        if in_shape(t, metrics_shape()) {
            law_shaping_keeps_objects(t, metrics_shape());
        }
    }
}

/// The same of a logs body.
pub proof fn law_a_logs_body_is_decoded(bytes: Seq<u8>, list: Seq<Seq<char>>)
    ensures
        parsed_bytes(bytes) is Err ==> decoded_logs(bytes, list) is Err,
        parsed_bytes(bytes) matches Ok(t) ==> in_shape(t, logs_shape()) ==> (match body_logs(t, list) {
            Some(p) => decoded_logs(bytes, list) == Ok::<LogsModel, Seq<char>>(p),
            None => decoded_logs(bytes, list) is Err,
        }),
{
    if let Ok(t) = parsed_bytes(bytes) {
        if in_shape(t, logs_shape()) {
            law_shaping_keeps_objects(t, logs_shape());
        }
    }
}

/// The datapoints decoded from a body are those of its metrics, none lost: a body with the metrics of
/// two others gives the points of the first and then those of the second.
pub proof fn law_no_datapoint_of_a_body_is_lost(
    first: Seq<u8>,
    second: Seq<u8>,
    whole: Seq<u8>,
    a: Seq<Tree>,
    b: Seq<Tree>,
    list: Seq<Seq<char>>,
)
    requires
        parsed_bytes(first) == Ok::<Tree, Seq<char>>(scope_of_metrics(a)),
        parsed_bytes(second) == Ok::<Tree, Seq<char>>(scope_of_metrics(b)),
        parsed_bytes(whole) == Ok::<Tree, Seq<char>>(scope_of_metrics(a + b)),
    ensures
        match (decoded_points(first, list), decoded_points(second, list)) {
            (Ok(x), Ok(y)) => decoded_points(whole, list) == Ok::<Seq<PointModel>, Seq<char>>(x + y),
            _ => decoded_points(whole, list) is Err,
        },
{
    let leaf = choose|leaf: Shape|
        metrics_shape() == #[trigger] nested_shape(
            "resourceMetrics",
            "scopeMetrics",
            "metrics",
            leaf,
        );
    lemma_shaped_nested("resourceMetrics", "scopeMetrics", "metrics", leaf, a);
    lemma_shaped_nested("resourceMetrics", "scopeMetrics", "metrics", leaf, b);
    lemma_shaped_nested("resourceMetrics", "scopeMetrics", "metrics", leaf, a + b);
    assert(items_shaped(a + b, leaf) =~= items_shaped(a, leaf) + items_shaped(b, leaf));
    law_metrics_of_a_scope_add_up(items_shaped(a, leaf), items_shaped(b, leaf), list);
}

/// The same of the records of a logs body.
pub proof fn law_no_record_of_a_body_is_lost(
    first: Seq<u8>,
    second: Seq<u8>,
    whole: Seq<u8>,
    a: Seq<Tree>,
    b: Seq<Tree>,
    list: Seq<Seq<char>>,
)
    requires
        parsed_bytes(first) == Ok::<Tree, Seq<char>>(scope_of_records(a)),
        parsed_bytes(second) == Ok::<Tree, Seq<char>>(scope_of_records(b)),
        parsed_bytes(whole) == Ok::<Tree, Seq<char>>(scope_of_records(a + b)),
    ensures
        match (decoded_logs(first, list), decoded_logs(second, list)) {
            (Ok(x), Ok(y)) => decoded_logs(whole, list) matches Ok(z) && z.events == x.events
                + y.events && z.tools == x.tools + y.tools,
            _ => decoded_logs(whole, list) is Err,
        },
{
    let leaf = attributed_shape(Shape::End);
    lemma_shaped_nested("resourceLogs", "scopeLogs", "logRecords", leaf, a);
    lemma_shaped_nested("resourceLogs", "scopeLogs", "logRecords", leaf, b);
    lemma_shaped_nested("resourceLogs", "scopeLogs", "logRecords", leaf, a + b);
    assert(items_shaped(a + b, leaf) =~= items_shaped(a, leaf) + items_shaped(b, leaf));
    law_records_of_a_scope_add_up(items_shaped(a, leaf), items_shaped(b, leaf), list);
}

} // verus!
