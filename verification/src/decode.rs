//! Decoding of the part of OTLP/JSON that is attributed to sessions. Integers come as numbers or
//! strings and enumerations as names or numbers, so every such field is read either way. A body
//! of an unexpected shape is an error, never an empty batch.
//!
//! A numeric value is handed on as it was written; it becomes a number where it is added up.
use vstd::prelude::*;
use crate::claude_settings::{names, slot};
use crate::json::{
    compact, compact_text, dup, find_member, items, members, number_text, parse_bytes, parsed_bytes,
    show_number, Json, Tree,
};
use crate::order::{before, less};
use crate::shape::{any, field, shape, shaped, Shape};
use crate::text::{cat2, opt_view, owned, same, strip_prefix, views, without_prefix};

verus! {

broadcast use vstd::map::group_map_axioms;

/// A numeric value as it was written: a text, a number, or nothing, which is zero.
#[derive(Debug)]
pub enum Reading {
    Text(String),
    Number(serde_json::Number),
    Nothing,
}

#[verifier::ext_equal]
pub enum ReadingModel {
    Text(Seq<char>),
    Number(Seq<char>),
    Nothing,
}

impl Reading {
    pub open spec fn model(self) -> ReadingModel {
        match self {
            Reading::Text(s) => ReadingModel::Text(s@),
            Reading::Number(n) => ReadingModel::Number(number_text(n)),
            Reading::Nothing => ReadingModel::Nothing,
        }
    }
}

/// The value of a JSON value: strings and numbers have one.
pub open spec fn reading_of(t: Tree) -> ReadingModel {
    match t {
        Tree::Str(s) => ReadingModel::Text(s),
        Tree::Num(n) => ReadingModel::Number(n),
        _ => ReadingModel::Nothing,
    }
}

fn read_number(t: &Json) -> (r: Reading)
    ensures
        r.model() == reading_of(t.view()),
{
    match t {
        Json::Str(s) => Reading::Text(owned(s)),
        Json::Number(n) => Reading::Number(n.clone()),
        _ => Reading::Nothing,
    }
}

// ---------------------------------------------------------------------------------------------
// Fields
// ---------------------------------------------------------------------------------------------

/// A list member; a missing one is empty, anything else is malformed.
pub open spec fn list_of(m: Map<Seq<char>, Tree>, key: Seq<char>) -> Option<Seq<Tree>> {
    match slot(m, key) {
        None => Some(Seq::empty()),
        Some(Tree::Arr(a)) => Some(a),
        Some(_) => None,
    }
}

/// A member that is not there or is null.
pub open spec fn unset(m: Map<Seq<char>, Tree>, key: Seq<char>) -> bool {
    slot(m, key) is None || slot(m, key) == Some(Tree::Null)
}

fn present<'a>(m: &'a Vec<(String, Json)>, key: &str) -> (r: Option<&'a Json>)
    ensures
        match r {
            Some(v) => !unset(members(m@), key@) && slot(members(m@), key@) == Some(v.view()),
            None => unset(members(m@), key@),
        },
{
    let at = find_member(m, key);
    if at < m.len() {
        match &m[at].1 {
            Json::Null => None,
            v => Some(v),
        }
    } else {
        None
    }
}

fn list_in<'a>(m: &'a Vec<(String, Json)>, key: &str, none: &'a Vec<Json>) -> (r: Option<&'a Vec<Json>>)
    requires
        none@.len() == 0,
    ensures
        match r {
            Some(a) => list_of(members(m@), key@) == Some(items(a@)),
            None => list_of(members(m@), key@) is None,
        },
{
    let at = find_member(m, key);
    if at < m.len() {
        match &m[at].1 {
            Json::Array(a) => Some(a),
            _ => None,
        }
    } else {
        assert(items(none@) =~= Seq::<Tree>::empty());
        Some(none)
    }
}

// ---------------------------------------------------------------------------------------------
// Shapes
// ---------------------------------------------------------------------------------------------

/// The fields of an attribute value. Every record of a body may give its fields without their names,
/// in this order.
pub open spec fn value_shape() -> Shape {
    any("stringValue", any("intValue", any("doubleValue", any("boolValue", Shape::End))))
}

fn value_fields() -> (r: Shape)
    ensures
        r == value_shape(),
{
    any("stringValue", any("intValue", any("doubleValue", any("boolValue", Shape::End))))
}

/// The fields of a record that begins with its attributes.
pub open spec fn attributed_shape(rest: Shape) -> Shape {
    listed_shape("attributes", any("key", field("value", value_shape(), Shape::End)), rest)
}

fn attributed(rest: Shape) -> (r: Shape)
    ensures
        r == attributed_shape(rest),
{
    listed("attributes", any("key", field("value", value_fields(), Shape::End)), rest)
}

/// The fields of a record that begins with a list of records.
pub open spec fn listed_shape(name: &'static str, item: Shape, rest: Shape) -> Shape {
    field(name, Shape::List(Box::new(item)), rest)
}

fn listed(name: &'static str, item: Shape, rest: Shape) -> (r: Shape)
    ensures
        r == listed_shape(name, item, rest),
{
    field(name, Shape::List(Box::new(item)), rest)
}

/// The fields of a record of one list, in records of one list each, by the names of the lists.
pub open spec fn nested_shape(
    outer: &'static str,
    middle: &'static str,
    inner: &'static str,
    leaf: Shape,
) -> Shape {
    listed_shape(
        outer,
        listed_shape(middle, listed_shape(inner, leaf, Shape::End), Shape::End),
        Shape::End,
    )
}

fn nested(
    outer: &'static str,
    middle: &'static str,
    inner: &'static str,
    leaf: Shape,
) -> (r: Shape)
    ensures
        r == nested_shape(outer, middle, inner, leaf),
{
    listed(outer, listed(middle, listed(inner, leaf, Shape::End), Shape::End), Shape::End)
}

/// The fields of a gauge: its datapoints.
pub open spec fn gauge_shape() -> Shape {
    listed_shape(
        "dataPoints",
        attributed_shape(any("asInt", any("asDouble", Shape::End))),
        Shape::End,
    )
}

fn gauge_fields() -> (r: Shape)
    ensures
        r == gauge_shape(),
{
    listed("dataPoints", attributed(any("asInt", any("asDouble", Shape::End))), Shape::End)
}

/// The fields of a metrics body.
pub open spec fn metrics_shape() -> Shape {
    nested_shape(
        "resourceMetrics",
        "scopeMetrics",
        "metrics",
        any(
            "name",
            field(
                "sum",
                any("aggregationTemporality", gauge_shape()),
                field("gauge", gauge_shape(), Shape::End),
            ),
        ),
    )
}

fn metrics_fields() -> (r: Shape)
    ensures
        r == metrics_shape(),
{
    nested(
        "resourceMetrics",
        "scopeMetrics",
        "metrics",
        any(
            "name",
            field(
                "sum",
                any("aggregationTemporality", gauge_fields()),
                field("gauge", gauge_fields(), Shape::End),
            ),
        ),
    )
}

/// The fields of a logs body.
pub open spec fn logs_shape() -> Shape {
    nested_shape("resourceLogs", "scopeLogs", "logRecords", attributed_shape(Shape::End))
}

fn logs_fields() -> (r: Shape)
    ensures
        r == logs_shape(),
{
    nested("resourceLogs", "scopeLogs", "logRecords", attributed(Shape::End))
}

// ---------------------------------------------------------------------------------------------
// Attributes
// ---------------------------------------------------------------------------------------------

/// The text of a double, as `std` prints it.
pub uninterp spec fn double_text(number: Seq<char>) -> Seq<char>;

/// `serde_json::Number::as_f64`, printed with `to_string`: the shortest decimal that reads back,
/// without an exponent.
#[verifier::external_body]
pub(crate) fn show_double(n: &serde_json::Number) -> (r: String)
    ensures
        r@ == double_text(number_text(*n)),
{
    n.as_f64().map(|d| d.to_string()).unwrap_or_default()
}

/// The value of an attribute, by the kinds it may have.
#[derive(Debug)]
pub struct AnyValue {
    pub string_value: Option<String>,
    pub int_value: Option<Json>,
    pub double_value: Option<serde_json::Number>,
    pub bool_value: Option<bool>,
}

#[verifier::ext_equal]
pub struct AnyModel {
    pub string: Option<Seq<char>>,
    pub int: Option<Tree>,
    pub double: Option<Seq<char>>,
    pub boolean: Option<bool>,
}

pub open spec fn opt_json(o: Option<Json>) -> Option<Tree> {
    match o {
        Some(j) => Some(j.view()),
        None => None,
    }
}

impl AnyValue {
    pub open spec fn model(self) -> AnyModel {
        AnyModel {
            string: opt_view(self.string_value),
            int: opt_json(self.int_value),
            double: crate::report::opt_number(self.double_value),
            boolean: self.bool_value,
        }
    }
}

/// A value of no kind.
pub open spec fn any_none() -> AnyModel {
    AnyModel { string: None, int: None, double: None, boolean: None }
}

/// The value that a tree holds; `None` where it is malformed.
pub open spec fn any_of(t: Tree) -> Option<AnyModel> {
    match t {
        Tree::Obj(m) => if (unset(m, "stringValue"@) || slot(m, "stringValue"@)->0 is Str) && (unset(
            m,
            "doubleValue"@,
        ) || slot(m, "doubleValue"@)->0 is Num) && (unset(m, "boolValue"@) || slot(
            m,
            "boolValue"@,
        )->0 is Bool) {
            Some(
                AnyModel {
                    string: if unset(m, "stringValue"@) {
                        None
                    } else {
                        Some(slot(m, "stringValue"@)->0->Str_0)
                    },
                    int: if unset(m, "intValue"@) {
                        None
                    } else {
                        slot(m, "intValue"@)
                    },
                    double: if unset(m, "doubleValue"@) {
                        None
                    } else {
                        Some(slot(m, "doubleValue"@)->0->Num_0)
                    },
                    boolean: if unset(m, "boolValue"@) {
                        None
                    } else {
                        Some(slot(m, "boolValue"@)->0->Bool_0)
                    },
                },
            )
        } else {
            None
        },
        _ => None,
    }
}

/// The text of an attribute value.
pub open spec fn any_text(v: AnyModel) -> Seq<char> {
    if let Some(s) = v.string {
        s
    } else if let Some(i) = v.int {
        match i {
            Tree::Str(s) => s,
            _ => compact_text(i),
        }
    } else if let Some(d) = v.double {
        double_text(d)
    } else if let Some(b) = v.boolean {
        if b {
            "true"@
        } else {
            "false"@
        }
    } else {
        Seq::empty()
    }
}

/// The number of an attribute value.
pub open spec fn any_reading(v: AnyModel) -> ReadingModel {
    if let Some(i) = v.int {
        reading_of(i)
    } else if let Some(d) = v.double {
        ReadingModel::Number(d)
    } else if let Some(s) = v.string {
        ReadingModel::Text(s)
    } else {
        ReadingModel::Nothing
    }
}

/// The truth of an attribute value: a boolean, or the text `true`.
pub open spec fn any_bool(v: AnyModel) -> bool {
    match v.boolean {
        Some(b) => b,
        None => v.string == Some("true"@),
    }
}

impl AnyValue {
    /// Read an attribute value.
    pub fn from_json(t: &Json) -> (r: Option<AnyValue>)
        ensures
            match r {
                Some(v) => any_of(t.view()) == Some(v.model()),
                None => any_of(t.view()) is None,
            },
    {
        let m = match t {
            Json::Object(m) => m,
            _ => {
                return None;
            },
        };
        let string_value = match present(m, "stringValue") {
            None => None,
            Some(v) => match v {
                Json::Str(s) => Some(owned(s)),
                _ => {
                    return None;
                },
            },
        };
        let double_value = match present(m, "doubleValue") {
            None => None,
            Some(v) => match v {
                Json::Number(n) => Some(n.clone()),
                _ => {
                    return None;
                },
            },
        };
        let bool_value = match present(m, "boolValue") {
            None => None,
            Some(v) => match v {
                Json::Bool(b) => Some(*b),
                _ => {
                    return None;
                },
            },
        };
        let int_value = match present(m, "intValue") {
            None => None,
            Some(v) => Some(dup(v)),
        };
        Some(AnyValue { string_value, int_value, double_value, bool_value })
    }

    /// A value of no kind.
    pub fn none() -> (r: AnyValue)
        ensures
            r.model() == any_none(),
    {
        AnyValue { string_value: None, int_value: None, double_value: None, bool_value: None }
    }

    /// The text of the value.
    pub fn as_string(&self) -> (r: String)
        ensures
            r@ == any_text(self.model()),
    {
        if let Some(s) = &self.string_value {
            return owned(s);
        }
        if let Some(i) = &self.int_value {
            return match i {
                Json::Str(s) => owned(s),
                _ => compact(i),
            };
        }
        if let Some(d) = &self.double_value {
            return show_double(d);
        }
        if let Some(b) = self.bool_value {
            return if b {
                owned("true")
            } else {
                owned("false")
            };
        }
        let out = String::new();
        assert(out@ =~= Seq::<char>::empty());
        out
    }

    /// The number of the value.
    pub fn reading(&self) -> (r: Reading)
        ensures
            r.model() == any_reading(self.model()),
    {
        if let Some(i) = &self.int_value {
            return read_number(i);
        }
        if let Some(d) = &self.double_value {
            return Reading::Number(d.clone());
        }
        match &self.string_value {
            Some(s) => Reading::Text(owned(s)),
            None => Reading::Nothing,
        }
    }

    /// The truth of the value.
    pub fn as_bool(&self) -> (r: bool)
        ensures
            r == any_bool(self.model()),
    {
        match self.bool_value {
            Some(b) => b,
            None => match &self.string_value {
                Some(s) => same(s, "true"),
                None => false,
            },
        }
    }
}

/// One attribute.
#[derive(Debug)]
pub struct KeyValue {
    pub key: String,
    pub value: AnyValue,
}

#[verifier::ext_equal]
pub struct AttrModel {
    pub key: Seq<char>,
    pub value: AnyModel,
}

impl KeyValue {
    pub open spec fn model(self) -> AttrModel {
        AttrModel { key: self.key@, value: self.value.model() }
    }
}

pub open spec fn attr_models(v: Seq<KeyValue>) -> Seq<AttrModel> {
    Seq::new(v.len(), |i: int| v[i].model())
}

/// The attribute that a tree holds; its key is required.
pub open spec fn attr_of(t: Tree) -> Option<AttrModel> {
    match t {
        Tree::Obj(m) => match slot(m, "key"@) {
            Some(Tree::Str(key)) => match slot(m, "value"@) {
                None => Some(AttrModel { key, value: any_none() }),
                Some(v) => match any_of(v) {
                    Some(value) => Some(AttrModel { key, value }),
                    None => None,
                },
            },
            _ => None,
        },
        _ => None,
    }
}

/// The attributes of a list; `None` where one is malformed.
pub open spec fn attrs_of(a: Seq<Tree>) -> Option<Seq<AttrModel>>
    decreases a.len(),
{
    if a.len() == 0 {
        Some(Seq::empty())
    } else {
        match (attrs_of(a.drop_last()), attr_of(a.last())) {
            (Some(rest), Some(one)) => Some(rest.push(one)),
            _ => None,
        }
    }
}

proof fn lemma_attrs_fail_early(a: Seq<Tree>, n: int)
    requires
        0 <= n <= a.len(),
        attrs_of(a.take(n)) is None,
    ensures
        attrs_of(a) is None,
    decreases a.len() - n,
{
    if n < a.len() {
        assert(a.take(n + 1).drop_last() =~= a.take(n));
        lemma_attrs_fail_early(a, n + 1);
    } else {
        assert(a.take(n) =~= a);
    }
}

fn read_attr(t: &Json) -> (r: Option<KeyValue>)
    ensures
        match r {
            Some(v) => attr_of(t.view()) == Some(v.model()),
            None => attr_of(t.view()) is None,
        },
{
    let m = match t {
        Json::Object(m) => m,
        _ => {
            return None;
        },
    };
    let at = find_member(m, "key");
    if at >= m.len() {
        return None;
    }
    let key = match &m[at].1 {
        Json::Str(s) => owned(s),
        _ => {
            return None;
        },
    };
    let at = find_member(m, "value");
    if at >= m.len() {
        return Some(KeyValue { key, value: AnyValue::none() });
    }
    match AnyValue::from_json(&m[at].1) {
        Some(value) => Some(KeyValue { key, value }),
        None => None,
    }
}

fn read_attrs(a: &Vec<Json>) -> (r: Option<Vec<KeyValue>>)
    ensures
        match r {
            Some(v) => attrs_of(items(a@)) == Some(attr_models(v@)),
            None => attrs_of(items(a@)) is None,
        },
{
    let ghost all = items(a@);
    let mut out: Vec<KeyValue> = Vec::new();
    let mut i: usize = 0;
    assert(all.take(0) =~= Seq::<Tree>::empty());
    assert(attr_models(out@) =~= Seq::<AttrModel>::empty());
    while i < a.len()
        invariant
            0 <= i <= a.len(),
            all == items(a@),
            attrs_of(all.take(i as int)) == Some(attr_models(out@)),
        decreases a.len() - i,
    {
        proof {
            assert(all.take(i + 1).drop_last() =~= all.take(i as int));
            assert(all.take(i + 1).last() == a@[i as int].view());
        }
        match read_attr(&a[i]) {
            Some(one) => {
                let ghost held = out@;
                out.push(one);
                assert(attr_models(out@) =~= attr_models(held).push(one.model()));
            },
            None => {
                proof {
                    lemma_attrs_fail_early(all, i + 1);
                }
                return None;
            },
        }
        i = i + 1;
    }
    assert(all.take(a.len() as int) =~= all);
    Some(out)
}

// ---------------------------------------------------------------------------------------------
// Paths
// ---------------------------------------------------------------------------------------------

/// The objects at the end of a path of lists; `None` where something on the way is malformed.
pub open spec fn leaves(t: Tree, path: Seq<Seq<char>>) -> Option<Seq<Tree>>
    decreases path.len(), 0int,
{
    match t {
        Tree::Obj(m) => if path.len() == 0 {
            Some(seq![t])
        } else {
            match list_of(m, path[0]) {
                Some(a) => leaves_in(a, path.skip(1), a.len() as int),
                None => None,
            }
        },
        _ => None,
    }
}

/// The objects at the end of a path under the first `n` of a list.
pub open spec fn leaves_in(a: Seq<Tree>, path: Seq<Seq<char>>, n: int) -> Option<Seq<Tree>>
    decreases path.len(), n,
{
    if n <= 0 {
        Some(Seq::empty())
    } else {
        match (leaves_in(a, path, n - 1), leaves(a[n - 1], path)) {
            (Some(rest), Some(more)) => Some(rest + more),
            _ => None,
        }
    }
}

proof fn lemma_leaves_fail_early(a: Seq<Tree>, path: Seq<Seq<char>>, n: int)
    requires
        0 <= n <= a.len(),
        leaves_in(a, path, n) is None,
    ensures
        leaves_in(a, path, a.len() as int) is None,
    decreases a.len() - n,
{
    if n < a.len() {
        lemma_leaves_fail_early(a, path, n + 1);
    }
}

pub open spec fn ref_items(v: Seq<&Json>) -> Seq<Tree> {
    Seq::new(v.len(), |i: int| v[i].view())
}

/// Append the objects at the end of a path; `false` where something on the way is malformed.
fn push_leaves<'a>(
    out: &mut Vec<&'a Json>,
    t: &'a Json,
    path: &Vec<&'static str>,
    depth: usize,
    none: &'a Vec<Json>,
) -> (r: bool)
    requires
        depth <= path.len(),
        none@.len() == 0,
    ensures
        r == (leaves(t.view(), names(path@).skip(depth as int)) is Some),
        r ==> ref_items(final(out)@) == ref_items(old(out)@) + leaves(
            t.view(),
            names(path@).skip(depth as int),
        )->0,
    decreases path.len() - depth,
{
    let ghost start = ref_items(out@);
    let ghost rest = names(path@).skip(depth as int);
    let m = match t {
        Json::Object(m) => m,
        _ => {
            return false;
        },
    };
    if depth == path.len() {
        let ghost held = out@;
        out.push(t);
        assert(ref_items(out@) =~= ref_items(held) + seq![t.view()]);
        return true;
    }
    let key = path[depth];
    assert(rest[0] == key@);
    assert(rest.skip(1) =~= names(path@).skip(depth + 1));
    let a = match list_in(m, key, none) {
        Some(a) => a,
        None => {
            return false;
        },
    };
    let ghost all = items(a@);
    let mut i: usize = 0;
    assert(start + Seq::<Tree>::empty() =~= start);
    while i < a.len()
        invariant
            0 <= i <= a.len(),
            depth < path.len(),
            none@.len() == 0,
            all == items(a@),
            rest.skip(1) == names(path@).skip(depth + 1),
            t.view() is Obj,
            rest.len() > 0,
            rest == names(path@).skip(depth as int),
            list_of(t.view()->Obj_0, rest[0]) == Some(all),
            leaves_in(all, rest.skip(1), i as int) is Some,
            ref_items(out@) == start + leaves_in(all, rest.skip(1), i as int)->0,
        decreases a.len() - i,
    {
        let ghost held = ref_items(out@);
        assert(all[i as int] == a@[i as int].view());
        if !push_leaves(out, &a[i], path, depth + 1, none) {
            proof {
                lemma_leaves_fail_early(all, rest.skip(1), i + 1);
            }
            return false;
        }
        assert(ref_items(out@) =~= start + leaves_in(all, rest.skip(1), i + 1)->0);
        i = i + 1;
    }
    true
}

// ---------------------------------------------------------------------------------------------
// Metrics
// ---------------------------------------------------------------------------------------------

/// A metric or event name without the prefix it may carry.
pub open spec fn bare(name: Seq<char>) -> Seq<char> {
    match without_prefix(name, "claude_code."@) {
        Some(rest) => rest,
        None => name,
    }
}

/// A metric or event name without the prefix it may carry.
pub fn normalize(name: &str) -> (r: String)
    ensures
        r@ == bare(name@),
{
    match strip_prefix(name, "claude_code.") {
        Some(rest) => rest,
        None => owned(name),
    }
}

/// A name is asked for, with the prefix or without.
pub open spec fn wanted(list: Seq<Seq<char>>, name: Seq<char>) -> bool {
    exists|i: int| 0 <= i < list.len() && bare(#[trigger] list[i]) == name
}

fn is_wanted(list: &Vec<String>, name: &str) -> (r: bool)
    ensures
        r == wanted(views(list@), name@),
{
    let ghost all = views(list@);
    let mut i: usize = 0;
    while i < list.len()
        invariant
            0 <= i <= list.len(),
            all == views(list@),
            forall|k: int| 0 <= k < i ==> bare(#[trigger] all[k]) != name@,
        decreases list.len() - i,
    {
        assert(all[i as int] == list@[i as int]@);
        if same(&normalize(&list[i]), name) {
            return true;
        }
        i = i + 1;
    }
    false
}

/// A sum whose points are increments. Anything but the delta temporality is a running total, which
/// only ever replaces.
pub open spec fn is_increment(t: Tree) -> bool {
    match t {
        Tree::Num(n) => n == "1"@,
        Tree::Str(s) => s == "1"@ || s == "AGGREGATION_TEMPORALITY_DELTA"@,
        _ => false,
    }
}

fn is_delta(t: &Json) -> (r: bool)
    ensures
        r == is_increment(t.view()),
{
    match t {
        Json::Number(n) => same(&show_number(n), "1"),
        Json::Str(s) => same(s, "1") || same(s, "AGGREGATION_TEMPORALITY_DELTA"),
        _ => false,
    }
}

/// One decoded datapoint.
#[derive(Debug)]
pub struct MetricPoint {
    pub name: String,
    pub value: Reading,
    pub session_id: String,
    /// The attributes but for the session, in order: the series within a session.
    pub series: Vec<(String, String)>,
    /// The value is an increment to add up; otherwise it is a total that replaces.
    pub delta: bool,
}

#[verifier::ext_equal]
pub struct PointModel {
    pub name: Seq<char>,
    pub value: ReadingModel,
    pub session: Seq<char>,
    pub series: Seq<(Seq<char>, Seq<char>)>,
    pub delta: bool,
}

impl MetricPoint {
    pub open spec fn model(self) -> PointModel {
        PointModel {
            name: self.name@,
            value: self.value.model(),
            session: self.session_id@,
            series: crate::report::pair_views(self.series@),
            delta: self.delta,
        }
    }
}

pub open spec fn point_models(v: Seq<MetricPoint>) -> Seq<PointModel> {
    Seq::new(v.len(), |i: int| v[i].model())
}

/// The order of pairs: by key, then by value.
pub open spec fn pair_before(a: (Seq<char>, Seq<char>), b: (Seq<char>, Seq<char>)) -> bool {
    before(a.0, b.0) || (a.0 == b.0 && before(a.1, b.1))
}

/// The first position of a list of pairs that `p` stands before.
pub open spec fn pair_position(s: Seq<(Seq<char>, Seq<char>)>, p: (Seq<char>, Seq<char>)) -> int
    decreases s.len(),
{
    if s.len() == 0 {
        0
    } else if pair_before(p, s[0]) {
        0
    } else {
        1 + pair_position(s.skip(1), p)
    }
}

/// The pairs in order.
pub open spec fn sorted_pairs(s: Seq<(Seq<char>, Seq<char>)>) -> Seq<(Seq<char>, Seq<char>)>
    decreases s.len(),
{
    if s.len() == 0 {
        s
    } else {
        let rest = sorted_pairs(s.drop_last());
        rest.insert(pair_position(rest, s.last()), s.last())
    }
}

proof fn lemma_pair_position(
    s: Seq<(Seq<char>, Seq<char>)>,
    p: (Seq<char>, Seq<char>),
    at: int,
)
    requires
        0 <= at <= s.len(),
        forall|k: int| 0 <= k < at ==> !pair_before(p, #[trigger] s[k]),
        at < s.len() ==> pair_before(p, s[at]),
    ensures
        pair_position(s, p) == at,
    decreases s.len(),
{
    if s.len() > 0 && at > 0 {
        assert(!pair_before(p, s[0]));
        assert forall|k: int| 0 <= k < at - 1 implies !pair_before(p, #[trigger] s.skip(1)[k]) by {
            assert(s.skip(1)[k] == s[k + 1]);
        }
        if at < s.len() {
            assert(s.skip(1)[at - 1] == s[at]);
        }
        lemma_pair_position(s.skip(1), p, at - 1);
    }
}

/// Put a pair into an ordered list of pairs.
fn insert_pair(list: &mut Vec<(String, String)>, key: String, value: String)
    ensures
        crate::report::pair_views(final(list)@) == crate::report::pair_views(old(list)@).insert(
            pair_position(crate::report::pair_views(old(list)@), (key@, value@)),
            (key@, value@),
        ),
{
    let ghost s = crate::report::pair_views(list@);
    let ghost p = (key@, value@);
    let mut i: usize = 0;
    let mut found = false;
    while i < list.len() && !found
        invariant
            0 <= i <= list.len(),
            s == crate::report::pair_views(list@),
            p == (key@, value@),
            list@ == old(list)@,
            forall|k: int| 0 <= k < i ==> !pair_before(p, #[trigger] s[k]),
            found ==> i < list.len() && pair_before(p, s[i as int]),
        decreases list.len() - i, (if found {
            0int
        } else {
            1int
        }),
    {
        assert(s[i as int] == (list@[i as int].0@, list@[i as int].1@));
        if less(&key, &list[i].0) || (same(&key, &list[i].0) && less(&value, &list[i].1)) {
            found = true;
        } else {
            i = i + 1;
        }
    }
    proof {
        lemma_pair_position(s, p, i as int);
    }
    list.insert(i, (key, value));
    assert(crate::report::pair_views(list@) =~= s.insert(i as int, p));
}

/// The position of the first attribute with a key, or the length.
pub open spec fn first_key(attrs: Seq<AttrModel>, key: Seq<char>) -> int
    decreases attrs.len(),
{
    if attrs.len() == 0 {
        0
    } else if attrs[0].key == key {
        0
    } else {
        1 + first_key(attrs.skip(1), key)
    }
}

/// The texts of the attributes but for the one at a position.
pub open spec fn texts_without(attrs: Seq<AttrModel>, at: int, n: int) -> Seq<
    (Seq<char>, Seq<char>),
>
    decreases n,
{
    if n <= 0 {
        Seq::empty()
    } else if n - 1 == at {
        texts_without(attrs, at, n - 1)
    } else {
        texts_without(attrs, at, n - 1).push((attrs[n - 1].key, any_text(attrs[n - 1].value)))
    }
}

/// The session of a list of attributes: the first that names one; empty where none does.
pub open spec fn session_in(attrs: Seq<AttrModel>) -> Seq<char> {
    let at = first_key(attrs, "session.id"@);
    if at < attrs.len() {
        any_text(attrs[at].value)
    } else {
        Seq::empty()
    }
}

/// The series of a list of attributes: all but the session, in order.
pub open spec fn series_of(attrs: Seq<AttrModel>) -> Seq<(Seq<char>, Seq<char>)> {
    sorted_pairs(texts_without(attrs, first_key(attrs, "session.id"@), attrs.len() as int))
}

/// The value of a datapoint: its integer, else its double. `None` where it is malformed.
pub open spec fn point_value(m: Map<Seq<char>, Tree>) -> Option<ReadingModel> {
    if !unset(m, "asDouble"@) && slot(m, "asDouble"@)->0 !is Num {
        None
    } else if !unset(m, "asInt"@) {
        Some(reading_of(slot(m, "asInt"@)->0))
    } else if !unset(m, "asDouble"@) {
        Some(ReadingModel::Number(slot(m, "asDouble"@)->0->Num_0))
    } else {
        Some(ReadingModel::Nothing)
    }
}

/// A datapoint: the outer `None` is a malformed one, the inner one that names no session.
pub open spec fn point_of(t: Tree, name: Seq<char>, delta: bool) -> Option<Option<PointModel>> {
    match t {
        Tree::Obj(m) => match list_of(m, "attributes"@) {
            Some(a) => match (attrs_of(a), point_value(m)) {
                (Some(attrs), Some(value)) => if session_in(attrs).len() == 0 {
                    Some(None)
                } else {
                    Some(
                        Some(
                            PointModel {
                                name,
                                value,
                                session: session_in(attrs),
                                series: series_of(attrs),
                                delta,
                            },
                        ),
                    )
                },
                _ => None,
            },
            None => None,
        },
        _ => None,
    }
}

/// The datapoints of the first `n` of a list.
pub open spec fn points_of(a: Seq<Tree>, name: Seq<char>, delta: bool, n: int) -> Option<
    Seq<PointModel>,
>
    decreases n,
{
    if n <= 0 {
        Some(Seq::empty())
    } else {
        match (points_of(a, name, delta, n - 1), point_of(a[n - 1], name, delta)) {
            (Some(rest), Some(Some(p))) => Some(rest.push(p)),
            (Some(rest), Some(None)) => Some(rest),
            _ => None,
        }
    }
}

/// The datapoints of a shape of a metric, where it has that shape.
pub open spec fn shape_of(
    m: Map<Seq<char>, Tree>,
    shape: Seq<char>,
    name: Seq<char>,
) -> Option<Option<Seq<PointModel>>> {
    if unset(m, shape) {
        Some(None)
    } else {
        match slot(m, shape)->0 {
            Tree::Obj(s) => {
                let delta = shape == "sum"@ && (slot(s, "aggregationTemporality"@) matches Some(t)
                    && is_increment(t));
                match list_of(s, "dataPoints"@) {
                    Some(a) => match points_of(a, name, delta, a.len() as int) {
                        Some(p) => Some(Some(p)),
                        None => None,
                    },
                    None => None,
                }
            },
            _ => None,
        }
    }
}

/// The name of a metric; a missing one is empty.
pub open spec fn metric_name(m: Map<Seq<char>, Tree>) -> Option<Seq<char>> {
    match slot(m, "name"@) {
        None => Some(Seq::empty()),
        Some(Tree::Str(s)) => Some(s),
        Some(_) => None,
    }
}

/// The datapoints of a metric: those of its sum, else those of its gauge, where its name is asked
/// for. All of it is checked either way.
pub open spec fn metric_points(t: Tree, list: Seq<Seq<char>>) -> Option<Seq<PointModel>> {
    match t {
        Tree::Obj(m) => match metric_name(m) {
            Some(full) => {
                let name = bare(full);
                match (shape_of(m, "sum"@, name), shape_of(m, "gauge"@, name)) {
                    (Some(sum), Some(gauge)) => if !wanted(list, name) {
                        Some(Seq::empty())
                    } else {
                        match (sum, gauge) {
                            (Some(p), _) => Some(p),
                            (None, Some(p)) => Some(p),
                            (None, None) => Some(Seq::empty()),
                        }
                    },
                    _ => None,
                }
            },
            None => None,
        },
        _ => None,
    }
}

/// The datapoints of the first `n` metrics.
pub open spec fn all_points(metrics: Seq<Tree>, list: Seq<Seq<char>>, n: int) -> Option<
    Seq<PointModel>,
>
    decreases n,
{
    if n <= 0 {
        Some(Seq::empty())
    } else {
        match (all_points(metrics, list, n - 1), metric_points(metrics[n - 1], list)) {
            (Some(rest), Some(more)) => Some(rest + more),
            _ => None,
        }
    }
}

/// The datapoints of a metrics body.
pub open spec fn body_points(t: Tree, list: Seq<Seq<char>>) -> Option<Seq<PointModel>> {
    match leaves(t, seq!["resourceMetrics"@, "scopeMetrics"@, "metrics"@]) {
        Some(metrics) => all_points(metrics, list, metrics.len() as int),
        None => None,
    }
}

proof fn lemma_points_fail_early(a: Seq<Tree>, name: Seq<char>, delta: bool, n: int)
    requires
        0 <= n <= a.len(),
        points_of(a, name, delta, n) is None,
    ensures
        points_of(a, name, delta, a.len() as int) is None,
    decreases a.len() - n,
{
    if n < a.len() {
        lemma_points_fail_early(a, name, delta, n + 1);
    }
}

proof fn lemma_all_fail_early(metrics: Seq<Tree>, list: Seq<Seq<char>>, n: int)
    requires
        0 <= n <= metrics.len(),
        all_points(metrics, list, n) is None,
    ensures
        all_points(metrics, list, metrics.len() as int) is None,
    decreases metrics.len() - n,
{
    if n < metrics.len() {
        lemma_all_fail_early(metrics, list, n + 1);
    }
}

fn find_key(attrs: &Vec<KeyValue>, key: &str) -> (r: usize)
    ensures
        r == first_key(attr_models(attrs@), key@),
        r <= attrs.len(),
{
    let ghost all = attr_models(attrs@);
    let mut i: usize = 0;
    assert(all.skip(0) =~= all);
    while i < attrs.len()
        invariant
            0 <= i <= attrs.len(),
            all == attr_models(attrs@),
            first_key(all, key@) == i + first_key(all.skip(i as int), key@),
        decreases attrs.len() - i,
    {
        proof {
            assert(all.skip(i as int)[0] == attrs@[i as int].model());
            assert(all.skip(i as int).skip(1) =~= all.skip(i + 1));
        }
        if same(&attrs[i].key, key) {
            return i;
        }
        i = i + 1;
    }
    assert(all.skip(attrs.len() as int).len() == 0);
    attrs.len()
}

/// The session and the series of a list of attributes.
fn attribute(attrs: &Vec<KeyValue>) -> (r: (String, Vec<(String, String)>))
    ensures
        r.0@ == session_in(attr_models(attrs@)),
        crate::report::pair_views(r.1@) == series_of(attr_models(attrs@)),
{
    let ghost all = attr_models(attrs@);
    let at = find_key(attrs, "session.id");
    let session = if at < attrs.len() {
        attrs[at].value.as_string()
    } else {
        let out = String::new();
        assert(out@ =~= Seq::<char>::empty());
        out
    };
    let mut series: Vec<(String, String)> = Vec::new();
    let ghost mut seen: Seq<(Seq<char>, Seq<char>)> = Seq::empty();
    let mut i: usize = 0;
    assert(crate::report::pair_views(series@) =~= sorted_pairs(seen));
    while i < attrs.len()
        invariant
            0 <= i <= attrs.len(),
            all == attr_models(attrs@),
            seen == texts_without(all, at as int, i as int),
            crate::report::pair_views(series@) == sorted_pairs(seen),
        decreases attrs.len() - i,
    {
        assert(all[i as int] == attrs@[i as int].model());
        if i != at {
            let key = owned(&attrs[i].key);
            let value = attrs[i].value.as_string();
            proof {
                let next = seen.push((key@, value@));
                assert(next.drop_last() =~= seen);
                seen = next;
            }
            insert_pair(&mut series, key, value);
        }
        i = i + 1;
    }
    (session, series)
}

pub open spec fn opt_point(o: Option<MetricPoint>) -> Option<PointModel> {
    match o {
        Some(p) => Some(p.model()),
        None => None,
    }
}

fn read_value(m: &Vec<(String, Json)>) -> (r: Option<Reading>)
    ensures
        match r {
            Some(v) => point_value(members(m@)) == Some(v.model()),
            None => point_value(members(m@)) is None,
        },
{
    let double = match present(m, "asDouble") {
        None => None,
        Some(v) => match v {
            Json::Number(n) => Some(n.clone()),
            _ => {
                return None;
            },
        },
    };
    match present(m, "asInt") {
        Some(v) => Some(read_number(v)),
        None => match double {
            Some(n) => Some(Reading::Number(n)),
            None => Some(Reading::Nothing),
        },
    }
}

fn read_point(t: &Json, name: &str, delta: bool) -> (r: Option<Option<MetricPoint>>)
    ensures
        match r {
            Some(p) => point_of(t.view(), name@, delta) == Some(opt_point(p)),
            None => point_of(t.view(), name@, delta) is None,
        },
{
    let none: Vec<Json> = Vec::new();
    let m = match t {
        Json::Object(m) => m,
        _ => {
            return None;
        },
    };
    let a = match list_in(m, "attributes", &none) {
        Some(a) => a,
        None => {
            return None;
        },
    };
    let attrs = match read_attrs(a) {
        Some(v) => v,
        None => {
            return None;
        },
    };
    let value = match read_value(m) {
        Some(v) => v,
        None => {
            return None;
        },
    };
    let (session_id, series) = attribute(&attrs);
    if session_id.as_str().is_empty() {
        return Some(None);
    }
    Some(Some(MetricPoint { name: owned(name), value, session_id, series, delta }))
}

fn read_points(a: &Vec<Json>, name: &str, delta: bool) -> (r: Option<Vec<MetricPoint>>)
    ensures
        match r {
            Some(v) => points_of(items(a@), name@, delta, a@.len() as int) == Some(
                point_models(v@),
            ),
            None => points_of(items(a@), name@, delta, a@.len() as int) is None,
        },
{
    let ghost all = items(a@);
    let mut out: Vec<MetricPoint> = Vec::new();
    let mut i: usize = 0;
    assert(point_models(out@) =~= Seq::<PointModel>::empty());
    while i < a.len()
        invariant
            0 <= i <= a.len(),
            all == items(a@),
            points_of(all, name@, delta, i as int) == Some(point_models(out@)),
        decreases a.len() - i,
    {
        assert(all[i as int] == a@[i as int].view());
        match read_point(&a[i], name, delta) {
            Some(Some(p)) => {
                let ghost held = out@;
                out.push(p);
                assert(point_models(out@) =~= point_models(held).push(p.model()));
            },
            Some(None) => {},
            None => {
                proof {
                    lemma_points_fail_early(all, name@, delta, i + 1);
                }
                return None;
            },
        }
        i = i + 1;
    }
    Some(out)
}

pub open spec fn opt_points(o: Option<Vec<MetricPoint>>) -> Option<Seq<PointModel>> {
    match o {
        Some(v) => Some(point_models(v@)),
        None => None,
    }
}

fn read_shape(m: &Vec<(String, Json)>, shape: &str, name: &str) -> (r: Option<
    Option<Vec<MetricPoint>>,
>)
    ensures
        match r {
            Some(p) => shape_of(members(m@), shape@, name@) == Some(opt_points(p)),
            None => shape_of(members(m@), shape@, name@) is None,
        },
{
    let none: Vec<Json> = Vec::new();
    let t = match present(m, shape) {
        None => {
            return Some(None);
        },
        Some(v) => v,
    };
    let s = match t {
        Json::Object(s) => s,
        _ => {
            return None;
        },
    };
    let at = find_member(s, "aggregationTemporality");
    let delta = same(shape, "sum") && at < s.len() && is_delta(&s[at].1);
    let a = match list_in(s, "dataPoints", &none) {
        Some(a) => a,
        None => {
            return None;
        },
    };
    assert(items(a@).len() == a@.len());
    match read_points(a, name, delta) {
        Some(p) => Some(Some(p)),
        None => None,
    }
}

fn read_metric(t: &Json, list: &Vec<String>) -> (r: Option<Vec<MetricPoint>>)
    ensures
        opt_points(r) == metric_points(t.view(), views(list@)),
{
    let m = match t {
        Json::Object(m) => m,
        _ => {
            return None;
        },
    };
    let at = find_member(m, "name");
    let full = if at < m.len() {
        match &m[at].1 {
            Json::Str(s) => owned(s),
            _ => {
                return None;
            },
        }
    } else {
        let out = String::new();
        assert(out@ =~= Seq::<char>::empty());
        out
    };
    let name = normalize(&full);
    let sum = match read_shape(m, "sum", &name) {
        Some(p) => p,
        None => {
            return None;
        },
    };
    let gauge = match read_shape(m, "gauge", &name) {
        Some(p) => p,
        None => {
            return None;
        },
    };
    let none: Vec<MetricPoint> = Vec::new();
    assert(point_models(none@) =~= Seq::<PointModel>::empty());
    if !is_wanted(list, &name) {
        return Some(none);
    }
    match sum {
        Some(p) => Some(p),
        None => match gauge {
            Some(p) => Some(p),
            None => Some(none),
        },
    }
}

/// The message about a metrics body that cannot be decoded.
pub fn metrics_fault(why: &str) -> (r: String)
    ensures
        r@ == "invalid OTLP/JSON metrics body: "@ + why@,
{
    cat2("invalid OTLP/JSON metrics body: ", why)
}

/// The message about a logs body that cannot be decoded.
pub fn logs_fault(why: &str) -> (r: String)
    ensures
        r@ == "invalid OTLP/JSON logs body: "@ + why@,
{
    cat2("invalid OTLP/JSON logs body: ", why)
}

/// The datapoints of a metrics body, or why it cannot be decoded. Of a body that is JSON of another
/// shape, only that is said.
pub open spec fn decoded_points(body: Seq<u8>, list: Seq<Seq<char>>) -> Result<
    Seq<PointModel>,
    Seq<char>,
> {
    match parsed_bytes(body) {
        Ok(t) => match body_points(shaped(t, metrics_shape()), list) {
            Some(p) => Ok(p),
            None => Err("invalid OTLP/JSON metrics body: unexpected shape"@),
        },
        Err(e) => Err("invalid OTLP/JSON metrics body: "@ + e),
    }
}

fn take_points(out: &mut Vec<MetricPoint>, more: Vec<MetricPoint>)
    ensures
        point_models(final(out)@) == point_models(old(out)@) + point_models(more@),
{
    let ghost start = out@;
    let ghost all = more@;
    let mut rest = more;
    out.append(&mut rest);
    assert(point_models(out@) =~= point_models(start) + point_models(all));
}

/// Decode a metrics body into the datapoints of the metrics asked for, each attributed to a
/// session; one that names none is left out.
///
/// The body is read as a JSON value first: every member is judged, also one that is not looked at,
/// and where a member is repeated its last value counts.
pub fn parse_metrics(bytes: &[u8], list: &Vec<String>) -> (r: Result<Vec<MetricPoint>, String>)
    ensures
        match (r, decoded_points(bytes@, views(list@))) {
            (Ok(v), Ok(w)) => point_models(v@) == w,
            (Err(a), Err(b)) => a@ == b,
            _ => false,
        },
{
    let t = match parse_bytes(bytes) {
        Ok(t) => shape(&t, &metrics_fields()),
        Err(e) => {
            return Err(metrics_fault(&e));
        },
    };
    let none: Vec<Json> = Vec::new();
    let mut path: Vec<&'static str> = Vec::new();
    path.push("resourceMetrics");
    path.push("scopeMetrics");
    path.push("metrics");
    let ghost want = seq!["resourceMetrics"@, "scopeMetrics"@, "metrics"@];
    let mut metrics: Vec<&Json> = Vec::new();
    assert(names(path@) =~= want);
    assert(names(path@).skip(0) =~= want);
    assert(ref_items(metrics@) =~= Seq::<Tree>::empty());
    if !push_leaves(&mut metrics, &t, &path, 0, &none) {
        return Err(owned("invalid OTLP/JSON metrics body: unexpected shape"));
    }
    let ghost all = ref_items(metrics@);
    assert(all =~= leaves(t.view(), want)->0);
    let mut out: Vec<MetricPoint> = Vec::new();
    let mut i: usize = 0;
    assert(point_models(out@) =~= Seq::<PointModel>::empty());
    while i < metrics.len()
        invariant
            0 <= i <= metrics.len(),
            all == ref_items(metrics@),
            parsed_bytes(bytes@) matches Ok(whole) && t.view() == shaped(whole, metrics_shape()),
            leaves(t.view(), want) == Some(all),
            want == seq!["resourceMetrics"@, "scopeMetrics"@, "metrics"@],
            all_points(all, views(list@), i as int) == Some(point_models(out@)),
        decreases metrics.len() - i,
    {
        assert(all[i as int] == metrics@[i as int].view());
        match read_metric(metrics[i], list) {
            Some(p) => {
                take_points(&mut out, p);
            },
            None => {
                proof {
                    lemma_all_fail_early(all, views(list@), i + 1);
                }
                return Err(owned("invalid OTLP/JSON metrics body: unexpected shape"));
            },
        }
        i = i + 1;
    }
    Ok(out)
}

// ---------------------------------------------------------------------------------------------
// Logs
// ---------------------------------------------------------------------------------------------

/// The value of the last attribute with a key.
pub open spec fn last_value(attrs: Seq<AttrModel>, key: Seq<char>) -> Option<AnyModel>
    decreases attrs.len(),
{
    if attrs.len() == 0 {
        None
    } else if attrs.last().key == key {
        Some(attrs.last().value)
    } else {
        last_value(attrs.drop_last(), key)
    }
}

/// The text of the last attribute with a key; empty where there is none.
pub open spec fn last_text(attrs: Seq<AttrModel>, key: Seq<char>) -> Seq<char> {
    match last_value(attrs, key) {
        Some(v) => any_text(v),
        None => Seq::empty(),
    }
}

/// A tool call's outcome.
#[derive(Debug)]
pub struct ToolResult {
    pub session_id: String,
    pub tool_name: String,
    pub duration: Reading,
    pub ok: bool,
}

#[verifier::ext_equal]
pub struct ToolModel {
    pub session: Seq<char>,
    pub tool: Seq<char>,
    pub duration: ReadingModel,
    pub ok: bool,
}

impl ToolResult {
    pub open spec fn model(self) -> ToolModel {
        ToolModel {
            session: self.session_id@,
            tool: self.tool_name@,
            duration: self.duration.model(),
            ok: self.ok,
        }
    }
}

pub open spec fn tool_models(v: Seq<ToolResult>) -> Seq<ToolModel> {
    Seq::new(v.len(), |i: int| v[i].model())
}

/// The event that a log record counts for its session.
pub open spec fn counted_event(attrs: Seq<AttrModel>, list: Seq<Seq<char>>) -> Option<
    (Seq<char>, Seq<char>),
> {
    let session = last_text(attrs, "session.id"@);
    let name = bare(last_text(attrs, "event.name"@));
    if session.len() > 0 && wanted(list, name) {
        Some((session, name))
    } else {
        None
    }
}

/// The outcome that a log record reports. A call without a `success` attribute is a success: that
/// the annotation is missing is no evidence of failure.
pub open spec fn tool_outcome(attrs: Seq<AttrModel>) -> Option<ToolModel> {
    let session = last_text(attrs, "session.id"@);
    let tool = last_text(attrs, "tool_name"@);
    if bare(last_text(attrs, "event.name"@)) == "tool_result"@ && session.len() > 0 && tool.len()
        > 0 {
        Some(
            ToolModel {
                session,
                tool,
                duration: match last_value(attrs, "duration_ms"@) {
                    Some(v) => any_reading(v),
                    None => ReadingModel::Nothing,
                },
                ok: match last_value(attrs, "success"@) {
                    Some(v) => any_bool(v),
                    None => true,
                },
            },
        )
    } else {
        None
    }
}

/// The attributes of a log record; `None` where it is malformed.
pub open spec fn record_attrs(t: Tree) -> Option<Seq<AttrModel>> {
    match t {
        Tree::Obj(m) => match list_of(m, "attributes"@) {
            Some(a) => attrs_of(a),
            None => None,
        },
        _ => None,
    }
}

/// What a logs body says: the events it counts, by session, and the outcomes of tool calls.
#[verifier::ext_equal]
pub struct LogsModel {
    pub events: Seq<(Seq<char>, Seq<char>)>,
    pub tools: Seq<ToolModel>,
}

/// What the first `n` records say.
pub open spec fn all_records(records: Seq<Tree>, list: Seq<Seq<char>>, n: int) -> Option<LogsModel>
    decreases n,
{
    if n <= 0 {
        Some(LogsModel { events: Seq::empty(), tools: Seq::empty() })
    } else {
        match (all_records(records, list, n - 1), record_attrs(records[n - 1])) {
            (Some(rest), Some(attrs)) => Some(
                LogsModel {
                    events: match counted_event(attrs, list) {
                        Some(e) => rest.events.push(e),
                        None => rest.events,
                    },
                    tools: match tool_outcome(attrs) {
                        Some(t) => rest.tools.push(t),
                        None => rest.tools,
                    },
                },
            ),
            _ => None,
        }
    }
}

proof fn lemma_records_fail_early(records: Seq<Tree>, list: Seq<Seq<char>>, n: int)
    requires
        0 <= n <= records.len(),
        all_records(records, list, n) is None,
    ensures
        all_records(records, list, records.len() as int) is None,
    decreases records.len() - n,
{
    if n < records.len() {
        lemma_records_fail_early(records, list, n + 1);
    }
}

/// What a logs body says.
pub open spec fn body_logs(t: Tree, list: Seq<Seq<char>>) -> Option<LogsModel> {
    match leaves(t, seq!["resourceLogs"@, "scopeLogs"@, "logRecords"@]) {
        Some(records) => all_records(records, list, records.len() as int),
        None => None,
    }
}

/// What a logs body says, or why it cannot be decoded.
pub open spec fn decoded_logs(body: Seq<u8>, list: Seq<Seq<char>>) -> Result<LogsModel, Seq<char>> {
    match parsed_bytes(body) {
        Ok(t) => match body_logs(shaped(t, logs_shape()), list) {
            Some(p) => Ok(p),
            None => Err("invalid OTLP/JSON logs body: unexpected shape"@),
        },
        Err(e) => Err("invalid OTLP/JSON logs body: "@ + e),
    }
}

/// The position behind the last attribute with a key, or zero.
fn find_last(attrs: &Vec<KeyValue>, key: &str) -> (r: usize)
    ensures
        r <= attrs.len(),
        r == 0 ==> last_value(attr_models(attrs@), key@) is None,
        r > 0 ==> last_value(attr_models(attrs@), key@) == Some(attrs@[r - 1].value.model()),
{
    let ghost all = attr_models(attrs@);
    let mut i: usize = attrs.len();
    assert(all.take(all.len() as int) =~= all);
    while i > 0
        invariant
            0 <= i <= attrs.len(),
            all == attr_models(attrs@),
            last_value(all, key@) == last_value(all.take(i as int), key@),
        decreases i,
    {
        proof {
            assert(all.take(i as int).drop_last() =~= all.take(i - 1));
            assert(all.take(i as int).last() == attrs@[i - 1].model());
        }
        if same(&attrs[i - 1].key, key) {
            return i;
        }
        i = i - 1;
    }
    0
}

fn text_at(attrs: &Vec<KeyValue>, key: &str) -> (r: String)
    ensures
        r@ == last_text(attr_models(attrs@), key@),
{
    let at = find_last(attrs, key);
    if at > 0 {
        attrs[at - 1].value.as_string()
    } else {
        let out = String::new();
        assert(out@ =~= Seq::<char>::empty());
        out
    }
}

pub open spec fn opt_tool(o: Option<ToolResult>) -> Option<ToolModel> {
    match o {
        Some(t) => Some(t.model()),
        None => None,
    }
}

fn read_tool(attrs: &Vec<KeyValue>) -> (r: Option<ToolResult>)
    ensures
        opt_tool(r) == tool_outcome(attr_models(attrs@)),
{
    let event = normalize(&text_at(attrs, "event.name"));
    let session_id = text_at(attrs, "session.id");
    let tool_name = text_at(attrs, "tool_name");
    if !same(&event, "tool_result") || session_id.as_str().is_empty()
        || tool_name.as_str().is_empty() {
        return None;
    }
    let at = find_last(attrs, "duration_ms");
    let duration = if at > 0 {
        attrs[at - 1].value.reading()
    } else {
        Reading::Nothing
    };
    let at = find_last(attrs, "success");
    let ok = if at > 0 {
        attrs[at - 1].value.as_bool()
    } else {
        true
    };
    Some(ToolResult { session_id, tool_name, duration, ok })
}

/// The decoded part of a logs body.
#[derive(Debug)]
pub struct DecodedLogs {
    /// Session and bare name of each counted event.
    pub events: Vec<(String, String)>,
    pub tool_results: Vec<ToolResult>,
}

impl DecodedLogs {
    pub open spec fn model(self) -> LogsModel {
        LogsModel {
            events: crate::report::pair_views(self.events@),
            tools: tool_models(self.tool_results@),
        }
    }
}

/// Decode a logs body in one walk: the events asked for, and the outcomes of tool calls.
///
/// The body is read as a JSON value first: every member is judged, also one that is not looked at,
/// and where a member is repeated its last value counts.
pub fn parse_logs(bytes: &[u8], list: &Vec<String>) -> (r: Result<DecodedLogs, String>)
    ensures
        match (r, decoded_logs(bytes@, views(list@))) {
            (Ok(v), Ok(w)) => v.model() == w,
            (Err(a), Err(b)) => a@ == b,
            _ => false,
        },
{
    let t = match parse_bytes(bytes) {
        Ok(t) => shape(&t, &logs_fields()),
        Err(e) => {
            return Err(logs_fault(&e));
        },
    };
    let none: Vec<Json> = Vec::new();
    let mut path: Vec<&'static str> = Vec::new();
    path.push("resourceLogs");
    path.push("scopeLogs");
    path.push("logRecords");
    let ghost want = seq!["resourceLogs"@, "scopeLogs"@, "logRecords"@];
    let mut records: Vec<&Json> = Vec::new();
    assert(names(path@) =~= want);
    assert(names(path@).skip(0) =~= want);
    assert(ref_items(records@) =~= Seq::<Tree>::empty());
    if !push_leaves(&mut records, &t, &path, 0, &none) {
        return Err(owned("invalid OTLP/JSON logs body: unexpected shape"));
    }
    let ghost all = ref_items(records@);
    assert(all =~= leaves(t.view(), want)->0);
    let mut events: Vec<(String, String)> = Vec::new();
    let mut tool_results: Vec<ToolResult> = Vec::new();
    let mut i: usize = 0;
    assert(crate::report::pair_views(events@) =~= Seq::<(Seq<char>, Seq<char>)>::empty());
    assert(tool_models(tool_results@) =~= Seq::<ToolModel>::empty());
    while i < records.len()
        invariant
            0 <= i <= records.len(),
            none@.len() == 0,
            all == ref_items(records@),
            parsed_bytes(bytes@) matches Ok(whole) && t.view() == shaped(whole, logs_shape()),
            leaves(t.view(), want) == Some(all),
            want == seq!["resourceLogs"@, "scopeLogs"@, "logRecords"@],
            all_records(all, views(list@), i as int) == Some(
                LogsModel {
                    events: crate::report::pair_views(events@),
                    tools: tool_models(tool_results@),
                },
            ),
        decreases records.len() - i,
    {
        assert(all[i as int] == records@[i as int].view());
        let attrs = match records[i] {
            Json::Object(m) => match list_in(m, "attributes", &none) {
                Some(a) => read_attrs(a),
                None => None,
            },
            _ => None,
        };
        let attrs = match attrs {
            Some(v) => v,
            None => {
                proof {
                    lemma_records_fail_early(all, views(list@), i + 1);
                }
                return Err(owned("invalid OTLP/JSON logs body: unexpected shape"));
            },
        };
        let session = text_at(&attrs, "session.id");
        let name = normalize(&text_at(&attrs, "event.name"));
        if !session.as_str().is_empty() && is_wanted(list, &name) {
            let ghost held = events@;
            let ghost pair = (session@, name@);
            events.push((session, name));
            assert(crate::report::pair_views(events@) =~= crate::report::pair_views(held).push(
                pair,
            ));
        }
        if let Some(one) = read_tool(&attrs) {
            let ghost held = tool_results@;
            tool_results.push(one);
            assert(tool_models(tool_results@) =~= tool_models(held).push(one.model()));
        }
        i = i + 1;
    }
    Ok(DecodedLogs { events, tool_results })
}

/// The events asked for of a logs body: session and bare name of each.
pub fn parse_events(bytes: &[u8], list: &Vec<String>) -> (r: Result<Vec<(String, String)>, String>)
    ensures
        match (r, decoded_logs(bytes@, views(list@))) {
            (Ok(v), Ok(w)) => crate::report::pair_views(v@) == w.events,
            (Err(a), Err(b)) => a@ == b,
            _ => false,
        },
{
    match parse_logs(bytes, list) {
        Ok(d) => Ok(d.events),
        Err(e) => Err(e),
    }
}

/// The outcomes of the tool calls of a logs body.
pub fn parse_tool_results(bytes: &[u8]) -> (r: Result<Vec<ToolResult>, String>)
    ensures
        match (r, decoded_logs(bytes@, Seq::empty())) {
            (Ok(v), Ok(w)) => tool_models(v@) == w.tools,
            (Err(a), Err(b)) => a@ == b,
            _ => false,
        },
{
    let none: Vec<String> = Vec::new();
    assert(views(none@) =~= Seq::<Seq<char>>::empty());
    match parse_logs(bytes, &none) {
        Ok(d) => Ok(d.tool_results),
        Err(e) => Err(e),
    }
}

// ---------------------------------------------------------------------------------------------
// Laws
// ---------------------------------------------------------------------------------------------

proof fn lemma_points_attributed(a: Seq<Tree>, name: Seq<char>, delta: bool, n: int)
    requires
        points_of(a, name, delta, n) is Some,
    ensures
        forall|i: int|
            0 <= i < points_of(a, name, delta, n)->0.len() ==> (#[trigger] points_of(
                a,
                name,
                delta,
                n,
            )->0[i]).session.len() > 0 && points_of(a, name, delta, n)->0[i].name == name,
    decreases n,
{
    if n > 0 {
        lemma_points_attributed(a, name, delta, n - 1);
    }
}

proof fn lemma_metric_attributed(t: Tree, list: Seq<Seq<char>>)
    requires
        metric_points(t, list) is Some,
    ensures
        forall|i: int|
            0 <= i < metric_points(t, list)->0.len() ==> (#[trigger] metric_points(
                t,
                list,
            )->0[i]).session.len() > 0 && wanted(list, metric_points(t, list)->0[i].name),
{
    let m = t->Obj_0;
    let name = bare(metric_name(m)->0);
    if let Some(Tree::Obj(s)) = slot(m, "sum"@) {
        let delta = slot(s, "aggregationTemporality"@) matches Some(t) && is_increment(t);
        let a = list_of(s, "dataPoints"@)->0;
        lemma_points_attributed(a, name, delta, a.len() as int);
    }
    if let Some(Tree::Obj(s)) = slot(m, "gauge"@) {
        reveal_strlit("sum");
        reveal_strlit("gauge");
        assert("sum"@.len() != "gauge"@.len());
        let a = list_of(s, "dataPoints"@)->0;
        lemma_points_attributed(a, name, false, a.len() as int);
    }
}

proof fn lemma_all_attributed(metrics: Seq<Tree>, list: Seq<Seq<char>>, n: int)
    requires
        all_points(metrics, list, n) is Some,
    ensures
        forall|i: int|
            0 <= i < all_points(metrics, list, n)->0.len() ==> (#[trigger] all_points(
                metrics,
                list,
                n,
            )->0[i]).session.len() > 0 && wanted(list, all_points(metrics, list, n)->0[i].name),
    decreases n,
{
    if n > 0 {
        lemma_all_attributed(metrics, list, n - 1);
        lemma_metric_attributed(metrics[n - 1], list);
        let rest = all_points(metrics, list, n - 1)->0;
        let more = metric_points(metrics[n - 1], list)->0;
        let all = all_points(metrics, list, n)->0;
        assert forall|i: int| 0 <= i < all.len() implies (#[trigger] all[i]).session.len() > 0
            && wanted(list, all[i].name) by {
            if i < rest.len() {
                assert(all[i] == rest[i]);
            } else {
                assert(all[i] == more[i - rest.len()]);
            }
        }
    }
}

/// Every decoded datapoint belongs to a session and to a metric that was asked for.
pub proof fn law_every_point_is_attributed(t: Tree, list: Seq<Seq<char>>, i: int)
    requires
        body_points(t, list) is Some,
        0 <= i < body_points(t, list)->0.len(),
    ensures
        body_points(t, list)->0[i].session.len() > 0,
        wanted(list, body_points(t, list)->0[i].name),
{
    let metrics = leaves(t, seq!["resourceMetrics"@, "scopeMetrics"@, "metrics"@])->0;
    lemma_all_attributed(metrics, list, metrics.len() as int);
}

} // verus!
