//! The JSON tree the library works on, and the calls into `serde_json` that read and write it.
//!
//! [`Json`] is the executable value, [`Tree`] its mathematical model. Text enters through
//! [`parse`] and [`parse_bytes`] and leaves through [`compact`] and [`pretty`].
use vstd::prelude::*;
use crate::sorted::{ascending, insert, lemma_ascending_unique, lemma_inserted, same_elements};
use crate::text::{cat3, join, joined, owned, same, views};

verus! {

broadcast use vstd::map::group_map_axioms;

/// `serde_json::Value`, carried opaquely between the calls below.
#[verifier::external_type_specification]
#[verifier::external_body]
pub struct ExValue(serde_json::Value);

/// `serde_json::Number`, carried opaquely inside a [`Json`].
#[verifier::external_type_specification]
#[verifier::external_body]
pub struct ExNumber(serde_json::Number);

/// The mathematical JSON tree. An object is a finite map: member order carries no meaning, and a
/// number is the text it prints as.
#[verifier::ext_equal]
pub enum Tree {
    Null,
    Bool(bool),
    Num(Seq<char>),
    Str(Seq<char>),
    Arr(Seq<Tree>),
    Obj(Map<Seq<char>, Tree>),
}

/// A JSON value.
#[derive(Debug, PartialEq)]
pub enum Json {
    Null,
    Bool(bool),
    Number(serde_json::Number),
    Str(String),
    Array(Vec<Json>),
    Object(Vec<(String, Json)>),
}

impl Json {
    /// The tree a value stands for. Where a key is repeated, its last member counts.
    pub open spec fn view(self) -> Tree
        decreases self,
    {
        match self {
            Json::Null => Tree::Null,
            Json::Bool(b) => Tree::Bool(b),
            Json::Number(n) => Tree::Num(number_text(n)),
            Json::Str(s) => Tree::Str(s@),
            Json::Array(v) => Tree::Arr(items(v@)),
            Json::Object(m) => Tree::Obj(members(m@)),
        }
    }
}

/// The trees of a list of values.
pub open spec fn items(v: Seq<Json>) -> Seq<Tree>
    decreases v,
{
    Seq::new(v.len(), |i: int| if 0 <= i < v.len() { v[i].view() } else { Tree::Null })
}

/// The map a list of members stands for.
pub open spec fn members(m: Seq<(String, Json)>) -> Map<Seq<char>, Tree>
    decreases m,
{
    if m.len() == 0 {
        Map::empty()
    } else {
        members(m.drop_last()).insert(m.last().0@, m.last().1.view())
    }
}

// ---------------------------------------------------------------------------------------------
// What is taken from serde_json
// ---------------------------------------------------------------------------------------------

/// The text that `serde_json::Number` prints as.
pub uninterp spec fn number_text(n: serde_json::Number) -> Seq<char>;

/// The tree that a `serde_json::Value` holds.
pub uninterp spec fn value_tree(v: serde_json::Value) -> Tree;

/// What `serde_json::from_str` makes of a text: the tree, or the message of its error.
pub uninterp spec fn parsed(s: Seq<char>) -> Result<Tree, Seq<char>>;

/// What `serde_json::from_slice` makes of a byte string: the tree, or the message of its error.
pub uninterp spec fn parsed_bytes(b: Seq<u8>) -> Result<Tree, Seq<char>>;

/// The text that `serde_json::to_string` writes for a tree.
pub uninterp spec fn compact_text(t: Tree) -> Seq<char>;

/// The text that `serde_json::to_string_pretty` writes for a tree.
pub uninterp spec fn pretty_text(t: Tree) -> Seq<char>;

/// Cloning a `serde_json::Number` yields the same number.
pub assume_specification[ <serde_json::Number as Clone>::clone ](
    n: &serde_json::Number,
) -> (r: serde_json::Number)
    ensures
        r == *n,
;

/// `serde_json::Number::to_string`: the text of the number.
#[verifier::external_body]
pub(crate) fn show_number(n: &serde_json::Number) -> (r: String)
    ensures
        r@ == number_text(*n),
{
    n.to_string()
}

/// `serde_json::Number::from` on an `i64`: the number prints as the decimal digits of `x`, with a
/// minus sign in front where it is negative.
#[verifier::external_body]
pub(crate) fn integer_number(x: i64) -> (r: serde_json::Number)
    ensures
        number_text(r) == crate::decimal::int_text(x as int),
{
    serde_json::Number::from(x)
}

/// `serde_json::Number::from` on a `u64`: the number prints as the decimal digits of `x`.
#[verifier::external_body]
pub(crate) fn natural_number(x: u64) -> (r: serde_json::Number)
    ensures
        number_text(r) == crate::decimal::nat_text(x as nat),
{
    serde_json::Number::from(x)
}

/// One level of a `serde_json::Value`, with its children still opaque.
pub enum Shape {
    Null,
    Bool(bool),
    Number(serde_json::Number),
    Str(String),
    Array(Vec<serde_json::Value>),
    Object(Vec<(String, serde_json::Value)>),
}

/// The trees of a list of opaque values.
pub open spec fn value_items(v: Seq<serde_json::Value>) -> Seq<Tree> {
    Seq::new(v.len(), |i: int| value_tree(v[i]))
}

/// The map a list of opaque members stands for; a later member replaces an earlier one.
pub open spec fn value_members(m: Seq<(String, serde_json::Value)>) -> Map<Seq<char>, Tree>
    decreases m.len(),
{
    if m.len() == 0 {
        Map::empty()
    } else {
        value_members(m.drop_last()).insert(m.last().0@, value_tree(m.last().1))
    }
}

/// The tree of one level and its children.
pub open spec fn shape_tree(s: Shape) -> Tree {
    match s {
        Shape::Null => Tree::Null,
        Shape::Bool(b) => Tree::Bool(b),
        Shape::Number(n) => Tree::Num(number_text(n)),
        Shape::Str(t) => Tree::Str(t@),
        Shape::Array(v) => Tree::Arr(value_items(v@)),
        Shape::Object(m) => Tree::Obj(value_members(m@)),
    }
}

/// The keys of a list of opaque members are all different.
pub open spec fn distinct_keys(m: Seq<(String, serde_json::Value)>) -> bool {
    forall|i: int, j: int| 0 <= i < j < m.len() ==> #[trigger] m[i].0@ != #[trigger] m[j].0@
}

/// Matching on a `serde_json::Value`: its variant with the fields moved out. An object hands out
/// each of its members once, so no key repeats.
#[verifier::external_body]
pub(crate) fn take_apart(v: serde_json::Value) -> (r: Shape)
    ensures
        shape_tree(r) == value_tree(v),
        r matches Shape::Object(m) ==> distinct_keys(m@),
{
    match v {
        serde_json::Value::Null => Shape::Null,
        serde_json::Value::Bool(b) => Shape::Bool(b),
        serde_json::Value::Number(n) => Shape::Number(n),
        serde_json::Value::String(s) => Shape::Str(s),
        serde_json::Value::Array(a) => Shape::Array(a),
        serde_json::Value::Object(m) => Shape::Object(m.into_iter().collect()),
    }
}

/// The constructors of `serde_json::Value`. Members with different keys are collected into its map
/// as they are.
#[verifier::external_body]
pub(crate) fn put_together(s: Shape) -> (r: serde_json::Value)
    requires
        s matches Shape::Object(m) ==> distinct_keys(m@),
    ensures
        value_tree(r) == shape_tree(s),
{
    match s {
        Shape::Null => serde_json::Value::Null,
        Shape::Bool(b) => serde_json::Value::Bool(b),
        Shape::Number(n) => serde_json::Value::Number(n),
        Shape::Str(s) => serde_json::Value::String(s),
        Shape::Array(a) => serde_json::Value::Array(a),
        Shape::Object(m) => serde_json::Value::Object(m.into_iter().collect()),
    }
}

/// The text of an integer that `serde_json` holds exactly.
pub open spec fn integer_text(s: Seq<char>) -> bool {
    exists|x: int| i64::MIN <= x <= u64::MAX && s == #[trigger] crate::decimal::int_text(x)
}

/// The key that `serde_json` keeps to itself: an object that begins with it is not read as an
/// object, but as the JSON text that the member holds.
pub open spec fn reserved_key() -> Seq<char> {
    "$serde_json::private::RawValue"@
}

/// A key of another length is not reserved.
pub proof fn lemma_reserved_key()
    ensures
        reserved_key().len() == 30,
{
    reveal_strlit("$serde_json::private::RawValue");
}

/// A tree that reads back as it was written: every number is an integer, no key is reserved, and it
/// is nested at most `depth` deep.
pub open spec fn plain(t: Tree, depth: nat) -> bool
    decreases depth,
{
    match t {
        Tree::Num(s) => integer_text(s),
        Tree::Arr(v) => depth > 0 && forall|i: int|
            0 <= i < v.len() ==> plain(#[trigger] v[i], (depth - 1) as nat),
        Tree::Obj(m) => depth > 0 && m.dom().finite() && !m.contains_key(reserved_key())
            && forall|k: Seq<char>|
            m.contains_key(k) ==> plain(#[trigger] m[k], (depth - 1) as nat),
        _ => true,
    }
}

/// How deep a member may be nested for its text to be read back.
pub const PLAIN_DEPTH: usize = 100;

/// Members that read back as they were written.
pub open spec fn plain_members(m: Seq<(Seq<char>, Tree)>) -> bool {
    forall|i: int|
        0 <= i < m.len() ==> (#[trigger] m[i]).0 != reserved_key() && plain(
            m[i].1,
            PLAIN_DEPTH as nat,
        )
}

/// A text that a log holds as one record: it is not blank, and no line break is in it or is taken
/// for part of its end.
pub open spec fn one_line(s: Seq<char>) -> bool {
    &&& !s.contains('\n')
    &&& !crate::text::is_blank(s)
    &&& s.last() != '\r'
}

/// One member in compact form.
pub open spec fn member_text(m: (Seq<char>, Tree)) -> Seq<char> {
    compact_text(Tree::Str(m.0)) + ":"@ + compact_text(m.1)
}

/// An object in compact form, its members in the given order.
pub open spec fn object_text(m: Seq<(Seq<char>, Tree)>) -> Seq<char> {
    "{"@ + joined(Seq::new(m.len(), |i: int| member_text(m[i])), ","@) + "}"@
}

/// The map of a list of members; a later member replaces an earlier one.
pub open spec fn member_map(m: Seq<(Seq<char>, Tree)>) -> Map<Seq<char>, Tree>
    decreases m.len(),
{
    if m.len() == 0 {
        Map::empty()
    } else {
        member_map(m.drop_last()).insert(m.last().0, m.last().1)
    }
}

/// A member whose key does not recur behind it is what the map has for its key.
pub proof fn lemma_member_map_at(m: Seq<(Seq<char>, Tree)>, at: int)
    requires
        0 <= at < m.len(),
        forall|k: int| at < k < m.len() ==> (#[trigger] m[k]).0 != m[at].0,
    ensures
        member_map(m).contains_key(m[at].0),
        member_map(m)[m[at].0] == m[at].1,
    decreases m.len(),
{
    if at < m.len() - 1 {
        assert(m[m.len() - 1].0 != m[at].0);
        lemma_member_map_at(m.drop_last(), at);
    }
}

/// A plain tree reads back from its compact form, and an object that was put together from member
/// texts reads back as those members.
pub open spec fn reads_back(s: Seq<char>, r: Result<serde_json::Value, String>) -> bool {
    &&& forall|t: Tree|
        s == #[trigger] compact_text(t) && plain(t, PLAIN_DEPTH as nat) ==> (r matches Ok(v)
            && value_tree(v) == t)
    &&& forall|m: Seq<(Seq<char>, Tree)>|
        s == #[trigger] object_text(m) && plain_members(m) ==> (r matches Ok(v) && value_tree(v)
            == Tree::Obj(member_map(m)))
}

/// `serde_json::from_str` into a `Value`. What it accepts, and the message of its error, are the
/// crate's own; but what `serde_json` wrote reads back as itself, and an object put together from
/// member texts that it wrote reads back as those members, where there is no number but integers,
/// no reserved key and no nesting too deep.
#[verifier::external_body]
pub(crate) fn read_value(s: &str) -> (r: Result<serde_json::Value, String>)
    ensures
        match r {
            Ok(v) => parsed(s@) == Ok::<Tree, Seq<char>>(value_tree(v)),
            Err(e) => parsed(s@) == Err::<Tree, Seq<char>>(e@),
        },
        reads_back(s@, r),
{
    serde_json::from_str::<serde_json::Value>(s).map_err(|e| e.to_string())
}

/// `serde_json::from_slice` into a `Value`.
#[verifier::external_body]
pub(crate) fn read_value_bytes(b: &[u8]) -> (r: Result<serde_json::Value, String>)
    ensures
        match r {
            Ok(v) => parsed_bytes(b@) == Ok::<Tree, Seq<char>>(value_tree(v)),
            Err(e) => parsed_bytes(b@) == Err::<Tree, Seq<char>>(e@),
        },
{
    serde_json::from_slice::<serde_json::Value>(b).map_err(|e| e.to_string())
}

/// `Value::to_string`, the compact form of `serde_json::to_string`. It stands on one line: a line
/// break inside a string is escaped, and none is put between the parts.
#[verifier::external_body]
pub(crate) fn write_value(v: &serde_json::Value) -> (r: String)
    ensures
        r@ == compact_text(value_tree(*v)),
        !r@.contains('\n'),
{
    v.to_string()
}

/// `serde_json::to_string_pretty`, printed through `Value`'s alternate `Display` form.
#[verifier::external_body]
pub(crate) fn write_value_pretty(v: &serde_json::Value) -> (r: String)
    ensures
        r@ == pretty_text(value_tree(*v)),
{
    format!("{v:#}")
}

// ---------------------------------------------------------------------------------------------
// Members
// ---------------------------------------------------------------------------------------------

/// The last position of `key` in a list of members is the one the map reads; a key that occurs
/// nowhere is not in the map.
pub proof fn lemma_members_at(m: Seq<(String, Json)>, key: Seq<char>, at: int)
    requires
        0 <= at < m.len(),
        m[at].0@ == key,
        forall|k: int| at < k < m.len() ==> m[k].0@ != key,
    ensures
        members(m).contains_key(key),
        members(m)[key] == m[at].1.view(),
    decreases m.len(),
{
    if at < m.len() - 1 {
        lemma_members_at(m.drop_last(), key, at);
    }
}

pub proof fn lemma_members_absent(m: Seq<(String, Json)>, key: Seq<char>)
    requires
        forall|k: int| 0 <= k < m.len() ==> m[k].0@ != key,
    ensures
        !members(m).contains_key(key),
    decreases m.len(),
{
    if m.len() > 0 {
        lemma_members_absent(m.drop_last(), key);
    }
}

/// Putting a member in at any place in front of which no equal key stands behind.
proof fn lemma_members_insert(m: Seq<(String, Json)>, at: int, e: (String, Json))
    requires
        0 <= at <= m.len(),
        forall|k: int| 0 <= k < m.len() ==> m[k].0@ != e.0@,
    ensures
        members(m.insert(at, e)) == members(m).insert(e.0@, e.1.view()),
    decreases m.len(),
{
    let n = m.insert(at, e);
    if at == m.len() {
        assert(n.drop_last() =~= m);
    } else {
        assert(n.drop_last() =~= m.drop_last().insert(at, e));
        assert(n.last() == m.last());
        lemma_members_insert(m.drop_last(), at, e);
        assert(members(m.drop_last()).insert(e.0@, e.1.view()).insert(
            m.last().0@,
            m.last().1.view(),
        ) =~= members(m.drop_last()).insert(m.last().0@, m.last().1.view()).insert(
            e.0@,
            e.1.view(),
        ));
    }
}

/// Replacing the last member with a key replaces what the map holds for it.
proof fn lemma_members_update(m: Seq<(String, Json)>, at: int, e: (String, Json))
    requires
        0 <= at < m.len(),
        m[at].0@ == e.0@,
        forall|k: int| at < k < m.len() ==> m[k].0@ != e.0@,
    ensures
        members(m.update(at, e)) == members(m).insert(e.0@, e.1.view()),
    decreases m.len(),
{
    let n = m.update(at, e);
    if at == m.len() - 1 {
        assert(n.drop_last() =~= m.drop_last());
        assert(members(m.drop_last()).insert(e.0@, e.1.view()) =~= members(m.drop_last()).insert(
            m.last().0@,
            m.last().1.view(),
        ).insert(e.0@, e.1.view()));
    } else {
        assert(n.drop_last() =~= m.drop_last().update(at, e));
        assert(n.last() == m.last());
        lemma_members_update(m.drop_last(), at, e);
        assert(members(m.drop_last()).insert(e.0@, e.1.view()).insert(
            m.last().0@,
            m.last().1.view(),
        ) =~= members(m.drop_last()).insert(m.last().0@, m.last().1.view()).insert(
            e.0@,
            e.1.view(),
        ));
    }
}

/// The map of a list of members is finite.
pub proof fn lemma_members_finite(m: Seq<(String, Json)>)
    ensures
        members(m).dom().finite(),
    decreases m.len(),
{
    if m.len() > 0 {
        lemma_members_finite(m.drop_last());
    }
}

/// The position of the last member named `key`, or the length of the list where there is none.
pub fn find_member(m: &Vec<(String, Json)>, key: &str) -> (r: usize)
    ensures
        r <= m.len(),
        r < m.len() ==> m@[r as int].0@ == key@ && members(m@).contains_key(key@)
            && members(m@)[key@] == m@[r as int].1.view() && (forall|k: int|
            r < k < m.len() ==> m@[k].0@ != key@),
        r == m.len() ==> !members(m@).contains_key(key@) && (forall|k: int|
            0 <= k < m.len() ==> m@[k].0@ != key@),
{
    let mut i: usize = m.len();
    while i > 0
        invariant
            0 <= i <= m.len(),
            forall|k: int| i <= k < m.len() ==> m@[k].0@ != key@,
        decreases i,
    {
        if same(&m[i - 1].0, key) {
            proof {
                lemma_members_at(m@, key@, i - 1);
            }
            return i - 1;
        }
        i = i - 1;
    }
    proof {
        lemma_members_absent(m@, key@);
    }
    m.len()
}

/// Set a member, in place where the key is already there and in key order where it is not.
pub fn set_member(m: &mut Vec<(String, Json)>, key: &str, value: Json)
    ensures
        members(final(m)@) == members(old(m)@).insert(key@, value.view()),
{
    let at = find_member(m, key);
    let entry = (owned(key), value);
    if at < m.len() {
        proof {
            lemma_members_update(m@, at as int, entry);
        }
        m.set(at, entry);
    } else {
        let mut p: usize = 0;
        while p < m.len() && crate::order::less(&m[p].0, key)
            invariant
                0 <= p <= m.len(),
            decreases m.len() - p,
        {
            p = p + 1;
        }
        proof {
            lemma_members_insert(m@, p as int, entry);
        }
        m.insert(p, entry);
    }
}

proof fn lemma_members_without(m: Seq<(String, Json)>, i: int, key: Seq<char>, kept: Seq<(String, Json)>)
    requires
        0 <= i < m.len(),
        members(kept) == members(m.take(i)).remove(key),
    ensures
        m[i].0@ == key ==> members(kept) == members(m.take(i + 1)).remove(key),
        m[i].0@ != key ==> members(kept).insert(m[i].0@, m[i].1.view()) == members(
            m.take(i + 1),
        ).remove(key),
{
    let t = m.take(i + 1);
    assert(t.drop_last() =~= m.take(i));
    assert(t.last() == m[i]);
    if m[i].0@ == key {
        assert(members(t).remove(key) =~= members(m.take(i)).remove(key));
    } else {
        assert(members(m.take(i)).remove(key).insert(m[i].0@, m[i].1.view()) =~= members(t).remove(
            key,
        ));
    }
}

/// Remove a member.
pub fn remove_member(m: &mut Vec<(String, Json)>, key: &str)
    ensures
        members(final(m)@) == members(old(m)@).remove(key@),
        final(m)@.len() <= old(m)@.len(),
{
    let mut out: Vec<(String, Json)> = Vec::new();
    let mut i: usize = 0;
    assert(members(m@.take(0)).remove(key@) =~= Map::empty());
    while i < m.len()
        invariant
            0 <= i <= m.len(),
            m@ == old(m)@,
            out.len() <= i,
            members(out@) == members(m@.take(i as int)).remove(key@),
        decreases m.len() - i,
    {
        proof {
            lemma_members_without(m@, i as int, key@, out@);
        }
        if !same(&m[i].0, key) {
            let ghost held = out@;
            out.push((owned(&m[i].0), dup(&m[i].1)));
            assert(out@.drop_last() =~= held);
        }
        i = i + 1;
    }
    assert(m@.take(m.len() as int) =~= m@);
    *m = out;
}

/// Whether a list of members is empty decides whether its map is.
pub proof fn lemma_members_empty(m: Seq<(String, Json)>)
    ensures
        m.len() == 0 <==> members(m) =~= Map::<Seq<char>, Tree>::empty(),
{
    if m.len() > 0 {
        assert(members(m).contains_key(m.last().0@));
    }
}

/// An independent copy of a JSON value.
pub fn dup(j: &Json) -> (r: Json)
    ensures
        r.view() == j.view(),
    decreases j,
{
    match j {
        Json::Null => Json::Null,
        Json::Bool(b) => Json::Bool(*b),
        Json::Number(n) => Json::Number(n.clone()),
        Json::Str(s) => Json::Str(owned(s)),
        Json::Array(v) => Json::Array(dup_items(v)),
        Json::Object(m) => Json::Object(dup_members(m)),
    }
}

/// An independent copy of a list of values.
pub fn dup_items(v: &Vec<Json>) -> (r: Vec<Json>)
    ensures
        items(r@) == items(v@),
        r.len() == v.len(),
    decreases v,
{
    let mut out: Vec<Json> = Vec::new();
    let mut i: usize = 0;
    while i < v.len()
        invariant
            0 <= i <= v.len(),
            out.len() == i,
            forall|k: int| 0 <= k < i ==> (#[trigger] out@[k]).view() == v@[k].view(),
        decreases v.len() - i,
    {
        proof {
            assert(decreases_to!(v => v@[i as int]));
        }
        out.push(dup(&v[i]));
        i = i + 1;
    }
    assert(items(out@) =~= items(v@));
    out
}

/// An independent copy of a list of members.
pub fn dup_members(m: &Vec<(String, Json)>) -> (r: Vec<(String, Json)>)
    ensures
        members(r@) == members(m@),
        r.len() == m.len(),
        forall|k: int| 0 <= k < m.len() ==> (#[trigger] r@[k]).0@ == m@[k].0@ && r@[k].1.view()
            == m@[k].1.view(),
    decreases m,
{
    let mut out: Vec<(String, Json)> = Vec::new();
    let mut i: usize = 0;
    while i < m.len()
        invariant
            0 <= i <= m.len(),
            out.len() == i,
            members(out@) == members(m@.take(i as int)),
            forall|k: int| 0 <= k < i ==> (#[trigger] out@[k]).0@ == m@[k].0@ && out@[k].1.view()
                == m@[k].1.view(),
        decreases m.len() - i,
    {
        let entry = (owned(&m[i].0), dup(&m[i].1));
        proof {
            assert(out@.push(entry).drop_last() =~= out@);
            assert(m@.take(i + 1).drop_last() =~= m@.take(i as int));
        }
        out.push(entry);
        i = i + 1;
    }
    assert(m@.take(m.len() as int) =~= m@);
    out
}

impl Clone for Json {
    fn clone(&self) -> (r: Self)
        ensures
            r.view() == self.view(),
    {
        dup(self)
    }
}

// ---------------------------------------------------------------------------------------------
// Between Json and serde_json
// ---------------------------------------------------------------------------------------------

proof fn lemma_value_members_at(m: Seq<(String, serde_json::Value)>, at: int)
    requires
        distinct_keys(m),
        0 <= at < m.len(),
    ensures
        value_members(m).contains_key(m[at].0@),
        value_members(m)[m[at].0@] == value_tree(m[at].1),
    decreases m.len(),
{
    if at < m.len() - 1 {
        lemma_value_members_at(m.drop_last(), at);
        assert(m.drop_last()[at] == m[at]);
        assert(m[at].0@ != m[m.len() - 1].0@);
    }
}

proof fn lemma_value_members_finite(m: Seq<(String, serde_json::Value)>)
    ensures
        value_members(m).dom().finite(),
    decreases m.len(),
{
    if m.len() > 0 {
        lemma_value_members_finite(m.drop_last());
    }
}

/// Convert an outside value.
pub(crate) fn from_value(v: serde_json::Value) -> (r: Json)
    ensures
        r.view() == value_tree(v),
    decreases value_tree(v),
{
    let ghost tree = value_tree(v);
    match take_apart(v) {
        Shape::Null => Json::Null,
        Shape::Bool(b) => Json::Bool(b),
        Shape::Number(n) => Json::Number(n),
        Shape::Str(s) => Json::Str(s),
        Shape::Array(a) => {
            let ghost all = a@;
            let mut rest = a;
            let mut back: Vec<Json> = Vec::new();
            while rest.len() > 0
                invariant
                    tree == Tree::Arr(value_items(all)),
                    tree == value_tree(v),
                    rest.len() + back.len() == all.len(),
                    rest@ == all.take(rest.len() as int),
                    forall|k: int|
                        0 <= k < back.len() ==> (#[trigger] back@[k]).view() == value_tree(
                            all[all.len() - 1 - k],
                        ),
                decreases rest.len(),
            {
                let ghost at = rest.len() - 1;
                let last = rest.pop().unwrap();
                proof {
                    assert(all.take(at + 1).drop_last() =~= all.take(at));
                    assert(value_items(all)[at] == value_tree(last));
                    assert(decreases_to!(tree => tree->Arr_0));
                    assert(decreases_to!(tree->Arr_0 => tree->Arr_0[at]));
                }
                back.push(from_value(last));
            }
            let mut out: Vec<Json> = Vec::new();
            while back.len() > 0
                invariant
                    back.len() + out.len() == all.len(),
                    forall|k: int|
                        0 <= k < back.len() ==> (#[trigger] back@[k]).view() == value_tree(
                            all[all.len() - 1 - k],
                        ),
                    forall|k: int|
                        0 <= k < out.len() ==> (#[trigger] out@[k]).view() == value_tree(all[k]),
                decreases back.len(),
            {
                let last = back.pop().unwrap();
                out.push(last);
            }
            assert(items(out@) =~= value_items(all));
            Json::Array(out)
        },
        Shape::Object(m) => {
            let ghost all = m@;
            let mut rest = m;
            let mut back: Vec<(String, Json)> = Vec::new();
            while rest.len() > 0
                invariant
                    tree == Tree::Obj(value_members(all)),
                    tree == value_tree(v),
                    distinct_keys(all),
                    rest.len() + back.len() == all.len(),
                    rest@ == all.take(rest.len() as int),
                    forall|k: int|
                        0 <= k < back.len() ==> (#[trigger] back@[k]).1.view() == value_tree(
                            all[all.len() - 1 - k].1,
                        ) && back@[k].0@ == all[all.len() - 1 - k].0@,
                decreases rest.len(),
            {
                let ghost at = rest.len() - 1;
                let (key, last) = rest.pop().unwrap();
                proof {
                    assert(all.take(at + 1).drop_last() =~= all.take(at));
                    lemma_value_members_at(all, at);
                    lemma_value_members_finite(all);
                    assert(decreases_to!(tree => tree->Obj_0));
                    assert(decreases_to!(tree->Obj_0 => tree->Obj_0[key@]));
                }
                back.push((key, from_value(last)));
            }
            let mut out: Vec<(String, Json)> = Vec::new();
            while back.len() > 0
                invariant
                    back.len() + out.len() == all.len(),
                    forall|k: int|
                        0 <= k < back.len() ==> (#[trigger] back@[k]).1.view() == value_tree(
                            all[all.len() - 1 - k].1,
                        ) && back@[k].0@ == all[all.len() - 1 - k].0@,
                    members(out@) == value_members(all.take(out.len() as int)),
                decreases back.len(),
            {
                let ghost at = out.len() as int;
                let ghost held = out@;
                let last = back.pop().unwrap();
                out.push(last);
                proof {
                    assert(out@.drop_last() =~= held);
                    assert(all.take(at + 1).drop_last() =~= all.take(at));
                }
            }
            assert(all.take(all.len() as int) =~= all);
            Json::Object(out)
        },
    }
}

/// No member behind a place has the key of the member there.
spec fn last_of_its_key(m: Seq<(String, Json)>, at: int) -> bool {
    forall|k: int| at < k < m.len() ==> (#[trigger] m[k]).0@ != m[at].0@
}

/// A key that no member from a place on has.
spec fn lies_before(m: Seq<(String, Json)>, at: int, key: Seq<char>) -> bool {
    forall|k: int| at <= k < m.len() ==> (#[trigger] m[k]).0@ != key
}

/// A key of a map of members is that of a member behind which it does not recur.
proof fn lemma_members_last(m: Seq<(String, Json)>, key: Seq<char>)
    ensures
        members(m).contains_key(key) ==> exists|at: int|
            0 <= at < m.len() && (#[trigger] m[at]).0@ == key && last_of_its_key(m, at),
    decreases m.len(),
{
    if m.len() > 0 && members(m).contains_key(key) {
        if m.last().0@ == key {
            assert(m[m.len() - 1].0@ == key && last_of_its_key(m, m.len() - 1));
        } else {
            let front = m.drop_last();
            lemma_members_last(front, key);
            let at = choose|at: int|
                0 <= at < front.len() && (#[trigger] front[at]).0@ == key && last_of_its_key(
                    front,
                    at,
                );
            assert forall|k: int| at < k < m.len() implies (#[trigger] m[k]).0@ != m[at].0@ by {
                if k < front.len() {
                    assert(front[k] == m[k]);
                }
            }
            assert(m[at].0@ == key && last_of_its_key(m, at));
        }
    }
}

/// A key of a map of opaque members is that of one of them, and so is its value.
proof fn lemma_value_members_from(m: Seq<(String, serde_json::Value)>, key: Seq<char>)
    ensures
        value_members(m).contains_key(key) ==> exists|at: int|
            0 <= at < m.len() && (#[trigger] m[at]).0@ == key && value_members(m)[key]
                == value_tree(m[at].1),
    decreases m.len(),
{
    if m.len() > 0 && value_members(m).contains_key(key) {
        if m.last().0@ == key {
            assert(m[m.len() - 1].0@ == key);
        } else {
            let front = m.drop_last();
            lemma_value_members_from(front, key);
            let at = choose|at: int|
                0 <= at < front.len() && (#[trigger] front[at]).0@ == key && value_members(
                    front,
                )[key] == value_tree(front[at].1);
            assert(m[at].0@ == key);
        }
    }
}

/// Convert to an outside value; a later member replaces an earlier one with its key.
pub(crate) fn to_value(j: &Json) -> (r: serde_json::Value)
    ensures
        value_tree(r) == j.view(),
    decreases j,
{
    match j {
        Json::Null => put_together(Shape::Null),
        Json::Bool(b) => put_together(Shape::Bool(*b)),
        Json::Number(n) => put_together(Shape::Number(n.clone())),
        Json::Str(s) => put_together(Shape::Str(owned(s))),
        Json::Array(v) => {
            let mut out: Vec<serde_json::Value> = Vec::new();
            let mut i: usize = 0;
            while i < v.len()
                invariant
                    0 <= i <= v.len(),
                    out.len() == i,
                    *j == Json::Array(*v),
                    forall|k: int| 0 <= k < i ==> value_tree(#[trigger] out@[k]) == v@[k].view(),
                decreases v.len() - i,
            {
                proof {
                    assert(decreases_to!(j => j->Array_0));
                    assert(decreases_to!(j->Array_0 => j->Array_0@[i as int]));
                }
                out.push(to_value(&v[i]));
                i = i + 1;
            }
            assert(value_items(out@) =~= items(v@));
            put_together(Shape::Array(out))
        },
        Json::Object(m) => {
            let mut out: Vec<(String, serde_json::Value)> = Vec::new();
            let mut i: usize = 0;
            while i < m.len()
                invariant
                    0 <= i <= m.len(),
                    *j == Json::Object(*m),
                    distinct_keys(out@),
                    forall|k: int|
                        0 <= k < out.len() ==> members(m@).contains_key((#[trigger] out@[k]).0@)
                            && value_tree(out@[k].1) == members(m@)[out@[k].0@],
                    forall|k: int| 0 <= k < out.len() ==> lies_before(m@, i as int, out@[k].0@),
                    forall|k: int|
                        0 <= k < i && last_of_its_key(m@, k) ==> value_members(out@).contains_key(
                            (#[trigger] m@[k]).0@,
                        ),
                decreases m.len() - i,
            {
                proof {
                    assert(decreases_to!(j => j->Object_0));
                    assert(decreases_to!(j->Object_0 => j->Object_0@[i as int]));
                    assert(decreases_to!(m@[i as int] => m@[i as int].1));
                }
                if find_member(m, &m[i].0) == i {
                    let ghost held = out@;
                    out.push((owned(&m[i].0), to_value(&m[i].1)));
                    proof {
                        assert(out@.drop_last() =~= held);
                        assert forall|a: int, b: int| 0 <= a < b < out@.len() implies
                            #[trigger] out@[a].0@ != #[trigger] out@[b].0@ by {
                            if b == held.len() {
                                assert(lies_before(m@, i as int, out@[a].0@));
                            }
                        }
                    }
                }
                i = i + 1;
            }
            proof {
                let kept = value_members(out@);
                assert forall|key: Seq<char>| #[trigger] kept.contains_key(key) <==> members(
                    m@,
                ).contains_key(key) by {
                    lemma_members_last(m@, key);
                    lemma_value_members_from(out@, key);
                }
                assert forall|key: Seq<char>| kept.contains_key(key) implies kept[key] == members(
                    m@,
                )[key] by {
                    lemma_value_members_from(out@, key);
                }
                assert(kept =~= members(m@));
            }
            put_together(Shape::Object(out))
        },
    }
}

/// Whether a parse result matches what `serde_json` makes of the input.
pub open spec fn parse_agrees(r: Result<Json, String>, want: Result<Tree, Seq<char>>) -> bool {
    match r {
        Ok(j) => want == Ok::<Tree, Seq<char>>(j.view()),
        Err(e) => want == Err::<Tree, Seq<char>>(e@),
    }
}

/// Read a JSON text; the error is `serde_json`'s message.
pub fn parse(s: &str) -> (r: Result<Json, String>)
    ensures
        parse_agrees(r, parsed(s@)),
        forall|t: Tree|
            s@ == #[trigger] compact_text(t) && plain(t, PLAIN_DEPTH as nat) ==> (r matches Ok(j)
                && j.view() == t),
        forall|m: Seq<(Seq<char>, Tree)>|
            s@ == #[trigger] object_text(m) && plain_members(m) ==> (r matches Ok(j) && j.view()
                == Tree::Obj(member_map(m))),
{
    match read_value(s) {
        Ok(v) => Ok(from_value(v)),
        Err(e) => Err(e),
    }
}

/// Read a JSON byte string; the error is `serde_json`'s message.
pub fn parse_bytes(b: &[u8]) -> (r: Result<Json, String>)
    ensures
        parse_agrees(r, parsed_bytes(b@)),
{
    match read_value_bytes(b) {
        Ok(v) => Ok(from_value(v)),
        Err(e) => Err(e),
    }
}

/// Write a value on one line.
pub fn compact(j: &Json) -> (r: String)
    ensures
        r@ == compact_text(j.view()),
        !r@.contains('\n'),
{
    write_value(&to_value(j))
}

/// Write a value indented over several lines.
pub fn pretty(j: &Json) -> (r: String)
    ensures
        r@ == pretty_text(j.view()),
{
    write_value_pretty(&to_value(j))
}

/// Write an object on one line, its members in the given order.
pub fn write_object(m: &Vec<(String, Json)>) -> (r: String)
    ensures
        r@ == object_text(member_list(m@)),
        one_line(r@),
{
    let mut parts: Vec<String> = Vec::new();
    let mut i: usize = 0;
    while i < m.len()
        invariant
            0 <= i <= m.len(),
            parts.len() == i,
            forall|k: int|
                0 <= k < i ==> (#[trigger] parts@[k])@ == member_text((m@[k].0@, m@[k].1.view()))
                    && !parts@[k]@.contains('\n'),
        decreases m.len() - i,
    {
        let key = compact(&Json::text(&m[i].0));
        let value = compact(&m[i].1);
        let part = cat3(&key, ":", &value);
        proof {
            reveal_strlit(":");
            if part@.contains('\n') {
                let at = part@.index_of('\n');
                if at < key@.len() {
                    assert(key@[at] == '\n');
                } else if at > key@.len() {
                    assert(value@[at - key@.len() - 1] == '\n');
                }
            }
        }
        parts.push(part);
        i = i + 1;
    }
    let inner = join(&parts, ",");
    let out = cat3("{", &inner, "}");
    proof {
        let list = member_list(m@);
        assert(views(parts@) =~= Seq::new(list.len(), |i: int| member_text(list[i])));
        reveal_strlit("{");
        reveal_strlit("}");
        reveal_strlit(",");
        lemma_joined_lacks(views(parts@), ","@, '\n');
        assert(out@[0] == '{');
        assert(out@.last() == '}');
        assert(!crate::text::is_white('{'));
        if out@.contains('\n') {
            let at = out@.index_of('\n');
            assert(0 < at < out@.len() - 1);
            assert(inner@[at - 1] == '\n');
        }
    }
    out
}

/// A separator and parts without a character make a text without it.
proof fn lemma_joined_lacks(parts: Seq<Seq<char>>, sep: Seq<char>, c: char)
    requires
        forall|i: int| 0 <= i < parts.len() ==> !(#[trigger] parts[i]).contains(c),
        !sep.contains(c),
    ensures
        !joined(parts, sep).contains(c),
    decreases parts.len(),
{
    if parts.len() > 1 {
        let front = joined(parts.drop_last(), sep);
        lemma_joined_lacks(parts.drop_last(), sep, c);
        let all = joined(parts, sep);
        if all.contains(c) {
            let at = all.index_of(c);
            if at < front.len() {
                assert(front[at] == c);
            } else if at < front.len() + sep.len() {
                assert(sep[at - front.len()] == c);
            } else {
                assert(parts.last()[at - front.len() - sep.len()] == c);
            }
        }
    } else if parts.len() == 1 {
        assert(!parts[0].contains(c));
    }
}

/// The keys and trees of a list of members, in order.
pub open spec fn member_list(m: Seq<(String, Json)>) -> Seq<(Seq<char>, Tree)> {
    Seq::new(m.len(), |i: int| (m[i].0@, m[i].1.view()))
}

// ---------------------------------------------------------------------------------------------
// Reading a tree
// ---------------------------------------------------------------------------------------------

/// The member `key` of an object.
pub open spec fn tree_get(t: Tree, key: Seq<char>) -> Option<Tree> {
    match t {
        Tree::Obj(m) => if m.contains_key(key) {
            Some(m[key])
        } else {
            None
        },
        _ => None,
    }
}

/// The characters of a string value.
pub open spec fn tree_str(t: Tree) -> Option<Seq<char>> {
    match t {
        Tree::Str(s) => Some(s),
        _ => None,
    }
}

/// The string member `key` of an object.
pub open spec fn tree_get_str(t: Tree, key: Seq<char>) -> Option<Seq<char>> {
    match tree_get(t, key) {
        Some(v) => tree_str(v),
        None => None,
    }
}

/// The elements of an array, or none where the tree is not one.
pub open spec fn tree_items(t: Tree) -> Seq<Tree> {
    match t {
        Tree::Arr(v) => v,
        _ => Seq::empty(),
    }
}

/// The tree of an optional borrowed value.
pub open spec fn opt_tree(o: Option<&Json>) -> Option<Tree> {
    match o {
        Some(j) => Some(j.view()),
        None => None,
    }
}

impl Json {
    /// The member `key`, where the value is an object that has it.
    pub fn get(&self, key: &str) -> (r: Option<&Json>)
        ensures
            opt_tree(r) == tree_get(self.view(), key@),
    {
        match self {
            Json::Object(m) => {
                let at = find_member(m, key);
                if at < m.len() {
                    Some(&m[at].1)
                } else {
                    None
                }
            },
            _ => None,
        }
    }

    /// The characters of a string value.
    pub fn as_str(&self) -> (r: Option<&str>)
        ensures
            crate::text::opt_str_view(r) == tree_str(self.view()),
    {
        match self {
            Json::Str(s) => Some(s.as_str()),
            _ => None,
        }
    }

    /// The string member `key`.
    pub fn get_str(&self, key: &str) -> (r: Option<&str>)
        ensures
            crate::text::opt_str_view(r) == tree_get_str(self.view(), key@),
    {
        match self.get(key) {
            Some(v) => v.as_str(),
            None => None,
        }
    }

    /// A string value.
    pub fn text(s: &str) -> (r: Json)
        ensures
            r.view() == Tree::Str(s@),
    {
        Json::Str(owned(s))
    }

    /// A natural number value.
    pub fn natural(x: u64) -> (r: Json)
        ensures
            r.view() == Tree::Num(crate::decimal::nat_text(x as nat)),
    {
        Json::Number(natural_number(x))
    }

    /// An integer value.
    pub fn integer(x: i64) -> (r: Json)
        ensures
            r.view() == Tree::Num(crate::decimal::int_text(x as int)),
    {
        Json::Number(integer_number(x))
    }
}

// ---------------------------------------------------------------------------------------------
// Key order
// ---------------------------------------------------------------------------------------------

/// `keys` lists the keys of an object in ascending order, each once.
pub open spec fn lists_keys(keys: Seq<Seq<char>>, m: Map<Seq<char>, Tree>) -> bool {
    ascending(keys) && forall|k: Seq<char>| #[trigger] keys.contains(k) <==> m.contains_key(k)
}

/// The keys of an object in ascending order, the order in which its members are walked.
pub open spec fn key_order(m: Map<Seq<char>, Tree>) -> Seq<Seq<char>> {
    choose|keys: Seq<Seq<char>>| lists_keys(keys, m)
}

/// There is only one such list.
pub proof fn lemma_key_order(m: Map<Seq<char>, Tree>, keys: Seq<Seq<char>>)
    requires
        lists_keys(keys, m),
    ensures
        key_order(m) == keys,
{
    let k = key_order(m);
    assert(lists_keys(k, m));
    assert(same_elements(k, keys)) by {
        assert forall|x: Seq<char>| #[trigger] k.contains(x) <==> keys.contains(x) by {
            assert(k.contains(x) <==> m.contains_key(x));
            assert(keys.contains(x) <==> m.contains_key(x));
        }
    }
    lemma_ascending_unique(k, keys);
}

/// Every finite object has its list of keys.
pub proof fn lemma_key_order_lists(m: Map<Seq<char>, Tree>)
    requires
        m.dom().finite(),
    ensures
        lists_keys(key_order(m), m),
    decreases m.dom().len(),
{
    if m.dom().len() == 0 {
        let keys = Seq::<Seq<char>>::empty();
        assert(m.dom() =~= Set::<Seq<char>>::empty());
        assert(lists_keys(keys, m));
    } else {
        let a = m.dom().choose();
        let rest = m.remove(a);
        assert(rest.dom() =~= m.dom().remove(a));
        lemma_key_order_lists(rest);
        let keys = key_order(rest);
        lemma_inserted(keys, a);
        let all = crate::sorted::inserted(keys, a);
        assert forall|k: Seq<char>| #[trigger] all.contains(k) <==> m.contains_key(k) by {
            assert(keys.contains(k) <==> rest.contains_key(k));
        }
        assert(lists_keys(all, m));
    }
}

/// The keys of a list of members, in ascending order.
pub fn sorted_keys(m: &Vec<(String, Json)>) -> (r: Vec<String>)
    ensures
        views(r@) == key_order(members(m@)),
        lists_keys(views(r@), members(m@)),
{
    let mut out: Vec<String> = Vec::new();
    let mut i: usize = 0;
    assert(views(out@) =~= Seq::<Seq<char>>::empty());
    while i < m.len()
        invariant
            0 <= i <= m.len(),
            lists_keys(views(out@), members(m@.take(i as int))),
        decreases m.len() - i,
    {
        let ghost held = views(out@);
        proof {
            assert(m@.take(i + 1).drop_last() =~= m@.take(i as int));
            lemma_inserted(held, m@[i as int].0@);
        }
        insert(&mut out, &m[i].0);
        proof {
            assert forall|k: Seq<char>| #[trigger]
                views(out@).contains(k) <==> members(m@.take(i + 1)).contains_key(k) by {
                assert(held.contains(k) <==> members(m@.take(i as int)).contains_key(k));
            }
        }
        i = i + 1;
    }
    proof {
        assert(m@.take(m.len() as int) =~= m@);
        lemma_key_order(members(m@), views(out@));
    }
    out
}

} // verus!
