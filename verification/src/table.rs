//! Reading typed fields out of configuration tables.
//!
//! A schema's TOML text enters through [`parse_toml`] as the same tree that JSON text does; a
//! date-time becomes an object with one member. The configuration file's enters through
//! [`parse_document`], from the parse tree of the `toml` crate, and leaves through [`write_toml`].
use vstd::prelude::*;
use toml::de::{DeTable, DeValue};
use crate::claude_settings::slot;
use crate::decimal::{
    int_text, int_value, law_print_then_read_signed, parse_i64, parse_int, show_int,
};
use crate::json::{
    find_member, from_value, items, key_order, members, parse_agrees, show_number, sorted_keys,
    to_value, value_tree, Json, Tree,
};
use crate::registry::first_outside;
use crate::text::{cat3, opt_view, owned, same, views};

verus! {

broadcast use vstd::map::group_map_axioms;

/// What `toml::from_str` makes of a text when it is read into a JSON value: the tree, or the
/// message of its error.
pub uninterp spec fn toml_parsed(s: Seq<char>) -> Result<Tree, Seq<char>>;

/// What `toml::to_string_pretty` makes of a JSON value: the text, or the message of its error. The
/// members of an object are written in the order of their keys.
pub uninterp spec fn toml_written(t: Tree) -> Result<Seq<char>, Seq<char>>;

/// An integer that `toml` writes and reads.
pub open spec fn toml_integer(s: Seq<char>) -> bool {
    exists|x: int| i64::MIN <= x <= u64::MAX && s == #[trigger] int_text(x)
}

/// A tree that reads back from TOML as it was written: no null, no number but integers, and nested at
/// most `depth` deep. Texts and keys may hold any character.
pub open spec fn toml_plain(t: Tree, depth: nat) -> bool
    decreases depth,
{
    match t {
        Tree::Null => false,
        Tree::Bool(_) => true,
        Tree::Num(s) => toml_integer(s),
        Tree::Str(_) => true,
        Tree::Arr(v) => depth > 0 && forall|i: int|
            0 <= i < v.len() ==> toml_plain(#[trigger] v[i], (depth - 1) as nat),
        Tree::Obj(m) => depth > 0 && m.dom().finite() && forall|k: Seq<char>| #[trigger]
            m.contains_key(k) ==> toml_plain(m[k], (depth - 1) as nat),
    }
}

/// How deep a written table may be nested for it to be read back.
pub const TOML_DEPTH: usize = 20;

// ---------------------------------------------------------------------------------------------
// Tables in an order
// ---------------------------------------------------------------------------------------------

/// `toml::Value`, carried opaquely from its parts to its text.
#[verifier::external_type_specification]
#[verifier::external_body]
pub struct ExTomlValue(toml::Value);

/// A tree whose objects have an order.
pub enum Doc {
    Leaf(Tree),
    List(Seq<Doc>),
    Table(Seq<(Seq<char>, Doc)>),
}

/// What a `toml::Value` holds. Its tables keep the order in which they were filled.
pub uninterp spec fn toml_doc(v: toml::Value) -> Doc;

/// What `toml::to_string_pretty` makes of a `toml::Value`: the text, or the message of its error.
/// The members of a table are written in its order.
pub uninterp spec fn table_written(d: Doc) -> Result<Seq<char>, Seq<char>>;

/// A value in its order.
pub open spec fn json_doc(j: Json) -> Doc
    decreases j,
{
    match j {
        Json::Array(v) => Doc::List(json_docs(v@)),
        Json::Object(m) => Doc::Table(json_fields(m@)),
        _ => Doc::Leaf(j.view()),
    }
}

pub open spec fn json_docs(v: Seq<Json>) -> Seq<Doc>
    decreases v,
{
    Seq::new(
        v.len(),
        |i: int|
            if 0 <= i < v.len() {
                json_doc(v[i])
            } else {
                Doc::Leaf(Tree::Null)
            },
    )
}

pub open spec fn json_fields(m: Seq<(String, Json)>) -> Seq<(Seq<char>, Doc)>
    decreases m,
{
    Seq::new(
        m.len(),
        |i: int|
            if 0 <= i < m.len() {
                (m[i].0@, json_doc(m[i].1))
            } else {
                (Seq::empty(), Doc::Leaf(Tree::Null))
            },
    )
}

/// The tree of an ordered tree.
pub open spec fn doc_tree(d: Doc) -> Tree
    decreases d,
{
    match d {
        Doc::Leaf(t) => t,
        Doc::List(v) => Tree::Arr(doc_trees(v)),
        Doc::Table(m) => Tree::Obj(doc_members(m)),
    }
}

pub open spec fn doc_trees(v: Seq<Doc>) -> Seq<Tree>
    decreases v,
{
    Seq::new(
        v.len(),
        |i: int|
            if 0 <= i < v.len() {
                doc_tree(v[i])
            } else {
                Tree::Null
            },
    )
}

pub open spec fn doc_members(m: Seq<(Seq<char>, Doc)>) -> Map<Seq<char>, Tree>
    decreases m,
{
    if m.len() == 0 {
        Map::empty()
    } else {
        doc_members(m.drop_last()).insert(m.last().0, doc_tree(m.last().1))
    }
}

/// No key of a table repeats.
pub open spec fn keys_differ(m: Seq<(Seq<char>, Doc)>) -> bool {
    forall|i: int, j: int| 0 <= i < j < m.len() ==> (#[trigger] m[i]).0 != (#[trigger] m[j]).0
}

/// The text of a 64-bit signed integer.
pub open spec fn signed_text(s: Seq<char>) -> bool {
    exists|x: int| i64::MIN <= x <= i64::MAX && s == #[trigger] int_text(x)
}

/// A tree that a `toml::Value` can hold: no null, no number but 64-bit signed integers, no repeated
/// key.
pub open spec fn holdable(d: Doc) -> bool
    decreases d,
{
    match d {
        Doc::Leaf(Tree::Str(_)) | Doc::Leaf(Tree::Bool(_)) => true,
        Doc::Leaf(Tree::Num(t)) => signed_text(t),
        Doc::Leaf(_) => false,
        Doc::List(v) => forall|i: int| 0 <= i < v.len() ==> holdable(#[trigger] v[i]),
        Doc::Table(m) => keys_differ(m) && forall|i: int|
            0 <= i < m.len() ==> holdable((#[trigger] m[i]).1),
    }
}

/// One level of a `toml::Value`.
pub enum TomlParts {
    Text(String),
    Flag(bool),
    Number(i64),
    List(Vec<toml::Value>),
    Table(Vec<(String, toml::Value)>),
}

/// The fields of a list of opaque members.
pub open spec fn toml_fields(m: Seq<(String, toml::Value)>) -> Seq<(Seq<char>, Doc)> {
    Seq::new(m.len(), |i: int| (m[i].0@, toml_doc(m[i].1)))
}

/// The ordered tree of one level and its children.
pub open spec fn parts_doc(p: TomlParts) -> Doc {
    match p {
        TomlParts::Text(s) => Doc::Leaf(Tree::Str(s@)),
        TomlParts::Flag(b) => Doc::Leaf(Tree::Bool(b)),
        TomlParts::Number(n) => Doc::Leaf(Tree::Num(int_text(n as int))),
        TomlParts::List(v) => Doc::List(Seq::new(v@.len(), |i: int| toml_doc(v@[i]))),
        TomlParts::Table(m) => Doc::Table(toml_fields(m@)),
    }
}

/// The constructors of `toml::Value`. Members with different keys are collected into its table in
/// their order, which the table keeps.
#[verifier::external_body]
pub(crate) fn toml_value(p: TomlParts) -> (r: toml::Value)
    requires
        p matches TomlParts::Table(m) ==> keys_differ(toml_fields(m@)),
    ensures
        toml_doc(r) == parts_doc(p),
{
    match p {
        TomlParts::Text(s) => toml::Value::String(s),
        TomlParts::Flag(b) => toml::Value::Boolean(b),
        TomlParts::Number(n) => toml::Value::Integer(n),
        TomlParts::List(v) => toml::Value::Array(v),
        TomlParts::Table(m) => toml::Value::Table(m.into_iter().collect()),
    }
}

/// `toml::to_string_pretty` of a `toml::Value`. A table can always be written.
#[verifier::external_body]
pub(crate) fn write_table(v: &toml::Value) -> (r: Result<String, String>)
    ensures
        match r {
            Ok(s) => table_written(toml_doc(*v)) == Ok::<Seq<char>, Seq<char>>(s@),
            Err(e) => table_written(toml_doc(*v)) == Err::<Seq<char>, Seq<char>>(e@),
        },
        toml_doc(*v) is Table ==> r is Ok,
{
    toml::to_string_pretty(v).map_err(|e| e.to_string())
}

fn hold_items(v: &Vec<Json>) -> (r: Option<Vec<toml::Value>>)
    ensures
        match r {
            Some(out) => holdable(Doc::List(json_docs(v@))) && out.len() == v.len() && forall|
                i: int,
            |
                0 <= i < v.len() ==> toml_doc(#[trigger] out@[i]) == json_doc(v@[i]),
            None => !holdable(Doc::List(json_docs(v@))),
        },
    decreases v,
{
    let ghost all = json_docs(v@);
    let mut out: Vec<toml::Value> = Vec::new();
    let mut i: usize = 0;
    while i < v.len()
        invariant
            0 <= i <= v.len(),
            out.len() == i,
            all == json_docs(v@),
            forall|k: int| 0 <= k < i ==> toml_doc(#[trigger] out@[k]) == json_doc(v@[k]),
            forall|k: int| 0 <= k < i ==> holdable(#[trigger] all[k]),
        decreases v.len() - i,
    {
        proof {
            assert(decreases_to!(v => v@[i as int]));
            assert(all[i as int] == json_doc(v@[i as int]));
        }
        match hold(&v[i]) {
            Some(x) => {
                out.push(x);
            },
            None => {
                proof {
                    let whole = Doc::List(all);
                    assert(!holdable(all[i as int]));
                    assert(whole->List_0[i as int] == all[i as int]);
                    assert(!holdable(whole));
                }
                return None;
            },
        }
        i = i + 1;
    }
    Some(out)
}

fn hold_members(m: &Vec<(String, Json)>) -> (r: Option<Vec<(String, toml::Value)>>)
    ensures
        match r {
            Some(out) => holdable(Doc::Table(json_fields(m@))) && toml_fields(out@) == json_fields(
                m@,
            ),
            None => !holdable(Doc::Table(json_fields(m@))),
        },
    decreases m,
{
    let ghost all = json_fields(m@);
    let mut out: Vec<(String, toml::Value)> = Vec::new();
    let mut i: usize = 0;
    while i < m.len()
        invariant
            0 <= i <= m.len(),
            out.len() == i,
            all == json_fields(m@),
            forall|k: int|
                0 <= k < i ==> (#[trigger] out@[k]).0@ == m@[k].0@ && toml_doc(out@[k].1)
                    == json_doc(m@[k].1),
            forall|k: int| 0 <= k < i ==> holdable((#[trigger] all[k]).1),
            forall|k: int, l: int|
                0 <= k < i && k < l < m.len() ==> (#[trigger] all[k]).0 != (#[trigger] all[l]).0,
        decreases m.len() - i,
    {
        proof {
            assert(decreases_to!(m => m@[i as int].1));
            assert(all[i as int] == (m@[i as int].0@, json_doc(m@[i as int].1)));
        }
        let last = find_member(m, &m[i].0);
        if last != i {
            proof {
                assert(last < m.len());
                assert(all[last as int].0 == all[i as int].0);
                assert(!keys_differ(all));
            }
            return None;
        }
        match hold(&m[i].1) {
            Some(x) => {
                out.push((owned(&m[i].0), x));
            },
            None => {
                return None;
            },
        }
        i = i + 1;
    }
    assert(toml_fields(out@) =~= all);
    Some(out)
}

/// A value as a `toml::Value`, where that can hold it.
fn hold(j: &Json) -> (r: Option<toml::Value>)
    ensures
        match r {
            Some(v) => holdable(json_doc(*j)) && toml_doc(v) == json_doc(*j),
            None => !holdable(json_doc(*j)),
        },
    decreases j,
{
    match j {
        Json::Null => None,
        Json::Bool(b) => Some(toml_value(TomlParts::Flag(*b))),
        Json::Str(s) => Some(toml_value(TomlParts::Text(owned(s)))),
        Json::Number(n) => {
            let text = show_number(n);
            proof {
                assert forall|x: int| i64::MIN <= x <= i64::MAX && text@ == #[trigger] int_text(
                    x,
                ) implies int_value(text@) == Some(x) by {
                    law_print_then_read_signed(x);
                }
            }
            match parse_i64(&text) {
                Some(x) => {
                    if same(&show_int(x), &text) {
                        Some(toml_value(TomlParts::Number(x)))
                    } else {
                        None
                    }
                },
                None => None,
            }
        },
        Json::Array(v) => match hold_items(v) {
            Some(out) => {
                assert(Seq::new(out@.len(), |i: int| toml_doc(out@[i])) =~= json_docs(v@));
                Some(toml_value(TomlParts::List(out)))
            },
            None => None,
        },
        Json::Object(m) => match hold_members(m) {
            Some(out) => Some(toml_value(TomlParts::Table(out))),
            None => None,
        },
    }
}

/// `toml::to_string_pretty` of a `serde_json::Value`. A table of plain values can always be
/// written.
#[verifier::external_body]
pub(crate) fn write_toml_value(v: &serde_json::Value) -> (r: Result<String, String>)
    ensures
        match r {
            Ok(s) => toml_written(value_tree(*v)) == Ok::<Seq<char>, Seq<char>>(s@),
            Err(e) => toml_written(value_tree(*v)) == Err::<Seq<char>, Seq<char>>(e@),
        },
        value_tree(*v) is Obj && toml_plain(value_tree(*v), TOML_DEPTH as nat) ==> r is Ok,
{
    toml::to_string_pretty(v).map_err(|e| e.to_string())
}

/// What a value is written as: in its own order, where a `toml::Value` can hold it, and in the order
/// of its keys where not.
pub open spec fn toml_text(d: Doc) -> Result<Seq<char>, Seq<char>> {
    if holdable(d) {
        table_written(d)
    } else {
        toml_written(doc_tree(d))
    }
}

/// Write a value as TOML.
pub fn write_toml(t: &Json) -> (r: Result<String, String>)
    ensures
        match r {
            Ok(s) => toml_text(json_doc(*t)) == Ok::<Seq<char>, Seq<char>>(s@),
            Err(e) => toml_text(json_doc(*t)) == Err::<Seq<char>, Seq<char>>(e@),
        },
        json_doc(*t) is Table && toml_plain(doc_tree(json_doc(*t)), TOML_DEPTH as nat) ==> r is Ok,
{
    proof {
        lemma_json_doc(*t);
    }
    match hold(t) {
        Some(v) => write_table(&v),
        None => write_toml_value(&to_value(t)),
    }
}

proof fn lemma_json_doc(j: Json)
    ensures
        doc_tree(json_doc(j)) == j.view(),
    decreases j,
{
    match j {
        Json::Array(v) => {
            assert forall|i: int| 0 <= i < v@.len() implies doc_tree(#[trigger] json_docs(v@)[i])
                == items(v@)[i] by {
                assert(decreases_to!(v => v@[i]));
                lemma_json_doc(v@[i]);
            }
            assert(doc_trees(json_docs(v@)) =~= items(v@));
        },
        Json::Object(m) => lemma_json_fields(m@),
        _ => {},
    }
}

proof fn lemma_json_fields(m: Seq<(String, Json)>)
    ensures
        doc_members(json_fields(m)) == members(m),
    decreases m,
{
    if m.len() > 0 {
        assert(json_fields(m).drop_last() =~= json_fields(m.drop_last()));
        lemma_json_fields(m.drop_last());
        lemma_json_doc(m.last().1);
    }
}

/// `toml::from_str` into a `serde_json::Value`.
#[verifier::external_body]
pub(crate) fn read_toml(s: &str) -> (r: Result<serde_json::Value, String>)
    ensures
        match r {
            Ok(v) => toml_parsed(s@) == Ok::<Tree, Seq<char>>(value_tree(v)),
            Err(e) => toml_parsed(s@) == Err::<Tree, Seq<char>>(e@),
        },
{
    toml::from_str::<serde_json::Value>(s).map_err(|e| e.to_string())
}

/// Read a TOML text; the error is the `toml` crate's message.
pub fn parse_toml(s: &str) -> (r: Result<Json, String>)
    ensures
        parse_agrees(r, toml_parsed(s@)),
{
    match read_toml(s) {
        Ok(v) => Ok(from_value(v)),
        Err(e) => Err(e),
    }
}

// ---------------------------------------------------------------------------------------------
// Documents
// ---------------------------------------------------------------------------------------------

/// `toml::de::DeValue`, a value of a parsed document, carried opaquely until it is taken apart.
#[verifier::external_type_specification]
#[verifier::external_body]
pub struct ExDeValue<'i>(DeValue<'i>);

/// What a parsed value holds. A float or a date-time, or an integer that no 64 bits hold, is said to
/// be nothing.
pub uninterp spec fn node_doc(v: DeValue<'_>) -> Doc;

/// What `toml::de::DeTable::parse` makes of a text: the rows of the document, or the message of its
/// error.
pub uninterp spec fn toml_document(s: Seq<char>) -> Result<Seq<(Seq<char>, Doc)>, Seq<char>>;

/// One level of a parsed value.
pub enum Node<'i> {
    Text(String),
    Flag(bool),
    Integer(Option<i128>),
    Other,
    List(Vec<DeValue<'i>>),
    Table(Vec<(String, DeValue<'i>)>),
}

/// The rows of a list of parsed members.
pub open spec fn node_rows(m: Seq<(String, DeValue<'_>)>) -> Seq<(Seq<char>, Doc)> {
    Seq::new(m.len(), |i: int| (m[i].0@, node_doc(m[i].1)))
}

/// An integer as a tree: nothing where no 64 bits hold it.
pub open spec fn integer_tree(n: Option<i128>) -> Tree {
    match n {
        Some(x) => if i64::MIN <= x <= u64::MAX {
            Tree::Num(int_text(x as int))
        } else {
            Tree::Null
        },
        None => Tree::Null,
    }
}

/// The ordered tree of one level and its children.
pub open spec fn level_doc(n: Node<'_>) -> Doc {
    match n {
        Node::Text(s) => Doc::Leaf(Tree::Str(s@)),
        Node::Flag(b) => Doc::Leaf(Tree::Bool(b)),
        Node::Integer(x) => Doc::Leaf(integer_tree(x)),
        Node::Other => Doc::Leaf(Tree::Null),
        Node::List(v) => Doc::List(Seq::new(v@.len(), |i: int| node_doc(v@[i]))),
        Node::Table(m) => Doc::Table(node_rows(m@)),
    }
}

/// Matching on a `toml::de::DeValue`: its variant with the fields moved out, an integer by its digits
/// and its base. A table hands out each of its members once, so no key repeats.
#[verifier::external_body]
pub(crate) fn take_node<'i>(v: DeValue<'i>) -> (r: Node<'i>)
    ensures
        level_doc(r) == node_doc(v),
        r matches Node::Table(m) ==> keys_differ(node_rows(m@)),
{
    match v {
        DeValue::String(s) => Node::Text(s.into_owned()),
        DeValue::Integer(i) => Node::Integer(
            i128::from_str_radix(i.as_str(), i.radix()).ok(),
        ),
        DeValue::Float(_) => Node::Other,
        DeValue::Boolean(b) => Node::Flag(b),
        DeValue::Datetime(_) => Node::Other,
        DeValue::Array(a) => Node::List(a.into_iter().map(|x| x.into_inner()).collect()),
        DeValue::Table(t) => Node::Table(
            t.into_iter().map(|(k, x)| (k.into_inner().into_owned(), x.into_inner())).collect(),
        ),
    }
}

/// A document that was written reads back as itself, from either form.
pub open spec fn document_reads_back(
    s: Seq<char>,
    r: Result<Seq<(Seq<char>, Doc)>, Seq<char>>,
) -> bool {
    &&& forall|t: Tree|
        #[trigger] toml_written(t) == Ok::<Seq<char>, Seq<char>>(s) && t is Obj && toml_plain(
            t,
            TOML_DEPTH as nat,
        ) ==> (r matches Ok(rows) && doc_tree(Doc::Table(rows)) == t)
    &&& forall|d: Doc|
        #[trigger] table_written(d) == Ok::<Seq<char>, Seq<char>>(s) && d is Table && holdable(d)
            && toml_plain(doc_tree(d), TOML_DEPTH as nat) ==> (r matches Ok(rows) && doc_tree(
            Doc::Table(rows),
        ) == doc_tree(d))
}

/// The rows of a parsed document.
pub open spec fn rows_of(r: Result<Vec<(String, DeValue<'_>)>, String>) -> Result<
    Seq<(Seq<char>, Doc)>,
    Seq<char>,
> {
    match r {
        Ok(m) => Ok(node_rows(m@)),
        Err(e) => Err(e@),
    }
}

/// `toml::de::DeTable::parse`, the parser that `toml::from_str` stands on. A table of plain values
/// that `toml` wrote reads back as itself.
#[verifier::external_body]
pub(crate) fn read_table<'i>(s: &'i str) -> (r: Result<
    Vec<(String, DeValue<'i>)>,
    String,
>)
    ensures
        rows_of(r) == toml_document(s@),
        r matches Ok(m) ==> keys_differ(node_rows(m@)),
        document_reads_back(s@, rows_of(r)),
{
    match DeTable::parse(s) {
        Ok(t) => Ok(
            t.into_inner().into_iter().map(
                |(k, x)| (k.into_inner().into_owned(), x.into_inner()),
            ).collect(),
        ),
        Err(e) => Err(e.to_string()),
    }
}

fn from_members<'i>(m: Vec<(String, DeValue<'i>)>) -> (r: Vec<(String, Json)>)
    ensures
        members(r@) == doc_members(node_rows(m@)),
    decreases node_rows(m@),
{
    let ghost rows = node_rows(m@);
    let mut rest = m;
    let mut out: Vec<(String, Json)> = Vec::new();
    let ghost mut done: int = 0;
    assert(rows.take(0) =~= Seq::<(Seq<char>, Doc)>::empty());
    assert(node_rows(rest@) =~= rows.skip(0));
    while rest.len() > 0
        invariant
            0 <= done <= rows.len(),
            rows == node_rows(m@),
            node_rows(rest@) == rows.skip(done),
            rest.len() == rows.len() - done,
            members(out@) == doc_members(rows.take(done)),
        decreases rest.len(),
    {
        let ghost left = rest@;
        let (key, value) = rest.remove(0);
        proof {
            assert(node_rows(left)[0] == rows.skip(done)[0]);
            assert(rows[done] == (key@, node_doc(value)));
            assert(decreases_to!(rows => rows[done]));
            assert(decreases_to!(rows[done] => rows[done].1));
            assert(rows.take(done + 1).drop_last() =~= rows.take(done));
            assert(node_rows(rest@) =~= rows.skip(done + 1)) by {
                assert forall|k: int| 0 <= k < rest@.len() implies node_rows(rest@)[k]
                    == rows.skip(done + 1)[k] by {
                    assert(node_rows(left)[k + 1] == rows.skip(done)[k + 1]);
                }
            }
        }
        let ghost held = out@;
        let entry = (key, from_node(value));
        out.push(entry);
        assert(out@.drop_last() =~= held);
        proof {
            done = done + 1;
        }
    }
    assert(rows.take(done) =~= rows);
    out
}

fn from_items<'i>(v: Vec<DeValue<'i>>) -> (r: Vec<Json>)
    ensures
        items(r@) == doc_trees(Seq::new(v@.len(), |i: int| node_doc(v@[i]))),
    decreases Seq::new(v@.len(), |i: int| node_doc(v@[i])),
{
    let ghost docs = Seq::new(v@.len(), |i: int| node_doc(v@[i]));
    let ghost all = v@;
    let mut rest = v;
    let mut out: Vec<Json> = Vec::new();
    assert(rest@ =~= all.skip(0));
    while rest.len() > 0
        invariant
            all == v@,
            docs == Seq::new(v@.len(), |i: int| node_doc(v@[i])),
            out.len() + rest.len() == all.len(),
            rest@ == all.skip(out.len() as int),
            forall|k: int| 0 <= k < out.len() ==> (#[trigger] out@[k]).view() == doc_tree(docs[k]),
        decreases rest.len(),
    {
        let ghost at = out.len() as int;
        let value = rest.remove(0);
        proof {
            assert(value == all[at]);
            assert(docs[at] == node_doc(value));
            assert(decreases_to!(docs => docs[at]));
            assert(rest@ =~= all.skip(at + 1));
        }
        out.push(from_node(value));
    }
    assert(items(out@) =~= doc_trees(docs));
    out
}

fn from_node<'i>(v: DeValue<'i>) -> (r: Json)
    ensures
        r.view() == doc_tree(node_doc(v)),
    decreases node_doc(v),
{
    let ghost doc = node_doc(v);
    match take_node(v) {
        Node::Text(s) => Json::Str(s),
        Node::Flag(b) => Json::Bool(b),
        Node::Other => Json::Null,
        Node::Integer(n) => match n {
            Some(x) => {
                if 0 <= x && x <= u64::MAX as i128 {
                    Json::natural(x as u64)
                } else if i64::MIN as i128 <= x && x < 0 {
                    Json::integer(x as i64)
                } else {
                    Json::Null
                }
            },
            None => Json::Null,
        },
        Node::List(a) => {
            assert(decreases_to!(doc => doc->List_0));
            Json::Array(from_items(a))
        },
        Node::Table(m) => {
            assert(decreases_to!(doc => doc->Table_0));
            Json::Object(from_members(m))
        },
    }
}

/// Read a TOML document; the error is the `toml` crate's message. A document that was written reads
/// back as itself.
pub fn parse_document(s: &str) -> (r: Result<Json, String>)
    ensures
        match (r, toml_document(s@)) {
            (Ok(j), Ok(rows)) => j.view() == doc_tree(Doc::Table(rows)),
            (Err(a), Err(b)) => a@ == b,
            _ => false,
        },
        forall|d: Doc|
            #[trigger] toml_text(d) == Ok::<Seq<char>, Seq<char>>(s@) && d is Table && toml_plain(
                doc_tree(d),
                TOML_DEPTH as nat,
            ) ==> (r matches Ok(j) && j.view() == doc_tree(d)),
{
    match read_table(s) {
        Ok(m) => Ok(Json::Object(from_members(m))),
        Err(e) => Err(e),
    }
}

// ---------------------------------------------------------------------------------------------
// Fields
// ---------------------------------------------------------------------------------------------

/// The message about a missing field.
pub open spec fn missing(key: Seq<char>) -> Seq<char> {
    "missing field `"@ + key + "`"@
}

/// The message about a field of the wrong type.
pub open spec fn mistyped(key: Seq<char>, want: Seq<char>) -> Seq<char> {
    "invalid type for `"@ + key + "`: expected "@ + want
}

/// The message about a table that holds a field it should not: the first in key order.
pub open spec fn unknown_field(m: Map<Seq<char>, Tree>, allowed: Seq<Seq<char>>) -> Option<Seq<char>> {
    match first_outside(key_order(m), allowed) {
        Some(k) => Some("unknown field `"@ + k + "`"@),
        None => None,
    }
}

/// A required string.
pub open spec fn str_field(m: Map<Seq<char>, Tree>, key: Seq<char>) -> Result<Seq<char>, Seq<char>> {
    match slot(m, key) {
        None => Err(missing(key)),
        Some(Tree::Str(s)) => Ok(s),
        Some(_) => Err(mistyped(key, "a string"@)),
    }
}

/// An optional string.
pub open spec fn opt_str_field(
    m: Map<Seq<char>, Tree>,
    key: Seq<char>,
) -> Result<Option<Seq<char>>, Seq<char>> {
    match slot(m, key) {
        None => Ok(None),
        Some(Tree::Str(s)) => Ok(Some(s)),
        Some(_) => Err(mistyped(key, "a string"@)),
    }
}

/// An optional flag, off where it is missing.
pub open spec fn flag_field(m: Map<Seq<char>, Tree>, key: Seq<char>) -> Result<bool, Seq<char>> {
    match slot(m, key) {
        None => Ok(false),
        Some(Tree::Bool(b)) => Ok(b),
        Some(_) => Err(mistyped(key, "a boolean"@)),
    }
}

/// Every element is a string.
pub open spec fn all_strings(v: Seq<Tree>) -> bool {
    forall|i: int| 0 <= i < v.len() ==> (#[trigger] v[i]) is Str
}

/// The strings of a list.
pub open spec fn strings(v: Seq<Tree>) -> Seq<Seq<char>> {
    Seq::new(v.len(), |i: int| v[i]->Str_0)
}

/// A list of strings; a missing one is empty, unless it is required.
pub open spec fn list_field(
    m: Map<Seq<char>, Tree>,
    key: Seq<char>,
    required: bool,
) -> Result<Seq<Seq<char>>, Seq<char>> {
    match slot(m, key) {
        None => if required {
            Err(missing(key))
        } else {
            Ok(Seq::empty())
        },
        Some(Tree::Arr(v)) => if all_strings(v) {
            Ok(strings(v))
        } else {
            Err(mistyped(key, "a list of strings"@))
        },
        Some(_) => Err(mistyped(key, "a list of strings"@)),
    }
}

/// An optional list of tables, empty where it is missing.
pub open spec fn tables_field(
    m: Map<Seq<char>, Tree>,
    key: Seq<char>,
) -> Result<Seq<Tree>, Seq<char>> {
    match slot(m, key) {
        None => Ok(Seq::empty()),
        Some(Tree::Arr(v)) => Ok(v),
        Some(_) => Err(mistyped(key, "a list of tables"@)),
    }
}

/// An optional natural number below 2^64.
pub open spec fn opt_number_field(
    m: Map<Seq<char>, Tree>,
    key: Seq<char>,
) -> Result<Option<u64>, Seq<char>> {
    match slot(m, key) {
        None => Ok(None),
        Some(Tree::Num(t)) => match int_value(t) {
            Some(n) => if 0 <= n <= u64::MAX {
                Ok(Some(n as u64))
            } else {
                Err(mistyped(key, "a natural number"@))
            },
            None => Err(mistyped(key, "a natural number"@)),
        },
        Some(_) => Err(mistyped(key, "a natural number"@)),
    }
}

pub open spec fn res_str(r: Result<String, String>) -> Result<Seq<char>, Seq<char>> {
    match r {
        Ok(s) => Ok(s@),
        Err(e) => Err(e@),
    }
}

pub open spec fn res_opt(r: Result<Option<String>, String>) -> Result<Option<Seq<char>>, Seq<char>> {
    match r {
        Ok(s) => Ok(opt_view(s)),
        Err(e) => Err(e@),
    }
}

pub open spec fn res_flag(r: Result<bool, String>) -> Result<bool, Seq<char>> {
    match r {
        Ok(b) => Ok(b),
        Err(e) => Err(e@),
    }
}

pub open spec fn res_number(r: Result<Option<u64>, String>) -> Result<Option<u64>, Seq<char>> {
    match r {
        Ok(b) => Ok(b),
        Err(e) => Err(e@),
    }
}

pub open spec fn res_list(r: Result<Vec<String>, String>) -> Result<Seq<Seq<char>>, Seq<char>> {
    match r {
        Ok(v) => Ok(views(v@)),
        Err(e) => Err(e@),
    }
}

pub(crate) fn mistyped_text(key: &str, want: &str) -> (r: String)
    ensures
        r@ == mistyped(key@, want@),
{
    crate::text::cat4("invalid type for `", key, "`: expected ", want)
}

pub(crate) fn missing_text(key: &str) -> (r: String)
    ensures
        r@ == missing(key@),
{
    cat3("missing field `", key, "`")
}

/// Look for a field that is not among `allowed`.
pub fn find_unknown(m: &Vec<(String, Json)>, allowed: &Vec<String>) -> (r: Option<String>)
    ensures
        opt_view(r) == unknown_field(members(m@), views(allowed@)),
{
    let keys = sorted_keys(m);
    match crate::registry::find_outside(&keys, allowed) {
        Some(k) => Some(cat3("unknown field `", &k, "`")),
        None => None,
    }
}

/// Read a required string.
pub fn read_str(m: &Vec<(String, Json)>, key: &str) -> (r: Result<String, String>)
    ensures
        res_str(r) == str_field(members(m@), key@),
{
    let at = find_member(m, key);
    if at < m.len() {
        match &m[at].1 {
            Json::Str(s) => Ok(owned(s)),
            _ => Err(mistyped_text(key, "a string")),
        }
    } else {
        Err(missing_text(key))
    }
}

/// Read an optional string.
pub fn read_opt_str(m: &Vec<(String, Json)>, key: &str) -> (r: Result<Option<String>, String>)
    ensures
        res_opt(r) == opt_str_field(members(m@), key@),
{
    let at = find_member(m, key);
    if at < m.len() {
        match &m[at].1 {
            Json::Str(s) => Ok(Some(owned(s))),
            _ => Err(mistyped_text(key, "a string")),
        }
    } else {
        Ok(None)
    }
}

/// Read an optional flag.
pub fn read_flag(m: &Vec<(String, Json)>, key: &str) -> (r: Result<bool, String>)
    ensures
        res_flag(r) == flag_field(members(m@), key@),
{
    let at = find_member(m, key);
    if at < m.len() {
        match &m[at].1 {
            Json::Bool(b) => Ok(*b),
            _ => Err(mistyped_text(key, "a boolean")),
        }
    } else {
        Ok(false)
    }
}

/// The strings of a list, where all its elements are strings.
pub fn read_strings(v: &Vec<Json>) -> (r: Option<Vec<String>>)
    ensures
        match r {
            Some(list) => all_strings(items(v@)) && views(list@) == strings(items(v@)),
            None => !all_strings(items(v@)),
        },
{
    let mut out: Vec<String> = Vec::new();
    let ghost all = items(v@);
    let mut i: usize = 0;
    while i < v.len()
        invariant
            0 <= i <= v.len(),
            all == items(v@),
            all.len() == v.len(),
            out.len() == i,
            forall|k: int| 0 <= k < i ==> all[k] == Tree::Str((#[trigger] out@[k])@),
        decreases v.len() - i,
    {
        assert(all[i as int] == v@[i as int].view());
        match &v[i] {
            Json::Str(s) => {
                out.push(owned(s));
            },
            _ => {
                assert(!(all[i as int] is Str));
                return None;
            },
        }
        i = i + 1;
    }
    assert forall|k: int| 0 <= k < all.len() implies (#[trigger] all[k]) is Str by {
        assert(all[k] == Tree::Str(out@[k]@));
    }
    assert(views(out@) =~= strings(all));
    Some(out)
}

/// Read a list of strings.
pub fn read_list(m: &Vec<(String, Json)>, key: &str, required: bool) -> (r: Result<
    Vec<String>,
    String,
>)
    ensures
        res_list(r) == list_field(members(m@), key@, required),
{
    let at = find_member(m, key);
    if at < m.len() {
        match &m[at].1 {
            Json::Array(v) => match read_strings(v) {
                Some(list) => Ok(list),
                None => Err(mistyped_text(key, "a list of strings")),
            },
            _ => Err(mistyped_text(key, "a list of strings")),
        }
    } else if required {
        Err(missing_text(key))
    } else {
        let empty: Vec<String> = Vec::new();
        assert(views(empty@) =~= Seq::<Seq<char>>::empty());
        Ok(empty)
    }
}

/// Read an optional natural number.
pub fn read_number(m: &Vec<(String, Json)>, key: &str) -> (r: Result<Option<u64>, String>)
    ensures
        res_number(r) == opt_number_field(members(m@), key@),
{
    let at = find_member(m, key);
    if at < m.len() {
        match &m[at].1 {
            Json::Number(n) => {
                let text = crate::json::show_number(n);
                match parse_int(&text) {
                    Some(x) => if 0 <= x && x <= u64::MAX as i128 {
                        Ok(Some(x as u64))
                    } else {
                        Err(mistyped_text(key, "a natural number"))
                    },
                    None => Err(mistyped_text(key, "a natural number")),
                }
            },
            _ => Err(mistyped_text(key, "a natural number")),
        }
    } else {
        Ok(None)
    }
}

} // verus!
