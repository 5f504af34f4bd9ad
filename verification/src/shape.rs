//! Records written by position: where an object is expected, an array gives its members in the order
//! in which the fields are declared.
use vstd::prelude::*;
use crate::json::{dup, dup_members, find_member, items, members, set_member, Json, Tree};

verus! {

broadcast use vstd::map::group_map_axioms;

/// What is read at a place of a tree.
pub enum Shape {
    /// A value that is taken as it is.
    Any,
    /// A list of one shape.
    List(Box<Shape>),
    /// A record: the name of its next field, that field's shape, and the fields behind it.
    Field(&'static str, Box<Shape>, Box<Shape>),
    /// No more fields.
    End,
}

/// A record with a field in front of others.
pub open spec fn field_before(name: &'static str, field: Shape, rest: Shape) -> Shape {
    Shape::Field(name, Box::new(field), Box::new(rest))
}

/// A record with a field in front of others.
#[verifier::when_used_as_spec(field_before)]
pub fn field(name: &'static str, shape: Shape, rest: Shape) -> (r: Shape)
    ensures
        r == field_before(name, shape, rest),
{
    Shape::Field(name, Box::new(shape), Box::new(rest))
}

/// A record with a field of any value in front of others.
pub open spec fn any_before(name: &'static str, rest: Shape) -> Shape {
    Shape::Field(name, Box::new(Shape::Any), Box::new(rest))
}

/// A record with a field of any value in front of others.
#[verifier::when_used_as_spec(any_before)]
pub fn any(name: &'static str, rest: Shape) -> (r: Shape)
    ensures
        r == any_before(name, rest),
{
    Shape::Field(name, Box::new(Shape::Any), Box::new(rest))
}

/// How many fields a record has.
pub open spec fn width(s: Shape) -> nat
    decreases s,
{
    match s {
        Shape::Field(_, _, rest) => 1 + width(*rest),
        _ => 0,
    }
}

/// The members that items give the fields of a record, in order. Fields without an item have none.
pub open spec fn named(v: Seq<Tree>, s: Shape) -> Map<Seq<char>, Tree>
    decreases s,
{
    match s {
        Shape::Field(name, _, rest) => if v.len() == 0 {
            Map::empty()
        } else {
            named(v.drop_first(), *rest).insert(name@, v[0])
        },
        _ => Map::empty(),
    }
}

/// Members, each field of a record among them in its shape.
pub open spec fn fields_shaped(m: Map<Seq<char>, Tree>, s: Shape) -> Map<Seq<char>, Tree>
    decreases s, 0int,
{
    match s {
        Shape::Field(name, field, rest) => if m.contains_key(name@) {
            fields_shaped(m, *rest).insert(name@, shaped(m[name@], *field))
        } else {
            fields_shaped(m, *rest)
        },
        _ => m,
    }
}

/// The items of a list, each in a shape.
pub open spec fn items_shaped(v: Seq<Tree>, item: Shape) -> Seq<Tree>
    decreases item, 2int,
{
    v.map_values(|x: Tree| shaped(x, item))
}

/// A tree in which every record is an object: an array in the place of a record, no longer than the
/// record has fields, stands for the object with those members. What does not fit is left as it is.
pub open spec fn shaped(t: Tree, s: Shape) -> Tree
    decreases s, 1int,
{
    match s {
        Shape::Any | Shape::End => t,
        Shape::List(item) => match t {
            Tree::Arr(v) => Tree::Arr(items_shaped(v, *item)),
            _ => t,
        },
        Shape::Field(_, _, _) => match t {
            Tree::Obj(m) => Tree::Obj(fields_shaped(m, s)),
            Tree::Arr(v) => if v.len() <= width(s) {
                Tree::Obj(fields_shaped(named(v, s), s))
            } else {
                t
            },
            _ => t,
        },
    }
}

fn fits(n: usize, s: &Shape) -> (r: bool)
    ensures
        r == (n <= width(*s)),
    decreases s,
{
    match s {
        Shape::Field(_, _, rest) => n == 0 || fits(n - 1, rest),
        _ => n == 0,
    }
}

fn name_items(v: &Vec<Json>, from: usize, s: &Shape) -> (r: Vec<(String, Json)>)
    requires
        from <= v.len(),
    ensures
        members(r@) == named(items(v@).skip(from as int), *s),
    decreases s,
{
    let ghost left = items(v@).skip(from as int);
    match s {
        Shape::Field(name, _, rest) => {
            if from < v.len() {
                let mut out = name_items(v, from + 1, rest);
                assert(left.drop_first() =~= items(v@).skip(from + 1));
                set_member(&mut out, name, dup(&v[from]));
                out
            } else {
                Vec::new()
            }
        },
        _ => Vec::new(),
    }
}

fn shape_fields(m: &Vec<(String, Json)>, s: &Shape) -> (r: Vec<(String, Json)>)
    ensures
        members(r@) == fields_shaped(members(m@), *s),
    decreases s, 0int,
{
    match s {
        Shape::Field(name, field, rest) => {
            let mut out = shape_fields(m, rest);
            let at = find_member(m, name);
            if at < m.len() {
                set_member(&mut out, name, shape(&m[at].1, field));
            }
            out
        },
        _ => dup_members(m),
    }
}

fn shape_items(v: &Vec<Json>, item: &Shape) -> (r: Vec<Json>)
    ensures
        items(r@) == items_shaped(items(v@), *item),
    decreases item, 2int,
{
    let mut out: Vec<Json> = Vec::new();
    let mut i: usize = 0;
    while i < v.len()
        invariant
            0 <= i <= v.len(),
            out.len() == i,
            forall|k: int|
                0 <= k < i ==> (#[trigger] out@[k]).view() == shaped(v@[k].view(), *item),
        decreases v.len() - i,
    {
        out.push(shape(&v[i], item));
        i = i + 1;
    }
    assert(items(out@) =~= items_shaped(items(v@), *item));
    out
}

/// Bring a value into a shape: a copy of it in which every record is an object.
pub fn shape(t: &Json, s: &Shape) -> (r: Json)
    ensures
        r.view() == shaped(t.view(), *s),
    decreases s, 1int,
{
    match s {
        Shape::Any => dup(t),
        Shape::End => dup(t),
        Shape::List(item) => match t {
            Json::Array(v) => Json::Array(shape_items(v, item)),
            _ => dup(t),
        },
        Shape::Field(_, _, _) => match t {
            Json::Object(m) => Json::Object(shape_fields(m, s)),
            Json::Array(v) => {
                if fits(v.len(), s) {
                    assert(items(v@).skip(0) =~= items(v@));
                    Json::Object(shape_fields(&name_items(v, 0, s), s))
                } else {
                    dup(t)
                }
            },
            _ => dup(t),
        },
    }
}

// ---------------------------------------------------------------------------------------------
// What is in shape
// ---------------------------------------------------------------------------------------------

/// The fields of a record among members are in shape.
pub open spec fn fields_in_shape(m: Map<Seq<char>, Tree>, s: Shape) -> bool
    decreases s, 0int,
{
    match s {
        Shape::Field(name, field, rest) => fields_in_shape(m, *rest) && (m.contains_key(name@)
            ==> in_shape(m[name@], *field)),
        _ => true,
    }
}

/// Every record of a tree is an object already.
pub open spec fn in_shape(t: Tree, s: Shape) -> bool
    decreases s, 1int,
{
    match s {
        Shape::Any | Shape::End => true,
        Shape::List(item) => t matches Tree::Arr(v) ==> forall|i: int|
            0 <= i < v.len() ==> in_shape(#[trigger] v[i], *item),
        Shape::Field(_, _, _) => match t {
            Tree::Obj(m) => fields_in_shape(m, s),
            Tree::Arr(v) => v.len() > width(s),
            _ => true,
        },
    }
}

proof fn lemma_fields_in_shape(m: Map<Seq<char>, Tree>, s: Shape)
    requires
        fields_in_shape(m, s),
    ensures
        fields_shaped(m, s) == m,
    decreases s, 0int,
{
    match s {
        Shape::Field(name, field, rest) => {
            lemma_fields_in_shape(m, *rest);
            if m.contains_key(name@) {
                law_shaping_keeps_objects(m[name@], *field);
            }
            assert(fields_shaped(m, s) =~= m);
        },
        _ => {},
    }
}

/// A tree whose records are objects is read as it is.
pub proof fn law_shaping_keeps_objects(t: Tree, s: Shape)
    requires
        in_shape(t, s),
    ensures
        shaped(t, s) == t,
    decreases s, 1int,
{
    match s {
        Shape::Any | Shape::End => {},
        Shape::List(item) => match t {
            Tree::Arr(v) => {
                assert forall|i: int| 0 <= i < v.len() implies shaped(#[trigger] v[i], *item)
                    == v[i] by {
                    law_shaping_keeps_objects(v[i], *item);
                }
                assert(items_shaped(v, *item) =~= v);
            },
            _ => {},
        },
        Shape::Field(_, _, _) => match t {
            Tree::Obj(m) => lemma_fields_in_shape(m, s),
            _ => {},
        },
    }
}

/// A record whose fields are all taken as they are.
pub open spec fn flat(s: Shape) -> bool
    decreases s,
{
    match s {
        Shape::Field(_, field, rest) => *field is Any && flat(*rest),
        _ => s is End,
    }
}

proof fn lemma_flat_fields(m: Map<Seq<char>, Tree>, s: Shape)
    requires
        flat(s),
    ensures
        fields_in_shape(m, s),
    decreases s,
{
    match s {
        Shape::Field(name, field, rest) => {
            lemma_flat_fields(m, *rest);
            assert(in_shape(m[name@], *field));
        },
        _ => {},
    }
}

/// An object is read as it is where the fields of the record are.
pub proof fn lemma_flat(m: Map<Seq<char>, Tree>, s: Shape)
    requires
        flat(s),
    ensures
        shaped(Tree::Obj(m), s) == Tree::Obj(m),
{
    lemma_flat_fields(m, s);
    law_shaping_keeps_objects(Tree::Obj(m), s);
}

/// A record written by position reads as the record written by name.
pub proof fn law_position_is_name(v: Seq<Tree>, s: Shape)
    requires
        s is Field,
        v.len() <= width(s),
    ensures
        shaped(Tree::Arr(v), s) == shaped(Tree::Obj(named(v, s)), s),
{
}

} // verus!
