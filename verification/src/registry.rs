//! The registry of Kinds and hook bindings: the single extension surface.
//!
//! A [`KindSpec`] is the one declaration of a Kind: its allow-list, group key, redaction set,
//! measures and identity. Core and plugins contribute specs and bindings the same way.
use vstd::prelude::*;
use crate::decimal::nat_text;
use crate::error::{Error, ErrorModel};
use crate::json::{dup, opt_tree, tree_get, tree_str, Json, Tree};
use crate::order::{before, lemma_irreflexive, less};
use crate::pattern::{capture, compile, group_count, group_one, groups, refusal};
use crate::sorted::{ascending, is_sorted_set_of, sort_set, sorted_set};
use crate::text::{
    cat2, cat3, cat5, list_contains, opt_view, owned, owned_list, owned_opt, pieces, same, split,
    views,
};

verus! {

/// A validated Kind declaration.
#[derive(Debug)]
pub struct KindSpec {
    pub name: String,
    /// The only keys that survive sanitization, ascending.
    pub fields: Vec<String>,
    /// The field that a report groups by.
    pub group_key: String,
    /// Fields hashed before they are written, ascending.
    pub redact: Vec<String>,
    /// Numeric fields that a report sums per group; the first ranks the groups.
    pub measures: Vec<String>,
    /// The field by which two records are about the same entity, where the Kind counts entities.
    pub identity: Option<String>,
    /// Whether the receiver writes this Kind from a native signal; such a Kind takes no binding.
    pub receiver_sourced: bool,
}

/// The raw form of a `[[kind]]` table before validation.
#[derive(Debug)]
pub struct KindSpecRaw {
    pub name: String,
    pub fields: Vec<String>,
    pub group_key: String,
    pub redact: Vec<String>,
    pub measures: Vec<String>,
    pub identity: Option<String>,
}

/// What a Kind declares.
#[verifier::ext_equal]
pub struct KindModel {
    pub name: Seq<char>,
    pub fields: Seq<Seq<char>>,
    pub group_key: Seq<char>,
    pub redact: Seq<Seq<char>>,
    pub measures: Seq<Seq<char>>,
    pub identity: Option<Seq<char>>,
    pub receiver_sourced: bool,
}

impl KindSpec {
    pub open spec fn model(self) -> KindModel {
        KindModel {
            name: self.name@,
            fields: views(self.fields@),
            group_key: self.group_key@,
            redact: views(self.redact@),
            measures: views(self.measures@),
            identity: opt_view(self.identity),
            receiver_sourced: self.receiver_sourced,
        }
    }

    /// An independent copy.
    pub fn duplicate(&self) -> (r: KindSpec)
        ensures
            r.model() == self.model(),
    {
        KindSpec {
            name: owned(&self.name),
            fields: owned_list(&self.fields),
            group_key: owned(&self.group_key),
            redact: owned_list(&self.redact),
            measures: owned_list(&self.measures),
            identity: owned_opt(&self.identity),
            receiver_sourced: self.receiver_sourced,
        }
    }
}

/// A character that a Kind name may hold.
pub open spec fn name_char(c: char) -> bool {
    ('a' <= c <= 'z') || ('A' <= c <= 'Z') || ('0' <= c <= '9') || c == '.' || c == '_' || c == '-'
}

/// A Kind name is also a file name component: one character or more of a safe set.
pub open spec fn valid_name(name: Seq<char>) -> bool {
    name.len() > 0 && forall|i: int| 0 <= i < name.len() ==> name_char(#[trigger] name[i])
}

/// Whether a Kind name is safe as a file name component.
pub fn is_valid_kind_name(name: &str) -> (r: bool)
    ensures
        r == valid_name(name@),
{
    let v = crate::text::chars_of(name);
    let mut i: usize = 0;
    while i < v.len()
        invariant
            0 <= i <= v.len(),
            v@ == name@,
            forall|k: int| 0 <= k < i ==> name_char(#[trigger] v@[k]),
        decreases v.len() - i,
    {
        let c: char = v[i];
        if !(('a' <= c && c <= 'z') || ('A' <= c && c <= 'Z') || ('0' <= c && c <= '9') || c == '.'
            || c == '_' || c == '-') {
            assert(!name_char(name@[i as int]));
            return false;
        }
        i = i + 1;
    }
    v.len() > 0
}

/// The first element of `list` that `allowed` does not hold.
pub open spec fn first_outside(list: Seq<Seq<char>>, allowed: Seq<Seq<char>>) -> Option<Seq<char>>
    decreases list.len(),
{
    if list.len() == 0 {
        None
    } else if !allowed.contains(list[0]) {
        Some(list[0])
    } else {
        first_outside(list.skip(1), allowed)
    }
}

/// Nothing is outside exactly where every element is allowed.
pub proof fn lemma_first_outside(list: Seq<Seq<char>>, allowed: Seq<Seq<char>>)
    ensures
        first_outside(list, allowed) is None <==> (forall|i: int|
            0 <= i < list.len() ==> allowed.contains(#[trigger] list[i])),
        first_outside(list, allowed) matches Some(x) ==> list.contains(x) && !allowed.contains(x),
    decreases list.len(),
{
    if list.len() > 0 {
        let rest = list.skip(1);
        lemma_first_outside(rest, allowed);
        if allowed.contains(list[0]) {
            assert forall|i: int|
                0 <= i < rest.len() implies #[trigger] rest[i] == list[i + 1] by {}
            if first_outside(rest, allowed) is None {
                assert forall|i: int| 0 <= i < list.len() implies allowed.contains(
                    #[trigger] list[i],
                ) by {
                    if i > 0 {
                        assert(rest[i - 1] == list[i]);
                    }
                }
            } else {
                let x = first_outside(rest, allowed)->0;
                let k = choose|k: int| 0 <= k < rest.len() && rest[k] == x;
                assert(list[k + 1] == x);
            }
        } else {
            assert(list.contains(list[0]));
        }
    }
}

/// Find the first element of `list` that `allowed` does not hold.
pub fn find_outside(list: &Vec<String>, allowed: &Vec<String>) -> (r: Option<String>)
    ensures
        opt_view(r) == first_outside(views(list@), views(allowed@)),
{
    let mut i: usize = 0;
    assert(views(list@).skip(0) =~= views(list@));
    while i < list.len()
        invariant
            0 <= i <= list.len(),
            first_outside(views(list@), views(allowed@)) == first_outside(
                views(list@).skip(i as int),
                views(allowed@),
            ),
        decreases list.len() - i,
    {
        assert(views(list@).skip(i as int).skip(1) =~= views(list@).skip(i + 1));
        if !list_contains(allowed, &list[i]) {
            return Some(owned(&list[i]));
        }
        i = i + 1;
    }
    None
}

/// What a `[[kind]]` table says.
#[verifier::ext_equal]
pub struct RawModel {
    pub name: Seq<char>,
    pub fields: Seq<Seq<char>>,
    pub group_key: Seq<char>,
    pub redact: Seq<Seq<char>>,
    pub measures: Seq<Seq<char>>,
    pub identity: Option<Seq<char>>,
}

impl KindSpecRaw {
    pub open spec fn model(self) -> RawModel {
        RawModel {
            name: self.name@,
            fields: views(self.fields@),
            group_key: self.group_key@,
            redact: views(self.redact@),
            measures: views(self.measures@),
            identity: opt_view(self.identity),
        }
    }
}

/// Why a declaration is refused: the first of its faults, in the order in which they are looked
/// for.
pub open spec fn raw_fault(raw: RawModel) -> Option<Seq<char>> {
    if !valid_name(raw.name) {
        Some("name must be non-empty and use only [A-Za-z0-9._-]"@)
    } else if !raw.fields.contains(raw.group_key) {
        Some("group_key '"@ + raw.group_key + "' not in fields"@)
    } else if let Some(r) = first_outside(sorted_set(raw.redact), raw.fields) {
        Some("redact field '"@ + r + "' not in fields"@)
    } else if let Some(m) = first_outside(raw.measures, raw.fields) {
        Some("measure '"@ + m + "' not in fields"@)
    } else if raw.identity matches Some(id) && !raw.fields.contains(id) {
        Some("identity '"@ + raw.identity->0 + "' not in fields"@)
    } else {
        None
    }
}

/// What a declaration without a fault declares.
pub open spec fn raw_declared(raw: RawModel) -> KindModel {
    KindModel {
        name: raw.name,
        fields: sorted_set(raw.fields),
        group_key: raw.group_key,
        redact: sorted_set(raw.redact),
        measures: raw.measures,
        identity: raw.identity,
        receiver_sourced: false,
    }
}

impl KindSpec {
    /// Validate a declaration. It fails with the first fault found: the name, the group key, a
    /// redacted field, a measure or the identity that is not among the fields.
    pub fn from_raw(raw: KindSpecRaw) -> (r: Result<KindSpec, Error>)
        ensures
            match raw_fault(raw.model()) {
                Some(reason) => r matches Err(e) && e.model() == ErrorModel::InvalidSpec(
                    raw.name@,
                    reason,
                ),
                None => r matches Ok(k) && k.model() == raw_declared(raw.model()),
            },
    {
        if !is_valid_kind_name(&raw.name) {
            return Err(
                Error::InvalidSpec {
                    name: raw.name,
                    reason: owned("name must be non-empty and use only [A-Za-z0-9._-]"),
                },
            );
        }
        if !list_contains(&raw.fields, &raw.group_key) {
            let reason = cat3("group_key '", &raw.group_key, "' not in fields");
            return Err(Error::InvalidSpec { name: raw.name, reason });
        }
        let redact = sort_set(&raw.redact);
        if let Some(field) = find_outside(&redact, &raw.fields) {
            let reason = cat3("redact field '", &field, "' not in fields");
            return Err(Error::InvalidSpec { name: raw.name, reason });
        }
        if let Some(field) = find_outside(&raw.measures, &raw.fields) {
            let reason = cat3("measure '", &field, "' not in fields");
            return Err(Error::InvalidSpec { name: raw.name, reason });
        }
        if let Some(id) = &raw.identity {
            if !list_contains(&raw.fields, id) {
                let reason = cat3("identity '", id, "' not in fields");
                return Err(Error::InvalidSpec { name: raw.name, reason });
            }
        }
        Ok(
            KindSpec {
                name: raw.name,
                fields: sort_set(&raw.fields),
                group_key: raw.group_key,
                redact,
                measures: raw.measures,
                identity: raw.identity,
                receiver_sourced: false,
            },
        )
    }
}

// ---------------------------------------------------------------------------------------------
// Field maps
// ---------------------------------------------------------------------------------------------

/// The source field or fields of a field map. Several are tried in order; the first present wins.
#[derive(Debug)]
pub enum FromSpec {
    One(String),
    Many(Vec<String>),
}

impl FromSpec {
    pub open spec fn model(self) -> Seq<Seq<char>> {
        match self {
            FromSpec::One(s) => seq![s@],
            FromSpec::Many(v) => views(v@),
        }
    }

    /// The source fields in the order in which they are tried.
    pub fn keys(&self) -> (r: Vec<String>)
        ensures
            views(r@) == self.model(),
    {
        match self {
            FromSpec::One(s) => {
                let mut out: Vec<String> = Vec::new();
                out.push(owned(s));
                assert(views(out@) =~= seq![s@]);
                out
            },
            FromSpec::Many(v) => owned_list(v),
        }
    }

    fn duplicate(&self) -> (r: FromSpec)
        ensures
            r.model() == self.model(),
    {
        match self {
            FromSpec::One(s) => FromSpec::One(owned(s)),
            FromSpec::Many(v) => FromSpec::Many(owned_list(v)),
        }
    }
}

/// A declarative transform from a hook event's fields into one payload field. A source that is
/// missing, or a transform that does not apply, omits the field.
#[derive(Debug)]
pub struct FieldMap {
    pub from: Option<FromSpec>,
    /// A regular expression whose first group becomes the value.
    pub capture: Option<String>,
    /// Take the number of characters of the source string.
    pub len: bool,
    /// Tell whether the source field is present and not null.
    pub present: bool,
    /// Take the final path component of the source string.
    pub basename: bool,
    /// A constant value, whatever the event holds.
    pub constant: Option<Json>,
}

/// What a field map says.
#[verifier::ext_equal]
pub struct MapModel {
    pub from: Option<Seq<Seq<char>>>,
    pub capture: Option<Seq<char>>,
    pub len: bool,
    pub present: bool,
    pub basename: bool,
    pub constant: Option<Tree>,
}

/// The tree of an optional value.
pub open spec fn tree_of(o: Option<Json>) -> Option<Tree> {
    match o {
        Some(j) => Some(j.view()),
        None => None,
    }
}

pub open spec fn one(b: bool) -> int {
    if b {
        1
    } else {
        0
    }
}

/// How many transforms a field map asks for.
pub open spec fn transforms(m: MapModel) -> int {
    one(m.capture is Some) + one(m.len) + one(m.present) + one(m.basename) + one(
        m.constant is Some,
    )
}

/// Why a field map is refused.
pub open spec fn map_fault(m: MapModel) -> Option<Seq<char>> {
    if transforms(m) > 1 {
        Some("at most one of capture/len/present/basename/const may be set"@)
    } else if m.constant is None && !(m.from matches Some(keys) && keys.len() > 0) {
        Some("a non-const map needs a non-empty `from` source"@)
    } else {
        None
    }
}

/// The value of the first of `keys` that the event has.
pub open spec fn first_present(event: Tree, keys: Seq<Seq<char>>) -> Option<Tree>
    decreases keys.len(),
{
    if keys.len() == 0 {
        None
    } else if tree_get(event, keys[0]) is Some {
        tree_get(event, keys[0])
    } else {
        first_present(event, keys.skip(1))
    }
}

/// One of `keys` is in the event and not null.
pub open spec fn any_nonnull(event: Tree, keys: Seq<Seq<char>>) -> bool {
    exists|i: int|
        0 <= i < keys.len() && (tree_get(event, #[trigger] keys[i]) matches Some(v) && v
            != Tree::Null)
}

/// The path components that count: neither empty nor a lone dot.
pub open spec fn components(path: Seq<char>) -> Seq<Seq<char>> {
    pieces(path, '/').filter(|p: Seq<char>| p.len() > 0 && p != "."@)
}

/// The final component of a path, or the whole text where it has none of its own.
pub open spec fn base_name(path: Seq<char>) -> Seq<char> {
    let parts = components(path);
    if parts.len() > 0 && parts.last() != ".."@ {
        parts.last()
    } else {
        path
    }
}

/// The value a field map takes from an event; `None` omits the field.
pub open spec fn mapped(m: MapModel, event: Tree) -> Option<Tree> {
    if m.constant is Some {
        m.constant
    } else if m.from is None {
        None
    } else if m.present {
        Some(Tree::Bool(any_nonnull(event, m.from->0)))
    } else {
        match first_present(event, m.from->0) {
            None => None,
            Some(value) => if m.len {
                match tree_str(value) {
                    Some(s) => Some(Tree::Num(nat_text(s.len()))),
                    None => None,
                }
            } else if m.basename {
                match tree_str(value) {
                    Some(s) => Some(Tree::Str(base_name(s))),
                    None => None,
                }
            } else if m.capture is Some {
                match tree_str(value) {
                    Some(s) => if refusal(m.capture->0) is None {
                        match group_one(m.capture->0, s) {
                            Some(g) => Some(Tree::Str(g)),
                            None => None,
                        }
                    } else {
                        None
                    },
                    None => None,
                }
            } else {
                Some(value)
            },
        }
    }
}

/// The last component of a path, where it has any.
pub fn last_component(path: &str) -> (r: Option<String>)
    ensures
        match r {
            Some(s) => components(path@).len() > 0 && s@ == components(path@).last(),
            None => components(path@).len() == 0,
        },
{
    let parts = split(path, '/');
    let ghost p = |p: Seq<char>| p.len() > 0 && p != "."@;
    let mut last: Option<String> = None;
    let mut i: usize = 0;
    proof {
        crate::seqs::lemma_filter_none(views(parts@), p);
    }
    while i < parts.len()
        invariant
            0 <= i <= parts.len(),
            p == (|p: Seq<char>| p.len() > 0 && p != "."@),
            match last {
                Some(s) => views(parts@).take(i as int).filter(p).len() > 0 && s@ == views(
                    parts@,
                ).take(i as int).filter(p).last(),
                None => views(parts@).take(i as int).filter(p).len() == 0,
            },
        decreases parts.len() - i,
    {
        proof {
            crate::seqs::lemma_filter_take(views(parts@), i as int, p);
        }
        if !parts[i].as_str().is_empty() && !same(&parts[i], ".") {
            last = Some(owned(&parts[i]));
        }
        i = i + 1;
    }
    assert(views(parts@).take(parts.len() as int) =~= views(parts@));
    last
}

/// The final component of a path, or the whole text where it has none of its own.
pub fn basename(path: &str) -> (r: String)
    ensures
        r@ == base_name(path@),
{
    match last_component(path) {
        Some(s) => if same(&s, "..") {
            owned(path)
        } else {
            s
        },
        None => owned(path),
    }
}

impl FieldMap {
    pub open spec fn model(self) -> MapModel {
        MapModel {
            from: match self.from {
                Some(f) => Some(f.model()),
                None => None,
            },
            capture: opt_view(self.capture),
            len: self.len,
            present: self.present,
            basename: self.basename,
            constant: tree_of(self.constant),
        }
    }

    /// An independent copy.
    pub fn duplicate(&self) -> (r: FieldMap)
        ensures
            r.model() == self.model(),
    {
        FieldMap {
            from: match &self.from {
                Some(f) => Some(f.duplicate()),
                None => None,
            },
            capture: owned_opt(&self.capture),
            len: self.len,
            present: self.present,
            basename: self.basename,
            constant: match &self.constant {
                Some(j) => Some(dup(j)),
                None => None,
            },
        }
    }

    /// Refuse an ambiguous map: at most one transform may be set, and a map that is not constant
    /// needs a source.
    pub fn validate(&self) -> (r: Result<(), &'static str>)
        ensures
            match map_fault(self.model()) {
                Some(reason) => r matches Err(e) && e@ == reason,
                None => r is Ok,
            },
    {
        let mut n: usize = 0;
        if self.capture.is_some() {
            n = n + 1;
        }
        if self.len {
            n = n + 1;
        }
        if self.present {
            n = n + 1;
        }
        if self.basename {
            n = n + 1;
        }
        if self.constant.is_some() {
            n = n + 1;
        }
        if n > 1 {
            return Err("at most one of capture/len/present/basename/const may be set");
        }
        if self.constant.is_none() {
            let sourced = match &self.from {
                Some(f) => {
                    let keys = f.keys();
                    assert(views(keys@).len() == keys.len());
                    keys.len() > 0
                },
                None => false,
            };
            if !sourced {
                return Err("a non-const map needs a non-empty `from` source");
            }
        }
        Ok(())
    }

    /// Whether this map reads `key` as a source.
    pub fn references(&self, key: &str) -> (r: bool)
        ensures
            r == (self.model().from matches Some(keys) && keys.contains(key@)),
    {
        match &self.from {
            Some(f) => list_contains(&f.keys(), key),
            None => false,
        }
    }

    /// Take this map's value from an event, or nothing.
    pub fn apply(&self, stdin: &Json) -> (r: Option<Json>)
        ensures
            tree_of(r) == mapped(self.model(), stdin.view()),
    {
        if let Some(c) = &self.constant {
            return Some(dup(c));
        }
        let keys = match &self.from {
            Some(f) => f.keys(),
            None => {
                return None;
            },
        };
        if self.present {
            return Some(Json::Bool(has_nonnull(stdin, &keys)));
        }
        let value = match find_present(stdin, &keys) {
            Some(v) => v,
            None => {
                return None;
            },
        };
        if self.len {
            return match value.as_str() {
                Some(s) => Some(Json::natural(crate::text::length(s))),
                None => None,
            };
        }
        if self.basename {
            return match value.as_str() {
                Some(s) => Some(Json::Str(basename(s))),
                None => None,
            };
        }
        if let Some(pattern) = &self.capture {
            return match compile(pattern) {
                Ok(re) => match value.as_str() {
                    Some(s) => match capture(&re, s) {
                        Some(g) => Some(Json::Str(g)),
                        None => None,
                    },
                    None => None,
                },
                Err(_) => None,
            };
        }
        Some(dup(value))
    }
}

fn has_nonnull(event: &Json, keys: &Vec<String>) -> (r: bool)
    ensures
        r == any_nonnull(event.view(), views(keys@)),
{
    let mut i: usize = 0;
    while i < keys.len()
        invariant
            0 <= i <= keys.len(),
            forall|k: int|
                0 <= k < i ==> !(tree_get(event.view(), #[trigger] views(keys@)[k]) matches Some(v)
                    && v != Tree::Null),
        decreases keys.len() - i,
    {
        assert(views(keys@)[i as int] == keys@[i as int]@);
        if let Some(v) = event.get(&keys[i]) {
            match v {
                Json::Null => {},
                _ => {
                    return true;
                },
            }
        }
        i = i + 1;
    }
    false
}

fn find_present<'a>(event: &'a Json, keys: &Vec<String>) -> (r: Option<&'a Json>)
    ensures
        opt_tree(r) == first_present(event.view(), views(keys@)),
{
    let mut i: usize = 0;
    assert(views(keys@).skip(0) =~= views(keys@));
    while i < keys.len()
        invariant
            0 <= i <= keys.len(),
            first_present(event.view(), views(keys@)) == first_present(
                event.view(),
                views(keys@).skip(i as int),
            ),
        decreases keys.len() - i,
    {
        assert(views(keys@).skip(i as int).skip(1) =~= views(keys@).skip(i + 1));
        if let Some(v) = event.get(&keys[i]) {
            return Some(v);
        }
        i = i + 1;
    }
    None
}

// ---------------------------------------------------------------------------------------------
// Bindings
// ---------------------------------------------------------------------------------------------

/// A hook event → Kind mapping with its field maps, in ascending order of the fields.
#[derive(Debug)]
pub struct HookBinding {
    pub event: String,
    pub kind: String,
    pub map: Vec<(String, FieldMap)>,
}

/// What a binding says.
#[verifier::ext_equal]
pub struct BindingModel {
    pub event: Seq<char>,
    pub kind: Seq<char>,
    pub map: Seq<(Seq<char>, MapModel)>,
}

/// The models of a list of field maps.
pub open spec fn map_models(m: Seq<(String, FieldMap)>) -> Seq<(Seq<char>, MapModel)> {
    Seq::new(m.len(), |i: int| (m[i].0@, m[i].1.model()))
}

impl HookBinding {
    pub open spec fn model(self) -> BindingModel {
        BindingModel { event: self.event@, kind: self.kind@, map: map_models(self.map@) }
    }

    /// An independent copy.
    pub fn duplicate(&self) -> (r: HookBinding)
        ensures
            r.model() == self.model(),
    {
        let mut map: Vec<(String, FieldMap)> = Vec::new();
        let mut i: usize = 0;
        while i < self.map.len()
            invariant
                0 <= i <= self.map.len(),
                map.len() == i,
                forall|k: int|
                    0 <= k < i ==> (#[trigger] map@[k]).0@ == self.map@[k].0@ && map@[k].1.model()
                        == self.map@[k].1.model(),
            decreases self.map.len() - i,
        {
            map.push((owned(&self.map[i].0), self.map[i].1.duplicate()));
            i = i + 1;
        }
        assert(map_models(map@) =~= map_models(self.map@));
        HookBinding { event: owned(&self.event), kind: owned(&self.kind), map }
    }
}

/// The models of a list of bindings.
pub open spec fn binding_models(b: Seq<HookBinding>) -> Seq<BindingModel> {
    Seq::new(b.len(), |i: int| b[i].model())
}

/// The models of a list of Kinds.
pub open spec fn kind_models(k: Seq<KindSpec>) -> Seq<KindModel> {
    Seq::new(k.len(), |i: int| k[i].model())
}

/// The names of a list of Kinds.
pub open spec fn kind_names(k: Seq<KindModel>) -> Seq<Seq<char>> {
    Seq::new(k.len(), |i: int| k[i].name)
}

/// The Kind with a name.
pub open spec fn find_kind(kinds: Seq<KindModel>, name: Seq<char>) -> Option<KindModel>
    decreases kinds.len(),
{
    if kinds.len() == 0 {
        None
    } else if kinds[0].name == name {
        Some(kinds[0])
    } else {
        find_kind(kinds.skip(1), name)
    }
}

proof fn lemma_find_kind(kinds: Seq<KindModel>, name: Seq<char>, at: int)
    requires
        0 <= at < kinds.len(),
        kinds[at].name == name,
        forall|k: int| 0 <= k < at ==> (#[trigger] kinds[k]).name != name,
    ensures
        find_kind(kinds, name) == Some(kinds[at]),
    decreases kinds.len(),
{
    if at > 0 {
        assert(kinds[0].name != name);
        assert forall|k: int| 0 <= k < at - 1 implies (#[trigger] kinds.skip(1)[k]).name
            != name by {
            assert(kinds.skip(1)[k] == kinds[k + 1]);
        }
        lemma_find_kind(kinds.skip(1), name, at - 1);
    }
}

proof fn lemma_find_kind_none(kinds: Seq<KindModel>, name: Seq<char>)
    requires
        forall|k: int| 0 <= k < kinds.len() ==> (#[trigger] kinds[k]).name != name,
    ensures
        find_kind(kinds, name) is None,
    decreases kinds.len(),
{
    if kinds.len() > 0 {
        assert(kinds[0].name != name);
        assert forall|k: int| 0 <= k < kinds.skip(1).len() implies (#[trigger] kinds.skip(
            1,
        )[k]).name != name by {
            assert(kinds.skip(1)[k] == kinds[k + 1]);
        }
        lemma_find_kind_none(kinds.skip(1), name);
    }
}

/// A Kind that is found is one of the list, and has the name.
pub proof fn lemma_find_kind_from(kinds: Seq<KindModel>, name: Seq<char>) -> (at: int)
    ensures
        find_kind(kinds, name) is Some ==> 0 <= at < kinds.len() && find_kind(kinds, name) == Some(
            kinds[at],
        ) && kinds[at].name == name && (forall|k: int|
            0 <= k < at ==> (#[trigger] kinds[k]).name != name),
        find_kind(kinds, name) is None ==> (forall|k: int|
            0 <= k < kinds.len() ==> (#[trigger] kinds[k]).name != name),
    decreases kinds.len(),
{
    if kinds.len() == 0 {
        0
    } else if kinds[0].name == name {
        0
    } else {
        let at = lemma_find_kind_from(kinds.skip(1), name);
        if find_kind(kinds, name) is Some {
            assert(kinds.skip(1)[at] == kinds[at + 1]);
            assert forall|k: int| 0 <= k < at + 1 implies (#[trigger] kinds[k]).name != name by {
                if k > 0 {
                    assert(kinds.skip(1)[k - 1] == kinds[k]);
                }
            }
        } else {
            assert forall|k: int| 0 <= k < kinds.len() implies (#[trigger] kinds[k]).name
                != name by {
                if k > 0 {
                    assert(kinds.skip(1)[k - 1] == kinds[k]);
                }
            }
        }
        at + 1
    }
}

/// The list of Kinds with one more, in the order of the names.
pub open spec fn with_kind(kinds: Seq<KindModel>, k: KindModel) -> Seq<KindModel> {
    kinds.insert(crate::sorted::rank_of(kind_names(kinds), k.name), k)
}

/// Why one field of a binding is refused.
pub open spec fn field_fault(
    kind: KindModel,
    event: Seq<char>,
    field: Seq<char>,
    m: MapModel,
) -> Option<Seq<char>> {
    if field == "project"@ {
        Some(
            "binding for event '"@ + event
                + "' may not map 'project' — it is injected from the cwd"@,
        )
    } else if !kind.fields.contains(field) {
        Some(
            "binding for event '"@ + event + "' writes field '"@ + field
                + "' not in the kind's fields"@,
        )
    } else if let Some(reason) = map_fault(m) {
        Some("binding for event '"@ + event + "' field '"@ + field + "': "@ + reason)
    } else {
        match m.capture {
            None => None,
            Some(pattern) => match refusal(pattern) {
                Some(e) => Some(
                    "binding for event '"@ + event + "' field '"@ + field
                        + "' has an invalid capture regex: "@ + e,
                ),
                None => if group_count(pattern) < 2 {
                    Some(
                        "binding for event '"@ + event + "' field '"@ + field
                            + "' capture regex needs a group, e.g. ^spec/(.+)$"@,
                    )
                } else {
                    None
                },
            },
        }
    }
}

/// Why the field maps of a binding are refused: the fault of the first that has one.
pub open spec fn fields_fault(
    kind: KindModel,
    event: Seq<char>,
    map: Seq<(Seq<char>, MapModel)>,
) -> Option<Seq<char>>
    decreases map.len(),
{
    if map.len() == 0 {
        None
    } else if let Some(reason) = field_fault(kind, event, map[0].0, map[0].1) {
        Some(reason)
    } else {
        fields_fault(kind, event, map.skip(1))
    }
}

/// Some binding already joins the event and the Kind.
pub open spec fn pair_bound(
    bindings: Seq<BindingModel>,
    event: Seq<char>,
    kind: Seq<char>,
) -> bool {
    exists|i: int|
        0 <= i < bindings.len() && (#[trigger] bindings[i]).event == event && bindings[i].kind
            == kind
}

/// Why a registry refuses a binding.
pub open spec fn bind_fault(reg: RegistryModel, b: BindingModel) -> Option<Seq<char>> {
    match find_kind(reg.kinds, b.kind) {
        None => Some("binding for event '"@ + b.event + "' targets unregistered kind"@),
        Some(kind) => if kind.receiver_sourced {
            Some(
                "binding for event '"@ + b.event + "' targets receiver-sourced kind '"@ + b.kind
                    + "' — it is written from native OTel and cannot be hook-bound"@,
            )
        } else if let Some(reason) = fields_fault(kind, b.event, b.map) {
            Some(reason)
        } else if pair_bound(reg.bindings, b.event, b.kind) {
            Some("event '"@ + b.event + "' already has a binding for kind '"@ + b.kind + "'"@)
        } else {
            None
        },
    }
}

/// The merged set of Kinds, bindings and native signals.
#[derive(Debug)]
pub struct Registry {
    kinds: Vec<KindSpec>,
    bindings: Vec<HookBinding>,
    metrics: Vec<String>,
    events: Vec<String>,
}

/// What a registry holds: the Kinds in the order of their names, the bindings in the order in
/// which they were made, and the two ascending lists of native signals.
#[verifier::ext_equal]
pub struct RegistryModel {
    pub kinds: Seq<KindModel>,
    pub bindings: Seq<BindingModel>,
    pub metrics: Seq<Seq<char>>,
    pub events: Seq<Seq<char>>,
}

impl RegistryModel {
    /// Kinds have different names and stand in order; every binding joins an event to a
    /// registered Kind that a hook may write, and no pair is joined twice.
    pub open spec fn consistent(self) -> bool {
        &&& ascending(kind_names(self.kinds))
        &&& forall|i: int|
            0 <= i < self.bindings.len() ==> binding_holds(self.kinds, #[trigger] self.bindings[i])
        &&& forall|i: int, j: int|
            0 <= i < j < self.bindings.len() ==> !((#[trigger] self.bindings[i]).event == (
            #[trigger] self.bindings[j]).event && self.bindings[i].kind == self.bindings[j].kind)
        &&& ascending(self.metrics)
        &&& ascending(self.events)
    }
}

/// A binding whose Kind is registered and which has no fault.
pub open spec fn binding_holds(kinds: Seq<KindModel>, b: BindingModel) -> bool {
    find_kind(kinds, b.kind) matches Some(kind) && !kind.receiver_sourced && fields_fault(
        kind,
        b.event,
        b.map,
    ) is None
}

impl Registry {
    pub closed spec fn model(self) -> RegistryModel {
        RegistryModel {
            kinds: kind_models(self.kinds@),
            bindings: binding_models(self.bindings@),
            metrics: views(self.metrics@),
            events: views(self.events@),
        }
    }

    #[verifier::type_invariant]
    spec fn inv(self) -> bool {
        self.model().consistent()
    }

    /// An empty registry.
    pub fn new() -> (r: Registry)
        ensures
            r.model().kinds.len() == 0,
            r.model().bindings.len() == 0,
            r.model().metrics.len() == 0,
            r.model().events.len() == 0,
    {
        Registry { kinds: Vec::new(), bindings: Vec::new(), metrics: Vec::new(), events: Vec::new() }
    }

    /// The Kind with a name.
    pub fn kind(&self, name: &str) -> (r: Option<&KindSpec>)
        ensures
            match r {
                Some(k) => find_kind(self.model().kinds, name@) == Some(k.model()),
                None => find_kind(self.model().kinds, name@) is None,
            },
    {
        let mut i: usize = 0;
        while i < self.kinds.len()
            invariant
                0 <= i <= self.kinds.len(),
                forall|k: int|
                    0 <= k < i ==> (#[trigger] kind_models(self.kinds@)[k]).name != name@,
            decreases self.kinds.len() - i,
        {
            assert(kind_models(self.kinds@)[i as int] == self.kinds@[i as int].model());
            if same(&self.kinds[i].name, name) {
                proof {
                    lemma_find_kind(kind_models(self.kinds@), name@, i as int);
                }
                return Some(&self.kinds[i]);
            }
            i = i + 1;
        }
        proof {
            lemma_find_kind_none(kind_models(self.kinds@), name@);
        }
        None
    }

    /// The Kinds, in the order of their names.
    pub fn kinds(&self) -> (r: &Vec<KindSpec>)
        ensures
            kind_models(r@) == self.model().kinds,
            self.model().consistent(),
    {
        proof {
            use_type_invariant(self);
        }
        &self.kinds
    }

    /// The metrics whose totals are kept.
    pub fn tracked_metrics(&self) -> (r: &Vec<String>)
        ensures
            views(r@) == self.model().metrics,
    {
        &self.metrics
    }

    /// The events that are counted.
    pub fn counted_events(&self) -> (r: &Vec<String>)
        ensures
            views(r@) == self.model().events,
    {
        &self.events
    }

    /// Register a Kind; a name that is taken is an error and changes nothing.
    pub fn add_kind(&mut self, spec: KindSpec) -> (r: Result<(), Error>)
        ensures
            match find_kind(old(self).model().kinds, spec.name@) {
                Some(_) => r matches Err(e) && e.model() == ErrorModel::DuplicateKind(spec.name@)
                    && final(self).model() == old(self).model(),
                None => r is Ok && final(self).model() == (RegistryModel {
                    kinds: with_kind(old(self).model().kinds, spec.model()),
                    ..old(self).model()
                }),
            },
    {
        proof {
            use_type_invariant(&*self);
        }
        if self.kind(&spec.name).is_some() {
            return Err(Error::DuplicateKind(spec.name));
        }
        let ghost kinds = self.model().kinds;
        let ghost names = kind_names(kinds);
        let mut r: usize = 0;
        while r < self.kinds.len() && less(&self.kinds[r].name, &spec.name)
            invariant
                0 <= r <= self.kinds@.len(),
                kinds == kind_models(self.kinds@),
                names == kind_names(kinds),
                forall|k: int| 0 <= k < r ==> before(#[trigger] names[k], spec.name@),
                self.model() == old(self).model(),
            decreases self.kinds@.len() - r,
        {
            assert(names[r as int] == self.kinds@[r as int].name@);
            r = r + 1;
        }
        proof {
            if r < names.len() {
                assert(names[r as int] == self.kinds@[r as int].name@);
            }
            crate::sorted::lemma_rank(names, spec.name@, r as int);
            lemma_with_kind(old(self).model(), spec.model());
        }
        let mut after = copy_kinds(&self.kinds);
        let ghost copied = after@;
        after.insert(r, spec);
        assert(kind_models(after@) =~= kind_models(copied).insert(r as int, spec.model()));
        self.kinds = after;
        Ok(())
    }
}

fn copy_kinds(kinds: &Vec<KindSpec>) -> (r: Vec<KindSpec>)
    ensures
        kind_models(r@) == kind_models(kinds@),
        r.len() == kinds.len(),
{
    let mut out: Vec<KindSpec> = Vec::new();
    let mut i: usize = 0;
    while i < kinds.len()
        invariant
            0 <= i <= kinds.len(),
            out.len() == i,
            forall|k: int| 0 <= k < i ==> (#[trigger] out@[k]).model() == kinds@[k].model(),
        decreases kinds.len() - i,
    {
        out.push(kinds[i].duplicate());
        i = i + 1;
    }
    assert(kind_models(out@) =~= kind_models(kinds@));
    out
}

fn copy_bindings(bindings: &Vec<HookBinding>) -> (r: Vec<HookBinding>)
    ensures
        binding_models(r@) == binding_models(bindings@),
        r.len() == bindings.len(),
{
    let mut out: Vec<HookBinding> = Vec::new();
    let mut i: usize = 0;
    while i < bindings.len()
        invariant
            0 <= i <= bindings.len(),
            out.len() == i,
            forall|k: int| 0 <= k < i ==> (#[trigger] out@[k]).model() == bindings@[k].model(),
        decreases bindings.len() - i,
    {
        out.push(bindings[i].duplicate());
        i = i + 1;
    }
    assert(binding_models(out@) =~= binding_models(bindings@));
    out
}

/// Registering a Kind under a free name keeps the registry consistent, and every Kind that was
/// there is still found.
pub proof fn lemma_with_kind(reg: RegistryModel, k: KindModel)
    requires
        reg.consistent(),
        find_kind(reg.kinds, k.name) is None,
    ensures
        (RegistryModel { kinds: with_kind(reg.kinds, k), ..reg }).consistent(),
        forall|n: Seq<char>|
            n != k.name ==> #[trigger] find_kind(with_kind(reg.kinds, k), n) == find_kind(
                reg.kinds,
                n,
            ),
        find_kind(with_kind(reg.kinds, k), k.name) == Some(k),
{
    let names = kind_names(reg.kinds);
    let _ = lemma_find_kind_from(reg.kinds, k.name);
    assert(!names.contains(k.name)) by {
        if names.contains(k.name) {
            let i = choose|i: int| 0 <= i < names.len() && names[i] == k.name;
            assert(reg.kinds[i].name == k.name);
        }
    }
    crate::sorted::lemma_inserted(names, k.name);
    crate::sorted::lemma_rank_bounds(names, k.name);
    let r = crate::sorted::rank_of(names, k.name);
    let after = with_kind(reg.kinds, k);
    assert(kind_names(after) =~= names.insert(r, k.name));
    assert forall|i: int, j: int| 0 <= i < j < after.len() implies after[i].name
        != after[j].name by {
        assert(kind_names(after)[i] == after[i].name);
        assert(kind_names(after)[j] == after[j].name);
        assert(before(kind_names(after)[i], kind_names(after)[j]));
        lemma_irreflexive(after[i].name);
    }
    assert forall|n: Seq<char>| n != k.name implies #[trigger] find_kind(after, n) == find_kind(
        reg.kinds,
        n,
    ) by {
        let at = lemma_find_kind_from(reg.kinds, n);
        if find_kind(reg.kinds, n) is Some {
            let p = if at < r { at } else { at + 1 };
            assert(after[p] == reg.kinds[at]);
            assert forall|q: int| 0 <= q < p implies (#[trigger] after[q]).name != n by {
                assert(after[q].name != after[p].name);
            }
            lemma_find_kind(after, n, p);
        } else {
            assert forall|q: int| 0 <= q < after.len() implies (#[trigger] after[q]).name != n by {
                if q < r {
                    assert(after[q] == reg.kinds[q]);
                } else if q > r {
                    assert(after[q] == reg.kinds[q - 1]);
                }
            }
            lemma_find_kind_none(after, n);
        }
    }
    assert(after[r] == k);
    assert forall|q: int| 0 <= q < r implies (#[trigger] after[q]).name != k.name by {
        assert(after[q].name != after[r].name);
    }
    lemma_find_kind(after, k.name, r);
    let reg2 = RegistryModel { kinds: after, ..reg };
    assert forall|i: int| 0 <= i < reg2.bindings.len() implies binding_holds(
        reg2.kinds,
        #[trigger] reg2.bindings[i],
    ) by {
        assert(binding_holds(reg.kinds, reg.bindings[i]));
    }
}

/// Bindings of one event, in the order in which they were made.
pub open spec fn bindings_of(bindings: Seq<BindingModel>, event: Seq<char>) -> Seq<BindingModel> {
    bindings.filter(|b: BindingModel| b.event == event)
}

/// The models of a list of borrowed bindings.
pub open spec fn ref_models(b: Seq<&HookBinding>) -> Seq<BindingModel> {
    Seq::new(b.len(), |i: int| b[i].model())
}

/// The events of a list of bindings.
pub open spec fn binding_events(b: Seq<BindingModel>) -> Seq<Seq<char>> {
    Seq::new(b.len(), |i: int| b[i].event)
}

/// The fault of one field map, as an error text.
fn field_map_fault(kind: &KindSpec, event: &str, field: &str, map: &FieldMap) -> (r: Option<String>)
    ensures
        opt_view(r) == field_fault(kind.model(), event@, field@, map.model()),
{
    if same(field, "project") {
        return Some(
            cat3(
                "binding for event '",
                event,
                "' may not map 'project' — it is injected from the cwd",
            ),
        );
    }
    if !list_contains(&kind.fields, field) {
        return Some(
            cat5(
                "binding for event '",
                event,
                "' writes field '",
                field,
                "' not in the kind's fields",
            ),
        );
    }
    if let Err(reason) = map.validate() {
        return Some(
            cat2(&cat5("binding for event '", event, "' field '", field, "': "), reason),
        );
    }
    if let Some(pattern) = &map.capture {
        match compile(pattern) {
            Err(e) => {
                return Some(
                    cat2(
                        &cat5(
                            "binding for event '",
                            event,
                            "' field '",
                            field,
                            "' has an invalid capture regex: ",
                        ),
                        &e,
                    ),
                );
            },
            Ok(re) => {
                if groups(&re) < 2 {
                    return Some(
                        cat5(
                            "binding for event '",
                            event,
                            "' field '",
                            field,
                            "' capture regex needs a group, e.g. ^spec/(.+)$",
                        ),
                    );
                }
            },
        }
    }
    None
}

fn map_fields_fault(kind: &KindSpec, binding: &HookBinding) -> (r: Option<String>)
    ensures
        opt_view(r) == fields_fault(kind.model(), binding.event@, map_models(binding.map@)),
{
    let ghost maps = map_models(binding.map@);
    let mut i: usize = 0;
    assert(maps.skip(0) =~= maps);
    while i < binding.map.len()
        invariant
            0 <= i <= binding.map.len(),
            maps == map_models(binding.map@),
            fields_fault(kind.model(), binding.event@, maps) == fields_fault(
                kind.model(),
                binding.event@,
                maps.skip(i as int),
            ),
        decreases binding.map.len() - i,
    {
        proof {
            assert(maps.skip(i as int).skip(1) =~= maps.skip(i + 1));
            assert(maps.skip(i as int)[0] == (
                binding.map@[i as int].0@,
                binding.map@[i as int].1.model(),
            ));
        }
        if let Some(reason) = field_map_fault(
            kind,
            &binding.event,
            &binding.map[i].0,
            &binding.map[i].1,
        ) {
            return Some(reason);
        }
        i = i + 1;
    }
    None
}

impl Registry {
    fn is_bound(&self, event: &str, kind: &str) -> (r: bool)
        ensures
            r == pair_bound(self.model().bindings, event@, kind@),
    {
        let ghost all = binding_models(self.bindings@);
        let mut i: usize = 0;
        while i < self.bindings.len()
            invariant
                0 <= i <= self.bindings.len(),
                all == binding_models(self.bindings@),
                forall|k: int|
                    0 <= k < i ==> !((#[trigger] all[k]).event == event@ && all[k].kind == kind@),
            decreases self.bindings.len() - i,
        {
            assert(all[i as int] == self.bindings@[i as int].model());
            if same(&self.bindings[i].event, event) && same(&self.bindings[i].kind, kind) {
                return true;
            }
            i = i + 1;
        }
        false
    }

    /// Bind an event to a Kind. The binding is refused, and nothing changes, where the Kind is not
    /// registered or written by the receiver, where a field map is faulty, and where the event is
    /// already bound to the Kind.
    pub fn bind(&mut self, binding: HookBinding) -> (r: Result<(), Error>)
        ensures
            match bind_fault(old(self).model(), binding.model()) {
                Some(reason) => r matches Err(e) && e.model() == ErrorModel::InvalidSpec(
                    binding.kind@,
                    reason,
                ) && final(self).model() == old(self).model(),
                None => r is Ok && final(self).model() == (RegistryModel {
                    bindings: old(self).model().bindings.push(binding.model()),
                    ..old(self).model()
                }),
            },
    {
        proof {
            use_type_invariant(&*self);
        }
        let reason = match self.kind(&binding.kind) {
            None => Some(
                cat3("binding for event '", &binding.event, "' targets unregistered kind"),
            ),
            Some(spec) => if spec.receiver_sourced {
                Some(
                    cat5(
                        "binding for event '",
                        &binding.event,
                        "' targets receiver-sourced kind '",
                        &binding.kind,
                        "' — it is written from native OTel and cannot be hook-bound",
                    ),
                )
            } else {
                map_fields_fault(spec, &binding)
            },
        };
        if let Some(reason) = reason {
            return Err(Error::InvalidSpec { name: binding.kind, reason });
        }
        if self.is_bound(&binding.event, &binding.kind) {
            let reason = cat5(
                "event '",
                &binding.event,
                "' already has a binding for kind '",
                &binding.kind,
                "'",
            );
            return Err(Error::InvalidSpec { name: binding.kind, reason });
        }
        let ghost reg = self.model();
        let mut after = copy_bindings(&self.bindings);
        let ghost copied = after@;
        after.push(binding);
        proof {
            let b = binding.model();
            let next = RegistryModel { bindings: reg.bindings.push(b), ..reg };
            assert(binding_models(after@) =~= binding_models(copied).push(b));
            assert forall|i: int| 0 <= i < next.bindings.len() implies binding_holds(
                next.kinds,
                #[trigger] next.bindings[i],
            ) by {
                if i < reg.bindings.len() {
                    assert(next.bindings[i] == reg.bindings[i]);
                    assert(binding_holds(reg.kinds, reg.bindings[i]));
                }
            }
            assert forall|i: int, j: int| 0 <= i < j < next.bindings.len() implies !((
            #[trigger] next.bindings[i]).event == (#[trigger] next.bindings[j]).event
                && next.bindings[i].kind == next.bindings[j].kind) by {
                assert(next.bindings[i] == reg.bindings[i]);
                if j < reg.bindings.len() {
                    assert(next.bindings[j] == reg.bindings[j]);
                }
            }
            assert(next.consistent());
        }
        self.bindings = after;
        Ok(())
    }

    /// The bindings of an event, in the order in which they were made.
    pub fn bindings_for(&self, event: &str) -> (r: Vec<&HookBinding>)
        ensures
            ref_models(r@) == bindings_of(self.model().bindings, event@),
            self.model().consistent(),
    {
        proof {
            use_type_invariant(self);
        }
        let ghost all = binding_models(self.bindings@);
        let ghost p = |b: BindingModel| b.event == event@;
        let mut out: Vec<&HookBinding> = Vec::new();
        let mut i: usize = 0;
        proof {
            crate::seqs::lemma_filter_none(all, p);
            assert(ref_models(out@) =~= Seq::<BindingModel>::empty());
        }
        while i < self.bindings.len()
            invariant
                0 <= i <= self.bindings.len(),
                all == binding_models(self.bindings@),
                p == (|b: BindingModel| b.event == event@),
                ref_models(out@) == all.take(i as int).filter(p),
            decreases self.bindings.len() - i,
        {
            proof {
                crate::seqs::lemma_filter_take(all, i as int, p);
                assert(all[i as int] == self.bindings@[i as int].model());
            }
            if same(&self.bindings[i].event, event) {
                let ghost held = out@;
                out.push(&self.bindings[i]);
                assert(ref_models(out@) =~= ref_models(held).push(all[i as int]));
            }
            i = i + 1;
        }
        assert(all.take(all.len() as int) =~= all);
        out
    }

    /// The events that some binding names, ascending, each once.
    pub fn bound_events(&self) -> (r: Vec<String>)
        ensures
            views(r@) == sorted_set(binding_events(self.model().bindings)),
            is_sorted_set_of(views(r@), binding_events(self.model().bindings)),
    {
        let mut all: Vec<String> = Vec::new();
        let mut i: usize = 0;
        while i < self.bindings.len()
            invariant
                0 <= i <= self.bindings.len(),
                all.len() == i,
                forall|k: int| 0 <= k < i ==> (#[trigger] all@[k])@ == self.bindings@[k].event@,
            decreases self.bindings.len() - i,
        {
            all.push(owned(&self.bindings[i].event));
            i = i + 1;
        }
        assert(views(all@) =~= binding_events(binding_models(self.bindings@)));
        sort_set(&all)
    }

    /// An independent copy.
    pub fn duplicate(&self) -> (r: Registry)
        ensures
            r.model() == self.model(),
    {
        proof {
            use_type_invariant(self);
        }
        let kinds = copy_kinds(&self.kinds);
        let bindings = copy_bindings(&self.bindings);
        let metrics = owned_list(&self.metrics);
        let events = owned_list(&self.events);
        Registry { kinds, bindings, metrics, events }
    }

    /// Add to the native signals that are kept.
    pub fn track(&mut self, metrics: &Vec<String>, events: &Vec<String>)
        ensures
            final(self).model() == (RegistryModel {
                metrics: sorted_set(old(self).model().metrics + views(metrics@)),
                events: sorted_set(old(self).model().events + views(events@)),
                ..old(self).model()
            }),
    {
        proof {
            use_type_invariant(&*self);
        }
        let m = union(&self.metrics, metrics);
        let e = union(&self.events, events);
        let ghost reg = self.model();
        proof {
            let next = RegistryModel { metrics: views(m@), ..reg };
            assert forall|i: int| 0 <= i < next.bindings.len() implies binding_holds(
                next.kinds,
                #[trigger] next.bindings[i],
            ) by {
                assert(binding_holds(reg.kinds, reg.bindings[i]));
            }
            assert(next.consistent());
        }
        self.metrics = m;
        assert(self.model().consistent());
        self.events = e;
    }
}

/// The elements of two lists, ascending, each once.
fn union(a: &Vec<String>, b: &Vec<String>) -> (r: Vec<String>)
    ensures
        views(r@) == sorted_set(views(a@) + views(b@)),
        ascending(views(r@)),
{
    let mut all = owned_list(a);
    let mut more = owned_list(b);
    let ghost x = all@;
    let ghost y = more@;
    all.append(&mut more);
    assert(views(all@) =~= views(x) + views(y));
    sort_set(&all)
}

/// A Kind that the receiver writes has that one writer: no binding of a registry fills it.
pub proof fn law_a_receiver_sourced_kind_is_never_bound(
    reg: RegistryModel,
    name: Seq<char>,
    i: int,
)
    requires
        reg.consistent(),
        find_kind(reg.kinds, name) is Some,
        find_kind(reg.kinds, name)->0.receiver_sourced,
        0 <= i < reg.bindings.len(),
    ensures
        reg.bindings[i].kind != name,
{
    assert(binding_holds(reg.kinds, reg.bindings[i]));
}

} // verus!
