//! Schema loading: the core schema and plugin files, merged into one [`Registry`].
//!
//! This is the single path by which a Kind enters the system, so that no collision goes
//! unnoticed.
use vstd::prelude::*;
use crate::claude_settings::slot;
use crate::error::{Error, ErrorModel};
use crate::json::{
    dup, find_member, items, key_order, lists_keys, members, sorted_keys, Json, Tree,
};
use crate::registry::{
    bind_fault, binding_models, find_kind, lemma_with_kind, map_models, raw_declared, raw_fault,
    with_kind, BindingModel, FieldMap, FromSpec, HookBinding, KindModel, KindSpec, KindSpecRaw,
    MapModel, RawModel, Registry, RegistryModel,
};
use crate::sorted::{lemma_sorted_set, sorted_set};
use crate::table::{
    all_strings, find_unknown, flag_field, list_field, mistyped, mistyped_text, opt_str_field,
    parse_toml, read_flag, read_list, read_opt_str, read_str, read_strings, str_field, strings,
    tables_field, toml_parsed, unknown_field,
};
use crate::text::{owned, views};

verus! {

broadcast use vstd::map::group_map_axioms;

/// One `[[kind]]` table: the declaration, and whether the receiver writes the Kind.
pub struct KindEntry {
    pub raw: KindSpecRaw,
    pub receiver_sourced: bool,
}

/// A schema file.
pub struct SchemaFile {
    pub tracked_metrics: Vec<String>,
    pub counted_events: Vec<String>,
    pub kinds: Vec<KindEntry>,
    pub bindings: Vec<HookBinding>,
}

/// What a schema file says.
#[verifier::ext_equal]
pub struct SchemaModel {
    pub metrics: Seq<Seq<char>>,
    pub events: Seq<Seq<char>>,
    pub kinds: Seq<(RawModel, bool)>,
    pub bindings: Seq<BindingModel>,
}

/// The models of a list of Kind entries.
pub open spec fn entry_models(k: Seq<KindEntry>) -> Seq<(RawModel, bool)> {
    Seq::new(k.len(), |i: int| (k[i].raw.model(), k[i].receiver_sourced))
}

impl SchemaFile {
    pub open spec fn model(self) -> SchemaModel {
        SchemaModel {
            metrics: views(self.tracked_metrics@),
            events: views(self.counted_events@),
            kinds: entry_models(self.kinds@),
            bindings: binding_models(self.bindings@),
        }
    }
}

// ---------------------------------------------------------------------------------------------
// The format of a schema file
// ---------------------------------------------------------------------------------------------

/// The fields of a `[[kind]]` table.
pub open spec fn kind_fields() -> Seq<Seq<char>> {
    seq![
        "name"@,
        "fields"@,
        "group_key"@,
        "redact"@,
        "measures"@,
        "identity"@,
        "receiver_sourced"@,
    ]
}

/// Why a `[[kind]]` table cannot be read.
pub open spec fn kind_table_fault(t: Tree) -> Option<Seq<char>> {
    match t {
        Tree::Obj(m) => if let Some(e) = unknown_field(m, kind_fields()) {
            Some(e)
        } else if let Err(e) = str_field(m, "name"@) {
            Some(e)
        } else if let Err(e) = list_field(m, "fields"@, true) {
            Some(e)
        } else if let Err(e) = str_field(m, "group_key"@) {
            Some(e)
        } else if let Err(e) = list_field(m, "redact"@, false) {
            Some(e)
        } else if let Err(e) = list_field(m, "measures"@, false) {
            Some(e)
        } else if let Err(e) = opt_str_field(m, "identity"@) {
            Some(e)
        } else if let Err(e) = flag_field(m, "receiver_sourced"@) {
            Some(e)
        } else {
            None
        },
        _ => Some(mistyped("kind"@, "a list of tables"@)),
    }
}

/// What a readable `[[kind]]` table says.
pub open spec fn kind_table(t: Tree) -> (RawModel, bool) {
    let m = t->Obj_0;
    (
        RawModel {
            name: str_field(m, "name"@)->Ok_0,
            fields: list_field(m, "fields"@, true)->Ok_0,
            group_key: str_field(m, "group_key"@)->Ok_0,
            redact: list_field(m, "redact"@, false)->Ok_0,
            measures: list_field(m, "measures"@, false)->Ok_0,
            identity: opt_str_field(m, "identity"@)->Ok_0,
        },
        flag_field(m, "receiver_sourced"@)->Ok_0,
    )
}

/// The source of a field map: one field, or several in order.
pub open spec fn from_field(m: Map<Seq<char>, Tree>) -> Result<Option<Seq<Seq<char>>>, Seq<char>> {
    match slot(m, "from"@) {
        None => Ok(None),
        Some(Tree::Str(s)) => Ok(Some(seq![s])),
        Some(Tree::Arr(v)) => if all_strings(v) {
            Ok(Some(strings(v)))
        } else {
            Err(mistyped("from"@, "a string or a list of strings"@))
        },
        Some(_) => Err(mistyped("from"@, "a string or a list of strings"@)),
    }
}

/// Why a field map cannot be read.
pub open spec fn field_map_fault(t: Tree) -> Option<Seq<char>> {
    match t {
        Tree::Obj(m) => if let Err(e) = from_field(m) {
            Some(e)
        } else if let Err(e) = opt_str_field(m, "capture"@) {
            Some(e)
        } else if let Err(e) = flag_field(m, "len"@) {
            Some(e)
        } else if let Err(e) = flag_field(m, "present"@) {
            Some(e)
        } else if let Err(e) = flag_field(m, "basename"@) {
            Some(e)
        } else {
            None
        },
        _ => Some(mistyped("map"@, "a table of tables"@)),
    }
}

/// What a readable field map says.
pub open spec fn field_map(t: Tree) -> MapModel {
    let m = t->Obj_0;
    MapModel {
        from: from_field(m)->Ok_0,
        capture: opt_str_field(m, "capture"@)->Ok_0,
        len: flag_field(m, "len"@)->Ok_0,
        present: flag_field(m, "present"@)->Ok_0,
        basename: flag_field(m, "basename"@)->Ok_0,
        constant: slot(m, "const"@),
    }
}

/// The fault of the first of the named field maps that has one.
pub open spec fn field_maps_fault(m: Map<Seq<char>, Tree>, keys: Seq<Seq<char>>) -> Option<Seq<char>>
    decreases keys.len(),
{
    if keys.len() == 0 {
        None
    } else if let Some(e) = field_map_fault(m[keys[0]]) {
        Some(e)
    } else {
        field_maps_fault(m, keys.skip(1))
    }
}

/// The named field maps, in the order of the names.
pub open spec fn field_maps(m: Map<Seq<char>, Tree>, keys: Seq<Seq<char>>) -> Seq<
    (Seq<char>, MapModel),
> {
    Seq::new(keys.len(), |i: int| (keys[i], field_map(m[keys[i]])))
}

/// The `map` table of a binding, empty where it is missing.
pub open spec fn map_field(m: Map<Seq<char>, Tree>) -> Result<Map<Seq<char>, Tree>, Seq<char>> {
    match slot(m, "map"@) {
        None => Ok(Map::empty()),
        Some(Tree::Obj(o)) => Ok(o),
        Some(_) => Err(mistyped("map"@, "a table of tables"@)),
    }
}

/// Why a `[[binding]]` table cannot be read.
pub open spec fn binding_table_fault(t: Tree) -> Option<Seq<char>> {
    match t {
        Tree::Obj(m) => if let Err(e) = str_field(m, "event"@) {
            Some(e)
        } else if let Err(e) = str_field(m, "kind"@) {
            Some(e)
        } else {
            match map_field(m) {
                Err(e) => Some(e),
                Ok(maps) => field_maps_fault(maps, key_order(maps)),
            }
        },
        _ => Some(mistyped("binding"@, "a list of tables"@)),
    }
}

/// What a readable `[[binding]]` table says.
pub open spec fn binding_table(t: Tree) -> BindingModel {
    let m = t->Obj_0;
    let maps = map_field(m)->Ok_0;
    BindingModel {
        event: str_field(m, "event"@)->Ok_0,
        kind: str_field(m, "kind"@)->Ok_0,
        map: field_maps(maps, key_order(maps)),
    }
}

/// The fault of the first Kind table that has one.
pub open spec fn kind_tables_fault(v: Seq<Tree>) -> Option<Seq<char>>
    decreases v.len(),
{
    if v.len() == 0 {
        None
    } else if let Some(e) = kind_table_fault(v[0]) {
        Some(e)
    } else {
        kind_tables_fault(v.skip(1))
    }
}

/// The fault of the first binding table that has one.
pub open spec fn binding_tables_fault(v: Seq<Tree>) -> Option<Seq<char>>
    decreases v.len(),
{
    if v.len() == 0 {
        None
    } else if let Some(e) = binding_table_fault(v[0]) {
        Some(e)
    } else {
        binding_tables_fault(v.skip(1))
    }
}

/// The fields of a schema file.
pub open spec fn schema_fields() -> Seq<Seq<char>> {
    seq!["tracked_metrics"@, "counted_events"@, "kind"@, "binding"@]
}

/// Why a schema file cannot be read. An unknown field is a fault: dropping it silently would lose
/// a whole Kind to a typing error.
pub open spec fn schema_fault(t: Tree) -> Option<Seq<char>> {
    match t {
        Tree::Obj(m) => if let Some(e) = unknown_field(m, schema_fields()) {
            Some(e)
        } else if let Err(e) = list_field(m, "tracked_metrics"@, false) {
            Some(e)
        } else if let Err(e) = list_field(m, "counted_events"@, false) {
            Some(e)
        } else if let Err(e) = tables_field(m, "kind"@) {
            Some(e)
        } else if let Some(e) = kind_tables_fault(tables_field(m, "kind"@)->Ok_0) {
            Some(e)
        } else if let Err(e) = tables_field(m, "binding"@) {
            Some(e)
        } else if let Some(e) = binding_tables_fault(tables_field(m, "binding"@)->Ok_0) {
            Some(e)
        } else {
            None
        },
        _ => Some("expected a table"@),
    }
}

/// What a readable schema file says.
pub open spec fn schema_of(t: Tree) -> SchemaModel {
    let m = t->Obj_0;
    let kinds = tables_field(m, "kind"@)->Ok_0;
    let bindings = tables_field(m, "binding"@)->Ok_0;
    SchemaModel {
        metrics: list_field(m, "tracked_metrics"@, false)->Ok_0,
        events: list_field(m, "counted_events"@, false)->Ok_0,
        kinds: Seq::new(kinds.len(), |i: int| kind_table(kinds[i])),
        bindings: Seq::new(bindings.len(), |i: int| binding_table(bindings[i])),
    }
}

// ---------------------------------------------------------------------------------------------
// Reading a schema file
// ---------------------------------------------------------------------------------------------

fn list7(a: &str, b: &str, c: &str, d: &str, e: &str, f: &str, g: &str) -> (r: Vec<String>)
    ensures
        views(r@) == seq![a@, b@, c@, d@, e@, f@, g@],
{
    let mut v: Vec<String> = Vec::new();
    v.push(owned(a));
    v.push(owned(b));
    v.push(owned(c));
    v.push(owned(d));
    v.push(owned(e));
    v.push(owned(f));
    v.push(owned(g));
    assert(views(v@) =~= seq![a@, b@, c@, d@, e@, f@, g@]);
    v
}

fn list4(a: &str, b: &str, c: &str, d: &str) -> (r: Vec<String>)
    ensures
        views(r@) == seq![a@, b@, c@, d@],
{
    let mut v: Vec<String> = Vec::new();
    v.push(owned(a));
    v.push(owned(b));
    v.push(owned(c));
    v.push(owned(d));
    assert(views(v@) =~= seq![a@, b@, c@, d@]);
    v
}

fn read_kind(t: &Json) -> (r: Result<KindEntry, String>)
    ensures
        match r {
            Ok(k) => kind_table_fault(t.view()) is None && (k.raw.model(), k.receiver_sourced)
                == kind_table(t.view()),
            Err(e) => kind_table_fault(t.view()) == Some(e@),
        },
{
    match t {
        Json::Object(m) => {
            let allowed = list7(
                "name",
                "fields",
                "group_key",
                "redact",
                "measures",
                "identity",
                "receiver_sourced",
            );
            if let Some(e) = find_unknown(m, &allowed) {
                return Err(e);
            }
            let name = match read_str(m, "name") {
                Ok(v) => v,
                Err(e) => {
                    return Err(e);
                },
            };
            let fields = match read_list(m, "fields", true) {
                Ok(v) => v,
                Err(e) => {
                    return Err(e);
                },
            };
            let group_key = match read_str(m, "group_key") {
                Ok(v) => v,
                Err(e) => {
                    return Err(e);
                },
            };
            let redact = match read_list(m, "redact", false) {
                Ok(v) => v,
                Err(e) => {
                    return Err(e);
                },
            };
            let measures = match read_list(m, "measures", false) {
                Ok(v) => v,
                Err(e) => {
                    return Err(e);
                },
            };
            let identity = match read_opt_str(m, "identity") {
                Ok(v) => v,
                Err(e) => {
                    return Err(e);
                },
            };
            let receiver_sourced = match read_flag(m, "receiver_sourced") {
                Ok(v) => v,
                Err(e) => {
                    return Err(e);
                },
            };
            Ok(
                KindEntry {
                    raw: KindSpecRaw { name, fields, group_key, redact, measures, identity },
                    receiver_sourced,
                },
            )
        },
        _ => Err(mistyped_text("kind", "a list of tables")),
    }
}

fn read_from(m: &Vec<(String, Json)>) -> (r: Result<Option<FromSpec>, String>)
    ensures
        match r {
            Ok(f) => from_field(members(m@)) == Ok::<Option<Seq<Seq<char>>>, Seq<char>>(
                match f {
                    Some(f) => Some(f.model()),
                    None => None,
                },
            ),
            Err(e) => from_field(members(m@)) == Err::<Option<Seq<Seq<char>>>, Seq<char>>(e@),
        },
{
    let at = find_member(m, "from");
    if at < m.len() {
        match &m[at].1 {
            Json::Str(s) => Ok(Some(FromSpec::One(owned(s)))),
            Json::Array(v) => match read_strings(v) {
                Some(list) => Ok(Some(FromSpec::Many(list))),
                None => Err(mistyped_text("from", "a string or a list of strings")),
            },
            _ => Err(mistyped_text("from", "a string or a list of strings")),
        }
    } else {
        Ok(None)
    }
}

/// Read one field map.
pub fn read_field_map(t: &Json) -> (r: Result<FieldMap, String>)
    ensures
        match r {
            Ok(f) => field_map_fault(t.view()) is None && f.model() == field_map(t.view()),
            Err(e) => field_map_fault(t.view()) == Some(e@),
        },
{
    match t {
        Json::Object(m) => {
            let from = match read_from(m) {
                Ok(v) => v,
                Err(e) => {
                    return Err(e);
                },
            };
            let capture = match read_opt_str(m, "capture") {
                Ok(v) => v,
                Err(e) => {
                    return Err(e);
                },
            };
            let len = match read_flag(m, "len") {
                Ok(v) => v,
                Err(e) => {
                    return Err(e);
                },
            };
            let present = match read_flag(m, "present") {
                Ok(v) => v,
                Err(e) => {
                    return Err(e);
                },
            };
            let basename = match read_flag(m, "basename") {
                Ok(v) => v,
                Err(e) => {
                    return Err(e);
                },
            };
            let at = find_member(m, "const");
            let constant = if at < m.len() {
                Some(dup(&m[at].1))
            } else {
                None
            };
            Ok(FieldMap { from, capture, len, present, basename, constant })
        },
        _ => Err(mistyped_text("map", "a table of tables")),
    }
}

fn read_field_maps(m: &Vec<(String, Json)>) -> (r: Result<Vec<(String, FieldMap)>, String>)
    ensures
        match r {
            Ok(v) => field_maps_fault(members(m@), key_order(members(m@))) is None && map_models(v@)
                == field_maps(members(m@), key_order(members(m@))),
            Err(e) => field_maps_fault(members(m@), key_order(members(m@))) == Some(e@),
        },
{
    let keys = sorted_keys(m);
    let ghost all = views(keys@);
    let ghost tree = members(m@);
    let mut out: Vec<(String, FieldMap)> = Vec::new();
    let mut i: usize = 0;
    assert(all.skip(0) =~= all);
    while i < keys.len()
        invariant
            0 <= i <= keys.len(),
            all == views(keys@),
            tree == members(m@),
            all == key_order(tree),
            lists_keys(all, tree),
            out.len() == i,
            field_maps_fault(tree, all) == field_maps_fault(tree, all.skip(i as int)),
            forall|k: int|
                0 <= k < i ==> (#[trigger] out@[k]).0@ == all[k] && out@[k].1.model() == field_map(
                    tree[all[k]],
                ),
        decreases keys.len() - i,
    {
        proof {
            assert(all.skip(i as int).skip(1) =~= all.skip(i + 1));
            assert(all[i as int] == keys@[i as int]@);
            assert(all.contains(keys@[i as int]@));
        }
        let at = find_member(m, &keys[i]);
        match read_field_map(&m[at].1) {
            Ok(f) => {
                out.push((owned(&keys[i]), f));
            },
            Err(e) => {
                return Err(e);
            },
        }
        i = i + 1;
    }
    assert(map_models(out@) =~= field_maps(tree, all));
    Ok(out)
}

fn read_binding(t: &Json) -> (r: Result<HookBinding, String>)
    ensures
        match r {
            Ok(b) => binding_table_fault(t.view()) is None && b.model() == binding_table(t.view()),
            Err(e) => binding_table_fault(t.view()) == Some(e@),
        },
{
    match t {
        Json::Object(m) => {
            let event = match read_str(m, "event") {
                Ok(v) => v,
                Err(e) => {
                    return Err(e);
                },
            };
            let kind = match read_str(m, "kind") {
                Ok(v) => v,
                Err(e) => {
                    return Err(e);
                },
            };
            let at = find_member(m, "map");
            let map = if at < m.len() {
                match &m[at].1 {
                    Json::Object(maps) => read_field_maps(maps),
                    _ => Err(mistyped_text("map", "a table of tables")),
                }
            } else {
                let none: Vec<(String, Json)> = Vec::new();
                read_field_maps(&none)
            };
            match map {
                Ok(map) => Ok(HookBinding { event, kind, map }),
                Err(e) => Err(e),
            }
        },
        _ => Err(mistyped_text("binding", "a list of tables")),
    }
}

fn read_kinds(v: &Vec<Json>) -> (r: Result<Vec<KindEntry>, String>)
    ensures
        match r {
            Ok(k) => kind_tables_fault(items(v@)) is None && entry_models(k@) == Seq::new(
                v@.len(),
                |i: int| kind_table(items(v@)[i]),
            ),
            Err(e) => kind_tables_fault(items(v@)) == Some(e@),
        },
{
    let ghost all = items(v@);
    let mut out: Vec<KindEntry> = Vec::new();
    let mut i: usize = 0;
    assert(all.skip(0) =~= all);
    while i < v.len()
        invariant
            0 <= i <= v.len(),
            all == items(v@),
            all.len() == v.len(),
            out.len() == i,
            kind_tables_fault(all) == kind_tables_fault(all.skip(i as int)),
            forall|k: int|
                0 <= k < i ==> ((#[trigger] out@[k]).raw.model(), out@[k].receiver_sourced)
                    == kind_table(all[k]),
        decreases v.len() - i,
    {
        proof {
            assert(all.skip(i as int).skip(1) =~= all.skip(i + 1));
            assert(all[i as int] == v@[i as int].view());
        }
        match read_kind(&v[i]) {
            Ok(k) => {
                out.push(k);
            },
            Err(e) => {
                return Err(e);
            },
        }
        i = i + 1;
    }
    assert(entry_models(out@) =~= Seq::new(v@.len(), |i: int| kind_table(all[i])));
    Ok(out)
}

fn read_bindings(v: &Vec<Json>) -> (r: Result<Vec<HookBinding>, String>)
    ensures
        match r {
            Ok(b) => binding_tables_fault(items(v@)) is None && binding_models(b@) == Seq::new(
                v@.len(),
                |i: int| binding_table(items(v@)[i]),
            ),
            Err(e) => binding_tables_fault(items(v@)) == Some(e@),
        },
{
    let ghost all = items(v@);
    let mut out: Vec<HookBinding> = Vec::new();
    let mut i: usize = 0;
    assert(all.skip(0) =~= all);
    while i < v.len()
        invariant
            0 <= i <= v.len(),
            all == items(v@),
            all.len() == v.len(),
            out.len() == i,
            binding_tables_fault(all) == binding_tables_fault(all.skip(i as int)),
            forall|k: int|
                0 <= k < i ==> (#[trigger] out@[k]).model() == binding_table(all[k]),
        decreases v.len() - i,
    {
        proof {
            assert(all.skip(i as int).skip(1) =~= all.skip(i + 1));
            assert(all[i as int] == v@[i as int].view());
        }
        match read_binding(&v[i]) {
            Ok(b) => {
                out.push(b);
            },
            Err(e) => {
                return Err(e);
            },
        }
        i = i + 1;
    }
    assert(binding_models(out@) =~= Seq::new(v@.len(), |i: int| binding_table(all[i])));
    Ok(out)
}

/// Read the tree of a schema file.
pub fn read_schema(t: &Json) -> (r: Result<SchemaFile, String>)
    ensures
        match r {
            Ok(f) => schema_fault(t.view()) is None && f.model() == schema_of(t.view()),
            Err(e) => schema_fault(t.view()) == Some(e@),
        },
{
    match t {
        Json::Object(m) => {
            let allowed = list4("tracked_metrics", "counted_events", "kind", "binding");
            if let Some(e) = find_unknown(m, &allowed) {
                return Err(e);
            }
            let tracked_metrics = match read_list(m, "tracked_metrics", false) {
                Ok(v) => v,
                Err(e) => {
                    return Err(e);
                },
            };
            let counted_events = match read_list(m, "counted_events", false) {
                Ok(v) => v,
                Err(e) => {
                    return Err(e);
                },
            };
            let none: Vec<Json> = Vec::new();
            assert(items(none@) =~= Seq::<Tree>::empty());
            let at = find_member(m, "kind");
            let read = if at < m.len() {
                match &m[at].1 {
                    Json::Array(v) => read_kinds(v),
                    _ => Err(mistyped_text("kind", "a list of tables")),
                }
            } else {
                read_kinds(&none)
            };
            let kinds = match read {
                Ok(v) => v,
                Err(e) => {
                    return Err(e);
                },
            };
            let at = find_member(m, "binding");
            let read = if at < m.len() {
                match &m[at].1 {
                    Json::Array(v) => read_bindings(v),
                    _ => Err(mistyped_text("binding", "a list of tables")),
                }
            } else {
                read_bindings(&none)
            };
            let bindings = match read {
                Ok(v) => v,
                Err(e) => {
                    return Err(e);
                },
            };
            let file = SchemaFile { tracked_metrics, counted_events, kinds, bindings };
            assert(file.model() =~= schema_of(t.view()));
            Ok(file)
        },
        _ => Err(owned("expected a table")),
    }
}

// ---------------------------------------------------------------------------------------------
// Merging
// ---------------------------------------------------------------------------------------------

/// The Kind that an entry without a fault declares.
pub open spec fn entry_kind(entry: (RawModel, bool)) -> KindModel {
    KindModel { receiver_sourced: entry.1, ..raw_declared(entry.0) }
}

/// A registry with one Kind entry more, or why it is refused. Only the core schema may declare a
/// Kind that the receiver writes: a plugin has no native source to write it.
pub open spec fn with_entry(
    reg: RegistryModel,
    entry: (RawModel, bool),
    is_core: bool,
) -> Result<RegistryModel, ErrorModel> {
    if entry.1 && !is_core {
        Err(
            ErrorModel::InvalidSpec(
                entry.0.name,
                "receiver_sourced is core-only — a plugin Kind has no native receiver source"@,
            ),
        )
    } else if let Some(reason) = raw_fault(entry.0) {
        Err(ErrorModel::InvalidSpec(entry.0.name, reason))
    } else if find_kind(reg.kinds, entry.0.name) is Some {
        Err(ErrorModel::DuplicateKind(entry.0.name))
    } else {
        Ok(RegistryModel { kinds: with_kind(reg.kinds, entry_kind(entry)), ..reg })
    }
}

/// A registry with the entries, in order; the first that is refused stops it.
pub open spec fn with_entries(
    reg: RegistryModel,
    entries: Seq<(RawModel, bool)>,
    is_core: bool,
) -> Result<RegistryModel, ErrorModel>
    decreases entries.len(),
{
    if entries.len() == 0 {
        Ok(reg)
    } else {
        match with_entries(reg, entries.drop_last(), is_core) {
            Err(e) => Err(e),
            Ok(r) => with_entry(r, entries.last(), is_core),
        }
    }
}

/// A registry with one binding more, or why it is refused.
pub open spec fn with_binding(reg: RegistryModel, b: BindingModel) -> Result<RegistryModel, ErrorModel> {
    match bind_fault(reg, b) {
        Some(reason) => Err(ErrorModel::InvalidSpec(b.kind, reason)),
        None => Ok(RegistryModel { bindings: reg.bindings.push(b), ..reg }),
    }
}

/// A registry with the bindings, in order; the first that is refused stops it.
pub open spec fn with_bindings(
    reg: RegistryModel,
    bindings: Seq<BindingModel>,
) -> Result<RegistryModel, ErrorModel>
    decreases bindings.len(),
{
    if bindings.len() == 0 {
        Ok(reg)
    } else {
        match with_bindings(reg, bindings.drop_last()) {
            Err(e) => Err(e),
            Ok(r) => with_binding(r, bindings.last()),
        }
    }
}

/// A registry with the native signals of a schema file.
pub open spec fn with_signals(reg: RegistryModel, file: SchemaModel) -> RegistryModel {
    RegistryModel {
        metrics: sorted_set(reg.metrics + file.metrics),
        events: sorted_set(reg.events + file.events),
        ..reg
    }
}

/// A registry with a schema file merged into it, or the first thing that is wrong.
pub open spec fn with_schema(
    reg: RegistryModel,
    file: SchemaModel,
    is_core: bool,
) -> Result<RegistryModel, ErrorModel> {
    match with_entries(with_signals(reg, file), file.kinds, is_core) {
        Err(e) => Err(e),
        Ok(r) => with_bindings(r, file.bindings),
    }
}

/// A registry with the schema file of a text merged into it.
pub open spec fn with_source(
    reg: RegistryModel,
    src: Seq<char>,
    path: Seq<char>,
    is_core: bool,
) -> Result<RegistryModel, ErrorModel> {
    match toml_parsed(src) {
        Err(e) => Err(ErrorModel::SchemaParse(path, e)),
        Ok(t) => with_tree(reg, t, path, is_core),
    }
}

/// A registry with the schema file of a tree merged into it.
pub open spec fn with_tree(
    reg: RegistryModel,
    t: Tree,
    path: Seq<char>,
    is_core: bool,
) -> Result<RegistryModel, ErrorModel> {
    match schema_fault(t) {
        Some(e) => Err(ErrorModel::SchemaParse(path, e)),
        None => with_schema(reg, schema_of(t), is_core),
    }
}

/// Whether an outcome is the wanted registry or the wanted error.
pub open spec fn registry_agrees(
    r: Result<Registry, Error>,
    want: Result<RegistryModel, ErrorModel>,
) -> bool {
    match r {
        Ok(reg) => want == Ok::<RegistryModel, ErrorModel>(reg.model()),
        Err(e) => want == Err::<RegistryModel, ErrorModel>(e.model()),
    }
}

fn add_entry(reg: Registry, entry: KindEntry, is_core: bool) -> (r: Result<Registry, Error>)
    ensures
        registry_agrees(
            r,
            with_entry(reg.model(), (entry.raw.model(), entry.receiver_sourced), is_core),
        ),
{
    let mut reg = reg;
    if entry.receiver_sourced && !is_core {
        return Err(
            Error::InvalidSpec {
                name: entry.raw.name,
                reason: owned(
                    "receiver_sourced is core-only — a plugin Kind has no native receiver source",
                ),
            },
        );
    }
    let receiver_sourced = entry.receiver_sourced;
    match KindSpec::from_raw(entry.raw) {
        Ok(spec) => {
            let mut spec = spec;
            spec.receiver_sourced = receiver_sourced;
            match reg.add_kind(spec) {
                Ok(_) => Ok(reg),
                Err(e) => Err(e),
            }
        },
        Err(e) => Err(e),
    }
}

/// Merge the tree of a schema file into a copy of a registry.
pub fn merge_tree(reg: &Registry, t: &Json, path: &str, is_core: bool) -> (r: Result<
    Registry,
    Error,
>)
    ensures
        registry_agrees(r, with_tree(reg.model(), t.view(), path@, is_core)),
{
    let file = match read_schema(t) {
        Ok(f) => f,
        Err(e) => {
            return Err(Error::SchemaParse { path: owned(path), source: e });
        },
    };
    let ghost model = file.model();
    let mut cur = reg.duplicate();
    cur.track(&file.tracked_metrics, &file.counted_events);
    let ghost start = cur.model();
    let mut kinds = file.kinds;
    let mut bindings = file.bindings;
    let ghost entries = entry_models(kinds@);
    let ghost binds = binding_models(bindings@);
    let mut i: usize = 0;
    let count: usize = kinds.len();
    assert(entries.take(0) =~= Seq::<(RawModel, bool)>::empty());
    while i < count
        invariant
            0 <= i <= count,
            count == entries.len(),
            kinds@.len() == count - i,
            entry_models(kinds@) == entries.skip(i as int),
            with_entries(start, entries.take(i as int), is_core) == Ok::<RegistryModel, ErrorModel>(
                cur.model(),
            ),
            schema_fault(t.view()) is None,
            schema_of(t.view()) == model,
            model.kinds == entries,
            with_signals(reg.model(), model) == start,
        decreases count - i,
    {
        proof {
            assert(entries.take(i + 1).drop_last() =~= entries.take(i as int));
            assert(entry_models(kinds@)[0] == entries[i as int]);
        }
        let ghost held = kinds@;
        let entry = kinds.remove(0);
        assert(entry_models(kinds@) =~= entries.skip(i + 1)) by {
            assert forall|k: int| 0 <= k < kinds@.len() implies #[trigger] entry_models(kinds@)[k]
                == entries[i + 1 + k] by {
                assert(entry_models(held)[k + 1] == entries.skip(i as int)[k + 1]);
            }
        }
        match add_entry(cur, entry, is_core) {
            Ok(next) => {
                cur = next;
            },
            Err(e) => {
                proof {
                    lemma_entries_fail(start, entries, is_core, i + 1, e.model());
                }
                return Err(e);
            },
        }
        i = i + 1;
    }
    assert(entries.take(count as int) =~= entries);
    let ghost middle = cur.model();
    let mut j: usize = 0;
    let count: usize = bindings.len();
    assert(binds.take(0) =~= Seq::<BindingModel>::empty());
    while j < count
        invariant
            0 <= j <= count,
            count == binds.len(),
            bindings@.len() == count - j,
            binding_models(bindings@) == binds.skip(j as int),
            with_bindings(middle, binds.take(j as int)) == Ok::<RegistryModel, ErrorModel>(
                cur.model(),
            ),
            schema_fault(t.view()) is None,
            schema_of(t.view()) == model,
            model.kinds == entries,
            model.bindings == binds,
            with_signals(reg.model(), model) == start,
            with_entries(start, entries, is_core) == Ok::<RegistryModel, ErrorModel>(middle),
        decreases count - j,
    {
        proof {
            assert(binds.take(j + 1).drop_last() =~= binds.take(j as int));
            assert(binding_models(bindings@)[0] == binds[j as int]);
        }
        let ghost held = bindings@;
        let binding = bindings.remove(0);
        assert(binding_models(bindings@) =~= binds.skip(j + 1)) by {
            assert forall|k: int| 0 <= k < bindings@.len() implies #[trigger] binding_models(
                bindings@,
            )[k] == binds[j + 1 + k] by {
                assert(binding_models(held)[k + 1] == binds.skip(j as int)[k + 1]);
            }
        }
        match cur.bind(binding) {
            Ok(_) => {},
            Err(e) => {
                proof {
                    lemma_bindings_fail(middle, binds, j + 1, e.model());
                }
                return Err(e);
            },
        }
        j = j + 1;
    }
    assert(binds.take(count as int) =~= binds);
    Ok(cur)
}

proof fn lemma_entries_fail(
    reg: RegistryModel,
    entries: Seq<(RawModel, bool)>,
    is_core: bool,
    n: int,
    e: ErrorModel,
)
    requires
        0 <= n <= entries.len(),
        with_entries(reg, entries.take(n), is_core) == Err::<RegistryModel, ErrorModel>(e),
    ensures
        with_entries(reg, entries, is_core) == Err::<RegistryModel, ErrorModel>(e),
    decreases entries.len() - n,
{
    if n == entries.len() {
        assert(entries.take(n) =~= entries);
    } else {
        assert(entries.take(n + 1).drop_last() =~= entries.take(n));
        lemma_entries_fail(reg, entries, is_core, n + 1, e);
    }
}

proof fn lemma_bindings_fail(reg: RegistryModel, binds: Seq<BindingModel>, n: int, e: ErrorModel)
    requires
        0 <= n <= binds.len(),
        with_bindings(reg, binds.take(n)) == Err::<RegistryModel, ErrorModel>(e),
    ensures
        with_bindings(reg, binds) == Err::<RegistryModel, ErrorModel>(e),
    decreases binds.len() - n,
{
    if n == binds.len() {
        assert(binds.take(n) =~= binds);
    } else {
        assert(binds.take(n + 1).drop_last() =~= binds.take(n));
        lemma_bindings_fail(reg, binds, n + 1, e);
    }
}

/// Merge the schema file of a text into a copy of a registry.
pub fn merge(reg: &Registry, src: &str, path: &str, is_core: bool) -> (r: Result<Registry, Error>)
    ensures
        registry_agrees(r, with_source(reg.model(), src@, path@, is_core)),
{
    match parse_toml(src) {
        Ok(t) => merge_tree(reg, &t, path, is_core),
        Err(e) => Err(Error::SchemaParse { path: owned(path), source: e }),
    }
}

// ---------------------------------------------------------------------------------------------
// Building a registry
// ---------------------------------------------------------------------------------------------

/// A plugin file: where it is, and its text or why it could not be read.
pub struct PluginFile {
    pub path: String,
    pub text: Result<String, String>,
}

/// What a plugin file offers.
#[verifier::ext_equal]
pub struct PluginModel {
    pub path: Seq<char>,
    pub text: Result<Seq<char>, Seq<char>>,
}

impl PluginFile {
    pub open spec fn model(self) -> PluginModel {
        PluginModel {
            path: self.path@,
            text: match self.text {
                Ok(t) => Ok(t@),
                Err(e) => Err(e@),
            },
        }
    }
}

/// The models of a list of plugin files.
pub open spec fn plugin_models(p: Seq<PluginFile>) -> Seq<PluginModel> {
    Seq::new(p.len(), |i: int| p[i].model())
}

/// An empty registry.
pub open spec fn empty_registry() -> RegistryModel {
    RegistryModel {
        kinds: Seq::empty(),
        bindings: Seq::empty(),
        metrics: Seq::empty(),
        events: Seq::empty(),
    }
}

/// The schema of the built-in Kinds, with the events that fill them. None of them holds content:
/// prompts store their length, tools their name.
pub const CORE_SCHEMA: &'static str = r#"tracked_metrics = ["token.usage", "cost.usage", "active_time.total", "lines_of_code.count"]
counted_events = ["user_prompt", "skill_activated", "tool_decision"]

[[kind]]
name = "session"
fields = ["session_id", "project", "source", "context_tokens", "since_last_response_s", "estimated_cache_write_usd", "cache_likely_expired"]
group_key = "source"
measures = ["estimated_cache_write_usd", "context_tokens"]

[[kind]]
name = "prompt"
fields = ["session_id", "project", "prompt_id", "prompt_len"]
group_key = "project"
measures = ["prompt_len"]

[[kind]]
name = "command"
fields = ["session_id", "project", "prompt_id", "command_name"]
group_key = "command_name"

[[kind]]
name = "tool"
fields = ["session_id", "project", "prompt_id", "agent_id", "tool_name", "tool_use_id", "skill", "duration_ms", "ok"]
group_key = "tool_name"
measures = ["duration_ms", "ok"]
identity = "tool_use_id"

[[kind]]
name = "subagent"
fields = ["session_id", "project", "prompt_id", "agent_id", "agent_type"]
group_key = "agent_type"
identity = "agent_id"

[[kind]]
name = "memory"
fields = ["session_id", "project", "prompt_id", "file_path", "memory_type", "load_reason", "trigger_file_path", "parent_file_path"]
group_key = "file_path"

[[kind]]
name = "compaction"
fields = ["session_id", "project", "prompt_id", "trigger"]
group_key = "trigger"

[[binding]]
event = "SessionStart"
kind = "session"
map.session_id = { from = "session_id" }
map.source = { from = "source" }
map.context_tokens = { from = "context_tokens" }
map.since_last_response_s = { from = "seconds_since_last_response" }
map.estimated_cache_write_usd = { from = "estimated_cache_write_usd" }
map.cache_likely_expired = { from = "prompt_cache_likely_expired" }

[[binding]]
event = "UserPromptSubmit"
kind = "prompt"
map.session_id = { from = "session_id" }
map.prompt_id = { from = "prompt_id" }
map.prompt_len = { from = "prompt", len = true }

[[binding]]
event = "UserPromptExpansion"
kind = "command"
map.session_id = { from = "session_id" }
map.prompt_id = { from = "prompt_id" }
map.command_name = { from = "command_name" }

[[binding]]
event = "PostToolUse"
kind = "tool"
map.session_id = { from = "session_id" }
map.prompt_id = { from = "prompt_id" }
map.agent_id = { from = "agent_id" }
map.tool_name = { from = "tool_name" }
map.tool_use_id = { from = "tool_use_id" }
map.skill = { from = "invoked_skill" }
map.duration_ms = { from = "duration_ms" }
map.ok = { const = 1 }

[[binding]]
event = "PostToolUseFailure"
kind = "tool"
map.session_id = { from = "session_id" }
map.prompt_id = { from = "prompt_id" }
map.agent_id = { from = "agent_id" }
map.tool_name = { from = "tool_name" }
map.tool_use_id = { from = "tool_use_id" }
map.skill = { from = "invoked_skill" }
map.duration_ms = { from = "duration_ms" }
map.ok = { const = 0 }

[[binding]]
event = "SubagentStop"
kind = "subagent"
map.session_id = { from = "session_id" }
map.prompt_id = { from = "prompt_id" }
map.agent_id = { from = "agent_id" }
map.agent_type = { from = "agent_type" }

[[binding]]
event = "InstructionsLoaded"
kind = "memory"
map.session_id = { from = "session_id" }
map.prompt_id = { from = "prompt_id" }
map.file_path = { from = "repo_file_path" }
map.memory_type = { from = "memory_type" }
map.load_reason = { from = "load_reason" }
map.trigger_file_path = { from = "repo_trigger_file_path" }
map.parent_file_path = { from = "repo_parent_file_path" }

[[binding]]
event = "PreCompact"
kind = "compaction"
map.session_id = { from = "session_id" }
map.prompt_id = { from = "prompt_id" }
map.trigger = { from = ["trigger", "compact_trigger"] }
"#;

/// The registry of a core schema.
pub open spec fn core_registry(core: Seq<char>) -> Result<RegistryModel, ErrorModel> {
    with_source(empty_registry(), core, "<core>"@, true)
}

/// A registry with a plugin merged into it.
pub open spec fn with_plugin(reg: RegistryModel, p: PluginModel) -> Result<RegistryModel, ErrorModel> {
    match p.text {
        Ok(src) => with_source(reg, src, p.path, false),
        Err(e) => Err(ErrorModel::Io("read plugin "@ + p.path + ": "@ + e)),
    }
}

/// The strict build: the plugins in order; the first error fails the whole build.
pub open spec fn strict_build(
    start: Result<RegistryModel, ErrorModel>,
    plugins: Seq<PluginModel>,
) -> Result<RegistryModel, ErrorModel>
    decreases plugins.len(),
{
    if plugins.len() == 0 {
        start
    } else {
        match strict_build(start, plugins.drop_last()) {
            Err(e) => Err(e),
            Ok(r) => with_plugin(r, plugins.last()),
        }
    }
}

/// The resilient build: a plugin that fails is left out as a whole.
pub open spec fn resilient_build(start: RegistryModel, plugins: Seq<PluginModel>) -> RegistryModel
    decreases plugins.len(),
{
    if plugins.len() == 0 {
        start
    } else {
        let r = resilient_build(start, plugins.drop_last());
        match with_plugin(r, plugins.last()) {
            Ok(next) => next,
            Err(_) => r,
        }
    }
}

/// Load the core schema.
pub fn load_core(core: &str) -> (r: Result<Registry, Error>)
    ensures
        registry_agrees(r, core_registry(core@)),
{
    let reg = Registry::new();
    assert(reg.model() =~= empty_registry());
    merge(&reg, core, "<core>", true)
}

/// Merge one plugin into a copy of a registry.
pub fn load_plugin(reg: &Registry, plugin: &PluginFile) -> (r: Result<Registry, Error>)
    ensures
        registry_agrees(r, with_plugin(reg.model(), plugin.model())),
{
    match &plugin.text {
        Ok(src) => merge(reg, src, &plugin.path, false),
        Err(e) => Err(Error::Io(crate::text::cat4("read plugin ", &plugin.path, ": ", e))),
    }
}

/// Build the registry strictly: any error fails the whole build.
pub fn build_registry(core: &str, plugins: &Vec<PluginFile>) -> (r: Result<Registry, Error>)
    ensures
        registry_agrees(r, strict_build(core_registry(core@), plugin_models(plugins@))),
{
    let ghost all = plugin_models(plugins@);
    let ghost start = core_registry(core@);
    let mut cur = load_core(core);
    let mut i: usize = 0;
    assert(all.take(0) =~= Seq::<PluginModel>::empty());
    while i < plugins.len()
        invariant
            0 <= i <= plugins.len(),
            all == plugin_models(plugins@),
            start == core_registry(core@),
            registry_agrees(cur, strict_build(start, all.take(i as int))),
        decreases plugins.len() - i,
    {
        proof {
            assert(all.take(i + 1).drop_last() =~= all.take(i as int));
            assert(all[i as int] == plugins@[i as int].model());
        }
        cur = match cur {
            Ok(reg) => load_plugin(&reg, &plugins[i]),
            Err(e) => Err(e),
        };
        i = i + 1;
    }
    assert(all.take(plugins.len() as int) =~= all);
    cur
}

/// The messages of a resilient build: one for each plugin that is left out, in order.
pub open spec fn skipped(start: RegistryModel, plugins: Seq<PluginModel>) -> Seq<
    (Seq<char>, ErrorModel),
>
    decreases plugins.len(),
{
    if plugins.len() == 0 {
        Seq::empty()
    } else {
        let r = resilient_build(start, plugins.drop_last());
        match with_plugin(r, plugins.last()) {
            Ok(_) => skipped(start, plugins.drop_last()),
            Err(e) => skipped(start, plugins.drop_last()).push((plugins.last().path, e)),
        }
    }
}

/// What was left out of a resilient build: the path and the error.
pub open spec fn skip_models(v: Seq<(String, Error)>) -> Seq<(Seq<char>, ErrorModel)> {
    Seq::new(v.len(), |i: int| (v[i].0@, v[i].1.model()))
}

/// Build the registry for the hook: a plugin that fails is left out as a whole, never silencing
/// the core or the other plugins. A core schema that fails leaves the registry empty. Also tells
/// what was left out.
pub fn build_registry_resilient(core: &str, plugins: &Vec<PluginFile>) -> (r: (
    Registry,
    Vec<(String, Error)>,
))
    ensures
        match core_registry(core@) {
            Ok(start) => r.0.model() == resilient_build(start, plugin_models(plugins@))
                && skip_models(r.1@) == skipped(start, plugin_models(plugins@)),
            Err(e) => r.0.model() == empty_registry() && skip_models(r.1@) == seq![
                ("<core>"@, e),
            ],
        },
{
    let mut notes: Vec<(String, Error)> = Vec::new();
    let mut cur = match load_core(core) {
        Ok(reg) => reg,
        Err(e) => {
            let reg = Registry::new();
            assert(reg.model() =~= empty_registry());
            notes.push((owned("<core>"), e));
            assert(skip_models(notes@) =~= seq![("<core>"@, e.model())]);
            return (reg, notes);
        },
    };
    let ghost all = plugin_models(plugins@);
    let ghost start = cur.model();
    let mut i: usize = 0;
    assert(all.take(0) =~= Seq::<PluginModel>::empty());
    assert(skip_models(notes@) =~= Seq::<(Seq<char>, ErrorModel)>::empty());
    while i < plugins.len()
        invariant
            0 <= i <= plugins.len(),
            all == plugin_models(plugins@),
            cur.model() == resilient_build(start, all.take(i as int)),
            skip_models(notes@) == skipped(start, all.take(i as int)),
        decreases plugins.len() - i,
    {
        proof {
            assert(all.take(i + 1).drop_last() =~= all.take(i as int));
            assert(all[i as int] == plugins@[i as int].model());
        }
        match load_plugin(&cur, &plugins[i]) {
            Ok(next) => {
                cur = next;
            },
            Err(e) => {
                let ghost held = notes@;
                notes.push((owned(&plugins[i].path), e));
                assert(skip_models(notes@) =~= skip_models(held).push(
                    (all[i as int].path, e.model()),
                ));
            },
        }
        i = i + 1;
    }
    assert(all.take(plugins.len() as int) =~= all);
    (cur, notes)
}

/// The registry that every wiring decision is taken against: a plugin that fails is left out, and
/// never keeps the rest from being wired. Without a core schema it is empty.
pub fn registry_for_wiring(core: &str, plugins: &Vec<PluginFile>) -> (r: Registry)
    ensures
        r.model() == match core_registry(core@) {
            Ok(start) => resilient_build(start, plugin_models(plugins@)),
            Err(_) => empty_registry(),
        },
{
    build_registry_resilient(core, plugins).0
}

/// Where the strict build succeeds, the resilient build gives the same registry.
pub proof fn law_resilient_build_agrees(start: RegistryModel, plugins: Seq<PluginModel>)
    requires
        strict_build(Ok(start), plugins) is Ok,
    ensures
        resilient_build(start, plugins) == strict_build(Ok(start), plugins)->Ok_0,
        skipped(start, plugins).len() == 0,
    decreases plugins.len(),
{
    if plugins.len() > 0 {
        law_resilient_build_agrees(start, plugins.drop_last());
    }
}

/// A registry that another one grew into: every Kind is still there as it was, the bindings still
/// stand in front, and every metric and event is still listened for.
pub open spec fn grew_into(before: RegistryModel, after: RegistryModel) -> bool {
    &&& forall|n: Seq<char>|
        find_kind(before.kinds, n) is Some ==> #[trigger] find_kind(after.kinds, n) == find_kind(
            before.kinds,
            n,
        )
    &&& before.bindings.is_prefix_of(after.bindings)
    &&& forall|m: Seq<char>|
        before.metrics.contains(m) ==> #[trigger] after.metrics.contains(m)
    &&& forall|e: Seq<char>| before.events.contains(e) ==> #[trigger] after.events.contains(e)
}

proof fn lemma_grew_on(a: RegistryModel, b: RegistryModel, c: RegistryModel)
    requires
        grew_into(a, b),
        grew_into(b, c),
    ensures
        grew_into(a, c),
{
    assert forall|n: Seq<char>| find_kind(a.kinds, n) is Some implies #[trigger] find_kind(
        c.kinds,
        n,
    ) == find_kind(a.kinds, n) by {
        assert(find_kind(b.kinds, n) == find_kind(a.kinds, n));
    }
    assert(c.bindings.subrange(0, a.bindings.len() as int) =~= b.bindings.subrange(
        0,
        a.bindings.len() as int,
    )) by {
        assert forall|i: int| 0 <= i < a.bindings.len() implies c.bindings[i] == b.bindings[i] by {
            assert(c.bindings.subrange(0, b.bindings.len() as int)[i] == c.bindings[i]);
        }
    }
    assert forall|m: Seq<char>| a.metrics.contains(m) implies #[trigger] c.metrics.contains(m) by {
        assert(b.metrics.contains(m));
    }
    assert forall|e: Seq<char>| a.events.contains(e) implies #[trigger] c.events.contains(e) by {
        assert(b.events.contains(e));
    }
}

proof fn lemma_signals_grow(reg: RegistryModel, file: SchemaModel)
    requires
        reg.consistent(),
    ensures
        with_signals(reg, file).consistent(),
        grew_into(reg, with_signals(reg, file)),
{
    let metrics = reg.metrics + file.metrics;
    let events = reg.events + file.events;
    lemma_sorted_set(metrics);
    lemma_sorted_set(events);
    let next = with_signals(reg, file);
    assert forall|m: Seq<char>| reg.metrics.contains(m) implies #[trigger] next.metrics.contains(
        m,
    ) by {
        let k = reg.metrics.index_of(m);
        assert(metrics[k] == m);
        assert(metrics.contains(m));
    }
    assert forall|e: Seq<char>| reg.events.contains(e) implies #[trigger] next.events.contains(
        e,
    ) by {
        let k = reg.events.index_of(e);
        assert(events[k] == e);
        assert(events.contains(e));
    }
    assert(next.bindings.subrange(0, reg.bindings.len() as int) =~= reg.bindings);
}

proof fn lemma_entries_grow(reg: RegistryModel, entries: Seq<(RawModel, bool)>, is_core: bool)
    requires
        reg.consistent(),
        with_entries(reg, entries, is_core) is Ok,
    ensures
        with_entries(reg, entries, is_core)->Ok_0.consistent(),
        grew_into(reg, with_entries(reg, entries, is_core)->Ok_0),
    decreases entries.len(),
{
    if entries.len() == 0 {
        assert(reg.bindings.subrange(0, reg.bindings.len() as int) =~= reg.bindings);
    } else {
        lemma_entries_grow(reg, entries.drop_last(), is_core);
        let mid = with_entries(reg, entries.drop_last(), is_core)->Ok_0;
        lemma_with_kind(mid, entry_kind(entries.last()));
        let next = with_entries(reg, entries, is_core)->Ok_0;
        assert(next.bindings.subrange(0, mid.bindings.len() as int) =~= mid.bindings);
        lemma_grew_on(reg, mid, next);
    }
}

proof fn lemma_bindings_grow(reg: RegistryModel, bindings: Seq<BindingModel>)
    requires
        reg.consistent(),
        with_bindings(reg, bindings) is Ok,
    ensures
        with_bindings(reg, bindings)->Ok_0.consistent(),
        grew_into(reg, with_bindings(reg, bindings)->Ok_0),
    decreases bindings.len(),
{
    if bindings.len() == 0 {
        assert(reg.bindings.subrange(0, reg.bindings.len() as int) =~= reg.bindings);
    } else {
        lemma_bindings_grow(reg, bindings.drop_last());
        let mid = with_bindings(reg, bindings.drop_last())->Ok_0;
        let next = with_bindings(reg, bindings)->Ok_0;
        assert(next.bindings.subrange(0, mid.bindings.len() as int) =~= mid.bindings);
        lemma_grew_on(reg, mid, next);
    }
}

/// A schema file only ever adds: whatever was registered is registered unchanged afterwards.
pub proof fn law_a_schema_only_adds(reg: RegistryModel, file: SchemaModel, is_core: bool)
    requires
        reg.consistent(),
        with_schema(reg, file, is_core) is Ok,
    ensures
        with_schema(reg, file, is_core)->Ok_0.consistent(),
        grew_into(reg, with_schema(reg, file, is_core)->Ok_0),
{
    lemma_signals_grow(reg, file);
    let heard = with_signals(reg, file);
    lemma_entries_grow(heard, file.kinds, is_core);
    let mid = with_entries(heard, file.kinds, is_core)->Ok_0;
    lemma_bindings_grow(mid, file.bindings);
    lemma_grew_on(reg, heard, mid);
    lemma_grew_on(reg, mid, with_bindings(mid, file.bindings)->Ok_0);
}

/// No plugin, sound or broken, changes or removes what was registered before it.
pub proof fn law_plugins_only_add(start: RegistryModel, plugins: Seq<PluginModel>)
    requires
        start.consistent(),
    ensures
        resilient_build(start, plugins).consistent(),
        grew_into(start, resilient_build(start, plugins)),
    decreases plugins.len(),
{
    if plugins.len() == 0 {
        assert(start.bindings.subrange(0, start.bindings.len() as int) =~= start.bindings);
    } else {
        law_plugins_only_add(start, plugins.drop_last());
        let r = resilient_build(start, plugins.drop_last());
        if let Ok(src) = plugins.last().text {
            if let Ok(t) = toml_parsed(src) {
                if schema_fault(t) is None && with_schema(r, schema_of(t), false) is Ok {
                    law_a_schema_only_adds(r, schema_of(t), false);
                    lemma_grew_on(start, r, with_schema(r, schema_of(t), false)->Ok_0);
                }
            }
        }
    }
}

} // verus!
