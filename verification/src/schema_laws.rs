//! What a schema file declares, and what building a registry from several of them gives.
use vstd::prelude::*;
use crate::claude_settings::slot;
use crate::error::ErrorModel;
use crate::json::{key_order, lemma_key_order_lists, Tree};
use crate::project::{any_parent, joined_path};
use crate::registry::{
    bind_fault, find_kind, lemma_first_outside, raw_declared, raw_fault, with_kind, BindingModel,
    KindModel, RawModel, RegistryModel,
};
use crate::schema::{
    binding_table, binding_table_fault, binding_tables_fault, entry_kind, field_map,
    field_map_fault, field_maps_fault, kind_fields, kind_table, kind_table_fault, kind_tables_fault,
    resilient_build, schema_fault, schema_of, skipped, strict_build, with_bindings, with_entries,
    with_entry, with_plugin, with_schema, with_signals, with_source, PluginModel, SchemaModel,
};
use crate::settings::{
    anchored, settings_fault, settings_of, target_fault, target_of, targets_fault,
};
use crate::sorted::{ascending, lemma_sorted_set};
use crate::table::{
    all_strings, flag_field, list_field, opt_number_field, opt_str_field, str_field, tables_field,
    toml_parsed, unknown_field,
};

verus! {

broadcast use vstd::map::group_map_axioms;

// ---------------------------------------------------------------------------------------------
// Fields
// ---------------------------------------------------------------------------------------------

/// A member is a list of texts.
pub open spec fn lists_texts(t: Option<Tree>, v: Seq<Seq<char>>) -> bool {
    t matches Some(Tree::Arr(a)) && a.len() == v.len() && forall|i: int|
        0 <= i < v.len() ==> #[trigger] a[i] == Tree::Str(v[i])
}

/// A field is read as what it says: a text, a flag, a list of texts or of tables. One that is missing
/// is refused where it is required, and otherwise off or empty; one of another type is refused.
pub proof fn law_a_field_is_read_as_it_is(
    m: Map<Seq<char>, Tree>,
    key: Seq<char>,
    text: Seq<char>,
    on: bool,
    v: Seq<Seq<char>>,
    t: Seq<Tree>,
)
    ensures
        str_field(m, key) == Ok::<Seq<char>, Seq<char>>(text) <==> slot(m, key) == Some(
            Tree::Str(text),
        ),
        opt_str_field(m, key) == Ok::<Option<Seq<char>>, Seq<char>>(Some(text)) <==> slot(m, key)
            == Some(Tree::Str(text)),
        opt_str_field(m, key) == Ok::<Option<Seq<char>>, Seq<char>>(None) <==> !m.contains_key(key),
        flag_field(m, key) == Ok::<bool, Seq<char>>(on) <==> slot(m, key) == Some(Tree::Bool(on))
            || (!m.contains_key(key) && !on),
        list_field(m, key, true) == Ok::<Seq<Seq<char>>, Seq<char>>(v) <==> lists_texts(
            slot(m, key),
            v,
        ),
        list_field(m, key, false) == Ok::<Seq<Seq<char>>, Seq<char>>(v) <==> lists_texts(
            slot(m, key),
            v,
        ) || (!m.contains_key(key) && v.len() == 0),
        tables_field(m, key) == Ok::<Seq<Tree>, Seq<char>>(t) <==> slot(m, key) == Some(
            Tree::Arr(t),
        ) || (!m.contains_key(key) && t.len() == 0),
{
    if v.len() == 0 {
        assert(v =~= Seq::empty());
    }
    if t.len() == 0 {
        assert(t =~= Seq::empty());
    }
    if let Some(Tree::Arr(a)) = slot(m, key) {
        if all_strings(a) {
            let got = crate::table::strings(a);
            if lists_texts(slot(m, key), v) {
                assert(got =~= v);
            }
            if got == v {
                assert forall|i: int| 0 <= i < v.len() implies #[trigger] a[i] == Tree::Str(
                    v[i],
                ) by {
                    assert(a[i] is Str);
                }
            }
        } else if lists_texts(slot(m, key), v) {
            assert forall|i: int| 0 <= i < a.len() implies (#[trigger] a[i]) is Str by {
                assert(a[i] == Tree::Str(v[i]));
            }
        }
    }
}

/// A table is refused for an unknown field exactly where it has one.
pub proof fn law_an_unknown_field_is_refused(m: Map<Seq<char>, Tree>, allowed: Seq<Seq<char>>)
    requires
        m.dom().finite(),
    ensures
        unknown_field(m, allowed) is Some <==> exists|k: Seq<char>| #[trigger]
            m.contains_key(k) && !allowed.contains(k),
{
    let keys = key_order(m);
    lemma_key_order_lists(m);
    lemma_first_outside(keys, allowed);
    if unknown_field(m, allowed) is None {
        assert forall|k: Seq<char>| #[trigger] m.contains_key(k) implies allowed.contains(k) by {
            assert(keys.contains(k));
            let i = keys.index_of(k);
            assert(allowed.contains(keys[i]));
        }
    } else {
        let x = crate::registry::first_outside(keys, allowed)->0;
        assert(keys.contains(x));
        assert(m.contains_key(x));
    }
}

/// A number is read where it is a natural one that fits.
pub proof fn law_a_number_is_read_where_it_fits(
    m: Map<Seq<char>, Tree>,
    key: Seq<char>,
    n: u64,
)
    ensures
        opt_number_field(m, key) == Ok::<Option<u64>, Seq<char>>(Some(n)) <==> (slot(m, key) matches Some(
            Tree::Num(t),
        ) && crate::decimal::int_value(t) == Some(n as int)),
        opt_number_field(m, key) == Ok::<Option<u64>, Seq<char>>(None) <==> !m.contains_key(key),
{
}

// ---------------------------------------------------------------------------------------------
// Files
// ---------------------------------------------------------------------------------------------

/// A Kind is declared by what its table says: its name, fields and group key, what it redacts and
/// measures, its identity, and whether the receiver writes it.
pub proof fn law_a_kind_table_says_what_it_declares(m: Map<Seq<char>, Tree>)
    requires
        kind_table_fault(Tree::Obj(m)) is None,
        m.dom().finite(),
    ensures
        ({
            let (raw, sourced) = kind_table(Tree::Obj(m));
            &&& slot(m, "name"@) == Some(Tree::Str(raw.name))
            &&& slot(m, "group_key"@) == Some(Tree::Str(raw.group_key))
            &&& lists_texts(slot(m, "fields"@), raw.fields)
            &&& lists_texts(slot(m, "redact"@), raw.redact) || (!m.contains_key("redact"@)
                && raw.redact.len() == 0)
            &&& lists_texts(slot(m, "measures"@), raw.measures) || (!m.contains_key("measures"@)
                && raw.measures.len() == 0)
            &&& raw.identity matches Some(id) ==> slot(m, "identity"@) == Some(Tree::Str(id))
            &&& raw.identity is None ==> !m.contains_key("identity"@)
            &&& sourced <==> slot(m, "receiver_sourced"@) == Some(Tree::Bool(true))
        }),
        forall|k: Seq<char>| #[trigger]
            m.contains_key(k) ==> k == "name"@ || k == "fields"@ || k == "group_key"@ || k
                == "redact"@ || k == "measures"@ || k == "identity"@ || k == "receiver_sourced"@,
{
    let (raw, sourced) = kind_table(Tree::Obj(m));
    let none = Seq::<Tree>::empty();
    law_a_field_is_read_as_it_is(m, "name"@, raw.name, sourced, raw.fields, none);
    law_a_field_is_read_as_it_is(m, "group_key"@, raw.group_key, sourced, raw.fields, none);
    law_a_field_is_read_as_it_is(m, "fields"@, raw.name, sourced, raw.fields, none);
    law_a_field_is_read_as_it_is(m, "redact"@, raw.name, sourced, raw.redact, none);
    law_a_field_is_read_as_it_is(m, "measures"@, raw.name, sourced, raw.measures, none);
    law_a_field_is_read_as_it_is(m, "receiver_sourced"@, raw.name, sourced, raw.measures, none);
    if let Some(id) = raw.identity {
        law_a_field_is_read_as_it_is(m, "identity"@, id, sourced, raw.measures, none);
    } else {
        law_a_field_is_read_as_it_is(m, "identity"@, raw.name, sourced, raw.measures, none);
    }
    law_an_unknown_field_is_refused(m, kind_fields());
    assert forall|k: Seq<char>| #[trigger] m.contains_key(k) implies k == "name"@ || k == "fields"@
        || k == "group_key"@ || k == "redact"@ || k == "measures"@ || k == "identity"@ || k
        == "receiver_sourced"@ by {
        assert(kind_fields().contains(k));
        let i = kind_fields().index_of(k);
        assert(kind_fields()[i] == k);
    }
}

/// A field map takes what its table says: one source or several in order, and its transform; a
/// constant is whatever value is given.
pub proof fn law_a_field_map_table_says_what_it_takes(m: Map<Seq<char>, Tree>, source: Seq<char>)
    requires
        field_map_fault(Tree::Obj(m)) is None,
    ensures
        ({
            let f = field_map(Tree::Obj(m));
            &&& slot(m, "from"@) == Some(Tree::Str(source)) ==> f.from == Some(seq![source])
            &&& f.from matches Some(keys) ==> lists_texts(slot(m, "from"@), keys) || (keys.len() == 1
                && slot(m, "from"@) == Some(Tree::Str(keys[0])))
            &&& f.from is None <==> !m.contains_key("from"@)
            &&& f.capture matches Some(p) ==> slot(m, "capture"@) == Some(Tree::Str(p))
            &&& f.capture is None ==> !m.contains_key("capture"@)
            &&& f.len <==> slot(m, "len"@) == Some(Tree::Bool(true))
            &&& f.present <==> slot(m, "present"@) == Some(Tree::Bool(true))
            &&& f.basename <==> slot(m, "basename"@) == Some(Tree::Bool(true))
            &&& f.constant == slot(m, "const"@)
        }),
{
    let f = field_map(Tree::Obj(m));
    if let Some(Tree::Arr(a)) = slot(m, "from"@) {
        let got = crate::table::strings(a);
        assert forall|i: int| 0 <= i < got.len() implies #[trigger] a[i] == Tree::Str(got[i]) by {
            assert(a[i] is Str);
        }
    }
}

proof fn lemma_field_maps(m: Map<Seq<char>, Tree>, keys: Seq<Seq<char>>)
    ensures
        field_maps_fault(m, keys) is None <==> forall|i: int|
            0 <= i < keys.len() ==> field_map_fault(m[#[trigger] keys[i]]) is None,
    decreases keys.len(),
{
    if keys.len() > 0 {
        let rest = keys.skip(1);
        lemma_field_maps(m, rest);
        if field_map_fault(m[keys[0]]) is None {
            if field_maps_fault(m, rest) is None {
                assert forall|i: int| 0 <= i < keys.len() implies field_map_fault(
                    m[#[trigger] keys[i]],
                ) is None by {
                    if i > 0 {
                        assert(rest[i - 1] == keys[i]);
                    }
                }
            } else {
                let i = choose|i: int|
                    0 <= i < rest.len() && field_map_fault(m[#[trigger] rest[i]]) is Some;
                assert(keys[i + 1] == rest[i]);
            }
        }
    }
}

/// A binding joins the event and the Kind that its table names, and has a map for every member of
/// its table of maps, and no other.
pub proof fn law_a_binding_table_says_what_it_joins(
    m: Map<Seq<char>, Tree>,
    maps: Map<Seq<char>, Tree>,
    field: Seq<char>,
)
    requires
        slot(m, "map"@) == Some(Tree::Obj(maps)),
        maps.dom().finite(),
        binding_table_fault(Tree::Obj(m)) is None,
    ensures
        ({
            let b = binding_table(Tree::Obj(m));
            &&& slot(m, "event"@) == Some(Tree::Str(b.event))
            &&& slot(m, "kind"@) == Some(Tree::Str(b.kind))
            &&& maps.contains_key(field) ==> b.map.contains((field, field_map(maps[field])))
            &&& forall|i: int|
                0 <= i < b.map.len() ==> maps.contains_key((#[trigger] b.map[i]).0) && b.map[i].1
                    == field_map(maps[b.map[i].0]) && field_map_fault(maps[b.map[i].0]) is None
        }),
{
    let keys = key_order(maps);
    lemma_key_order_lists(maps);
    lemma_field_maps(maps, keys);
    let b = binding_table(Tree::Obj(m));
    if maps.contains_key(field) {
        assert(keys.contains(field));
        let i = keys.index_of(field);
        assert(b.map[i] == (field, field_map(maps[field])));
    }
    assert forall|i: int| 0 <= i < b.map.len() implies maps.contains_key((#[trigger] b.map[i]).0)
        && b.map[i].1 == field_map(maps[b.map[i].0]) && field_map_fault(maps[b.map[i].0]) is None by {
        assert(keys.contains(keys[i]));
    }
}

proof fn lemma_tables(v: Seq<Tree>)
    ensures
        kind_tables_fault(v) is None <==> forall|i: int|
            0 <= i < v.len() ==> kind_table_fault(#[trigger] v[i]) is None,
        binding_tables_fault(v) is None <==> forall|i: int|
            0 <= i < v.len() ==> binding_table_fault(#[trigger] v[i]) is None,
        targets_fault(v) is None <==> forall|i: int|
            0 <= i < v.len() ==> target_fault(#[trigger] v[i]) is None,
    decreases v.len(),
{
    if v.len() > 0 {
        let rest = v.skip(1);
        lemma_tables(rest);
        assert forall|i: int| 0 <= i < rest.len() implies #[trigger] rest[i] == v[i + 1] by {}
        if kind_table_fault(v[0]) is None && kind_tables_fault(rest) is None {
            assert forall|i: int| 0 <= i < v.len() implies kind_table_fault(
                #[trigger] v[i],
            ) is None by {
                if i > 0 {
                    assert(rest[i - 1] == v[i]);
                }
            }
        }
        if binding_table_fault(v[0]) is None && binding_tables_fault(rest) is None {
            assert forall|i: int| 0 <= i < v.len() implies binding_table_fault(
                #[trigger] v[i],
            ) is None by {
                if i > 0 {
                    assert(rest[i - 1] == v[i]);
                }
            }
        }
        if target_fault(v[0]) is None && targets_fault(rest) is None {
            assert forall|i: int| 0 <= i < v.len() implies target_fault(#[trigger] v[i]) is None by {
                if i > 0 {
                    assert(rest[i - 1] == v[i]);
                }
            }
        }
    }
}

/// A schema file that is read declares every Kind and every binding that it has a table for, in
/// order, and no other; and none of its tables, nor the file, has a fault.
pub proof fn law_a_schema_declares_every_table(
    m: Map<Seq<char>, Tree>,
    kinds: Seq<Tree>,
    bindings: Seq<Tree>,
    metrics: Seq<Seq<char>>,
    events: Seq<Seq<char>>,
)
    requires
        schema_fault(Tree::Obj(m)) is None,
        slot(m, "kind"@) == Some(Tree::Arr(kinds)),
        slot(m, "binding"@) == Some(Tree::Arr(bindings)),
        lists_texts(slot(m, "tracked_metrics"@), metrics),
        lists_texts(slot(m, "counted_events"@), events),
    ensures
        ({
            let s = schema_of(Tree::Obj(m));
            &&& s.metrics == metrics
            &&& s.events == events
            &&& s.kinds.len() == kinds.len()
            &&& s.bindings.len() == bindings.len()
            &&& forall|i: int|
                0 <= i < kinds.len() ==> #[trigger] s.kinds[i] == kind_table(kinds[i])
                    && kind_table_fault(kinds[i]) is None
            &&& forall|i: int|
                0 <= i < bindings.len() ==> #[trigger] s.bindings[i] == binding_table(bindings[i])
                    && binding_table_fault(bindings[i]) is None
        }),
{
    lemma_tables(kinds);
    lemma_tables(bindings);
    let none = Seq::<Tree>::empty();
    law_a_field_is_read_as_it_is(m, "tracked_metrics"@, Seq::empty(), true, metrics, none);
    law_a_field_is_read_as_it_is(m, "counted_events"@, Seq::empty(), true, events, none);
}

/// A configuration file that is read has every destination that it has a table for, in order, and
/// its plugins as they are listed.
pub proof fn law_a_configuration_has_every_table(
    m: Map<Seq<char>, Tree>,
    targets: Seq<Tree>,
    plugins: Seq<Seq<char>>,
)
    requires
        settings_fault(Tree::Obj(m)) is None,
        slot(m, "export"@) == Some(Tree::Arr(targets)),
        lists_texts(slot(m, "plugins"@), plugins),
    ensures
        ({
            let s = settings_of(Tree::Obj(m));
            &&& s.plugins == plugins
            &&& s.export.len() == targets.len()
            &&& forall|i: int|
                0 <= i < targets.len() ==> #[trigger] s.export[i] == target_of(targets[i])
                    && target_fault(targets[i]) is None
        }),
{
    lemma_tables(targets);
    law_a_field_is_read_as_it_is(m, "plugins"@, Seq::empty(), true, plugins, Seq::empty());
}

/// A destination says what its table says; its lists of projects are taken as sets.
pub proof fn law_a_destination_says_what_its_table_says(
    m: Map<Seq<char>, Tree>,
    projects: Seq<Seq<char>>,
    headers: Map<Seq<char>, Tree>,
    key: Seq<char>,
)
    requires
        target_fault(Tree::Obj(m)) is None,
    ensures
        ({
            let t = target_of(Tree::Obj(m));
            &&& slot(m, "endpoint"@) == Some(Tree::Str(t.endpoint))
            &&& slot(m, "mode"@) == Some(Tree::Str(t.mode))
            &&& t.timeout matches Some(n) ==> (slot(m, "timeout_ms"@) matches Some(Tree::Num(x))
                && crate::decimal::int_value(x) == Some(n as int))
            &&& t.timeout is None ==> !m.contains_key("timeout_ms"@)
            &&& lists_texts(slot(m, "projects"@), projects) ==> (t.projects matches Some(v)
                && ascending(v) && (v.contains(key) <==> projects.contains(key)))
            &&& lists_texts(slot(m, "exclude_projects"@), projects) ==> (t.exclude matches Some(v)
                && ascending(v) && (v.contains(key) <==> projects.contains(key)))
            &&& t.projects is None <==> !m.contains_key("projects"@)
            &&& t.exclude is None <==> !m.contains_key("exclude_projects"@)
            &&& slot(m, "headers"@) == Some(Tree::Obj(headers)) ==> (t.headers.contains_key(key)
                <==> headers.contains_key(key)) && (headers.contains_key(key) ==> headers[key]
                == Tree::Str(t.headers[key]))
            &&& !m.contains_key("headers"@) ==> !t.headers.contains_key(key)
        }),
{
    let none = Seq::<Tree>::empty();
    let t = target_of(Tree::Obj(m));
    law_a_field_is_read_as_it_is(m, "endpoint"@, t.endpoint, true, projects, none);
    law_a_field_is_read_as_it_is(m, "mode"@, t.mode, true, projects, none);
    law_a_field_is_read_as_it_is(m, "projects"@, t.mode, true, projects, none);
    law_a_field_is_read_as_it_is(m, "exclude_projects"@, t.mode, true, projects, none);
    lemma_sorted_set(projects);
    if let Some(n) = t.timeout {
        law_a_number_is_read_where_it_fits(m, "timeout_ms"@, n);
    } else {
        law_a_number_is_read_where_it_fits(m, "timeout_ms"@, 0);
    }
    if slot(m, "headers"@) == Some(Tree::Obj(headers)) {
        assert(crate::settings::string_members(headers));
        if headers.contains_key(key) {
            assert(headers[key] is Str);
        }
    }
}

/// A plugin is found from the directory of the file that lists it, unless its path is absolute.
pub proof fn law_a_plugin_is_found_from_its_file(source: Seq<char>, plugin: Seq<char>, dir: Seq<char>)
    requires
        any_parent(source) == Some(dir),
    ensures
        anchored(source, plugin) == joined_path(dir, plugin),
{
}

// ---------------------------------------------------------------------------------------------
// Registries
// ---------------------------------------------------------------------------------------------

/// An entry is registered exactly where it is sound, its name is free, and it is not a plugin's that
/// claims to be written by the receiver; the Kind is the one declared, and the rest is as it was.
pub proof fn law_an_entry_is_registered_where_it_may_be(
    reg: RegistryModel,
    entry: (RawModel, bool),
    is_core: bool,
)
    ensures
        with_entry(reg, entry, is_core) is Ok <==> {
            &&& entry.1 ==> is_core
            &&& raw_fault(entry.0) is None
            &&& find_kind(reg.kinds, entry.0.name) is None
        },
        with_entry(reg, entry, is_core) matches Ok(after) ==> {
            let k = entry_kind(entry);
            &&& after.kinds == with_kind(reg.kinds, k)
            &&& k.receiver_sourced == entry.1
            &&& k == (KindModel { receiver_sourced: entry.1, ..raw_declared(entry.0) })
            &&& after.bindings == reg.bindings
            &&& after.metrics == reg.metrics
            &&& after.events == reg.events
        },
{
}

/// Entries are registered one after the other, those of the first list and then those of the second;
/// the first that is refused stops it.
pub proof fn law_entries_add_up(
    reg: RegistryModel,
    a: Seq<(RawModel, bool)>,
    b: Seq<(RawModel, bool)>,
    one: (RawModel, bool),
    is_core: bool,
)
    ensures
        with_entries(reg, a + b, is_core) == match with_entries(reg, a, is_core) {
            Ok(mid) => with_entries(mid, b, is_core),
            Err(e) => Err::<RegistryModel, ErrorModel>(e),
        },
        with_entries(reg, seq![one], is_core) == with_entry(reg, one, is_core),
    decreases b.len(),
{
    let s = seq![one];
    assert(s.drop_last() =~= Seq::<(RawModel, bool)>::empty());
    assert(with_entries(reg, s.drop_last(), is_core) == Ok::<RegistryModel, ErrorModel>(reg));
    assert(s.last() == one);
    if b.len() == 0 {
        assert(a + b =~= a);
    } else {
        law_entries_add_up(reg, a, b.drop_last(), one, is_core);
        assert((a + b).drop_last() =~= a + b.drop_last());
        assert((a + b).last() == b.last());
    }
}

/// Bindings are made one after the other in the same way.
pub proof fn law_bindings_are_made_in_order(
    reg: RegistryModel,
    a: Seq<BindingModel>,
    b: Seq<BindingModel>,
    one: BindingModel,
)
    ensures
        with_bindings(reg, a + b) == match with_bindings(reg, a) {
            Ok(mid) => with_bindings(mid, b),
            Err(e) => Err::<RegistryModel, ErrorModel>(e),
        },
        with_bindings(reg, seq![one]) == match bind_fault(reg, one) {
            None => Ok::<RegistryModel, ErrorModel>(
                RegistryModel { bindings: reg.bindings.push(one), ..reg },
            ),
            Some(reason) => Err(ErrorModel::InvalidSpec(one.kind, reason)),
        },
    decreases b.len(),
{
    let s = seq![one];
    assert(s.drop_last() =~= Seq::<BindingModel>::empty());
    assert(with_bindings(reg, s.drop_last()) == Ok::<RegistryModel, ErrorModel>(reg));
    assert(s.last() == one);
    if b.len() == 0 {
        assert(a + b =~= a);
    } else {
        law_bindings_are_made_in_order(reg, a, b.drop_last(), one);
        assert((a + b).drop_last() =~= a + b.drop_last());
        assert((a + b).last() == b.last());
    }
}

/// A file adds its signals to those that are listened for; a metric or an event is listened for
/// exactly where it was, or where the file names it.
pub proof fn law_signals_are_joined(reg: RegistryModel, file: SchemaModel, name: Seq<char>)
    ensures
        with_signals(reg, file).metrics.contains(name) <==> reg.metrics.contains(name)
            || file.metrics.contains(name),
        with_signals(reg, file).events.contains(name) <==> reg.events.contains(name)
            || file.events.contains(name),
        with_signals(reg, file).kinds == reg.kinds,
        with_signals(reg, file).bindings == reg.bindings,
        ascending(with_signals(reg, file).metrics),
        ascending(with_signals(reg, file).events),
{
    lemma_sorted_set(reg.metrics + file.metrics);
    lemma_sorted_set(reg.events + file.events);
    lemma_both(reg.metrics, file.metrics, name);
    lemma_both(reg.events, file.events, name);
}

proof fn lemma_both(a: Seq<Seq<char>>, b: Seq<Seq<char>>, x: Seq<char>)
    ensures
        (a + b).contains(x) <==> a.contains(x) || b.contains(x),
{
    let all = a + b;
    if a.contains(x) {
        assert(all[a.index_of(x)] == x);
    }
    if b.contains(x) {
        assert(all[a.len() + b.index_of(x)] == x);
    }
    if all.contains(x) {
        let i = all.index_of(x);
        if i < a.len() {
            assert(a[i] == x);
        } else {
            assert(b[i - a.len()] == x);
        }
    }
}

/// A file is merged by its signals, then its Kinds, then its bindings, so that a binding may fill a
/// Kind of the same file.
pub proof fn law_a_file_is_merged_kinds_first(
    reg: RegistryModel,
    file: SchemaModel,
    is_core: bool,
    mid: RegistryModel,
)
    requires
        with_entries(with_signals(reg, file), file.kinds, is_core) == Ok::<
            RegistryModel,
            ErrorModel,
        >(mid),
    ensures
        with_schema(reg, file, is_core) == with_bindings(mid, file.bindings),
{
}

/// A source is taken as the schema that its text holds; a text that is no table, or whose tables are
/// not as they must be, is refused by its path, and nothing of it is taken.
pub proof fn law_a_source_is_taken_as_its_schema(
    reg: RegistryModel,
    src: Seq<char>,
    path: Seq<char>,
    core: bool,
    t: Tree,
)
    ensures
        toml_parsed(src) == Ok::<Tree, Seq<char>>(t) && schema_fault(t) is None ==> with_source(
            reg,
            src,
            path,
            core,
        ) == with_schema(reg, schema_of(t), core),
        toml_parsed(src) is Err || schema_fault(toml_parsed(src)->Ok_0) is Some ==> (with_source(
            reg,
            src,
            path,
            core,
        ) matches Err(ErrorModel::SchemaParse(at, _)) && at == path),
{
}

/// Plugins are built in one after the other. In the strict build the first that fails fails it all;
/// in the resilient one each that fails is left out, and named, and the others are there.
pub proof fn law_plugins_add_up(
    start: RegistryModel,
    a: Seq<PluginModel>,
    b: Seq<PluginModel>,
    one: PluginModel,
)
    ensures
        strict_build(Ok(start), a + b) == strict_build(strict_build(Ok(start), a), b),
        resilient_build(start, a + b) == resilient_build(resilient_build(start, a), b),
        skipped(start, a + b) == skipped(start, a) + skipped(resilient_build(start, a), b),
        strict_build(Ok(start), seq![one]) == with_plugin(start, one),
        resilient_build(start, seq![one]) == match with_plugin(start, one) {
            Ok(next) => next,
            Err(_) => start,
        },
        skipped(start, seq![one]) == match with_plugin(start, one) {
            Ok(_) => Seq::empty(),
            Err(e) => seq![(one.path, e)],
        },
    decreases b.len(),
{
    let s = seq![one];
    let none = Seq::<PluginModel>::empty();
    assert(s.drop_last() =~= none);
    assert(strict_build(Ok(start), none) == Ok::<RegistryModel, ErrorModel>(start));
    assert(resilient_build(start, none) == start);
    assert(skipped(start, none) =~= Seq::<(Seq<char>, ErrorModel)>::empty());
    assert(s.last() == one);
    if let Err(e) = with_plugin(start, one) {
        assert(Seq::<(Seq<char>, ErrorModel)>::empty().push((one.path, e)) =~= seq![(one.path, e)]);
    }
    if b.len() == 0 {
        assert(a + b =~= a);
        assert(skipped(start, a) + skipped(resilient_build(start, a), b) =~= skipped(start, a));
    } else {
        law_plugins_add_up(start, a, b.drop_last(), one);
        assert((a + b).drop_last() =~= a + b.drop_last());
        assert((a + b).last() == b.last());
        assert(skipped(start, a + b) =~= skipped(start, a) + skipped(resilient_build(start, a), b));
    }
}

} // verus!
