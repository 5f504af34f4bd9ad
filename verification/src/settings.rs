//! The collector's own configuration file.
//!
//! Every section the file may hold is declared on one type, so that a misspelled key is rejected
//! and a command that manages one section can rewrite the file without dropping the others.
use vstd::prelude::*;
use crate::assoc::lists;
use crate::claude_settings::slot;
use crate::decimal::{int_text, nat_text};
use crate::error::{Error, ErrorModel};
use crate::headers::Headers;
use crate::json::{
    find_member, items, key_order, lemma_key_order, lists_keys, members, sorted_keys, Json, Tree,
};
use crate::project::{joined_path, recorded_path};
use crate::sorted::{ascending, sort_set, sorted_set};
use crate::table::{
    all_strings, doc_members, doc_tree, doc_trees, find_unknown, json_doc, json_docs, json_fields,
    list_field, mistyped, mistyped_text, opt_number_field, parse_document, read_list, read_number,
    read_str, str_field, strings, tables_field, toml_document, toml_plain, toml_text, unknown_field,
    write_toml, Doc, TOML_DEPTH,
};
use crate::text::{opt_view, owned, views};

verus! {

broadcast use vstd::map::group_map_axioms;

/// One `[[export]]` entry as the file spells it. A missing project list is no filter, which is
/// different from an empty one.
#[derive(Debug)]
pub struct ExportTargetRaw {
    pub endpoint: String,
    pub mode: String,
    pub projects: Option<Vec<String>>,
    pub exclude_projects: Option<Vec<String>>,
    pub timeout_ms: Option<u64>,
    pub headers: Headers,
}

/// What an `[[export]]` entry says.
#[verifier::ext_equal]
pub struct RawTarget {
    pub endpoint: Seq<char>,
    pub mode: Seq<char>,
    pub projects: Option<Seq<Seq<char>>>,
    pub exclude: Option<Seq<Seq<char>>>,
    pub timeout: Option<u64>,
    pub headers: Map<Seq<char>, Seq<char>>,
}

/// The texts of an optional list.
pub open spec fn opt_list(o: Option<Vec<String>>) -> Option<Seq<Seq<char>>> {
    match o {
        Some(v) => Some(views(v@)),
        None => None,
    }
}

impl ExportTargetRaw {
    pub open spec fn model(self) -> RawTarget {
        RawTarget {
            endpoint: self.endpoint@,
            mode: self.mode@,
            projects: opt_list(self.projects),
            exclude: opt_list(self.exclude_projects),
            timeout: self.timeout_ms,
            headers: self.headers@,
        }
    }
}

/// The models of a list of entries.
pub open spec fn raw_models(v: Seq<ExportTargetRaw>) -> Seq<RawTarget> {
    Seq::new(v.len(), |i: int| v[i].model())
}

/// The parsed configuration file. The fields hold the file's own spelling, never a derived form.
#[derive(Debug)]
pub struct Settings {
    /// Plugin schema files, in listed order.
    pub plugins: Vec<String>,
    /// Downstream destinations.
    pub export: Vec<ExportTargetRaw>,
    /// Where the file was read from.
    pub source: String,
}

/// What a configuration file says.
#[verifier::ext_equal]
pub struct SettingsModel {
    pub plugins: Seq<Seq<char>>,
    pub export: Seq<RawTarget>,
}

impl Settings {
    pub open spec fn model(self) -> SettingsModel {
        SettingsModel { plugins: views(self.plugins@), export: raw_models(self.export@) }
    }
}

// ---------------------------------------------------------------------------------------------
// The format
// ---------------------------------------------------------------------------------------------

/// An optional list of strings, taken as a set.
pub open spec fn set_field(
    m: Map<Seq<char>, Tree>,
    key: Seq<char>,
) -> Result<Option<Seq<Seq<char>>>, Seq<char>> {
    match slot(m, key) {
        None => Ok(None),
        Some(_) => match list_field(m, key, true) {
            Ok(v) => Ok(Some(sorted_set(v))),
            Err(e) => Err(e),
        },
    }
}

/// Every member is a string.
pub open spec fn string_members(m: Map<Seq<char>, Tree>) -> bool {
    forall|k: Seq<char>| #[trigger] m.contains_key(k) ==> m[k] is Str
}

/// The strings of an object.
pub open spec fn string_map(m: Map<Seq<char>, Tree>) -> Map<Seq<char>, Seq<char>> {
    Map::new(|k: Seq<char>| m.contains_key(k), |k: Seq<char>| m[k]->Str_0)
}

/// The optional table of headers.
pub open spec fn headers_field(
    m: Map<Seq<char>, Tree>,
) -> Result<Map<Seq<char>, Seq<char>>, Seq<char>> {
    match slot(m, "headers"@) {
        None => Ok(Map::empty()),
        Some(Tree::Obj(h)) => if string_members(h) {
            Ok(string_map(h))
        } else {
            Err(mistyped("headers"@, "a table of strings"@))
        },
        Some(_) => Err(mistyped("headers"@, "a table of strings"@)),
    }
}

/// The fields of an `[[export]]` entry.
pub open spec fn target_fields() -> Seq<Seq<char>> {
    seq![
        "endpoint"@,
        "mode"@,
        "projects"@,
        "exclude_projects"@,
        "timeout_ms"@,
        "headers"@,
    ]
}

/// Why an `[[export]]` entry cannot be read.
pub open spec fn target_fault(t: Tree) -> Option<Seq<char>> {
    match t {
        Tree::Obj(m) => if let Some(e) = unknown_field(m, target_fields()) {
            Some(e)
        } else if let Err(e) = str_field(m, "endpoint"@) {
            Some(e)
        } else if let Err(e) = str_field(m, "mode"@) {
            Some(e)
        } else if let Err(e) = set_field(m, "projects"@) {
            Some(e)
        } else if let Err(e) = set_field(m, "exclude_projects"@) {
            Some(e)
        } else if let Err(e) = opt_number_field(m, "timeout_ms"@) {
            Some(e)
        } else if let Err(e) = headers_field(m) {
            Some(e)
        } else {
            None
        },
        _ => Some(mistyped("export"@, "a list of tables"@)),
    }
}

/// What a readable `[[export]]` entry says.
pub open spec fn target_of(t: Tree) -> RawTarget {
    let m = t->Obj_0;
    RawTarget {
        endpoint: str_field(m, "endpoint"@)->Ok_0,
        mode: str_field(m, "mode"@)->Ok_0,
        projects: set_field(m, "projects"@)->Ok_0,
        exclude: set_field(m, "exclude_projects"@)->Ok_0,
        timeout: opt_number_field(m, "timeout_ms"@)->Ok_0,
        headers: headers_field(m)->Ok_0,
    }
}

/// The fault of the first entry that has one.
pub open spec fn targets_fault(v: Seq<Tree>) -> Option<Seq<char>>
    decreases v.len(),
{
    if v.len() == 0 {
        None
    } else if let Some(e) = target_fault(v[0]) {
        Some(e)
    } else {
        targets_fault(v.skip(1))
    }
}

/// The fields of the configuration file.
pub open spec fn settings_fields() -> Seq<Seq<char>> {
    seq!["plugins"@, "export"@]
}

/// Why a configuration file cannot be read.
pub open spec fn settings_fault(t: Tree) -> Option<Seq<char>> {
    match t {
        Tree::Obj(m) => if let Some(e) = unknown_field(m, settings_fields()) {
            Some(e)
        } else if let Err(e) = list_field(m, "plugins"@, false) {
            Some(e)
        } else if let Err(e) = tables_field(m, "export"@) {
            Some(e)
        } else if let Some(e) = targets_fault(tables_field(m, "export"@)->Ok_0) {
            Some(e)
        } else {
            None
        },
        _ => Some("expected a table"@),
    }
}

/// What a readable configuration file says.
pub open spec fn settings_of(t: Tree) -> SettingsModel {
    let m = t->Obj_0;
    let v = tables_field(m, "export"@)->Ok_0;
    SettingsModel {
        plugins: list_field(m, "plugins"@, false)->Ok_0,
        export: Seq::new(v.len(), |i: int| target_of(v[i])),
    }
}

/// What the text of a configuration file says, or why it is refused.
pub open spec fn parsed_settings(text: Seq<char>, path: Seq<char>) -> Result<
    SettingsModel,
    ErrorModel,
> {
    match toml_document(text) {
        Err(e) => Err(ErrorModel::ConfigParse(path, e)),
        Ok(rows) => match settings_fault(doc_tree(Doc::Table(rows))) {
            Some(e) => Err(ErrorModel::ConfigParse(path, e)),
            None => Ok(settings_of(doc_tree(Doc::Table(rows)))),
        },
    }
}

/// What a configuration file says that may not be there: an absent one says nothing.
pub open spec fn loaded_settings(text: Option<Seq<char>>, path: Seq<char>) -> Result<
    SettingsModel,
    ErrorModel,
> {
    match text {
        Some(t) => parsed_settings(t, path),
        None => Ok(SettingsModel { plugins: Seq::empty(), export: Seq::empty() }),
    }
}

// ---------------------------------------------------------------------------------------------
// Writing
// ---------------------------------------------------------------------------------------------

/// A list of strings as a tree.
pub open spec fn list_tree(v: Seq<Seq<char>>) -> Tree {
    Tree::Arr(Seq::new(v.len(), |i: int| Tree::Str(v[i])))
}

/// A table of strings as a tree.
pub open spec fn strings_tree(h: Map<Seq<char>, Seq<char>>) -> Tree {
    Tree::Obj(Map::new(|k: Seq<char>| h.contains_key(k), |k: Seq<char>| Tree::Str(h[k])))
}

/// An object with a member where there is a value for it.
pub open spec fn with_member(
    m: Map<Seq<char>, Tree>,
    key: Seq<char>,
    value: Option<Tree>,
) -> Map<Seq<char>, Tree> {
    match value {
        Some(v) => m.insert(key, v),
        None => m,
    }
}

/// An optional list of strings as a tree.
pub open spec fn opt_list_tree(v: Option<Seq<Seq<char>>>) -> Option<Tree> {
    match v {
        Some(v) => Some(list_tree(v)),
        None => None,
    }
}

/// The members of a written `[[export]]` entry; what is not set is left out.
pub open spec fn target_members(t: RawTarget) -> Map<Seq<char>, Tree> {
    let start = Map::<Seq<char>, Tree>::empty().insert("endpoint"@, Tree::Str(t.endpoint)).insert(
        "mode"@,
        Tree::Str(t.mode),
    );
    let lists = with_member(
        with_member(start, "projects"@, opt_list_tree(t.projects)),
        "exclude_projects"@,
        opt_list_tree(t.exclude),
    );
    let timed = with_member(
        lists,
        "timeout_ms"@,
        match t.timeout {
            Some(n) => Some(Tree::Num(nat_text(n as nat))),
            None => None,
        },
    );
    with_member(
        timed,
        "headers"@,
        if t.headers == Map::<Seq<char>, Seq<char>>::empty() {
            None
        } else {
            Some(strings_tree(t.headers))
        },
    )
}

/// The tree of a written configuration file; an empty section is left out.
pub open spec fn settings_tree(m: SettingsModel) -> Tree {
    let plugins = if m.plugins.len() == 0 {
        None
    } else {
        Some(list_tree(m.plugins))
    };
    let export = if m.export.len() == 0 {
        None
    } else {
        Some(
            Tree::Arr(Seq::new(m.export.len(), |i: int| Tree::Obj(target_members(m.export[i])))),
        )
    };
    Tree::Obj(
        with_member(
            with_member(Map::empty(), "plugins"@, plugins),
            "export"@,
            export,
        ),
    )
}

/// An entry that reads back as it was written: its project lists are sets, and it has finitely many
/// headers.
pub open spec fn storable_target(t: RawTarget) -> bool {
    &&& t.projects matches Some(v) ==> ascending(v)
    &&& t.exclude matches Some(v) ==> ascending(v)
    &&& t.headers.dom().finite()
}

/// Settings that read back as they were written.
pub open spec fn storable(m: SettingsModel) -> bool {
    forall|i: int| 0 <= i < m.export.len() ==> storable_target(#[trigger] m.export[i])
}

// The order in which it is written: that of the fields, which sub-tables follow.

/// A list of strings in its order.
pub open spec fn list_doc(v: Seq<Seq<char>>) -> Doc {
    Doc::List(Seq::new(v.len(), |i: int| Doc::Leaf(Tree::Str(v[i]))))
}

/// An optional list of strings in its order.
pub open spec fn opt_list_doc(v: Option<Seq<Seq<char>>>) -> Option<Doc> {
    match v {
        Some(v) => Some(list_doc(v)),
        None => None,
    }
}

/// A table of strings, by name.
pub open spec fn strings_doc(h: Map<Seq<char>, Seq<char>>) -> Doc {
    let keys = key_order(strings_tree(h)->Obj_0);
    Doc::Table(Seq::new(keys.len(), |i: int| (keys[i], Doc::Leaf(Tree::Str(h[keys[i]])))))
}

/// A table with a row behind the others where there is a value for it.
pub open spec fn with_row(
    rows: Seq<(Seq<char>, Doc)>,
    key: Seq<char>,
    value: Option<Doc>,
) -> Seq<(Seq<char>, Doc)> {
    match value {
        Some(d) => rows.push((key, d)),
        None => rows,
    }
}

/// The rows of a written `[[export]]` entry.
pub open spec fn target_rows(t: RawTarget) -> Seq<(Seq<char>, Doc)> {
    let start = seq![
        ("endpoint"@, Doc::Leaf(Tree::Str(t.endpoint))),
        ("mode"@, Doc::Leaf(Tree::Str(t.mode))),
    ];
    let lists = with_row(
        with_row(start, "projects"@, opt_list_doc(t.projects)),
        "exclude_projects"@,
        opt_list_doc(t.exclude),
    );
    let timed = with_row(
        lists,
        "timeout_ms"@,
        match t.timeout {
            Some(n) => Some(Doc::Leaf(Tree::Num(nat_text(n as nat)))),
            None => None,
        },
    );
    with_row(
        timed,
        "headers"@,
        if t.headers == Map::<Seq<char>, Seq<char>>::empty() {
            None
        } else {
            Some(strings_doc(t.headers))
        },
    )
}

/// The entries of a written configuration file.
pub open spec fn target_docs(v: Seq<RawTarget>) -> Seq<Doc> {
    Seq::new(v.len(), |i: int| Doc::Table(target_rows(v[i])))
}

/// A configuration file as it is written; an empty section is left out.
pub open spec fn settings_doc(m: SettingsModel) -> Doc {
    let plugins = if m.plugins.len() == 0 {
        None
    } else {
        Some(list_doc(m.plugins))
    };
    let export = if m.export.len() == 0 {
        None
    } else {
        Some(Doc::List(target_docs(m.export)))
    };
    Doc::Table(with_row(with_row(Seq::empty(), "plugins"@, plugins), "export"@, export))
}

proof fn lemma_row(rows: Seq<(Seq<char>, Doc)>, key: Seq<char>, value: Option<Doc>)
    ensures
        doc_members(with_row(rows, key, value)) == with_member(
            doc_members(rows),
            key,
            match value {
                Some(d) => Some(doc_tree(d)),
                None => None,
            },
        ),
{
    if let Some(d) = value {
        assert(rows.push((key, d)).drop_last() =~= rows);
    }
}

proof fn lemma_list_doc(v: Seq<Seq<char>>)
    ensures
        doc_tree(list_doc(v)) == list_tree(v),
{
    let d = list_doc(v)->List_0;
    assert(doc_trees(d) =~= list_tree(v)->Arr_0);
}

proof fn lemma_text_rows(keys: Seq<Seq<char>>, h: Map<Seq<char>, Seq<char>>)
    requires
        ascending(keys),
    ensures
        ({
            let rows = Seq::new(keys.len(), |i: int| (keys[i], Doc::Leaf(Tree::Str(h[keys[i]]))));
            forall|k: Seq<char>|
                (#[trigger] doc_members(rows).contains_key(k) <==> keys.contains(k)) && (
                keys.contains(k) ==> doc_members(rows)[k] == Tree::Str(h[k]))
        }),
    decreases keys.len(),
{
    let rows = Seq::new(keys.len(), |i: int| (keys[i], Doc::Leaf(Tree::Str(h[keys[i]]))));
    if keys.len() > 0 {
        let front = keys.drop_last();
        let rest = Seq::new(front.len(), |i: int| (front[i], Doc::Leaf(Tree::Str(h[front[i]]))));
        lemma_text_rows(front, h);
        assert(rows.drop_last() =~= rest);
        assert(doc_tree(rows.last().1) == Tree::Str(h[keys.last()]));
        assert forall|k: Seq<char>|
            (#[trigger] doc_members(rows).contains_key(k) <==> keys.contains(k)) && (keys.contains(
                k,
            ) ==> doc_members(rows)[k] == Tree::Str(h[k])) by {
            crate::scopes::lemma_push_contains(front, keys.last(), k);
            assert(front.push(keys.last()) =~= keys);
            assert(doc_members(rest).contains_key(k) <==> front.contains(k));
        }
    }
}

proof fn lemma_strings_doc(h: Map<Seq<char>, Seq<char>>)
    requires
        h.dom().finite(),
    ensures
        doc_tree(strings_doc(h)) == strings_tree(h),
{
    let t = strings_tree(h)->Obj_0;
    let keys = key_order(t);
    assert(t.dom() =~= h.dom());
    crate::json::lemma_key_order_lists(t);
    lemma_text_rows(keys, h);
    let got = doc_members(strings_doc(h)->Table_0);
    assert forall|k: Seq<char>| #[trigger] got.dom().contains(k) == t.dom().contains(k) by {
        assert(got.contains_key(k) <==> keys.contains(k));
        assert(keys.contains(k) <==> t.contains_key(k));
    }
    assert(got =~= t);
}

proof fn lemma_target_rows(t: RawTarget)
    requires
        t.headers.dom().finite(),
    ensures
        doc_members(target_rows(t)) == target_members(t),
{
    let start = seq![
        ("endpoint"@, Doc::Leaf(Tree::Str(t.endpoint))),
        ("mode"@, Doc::Leaf(Tree::Str(t.mode))),
    ];
    reveal_with_fuel(doc_members, 3);
    assert(start.drop_last() =~= seq![start[0]]);
    assert(start.drop_last().drop_last() =~= Seq::<(Seq<char>, Doc)>::empty());
    let a = with_row(start, "projects"@, opt_list_doc(t.projects));
    let b = with_row(a, "exclude_projects"@, opt_list_doc(t.exclude));
    let timeout = match t.timeout {
        Some(n) => Some(Doc::Leaf(Tree::Num(nat_text(n as nat)))),
        None => None,
    };
    let c = with_row(b, "timeout_ms"@, timeout);
    if let Some(v) = t.projects {
        lemma_list_doc(v);
    }
    if let Some(v) = t.exclude {
        lemma_list_doc(v);
    }
    lemma_strings_doc(t.headers);
    lemma_row(start, "projects"@, opt_list_doc(t.projects));
    lemma_row(a, "exclude_projects"@, opt_list_doc(t.exclude));
    lemma_row(b, "timeout_ms"@, timeout);
    lemma_row(
        c,
        "headers"@,
        if t.headers == Map::<Seq<char>, Seq<char>>::empty() {
            None
        } else {
            Some(strings_doc(t.headers))
        },
    );
}

proof fn lemma_settings_doc(m: SettingsModel)
    requires
        storable(m),
    ensures
        doc_tree(settings_doc(m)) == settings_tree(m),
{
    let plugins = if m.plugins.len() == 0 {
        None
    } else {
        Some(list_doc(m.plugins))
    };
    let export = if m.export.len() == 0 {
        None
    } else {
        Some(Doc::List(target_docs(m.export)))
    };
    let none = Seq::<(Seq<char>, Doc)>::empty();
    lemma_list_doc(m.plugins);
    lemma_row(none, "plugins"@, plugins);
    lemma_row(with_row(none, "plugins"@, plugins), "export"@, export);
    let docs = target_docs(m.export);
    let want = Seq::new(m.export.len(), |i: int| Tree::Obj(target_members(m.export[i])));
    assert forall|i: int| 0 <= i < m.export.len() implies doc_tree(#[trigger] docs[i])
        == want[i] by {
        assert(storable_target(m.export[i]));
        lemma_target_rows(m.export[i]);
    }
    assert(doc_trees(docs) =~= want);
    assert(doc_tree(Doc::List(docs)) == Tree::Arr(want));
}

proof fn lemma_names()
    ensures
        "endpoint"@.len() == 8 && "mode"@.len() == 4 && "projects"@.len() == 8
            && "exclude_projects"@.len() == 16 && "timeout_ms"@.len() == 10 && "headers"@.len() == 7
            && "plugins"@.len() == 7 && "export"@.len() == 6,
        "endpoint"@[0] == 'e',
        "projects"@[0] == 'p',
{
    reveal_strlit("endpoint");
    reveal_strlit("mode");
    reveal_strlit("projects");
    reveal_strlit("exclude_projects");
    reveal_strlit("timeout_ms");
    reveal_strlit("headers");
    reveal_strlit("plugins");
    reveal_strlit("export");
}

proof fn lemma_list_round_trip(v: Seq<Seq<char>>, depth: nat)
    requires
        depth >= 1,
    ensures
        list_tree(v) matches Tree::Arr(items) && all_strings(items) && strings(items) == v,
        toml_plain(list_tree(v), depth),
{
    let t = list_tree(v)->Arr_0;
    assert(strings(t) =~= v);
    assert forall|i: int| 0 <= i < t.len() implies toml_plain(
        #[trigger] t[i],
        (depth - 1) as nat,
    ) by {
        assert(t[i] == Tree::Str(v[i]));
    }
}

proof fn lemma_ascending_is_sorted(v: Seq<Seq<char>>)
    requires
        ascending(v),
    ensures
        sorted_set(v) == v,
{
    crate::sorted::lemma_sorted_set(v);
    crate::sorted::lemma_ascending_unique(sorted_set(v), v);
}

proof fn lemma_target_round_trip(t: RawTarget)
    requires
        storable_target(t),
    ensures
        target_fault(Tree::Obj(target_members(t))) is None,
        target_of(Tree::Obj(target_members(t))) == t,
        toml_plain(Tree::Obj(target_members(t)), 18),
{
    lemma_names();
    let m = target_members(t);
    let fields = target_fields();
    if let Some(v) = t.projects {
        lemma_list_round_trip(v, 17);
        lemma_ascending_is_sorted(v);
    }
    if let Some(v) = t.exclude {
        lemma_list_round_trip(v, 17);
        lemma_ascending_is_sorted(v);
    }
    if let Some(n) = t.timeout {
        crate::decimal::law_print_then_read(n as nat);
        assert(nat_text(n as nat) == int_text(n as int));
        assert(crate::table::toml_integer(nat_text(n as nat)));
    }
    let h = strings_tree(t.headers)->Obj_0;
    assert(h.dom() =~= t.headers.dom());
    assert(string_map(h) =~= t.headers);
    assert(toml_plain(strings_tree(t.headers), 17)) by {
        assert forall|k: Seq<char>| #[trigger] h.contains_key(k) implies toml_plain(h[k], 16) by {
            assert(h[k] == Tree::Str(t.headers[k]));
        }
    }
    assert(slot(m, "endpoint"@) == Some(Tree::Str(t.endpoint)));
    assert(slot(m, "mode"@) == Some(Tree::Str(t.mode)));
    assert(slot(m, "projects"@) == opt_list_tree(t.projects));
    assert(slot(m, "exclude_projects"@) == opt_list_tree(t.exclude));
    assert(m.dom().finite());
    assert forall|k: Seq<char>| #[trigger] m.contains_key(k) implies fields.contains(k)
        && toml_plain(m[k], 17) by {
        assert(fields[0] == "endpoint"@);
        assert(fields[1] == "mode"@);
        assert(fields[2] == "projects"@);
        assert(fields[3] == "exclude_projects"@);
        assert(fields[4] == "timeout_ms"@);
        assert(fields[5] == "headers"@);
    }
    crate::json::lemma_key_order_lists(m);
    crate::registry::lemma_first_outside(key_order(m), fields);
    assert forall|i: int| 0 <= i < key_order(m).len() implies fields.contains(
        #[trigger] key_order(m)[i],
    ) by {
        assert(key_order(m).contains(key_order(m)[i]));
    }
    assert(target_of(Tree::Obj(m)) =~= t);
}

/// Writing and reading a configuration file are inverse: every section comes back with its
/// meaning, so a command that rewrites the file to change one section drops none of the others.
pub proof fn law_settings_round_trip(m: SettingsModel)
    requires
        storable(m),
    ensures
        doc_tree(settings_doc(m)) == settings_tree(m),
        settings_fault(settings_tree(m)) is None,
        settings_of(settings_tree(m)) == m,
        toml_plain(settings_tree(m), TOML_DEPTH as nat),
{
    lemma_settings_doc(m);
    lemma_names();
    let t = settings_tree(m)->Obj_0;
    let fields = settings_fields();
    lemma_list_round_trip(m.plugins, 19);
    let entries = Seq::new(m.export.len(), |i: int| Tree::Obj(target_members(m.export[i])));
    assert forall|i: int| 0 <= i < m.export.len() implies target_fault(#[trigger] entries[i]) is None
        && target_of(entries[i]) == m.export[i] && toml_plain(entries[i], 18) by {
        assert(storable_target(m.export[i]));
        lemma_target_round_trip(m.export[i]);
    }
    lemma_targets_fault(entries);
    assert(toml_plain(Tree::Arr(entries), 19));
    assert(t.dom().finite());
    assert forall|k: Seq<char>| #[trigger] t.contains_key(k) implies fields.contains(k)
        && toml_plain(t[k], 19) by {
        assert(fields[0] == "plugins"@);
        assert(fields[1] == "export"@);
    }
    crate::json::lemma_key_order_lists(t);
    crate::registry::lemma_first_outside(key_order(t), fields);
    assert forall|i: int| 0 <= i < key_order(t).len() implies fields.contains(
        #[trigger] key_order(t)[i],
    ) by {
        assert(key_order(t).contains(key_order(t)[i]));
    }
    if m.plugins.len() == 0 {
        assert(m.plugins =~= Seq::<Seq<char>>::empty());
    }
    if m.export.len() == 0 {
        assert(m.export =~= Seq::<RawTarget>::empty());
    }
    assert(settings_of(settings_tree(m)).export =~= m.export);
    assert(settings_of(settings_tree(m)).plugins =~= m.plugins);
}

proof fn lemma_targets_fault(v: Seq<Tree>)
    requires
        forall|i: int| 0 <= i < v.len() ==> target_fault(#[trigger] v[i]) is None,
    ensures
        targets_fault(v) is None,
    decreases v.len(),
{
    if v.len() > 0 {
        assert forall|i: int| 0 <= i < v.skip(1).len() implies target_fault(
            #[trigger] v.skip(1)[i],
        ) is None by {
            assert(v.skip(1)[i] == v[i + 1]);
        }
        lemma_targets_fault(v.skip(1));
        assert(target_fault(v[0]) is None);
    }
}

fn list_json(v: &Vec<String>) -> (r: Json)
    ensures
        json_doc(r) == list_doc(views(v@)),
{
    let mut out: Vec<Json> = Vec::new();
    let mut i: usize = 0;
    while i < v.len()
        invariant
            0 <= i <= v.len(),
            out.len() == i,
            forall|k: int|
                0 <= k < i ==> json_doc(#[trigger] out@[k]) == Doc::Leaf(Tree::Str(v@[k]@)),
        decreases v.len() - i,
    {
        out.push(Json::text(&v[i]));
        i = i + 1;
    }
    assert(json_docs(out@) =~= list_doc(views(v@))->List_0);
    Json::Array(out)
}

fn headers_json(h: &Headers) -> (r: Json)
    ensures
        json_doc(r) == strings_doc(h@),
{
    let names = h.names();
    let ghost all = views(names@);
    let ghost tree = strings_tree(h@)->Obj_0;
    proof {
        assert forall|k: Seq<char>| #[trigger] all.contains(k) <==> tree.contains_key(k) by {
            assert(all.contains(k) <==> h@.contains_key(k));
        }
        lemma_key_order(tree, all);
    }
    let mut out: Vec<(String, Json)> = Vec::new();
    let mut i: usize = 0;
    while i < names.len()
        invariant
            0 <= i <= names.len(),
            all == views(names@),
            lists(all, h@),
            out.len() == i,
            forall|k: int|
                0 <= k < i ==> (#[trigger] out@[k]).0@ == all[k] && json_doc(out@[k].1)
                    == Doc::Leaf(Tree::Str(h@[all[k]])),
        decreases names.len() - i,
    {
        proof {
            assert(all.contains(all[i as int]));
        }
        if let Some(v) = h.get(&names[i]) {
            out.push((owned(&names[i]), Json::text(v)));
        }
        i = i + 1;
    }
    assert(json_fields(out@) =~= strings_doc(h@)->Table_0);
    Json::Object(out)
}

fn push_row(m: &mut Vec<(String, Json)>, key: &str, value: Json)
    ensures
        json_fields(final(m)@) == json_fields(old(m)@).push((key@, json_doc(value))),
{
    let ghost held = m@;
    m.push((owned(key), value));
    assert(json_fields(m@) =~= json_fields(held).push((key@, json_doc(value))));
}

fn target_json(t: &ExportTargetRaw) -> (r: Json)
    ensures
        json_doc(r) == Doc::Table(target_rows(t.model())),
{
    let mut m: Vec<(String, Json)> = Vec::new();
    assert(json_fields(m@) =~= Seq::<(Seq<char>, Doc)>::empty());
    push_row(&mut m, "endpoint", Json::text(&t.endpoint));
    push_row(&mut m, "mode", Json::text(&t.mode));
    assert(json_fields(m@) =~= seq![
        ("endpoint"@, Doc::Leaf(Tree::Str(t.endpoint@))),
        ("mode"@, Doc::Leaf(Tree::Str(t.mode@))),
    ]);
    if let Some(v) = &t.projects {
        push_row(&mut m, "projects", list_json(v));
    }
    if let Some(v) = &t.exclude_projects {
        push_row(&mut m, "exclude_projects", list_json(v));
    }
    if let Some(n) = t.timeout_ms {
        push_row(&mut m, "timeout_ms", Json::natural(n));
    }
    if !t.headers.is_empty() {
        push_row(&mut m, "headers", headers_json(&t.headers));
    }
    Json::Object(m)
}

impl Settings {
    /// The file these settings are written as, its fields in their order.
    pub fn to_json(&self) -> (r: Json)
        ensures
            json_doc(r) == settings_doc(self.model()),
    {
        let mut m: Vec<(String, Json)> = Vec::new();
        assert(json_fields(m@) =~= Seq::<(Seq<char>, Doc)>::empty());
        assert(views(self.plugins@).len() == self.plugins.len());
        if self.plugins.len() > 0 {
            push_row(&mut m, "plugins", list_json(&self.plugins));
        }
        if self.export.len() > 0 {
            let mut list: Vec<Json> = Vec::new();
            let ghost models = raw_models(self.export@);
            let mut i: usize = 0;
            while i < self.export.len()
                invariant
                    0 <= i <= self.export.len(),
                    models == raw_models(self.export@),
                    list.len() == i,
                    forall|k: int|
                        0 <= k < i ==> json_doc(#[trigger] list@[k]) == Doc::Table(
                            target_rows(models[k]),
                        ),
                decreases self.export.len() - i,
            {
                assert(models[i as int] == self.export@[i as int].model());
                list.push(target_json(&self.export[i]));
                i = i + 1;
            }
            assert(json_docs(list@) =~= target_docs(models));
            push_row(&mut m, "export", Json::Array(list));
        }
        Json::Object(m)
    }

    /// The text of the file these settings are written as; always there where they are storable.
    pub fn to_toml(&self) -> (r: Result<String, Error>)
        ensures
            match toml_text(settings_doc(self.model())) {
                Ok(text) => r matches Ok(s) && s@ == text,
                Err(e) => r matches Err(x) && x.model() == ErrorModel::Io(
                    "serialize config: "@ + e,
                ),
            },
            storable(self.model()) ==> r is Ok,
    {
        proof {
            if storable(self.model()) {
                law_settings_round_trip(self.model());
            }
        }
        match write_toml(&self.to_json()) {
            Ok(s) => Ok(s),
            Err(e) => Err(Error::Io(crate::text::cat2("serialize config: ", &e))),
        }
    }

    /// The plugin files to load. A path that is spelled relatively is anchored to the directory of
    /// the configuration file, never to the working directory.
    pub fn plugin_paths(&self) -> (r: Vec<String>)
        ensures
            r@.len() == self.plugins@.len(),
            forall|i: int|
                0 <= i < self.plugins@.len() ==> (#[trigger] r@[i])@ == anchored(
                    self.source@,
                    self.plugins@[i]@,
                ),
    {
        let mut out: Vec<String> = Vec::new();
        let dir = crate::project::config_dir(&self.source);
        let mut i: usize = 0;
        while i < self.plugins.len()
            invariant
                0 <= i <= self.plugins.len(),
                opt_view(dir) == file_dir(self.source@),
                out.len() == i,
                forall|k: int|
                    0 <= k < i ==> (#[trigger] out@[k])@ == anchored(
                        self.source@,
                        self.plugins@[k]@,
                    ),
            decreases self.plugins.len() - i,
        {
            out.push(
                match &dir {
                    Some(d) => recorded_path(d, &self.plugins[i]),
                    None => owned(&self.plugins[i]),
                },
            );
            i = i + 1;
        }
        out
    }
}

/// The directory of a file's path; a bare name is in the empty one.
pub open spec fn file_dir(path: Seq<char>) -> Option<Seq<char>> {
    crate::project::any_parent(path)
}

/// A path as seen from the configuration file.
pub open spec fn anchored(source: Seq<char>, plugin: Seq<char>) -> Seq<char> {
    match file_dir(source) {
        Some(dir) => joined_path(dir, plugin),
        None => plugin,
    }
}

// ---------------------------------------------------------------------------------------------
// Reading
// ---------------------------------------------------------------------------------------------

fn read_set(m: &Vec<(String, Json)>, key: &str) -> (r: Result<Option<Vec<String>>, String>)
    ensures
        match r {
            Ok(v) => set_field(members(m@), key@) == Ok::<Option<Seq<Seq<char>>>, Seq<char>>(
                opt_list(v),
            ),
            Err(e) => set_field(members(m@), key@) == Err::<Option<Seq<Seq<char>>>, Seq<char>>(e@),
        },
{
    let at = find_member(m, key);
    if at < m.len() {
        match read_list(m, key, true) {
            Ok(v) => Ok(Some(sort_set(&v))),
            Err(e) => Err(e),
        }
    } else {
        Ok(None)
    }
}

fn read_string_map(m: &Vec<(String, Json)>) -> (r: Option<Headers>)
    ensures
        match r {
            Some(h) => string_members(members(m@)) && h@ == string_map(members(m@)),
            None => !string_members(members(m@)),
        },
{
    let keys = sorted_keys(m);
    let ghost all = views(keys@);
    let ghost tree = members(m@);
    let mut out = Headers::new();
    let mut i: usize = 0;
    assert(all.take(0) =~= Seq::<Seq<char>>::empty());
    while i < keys.len()
        invariant
            0 <= i <= keys.len(),
            all == views(keys@),
            tree == members(m@),
            lists_keys(all, tree),
            forall|k: Seq<char>| #[trigger]
                out@.contains_key(k) <==> all.take(i as int).contains(k),
            forall|k: Seq<char>| #[trigger]
                out@.contains_key(k) ==> tree[k] == Tree::Str(out@[k]),
        decreases keys.len() - i,
    {
        let ghost key = keys@[i as int]@;
        let ghost before = out@;
        proof {
            assert(all[i as int] == key);
            assert(all.contains(key));
            assert(all.take(i + 1) =~= all.take(i as int).push(key));
        }
        let at = find_member(m, &keys[i]);
        match &m[at].1 {
            Json::Str(s) => {
                out.insert(&keys[i], s);
            },
            _ => {
                assert(tree.contains_key(key) && !(tree[key] is Str));
                return None;
            },
        }
        proof {
            assert forall|k: Seq<char>| #[trigger]
                out@.contains_key(k) <==> all.take(i + 1).contains(k) by {
                crate::scopes::lemma_push_contains(all.take(i as int), key, k);
                assert(before.contains_key(k) <==> all.take(i as int).contains(k));
            }
            assert forall|k: Seq<char>| #[trigger] out@.contains_key(k) implies tree[k]
                == Tree::Str(out@[k]) by {
                if k != key {
                    assert(before.contains_key(k));
                }
            }
        }
        i = i + 1;
    }
    proof {
        assert(all.take(keys.len() as int) =~= all);
        assert forall|k: Seq<char>| #[trigger] tree.contains_key(k) implies tree[k] is Str by {
            assert(all.contains(k));
            assert(out@.contains_key(k));
        }
        assert forall|k: Seq<char>| #[trigger]
            out@.dom().contains(k) == string_map(tree).dom().contains(k) by {
            assert(out@.contains_key(k) <==> all.contains(k));
            assert(all.contains(k) <==> tree.contains_key(k));
        }
        assert(out@.dom() =~= string_map(tree).dom());
        assert(out@ =~= string_map(tree));
    }
    Some(out)
}

fn read_headers(m: &Vec<(String, Json)>) -> (r: Result<Headers, String>)
    ensures
        match r {
            Ok(h) => headers_field(members(m@)) == Ok::<Map<Seq<char>, Seq<char>>, Seq<char>>(h@),
            Err(e) => headers_field(members(m@)) == Err::<Map<Seq<char>, Seq<char>>, Seq<char>>(
                e@,
            ),
        },
{
    let at = find_member(m, "headers");
    if at < m.len() {
        match &m[at].1 {
            Json::Object(h) => match read_string_map(h) {
                Some(h) => Ok(h),
                None => Err(mistyped_text("headers", "a table of strings")),
            },
            _ => Err(mistyped_text("headers", "a table of strings")),
        }
    } else {
        Ok(Headers::new())
    }
}

fn field_names(list: &[&'static str]) -> (r: Vec<String>)
    ensures
        views(r@) == crate::claude_settings::names(list@),
{
    let mut out: Vec<String> = Vec::new();
    let mut i: usize = 0;
    while i < list.len()
        invariant
            0 <= i <= list.len(),
            out.len() == i,
            forall|k: int| 0 <= k < i ==> (#[trigger] out@[k])@ == list@[k]@,
        decreases list.len() - i,
    {
        out.push(owned(list[i]));
        i = i + 1;
    }
    assert(views(out@) =~= crate::claude_settings::names(list@));
    out
}

fn read_target(t: &Json) -> (r: Result<ExportTargetRaw, String>)
    ensures
        match r {
            Ok(x) => target_fault(t.view()) is None && x.model() == target_of(t.view()),
            Err(e) => target_fault(t.view()) == Some(e@),
        },
{
    match t {
        Json::Object(m) => {
            let allowed = field_names(
                &["endpoint", "mode", "projects", "exclude_projects", "timeout_ms", "headers"],
            );
            assert(views(allowed@) =~= target_fields());
            if let Some(e) = find_unknown(m, &allowed) {
                return Err(e);
            }
            let endpoint = match read_str(m, "endpoint") {
                Ok(v) => v,
                Err(e) => {
                    return Err(e);
                },
            };
            let mode = match read_str(m, "mode") {
                Ok(v) => v,
                Err(e) => {
                    return Err(e);
                },
            };
            let projects = match read_set(m, "projects") {
                Ok(v) => v,
                Err(e) => {
                    return Err(e);
                },
            };
            let exclude_projects = match read_set(m, "exclude_projects") {
                Ok(v) => v,
                Err(e) => {
                    return Err(e);
                },
            };
            let timeout_ms = match read_number(m, "timeout_ms") {
                Ok(v) => v,
                Err(e) => {
                    return Err(e);
                },
            };
            let headers = match read_headers(m) {
                Ok(v) => v,
                Err(e) => {
                    return Err(e);
                },
            };
            Ok(
                ExportTargetRaw { endpoint, mode, projects, exclude_projects, timeout_ms, headers },
            )
        },
        _ => Err(mistyped_text("export", "a list of tables")),
    }
}

fn read_targets(v: &Vec<Json>) -> (r: Result<Vec<ExportTargetRaw>, String>)
    ensures
        match r {
            Ok(x) => targets_fault(items(v@)) is None && raw_models(x@) == Seq::new(
                v@.len(),
                |i: int| target_of(items(v@)[i]),
            ),
            Err(e) => targets_fault(items(v@)) == Some(e@),
        },
{
    let ghost all = items(v@);
    let mut out: Vec<ExportTargetRaw> = Vec::new();
    let mut i: usize = 0;
    assert(all.skip(0) =~= all);
    while i < v.len()
        invariant
            0 <= i <= v.len(),
            all == items(v@),
            all.len() == v.len(),
            out.len() == i,
            targets_fault(all) == targets_fault(all.skip(i as int)),
            forall|k: int| 0 <= k < i ==> (#[trigger] out@[k]).model() == target_of(all[k]),
        decreases v.len() - i,
    {
        proof {
            assert(all.skip(i as int).skip(1) =~= all.skip(i + 1));
            assert(all[i as int] == v@[i as int].view());
        }
        match read_target(&v[i]) {
            Ok(x) => {
                out.push(x);
            },
            Err(e) => {
                return Err(e);
            },
        }
        i = i + 1;
    }
    assert(raw_models(out@) =~= Seq::new(v@.len(), |i: int| target_of(all[i])));
    Ok(out)
}

fn read_settings(t: &Json, path: &str) -> (r: Result<Settings, String>)
    ensures
        match r {
            Ok(s) => settings_fault(t.view()) is None && s.model() == settings_of(t.view())
                && s.source@ == path@,
            Err(e) => settings_fault(t.view()) == Some(e@),
        },
{
    match t {
        Json::Object(m) => {
            let allowed = field_names(&["plugins", "export"]);
            assert(views(allowed@) =~= settings_fields());
            if let Some(e) = find_unknown(m, &allowed) {
                return Err(e);
            }
            let plugins = match read_list(m, "plugins", false) {
                Ok(v) => v,
                Err(e) => {
                    return Err(e);
                },
            };
            let none: Vec<Json> = Vec::new();
            assert(items(none@) =~= Seq::<Tree>::empty());
            let at = find_member(m, "export");
            let read = if at < m.len() {
                match &m[at].1 {
                    Json::Array(v) => read_targets(v),
                    _ => Err(mistyped_text("export", "a list of tables")),
                }
            } else {
                read_targets(&none)
            };
            match read {
                Ok(export) => {
                    let s = Settings { plugins, export, source: owned(path) };
                    assert(s.model() =~= settings_of(t.view()));
                    Ok(s)
                },
                Err(e) => Err(e),
            }
        },
        _ => Err(owned("expected a table")),
    }
}

impl Settings {
    /// The configuration of no file at all.
    pub fn empty() -> (r: Settings)
        ensures
            r.model().plugins.len() == 0,
            r.model().export.len() == 0,
            r.source@.len() == 0,
    {
        Settings { plugins: Vec::new(), export: Vec::new(), source: String::new() }
    }

    /// Parse configuration text as if it were read from `path`. A key that the file does not have
    /// is an error: a misspelled section must not be dropped silently. A text that was written
    /// from settings reads back as those settings.
    pub fn parse(text: &str, path: &str) -> (r: Result<Settings, Error>)
        ensures
            match r {
                Ok(s) => parsed_settings(text@, path@) == Ok::<SettingsModel, ErrorModel>(s.model())
                    && s.source@ == path@,
                Err(e) => parsed_settings(text@, path@) == Err::<SettingsModel, ErrorModel>(
                    e.model(),
                ),
            },
            forall|m: SettingsModel|
                toml_text(#[trigger] settings_doc(m)) == Ok::<Seq<char>, Seq<char>>(text@)
                    && storable(m) ==> (r matches Ok(s) && s.model() == m),
    {
        match parse_document(text) {
            Ok(t) => {
                proof {
                    assert forall|m: SettingsModel|
                        toml_text(#[trigger] settings_doc(m)) == Ok::<Seq<char>, Seq<char>>(
                            text@,
                        ) && storable(m) implies settings_fault(t.view()) is None && settings_of(
                        t.view(),
                    ) == m by {
                        law_settings_round_trip(m);
                    }
                }
                match read_settings(&t, path) {
                    Ok(s) => Ok(s),
                    Err(e) => Err(Error::ConfigParse { path: owned(path), source: e }),
                }
            },
            Err(e) => {
                proof {
                    assert forall|m: SettingsModel|
                        toml_text(#[trigger] settings_doc(m)) == Ok::<Seq<char>, Seq<char>>(
                            text@,
                        ) implies !storable(m) by {
                        if storable(m) {
                            law_settings_round_trip(m);
                        }
                    }
                }
                Err(Error::ConfigParse { path: owned(path), source: e })
            },
        }
    }
}

} // verus!
