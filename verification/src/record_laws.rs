//! What becomes of what is recorded: which line decides a session, what of a payload is stored, what
//! an event and a command line say.
use vstd::prelude::*;
use crate::claude_settings::slot;
use crate::clock::{instant, not_later};
use crate::emit::{emit_refusal, emit_warning, object_of, pair_of, pairs_of, payload_of};
use crate::error::{debug_str, ErrorModel};
use crate::hook::{
    binding_reads, bound_payload, derived, fired, mapped_members, repo_path, skill_of, started,
    wants_branch, with_branch,
};
use crate::json::{lemma_key_order_lists, parsed, Tree};
use crate::model::{envelope_of, envelope_shape, enveloped, EnvelopeModel};
use crate::pii::{disallowed, redaction, sanitized};
use crate::registry::{
    any_nonnull, base_name, bind_fault, bindings_of, field_fault, fields_fault, find_kind,
    first_outside, first_present, kind_names, lemma_first_outside, map_fault, mapped, name_char,
    raw_declared, raw_fault, valid_name, with_kind, BindingModel, KindModel, MapModel, RawModel,
    RegistryModel,
};
use crate::seqs::{lemma_filter_holds, lemma_filter_one};
use crate::session::{
    decided, deciding_line, index_line_of, index_shape, lines_of, read_index_line, session_line,
    LineModel, RowModel, SessionIndexCache,
};
use crate::shape::{fields_in_shape, in_shape, law_shaping_keeps_objects};
use crate::sink::{kind_of_file, ledger_kinds, row_record, second_before, window_text};
use crate::sorted::{ascending, lemma_sorted_set, sorted_set};
use crate::text::{joined, pieces};
use crate::text_laws::law_halves_stand_around_the_first;

verus! {

broadcast use vstd::map::group_map_axioms;

// ---------------------------------------------------------------------------------------------
// The session index
// ---------------------------------------------------------------------------------------------

/// A line of the index says the session, the key and the label that its members say, and the time
/// where it has one; a member that is missing or no text makes it no line, and other members make no
/// difference.
pub proof fn law_an_index_line_says_its_members(m: Map<Seq<char>, Tree>)
    ensures
        match index_line_of(Tree::Obj(m)) {
            Some(l) => {
                &&& slot(m, "session_id"@) == Some(Tree::Str(l.session))
                &&& slot(m, "project_key"@) == Some(Tree::Str(l.key))
                &&& slot(m, "project_label"@) == Some(Tree::Str(l.label))
                &&& slot(m, "ts"@) == Some(Tree::Str(l.ts)) || (!m.contains_key("ts"@)
                    && l.ts.len() == 0)
            },
            None => {
                ||| !(slot(m, "session_id"@) matches Some(Tree::Str(_)))
                ||| !(slot(m, "project_key"@) matches Some(Tree::Str(_)))
                ||| !(slot(m, "project_label"@) matches Some(Tree::Str(_)))
                ||| m.contains_key("ts"@) && !(slot(m, "ts"@) matches Some(Tree::Str(_)))
            },
        },
{
    reveal_with_fuel(fields_in_shape, 6);
    reveal_with_fuel(in_shape, 6);
    assert(in_shape(Tree::Obj(m), index_shape()));
    law_shaping_keeps_objects(Tree::Obj(m), index_shape());
}

/// The lines of two lots of texts are those of the first and then those of the second, and a text
/// that is no line leaves none.
pub proof fn law_index_lines_add_up(a: Seq<Seq<char>>, b: Seq<Seq<char>>, text: Seq<char>)
    ensures
        lines_of(a + b) == lines_of(a) + lines_of(b),
        lines_of(seq![text]) == match read_index_line(text) {
            Some(l) => seq![l],
            None => Seq::empty(),
        },
    decreases b.len(),
{
    let one = seq![text];
    assert(one.drop_last() =~= Seq::<Seq<char>>::empty());
    assert(lines_of(one.drop_last()) =~= Seq::<LineModel>::empty());
    assert(one.last() == text);
    if b.len() == 0 {
        assert(a + b =~= a);
        assert(lines_of(a) + lines_of(b) =~= lines_of(a));
    } else {
        law_index_lines_add_up(a, b.drop_last(), text);
        assert((a + b).drop_last() =~= a + b.drop_last());
        assert((a + b).last() == b.last());
        assert(lines_of(a + b) =~= lines_of(a) + lines_of(b));
    }
}

/// The line that decides a session is later than every line of it that stands behind, and not
/// earlier than any that stands before: of two at one instant the one that stands later decides.
pub proof fn law_of_two_at_one_instant_the_later_line_decides(
    lines: Seq<LineModel>,
    session: Seq<char>,
)
    ensures
        deciding_line(lines, session) matches Some(l) ==> exists|i: int|
            {
                &&& 0 <= i < lines.len()
                &&& #[trigger] lines[i] == l
                &&& l.session == session
                &&& forall|j: int|
                    0 <= j < i && (#[trigger] lines[j]).session == session ==> not_later(
                        instant(lines[j].ts),
                        instant(l.ts),
                    )
                &&& forall|j: int|
                    i < j < lines.len() && (#[trigger] lines[j]).session == session ==> !not_later(
                        instant(l.ts),
                        instant(lines[j].ts),
                    )
            },
    decreases lines.len(),
{
    if lines.len() > 0 {
        let init = lines.drop_last();
        let n = lines.len() - 1;
        law_of_two_at_one_instant_the_later_line_decides(init, session);
        crate::session::law_the_latest_line_decides(init, session);
        assert(lines[n] == lines.last());
        assert forall|j: int| 0 <= j < n implies #[trigger] lines[j] == init[j] by {}
        if let Some(l) = deciding_line(lines, session) {
            let rest = deciding_line(init, session);
            if lines.last().session == session && (rest matches Some(prev) ==> not_later(
                instant(prev.ts),
                instant(lines.last().ts),
            )) {
                assert(lines[n] == l);
                assert forall|j: int| 0 <= j < n && (#[trigger] lines[j]).session
                    == session implies not_later(instant(lines[j].ts), instant(l.ts)) by {
                    assert(lines[j] == init[j]);
                }
            } else {
                let i = choose|i: int|
                    {
                        &&& 0 <= i < init.len()
                        &&& #[trigger] init[i] == l
                        &&& l.session == session
                        &&& forall|j: int|
                            0 <= j < i && (#[trigger] init[j]).session == session ==> not_later(
                                instant(init[j].ts),
                                instant(l.ts),
                            )
                        &&& forall|j: int|
                            i < j < init.len() && (#[trigger] init[j]).session == session
                                ==> !not_later(instant(l.ts), instant(init[j].ts))
                    };
                assert(lines[i] == l);
                assert forall|j: int| 0 <= j < i && (#[trigger] lines[j]).session
                    == session implies not_later(instant(lines[j].ts), instant(l.ts)) by {
                    assert(lines[j] == init[j]);
                }
                assert forall|j: int| i < j < lines.len() && (#[trigger] lines[j]).session
                    == session implies !not_later(instant(l.ts), instant(lines[j].ts)) by {
                    if j < n {
                        assert(lines[j] == init[j]);
                    }
                }
            }
        }
    }
}

/// A session is decided by the row of its deciding line exactly where that names a project, or says
/// that there is none; a line with a key and no label leaves it open.
pub proof fn law_a_row_decides_where_it_says_something(
    lines: Seq<LineModel>,
    session: Seq<char>,
    r: RowModel,
)
    ensures
        decided(lines, session) == Some(r) <==> {
            &&& deciding_line(lines, session) matches Some(l) && l.key == r.key && l.label == r.label
            &&& r.label.len() > 0 || r.key.len() == 0
        },
{
    if let Some(l) = deciding_line(lines, session) {
        assert(l.key == r.key && l.label == r.label ==> (RowModel { key: l.key, label: l.label })
            == r);
    }
}

/// A session has a project exactly where its row has a label: the row of one without is known, and
/// names none.
pub proof fn law_a_project_has_a_label(index: SessionIndexCache, session: Seq<char>, r: RowModel)
    ensures
        index.project_row(session) == Some(r) <==> index.row(session) == Some(r) && r.label.len()
            > 0,
{
}

/// The line of a session says its project's key and label, and nothing where it has no project.
pub proof fn law_a_session_line_says_the_project(
    session: Seq<char>,
    project: Option<crate::project::ProjectModel>,
    ts: Seq<char>,
)
    ensures
        session_line(session, project, ts).session == session,
        session_line(session, project, ts).ts == ts,
        project matches Some(p) ==> session_line(session, project, ts).key == p.key && session_line(
            session,
            project,
            ts,
        ).label == p.label,
        project is None ==> session_line(session, project, ts).key.len() == 0 && session_line(
            session,
            project,
            ts,
        ).label.len() == 0,
{
}

// ---------------------------------------------------------------------------------------------
// Payloads
// ---------------------------------------------------------------------------------------------

/// What is stored of a payload is exactly what its Kind allows: every allowed member that it has, a
/// redacted one as the hash of its text and any other as it is, and nothing else.
pub proof fn law_all_that_is_allowed_is_stored(
    kind: KindModel,
    payload: Map<Seq<char>, Tree>,
    key: Seq<char>,
)
    ensures
        sanitized(kind, payload).contains_key(key) <==> payload.contains_key(key)
            && kind.fields.contains(key),
        payload.contains_key(key) && kind.fields.contains(key) && !kind.redact.contains(key)
            ==> sanitized(kind, payload)[key] == payload[key],
        payload.contains_key(key) && kind.fields.contains(key) && kind.redact.contains(key)
            ==> sanitized(kind, payload)[key] == Tree::Str(
            match payload[key] {
                Tree::Str(s) => redaction(s),
                other => redaction(crate::json::compact_text(other)),
            },
        ),
{
}

/// The members that a Kind does not allow are listed, each once and in order, and no other is.
pub proof fn law_what_is_not_allowed_is_named(
    kind: KindModel,
    payload: Map<Seq<char>, Tree>,
    key: Seq<char>,
)
    requires
        payload.dom().finite(),
    ensures
        disallowed(kind, payload).contains(key) <==> payload.contains_key(key)
            && !kind.fields.contains(key),
        ascending(disallowed(kind, payload)),
{
    let keys = crate::json::key_order(payload);
    lemma_key_order_lists(payload);
    let p = |k: Seq<char>| !kind.fields.contains(k);
    lemma_filter_holds(keys, p, key);
    assert(keys.contains(key) <==> payload.contains_key(key));
    lemma_filter_ascending(keys, p);
}

proof fn lemma_filter_ascending(s: Seq<Seq<char>>, p: spec_fn(Seq<char>) -> bool)
    requires
        ascending(s),
    ensures
        ascending(s.filter(p)),
    decreases s.len(),
{
    reveal(Seq::filter);
    if s.len() > 0 {
        let d = s.drop_last();
        assert forall|i: int, j: int| 0 <= i < j < d.len() implies crate::order::before(
            #[trigger] d[i],
            #[trigger] d[j],
        ) by {
            assert(d[i] == s[i] && d[j] == s[j]);
        }
        lemma_filter_ascending(d, p);
        let f = d.filter(p);
        let all = s.filter(p);
        assert forall|i: int, j: int| 0 <= i < j < all.len() implies crate::order::before(
            #[trigger] all[i],
            #[trigger] all[j],
        ) by {
            assert(all[i] == f[i]);
            if j < f.len() {
                assert(all[j] == f[j]);
            } else {
                lemma_filter_holds(d, p, f[i]);
                let k = d.index_of(f[i]);
                assert(s[k] == f[i]);
                assert(crate::order::before(s[k], s[s.len() - 1]));
            }
        }
    }
}

/// A record is made exactly where its Kind is registered and, in strict mode, nothing of the payload
/// is outside it. It has the time and the Kind that were given and what is stored of the payload;
/// otherwise the refusal names the Kind, or the members that are not allowed.
pub proof fn law_a_record_is_made_or_refused(
    kind: Seq<char>,
    payload: Map<Seq<char>, Tree>,
    reg: RegistryModel,
    strict: bool,
    ts: Seq<char>,
)
    ensures
        match enveloped(kind, payload, reg, strict, ts) {
            Ok(e) => {
                &&& find_kind(reg.kinds, kind) matches Some(spec) && e.payload == sanitized(
                    spec,
                    payload,
                ) && (strict ==> disallowed(spec, payload).len() == 0)
                &&& e.ts == ts
                &&& e.kind == kind
                &&& e.version == 1
            },
            Err(ErrorModel::UnknownKind(k)) => k == kind && find_kind(reg.kinds, kind) is None,
            Err(ErrorModel::DisallowedKeys(k, keys)) => {
                &&& strict
                &&& keys.len() > 0
                &&& find_kind(reg.kinds, kind) matches Some(spec) && k == spec.name && keys
                    == disallowed(spec, payload)
            },
            Err(_) => false,
        },
{
}

/// The Kind of a name is the first that has it, and there is none exactly where no Kind has it.
pub proof fn law_a_kind_is_found_by_its_name(kinds: Seq<KindModel>, name: Seq<char>)
    ensures
        match find_kind(kinds, name) {
            Some(k) => exists|i: int|
                0 <= i < kinds.len() && #[trigger] kinds[i] == k && k.name == name && forall|j: int|
                    0 <= j < i ==> (#[trigger] kinds[j]).name != name,
            None => forall|j: int| 0 <= j < kinds.len() ==> (#[trigger] kinds[j]).name != name,
        },
    decreases kinds.len(),
{
    if kinds.len() > 0 {
        if kinds[0].name == name {
            assert(kinds[0].name == name);
        } else {
            let rest = kinds.skip(1);
            law_a_kind_is_found_by_its_name(rest, name);
            match find_kind(rest, name) {
                Some(k) => {
                    let i = choose|i: int|
                        0 <= i < rest.len() && #[trigger] rest[i] == k && k.name == name && forall|
                            j: int,
                        |
                            0 <= j < i ==> (#[trigger] rest[j]).name != name;
                    assert(kinds[i + 1] == k);
                    assert forall|j: int| 0 <= j < i + 1 implies (#[trigger] kinds[j]).name
                        != name by {
                        if j > 0 {
                            assert(rest[j - 1] == kinds[j]);
                        }
                    }
                },
                None => {
                    assert forall|j: int| 0 <= j < kinds.len() implies (#[trigger] kinds[j]).name
                        != name by {
                        if j > 0 {
                            assert(rest[j - 1] == kinds[j]);
                        }
                    }
                },
            }
        }
    }
}

/// A record says the time, the Kind and the payload that its members say, and the version where it
/// states one, which is else the first; a record of a newer version is none.
pub proof fn law_a_record_says_its_members(m: Map<Seq<char>, Tree>, e: EnvelopeModel)
    ensures
        envelope_of(Tree::Obj(m)) == Some(e) <==> {
            &&& slot(m, "ts"@) == Some(Tree::Str(e.ts))
            &&& slot(m, "kind"@) == Some(Tree::Str(e.kind))
            &&& slot(m, "payload"@) == Some(Tree::Obj(e.payload))
            &&& e.version <= 1
            &&& match slot(m, "_schema_version"@) {
                Some(Tree::Num(n)) => crate::decimal::int_value(n) == Some(e.version as int),
                Some(_) => false,
                None => e.version == 1,
            }
        },
{
    reveal_with_fuel(fields_in_shape, 6);
    reveal_with_fuel(in_shape, 6);
    assert(in_shape(Tree::Obj(m), envelope_shape()));
    law_shaping_keeps_objects(Tree::Obj(m), envelope_shape());
}

/// The record of a stored row has the row's own time, Kind and version, and the object that its
/// payload is; a row of a newer version, or of another payload, is none.
pub proof fn law_a_stored_row_is_its_record(
    ts: Seq<char>,
    kind: Seq<char>,
    version: nat,
    payload: Seq<char>,
    e: EnvelopeModel,
)
    ensures
        row_record(ts, kind, version, payload) == Some(e) <==> {
            &&& e.ts == ts
            &&& e.kind == kind
            &&& e.version == version
            &&& version <= 1
            &&& parsed(payload) == Ok::<Tree, Seq<char>>(Tree::Obj(e.payload))
        },
{
    if let Ok(Tree::Obj(m)) = parsed(payload) {
        assert(e.ts == ts && e.kind == kind && e.version == version && e.payload == m ==> e
            == (EnvelopeModel { ts, kind, version, payload: m }));
    }
}

/// The ledgers of two lots of files are those of the first and then those of the second; a file that
/// is no ledger leaves none.
pub proof fn law_ledgers_add_up(a: Seq<Seq<char>>, b: Seq<Seq<char>>, file: Seq<char>)
    ensures
        ledger_kinds(a + b) == ledger_kinds(a) + ledger_kinds(b),
        ledger_kinds(seq![file]) == match kind_of_file(file) {
            Some(k) => seq![k],
            None => Seq::empty(),
        },
    decreases b.len(),
{
    let one = seq![file];
    assert(one.drop_last() =~= Seq::<Seq<char>>::empty());
    assert(ledger_kinds(one.drop_last()) =~= Seq::<Seq<char>>::empty());
    assert(one.last() == file);
    if b.len() == 0 {
        assert(a + b =~= a);
        assert(ledger_kinds(a) + ledger_kinds(b) =~= ledger_kinds(a));
    } else {
        law_ledgers_add_up(a, b.drop_last(), file);
        assert((a + b).drop_last() =~= a + b.drop_last());
        assert((a + b).last() == b.last());
        assert(ledger_kinds(a + b) =~= ledger_kinds(a) + ledger_kinds(b));
    }
}

/// The bound of a window is the second before it begins, so that no record of its first second is
/// missed; without a window there is no bound.
pub proof fn law_a_window_is_bounded_a_second_before(since: i64)
    requires
        since > i64::MIN,
    ensures
        second_before(since) == since - 1,
        second_before(i64::MIN) == i64::MIN,
        window_text(None).len() == 0,
        crate::clock::second_text((since - 1) as i64) matches Some(t) ==> window_text(Some(since))
            == t,
{
}

// ---------------------------------------------------------------------------------------------
// Command lines
// ---------------------------------------------------------------------------------------------

/// A field is cut at its first equals sign: `key=value` is that text, `key:=value` that JSON value,
/// and without an equals sign, or with an empty key, it is refused.
pub proof fn law_a_field_is_cut_at_its_first_equals_sign(key: Seq<char>, raw: Seq<char>)
    requires
        !key.contains('='),
    ensures
        key.len() > 0 && key.last() != ':' ==> pair_of(key + seq!['='] + raw) == Ok::<
            (Seq<char>, Tree),
            Seq<char>,
        >((key, Tree::Str(raw))),
        key.len() > 0 ==> match parsed(raw) {
            Ok(t) => pair_of(key.push(':') + seq!['='] + raw) == Ok::<(Seq<char>, Tree), Seq<char>>(
                (key, t),
            ),
            Err(_) => pair_of(key.push(':') + seq!['='] + raw) is Err,
        },
        pair_of(seq!['='] + raw) is Err,
        pair_of(seq![':', '='] + raw) is Err,
        pair_of(key) is Err,
{
    law_halves_stand_around_the_first(key + seq!['='] + raw, '=', key, raw);
    let typed = key.push(':');
    assert(!typed.contains('=')) by {
        if typed.contains('=') {
            let k = typed.index_of('=');
            if k < key.len() {
                assert(key[k] == '=');
            }
        }
    }
    assert(typed.drop_last() =~= key);
    law_halves_stand_around_the_first(typed + seq!['='] + raw, '=', typed, raw);
    let none = Seq::<char>::empty();
    assert(seq!['='] + raw =~= none + seq!['='] + raw);
    law_halves_stand_around_the_first(none + seq!['='] + raw, '=', none, raw);
    let colon = seq![':'];
    assert(seq![':', '='] + raw =~= colon + seq!['='] + raw);
    assert(!colon.contains('=')) by {
        assert(colon[0] == ':');
    }
    law_halves_stand_around_the_first(colon + seq!['='] + raw, '=', colon, raw);
    assert(colon.drop_last().len() == 0);
    law_halves_stand_around_the_first(key, '=', key, raw);
}

/// The payload of fields has every field that was given, and where one was given twice the later
/// value; the first field that cannot be read refuses them all.
pub proof fn law_fields_add_up(
    a: Seq<Seq<char>>,
    b: Seq<Seq<char>>,
    field: Seq<char>,
)
    ensures
        match (pairs_of(a), pairs_of(b)) {
            (Ok(x), Ok(y)) => pairs_of(a + b) == Ok::<Map<Seq<char>, Tree>, Seq<char>>(
                x.union_prefer_right(y),
            ),
            (Err(e), _) => pairs_of(a + b) == Err::<Map<Seq<char>, Tree>, Seq<char>>(e),
            (Ok(_), Err(e)) => pairs_of(a + b) == Err::<Map<Seq<char>, Tree>, Seq<char>>(e),
        },
        pairs_of(seq![field]) == match pair_of(field) {
            Ok(p) => Ok::<Map<Seq<char>, Tree>, Seq<char>>(map![p.0 => p.1]),
            Err(e) => Err(e),
        },
    decreases b.len(),
{
    let one = seq![field];
    assert(one.drop_last() =~= Seq::<Seq<char>>::empty());
    assert(pairs_of(one.drop_last()) == Ok::<Map<Seq<char>, Tree>, Seq<char>>(Map::empty()));
    assert(one.last() == field);
    if b.len() == 0 {
        assert(a + b =~= a);
        if let Ok(x) = pairs_of(a) {
            assert(x.union_prefer_right(Map::<Seq<char>, Tree>::empty()) =~= x);
        }
    } else {
        law_fields_add_up(a, b.drop_last(), field);
        assert((a + b).drop_last() =~= a + b.drop_last());
        assert((a + b).last() == b.last());
        if let Ok(x) = pairs_of(a) {
            if let Ok(y) = pairs_of(b.drop_last()) {
                if let Ok(p) = pair_of(b.last()) {
                    assert(x.union_prefer_right(y).insert(p.0, p.1) =~= x.union_prefer_right(
                        y.insert(p.0, p.1),
                    ));
                }
            }
        }
    }
}

/// An object that is given wins over fields, and fields over the standard input, which is not looked
/// at where either is there.
pub proof fn law_a_payload_comes_from_one_place(
    fields: Seq<Seq<char>>,
    json: Seq<char>,
    input: Seq<char>,
)
    ensures
        payload_of(fields, Some(json), input) == object_of(json),
        fields.len() > 0 ==> payload_of(fields, None, input) == pairs_of(fields),
        payload_of(Seq::empty(), None, input) == object_of(input),
        match parsed(json) {
            Ok(Tree::Obj(m)) => object_of(json) == Ok::<Map<Seq<char>, Tree>, Seq<char>>(m),
            _ => object_of(json) is Err,
        },
{
}

/// A Kind can be emitted by hand exactly where it is registered and not written by the receiver; an
/// unknown one is answered with the names of those that are known.
pub proof fn law_a_kind_is_emitted_where_a_hand_may_write_it(kind: Seq<char>, reg: RegistryModel)
    ensures
        emit_refusal(kind, reg) is None <==> (find_kind(reg.kinds, kind) matches Some(spec)
            && !spec.receiver_sourced),
        find_kind(reg.kinds, kind) is None ==> emit_refusal(kind, reg) == Some(
            "unknown kind "@ + debug_str(kind) + "; registered: "@ + joined(
                kind_names(reg.kinds),
                ", "@,
            ),
        ),
{
}

/// A warning is given exactly where something of a payload is not accepted.
pub proof fn law_a_warning_names_what_is_dropped(
    kind: Seq<char>,
    spec: KindModel,
    payload: Map<Seq<char>, Tree>,
)
    requires
        payload.dom().finite(),
    ensures
        emit_warning(kind, spec, payload) is Some <==> exists|k: Seq<char>| #[trigger]
            payload.contains_key(k) && !spec.fields.contains(k),
{
    let unknown = disallowed(spec, payload);
    if unknown.len() > 0 {
        law_what_is_not_allowed_is_named(spec, payload, unknown[0]);
        assert(unknown.contains(unknown[0]));
    }
    if exists|k: Seq<char>| #[trigger] payload.contains_key(k) && !spec.fields.contains(k) {
        let k = choose|k: Seq<char>| #[trigger] payload.contains_key(k) && !spec.fields.contains(k);
        law_what_is_not_allowed_is_named(spec, payload, k);
    }
}

// ---------------------------------------------------------------------------------------------
// Events
// ---------------------------------------------------------------------------------------------

/// A session starts exactly with an event of that name that has a session's id.
pub proof fn law_only_a_session_start_starts_a_session(m: Map<Seq<char>, Tree>, id: Seq<char>)
    ensures
        started(Tree::Obj(m)) == Some(id) <==> {
            &&& slot(m, "hook_event_name"@) == Some(Tree::Str("SessionStart"@))
            &&& slot(m, "session_id"@) == Some(Tree::Str(id))
            &&& id.len() > 0
        },
{
    reveal_strlit("SessionStart");
    assert("SessionStart"@.len() > 0);
}

/// An event fires the bindings of its name, all of them and in their order, and no other.
pub proof fn law_an_event_fires_its_bindings(
    m: Map<Seq<char>, Tree>,
    name: Seq<char>,
    reg: RegistryModel,
    i: int,
)
    requires
        slot(m, "hook_event_name"@) == Some(Tree::Str(name)),
        name.len() > 0,
        0 <= i < reg.bindings.len(),
    ensures
        fired(Tree::Obj(m), reg) == bindings_of(reg.bindings, name),
        fired(Tree::Obj(m), reg).contains(reg.bindings[i]) <==> reg.bindings[i].event == name,
{
    let p = |b: BindingModel| b.event == name;
    lemma_filter_holds(reg.bindings, p, reg.bindings[i]);
    assert(reg.bindings.contains(reg.bindings[i]));
}

/// The bindings of an event among two lists are those of the first and then those of the second.
pub proof fn law_bindings_add_up(
    a: Seq<BindingModel>,
    b: Seq<BindingModel>,
    one: BindingModel,
    event: Seq<char>,
)
    ensures
        bindings_of(a + b, event) == bindings_of(a, event) + bindings_of(b, event),
        bindings_of(seq![one], event) == if one.event == event {
            seq![one]
        } else {
            Seq::empty()
        },
{
    let p = |b: BindingModel| b.event == event;
    Seq::<BindingModel>::filter_distributes_over_add(a, b, p);
    reveal_with_fuel(Seq::filter, 2);
    let s = seq![one];
    assert(s.drop_last() =~= Seq::<BindingModel>::empty());
    assert(s.last() == one);
    assert(Seq::<BindingModel>::empty().push(one) =~= s);
}

/// An event without a name fires nothing.
pub proof fn law_an_event_without_a_name_fires_nothing(event: Tree, reg: RegistryModel)
    requires
        event matches Tree::Obj(m) ==> !(slot(m, "hook_event_name"@) matches Some(Tree::Str(name))
            && name.len() > 0),
    ensures
        fired(event, reg).len() == 0,
{
}

/// The branch is looked up exactly where the event is an object without one and a binding that it
/// fires reads it.
pub proof fn law_the_branch_is_looked_up_where_it_is_read(event: Tree, reg: RegistryModel)
    ensures
        wants_branch(event, reg) <==> {
            &&& event matches Tree::Obj(m) && !m.contains_key("git_branch"@)
            &&& exists|i: int, f: int, s: int|
                #![trigger fired(event, reg)[i], reads_at(fired(event, reg)[i], f, s, "git_branch"@)]
                0 <= i < fired(event, reg).len() && reads_at(
                    fired(event, reg)[i],
                    f,
                    s,
                    "git_branch"@,
                )
        },
{
    let all = fired(event, reg);
    if crate::hook::event_reads(event, reg, "git_branch"@) {
        let i = choose|i: int|
            0 <= i < all.len() && binding_reads(#[trigger] all[i], "git_branch"@);
        let f = choose|f: int|
            0 <= f < all[i].map.len() && ((#[trigger] all[i].map[f]).1.from matches Some(keys)
                && keys.contains("git_branch"@));
        let keys = all[i].map[f].1.from->0;
        let s = keys.index_of("git_branch"@);
        assert(keys[s] == "git_branch"@);
        assert(reads_at(all[i], f, s, "git_branch"@));
    }
    if exists|i: int, f: int, s: int|
        #![trigger fired(event, reg)[i], reads_at(fired(event, reg)[i], f, s, "git_branch"@)]
        0 <= i < fired(event, reg).len() && reads_at(fired(event, reg)[i], f, s, "git_branch"@) {
        let (i, f, s) = choose|i: int, f: int, s: int|
            #![trigger fired(event, reg)[i], reads_at(fired(event, reg)[i], f, s, "git_branch"@)]
            0 <= i < fired(event, reg).len() && reads_at(fired(event, reg)[i], f, s, "git_branch"@);
        let keys = all[i].map[f].1.from->0;
        assert(keys[s] == "git_branch"@);
        assert(keys.contains("git_branch"@));
        assert(binding_reads(all[i], "git_branch"@));
    }
}

/// A binding reads a member for one of its fields, among the sources of it.
pub open spec fn reads_at(b: BindingModel, f: int, s: int, key: Seq<char>) -> bool {
    &&& 0 <= f < b.map.len()
    &&& b.map[f].1.from matches Some(keys)
    &&& 0 <= s < keys.len()
    &&& keys[s] == key
}

/// An event gets its branch, and keeps everything else.
pub proof fn law_a_branch_is_put_into_an_event(m: Map<Seq<char>, Tree>, branch: Seq<char>)
    ensures
        with_branch(Tree::Obj(m), branch) matches Tree::Obj(n) && slot(n, "git_branch"@) == Some(
            Tree::Str(branch),
        ) && forall|k: Seq<char>| k != "git_branch"@ ==> #[trigger] slot(n, k) == slot(m, k),
{
}

/// Only a call of the skill tool invokes a skill, and it is the one that its input names.
pub proof fn law_a_skill_is_what_the_tool_was_called_with(
    m: Map<Seq<char>, Tree>,
    skill: Seq<char>,
)
    ensures
        skill_of(Tree::Obj(m)) == Some(skill) <==> {
            &&& slot(m, "tool_name"@) == Some(Tree::Str("Skill"@))
            &&& slot(m, "tool_input"@) matches Some(Tree::Obj(input)) && slot(input, "skill"@)
                == Some(Tree::Str(skill))
        },
{
}

/// What is told from an event: the skill that it invoked, and each of its three paths as it stands
/// in the repository; each only where the event has none of that name, and nothing else.
pub proof fn law_an_event_gains_what_can_be_told_from_it(
    m: Map<Seq<char>, Tree>,
    root: Option<Seq<char>>,
    key: Seq<char>,
)
    ensures
        derived(Tree::Obj(m), root) matches Tree::Obj(n) && (!m.contains_key(key) ==> slot(n, key)
            == {
            let value = if key == "invoked_skill"@ {
                skill_of(Tree::Obj(m))
            } else if key == "repo_file_path"@ {
                path_told(m, "file_path"@, root)
            } else if key == "repo_trigger_file_path"@ {
                path_told(m, "trigger_file_path"@, root)
            } else if key == "repo_parent_file_path"@ {
                path_told(m, "parent_file_path"@, root)
            } else {
                None
            };
            match value {
                Some(v) => Some(Tree::Str(v)),
                None => None,
            }
        }),
{
    reveal_strlit("invoked_skill");
    reveal_strlit("repo_file_path");
    reveal_strlit("repo_trigger_file_path");
    reveal_strlit("repo_parent_file_path");
    assert("invoked_skill"@.len() == 13 && "repo_file_path"@.len() == 14
        && "repo_trigger_file_path"@.len() == 22 && "repo_parent_file_path"@.len() == 21);
}

/// A path that a member names, as it stands in the repository.
pub open spec fn path_told(
    m: Map<Seq<char>, Tree>,
    member: Seq<char>,
    root: Option<Seq<char>>,
) -> Option<Seq<char>> {
    match slot(m, member) {
        Some(Tree::Str(path)) => Some(repo_path(path, root)),
        _ => None,
    }
}

/// A path outside the repository is told by its final component only.
pub proof fn law_a_path_outside_is_told_by_its_name(path: Seq<char>, root: Seq<char>)
    ensures
        !(root + "/"@).is_prefix_of(path) ==> repo_path(path, Some(root)) == base_name(path),
        repo_path(path, None) == base_name(path),
{
}

/// The final component of a path is what stands behind its last separator.
pub proof fn law_a_base_name_is_the_final_component(dir: Seq<char>, name: Seq<char>)
    requires
        name.len() > 0,
        !name.contains('/'),
        name != "."@,
        name != ".."@,
    ensures
        base_name(dir + seq!['/'] + name) == name,
        base_name(name) == name,
        base_name(dir + seq!['/'] + name + seq!['/']) == name,
{
    let keep = |p: Seq<char>| p.len() > 0 && p != "."@;
    assert(dir + seq!['/'] + name =~= dir.push('/') + name);
    crate::text::lemma_pieces_concat(dir, name, '/');
    crate::text::lemma_pieces_whole(name, '/');
    let all = pieces(dir, '/') + seq![name];
    Seq::<Seq<char>>::filter_distributes_over_add(pieces(dir, '/'), seq![name], keep);
    lemma_filter_one(name, keep);
    let f = pieces(dir, '/').filter(keep);
    assert((f + seq![name]).last() == name);
    assert(seq![name].last() == name);
    let closed = dir + seq!['/'] + name + seq!['/'];
    let nothing = Seq::<char>::empty();
    assert(closed =~= (dir.push('/') + name).push('/') + nothing);
    crate::text::lemma_pieces_concat(dir.push('/') + name, nothing, '/');
    assert(pieces(nothing, '/') =~= seq![nothing]);
    Seq::<Seq<char>>::filter_distributes_over_add(all, seq![nothing], keep);
    lemma_filter_one(nothing, keep);
    assert((f + seq![name]) + Seq::<Seq<char>>::empty() =~= f + seq![name]);
}

/// A path that ends in the directory above, or that has no component, has no final component of its
/// own: it is told as it is.
pub proof fn law_a_path_upwards_is_told_as_it_is(dir: Seq<char>)
    ensures
        base_name(dir + seq!['/'] + ".."@) == dir + seq!['/'] + ".."@,
        base_name(Seq::empty()) == Seq::<char>::empty(),
        base_name(seq!['/']) == seq!['/'],
{
    let keep = |p: Seq<char>| p.len() > 0 && p != "."@;
    let name = ".."@;
    reveal_strlit(".");
    reveal_strlit("..");
    assert("."@.len() == 1 && name.len() == 2);
    assert(!name.contains('/')) by {
        if name.contains('/') {
            assert(name[name.index_of('/')] == '/');
        }
    }
    assert(dir + seq!['/'] + name =~= dir.push('/') + name);
    crate::text::lemma_pieces_concat(dir, name, '/');
    crate::text::lemma_pieces_whole(name, '/');
    Seq::<Seq<char>>::filter_distributes_over_add(pieces(dir, '/'), seq![name], keep);
    lemma_filter_one(name, keep);
    let f = pieces(dir, '/').filter(keep);
    assert((f + seq![name]).last() == name);
    let nothing = Seq::<char>::empty();
    assert(pieces(nothing, '/') =~= seq![nothing]);
    lemma_filter_one(nothing, keep);
    crate::text::lemma_pieces_concat(nothing, nothing, '/');
    assert(nothing.push('/') + nothing =~= seq!['/']);
    Seq::<Seq<char>>::filter_distributes_over_add(seq![nothing], seq![nothing], keep);
}

/// The members that two lots of field maps take are those of the first with those of the second over
/// them; one field map takes what it maps to, or nothing.
pub proof fn law_mapped_members_add_up(
    a: Seq<(Seq<char>, MapModel)>,
    b: Seq<(Seq<char>, MapModel)>,
    one: (Seq<char>, MapModel),
    event: Tree,
)
    ensures
        mapped_members(a + b, event) == mapped_members(a, event).union_prefer_right(
            mapped_members(b, event),
        ),
        mapped_members(seq![one], event) == match mapped(one.1, event) {
            Some(v) => map![one.0 => v],
            None => Map::empty(),
        },
    decreases b.len(),
{
    let s = seq![one];
    assert(s.drop_last() =~= Seq::<(Seq<char>, MapModel)>::empty());
    assert(mapped_members(s.drop_last(), event) =~= Map::<Seq<char>, Tree>::empty());
    assert(s.last() == one);
    if b.len() == 0 {
        assert(a + b =~= a);
        assert(mapped_members(a, event).union_prefer_right(mapped_members(b, event))
            =~= mapped_members(a, event));
    } else {
        law_mapped_members_add_up(a, b.drop_last(), one, event);
        assert((a + b).drop_last() =~= a + b.drop_last());
        assert((a + b).last() == b.last());
        assert(mapped_members(a + b, event) =~= mapped_members(a, event).union_prefer_right(
            mapped_members(b, event),
        ));
    }
}

/// What a field map takes of an event: its constant, where it has one; whether a source is there and
/// not null; or of the first source that is there the value, its length, its final component or the
/// group of its pattern, the last three of a text only.
pub proof fn law_a_field_map_takes_what_it_says(
    m: MapModel,
    keys: Seq<Seq<char>>,
    event: Map<Seq<char>, Tree>,
    at: int,
)
    requires
        map_fault(m) is None,
        m.constant is None ==> m.from == Some(keys),
        m.constant is None && !m.present ==> 0 <= at < keys.len() && event.contains_key(keys[at])
            && forall|j: int| 0 <= j < at ==> !event.contains_key(#[trigger] keys[j]),
    ensures
        m.constant is Some ==> mapped(m, Tree::Obj(event)) == m.constant,
        m.present ==> mapped(m, Tree::Obj(event)) == Some(
            Tree::Bool(
                exists|j: int|
                    0 <= j < keys.len() && event.contains_key(#[trigger] keys[j]) && event[keys[j]]
                        != Tree::Null,
            ),
        ),
        m.constant is None && !m.present ==> mapped(m, Tree::Obj(event)) == {
            let value = event[keys[at]];
            if m.len {
                match value {
                    Tree::Str(s) => Some(Tree::Num(crate::decimal::nat_text(s.len()))),
                    _ => None,
                }
            } else if m.basename {
                match value {
                    Tree::Str(s) => Some(Tree::Str(base_name(s))),
                    _ => None,
                }
            } else if let Some(pattern) = m.capture {
                match value {
                    Tree::Str(s) => if crate::pattern::refusal(pattern) is None
                        && crate::pattern::group_one(pattern, s) is Some {
                        Some(Tree::Str(crate::pattern::group_one(pattern, s)->0))
                    } else {
                        None
                    },
                    _ => None,
                }
            } else {
                Some(value)
            }
        },
{
    let e = Tree::Obj(event);
    if m.constant is None && !m.present {
        lemma_first_present(e, keys, at);
    }
    if m.present {
        if any_nonnull(e, keys) {
            let j = choose|j: int|
                0 <= j < keys.len() && (crate::json::tree_get(e, #[trigger] keys[j]) matches Some(v)
                    && v != Tree::Null);
            assert(event.contains_key(keys[j]) && event[keys[j]] != Tree::Null);
        }
        if exists|j: int|
            0 <= j < keys.len() && event.contains_key(#[trigger] keys[j]) && event[keys[j]]
                != Tree::Null {
            let j = choose|j: int|
                0 <= j < keys.len() && event.contains_key(#[trigger] keys[j]) && event[keys[j]]
                    != Tree::Null;
            assert(crate::json::tree_get(e, keys[j]) == Some(event[keys[j]]));
        }
    }
}

proof fn lemma_first_present(event: Tree, keys: Seq<Seq<char>>, at: int)
    requires
        0 <= at < keys.len(),
        crate::json::tree_get(event, keys[at]) is Some,
        forall|j: int| 0 <= j < at ==> crate::json::tree_get(event, #[trigger] keys[j]) is None,
    ensures
        first_present(event, keys) == crate::json::tree_get(event, keys[at]),
    decreases keys.len(),
{
    if at > 0 {
        assert(crate::json::tree_get(event, keys[0]) is None);
        let rest = keys.skip(1);
        assert forall|j: int| 0 <= j < at - 1 implies crate::json::tree_get(
            event,
            #[trigger] rest[j],
        ) is None by {
            assert(rest[j] == keys[j + 1]);
        }
        assert(rest[at - 1] == keys[at]);
        lemma_first_present(event, rest, at - 1);
    }
}

/// A field map whose sources are all missing takes nothing.
pub proof fn law_a_missing_source_omits_the_field(
    m: MapModel,
    keys: Seq<Seq<char>>,
    event: Map<Seq<char>, Tree>,
)
    requires
        m.constant is None,
        !m.present,
        m.from == Some(keys),
        forall|j: int| 0 <= j < keys.len() ==> !event.contains_key(#[trigger] keys[j]),
    ensures
        mapped(m, Tree::Obj(event)) is None,
    decreases keys.len(),
{
    if keys.len() > 0 {
        assert(!event.contains_key(keys[0]));
        let rest = keys.skip(1);
        assert forall|j: int| 0 <= j < rest.len() implies !event.contains_key(
            #[trigger] rest[j],
        ) by {
            assert(rest[j] == keys[j + 1]);
        }
        let less = MapModel { from: Some(rest), ..m };
        law_a_missing_source_omits_the_field(less, rest, event);
    }
}

/// The payload of a binding has the project's label exactly where its Kind records a project, and
/// otherwise what the field maps take.
pub proof fn law_a_payload_has_the_label_where_the_kind_records_it(
    b: BindingModel,
    event: Tree,
    reg: RegistryModel,
    label: Seq<char>,
    key: Seq<char>,
)
    ensures
        ({
            let p = bound_payload(b, event, reg, label);
            let takes = find_kind(reg.kinds, b.kind) matches Some(k) && k.fields.contains(
                "project"@,
            );
            &&& takes ==> slot(p, "project"@) == Some(Tree::Str(label))
            &&& key != "project"@ || !takes ==> slot(p, key) == slot(
                mapped_members(b.map, event),
                key,
            )
        }),
{
}

// ---------------------------------------------------------------------------------------------
// Declarations
// ---------------------------------------------------------------------------------------------

/// A name is made of letters, digits, dots, underscores and hyphens of ASCII, and of at least one of
/// them; joining two names gives a name, and anything else in one spoils it.
pub proof fn law_a_name_is_made_of_plain_characters(a: Seq<char>, b: Seq<char>, c: char)
    ensures
        !valid_name(Seq::empty()),
        valid_name(seq![c]) <==> ('a' <= c <= 'z') || ('A' <= c <= 'Z') || ('0' <= c <= '9') || c
            == '.' || c == '_' || c == '-',
        a.len() > 0 && b.len() > 0 ==> (valid_name(a + b) <==> valid_name(a) && valid_name(b)),
{
    assert(seq![c][0] == c);
    if a.len() > 0 && b.len() > 0 {
        if valid_name(a + b) {
            assert forall|i: int| 0 <= i < a.len() implies name_char(#[trigger] a[i]) by {
                assert((a + b)[i] == a[i]);
            }
            assert forall|i: int| 0 <= i < b.len() implies name_char(#[trigger] b[i]) by {
                assert((a + b)[a.len() + i] == b[i]);
            }
        }
    }
}

/// A declaration is accepted exactly where its name is safe and all that it names, its group key,
/// what it redacts, its measures and its identity, is among its fields.
pub proof fn law_a_declaration_names_only_its_fields(raw: RawModel)
    ensures
        raw_fault(raw) is None <==> {
            &&& valid_name(raw.name)
            &&& raw.fields.contains(raw.group_key)
            &&& forall|i: int|
                0 <= i < raw.redact.len() ==> raw.fields.contains(#[trigger] raw.redact[i])
            &&& forall|i: int|
                0 <= i < raw.measures.len() ==> raw.fields.contains(#[trigger] raw.measures[i])
            &&& raw.identity matches Some(id) ==> raw.fields.contains(id)
        },
{
    let redact = sorted_set(raw.redact);
    lemma_sorted_set(raw.redact);
    lemma_first_outside(redact, raw.fields);
    lemma_first_outside(raw.measures, raw.fields);
    if forall|i: int| 0 <= i < raw.redact.len() ==> raw.fields.contains(#[trigger] raw.redact[i]) {
        assert forall|i: int| 0 <= i < redact.len() implies raw.fields.contains(
            #[trigger] redact[i],
        ) by {
            assert(redact.contains(redact[i]));
            assert(raw.redact.contains(redact[i]));
            let j = raw.redact.index_of(redact[i]);
            assert(raw.redact[j] == redact[i]);
        }
    }
    if first_outside(redact, raw.fields) is None {
        assert forall|i: int| 0 <= i < raw.redact.len() implies raw.fields.contains(
            #[trigger] raw.redact[i],
        ) by {
            assert(raw.redact.contains(raw.redact[i]));
            assert(redact.contains(raw.redact[i]));
            let j = redact.index_of(raw.redact[i]);
            assert(raw.fields.contains(redact[j]));
        }
    }
}

/// A declared Kind has the name, the group key, the measures and the identity that were declared,
/// and exactly the fields and the redacted fields; and no hand-made Kind is the receiver's.
pub proof fn law_a_kind_is_what_was_declared(raw: RawModel, field: Seq<char>)
    ensures
        ({
            let k = raw_declared(raw);
            &&& k.name == raw.name
            &&& k.group_key == raw.group_key
            &&& k.measures == raw.measures
            &&& k.identity == raw.identity
            &&& !k.receiver_sourced
            &&& k.fields.contains(field) <==> raw.fields.contains(field)
            &&& k.redact.contains(field) <==> raw.redact.contains(field)
            &&& ascending(k.fields)
            &&& ascending(k.redact)
        }),
{
    lemma_sorted_set(raw.fields);
    lemma_sorted_set(raw.redact);
}

/// A field map is accepted exactly where it asks for no two things, and has a source unless it is a
/// constant.
pub proof fn law_a_field_map_asks_for_one_thing(m: MapModel)
    ensures
        map_fault(m) is None <==> {
            &&& m.constant is Some || (m.from matches Some(keys) && keys.len() > 0)
            &&& m.capture is Some ==> !m.len && !m.present && !m.basename && m.constant is None
            &&& m.len ==> !m.present && !m.basename && m.constant is None
            &&& m.present ==> !m.basename && m.constant is None
            &&& m.basename ==> m.constant is None
        },
{
}

/// A field of a binding is accepted exactly where it is a field of the Kind other than the project,
/// its map is, and its pattern, where it has one, compiles and has a group.
pub proof fn law_a_field_of_a_binding_is_sound(
    kind: KindModel,
    event: Seq<char>,
    field: Seq<char>,
    m: MapModel,
)
    ensures
        field_fault(kind, event, field, m) is None <==> {
            &&& field != "project"@
            &&& kind.fields.contains(field)
            &&& map_fault(m) is None
            &&& m.capture matches Some(pattern) ==> crate::pattern::refusal(pattern) is None
                && crate::pattern::group_count(pattern) >= 2
        },
{
}

proof fn lemma_fields_fault(kind: KindModel, event: Seq<char>, map: Seq<(Seq<char>, MapModel)>)
    ensures
        fields_fault(kind, event, map) is None <==> forall|i: int|
            0 <= i < map.len() ==> field_fault(
                kind,
                event,
                (#[trigger] map[i]).0,
                map[i].1,
            ) is None,
    decreases map.len(),
{
    if map.len() > 0 {
        let rest = map.skip(1);
        lemma_fields_fault(kind, event, rest);
        if field_fault(kind, event, map[0].0, map[0].1) is None {
            if fields_fault(kind, event, rest) is None {
                assert forall|i: int| 0 <= i < map.len() implies field_fault(
                    kind,
                    event,
                    (#[trigger] map[i]).0,
                    map[i].1,
                ) is None by {
                    if i > 0 {
                        assert(rest[i - 1] == map[i]);
                    }
                }
            } else {
                let i = choose|i: int|
                    0 <= i < rest.len() && field_fault(
                        kind,
                        event,
                        (#[trigger] rest[i]).0,
                        rest[i].1,
                    ) is Some;
                assert(map[i + 1] == rest[i]);
            }
        }
    }
}

/// A binding is accepted exactly where its Kind is registered and a hook may write it, every field of
/// it is sound, and no other joins its event to its Kind.
pub proof fn law_a_binding_is_accepted_where_it_is_sound(reg: RegistryModel, b: BindingModel)
    ensures
        bind_fault(reg, b) is None <==> {
            &&& find_kind(reg.kinds, b.kind) matches Some(kind) && !kind.receiver_sourced && forall|
                i: int,
            |
                0 <= i < b.map.len() ==> field_fault(
                    kind,
                    b.event,
                    (#[trigger] b.map[i]).0,
                    b.map[i].1,
                ) is None
            &&& forall|i: int|
                0 <= i < reg.bindings.len() ==> !((#[trigger] reg.bindings[i]).event == b.event
                    && reg.bindings[i].kind == b.kind)
        },
{
    if let Some(kind) = find_kind(reg.kinds, b.kind) {
        lemma_fields_fault(kind, b.event, b.map);
    }
}

/// A registered Kind stands among the others, none of which goes or changes.
pub proof fn law_registering_a_kind_keeps_the_others(kinds: Seq<KindModel>, k: KindModel)
    ensures
        with_kind(kinds, k).to_multiset() == kinds.to_multiset().insert(k),
        with_kind(kinds, k).len() == kinds.len() + 1,
{
    let names = kind_names(kinds);
    crate::sorted::lemma_rank_bounds(names, k.name);
    let at = crate::sorted::rank_of(names, k.name);
    vstd::seq_lib::to_multiset_insert(kinds, at, k);
}

} // verus!
