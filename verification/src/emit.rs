//! `emit`: one record written by hand. The payload is read from field pairs or a JSON object, and
//! the Kind's rules decide whether it is taken.
use vstd::prelude::*;
use crate::clock::now_iso_utc;
use crate::error::{debug_list, debug_str, show_list, show_str, Error};
use crate::json::{members, parse, parsed, set_member, sorted_keys, Json, Tree};
use crate::model::{envelope_at, enveloped, Envelope, Payload};
use crate::pii::disallowed;
use crate::registry::{
    find_kind, kind_models, kind_names, KindModel, KindSpec, Registry, RegistryModel,
};
use crate::seqs::{lemma_filter_none, lemma_filter_take};
use crate::text::{
    cat2, cat3, cat4, cat5, chars_of, halves, join, joined, list_contains, opt_str_view, opt_view,
    owned, split_once, string_of, views,
};

verus! {

broadcast use vstd::map::group_map_axioms;

// ---------------------------------------------------------------------------------------------
// Payloads
// ---------------------------------------------------------------------------------------------

pub open spec fn payload_agrees(
    r: Result<Payload, String>,
    want: Result<Map<Seq<char>, Tree>, Seq<char>>,
) -> bool {
    match (r, want) {
        (Ok(p), Ok(m)) => members(p@) == m,
        (Err(a), Err(b)) => a@ == b,
        _ => false,
    }
}

/// The payload of a JSON object text.
pub open spec fn object_of(s: Seq<char>) -> Result<Map<Seq<char>, Tree>, Seq<char>> {
    match parsed(s) {
        Ok(Tree::Obj(m)) => Ok(m),
        Ok(_) => Err("payload must be a JSON object"@),
        Err(e) => Err("invalid JSON: "@ + e),
    }
}

/// Read a payload from the text of a JSON object.
pub fn parse_json_object(s: &str) -> (r: Result<Payload, String>)
    ensures
        payload_agrees(r, object_of(s@)),
{
    match parse(s) {
        Ok(v) => match v {
            Json::Object(m) => Ok(m),
            _ => Err(owned("payload must be a JSON object")),
        },
        Err(e) => Err(cat2("invalid JSON: ", &e)),
    }
}

/// The key and the value of a field: `key=value` is a string, `key:=value` is JSON. The first
/// equals sign decides, so that a type is never guessed.
pub open spec fn pair_of(f: Seq<char>) -> Result<(Seq<char>, Tree), Seq<char>> {
    match halves(f, '=') {
        None => Err("field "@ + debug_str(f) + " must be key=value or key:=json"@),
        Some((head, raw)) => {
            let typed = head.len() > 0 && head.last() == ':';
            let key = if typed {
                head.drop_last()
            } else {
                head
            };
            if key.len() == 0 {
                Err("field "@ + debug_str(f) + " has an empty key"@)
            } else if typed {
                match parsed(raw) {
                    Ok(t) => Ok((key, t)),
                    Err(e) => Err(
                        "field "@ + debug_str(key) + ": invalid JSON value "@ + debug_str(raw)
                            + ": "@ + e,
                    ),
                }
            } else {
                Ok((key, Tree::Str(raw)))
            }
        },
    }
}

/// The payload of a list of fields; the first that cannot be read fails the whole.
pub open spec fn pairs_of(fields: Seq<Seq<char>>) -> Result<Map<Seq<char>, Tree>, Seq<char>>
    decreases fields.len(),
{
    if fields.len() == 0 {
        Ok(Map::empty())
    } else {
        match pairs_of(fields.drop_last()) {
            Err(e) => Err(e),
            Ok(m) => match pair_of(fields.last()) {
                Err(e) => Err(e),
                Ok(p) => Ok(m.insert(p.0, p.1)),
            },
        }
    }
}

proof fn lemma_pairs_fail_early(fields: Seq<Seq<char>>, n: int)
    requires
        0 <= n <= fields.len(),
        pairs_of(fields.take(n)) is Err,
    ensures
        pairs_of(fields) == pairs_of(fields.take(n)),
    decreases fields.len() - n,
{
    if n < fields.len() {
        assert(fields.take(n + 1).drop_last() =~= fields.take(n));
        lemma_pairs_fail_early(fields, n + 1);
    } else {
        assert(fields.take(n) =~= fields);
    }
}

fn read_pair(f: &str) -> (r: Result<(String, Json), String>)
    ensures
        match (r, pair_of(f@)) {
            (Ok(p), Ok(w)) => p.0@ == w.0 && p.1.view() == w.1,
            (Err(a), Err(b)) => a@ == b,
            _ => false,
        },
{
    let (head, raw) = match split_once(f, '=') {
        Some(p) => p,
        None => {
            return Err(cat3("field ", &show_str(f), " must be key=value or key:=json"));
        },
    };
    let v = chars_of(&head);
    let typed = v.len() > 0 && v[v.len() - 1] == ':';
    let key = if typed {
        let k = string_of(&v, 0, v.len() - 1);
        assert(k@ =~= head@.drop_last());
        k
    } else {
        owned(&head)
    };
    if key.as_str().is_empty() {
        return Err(cat3("field ", &show_str(f), " has an empty key"));
    }
    if typed {
        match parse(&raw) {
            Ok(v) => Ok((key, v)),
            Err(e) => {
                let head = cat5(
                    "field ",
                    &show_str(&key),
                    ": invalid JSON value ",
                    &show_str(&raw),
                    ": ",
                );
                Err(cat2(&head, &e))
            },
        }
    } else {
        Ok((key, Json::Str(raw)))
    }
}

/// Read a payload from field pairs.
pub fn parse_pairs(fields: &Vec<String>) -> (r: Result<Payload, String>)
    ensures
        payload_agrees(r, pairs_of(views(fields@))),
{
    let ghost all = views(fields@);
    let mut out: Payload = Vec::new();
    let mut i: usize = 0;
    assert(all.take(0) =~= Seq::<Seq<char>>::empty());
    assert(members(out@) =~= Map::empty());
    while i < fields.len()
        invariant
            0 <= i <= fields.len(),
            all == views(fields@),
            pairs_of(all.take(i as int)) == Ok::<Map<Seq<char>, Tree>, Seq<char>>(members(out@)),
        decreases fields.len() - i,
    {
        proof {
            assert(all.take(i + 1).drop_last() =~= all.take(i as int));
            assert(all.take(i + 1).last() == fields@[i as int]@);
        }
        match read_pair(&fields[i]) {
            Ok(p) => {
                set_member(&mut out, &p.0, p.1);
            },
            Err(e) => {
                proof {
                    lemma_pairs_fail_early(all, i + 1);
                }
                return Err(e);
            },
        }
        i = i + 1;
    }
    assert(all.take(fields.len() as int) =~= all);
    Ok(out)
}

/// The payload that a command line gives: an explicit object, else the field pairs, else the
/// object on the standard input.
pub open spec fn payload_of(
    fields: Seq<Seq<char>>,
    json: Option<Seq<char>>,
    input: Seq<char>,
) -> Result<Map<Seq<char>, Tree>, Seq<char>> {
    match json {
        Some(j) => object_of(j),
        None => if fields.len() > 0 {
            pairs_of(fields)
        } else {
            object_of(input)
        },
    }
}

/// Read the payload that a command line gives. `input` is the standard input, which counts only
/// where there is neither an object nor a field.
pub fn build_payload(fields: &Vec<String>, json: Option<&str>, input: &str) -> (r: Result<
    Payload,
    String,
>)
    ensures
        payload_agrees(r, payload_of(views(fields@), opt_str_view(json), input@)),
{
    match json {
        Some(j) => parse_json_object(j),
        None => if fields.len() > 0 {
            parse_pairs(fields)
        } else {
            parse_json_object(input)
        },
    }
}

// ---------------------------------------------------------------------------------------------
// Emission
// ---------------------------------------------------------------------------------------------

/// The refusal of a Kind that is not registered.
pub open spec fn unknown_kind(kind: Seq<char>, kinds: Seq<KindModel>) -> Seq<char> {
    "unknown kind "@ + debug_str(kind) + "; registered: "@ + joined(kind_names(kinds), ", "@)
}

/// The names of the registered Kinds.
pub fn registered(reg: &Registry) -> (r: Vec<String>)
    ensures
        views(r@) == kind_names(reg.model().kinds),
{
    let kinds = reg.kinds();
    let mut out: Vec<String> = Vec::new();
    let mut i: usize = 0;
    while i < kinds.len()
        invariant
            0 <= i <= kinds.len(),
            kind_models(kinds@) == reg.model().kinds,
            out.len() == i,
            forall|k: int|
                0 <= k < i ==> (#[trigger] out@[k])@ == kind_names(reg.model().kinds)[k],
        decreases kinds.len() - i,
    {
        assert(kind_models(kinds@)[i as int] == kinds@[i as int].model());
        out.push(owned(&kinds[i].name));
        i = i + 1;
    }
    assert(views(out@) =~= kind_names(reg.model().kinds));
    out
}

/// The message about a Kind that is not registered.
pub fn unknown_kind_message(kind: &str, reg: &Registry) -> (r: String)
    ensures
        r@ == unknown_kind(kind@, reg.model().kinds),
{
    let known = registered(reg);
    cat4("unknown kind ", &show_str(kind), "; registered: ", &join(&known, ", "))
}

/// Why a Kind cannot be emitted by hand: it is not registered, or the receiver is its one writer.
pub open spec fn emit_refusal(kind: Seq<char>, reg: RegistryModel) -> Option<Seq<char>> {
    match find_kind(reg.kinds, kind) {
        None => Some(unknown_kind(kind, reg.kinds)),
        Some(spec) => if spec.receiver_sourced {
            Some(
                debug_str(kind)
                    + " is receiver-sourced (written from native OTel) — it has a single writer and cannot be emitted by hand"@,
            )
        } else {
            None
        },
    }
}

/// Whether a Kind can be emitted by hand; asked before the payload is read.
pub fn check_kind(kind: &str, reg: &Registry) -> (r: Option<String>)
    ensures
        opt_view(r) == emit_refusal(kind@, reg.model()),
{
    match reg.kind(kind) {
        None => Some(unknown_kind_message(kind, reg)),
        Some(spec) => if spec.receiver_sourced {
            Some(
                cat2(
                    &show_str(kind),
                    " is receiver-sourced (written from native OTel) — it has a single writer and cannot be emitted by hand",
                ),
            )
        } else {
            None
        },
    }
}

/// The warning about fields that a Kind does not accept.
pub open spec fn emit_warning(
    kind: Seq<char>,
    spec: KindModel,
    payload: Map<Seq<char>, Tree>,
) -> Option<Seq<char>> {
    let unknown = disallowed(spec, payload);
    if unknown.len() == 0 {
        None
    } else {
        Some(
            kind + " does not accept "@ + debug_list(unknown) + " (dropped) — accepted fields: "@
                + joined(spec.fields, ", "@),
        )
    }
}

fn warning_of(kind: &str, spec: &KindSpec, payload: &Payload) -> (r: Option<String>)
    ensures
        opt_view(r) == emit_warning(kind@, spec.model(), members(payload@)),
{
    let keys = sorted_keys(payload);
    let ghost all = views(keys@);
    let ghost model = spec.model();
    let ghost p = |k: Seq<char>| !model.fields.contains(k);
    let mut unknown: Vec<String> = Vec::new();
    let mut i: usize = 0;
    proof {
        lemma_filter_none(all.take(0), p);
        assert(views(unknown@) =~= Seq::<Seq<char>>::empty());
    }
    while i < keys.len()
        invariant
            0 <= i <= keys.len(),
            all == views(keys@),
            model == spec.model(),
            p == (|k: Seq<char>| !model.fields.contains(k)),
            views(unknown@) == all.take(i as int).filter(p),
        decreases keys.len() - i,
    {
        proof {
            lemma_filter_take(all, i as int, p);
            assert(all[i as int] == keys@[i as int]@);
        }
        if !list_contains(&spec.fields, &keys[i]) {
            let ghost held = unknown@;
            unknown.push(owned(&keys[i]));
            assert(views(unknown@) =~= views(held).push(keys@[i as int]@));
        }
        i = i + 1;
    }
    assert(all.take(keys.len() as int) =~= all);
    assert(views(unknown@) == disallowed(model, members(payload@)));
    assert(views(unknown@).len() == unknown.len());
    if unknown.len() == 0 {
        None
    } else {
        Some(
            cat5(
                kind,
                " does not accept ",
                &show_list(&unknown),
                " (dropped) — accepted fields: ",
                &join(&spec.fields, ", "),
            ),
        )
    }
}

/// A record to write, and the warning about what was dropped from it.
#[derive(Debug)]
pub struct Emission {
    pub record: Envelope,
    pub warning: Option<String>,
}

/// An outcome is the record and the warning that the payload makes, or the refusal.
pub open spec fn emission_agrees(
    r: Result<Emission, String>,
    kind: Seq<char>,
    payload: Map<Seq<char>, Tree>,
    reg: RegistryModel,
    strict: bool,
    ts: Seq<char>,
) -> bool {
    match emit_refusal(kind, reg) {
        Some(reason) => r matches Err(e) && e@ == reason,
        None => match enveloped(kind, payload, reg, strict, ts) {
            Ok(record) => r matches Ok(done) && done.record.model() == record && opt_view(
                done.warning,
            ) == emit_warning(kind, find_kind(reg.kinds, kind)->0, payload),
            Err(want) => r matches Err(e) && exists|error: Error| #[trigger]
                error.model() == want && e@ == error.text(),
        },
    }
}

/// Make the record of an emission at a given time.
pub fn emit_at(kind: &str, payload: Payload, reg: &Registry, strict: bool, ts: String) -> (r: Result<
    Emission,
    String,
>)
    ensures
        emission_agrees(r, kind@, members(payload@), reg.model(), strict, ts@),
{
    if let Some(reason) = check_kind(kind, reg) {
        return Err(reason);
    }
    let warning = match reg.kind(kind) {
        Some(spec) => warning_of(kind, spec, &payload),
        None => None,
    };
    match envelope_at(kind, payload, reg, strict, ts) {
        Ok(record) => Ok(Emission { record, warning }),
        Err(e) => {
            let text = e.message();
            assert(e.model() == enveloped(
                kind@,
                members(payload@),
                reg.model(),
                strict,
                ts@,
            )->Err_0);
            Err(text)
        },
    }
}

/// Make the record of an emission now.
pub fn emit_record(kind: &str, payload: Payload, reg: &Registry, strict: bool) -> (r: Result<
    Emission,
    String,
>)
    ensures
        exists|ts: Seq<char>| #[trigger]
            emission_agrees(r, kind@, members(payload@), reg.model(), strict, ts),
{
    let ts = now_iso_utc();
    let ghost stamp = ts@;
    let r = emit_at(kind, payload, reg, strict, ts);
    assert(emission_agrees(r, kind@, members(payload@), reg.model(), strict, stamp));
    r
}

} // verus!
