//! The telemetry envelope: one record, one line of a ledger.
use vstd::prelude::*;
use crate::claude_settings::slot;
use crate::clock::now_iso_utc;
use crate::decimal::{int_text, int_value, nat_text, parse_int};
use crate::error::{Error, ErrorModel};
use crate::json::{
    dup_members, find_member, member_list, member_map, members, object_text, parse, parsed, plain,
    plain_members, show_number, write_object, Json, Tree, PLAIN_DEPTH,
};
use crate::pii::{disallowed, sanitize, sanitized};
use crate::registry::{find_kind, Registry, RegistryModel};
use crate::shape::{any, flat, lemma_flat, shape, shaped, Shape};
use crate::text::owned;

verus! {

broadcast use vstd::map::group_map_axioms;

/// The schema version carried on every envelope.
pub const SCHEMA_VERSION: u32 = 1;

/// A record payload: the members of an object.
pub type Payload = Vec<(String, Json)>;

/// One record.
#[derive(Debug)]
pub struct Envelope {
    pub ts: String,
    pub kind: String,
    pub schema_version: u32,
    pub payload: Payload,
}

/// What a record says.
#[verifier::ext_equal]
pub struct EnvelopeModel {
    pub ts: Seq<char>,
    pub kind: Seq<char>,
    pub version: nat,
    pub payload: Map<Seq<char>, Tree>,
}

/// The members of a record's line, in the order in which they are written.
pub open spec fn line_members(e: EnvelopeModel) -> Seq<(Seq<char>, Tree)> {
    seq![
        ("ts"@, Tree::Str(e.ts)),
        ("kind"@, Tree::Str(e.kind)),
        ("_schema_version"@, Tree::Num(nat_text(e.version))),
        ("payload"@, Tree::Obj(e.payload)),
    ]
}

/// The line of a record.
pub open spec fn line_text(e: EnvelopeModel) -> Seq<char> {
    object_text(line_members(e))
}

/// The schema version a tree states: 1 where it states none.
pub open spec fn stated_version(m: Map<Seq<char>, Tree>) -> Option<nat> {
    match slot(m, "_schema_version"@) {
        None => Some(1),
        Some(Tree::Num(t)) => match int_value(t) {
            Some(n) => if 0 <= n <= u32::MAX {
                Some(n as nat)
            } else {
                None
            },
            None => None,
        },
        Some(_) => None,
    }
}

/// The fields of a record, in the order in which a line may give them without their names.
pub open spec fn envelope_shape() -> Shape {
    any("ts", any("kind", any("_schema_version", any("payload", Shape::End))))
}

/// The record that a tree holds. One of a newer schema version than this is not a record: it is
/// skipped rather than misread.
pub open spec fn envelope_of(t: Tree) -> Option<EnvelopeModel> {
    match shaped(t, envelope_shape()) {
        Tree::Obj(m) => match (
            slot(m, "ts"@),
            slot(m, "kind"@),
            stated_version(m),
            slot(m, "payload"@),
        ) {
            (
                Some(Tree::Str(ts)),
                Some(Tree::Str(kind)),
                Some(version),
                Some(Tree::Obj(payload)),
            ) => if version <= SCHEMA_VERSION {
                Some(EnvelopeModel { ts, kind, version, payload })
            } else {
                None
            },
            _ => None,
        },
        _ => None,
    }
}

/// The record of a line.
pub open spec fn read_line(line: Seq<char>) -> Option<EnvelopeModel> {
    match parsed(line) {
        Ok(t) => envelope_of(t),
        Err(_) => None,
    }
}

/// A record whose line reads back as itself: of a known version, its payload without fractional
/// numbers and reserved keys, and not nested too deep.
pub open spec fn writable(e: EnvelopeModel) -> bool {
    e.version <= SCHEMA_VERSION && plain(Tree::Obj(e.payload), PLAIN_DEPTH as nat)
}

impl Envelope {
    pub open spec fn model(self) -> EnvelopeModel {
        EnvelopeModel {
            ts: self.ts@,
            kind: self.kind@,
            version: self.schema_version as nat,
            payload: members(self.payload@),
        }
    }

    /// Write the record as one line.
    pub fn to_json_line(&self) -> (r: String)
        ensures
            r@ == line_text(self.model()),
            crate::json::one_line(r@),
    {
        let mut m: Vec<(String, Json)> = Vec::new();
        m.push((owned("ts"), Json::text(&self.ts)));
        m.push((owned("kind"), Json::text(&self.kind)));
        m.push((owned("_schema_version"), Json::natural(self.schema_version as u64)));
        m.push((owned("payload"), Json::Object(dup_members(&self.payload))));
        assert(member_list(m@) =~= line_members(self.model()));
        write_object(&m)
    }

    /// Read a record from a tree.
    pub fn from_json(t: &Json) -> (r: Option<Envelope>)
        ensures
            match r {
                Some(e) => envelope_of(t.view()) == Some(e.model()),
                None => envelope_of(t.view()) is None,
            },
    {
        let fields = any("ts", any("kind", any("_schema_version", any("payload", Shape::End))));
        let m = match shape(t, &fields) {
            Json::Object(m) => m,
            _ => {
                return None;
            },
        };
        let version = match read_version(&m) {
            Some(v) => v,
            None => {
                return None;
            },
        };
        let ts_at = find_member(&m, "ts");
        let kind_at = find_member(&m, "kind");
        let payload_at = find_member(&m, "payload");
        if ts_at >= m.len() || kind_at >= m.len() || payload_at >= m.len() || version
            > SCHEMA_VERSION {
            return None;
        }
        match (&m[ts_at].1, &m[kind_at].1, &m[payload_at].1) {
            (Json::Str(ts), Json::Str(kind), Json::Object(payload)) => Some(
                Envelope {
                    ts: owned(ts),
                    kind: owned(kind),
                    schema_version: version,
                    payload: dup_members(payload),
                },
            ),
            _ => None,
        }
    }

    /// Read a record from its line; a malformed line, or one of a newer schema version, yields
    /// nothing. A line that was written from a writable record yields that record.
    ///
    /// The line is read as a JSON value first: every member is judged, also one that a record does
    /// not have, and where a member is repeated its last value counts.
    pub fn from_json_line(line: &str) -> (r: Option<Envelope>)
        ensures
            match r {
                Some(e) => read_line(line@) == Some(e.model()),
                None => read_line(line@) is None,
            },
            forall|e: EnvelopeModel|
                line@ == #[trigger] line_text(e) && writable(e) ==> (r matches Some(got)
                    && got.model() == e),
    {
        match parse(line) {
            Ok(t) => {
                proof {
                    assert forall|e: EnvelopeModel|
                        line@ == #[trigger] line_text(e) && writable(e) implies envelope_of(
                        t.view(),
                    ) == Some(e) by {
                        lemma_line_round_trip(e);
                        assert(t.view() == Tree::Obj(member_map(line_members(e))));
                    }
                }
                Envelope::from_json(&t)
            },
            Err(_) => {
                proof {
                    assert forall|e: EnvelopeModel|
                        line@ == #[trigger] line_text(e) implies !writable(e) by {
                        if writable(e) {
                            lemma_line_round_trip(e);
                        }
                    }
                }
                None
            },
        }
    }
}

proof fn lemma_line_round_trip(e: EnvelopeModel)
    requires
        writable(e),
    ensures
        plain_members(line_members(e)),
        envelope_of(Tree::Obj(member_map(line_members(e)))) == Some(e),
{
    let m = line_members(e);
    crate::json::lemma_reserved_key();
    reveal_strlit("ts");
    reveal_strlit("kind");
    reveal_strlit("_schema_version");
    reveal_strlit("payload");
    assert("ts"@.len() == 2 && "kind"@.len() == 4 && "_schema_version"@.len() == 15
        && "payload"@.len() == 7);
    crate::decimal::law_print_then_read(e.version);
    assert(nat_text(e.version) == int_text(e.version as int));
    assert(crate::json::integer_text(nat_text(e.version)));
    assert(m.drop_last() =~= seq![m[0], m[1], m[2]]);
    assert(m.drop_last().drop_last() =~= seq![m[0], m[1]]);
    assert(m.drop_last().drop_last().drop_last() =~= seq![m[0]]);
    assert(m.drop_last().drop_last().drop_last().drop_last() =~= Seq::<(Seq<char>, Tree)>::empty());
    reveal_with_fuel(member_map, 5);
    let map = member_map(m);
    assert(map == Map::<Seq<char>, Tree>::empty().insert("ts"@, Tree::Str(e.ts)).insert(
        "kind"@,
        Tree::Str(e.kind),
    ).insert("_schema_version"@, Tree::Num(nat_text(e.version))).insert(
        "payload"@,
        Tree::Obj(e.payload),
    ));
    reveal_with_fuel(flat, 5);
    lemma_flat(map, envelope_shape());
    assert(slot(map, "ts"@) == Some(Tree::Str(e.ts)));
    assert(slot(map, "kind"@) == Some(Tree::Str(e.kind)));
    assert(slot(map, "_schema_version"@) == Some(Tree::Num(nat_text(e.version))));
    assert(slot(map, "payload"@) == Some(Tree::Obj(e.payload)));
    assert forall|i: int| 0 <= i < m.len() implies plain(
        (#[trigger] m[i]).1,
        PLAIN_DEPTH as nat,
    ) by {
        if i == 0 {
        } else if i == 1 {
        } else if i == 2 {
        } else {
            assert(m[i].1 == Tree::Obj(e.payload));
        }
    }
}

fn read_version(m: &Vec<(String, Json)>) -> (r: Option<u32>)
    ensures
        match r {
            Some(v) => stated_version(members(m@)) == Some(v as nat),
            None => stated_version(members(m@)) is None,
        },
{
    let at = find_member(m, "_schema_version");
    if at < m.len() {
        match &m[at].1 {
            Json::Number(n) => match parse_int(&show_number(n)) {
                Some(x) => if 0 <= x && x <= u32::MAX as i128 {
                    Some(x as u32)
                } else {
                    None
                },
                None => None,
            },
            _ => None,
        }
    } else {
        Some(1)
    }
}

/// The record that a payload makes, or why it is refused.
pub open spec fn enveloped(
    kind: Seq<char>,
    payload: Map<Seq<char>, Tree>,
    reg: RegistryModel,
    strict: bool,
    ts: Seq<char>,
) -> Result<EnvelopeModel, ErrorModel> {
    match find_kind(reg.kinds, kind) {
        None => Err(ErrorModel::UnknownKind(kind)),
        Some(spec) => if strict && disallowed(spec, payload).len() > 0 {
            Err(ErrorModel::DisallowedKeys(spec.name, disallowed(spec, payload)))
        } else {
            Ok(
                EnvelopeModel {
                    ts,
                    kind,
                    version: SCHEMA_VERSION as nat,
                    payload: sanitized(spec, payload),
                },
            )
        },
    }
}

/// Whether an outcome is the wanted record or the wanted error.
pub open spec fn envelope_agrees(
    r: Result<Envelope, Error>,
    want: Result<EnvelopeModel, ErrorModel>,
) -> bool {
    match r {
        Ok(e) => want == Ok::<EnvelopeModel, ErrorModel>(e.model()),
        Err(e) => want == Err::<EnvelopeModel, ErrorModel>(e.model()),
    }
}

/// Build a record at a given time: the payload is filtered to the Kind's allow-list and its
/// redacted fields are hashed before the record is stamped.
pub fn envelope_at(
    kind: &str,
    payload: Payload,
    reg: &Registry,
    strict: bool,
    ts: String,
) -> (r: Result<Envelope, Error>)
    ensures
        envelope_agrees(r, enveloped(kind@, members(payload@), reg.model(), strict, ts@)),
{
    match reg.kind(kind) {
        Some(spec) => match sanitize(spec, payload, strict) {
            Ok(payload) => Ok(
                Envelope { ts, kind: owned(kind), schema_version: SCHEMA_VERSION, payload },
            ),
            Err(e) => Err(e),
        },
        None => Err(Error::UnknownKind(owned(kind))),
    }
}

/// Build a record that is stamped with the current time.
pub fn make_envelope(kind: &str, payload: Payload, reg: &Registry, strict: bool) -> (r: Result<
    Envelope,
    Error,
>)
    ensures
        exists|ts: Seq<char>| #[trigger]
            envelope_agrees(r, enveloped(kind@, members(payload@), reg.model(), strict, ts)),
{
    let ts = now_iso_utc();
    let ghost stamp = ts@;
    let r = envelope_at(kind, payload, reg, strict, ts);
    assert(envelope_agrees(r, enveloped(kind@, members(payload@), reg.model(), strict, stamp)));
    r
}

} // verus!
