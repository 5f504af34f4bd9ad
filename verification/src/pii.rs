//! Privacy: the allow-list keeps every undeclared key out, and redacted fields are hashed.
use vstd::prelude::*;
use crate::error::{Error, ErrorModel};
use crate::json::{
    compact, compact_text, dup, find_member, key_order, lists_keys, members, set_member,
    sorted_keys, Json, Tree,
};
use crate::registry::{KindModel, KindSpec};
use crate::seqs::{lemma_filter_none, lemma_filter_take};
use crate::text::{chars_of, list_contains, owned, string_of, views};

verus! {

broadcast use vstd::map::group_map_axioms;

/// The lower-case hexadecimal BLAKE3 hash of a text's UTF-8 bytes.
pub uninterp spec fn blake3_hex(text: Seq<char>) -> Seq<char>;

/// One of `0` to `9` or `a` to `f`.
pub open spec fn hex_digit(c: char) -> bool {
    ('0' <= c <= '9') || ('a' <= c <= 'f')
}

/// `blake3::hash` and `to_hex`: 64 lower-case hexadecimal digits.
#[verifier::external_body]
pub(crate) fn hash_hex(text: &str) -> (r: String)
    ensures
        r@ == blake3_hex(text@),
        r@.len() == 64,
        forall|i: int| 0 <= i < 64 ==> hex_digit(#[trigger] r@[i]),
{
    blake3::hash(text.as_bytes()).to_hex().to_string()
}

/// The stored form of a redacted text: the first 16 digits of its hash.
pub open spec fn redaction(text: Seq<char>) -> Seq<char> {
    blake3_hex(text).take(16)
}

/// Hash an identifier: a short, stable digest by which records can be correlated.
pub fn redacted(raw: &str) -> (r: String)
    ensures
        r@ == redaction(raw@),
        r@.len() == 16,
        forall|i: int| 0 <= i < 16 ==> hex_digit(#[trigger] r@[i]),
{
    let v = chars_of(&hash_hex(raw));
    let out = string_of(&v, 0, 16);
    assert(out@ =~= redaction(raw@));
    out
}

/// The text that a value is hashed as: a string itself, anything else as it is printed.
pub open spec fn plain_text(t: Tree) -> Seq<char> {
    match t {
        Tree::Str(s) => s,
        _ => compact_text(t),
    }
}

/// The text of a value: a string itself, anything else as it is printed.
pub fn value_text(v: &Json) -> (r: String)
    ensures
        r@ == plain_text(v.view()),
{
    match v {
        Json::Str(s) => owned(s),
        _ => compact(v),
    }
}

/// What is stored of an allowed field.
pub open spec fn stored_value(kind: KindModel, key: Seq<char>, value: Tree) -> Tree {
    if kind.redact.contains(key) {
        Tree::Str(redaction(plain_text(value)))
    } else {
        value
    }
}

/// The payload that is stored: the allowed keys, the redacted ones hashed.
pub open spec fn sanitized(kind: KindModel, payload: Map<Seq<char>, Tree>) -> Map<Seq<char>, Tree> {
    Map::new(
        |k: Seq<char>| payload.contains_key(k) && kind.fields.contains(k),
        |k: Seq<char>| stored_value(kind, k, payload[k]),
    )
}

/// The keys outside the allow-list, ascending.
pub open spec fn disallowed(kind: KindModel, payload: Map<Seq<char>, Tree>) -> Seq<Seq<char>> {
    key_order(payload).filter(|k: Seq<char>| !kind.fields.contains(k))
}

/// Keep only the allowed keys, hashing those that are declared redacted. In strict mode a key
/// outside the allow-list is an error; otherwise it is dropped.
pub fn sanitize(spec: &KindSpec, payload: Vec<(String, Json)>, strict: bool) -> (r: Result<
    Vec<(String, Json)>,
    Error,
>)
    ensures
        ({
            let rejected = disallowed(spec.model(), members(payload@));
            if strict && rejected.len() > 0 {
                r matches Err(e) && e.model() == ErrorModel::DisallowedKeys(spec.name@, rejected)
            } else {
                r matches Ok(p) && members(p@) == sanitized(spec.model(), members(payload@))
            }
        }),
{
    let keys = sorted_keys(&payload);
    let ghost all = views(keys@);
    let ghost kind = spec.model();
    let ghost tree = members(payload@);
    let ghost outside = |k: Seq<char>| !kind.fields.contains(k);
    let mut out: Vec<(String, Json)> = Vec::new();
    let mut rejected: Vec<String> = Vec::new();
    let mut i: usize = 0;
    proof {
        lemma_filter_none(all, outside);
        assert(views(rejected@) =~= Seq::<Seq<char>>::empty());
    }
    while i < keys.len()
        invariant
            0 <= i <= keys.len(),
            all == views(keys@),
            kind == spec.model(),
            tree == members(payload@),
            lists_keys(all, tree),
            all == key_order(tree),
            outside == (|k: Seq<char>| !kind.fields.contains(k)),
            views(rejected@) == all.take(i as int).filter(outside),
            forall|k: Seq<char>| #[trigger]
                members(out@).contains_key(k) <==> all.take(i as int).contains(k)
                    && kind.fields.contains(k),
            forall|k: Seq<char>| #[trigger]
                members(out@).contains_key(k) ==> members(out@)[k] == stored_value(
                    kind,
                    k,
                    tree[k],
                ),
        decreases keys.len() - i,
    {
        let ghost key = keys@[i as int]@;
        proof {
            lemma_filter_take(all, i as int, outside);
            assert(all[i as int] == key);
            assert(all.contains(key));
            assert(all.take(i + 1) =~= all.take(i as int).push(key));
            assert forall|k: Seq<char>| #[trigger]
                all.take(i + 1).contains(k) <==> all.take(i as int).contains(k) || k == key by {
                crate::scopes::lemma_push_contains(all.take(i as int), key, k);
            }
        }
        let at = find_member(&payload, &keys[i]);
        if list_contains(&spec.fields, &keys[i]) {
            let value = if list_contains(&spec.redact, &keys[i]) {
                Json::Str(redacted(&value_text(&payload[at].1)))
            } else {
                dup(&payload[at].1)
            };
            set_member(&mut out, &keys[i], value);
        } else {
            let ghost held = rejected@;
            rejected.push(owned(&keys[i]));
            assert(views(rejected@) =~= views(held).push(key));
        }
        i = i + 1;
    }
    assert(all.take(keys.len() as int) =~= all);
    assert(views(rejected@).len() == rejected.len());
    if strict && rejected.len() > 0 {
        return Err(Error::DisallowedKeys { kind: owned(&spec.name), keys: rejected });
    }
    proof {
        let want = sanitized(kind, tree);
        assert forall|k: Seq<char>| #[trigger]
            members(out@).dom().contains(k) == want.dom().contains(k) by {
            assert(members(out@).contains_key(k) <==> all.contains(k) && kind.fields.contains(k));
            assert(all.contains(k) <==> tree.contains_key(k));
        }
        assert(members(out@).dom() =~= want.dom());
        assert(members(out@) =~= want);
    }
    Ok(out)
}

/// Nothing outside the allow-list is ever stored, whatever the payload holds.
pub proof fn law_only_allowed_keys_are_stored(
    kind: KindModel,
    payload: Map<Seq<char>, Tree>,
    key: Seq<char>,
)
    requires
        sanitized(kind, payload).contains_key(key),
    ensures
        kind.fields.contains(key),
        payload.contains_key(key),
{
}

/// What is stored of a redacted field is the hash of its text and nothing else.
pub proof fn law_redacted_values_are_stored_as_hashes(
    kind: KindModel,
    payload: Map<Seq<char>, Tree>,
    key: Seq<char>,
)
    requires
        payload.contains_key(key),
        kind.fields.contains(key),
        kind.redact.contains(key),
    ensures
        sanitized(kind, payload)[key] == Tree::Str(redaction(plain_text(payload[key]))),
{
}

} // verus!
