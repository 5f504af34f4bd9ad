//! What a running receiver says about itself, and how an answer on its port is judged.
use vstd::prelude::*;
use crate::decimal::{parse_u64, unsigned_value};
use crate::json::{parse, parsed, tree_get_str, Json, Tree};
use crate::text::{
    before_first, cat2, cat3, chars_of, cut_before, is_white, owned, same, string_of, strip_prefix,
    trim, trimmed, trimmed_start, white, without_prefix,
};

verus! {

/// The route that a receiver answers its identity on.
pub const IDENTITY_PATH: &'static str = "/healthz";

/// The first build that answers on the identity route.
pub const IDENTITY_SINCE: &'static str = "0.18.0";

/// The build that this is.
pub const VERSION: &'static str = "0.1.0";

/// How long an identity answer may be, in bytes.
pub const MAX_ANSWER_BYTES: usize = 65_536;

/// How long an exchange may take once connected, in nanoseconds: two seconds. A server that trickles
/// bytes is cut off there.
pub const ANSWER_NANOS: u64 = 2_000_000_000;

/// Whether to read on, and for how many nanoseconds at most: while the answer is not full, until
/// the deadline. `held` bytes of it are there, `waited` nanoseconds after the request was sent.
pub fn read_on(held: usize, waited: u64) -> (r: Option<u64>)
    ensures
        r == if held < MAX_ANSWER_BYTES && waited <= ANSWER_NANOS {
            Some((ANSWER_NANOS - waited) as u64)
        } else {
            None
        },
{
    if held < MAX_ANSWER_BYTES && waited <= ANSWER_NANOS {
        Some(ANSWER_NANOS - waited)
    } else {
        None
    }
}

/// A receiver's identity: its service and its build.
#[derive(Debug)]
pub struct Identity {
    pub service: String,
    pub version: String,
}

/// What answered at an authority.
#[derive(Debug, PartialEq, Eq)]
pub enum Probe {
    /// A receiver, and its build.
    Build(String),
    /// Something accepted the connection and did not identify as a receiver.
    Foreign,
    /// No connection, and why.
    Unreachable(String),
}

/// The members of an identity.
pub open spec fn identity_members(service: Seq<char>, version: Seq<char>) -> Map<Seq<char>, Tree> {
    map!["service"@ => Tree::Str(service), "version"@ => Tree::Str(version)]
}

impl Identity {
    /// The identity of a build of this service.
    pub fn of_build(version: &str) -> (r: Identity)
        ensures
            r.service@ == "hatel"@,
            r.version@ == version@,
    {
        Identity { service: owned("hatel"), version: owned(version) }
    }

    /// The identity of this build.
    pub fn this_build() -> (r: Identity)
        ensures
            r.service@ == "hatel"@,
            r.version@ == VERSION@,
    {
        Identity::of_build(VERSION)
    }

    /// The identity as it is answered.
    pub fn to_json(&self) -> (r: Json)
        ensures
            r.view() == Tree::Obj(identity_members(self.service@, self.version@)),
    {
        let mut m: Vec<(String, Json)> = Vec::new();
        crate::json::set_member(&mut m, "service", Json::text(&self.service));
        crate::json::set_member(&mut m, "version", Json::text(&self.version));
        assert(crate::json::members(m@) =~= identity_members(self.service@, self.version@));
        Json::Object(m)
    }
}

/// The request that asks an authority for its identity.
pub fn identity_request(authority: &str) -> (r: String)
    ensures
        r@ == "GET /healthz HTTP/1.1\r\nHost: "@ + authority@ + "\r\nConnection: close\r\n\r\n"@,
{
    cat3("GET /healthz HTTP/1.1\r\nHost: ", authority, "\r\nConnection: close\r\n\r\n")
}

// ---------------------------------------------------------------------------------------------
// The answer
// ---------------------------------------------------------------------------------------------

/// The text of bytes that need not be UTF-8: the name of what `String::from_utf8_lossy` returns.
pub uninterp spec fn lossy_text(b: Seq<u8>) -> Seq<char>;

/// Calls `String::from_utf8_lossy`, which replaces every malformed sequence by U+FFFD. Its result is
/// a function of the bytes, named and not spelled out.
#[verifier::external_body]
fn text_of(b: &[u8]) -> (r: String)
    ensures
        r@ == lossy_text(b@),
{
    String::from_utf8_lossy(b).into_owned()
}

/// The blank line behind the headers stands at `i`.
pub open spec fn gap_at(s: Seq<char>, i: int) -> bool {
    0 <= i && i + 4 <= s.len() && s[i] == '\r' && s[i + 1] == '\n' && s[i + 2] == '\r' && s[i + 3]
        == '\n'
}

/// Where the first blank line behind headers stands at or behind `i`, if anywhere.
pub open spec fn gap_from(s: Seq<char>, i: int) -> Option<int>
    decreases s.len() - i,
{
    if i >= s.len() {
        None
    } else if gap_at(s, i) {
        Some(i)
    } else {
        gap_from(s, i + 1)
    }
}

fn find_gap(v: &Vec<char>) -> (r: Option<usize>)
    ensures
        match r {
            Some(i) => gap_from(v@, 0) == Some(i as int) && i + 4 <= v@.len(),
            None => gap_from(v@, 0) is None,
        },
{
    let mut i: usize = 0;
    while i < v.len()
        invariant
            0 <= i <= v.len(),
            gap_from(v@, 0) == gap_from(v@, i as int),
        decreases v.len() - i,
    {
        if v.len() - i >= 4 && v[i] == '\r' && v[i + 1] == '\n' && v[i + 2] == '\r' && v[i + 3]
            == '\n' {
            return Some(i);
        }
        i = i + 1;
    }
    None
}

/// Where the first white space stands at or behind `i`, or the end.
pub open spec fn word_end(s: Seq<char>, i: int) -> int
    decreases s.len() - i,
{
    if i >= s.len() || is_white(s[i]) {
        i
    } else {
        word_end(s, i + 1)
    }
}

/// The first word of a text and what follows it, the text starting with no white space.
pub open spec fn word_and_rest(s: Seq<char>) -> (Seq<char>, Seq<char>) {
    (s.take(word_end(s, 0)), s.skip(word_end(s, 0)))
}

/// The second of the words that white space parts a text into; empty where there are fewer.
pub open spec fn second_word(s: Seq<char>) -> Seq<char> {
    word_and_rest(trimmed_start(word_and_rest(trimmed_start(s)).1)).0
}

fn take_word(v: &Vec<char>, from: usize) -> (r: (usize, usize))
    requires
        from <= v@.len(),
    ensures
        from <= r.0 <= r.1 <= v@.len(),
        trimmed_start(v@.skip(from as int)) == v@.skip(r.0 as int),
        word_end(v@.skip(r.0 as int), 0) == r.1 - r.0,
{
    let mut a: usize = from;
    while a < v.len() && white(v[a])
        invariant
            from <= a <= v.len(),
            trimmed_start(v@.skip(from as int)) == trimmed_start(v@.skip(a as int)),
        decreases v.len() - a,
    {
        assert(v@.skip(a as int).skip(1) =~= v@.skip(a + 1));
        a = a + 1;
    }
    let ghost rest = v@.skip(a as int);
    let mut b: usize = a;
    while b < v.len() && !white(v[b])
        invariant
            a <= b <= v.len(),
            rest == v@.skip(a as int),
            word_end(rest, 0) == word_end(rest, b - a),
        decreases v.len() - b,
    {
        assert(rest[b - a] == v@[b as int]);
        b = b + 1;
    }
    proof {
        if b < v.len() {
            assert(rest[b - a] == v@[b as int]);
        }
    }
    (a, b)
}

fn find_second_word(s: &str) -> (r: String)
    ensures
        r@ == second_word(s@),
{
    let v = chars_of(s);
    assert(v@.skip(0) =~= v@);
    let first = take_word(&v, 0);
    let ghost a = v@.skip(first.0 as int);
    assert(a.skip(first.1 - first.0) =~= v@.skip(first.1 as int));
    let second = take_word(&v, first.1);
    let ghost b = v@.skip(second.0 as int);
    assert(b.take(second.1 - second.0) =~= v@.subrange(second.0 as int, second.1 as int));
    string_of(&v, second.0, second.1)
}

/// The identity that a JSON value is: an object with its two texts, or a list of the two.
pub open spec fn identity_of(t: Tree) -> Option<(Seq<char>, Seq<char>)> {
    match t {
        Tree::Obj(_) => match (tree_get_str(t, "service"@), tree_get_str(t, "version"@)) {
            (Some(s), Some(v)) => Some((s, v)),
            _ => None,
        },
        Tree::Arr(items) => if items.len() == 2 {
            match (items[0], items[1]) {
                (Tree::Str(s), Tree::Str(v)) => Some((s, v)),
                _ => None,
            }
        } else {
            None
        },
        _ => None,
    }
}

/// Read an identity from a JSON value.
pub fn read_identity(j: &Json) -> (r: Option<Identity>)
    ensures
        match r {
            Some(id) => identity_of(j.view()) == Some((id.service@, id.version@)),
            None => identity_of(j.view()) is None,
        },
{
    match j {
        Json::Object(_) => match (j.get_str("service"), j.get_str("version")) {
            (Some(s), Some(v)) => Some(Identity { service: owned(s), version: owned(v) }),
            _ => None,
        },
        Json::Array(items) => {
            assert(crate::json::items(items@).len() == items@.len());
            if items.len() == 2 {
                assert(crate::json::items(items@)[0] == items@[0].view());
                assert(crate::json::items(items@)[1] == items@[1].view());
                match (&items[0], &items[1]) {
                    (Json::Str(s), Json::Str(v)) => Some(
                        Identity { service: owned(s), version: owned(v) },
                    ),
                    _ => None,
                }
            } else {
                None
            }
        },
        _ => None,
    }
}

/// The build that an answer names, where a receiver gave it: a status of 200 behind it all, and a
/// body that is an identity of this service.
pub open spec fn answered_build(text: Seq<char>) -> Option<Seq<char>> {
    match gap_from(text, 0) {
        None => None,
        Some(i) => {
            let head = text.take(i);
            if unsigned_value(second_word(before_first(head, '\n'))) != Some(200nat) {
                None
            } else {
                match parsed(trimmed(text.skip(i + 4))) {
                    Ok(t) => match identity_of(t) {
                        Some(id) => if id.0 == "hatel"@ {
                            Some(id.1)
                        } else {
                            None
                        },
                        None => None,
                    },
                    Err(_) => None,
                }
            }
        },
    }
}

/// Judge the text of an HTTP answer. Its body is read as a JSON value first: every member is judged,
/// also one that an identity does not have, and where a member is repeated its last value counts.
pub fn identify_text(text: &str) -> (r: Probe)
    ensures
        match answered_build(text@) {
            Some(v) => exists|s: String| r == Probe::Build(s) && #[trigger] s@ == v,
            None => r == Probe::Foreign,
        },
{
    let v = chars_of(text);
    let at = match find_gap(&v) {
        Some(i) => i,
        None => {
            return Probe::Foreign;
        },
    };
    let head = string_of(&v, 0, at);
    let body = string_of(&v, at + 4, v.len());
    assert(head@ =~= text@.take(at as int));
    assert(body@ =~= text@.skip(at + 4));
    match parse_u64(&find_second_word(&cut_before(&head, '\n'))) {
        Some(code) => if code != 200 {
            return Probe::Foreign;
        },
        None => {
            return Probe::Foreign;
        },
    }
    match parse(&trim(&body)) {
        Ok(j) => match read_identity(&j) {
            Some(id) => if same(&id.service, "hatel") {
                Probe::Build(id.version)
            } else {
                Probe::Foreign
            },
            None => Probe::Foreign,
        },
        Err(_) => Probe::Foreign,
    }
}

/// Judge an HTTP answer. A receiver answers with a status of 200 and its identity; anything else is
/// foreign.
pub fn identify(answer: &[u8]) -> (r: Probe)
    ensures
        match answered_build(lossy_text(answer@)) {
            Some(v) => exists|s: String| r == Probe::Build(s) && #[trigger] s@ == v,
            None => r == Probe::Foreign,
        },
{
    let text = text_of(answer);
    identify_text(&text)
}

// ---------------------------------------------------------------------------------------------
// Where to ask
// ---------------------------------------------------------------------------------------------

/// The host and port part of an endpoint, as it is written.
pub open spec fn host_part(endpoint: Seq<char>) -> Seq<char> {
    match without_prefix(endpoint, "http://"@) {
        Some(rest) => before_first(rest, '/'),
        None => match without_prefix(endpoint, "https://"@) {
            Some(rest) => before_first(rest, '/'),
            None => before_first(endpoint, '/'),
        },
    }
}

/// A text holds a closing bracket directly before a colon.
pub open spec fn bracket_port(s: Seq<char>) -> bool {
    exists|i: int| 0 <= i < s.len() - 1 && #[trigger] s[i] == ']' && s[i + 1] == ':'
}

/// The authority that an endpoint addresses, with the default port where it names none.
pub open spec fn authority_of(endpoint: Seq<char>) -> Seq<char> {
    let host = host_part(endpoint);
    if (host.len() > 0 && host[0] == '[' && !bracket_port(host)) || !host.contains(':') {
        host + ":80"@
    } else {
        host
    }
}

/// The `host:port` that an endpoint addresses. One without a scheme is an authority already; a path
/// behind it is left out.
pub fn authority(endpoint: &str) -> (r: String)
    ensures
        r@ == authority_of(endpoint@),
{
    let host = match strip_prefix(endpoint, "http://") {
        Some(rest) => cut_before(&rest, '/'),
        None => match strip_prefix(endpoint, "https://") {
            Some(rest) => cut_before(&rest, '/'),
            None => cut_before(endpoint, '/'),
        },
    };
    let v = chars_of(&host);
    let mut colon = false;
    let mut port = false;
    let mut i: usize = 0;
    while i < v.len()
        invariant
            0 <= i <= v.len(),
            colon == exists|k: int| 0 <= k < i && #[trigger] v@[k] == ':',
            port == exists|k: int|
                0 <= k < i && k < v.len() - 1 && #[trigger] v@[k] == ']' && v@[k + 1] == ':',
        decreases v.len() - i,
    {
        if v[i] == ':' {
            assert(v@[i as int] == ':');
            colon = true;
        }
        if v[i] == ']' && i + 1 < v.len() && v[i + 1] == ':' {
            assert(v@[i as int] == ']');
            port = true;
        }
        i = i + 1;
    }
    assert(host@.contains(':') == colon);
    if (v.len() > 0 && v[0] == '[' && !port) || !colon {
        cat2(&host, ":80")
    } else {
        host
    }
}

/// An authority always names a port.
pub proof fn law_an_authority_has_a_port(endpoint: Seq<char>)
    ensures
        authority_of(endpoint).contains(':'),
{
    let host = host_part(endpoint);
    reveal_strlit(":80");
    assert((host + ":80"@)[host.len() as int] == ':');
}

/// What a receiver answers about itself is read back as its service and its build.
pub proof fn law_an_identity_reads_back(service: Seq<char>, version: Seq<char>)
    ensures
        identity_of(Tree::Obj(identity_members(service, version))) == Some((service, version)),
{
    reveal_strlit("service");
    reveal_strlit("version");
    assert("service"@[0] == 's' && "version"@[0] == 'v');
}

} // verus!
