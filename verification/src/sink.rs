//! The storage backends: which one is configured, how the ledger files are named, and how stored
//! rows become records.
use vstd::prelude::*;
use crate::clock::{second_text, show_second};
use crate::json::{dup_members, members, parse, parsed, Json, Tree};
use crate::model::{writable, Envelope, EnvelopeModel, SCHEMA_VERSION};
use crate::registry::{is_valid_kind_name, valid_name};
use crate::sorted::{sort_set, sorted_set};
use crate::text::{cat2, opt_view, owned, same, strip_suffix, views, without_suffix};

verus! {

/// A storage backend.
#[derive(Debug, Clone, Copy, PartialEq, Eq, Structural)]
pub enum SinkKind {
    Jsonl,
    Sqlite,
}

impl SinkKind {
    /// The backend with a name.
    pub open spec fn named(s: Seq<char>) -> Option<SinkKind> {
        if s == "jsonl"@ {
            Some(SinkKind::Jsonl)
        } else if s == "sqlite"@ {
            Some(SinkKind::Sqlite)
        } else {
            None
        }
    }

    /// Read the name of a backend.
    pub fn parse(s: &str) -> (r: Option<SinkKind>)
        ensures
            r == SinkKind::named(s@),
    {
        if same(s, "jsonl") {
            Some(SinkKind::Jsonl)
        } else if same(s, "sqlite") {
            Some(SinkKind::Sqlite)
        } else {
            None
        }
    }
}

/// The name of a Kind's ledger file.
pub open spec fn ledger_name(kind: Seq<char>) -> Seq<char> {
    kind + ".jsonl"@
}

/// The name of a Kind's active ledger file.
pub fn base(kind: &str) -> (r: String)
    ensures
        r@ == ledger_name(kind@),
{
    cat2(kind, ".jsonl")
}

/// The Kind whose ledger a file is; a name that no Kind can have is none.
pub open spec fn kind_of_file(name: Seq<char>) -> Option<Seq<char>> {
    match without_suffix(name, ".jsonl"@) {
        Some(kind) => if valid_name(kind) {
            Some(kind)
        } else {
            None
        },
        None => None,
    }
}

/// The Kinds whose ledgers are among the files of a directory, in the order of the files.
pub open spec fn ledger_kinds(files: Seq<Seq<char>>) -> Seq<Seq<char>>
    decreases files.len(),
{
    if files.len() == 0 {
        Seq::empty()
    } else {
        let rest = ledger_kinds(files.drop_last());
        match kind_of_file(files.last()) {
            Some(k) => rest.push(k),
            None => rest,
        }
    }
}

/// Every Kind with a ledger among the files of a directory, ascending, recovered from the file
/// names.
pub fn stored_kinds(files: &Vec<String>) -> (r: Vec<String>)
    ensures
        views(r@) == sorted_set(ledger_kinds(views(files@))),
{
    let ghost all = views(files@);
    let mut out: Vec<String> = Vec::new();
    let mut i: usize = 0;
    assert(all.take(0) =~= Seq::<Seq<char>>::empty());
    assert(views(out@) =~= Seq::<Seq<char>>::empty());
    while i < files.len()
        invariant
            0 <= i <= files.len(),
            all == views(files@),
            views(out@) == ledger_kinds(all.take(i as int)),
        decreases files.len() - i,
    {
        proof {
            assert(all.take(i + 1).drop_last() =~= all.take(i as int));
            assert(all.take(i + 1).last() == files@[i as int]@);
        }
        if let Some(kind) = strip_suffix(&files[i], ".jsonl") {
            if is_valid_kind_name(&kind) {
                let ghost held = out@;
                out.push(kind);
                assert(views(out@) =~= views(held).push(kind@));
            }
        }
        i = i + 1;
    }
    assert(all.take(files.len() as int) =~= all);
    sort_set(&out)
}

/// Naming a ledger and recovering its Kind are inverse: every Kind that can be registered is found
/// again under the name of its ledger, and nothing else is.
pub proof fn law_ledger_names_name_their_kind(kind: Seq<char>, file: Seq<char>)
    requires
        valid_name(kind),
    ensures
        kind_of_file(ledger_name(kind)) == Some(kind),
        kind_of_file(file) == Some(kind) ==> file == ledger_name(kind),
{
    let name = ledger_name(kind);
    let ext = ".jsonl"@;
    assert(name.subrange(name.len() - ext.len(), name.len() as int) =~= ext);
    assert(name.take(name.len() - ext.len()) =~= kind);
    if kind_of_file(file) == Some(kind) {
        let n = file.len() - ext.len();
        assert(file =~= file.take(n) + file.subrange(n, file.len() as int));
    }
}

/// The file of an archive is never taken for a ledger: it does not end in the extension.
pub proof fn law_archives_are_no_ledgers(base: Seq<char>, stamp: Seq<char>, pid: nat, n: nat)
    ensures
        kind_of_file(crate::rolling::archive_candidate(base, stamp, pid, n)) is None,
{
    let name = crate::rolling::archive_candidate(base, stamp, pid, n);
    reveal_strlit(".jsonl");
    crate::decimal::law_print_then_read(pid);
    crate::decimal::law_print_then_read(n);
    let digits = if n == 0 {
        crate::decimal::nat_text(pid)
    } else {
        crate::decimal::nat_text(n)
    };
    assert(crate::decimal::is_digit(digits[digits.len() - 1]));
    assert(name.last() == digits.last());
    if ".jsonl"@.is_suffix_of(name) {
        let tail = name.subrange(name.len() - 6, name.len() as int);
        assert(tail[5] == name.last());
        assert(".jsonl"@[5] == 'l');
    }
}

// ---------------------------------------------------------------------------------------------
// The indexed backend
// ---------------------------------------------------------------------------------------------

/// One second less, but not below the least number.
pub open spec fn second_before(s: i64) -> i64 {
    if s == i64::MIN {
        s
    } else {
        (s - 1) as i64
    }
}

/// The text that stored timestamps are compared with when a window is read.
pub open spec fn window_text(since: Option<i64>) -> Seq<char> {
    match since {
        Some(s) => match second_text(second_before(s)) {
            Some(t) => t,
            None => Seq::empty(),
        },
        None => Seq::empty(),
    }
}

fn one_second_before(s: i64) -> (r: i64)
    ensures
        r == second_before(s),
{
    if s == i64::MIN {
        s
    } else {
        s - 1
    }
}

/// The lower bound with which a window is read, as text. Stored timestamps carry fractions and are
/// compared as text, so the bound is taken one second lower: it may let through a record too many,
/// never one too few. Without a window it is empty, which every timestamp follows.
pub fn window_bound(since: Option<i64>) -> (r: String)
    ensures
        r@ == window_text(since),
{
    let text = match since {
        Some(s) => show_second(one_second_before(s)),
        None => None,
    };
    match text {
        Some(t) => t,
        None => {
            let s = String::new();
            assert(s@ =~= Seq::<char>::empty());
            s
        },
    }
}

/// The upper bound below which rows are deleted, one second lower than the cutoff; `None` where no
/// such time can be written, and nothing is deleted.
pub fn prune_bound(cutoff_epoch: i64) -> (r: Option<String>)
    ensures
        opt_view(r) == second_text(second_before(cutoff_epoch)),
{
    show_second(one_second_before(cutoff_epoch))
}

/// The record of a stored row.
pub open spec fn row_record(
    ts: Seq<char>,
    kind: Seq<char>,
    version: nat,
    payload: Seq<char>,
) -> Option<EnvelopeModel> {
    if version > SCHEMA_VERSION {
        None
    } else {
        match parsed(payload) {
            Ok(Tree::Obj(m)) => Some(EnvelopeModel { ts, kind, version, payload: m }),
            _ => None,
        }
    }
}

/// Make a record of a stored row; one of a newer schema version, or whose payload is not an
/// object, is skipped. The row that was stored for a writable record gives that record back.
pub fn stored_record(ts: String, kind: &str, version: u32, payload: &str) -> (r: Option<Envelope>)
    ensures
        match r {
            Some(e) => row_record(ts@, kind@, version as nat, payload@) == Some(e.model()),
            None => row_record(ts@, kind@, version as nat, payload@) is None,
        },
        forall|e: EnvelopeModel|
            #![trigger writable(e)]
            ts@ == e.ts && kind@ == e.kind && version == e.version && payload@
                == crate::json::compact_text(Tree::Obj(e.payload)) && writable(e) ==> (
            r matches Some(got) && got.model() == e),
{
    if version > SCHEMA_VERSION {
        return None;
    }
    match parse(payload) {
        Ok(Json::Object(m)) => Some(
            Envelope { ts, kind: owned(kind), schema_version: version, payload: m },
        ),
        _ => None,
    }
}

/// The payload column of a record.
pub fn payload_text(env: &Envelope) -> (r: String)
    ensures
        r@ == crate::json::compact_text(Tree::Obj(members(env.payload@))),
{
    crate::json::compact(&Json::Object(dup_members(&env.payload)))
}

} // verus!
