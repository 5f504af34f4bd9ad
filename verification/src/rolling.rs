//! A rolling append-only text log: one active file and its size-rotated archives.
//!
//! The decisions of the log are taken here, over names, sizes and texts that the caller reads
//! from the directory: which files belong to a log, when it rotates and to which name, whether a
//! read pass can be trusted, and which archives have aged out.
use vstd::prelude::*;
use vstd::multiset::Multiset;
use vstd::seq_lib::{lemma_multiset_commutative, to_multiset_build, to_multiset_len};
use crate::decimal::{all_digits, is_digit, nat_text, show};
use crate::order::{before, lemma_irreflexive};
use crate::pattern::{compile, is_match, matches_in, ARCHIVE_PATTERN};
use crate::seqs::{lemma_filter_none, lemma_filter_take};
use crate::sorted::{
    ascending, inserted, lemma_ascending_unique, lemma_inserted, lemma_rank_bounds,
    lemma_sorted_set, rank_of, sort_set, sorted_set,
};
use crate::text::{
    cat2, cat3, cat5, chars_of, is_blank, owned, pieces, same, split, starts_with, strip_suffix,
    views, without_suffix,
};

verus! {

/// A name ends as rotation writes it: from some dotted segment on all segments are numbers, there
/// are at least two of them, and the first has eight digits.
pub open spec fn archive_form(name: Seq<char>) -> bool {
    exists|i: int| archive_from(pieces(name, '.'), i)
}

/// The archive suffix starts at segment `i`.
pub open spec fn archive_from(p: Seq<Seq<char>>, i: int) -> bool {
    &&& 1 <= i <= p.len() - 2
    &&& p[i].len() == 8
    &&& forall|j: int| i <= j < p.len() ==> all_digits(#[trigger] p[j])
}

/// A name is that of a file that records are still appended to.
pub open spec fn active_name(name: Seq<char>) -> bool {
    ".jsonl"@.is_suffix_of(name)
}

/// A name is that of an archive: it ends as rotation writes it, or is otherwise matched by the
/// archive pattern, which takes digits outside ASCII too.
pub open spec fn archive_name(name: Seq<char>) -> bool {
    archive_form(name) || matches_in(ARCHIVE_PATTERN@, name)
}

/// Whether a file name is that of an archive: it ends in a date stamp, a process id and any
/// collision sequence, each a number behind a dot.
pub fn is_archive_name(name: &str) -> (r: bool)
    ensures
        r == archive_name(name@),
        archive_form(name@) ==> r,
        r ==> name@.len() > 0 && !('a' <= name@.last() <= 'z'),
        vstd::utf8::is_ascii_chars(name@) ==> r == archive_form(name@),
{
    match compile(ARCHIVE_PATTERN) {
        Ok(re) => is_match(&re, name),
        Err(_) => false,
    }
}

/// A file belongs to the log `base`: it is the active file, or an archive of it.
pub open spec fn belongs(name: Seq<char>, base: Seq<char>) -> bool {
    name == base || archive_of(name, base)
}

/// A name is that of an archive of the log `base`.
pub open spec fn archive_of(name: Seq<char>, base: Seq<char>) -> bool {
    (base + "."@).is_prefix_of(name) && archive_name(name)
}

/// The files of a log among the names of a directory, in order.
pub open spec fn files_of(names: Seq<Seq<char>>, base: Seq<char>) -> Seq<Seq<char>> {
    sorted_set(names.filter(|n: Seq<char>| belongs(n, base)))
}

fn is_archive_of(name: &str, base: &str) -> (r: bool)
    ensures
        r == archive_of(name@, base@),
        r ==> !('a' <= name@.last() <= 'z'),
{
    starts_with(name, &cat2(base, ".")) && is_archive_name(name)
}

/// The active file and every archive of `base` among the names of its directory, sorted.
pub fn matching_files(names: &Vec<String>, base: &str) -> (r: Vec<String>)
    ensures
        views(r@) == files_of(views(names@), base@),
{
    let ghost p = |n: Seq<char>| belongs(n, base@);
    let mut out: Vec<String> = Vec::new();
    let mut i: usize = 0;
    proof {
        lemma_filter_none(views(names@), p);
        assert(views(out@) =~= Seq::<Seq<char>>::empty());
    }
    while i < names.len()
        invariant
            0 <= i <= names.len(),
            p == (|n: Seq<char>| belongs(n, base@)),
            views(out@) == views(names@).take(i as int).filter(p),
        decreases names.len() - i,
    {
        proof {
            lemma_filter_take(views(names@), i as int, p);
            assert(views(names@)[i as int] == names@[i as int]@);
        }
        if same(&names[i], base) || is_archive_of(&names[i], base) {
            let ghost held = out@;
            out.push(owned(&names[i]));
            assert(views(out@) =~= views(held).push(names@[i as int]@));
        }
        i = i + 1;
    }
    assert(views(names@).take(names.len() as int) =~= views(names@));
    sort_set(&out)
}

// ---------------------------------------------------------------------------------------------
// Rotation
// ---------------------------------------------------------------------------------------------

/// Whether the active file is rotated before the next line is appended: once it has reached the
/// threshold.
pub fn rotation_due(len: u64, rotate_bytes: u64) -> (r: bool)
    ensures
        r == (len >= rotate_bytes),
{
    len >= rotate_bytes
}

/// What is appended for a line.
pub open spec fn appended(line: Seq<char>) -> Seq<char> {
    line.push('\n')
}

/// The bytes of a line as it is appended: the line and a newline.
pub fn log_line(line: &str) -> (r: String)
    ensures
        r@ == appended(line@),
{
    let mut out = owned(line);
    out.push('\n');
    out
}

/// The first ten characters of a timestamp without the dashes.
pub open spec fn stamp_of(ts: Seq<char>) -> Seq<char> {
    ts.take(
        if ts.len() < 10 {
            ts.len() as int
        } else {
            10
        },
    ).filter(|c: char| c != '-')
}

/// The date stamp (`YYYYMMDD`) of an RFC 3339 timestamp.
pub fn date_stamp(ts: &str) -> (r: String)
    ensures
        r@ == stamp_of(ts@),
{
    let v = chars_of(ts);
    let n: usize = if v.len() < 10 {
        v.len()
    } else {
        10
    };
    let ghost head = ts@.take(n as int);
    let ghost p = |c: char| c != '-';
    let mut out = String::new();
    let mut i: usize = 0;
    proof {
        lemma_filter_none(head, p);
        assert(out@ =~= Seq::<char>::empty());
    }
    while i < n
        invariant
            0 <= i <= n <= v.len(),
            v@ == ts@,
            head == ts@.take(n as int),
            p == (|c: char| c != '-'),
            out@ == head.take(i as int).filter(p),
        decreases n - i,
    {
        proof {
            lemma_filter_take(head, i as int, p);
        }
        if v[i] != '-' {
            out.push(v[i]);
        }
        i = i + 1;
    }
    assert(head.take(n as int) =~= head);
    out
}

/// The `n`-th name that rotation tries for an archive.
pub open spec fn archive_candidate(
    base: Seq<char>,
    stamp: Seq<char>,
    pid: nat,
    n: nat,
) -> Seq<char> {
    let first = base + "."@ + stamp + "."@ + nat_text(pid);
    if n == 0 {
        first
    } else {
        first + "."@ + nat_text(n)
    }
}

/// The `n`-th name to try for an archive of `base`: date stamp and process id, and from the second
/// try on a sequence number, so that no rotation clobbers another's archive.
pub fn archive_target(base: &str, stamp: &str, pid: u32, n: u32) -> (r: String)
    ensures
        r@ == archive_candidate(base@, stamp@, pid as nat, n as nat),
{
    let first = cat5(base, ".", stamp, ".", &show(pid as u64));
    if n == 0 {
        first
    } else {
        cat3(&first, ".", &show(n as u64))
    }
}

// ---------------------------------------------------------------------------------------------
// Reading
// ---------------------------------------------------------------------------------------------

/// How often a read pass is tried against a fresh listing.
pub const READ_PASSES: u32 = 4;

/// What follows a read pass.
#[derive(Debug, Clone, Copy, PartialEq, Eq, Structural)]
pub enum ReadStep {
    /// The pass is a consistent snapshot.
    Accept,
    /// The files changed under the pass: try again against a fresh listing.
    Retry,
    /// The files kept changing: take whatever can be read now.
    BestEffort,
}

/// The names of an optional listing.
pub open spec fn listing(l: Option<Vec<String>>) -> Option<Seq<Seq<char>>> {
    match l {
        Some(v) => Some(views(v@)),
        None => None,
    }
}

/// What follows the pass number `pass`, counted from zero. No directory is no lines, not a race;
/// otherwise the pass counts only where no file vanished and the files are the same afterwards.
pub open spec fn step_after(
    pass: nat,
    before: Option<Seq<Seq<char>>>,
    vanished: bool,
    after: Option<Seq<Seq<char>>>,
) -> ReadStep {
    if before is None || (!vanished && after == before) {
        ReadStep::Accept
    } else if pass + 1 < READ_PASSES {
        ReadStep::Retry
    } else {
        ReadStep::BestEffort
    }
}

fn same_list(a: &Vec<String>, b: &Vec<String>) -> (r: bool)
    ensures
        r == (views(a@) == views(b@)),
{
    if a.len() != b.len() {
        assert(views(a@).len() != views(b@).len());
        return false;
    }
    let mut i: usize = 0;
    while i < a.len()
        invariant
            0 <= i <= a.len(),
            a.len() == b.len(),
            forall|k: int| 0 <= k < i ==> (#[trigger] a@[k])@ == b@[k]@,
        decreases a.len() - i,
    {
        if !same(&a[i], &b[i]) {
            assert(views(a@)[i as int] != views(b@)[i as int]);
            return false;
        }
        i = i + 1;
    }
    assert(views(a@) =~= views(b@));
    true
}

/// Decide what follows a read pass.
pub fn read_step(
    pass: u32,
    before: &Option<Vec<String>>,
    vanished: bool,
    after: &Option<Vec<String>>,
) -> (r: ReadStep)
    ensures
        r == step_after(pass as nat, listing(*before), vanished, listing(*after)),
{
    let accepted = match before {
        None => true,
        Some(b) => match after {
            Some(a) => !vanished && same_list(a, b),
            None => false,
        },
    };
    if accepted {
        ReadStep::Accept
    } else if pass < READ_PASSES - 1 {
        ReadStep::Retry
    } else {
        ReadStep::BestEffort
    }
}

/// A line without the carriage return in front of its newline.
pub open spec fn without_return(line: Seq<char>) -> Seq<char> {
    match without_suffix(line, "\r"@) {
        Some(l) => l,
        None => line,
    }
}

/// The lines of a text: the pieces between newlines; all but the last lose a carriage return.
pub open spec fn text_lines(text: Seq<char>) -> Seq<Seq<char>> {
    let p = pieces(text, '\n');
    Seq::new(
        p.len(),
        |i: int|
            if i < p.len() - 1 {
                without_return(p[i])
            } else {
                p[i]
            },
    )
}

/// The lines of a text that are not blank.
pub open spec fn record_lines(text: Seq<char>) -> Seq<Seq<char>> {
    text_lines(text).filter(|l: Seq<char>| !is_blank(l))
}

/// The lines of a text that hold something, in order.
pub fn parse_lines(text: &str) -> (r: Vec<String>)
    ensures
        views(r@) == record_lines(text@),
{
    let parts = split(text, '\n');
    let ghost lines = text_lines(text@);
    let ghost p = |l: Seq<char>| !is_blank(l);
    let mut out: Vec<String> = Vec::new();
    let mut i: usize = 0;
    proof {
        lemma_filter_none(lines, p);
        assert(views(out@) =~= Seq::<Seq<char>>::empty());
    }
    while i < parts.len()
        invariant
            0 <= i <= parts.len(),
            views(parts@) == pieces(text@, '\n'),
            lines == text_lines(text@),
            p == (|l: Seq<char>| !is_blank(l)),
            views(out@) == lines.take(i as int).filter(p),
        decreases parts.len() - i,
    {
        proof {
            lemma_filter_take(lines, i as int, p);
            assert(views(parts@)[i as int] == parts@[i as int]@);
        }
        let line = if i < parts.len() - 1 {
            match strip_suffix(&parts[i], "\r") {
                Some(l) => l,
                None => owned(&parts[i]),
            }
        } else {
            owned(&parts[i])
        };
        assert(line@ == lines[i as int]);
        if !crate::text::blank(&line) {
            let ghost held = out@;
            out.push(line);
            assert(views(out@) =~= views(held).push(lines[i as int]));
        }
        i = i + 1;
    }
    assert(lines.take(parts.len() as int) =~= lines);
    out
}

// ---------------------------------------------------------------------------------------------
// Change signature and pruning
// ---------------------------------------------------------------------------------------------

/// A change signature over a log's files: how many they are, their bytes, and the newest time of
/// change in nanoseconds since the epoch.
#[derive(Debug, Clone, Copy, PartialEq, Eq, Structural)]
pub struct Fingerprint {
    pub files: usize,
    pub bytes: u64,
    pub newest: Option<i128>,
}

/// The size and time of change of one file, where they could be read.
#[derive(Debug, Clone, Copy)]
pub struct FileStat {
    pub bytes: Option<u64>,
    pub modified: Option<i128>,
}

/// The bytes of a list of files; one that could not be read counts for none.
pub open spec fn total_bytes(files: Seq<FileStat>) -> nat
    decreases files.len(),
{
    if files.len() == 0 {
        0
    } else {
        total_bytes(files.drop_last()) + match files.last().bytes {
            Some(b) => b as nat,
            None => 0,
        }
    }
}

/// The newest time of change among the files that could be read.
pub open spec fn newest_change(files: Seq<FileStat>) -> Option<i128>
    decreases files.len(),
{
    if files.len() == 0 {
        None
    } else {
        let rest = newest_change(files.drop_last());
        match (files.last().bytes, files.last().modified) {
            (Some(_), Some(m)) => match rest {
                Some(n) => if n >= m {
                    Some(n)
                } else {
                    Some(m)
                },
                None => Some(m),
            },
            _ => rest,
        }
    }
}

proof fn lemma_total_grows(files: Seq<FileStat>, i: int)
    requires
        0 <= i <= files.len(),
    ensures
        total_bytes(files.take(i)) <= total_bytes(files),
    decreases files.len() - i,
{
    if i < files.len() {
        lemma_total_grows(files, i + 1);
        assert(files.take(i + 1).drop_last() =~= files.take(i));
    } else {
        assert(files.take(i) =~= files);
    }
}

/// The newest time of change among the files that could be read.
pub fn newest(files: &Vec<FileStat>) -> (r: Option<i128>)
    ensures
        r == newest_change(files@),
{
    let mut out: Option<i128> = None;
    let mut i: usize = 0;
    assert(files@.take(0) =~= Seq::<FileStat>::empty());
    while i < files.len()
        invariant
            0 <= i <= files.len(),
            out == newest_change(files@.take(i as int)),
        decreases files.len() - i,
    {
        assert(files@.take(i + 1).drop_last() =~= files@.take(i as int));
        if let Some(_) = files[i].bytes {
            if let Some(m) = files[i].modified {
                out = match out {
                    Some(n) => if n >= m {
                        Some(n)
                    } else {
                        Some(m)
                    },
                    None => Some(m),
                };
            }
        }
        i = i + 1;
    }
    assert(files@.take(files.len() as int) =~= files@);
    out
}

/// The change signature of a log's files.
pub fn fingerprint(files: &Vec<FileStat>) -> (r: Fingerprint)
    requires
        total_bytes(files@) <= u64::MAX,
    ensures
        r.files == files@.len(),
        r.bytes == total_bytes(files@),
        r.newest == newest_change(files@),
{
    let mut bytes: u64 = 0;
    let mut i: usize = 0;
    assert(files@.take(0) =~= Seq::<FileStat>::empty());
    while i < files.len()
        invariant
            0 <= i <= files.len(),
            total_bytes(files@) <= u64::MAX,
            bytes == total_bytes(files@.take(i as int)),
        decreases files.len() - i,
    {
        proof {
            assert(files@.take(i + 1).drop_last() =~= files@.take(i as int));
            lemma_total_grows(files@, i + 1);
        }
        if let Some(b) = files[i].bytes {
            bytes = bytes + b;
        }
        i = i + 1;
    }
    assert(files@.take(files.len() as int) =~= files@);
    Fingerprint { files: files.len(), bytes, newest: newest(files) }
}

/// A file of a directory, with the time of its last change in whole seconds since the epoch, where
/// it is known.
#[derive(Debug)]
pub struct Aged {
    pub name: String,
    pub modified: Option<i64>,
}

/// A file was last changed before the cutoff.
pub open spec fn aged_out(f: Aged, cutoff: i64) -> bool {
    f.modified matches Some(t) && t < cutoff
}

/// The names of the files of `entries` that are selected, in order.
pub open spec fn aged_names(entries: Seq<Aged>, pick: spec_fn(Aged) -> bool) -> Seq<Seq<char>> {
    let chosen = entries.filter(pick);
    Seq::new(chosen.len(), |i: int| chosen[i].name@)
}

fn prune_matching(entries: &Vec<Aged>, base: Option<&str>, cutoff: i64) -> (r: Vec<String>)
    ensures
        views(r@) == match base {
            Some(b) => aged_names(
                entries@,
                |f: Aged| archive_of(f.name@, b@) && aged_out(f, cutoff),
            ),
            None => aged_names(
                entries@,
                |f: Aged| archive_name(f.name@) && aged_out(f, cutoff),
            ),
        },
        forall|i: int| 0 <= i < r.len() ==> !active_name(#[trigger] r@[i]@),
{
    let ghost p = match base {
        Some(b) => |f: Aged| archive_of(f.name@, b@) && aged_out(f, cutoff),
        None => |f: Aged| archive_name(f.name@) && aged_out(f, cutoff),
    };
    let mut out: Vec<String> = Vec::new();
    let mut i: usize = 0;
    proof {
        lemma_filter_none(entries@, p);
    }
    while i < entries.len()
        invariant
            0 <= i <= entries.len(),
            p == match base {
                Some(b) => |f: Aged| archive_of(f.name@, b@) && aged_out(f, cutoff),
                None => |f: Aged| archive_name(f.name@) && aged_out(f, cutoff),
            },
            out@.len() == entries@.take(i as int).filter(p).len(),
            forall|k: int|
                0 <= k < out@.len() ==> (#[trigger] out@[k])@ == entries@.take(i as int).filter(
                    p,
                )[k].name@ && !active_name(out@[k]@),
        decreases entries.len() - i,
    {
        proof {
            lemma_filter_take(entries@, i as int, p);
        }
        let archive = match base {
            Some(b) => is_archive_of(&entries[i].name, b),
            None => is_archive_name(&entries[i].name),
        };
        let old = match entries[i].modified {
            Some(t) => t < cutoff,
            None => false,
        };
        assert((archive && old) == p(entries@[i as int]));
        if archive && old {
            proof {
                reveal_strlit(".jsonl");
                let name = entries@[i as int].name@;
                if active_name(name) {
                    assert(name.subrange(name.len() - 6, name.len() as int)[5] == name.last());
                }
            }
            out.push(owned(&entries[i].name));
        }
        i = i + 1;
    }
    assert(entries@.take(entries.len() as int) =~= entries@);
    assert(views(out@) =~= aged_names(entries@, p));
    out
}

/// The archives of any log in a directory that were last changed before the cutoff. An active file
/// is never among them.
pub fn prune_archives(entries: &Vec<Aged>, cutoff_epoch: i64) -> (r: Vec<String>)
    ensures
        views(r@) == aged_names(
            entries@,
            |f: Aged| archive_name(f.name@) && aged_out(f, cutoff_epoch),
        ),
        forall|i: int| 0 <= i < r.len() ==> !active_name(#[trigger] r@[i]@),
{
    prune_matching(entries, None, cutoff_epoch)
}

/// The archives of one log that were last changed before the cutoff.
pub fn prune_archives_of(entries: &Vec<Aged>, base: &str, cutoff_epoch: i64) -> (r: Vec<String>)
    ensures
        views(r@) == aged_names(
            entries@,
            |f: Aged| archive_of(f.name@, base@) && aged_out(f, cutoff_epoch),
        ),
        forall|i: int| 0 <= i < r.len() ==> !active_name(#[trigger] r@[i]@),
{
    prune_matching(entries, Some(base), cutoff_epoch)
}

// ---------------------------------------------------------------------------------------------
// Laws
// ---------------------------------------------------------------------------------------------

proof fn lemma_digits_have_no(s: Seq<char>, c: char)
    requires
        all_digits(s),
        !is_digit(c),
    ensures
        !s.contains(c),
{
    if s.contains(c) {
        let k = choose|k: int| 0 <= k < s.len() && s[k] == c;
        assert(is_digit(s[k]));
    }
}

/// The dotted segments of a name that ends in a number behind a dot.
proof fn lemma_numbered(name: Seq<char>, number: Seq<char>)
    requires
        all_digits(number),
    ensures
        pieces(name + "."@ + number, '.') == pieces(name, '.').push(number),
{
    reveal_strlit(".");
    assert("."@ =~= seq!['.']);
    lemma_digits_have_no(number, '.');
    crate::text::lemma_pieces_whole(number, '.');
    crate::text::lemma_pieces_concat(name, number, '.');
    assert(name + "."@ + number =~= name.push('.') + number);
    assert(pieces(name, '.') + seq![number] =~= pieces(name, '.').push(number));
}

/// Rotation and reading agree: whatever name rotation tries is that of an archive, in every case
/// in which the stamp is a date of eight digits.
pub proof fn law_rotated_files_are_archives(base: Seq<char>, stamp: Seq<char>, pid: nat, n: nat)
    requires
        all_digits(stamp),
        stamp.len() == 8,
    ensures
        archive_form(archive_candidate(base, stamp, pid, n)),
        (base + "."@).is_prefix_of(archive_candidate(base, stamp, pid, n)),
{
    crate::decimal::law_print_then_read(pid);
    crate::decimal::law_print_then_read(n);
    crate::text::lemma_pieces_nonempty(base, '.');
    let a = base + "."@ + stamp;
    let first = a + "."@ + nat_text(pid);
    lemma_numbered(base, stamp);
    lemma_numbered(a, nat_text(pid));
    lemma_numbered(first, nat_text(n));
    let i = pieces(base, '.').len() as int;
    let p = pieces(first, '.');
    assert(p[i] == stamp);
    assert(p[i + 1] == nat_text(pid));
    assert(archive_from(p, i));
    let name = archive_candidate(base, stamp, pid, n);
    if n > 0 {
        let q = pieces(name, '.');
        assert(q[i] == stamp);
        assert forall|j: int| i <= j < q.len() implies all_digits(#[trigger] q[j]) by {
            if j < p.len() {
                assert(q[j] == p[j]);
            }
        }
        assert(archive_from(q, i));
    }
    assert(name.subrange(0, (base + "."@).len() as int) =~= base + "."@);
}

/// Nothing of a text that ends at a line break is lost or changed by appending: the lines that are
/// read afterwards are the lines before and then the new one. The line holds no line break, is not
/// blank and does not end in a carriage return.
pub proof fn law_append_then_read(text: Seq<char>, line: Seq<char>)
    requires
        text.len() == 0 || text.last() == '\n',
        crate::json::one_line(line),
    ensures
        record_lines(text + appended(line)) == record_lines(text).push(line),
{
    reveal_strlit("\r");
    assert("\r"@ =~= seq!['\r']);
    let after = text + appended(line);
    let p = |l: Seq<char>| !is_blank(l);
    let nothing = Seq::<char>::empty();
    assert(line.len() > 0) by {
        if line.len() == 0 {
            assert(is_blank(line));
        }
    }
    crate::text::lemma_pieces_whole(line, '\n');
    crate::text::lemma_pieces_whole(nothing, '\n');
    crate::text::lemma_pieces_concat(line, nothing, '\n');
    assert(line.push('\n') + nothing =~= appended(line));
    assert(pieces(appended(line), '\n') =~= seq![line, nothing]);
    assert(without_return(line) == line) by {
        if "\r"@.is_suffix_of(line) {
            let tail = line.subrange(line.len() - 1, line.len() as int);
            assert(tail[0] == line.last());
            assert("\r"@[0] == '\r');
        }
    }
    if text.len() == 0 {
        assert(after =~= appended(line));
        let l = text_lines(after);
        assert(l =~= seq![line, nothing]);
        lemma_filter_none(l, p);
        lemma_filter_take(l, 0, p);
        lemma_filter_take(l, 1, p);
        assert(l.take(2) =~= l);
        assert(text =~= nothing);
        let t = text_lines(text);
        assert(t =~= seq![nothing]);
        lemma_filter_none(t, p);
        lemma_filter_take(t, 0, p);
        assert(t.take(1) =~= t);
    } else {
        let head = text.drop_last();
        assert(head.push('\n') =~= text);
        assert(head.push('\n') + nothing =~= text);
        crate::text::lemma_pieces_concat(head, nothing, '\n');
        crate::text::lemma_pieces_concat(head, appended(line), '\n');
        assert(head.push('\n') + appended(line) =~= after);
        let h = pieces(head, '\n');
        let n = h.len() as int;
        let t = text_lines(text);
        let l = text_lines(after);
        assert(pieces(text, '\n') =~= h.push(nothing));
        assert(pieces(after, '\n') =~= h.push(line).push(nothing));
        assert(t.take(n) =~= l.take(n));
        lemma_filter_take(t, n, p);
        assert(t.take(n + 1) =~= t);
        lemma_filter_take(l, n, p);
        lemma_filter_take(l, n + 1, p);
        assert(l.take(n + 2) =~= l);
        assert(l[n] == line);
        assert(t[n] == nothing);
        assert(l[n + 1] == nothing);
    }
}

/// A text of lines, each ended by a line break, reads back as those lines.
pub proof fn law_lines_read_back(lines: Seq<Seq<char>>)
    requires
        lines.len() > 0,
        forall|i: int| 0 <= i < lines.len() ==> crate::json::one_line(#[trigger] lines[i]),
    ensures
        record_lines(crate::text::joined(lines, "\n"@) + "\n"@) == lines,
    decreases lines.len(),
{
    reveal_strlit("\n");
    assert("\n"@ =~= seq!['\n']);
    let last = lines.last();
    let front = lines.drop_last();
    assert(crate::json::one_line(lines[lines.len() - 1]));
    let whole = crate::text::joined(lines, "\n"@) + "\n"@;
    if lines.len() == 1 {
        let nothing = Seq::<char>::empty();
        let p = |l: Seq<char>| !is_blank(l);
        assert(whole =~= nothing + appended(last));
        law_append_then_read(nothing, last);
        crate::text::lemma_pieces_whole(nothing, '\n');
        let t = text_lines(nothing);
        assert(t =~= seq![nothing]);
        lemma_filter_none(t, p);
        lemma_filter_take(t, 0, p);
        assert(t.take(1) =~= t);
        assert(record_lines(nothing) =~= Seq::<Seq<char>>::empty());
        assert(lines =~= seq![last]);
    } else {
        assert forall|i: int| 0 <= i < front.len() implies crate::json::one_line(
            #[trigger] front[i],
        ) by {
            assert(front[i] == lines[i]);
        }
        law_lines_read_back(front);
        let before = crate::text::joined(front, "\n"@) + "\n"@;
        assert(whole =~= before + appended(last));
        law_append_then_read(before, last);
        assert(front.push(last) =~= lines);
    }
}

// ---------------------------------------------------------------------------------------------
// The life of a log
// ---------------------------------------------------------------------------------------------

/// One change of a directory that holds a log: a line is appended, after the active file was
/// renamed to an archive where it was due; or an archive is removed.
#[verifier::ext_equal]
pub enum Change {
    Append { line: Seq<char>, rotated: Option<Seq<char>> },
    Remove { name: Seq<char> },
}

/// A name that rotation tries, on some day and in some process.
pub open spec fn rotation_name(name: Seq<char>, base: Seq<char>) -> bool {
    exists|stamp: Seq<char>, pid: nat, n: nat|
        all_digits(stamp) && stamp.len() == 8 && name == #[trigger] archive_candidate(
            base,
            stamp,
            pid,
            n,
        )
}

/// A change that can happen to a directory, its texts by name: rotation takes a name that is free,
/// and only an archive of the log is removed.
pub open spec fn possible(dir: Map<Seq<char>, Seq<char>>, base: Seq<char>, c: Change) -> bool {
    match c {
        Change::Append { line, rotated } => crate::json::one_line(line) && (rotated matches Some(t)
            ==> dir.contains_key(base) && !dir.contains_key(t) && rotation_name(t, base)),
        Change::Remove { name } => dir.contains_key(name) && archive_of(name, base),
    }
}

/// A directory after a change.
pub open spec fn changed(
    dir: Map<Seq<char>, Seq<char>>,
    base: Seq<char>,
    c: Change,
) -> Map<Seq<char>, Seq<char>> {
    match c {
        Change::Append { line, rotated } => match rotated {
            Some(t) => dir.insert(t, dir[base]).insert(base, appended(line)),
            None => dir.insert(
                base,
                (if dir.contains_key(base) {
                    dir[base]
                } else {
                    Seq::empty()
                }) + appended(line),
            ),
        },
        Change::Remove { name } => dir.remove(name),
    }
}

/// A directory after a number of changes.
pub open spec fn after(
    dir: Map<Seq<char>, Seq<char>>,
    base: Seq<char>,
    changes: Seq<Change>,
) -> Map<Seq<char>, Seq<char>>
    decreases changes.len(),
{
    if changes.len() == 0 {
        dir
    } else {
        changed(after(dir, base, changes.drop_last()), base, changes.last())
    }
}

/// Changes that can happen one after the other.
pub open spec fn all_possible(
    dir: Map<Seq<char>, Seq<char>>,
    base: Seq<char>,
    changes: Seq<Change>,
) -> bool
    decreases changes.len(),
{
    changes.len() == 0 || (all_possible(dir, base, changes.drop_last()) && possible(
        after(dir, base, changes.drop_last()),
        base,
        changes.last(),
    ))
}

/// The lines that changes append, in order.
pub open spec fn lines_appended(changes: Seq<Change>) -> Seq<Seq<char>>
    decreases changes.len(),
{
    if changes.len() == 0 {
        Seq::empty()
    } else {
        match changes.last() {
            Change::Append { line, .. } => lines_appended(changes.drop_last()).push(line),
            Change::Remove { .. } => lines_appended(changes.drop_last()),
        }
    }
}

/// The lines of the archives that changes remove.
pub open spec fn lines_removed(
    dir: Map<Seq<char>, Seq<char>>,
    base: Seq<char>,
    changes: Seq<Change>,
) -> Seq<Seq<char>>
    decreases changes.len(),
{
    if changes.len() == 0 {
        Seq::empty()
    } else {
        let rest = lines_removed(dir, base, changes.drop_last());
        match changes.last() {
            Change::Append { .. } => rest,
            Change::Remove { name } => rest + record_lines(
                after(dir, base, changes.drop_last())[name],
            ),
        }
    }
}

/// The lines that are read of files, one after the other.
pub open spec fn lines_in(
    dir: Map<Seq<char>, Seq<char>>,
    files: Seq<Seq<char>>,
) -> Seq<Seq<char>>
    decreases files.len(),
{
    if files.len() == 0 {
        Seq::empty()
    } else {
        lines_in(dir, files.drop_last()) + record_lines(dir[files.last()])
    }
}

/// `files` are the files of a log in a directory, in order.
spec fn log_files(
    files: Seq<Seq<char>>,
    dir: Map<Seq<char>, Seq<char>>,
    base: Seq<char>,
) -> bool {
    &&& ascending(files)
    &&& forall|x: Seq<char>| #[trigger]
        files.contains(x) <==> dir.contains_key(x) && belongs(x, base)
}

/// Every file of a log ends at a line break.
spec fn whole_lines(dir: Map<Seq<char>, Seq<char>>, base: Seq<char>) -> bool {
    forall|x: Seq<char>| #[trigger]
        dir.contains_key(x) && belongs(x, base) ==> dir[x].len() == 0 || dir[x].last() == '\n'
}

proof fn lemma_lines_agree(
    a: Map<Seq<char>, Seq<char>>,
    b: Map<Seq<char>, Seq<char>>,
    files: Seq<Seq<char>>,
)
    requires
        forall|i: int| 0 <= i < files.len() ==> a[#[trigger] files[i]] == b[files[i]],
    ensures
        lines_in(a, files) == lines_in(b, files),
    decreases files.len(),
{
    if files.len() > 0 {
        let front = files.drop_last();
        assert forall|i: int| 0 <= i < front.len() implies a[#[trigger] front[i]]
            == b[front[i]] by {
            assert(front[i] == files[i]);
        }
        lemma_lines_agree(a, b, front);
        assert(files[files.len() - 1] == files.last());
    }
}

proof fn lemma_lines_with(
    dir: Map<Seq<char>, Seq<char>>,
    files: Seq<Seq<char>>,
    at: int,
    x: Seq<char>,
)
    requires
        0 <= at <= files.len(),
    ensures
        lines_in(dir, files.insert(at, x)).to_multiset() == lines_in(dir, files).to_multiset().add(
            record_lines(dir[x]).to_multiset(),
        ),
    decreases files.len(),
{
    let all = files.insert(at, x);
    let rows = record_lines(dir[x]);
    if at == files.len() {
        assert(all.drop_last() =~= files);
        lemma_multiset_commutative(lines_in(dir, files), rows);
    } else {
        let front = files.drop_last();
        let last = record_lines(dir[files.last()]);
        assert(all.drop_last() =~= front.insert(at, x));
        assert(all.last() == files.last());
        lemma_lines_with(dir, front, at, x);
        lemma_multiset_commutative(lines_in(dir, front.insert(at, x)), last);
        lemma_multiset_commutative(lines_in(dir, front), last);
        assert(lines_in(dir, all).to_multiset() =~= lines_in(dir, files).to_multiset().add(
            rows.to_multiset(),
        ));
    }
}

/// An ascending list without one of its elements.
proof fn lemma_without(files: Seq<Seq<char>>, x: Seq<char>) -> (at: int)
    requires
        ascending(files),
        files.contains(x),
    ensures
        0 <= at < files.len(),
        files[at] == x,
        files.remove(at).insert(at, x) == files,
        ascending(files.remove(at)),
        forall|y: Seq<char>| #[trigger]
            files.remove(at).contains(y) <==> files.contains(y) && y != x,
{
    let at = files.index_of(x);
    let rest = files.remove(at);
    assert(rest.insert(at, x) =~= files);
    assert forall|i: int, j: int| 0 <= i < j < rest.len() implies before(
        #[trigger] rest[i],
        #[trigger] rest[j],
    ) by {
        let a = if i < at { i } else { i + 1 };
        let b = if j < at { j } else { j + 1 };
        assert(before(files[a], files[b]));
    }
    assert forall|y: Seq<char>| #[trigger] rest.contains(y) <==> files.contains(y) && y != x by {
        if rest.contains(y) {
            let i = rest.index_of(y);
            let a = if i < at { i } else { i + 1 };
            assert(files[a] == y);
            if y == x {
                if a < at {
                    assert(before(files[a], files[at]));
                } else {
                    assert(before(files[at], files[a]));
                }
                lemma_irreflexive(x);
            }
        }
        if files.contains(y) && y != x {
            let a = files.index_of(y);
            assert(rest[if a < at { a } else { a - 1 }] == y);
        }
    }
    at
}

/// One more line at the end of a file's text.
proof fn lemma_line_more(text: Seq<char>, line: Seq<char>)
    requires
        text.len() == 0 || text.last() == '\n',
        crate::json::one_line(line),
    ensures
        record_lines(text + appended(line)).to_multiset() == record_lines(
            text,
        ).to_multiset().insert(line),
{
    law_append_then_read(text, line);
    to_multiset_build(record_lines(text), line);
}

/// A text of nothing holds no line, and one of a line holds that line.
proof fn lemma_fresh_file(line: Seq<char>)
    requires
        crate::json::one_line(line),
    ensures
        record_lines(appended(line)).to_multiset() == Multiset::<Seq<char>>::empty().insert(line),
{
    let nothing = Seq::<char>::empty();
    let p = |l: Seq<char>| !is_blank(l);
    crate::text::lemma_pieces_whole(nothing, '\n');
    let t = text_lines(nothing);
    assert(t =~= seq![nothing]);
    lemma_filter_none(t, p);
    lemma_filter_take(t, 0, p);
    assert(t.take(1) =~= t);
    assert(record_lines(nothing) =~= Seq::<Seq<char>>::empty());
    assert(nothing + appended(line) =~= appended(line));
    lemma_line_more(nothing, line);
    to_multiset_len(record_lines(nothing));
    assert(record_lines(nothing).to_multiset() =~= Multiset::<Seq<char>>::empty());
}

/// The name of an archive is not that of the active file.
proof fn lemma_archive_is_not_active(name: Seq<char>, base: Seq<char>)
    requires
        (base + "."@).is_prefix_of(name),
    ensures
        name != base,
{
    reveal_strlit(".");
}

/// An append that does not rotate adds its line.
proof fn lemma_append_in_place(
    dir: Map<Seq<char>, Seq<char>>,
    base: Seq<char>,
    line: Seq<char>,
    files: Seq<Seq<char>>,
) -> (next: Seq<Seq<char>>)
    requires
        crate::json::one_line(line),
        whole_lines(dir, base),
        log_files(files, dir, base),
    ensures
        ({
            let now = changed(dir, base, Change::Append { line, rotated: None });
            &&& whole_lines(now, base)
            &&& log_files(next, now, base)
            &&& lines_in(now, next).to_multiset() == lines_in(dir, files).to_multiset().insert(line)
        }),
{
    let now = changed(dir, base, Change::Append { line, rotated: None });
    if dir.contains_key(base) {
        assert(belongs(base, base));
        assert(files.contains(base));
        let at = lemma_without(files, base);
        let rest = files.remove(at);
        assert forall|i: int| 0 <= i < rest.len() implies dir[#[trigger] rest[i]]
            == now[rest[i]] by {
            assert(rest.contains(rest[i]));
        }
        lemma_lines_agree(dir, now, rest);
        lemma_lines_with(dir, rest, at, base);
        lemma_lines_with(now, rest, at, base);
        lemma_line_more(dir[base], line);
        assert(lines_in(now, files).to_multiset() =~= lines_in(dir, files).to_multiset().insert(
            line,
        ));
        files
    } else {
        lemma_rank_bounds(files, base);
        lemma_inserted(files, base);
        let next = inserted(files, base);
        let at = rank_of(files, base);
        assert(!files.contains(base));
        assert forall|i: int| 0 <= i < files.len() implies dir[#[trigger] files[i]]
            == now[files[i]] by {
            assert(files.contains(files[i]));
        }
        lemma_lines_agree(dir, now, files);
        lemma_lines_with(now, files, at, base);
        lemma_fresh_file(line);
        assert(Seq::<char>::empty() + appended(line) =~= appended(line));
        assert(lines_in(now, next).to_multiset() =~= lines_in(dir, files).to_multiset().insert(
            line,
        ));
        next
    }
}

/// An append that rotates first keeps every line and adds its own.
proof fn lemma_append_rotated(
    dir: Map<Seq<char>, Seq<char>>,
    base: Seq<char>,
    line: Seq<char>,
    target: Seq<char>,
    files: Seq<Seq<char>>,
) -> (next: Seq<Seq<char>>)
    requires
        possible(dir, base, Change::Append { line, rotated: Some(target) }),
        whole_lines(dir, base),
        log_files(files, dir, base),
    ensures
        ({
            let now = changed(dir, base, Change::Append { line, rotated: Some(target) });
            &&& whole_lines(now, base)
            &&& log_files(next, now, base)
            &&& lines_in(now, next).to_multiset() == lines_in(dir, files).to_multiset().insert(line)
        }),
{
    let now = changed(dir, base, Change::Append { line, rotated: Some(target) });
    let (stamp, pid, n) = choose|stamp: Seq<char>, pid: nat, n: nat|
        all_digits(stamp) && stamp.len() == 8 && target == #[trigger] archive_candidate(
            base,
            stamp,
            pid,
            n,
        );
    law_rotated_files_are_archives(base, stamp, pid, n);
    lemma_archive_is_not_active(target, base);
    assert(belongs(target, base));
    assert(belongs(base, base));
    assert(files.contains(base));
    assert(!files.contains(target));
    let at = lemma_without(files, base);
    let rest = files.remove(at);
    assert forall|i: int| 0 <= i < rest.len() implies dir[#[trigger] rest[i]] == now[rest[i]] by {
        assert(rest.contains(rest[i]));
        assert(files.contains(rest[i]));
    }
    lemma_lines_agree(dir, now, rest);
    lemma_lines_with(dir, rest, at, base);
    lemma_lines_with(now, rest, at, base);
    lemma_fresh_file(line);
    lemma_rank_bounds(files, target);
    lemma_inserted(files, target);
    lemma_lines_with(now, files, rank_of(files, target), target);
    let next = inserted(files, target);
    assert(lines_in(now, next).to_multiset() =~= lines_in(dir, files).to_multiset().insert(line));
    next
}

/// Removing an archive removes its lines and no other.
proof fn lemma_removed(
    dir: Map<Seq<char>, Seq<char>>,
    base: Seq<char>,
    name: Seq<char>,
    files: Seq<Seq<char>>,
) -> (next: Seq<Seq<char>>)
    requires
        possible(dir, base, Change::Remove { name }),
        whole_lines(dir, base),
        log_files(files, dir, base),
    ensures
        ({
            let now = changed(dir, base, Change::Remove { name });
            &&& whole_lines(now, base)
            &&& log_files(next, now, base)
            &&& lines_in(now, next).to_multiset().add(record_lines(dir[name]).to_multiset())
                == lines_in(dir, files).to_multiset()
        }),
{
    let now = dir.remove(name);
    assert(files.contains(name));
    let at = lemma_without(files, name);
    let rest = files.remove(at);
    assert forall|i: int| 0 <= i < rest.len() implies dir[#[trigger] rest[i]] == now[rest[i]] by {
        assert(rest.contains(rest[i]));
    }
    lemma_lines_agree(dir, now, rest);
    lemma_lines_with(dir, rest, at, name);
    rest
}

proof fn lemma_life(
    dir: Map<Seq<char>, Seq<char>>,
    base: Seq<char>,
    changes: Seq<Change>,
) -> (files: Seq<Seq<char>>)
    requires
        forall|x: Seq<char>| #[trigger] dir.contains_key(x) ==> !belongs(x, base),
        all_possible(dir, base, changes),
    ensures
        whole_lines(after(dir, base, changes), base),
        log_files(files, after(dir, base, changes), base),
        lines_in(after(dir, base, changes), files).to_multiset().add(
            lines_removed(dir, base, changes).to_multiset(),
        ) == lines_appended(changes).to_multiset(),
    decreases changes.len(),
{
    if changes.len() == 0 {
        let none = Seq::<Seq<char>>::empty();
        to_multiset_len(none);
        assert(none.to_multiset().add(none.to_multiset()) =~= none.to_multiset());
        none
    } else {
        let front = changes.drop_last();
        let files = lemma_life(dir, base, front);
        let was = after(dir, base, front);
        let gone = lines_removed(dir, base, front);
        match changes.last() {
            Change::Append { line, rotated } => {
                let next = match rotated {
                    Some(t) => lemma_append_rotated(was, base, line, t, files),
                    None => lemma_append_in_place(was, base, line, files),
                };
                to_multiset_build(lines_appended(front), line);
                assert(lines_in(after(dir, base, changes), next).to_multiset().add(
                    gone.to_multiset(),
                ) =~= lines_appended(changes).to_multiset());
                next
            },
            Change::Remove { name } => {
                let next = lemma_removed(was, base, name, files);
                lemma_multiset_commutative(gone, record_lines(was[name]));
                assert(lines_in(after(dir, base, changes), next).to_multiset().add(
                    lines_removed(dir, base, changes).to_multiset(),
                ) =~= lines_appended(changes).to_multiset());
                next
            },
        }
    }
}

/// Whatever is appended to a log is read back: of a log that began without files, after any number
/// of appends, rotations and removals of archives, reading its files gives each line that was
/// appended as often as it was, less exactly the lines of the archives that were removed. `names`
/// are the names in the directory.
pub proof fn law_a_log_keeps_every_line(
    dir: Map<Seq<char>, Seq<char>>,
    base: Seq<char>,
    changes: Seq<Change>,
    names: Seq<Seq<char>>,
)
    requires
        forall|x: Seq<char>| #[trigger] dir.contains_key(x) ==> !belongs(x, base),
        all_possible(dir, base, changes),
        forall|x: Seq<char>| #[trigger]
            names.contains(x) <==> after(dir, base, changes).contains_key(x),
    ensures
        lines_in(after(dir, base, changes), files_of(names, base)).to_multiset().add(
            lines_removed(dir, base, changes).to_multiset(),
        ) == lines_appended(changes).to_multiset(),
{
    let now = after(dir, base, changes);
    let files = lemma_life(dir, base, changes);
    let p = |n: Seq<char>| belongs(n, base);
    let ours = names.filter(p);
    lemma_sorted_set(ours);
    broadcast use vstd::seq_lib::group_filter_ensures;

    assert forall|x: Seq<char>| #[trigger] files_of(names, base).contains(x)
        <==> files.contains(x) by {
        if ours.contains(x) {
            names.lemma_filter_contains_rev(p, x);
            assert(p(x));
        }
        assert(ours.contains(x) <==> names.contains(x) && p(x));
    }
    lemma_ascending_unique(files_of(names, base), files);
}

/// Without removals, what is read is a permutation of what was appended: rotation loses no line,
/// repeats none and makes none up.
pub proof fn law_rotation_loses_nothing(
    dir: Map<Seq<char>, Seq<char>>,
    base: Seq<char>,
    changes: Seq<Change>,
    names: Seq<Seq<char>>,
)
    requires
        forall|x: Seq<char>| #[trigger] dir.contains_key(x) ==> !belongs(x, base),
        all_possible(dir, base, changes),
        forall|i: int| 0 <= i < changes.len() ==> #[trigger] changes[i] is Append,
        forall|x: Seq<char>| #[trigger]
            names.contains(x) <==> after(dir, base, changes).contains_key(x),
    ensures
        lines_in(after(dir, base, changes), files_of(names, base)).to_multiset()
            == lines_appended(changes).to_multiset(),
{
    law_a_log_keeps_every_line(dir, base, changes, names);
    lemma_nothing_removed(dir, base, changes);
    let none = Seq::<Seq<char>>::empty();
    to_multiset_len(none);
    let read = lines_in(after(dir, base, changes), files_of(names, base)).to_multiset();
    assert(none.to_multiset() =~= Multiset::<Seq<char>>::empty());
    assert(read.add(none.to_multiset()) =~= read);
}

proof fn lemma_nothing_removed(
    dir: Map<Seq<char>, Seq<char>>,
    base: Seq<char>,
    changes: Seq<Change>,
)
    requires
        forall|i: int| 0 <= i < changes.len() ==> #[trigger] changes[i] is Append,
    ensures
        lines_removed(dir, base, changes) == Seq::<Seq<char>>::empty(),
    decreases changes.len(),
{
    if changes.len() > 0 {
        let front = changes.drop_last();
        assert forall|i: int| 0 <= i < front.len() implies #[trigger] front[i] is Append by {
            assert(front[i] == changes[i]);
        }
        lemma_nothing_removed(dir, base, front);
        assert(changes[changes.len() - 1] is Append);
    }
}

} // verus!
