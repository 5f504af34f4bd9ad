//! Where things are: the files of a log, the directories of a project, and what configuration and
//! wiring take from their surroundings.
use vstd::prelude::*;
use crate::active::{env_lines, hook_lines, needed, quoted, unwireable_events};
use crate::claude_settings::{hook_group_tree, telemetry, vocabulary};
use crate::config::{flag, nonempty, retention_of, rotate_of, sink_of, state_dir_of};
use crate::decimal::{all_digits, is_digit, law_print_then_read, nat_text};
use crate::json::compact_text;
use crate::project::{
    absolute, any_parent, branch_of, checkout_of, first_held, joined_path, lemma_parent_shorter,
    parent, project_of, redirect_of, tidy, upwards, ProjectModel,
};
use crate::registry::{base_name, binding_events, bindings_of, RegistryModel};
use crate::rolling::{
    aged_names, aged_out, archive_candidate, archive_form, archive_from, archive_name, files_of,
    newest_change, record_lines, stamp_of, step_after, text_lines, total_bytes, Aged, FileStat,
    ReadStep,
};
use crate::seqs::{lemma_filter_holds, lemma_filter_one};
use crate::service::{xml_char, xml_text};
use crate::sink::SinkKind;
use crate::sorted::{ascending, lemma_sorted_set, sorted_set};
use crate::text::{
    is_blank, last_at, lemma_pieces_concat, lemma_pieces_nonempty, lemma_pieces_whole, pieces,
    trimmed,
};
use crate::text_laws::{law_a_prefix_is_taken_off, law_last_halves_stand_around_the_last};

verus! {

// ---------------------------------------------------------------------------------------------
// Logs
// ---------------------------------------------------------------------------------------------

/// The files of a log are exactly its active file and its archives, each once and in order.
pub proof fn law_a_log_has_its_own_files(
    names: Seq<Seq<char>>,
    base: Seq<char>,
    name: Seq<char>,
)
    ensures
        files_of(names, base).contains(name) <==> names.contains(name) && (name == base || ((base
            + "."@).is_prefix_of(name) && archive_name(name))),
        ascending(files_of(names, base)),
{
    let p = |n: Seq<char>| crate::rolling::belongs(n, base);
    lemma_filter_holds(names, p, name);
    lemma_sorted_set(names.filter(p));
}

/// A name of three parts is that of an archive exactly where the second is a date of eight digits and
/// the third a number.
pub proof fn law_an_archive_has_a_date_and_a_number(
    base: Seq<char>,
    stamp: Seq<char>,
    number: Seq<char>,
)
    requires
        !base.contains('.'),
        !stamp.contains('.'),
        !number.contains('.'),
    ensures
        archive_form(base + seq!['.'] + stamp + seq!['.'] + number) <==> all_digits(stamp)
            && stamp.len() == 8 && all_digits(number),
{
    let name = base + seq!['.'] + stamp + seq!['.'] + number;
    let tail = stamp.push('.') + number;
    assert(name =~= base.push('.') + tail);
    lemma_pieces_concat(base, tail, '.');
    lemma_pieces_concat(stamp, number, '.');
    lemma_pieces_whole(base, '.');
    lemma_pieces_whole(stamp, '.');
    lemma_pieces_whole(number, '.');
    let p = pieces(name, '.');
    assert(p =~= seq![base, stamp, number]);
    if all_digits(stamp) && stamp.len() == 8 && all_digits(number) {
        assert forall|j: int| 1 <= j < p.len() implies all_digits(#[trigger] p[j]) by {}
        assert(archive_from(p, 1));
    }
    if archive_form(name) {
        let i = choose|i: int| archive_from(p, i);
        assert(i == 1);
        assert(all_digits(p[1]) && all_digits(p[2]));
    }
}

/// The stamp of a time is its year, month and day.
pub proof fn law_a_stamp_is_the_date(
    year: Seq<char>,
    month: Seq<char>,
    day: Seq<char>,
    rest: Seq<char>,
)
    requires
        year.len() == 4,
        month.len() == 2,
        day.len() == 2,
        !year.contains('-'),
        !month.contains('-'),
        !day.contains('-'),
    ensures
        stamp_of(year + seq!['-'] + month + seq!['-'] + day + rest) == year + month + day,
{
    let p = |c: char| c != '-';
    let ts = year + seq!['-'] + month + seq!['-'] + day + rest;
    let date = year + seq!['-'] + month + seq!['-'] + day;
    assert(ts.take(10) =~= date);
    lemma_keeps(year, p);
    lemma_keeps(month, p);
    lemma_keeps(day, p);
    lemma_filter_one('-', p);
    Seq::<char>::filter_distributes_over_add(year + seq!['-'] + month + seq!['-'], day, p);
    Seq::<char>::filter_distributes_over_add(year + seq!['-'] + month, seq!['-'], p);
    Seq::<char>::filter_distributes_over_add(year + seq!['-'], month, p);
    Seq::<char>::filter_distributes_over_add(year, seq!['-'], p);
    let none = Seq::<char>::empty();
    assert(year + none + month + none + day =~= year + month + day);
}

proof fn lemma_keeps(s: Seq<char>, p: spec_fn(char) -> bool)
    requires
        !s.contains('-'),
        p == (|c: char| c != '-'),
    ensures
        s.filter(p) == s,
{
    assert forall|i: int| 0 <= i < s.len() implies p(#[trigger] s[i]) by {
        assert(s.contains(s[i]));
    }
    crate::seqs::lemma_filter_all(s, p);
}

/// No two of the names that rotation tries are the same: a later try takes nothing that an earlier
/// one took.
pub proof fn law_every_try_has_its_own_name(
    base: Seq<char>,
    stamp: Seq<char>,
    pid: nat,
    n: nat,
    m: nat,
)
    requires
        n != m,
    ensures
        archive_candidate(base, stamp, pid, n) != archive_candidate(base, stamp, pid, m),
{
    reveal_strlit(".");
    law_print_then_read(n);
    law_print_then_read(m);
    let first = base + "."@ + stamp + "."@ + nat_text(pid);
    let head = first + "."@;
    let a = archive_candidate(base, stamp, pid, n);
    let b = archive_candidate(base, stamp, pid, m);
    if a == b {
        if n == 0 || m == 0 {
            assert(a.len() == b.len());
        } else {
            assert(a.skip(head.len() as int) =~= nat_text(n));
            assert(b.skip(head.len() as int) =~= nat_text(m));
        }
    }
}

/// The lines of two texts, the first up to a line break, are those of the first and then those of the
/// second. A line without a break in it is one line where it says something; a carriage return in
/// front of the break is not part of it.
pub proof fn law_lines_add_up(a: Seq<char>, b: Seq<char>, line: Seq<char>)
    requires
        !line.contains('\n'),
        line.len() > 0 ==> line.last() != '\r',
    ensures
        text_lines(a.push('\n') + b).len() == text_lines(a).len() + text_lines(b).len(),
        forall|i: int|
            0 <= i < text_lines(b).len() ==> #[trigger] text_lines(a.push('\n') + b)[text_lines(
                a,
            ).len() + i] == text_lines(b)[i],
        text_lines(line + seq!['\n'] + b)[0] == line,
        text_lines(line + seq!['\r', '\n'] + b)[0] == line,
        record_lines(line) == if is_blank(line) {
            Seq::empty()
        } else {
            seq![line]
        },
{
    lemma_pieces_concat(a, b, '\n');
    let x = pieces(a, '\n');
    let y = pieces(b, '\n');
    assert(pieces(a.push('\n') + b, '\n') == x + y);
    lemma_pieces_nonempty(b, '\n');
    assert forall|i: int| 0 <= i < text_lines(b).len() implies #[trigger] text_lines(
        a.push('\n') + b,
    )[text_lines(a).len() + i] == text_lines(b)[i] by {
        assert((x + y)[x.len() + i] == y[i]);
    }
    reveal_strlit("\r");
    lemma_pieces_whole(line, '\n');
    assert(line + seq!['\n'] + b =~= line.push('\n') + b);
    lemma_pieces_concat(line, b, '\n');
    assert(pieces(line + seq!['\n'] + b, '\n') == seq![line] + y);
    assert(!"\r"@.is_suffix_of(line)) by {
        if "\r"@.is_suffix_of(line) {
            assert(line.subrange(line.len() - 1, line.len() as int)[0] == line.last());
        }
    }
    let ended = line.push('\r');
    assert(!ended.contains('\n')) by {
        if ended.contains('\n') {
            let k = ended.index_of('\n');
            assert(line[k] == '\n');
        }
    }
    lemma_pieces_whole(ended, '\n');
    assert(line + seq!['\r', '\n'] + b =~= ended.push('\n') + b);
    lemma_pieces_concat(ended, b, '\n');
    assert("\r"@.is_suffix_of(ended)) by {
        assert(ended.subrange(ended.len() - 1, ended.len() as int) =~= "\r"@);
    }
    assert(ended.take(ended.len() - 1) =~= line);
    assert(text_lines(line) =~= seq![line]);
    lemma_filter_one(line, |l: Seq<char>| !is_blank(l));
}

/// A pass over files is accepted exactly where there is no directory, or no file vanished and the
/// files are the same afterwards; else it is tried again, four times in all, and what can be read is
/// taken after the last.
pub proof fn law_a_pass_is_accepted_where_nothing_moved(
    pass: nat,
    before: Option<Seq<Seq<char>>>,
    vanished: bool,
    after: Option<Seq<Seq<char>>>,
)
    ensures
        step_after(pass, before, vanished, after) == ReadStep::Accept <==> before is None || (
        !vanished && after == before),
        step_after(pass, before, vanished, after) == ReadStep::Retry ==> pass < 3,
        step_after(pass, before, vanished, after) == ReadStep::BestEffort ==> pass >= 3,
{
}

/// The bytes of two lists of files are those of the first and those of the second; a file that could
/// not be read counts for none.
pub proof fn law_bytes_add_up(a: Seq<FileStat>, b: Seq<FileStat>, one: FileStat)
    ensures
        total_bytes(a + b) == total_bytes(a) + total_bytes(b),
        one.bytes matches Some(n) ==> total_bytes(seq![one]) == n,
        one.bytes is None ==> total_bytes(seq![one]) == 0,
    decreases b.len(),
{
    let s = seq![one];
    assert(s.drop_last() =~= Seq::<FileStat>::empty());
    assert(total_bytes(s.drop_last()) == 0);
    assert(s.last() == one);
    if b.len() == 0 {
        assert(a + b =~= a);
    } else {
        law_bytes_add_up(a, b.drop_last(), one);
        assert((a + b).drop_last() =~= a + b.drop_last());
        assert((a + b).last() == b.last());
    }
}

/// A file whose time of change could be read.
pub open spec fn timed(f: FileStat) -> bool {
    f.bytes is Some && f.modified is Some
}

/// The newest time of change is that of one of the files that could be read, and none of them is
/// newer.
pub proof fn law_the_newest_change_is_the_latest(files: Seq<FileStat>)
    ensures
        match newest_change(files) {
            Some(t) => {
                &&& exists|i: int|
                    0 <= i < files.len() && timed(#[trigger] files[i]) && files[i].modified == Some(
                        t,
                    )
                &&& forall|i: int|
                    0 <= i < files.len() && timed(#[trigger] files[i]) ==> files[i].modified->0 <= t
            },
            None => forall|i: int| 0 <= i < files.len() ==> !timed(#[trigger] files[i]),
        },
    decreases files.len(),
{
    if files.len() > 0 {
        let init = files.drop_last();
        law_the_newest_change_is_the_latest(init);
        let n = files.len() - 1;
        assert(files[n] == files.last());
        assert forall|i: int| 0 <= i < n implies #[trigger] files[i] == init[i] by {}
        if let Some(t) = newest_change(files) {
            if timed(files.last()) && files.last().modified == Some(t) {
                assert(timed(files[n]));
            } else {
                let i = choose|i: int|
                    0 <= i < init.len() && timed(#[trigger] init[i]) && init[i].modified == Some(t);
                assert(timed(files[i]));
            }
        }
    }
}

/// The names of files that are picked out are those of the first list and then those of the second,
/// and a file is among them exactly where it is picked.
pub proof fn law_picked_names_add_up(
    a: Seq<Aged>,
    b: Seq<Aged>,
    one: Aged,
    pick: spec_fn(Aged) -> bool,
    cutoff: i64,
)
    ensures
        aged_names(a + b, pick) == aged_names(a, pick) + aged_names(b, pick),
        aged_names(seq![one], pick) == if pick(one) {
            seq![one.name@]
        } else {
            Seq::empty()
        },
        aged_out(one, cutoff) <==> one.modified is Some && one.modified->0 < cutoff,
{
    Seq::<Aged>::filter_distributes_over_add(a, b, pick);
    lemma_filter_one(one, pick);
    assert(aged_names(a + b, pick) =~= aged_names(a, pick) + aged_names(b, pick));
    assert(aged_names(seq![one], pick) =~= if pick(one) {
        seq![one.name@]
    } else {
        Seq::empty()
    });
}

// ---------------------------------------------------------------------------------------------
// Projects
// ---------------------------------------------------------------------------------------------

/// A directory is held by the one that its path goes on from.
pub proof fn law_a_directory_is_held_by_its_parent(dir: Seq<char>, name: Seq<char>)
    requires
        name.len() > 0,
        !name.contains('/'),
        name != seq!['.'],
        dir.len() > 0 ==> absolute(dir) && dir.last() != '/' && tidy(dir) == dir,
    ensures
        dir.len() > 0 ==> parent(dir + seq!['/'] + name) == Some(dir),
        parent(seq!['/'] + name) == Some(seq!['/']),
        parent(seq!['/']) is None,
{
    lemma_tidy_name(dir, name);
    law_last_halves_stand_around_the_last(dir + seq!['/'] + name, '/', dir, name);
    let top = Seq::<char>::empty();
    lemma_tidy_name(top, name);
    assert(top + seq!['/'] + name =~= seq!['/'] + name);
    law_last_halves_stand_around_the_last(seq!['/'] + name, '/', top, name);
    let p = dir + seq!['/'] + name;
    lemma_cut(p, dir, name);
    lemma_cut(seq!['/'] + name, top, name);
    assert(p.take(dir.len() as int) =~= dir);
}

proof fn lemma_cut(s: Seq<char>, a: Seq<char>, b: Seq<char>)
    requires
        s == a + seq!['/'] + b,
        !b.contains('/'),
    ensures
        last_at(s, '/', '/') == a.len(),
    decreases b.len(),
{
    if b.len() == 0 {
        assert(s.last() == '/');
    } else {
        assert(s.last() == b.last());
        assert(b.contains(b.last()));
        let d = b.drop_last();
        assert(!d.contains('/')) by {
            if d.contains('/') {
                let k = d.index_of('/');
                assert(b[k] == '/');
            }
        }
        assert(s.drop_last() =~= a + seq!['/'] + d);
        lemma_cut(s.drop_last(), a, d);
    }
}

proof fn lemma_tidy_name(dir: Seq<char>, name: Seq<char>)
    requires
        name.len() > 0,
        !name.contains('/'),
        name != seq!['.'],
    ensures
        tidy(dir + seq!['/'] + name) == dir + seq!['/'] + name,
{
    let p = dir + seq!['/'] + name;
    assert(p.last() == name.last());
    assert(name.contains(name.last()));
    if name.len() == 1 {
        assert(name =~= seq![name[0]]);
        assert(name.last() == name[0]);
    } else {
        assert(p[p.len() - 2] == name[name.len() - 2]);
        assert(name.contains(name[name.len() - 2]));
    }
}

/// The directory of an absolute path is its parent, and an empty path lies nowhere.
pub proof fn law_an_absolute_path_lies_in_its_parent(path: Seq<char>)
    ensures
        absolute(path) ==> any_parent(path) == parent(path),
        !absolute(path) && path.len() > 0 ==> any_parent(path) is Some,
        any_parent(Seq::empty()) is None,
{
}

/// The directories above a path are the path itself and then each one's parent, up to the one that
/// has none.
pub proof fn law_upwards_goes_from_parent_to_parent(path: Seq<char>)
    ensures
        upwards(path).len() > 0,
        upwards(path)[0] == path,
        forall|i: int|
            0 <= i < upwards(path).len() - 1 ==> parent(#[trigger] upwards(path)[i]) == Some(
                upwards(path)[i + 1],
            ),
        parent(upwards(path).last()) is None,
    decreases path.len(),
{
    lemma_parent_shorter(path);
    match parent(path) {
        Some(p) => {
            law_upwards_goes_from_parent_to_parent(p);
            let rest = upwards(p);
            let all = upwards(path);
            assert(all == seq![path] + rest);
            assert forall|i: int| 0 <= i < all.len() - 1 implies parent(#[trigger] all[i]) == Some(
                all[i + 1],
            ) by {
                assert(all[i + 1] == rest[i]);
                if i > 0 {
                    assert(all[i] == rest[i - 1]);
                    assert(parent(rest[i - 1]) == Some(rest[i - 1 + 1]));
                }
            }
            assert(all.last() == rest.last());
        },
        None => {},
    }
}

/// The working tree is the nearest directory that holds what is looked for, and there is none
/// exactly where no directory does.
pub proof fn law_the_nearest_directory_is_the_root(dirs: Seq<Seq<char>>, held: Seq<bool>)
    requires
        dirs.len() == held.len(),
    ensures
        match first_held(dirs, held) {
            Some(d) => exists|i: int|
                0 <= i < dirs.len() && #[trigger] held[i] && dirs[i] == d && forall|j: int|
                    0 <= j < i ==> !#[trigger] held[j],
            None => forall|j: int| 0 <= j < held.len() ==> !#[trigger] held[j],
        },
    decreases dirs.len(),
{
    if dirs.len() > 0 && !held[0] {
        let d = dirs.skip(1);
        let h = held.skip(1);
        law_the_nearest_directory_is_the_root(d, h);
        match first_held(d, h) {
            Some(x) => {
                let i = choose|i: int|
                    0 <= i < d.len() && #[trigger] h[i] && d[i] == x && forall|j: int|
                        0 <= j < i ==> !#[trigger] h[j];
                assert(held[i + 1]);
                assert(dirs[i + 1] == x);
                assert forall|j: int| 0 <= j < i + 1 implies !#[trigger] held[j] by {
                    if j > 0 {
                        assert(h[j - 1] == held[j]);
                    }
                }
            },
            None => {
                assert forall|j: int| 0 <= j < held.len() implies !#[trigger] held[j] by {
                    if j > 0 {
                        assert(h[j - 1] == held[j]);
                    }
                }
            },
        }
    } else if dirs.len() > 0 {
        assert(held[0]);
    }
}

/// A path below a directory goes on from it, with one separator between; an absolute one stands for
/// itself.
pub proof fn law_a_path_goes_on_from_its_base(base: Seq<char>, rel: Seq<char>)
    ensures
        absolute(rel) ==> joined_path(base, rel) == rel,
        !absolute(rel) && base.len() > 0 && base.last() != '/' ==> joined_path(base, rel) == base
            + seq!['/'] + rel,
        !absolute(rel) && base.len() > 0 && base.last() == '/' ==> joined_path(base, rel) == base
            + rel,
        !absolute(rel) && base.len() == 0 ==> joined_path(base, rel) == rel,
{
    reveal_strlit("/");
    assert("/"@ =~= seq!['/']);
    if base.len() == 0 {
        assert(base + rel =~= rel);
    }
}

/// A branch is what a head names behind the prefix of branches; and a redirect names the directory
/// behind its own.
pub proof fn law_a_head_names_its_branch(
    head: Seq<char>,
    branch: Seq<char>,
    root: Seq<char>,
    dir: Seq<char>,
)
    ensures
        branch_of(head) == Some(branch) <==> trimmed(head) == "ref: refs/heads/"@ + branch,
        redirect_of(root, "gitdir:"@ + dir) == Some(joined_path(root, trimmed(dir))),
        !"gitdir:"@.is_prefix_of(dir) ==> redirect_of(root, dir) is None,
{
    law_a_prefix_is_taken_off(trimmed(head), "ref: refs/heads/"@, branch);
    law_a_prefix_is_taken_off("gitdir:"@ + dir, "gitdir:"@, dir);
}

/// The checkout of a shared directory is the directory that holds it, where it is called `.git`; a
/// tree that records one is of that checkout's project, and any other stands for itself. A project
/// is labelled by the last component of its root.
pub proof fn law_a_project_is_its_checkout(dir: Seq<char>, tree: Seq<char>)
    requires
        absolute(dir),
        dir.last() != '/',
        tidy(dir) == dir,
    ensures
        checkout_of(dir + seq!['/'] + ".git"@) == Some(dir),
        project_of(Some(tree), Some(dir + seq!['/'] + ".git"@)) == Some(
            ProjectModel { key: dir, label: base_name(dir) },
        ),
        project_of(Some(tree), None) == Some(ProjectModel { key: tree, label: base_name(tree) }),
        project_of(None, Some(dir)) is None,
        project_of(None, None) is None,
{
    reveal_strlit(".git");
    reveal_strlit(".");
    reveal_strlit("..");
    let name = ".git"@;
    assert(name.len() == 4);
    assert(!name.contains('/')) by {
        if name.contains('/') {
            let k = name.index_of('/');
            assert(name[k] == '/');
        }
    }
    law_a_directory_is_held_by_its_parent(dir, name);
    let common = dir + seq!['/'] + name;
    assert(common =~= dir.push('/') + name);
    lemma_pieces_concat(dir, name, '/');
    lemma_pieces_whole(name, '/');
    let keep = |p: Seq<char>| p.len() > 0 && p != "."@;
    Seq::<Seq<char>>::filter_distributes_over_add(pieces(dir, '/'), seq![name], keep);
    lemma_filter_one(name, keep);
    let f = pieces(dir, '/').filter(keep);
    assert((f + seq![name]).last() == name);
}

// ---------------------------------------------------------------------------------------------
// Surroundings
// ---------------------------------------------------------------------------------------------

/// A directory of another name than that of a repository belongs to no checkout.
pub proof fn law_only_a_repository_has_a_checkout(dir: Seq<char>, name: Seq<char>)
    requires
        name.len() > 0,
        !name.contains('/'),
        name != "."@,
        name != ".git"@,
    ensures
        checkout_of(dir + seq!['/'] + name) is None,
        checkout_of(name) is None,
        checkout_of(Seq::empty()) is None,
{
    let keep = |p: Seq<char>| p.len() > 0 && p != "."@;
    assert(dir + seq!['/'] + name =~= dir.push('/') + name);
    lemma_pieces_concat(dir, name, '/');
    lemma_pieces_whole(name, '/');
    Seq::<Seq<char>>::filter_distributes_over_add(pieces(dir, '/'), seq![name], keep);
    lemma_filter_one(name, keep);
    let f = pieces(dir, '/').filter(keep);
    assert((f + seq![name]).last() == name);
    assert(seq![name].last() == name);
    let nothing = Seq::<char>::empty();
    assert(pieces(nothing, '/') =~= seq![nothing]);
    lemma_filter_one(nothing, keep);
}

/// The escaped form of two texts is that of the first and then that of the second; three characters
/// are written by their names, and any other is itself.
pub proof fn law_escaping_adds_up(a: Seq<char>, b: Seq<char>, c: char)
    ensures
        xml_text(a + b) == xml_text(a) + xml_text(b),
        xml_text(seq!['&']) == "&amp;"@,
        xml_text(seq!['<']) == "&lt;"@,
        xml_text(seq!['>']) == "&gt;"@,
        c != '&' && c != '<' && c != '>' ==> xml_text(seq![c]) == seq![c],
    decreases b.len(),
{
    lemma_xml_one('&');
    lemma_xml_one('<');
    lemma_xml_one('>');
    lemma_xml_one(c);
    if b.len() == 0 {
        assert(a + b =~= a);
        assert(xml_text(a) + xml_text(b) =~= xml_text(a));
    } else {
        law_escaping_adds_up(a, b.drop_last(), c);
        assert((a + b).drop_last() =~= a + b.drop_last());
        assert((a + b).last() == b.last());
        assert(xml_text(a + b) =~= xml_text(a) + xml_text(b));
    }
}

proof fn lemma_xml_one(c: char)
    ensures
        xml_text(seq![c]) == xml_char(c),
{
    let s = seq![c];
    assert(s.drop_last() =~= Seq::<char>::empty());
    assert(xml_text(s.drop_last()) =~= Seq::<char>::empty());
    assert(s.last() == c);
    assert(xml_text(s) =~= xml_char(c));
}

/// A flag is on exactly where its variable is set to one. The state directory is the one that is
/// set, unless it is empty, and the default else; tests have their own below it.
pub proof fn law_the_environment_is_taken_as_it_is_set(set: String, default: Seq<char>)
    ensures
        !flag(None),
        flag(Some(set)) <==> set@ == seq!['1'],
        state_dir_of(None, default, false) == default,
        set@.len() > 0 ==> state_dir_of(Some(set), default, false) == set@,
        set@.len() == 0 ==> state_dir_of(Some(set), default, false) == default,
        state_dir_of(Some(set), default, true) == joined_path(
            state_dir_of(Some(set), default, false),
            "_test"@,
        ),
        state_dir_of(None, default, true) == joined_path(default, "_test"@),
{
    reveal_strlit("1");
    assert("1"@ =~= seq!['1']);
}

/// A number that is set is taken where it is within bounds, and the default else: the threshold is
/// any positive number, and retention any number of days up to the greatest.
pub proof fn law_a_number_is_taken_within_its_bounds(set: String, n: nat)
    requires
        set@ == nat_text(n),
    ensures
        rotate_of(None) == 10_485_760,
        retention_of(None) == 90,
        0 < n <= u64::MAX ==> rotate_of(Some(set)) == n,
        n == 0 || n > u64::MAX ==> rotate_of(Some(set)) == 10_485_760,
        0 < n <= 100_000 ==> retention_of(Some(set)) == n,
        n == 0 || n > 100_000 ==> retention_of(Some(set)) == 90,
{
    law_print_then_read(n);
    assert(is_digit(set@[0]));
}

/// What is no number leaves the default; and a backend is the one named, or else the first.
pub proof fn law_what_cannot_be_read_leaves_the_default(set: String)
    ensures
        crate::decimal::int_value(set@) is None ==> rotate_of(Some(set)) == 10_485_760
            && retention_of(Some(set)) == 90,
        sink_of(Some(set)) == SinkKind::Sqlite <==> set@ == "sqlite"@,
        sink_of(None) == SinkKind::Jsonl,
{
    reveal_strlit("sqlite");
    reveal_strlit("jsonl");
    assert("sqlite"@.len() != "jsonl"@.len());
}

/// A list loses its empty entries, and nothing else.
pub proof fn law_empty_entries_are_left_out(a: Seq<Seq<char>>, b: Seq<Seq<char>>, one: Seq<char>)
    ensures
        nonempty(a + b) == nonempty(a) + nonempty(b),
        nonempty(seq![one]) == if one.len() > 0 {
            seq![one]
        } else {
            Seq::empty()
        },
{
    let p = |s: Seq<char>| s.len() > 0;
    Seq::<Seq<char>>::filter_distributes_over_add(a, b, p);
    lemma_filter_one(one, p);
}

/// An event is wired exactly where it starts a session or some binding consumes it.
pub proof fn law_an_event_is_wired_where_it_is_consumed(reg: RegistryModel, event: Seq<char>)
    ensures
        needed(reg, event) <==> event == "SessionStart"@ || exists|i: int|
            0 <= i < reg.bindings.len() && (#[trigger] reg.bindings[i]).event == event,
{
    let p = |b: crate::registry::BindingModel| b.event == event;
    let found = bindings_of(reg.bindings, event);
    if found.len() > 0 {
        lemma_filter_holds(reg.bindings, p, found[0]);
        assert(found.contains(found[0]));
        let i = reg.bindings.index_of(found[0]);
        assert(reg.bindings[i].event == event);
    }
    if exists|i: int| 0 <= i < reg.bindings.len() && (#[trigger] reg.bindings[i]).event == event {
        let i = choose|i: int|
            0 <= i < reg.bindings.len() && (#[trigger] reg.bindings[i]).event == event;
        lemma_filter_holds(reg.bindings, p, reg.bindings[i]);
        assert(reg.bindings.contains(reg.bindings[i]));
        assert(found.contains(reg.bindings[i]));
        assert(found.len() > 0) by {
            let k = found.index_of(reg.bindings[i]);
            assert(found[k] == reg.bindings[i]);
        }
    }
}

/// An event is said to be beyond wiring exactly where a binding names it and the vocabulary does not.
pub proof fn law_a_binding_beyond_wiring_is_named(reg: RegistryModel, event: Seq<char>)
    ensures
        unwireable_events(reg).contains(event) <==> (exists|i: int|
            0 <= i < reg.bindings.len() && (#[trigger] reg.bindings[i]).event == event)
            && !vocabulary().contains(event),
{
    let events = binding_events(reg.bindings);
    let p = |ev: Seq<char>| !vocabulary().contains(ev);
    lemma_sorted_set(events);
    lemma_filter_holds(sorted_set(events), p, event);
    assert(sorted_set(events).contains(event) <==> events.contains(event));
    if events.contains(event) {
        let i = events.index_of(event);
        assert(reg.bindings[i].event == event);
    }
    if exists|i: int| 0 <= i < reg.bindings.len() && (#[trigger] reg.bindings[i]).event == event {
        let i = choose|i: int|
            0 <= i < reg.bindings.len() && (#[trigger] reg.bindings[i]).event == event;
        assert(events[i] == event);
    }
}

/// The block to paste has a line for every variable and one for every event, which runs the command.
pub proof fn law_the_block_has_a_line_for_each(
    command: Seq<char>,
    events: Seq<Seq<char>>,
    i: int,
    k: int,
)
    requires
        0 <= i < events.len(),
        0 <= k < telemetry().len(),
    ensures
        hook_lines(command, events).len() == events.len(),
        hook_lines(command, events)[i] == "    "@ + quoted(events[i]) + ": ["@ + compact_text(
            hook_group_tree(command),
        ) + "]"@,
        env_lines().len() == telemetry().len(),
        env_lines()[k] == "    "@ + quoted(telemetry()[k].0) + ": "@ + quoted(telemetry()[k].1),
{
}

} // verus!
