//! The session index: which project each session belongs to.
//!
//! The index is an append-only log with one line for each session start. Reading folds it to one
//! row for each session; the latest line wins, wherever in the log it stands.
use vstd::prelude::*;
use crate::assoc::{entries, find, keys_of, lists, put};
use crate::claude_settings::slot;
use crate::clock::{instant, is_not_later, not_later, now_iso_utc, parse_instant};
use crate::json::{
    find_member, member_list, members, object_text, parse, parsed, write_object, Json, Tree,
};
use crate::project::{ProjectModel, ProjectRef};
use crate::rolling::{
    aged_names, archive_of, aged_out, newest_change, prune_archives_of, Aged, FileStat, Fingerprint,
};
use crate::shape::{any, flat, lemma_flat, shape, shaped, Shape};
use crate::text::{owned, views};

verus! {

broadcast use vstd::map::group_map_axioms;

/// The name of the active index file.
pub const INDEX_BASE: &'static str = "session_index.jsonl";

/// One line of the index.
#[derive(Debug)]
pub struct IndexLine {
    pub session_id: String,
    pub project_key: String,
    pub project_label: String,
    pub ts: String,
}

/// What a line says.
#[verifier::ext_equal]
pub struct LineModel {
    pub session: Seq<char>,
    pub key: Seq<char>,
    pub label: Seq<char>,
    pub ts: Seq<char>,
}

impl IndexLine {
    pub open spec fn model(self) -> LineModel {
        LineModel {
            session: self.session_id@,
            key: self.project_key@,
            label: self.project_label@,
            ts: self.ts@,
        }
    }
}

/// The models of a list of lines.
pub open spec fn line_models(v: Seq<IndexLine>) -> Seq<LineModel> {
    Seq::new(v.len(), |i: int| v[i].model())
}

/// The members of a line, in the order in which they are written.
pub open spec fn index_members(l: LineModel) -> Seq<(Seq<char>, Tree)> {
    seq![
        ("session_id"@, Tree::Str(l.session)),
        ("project_key"@, Tree::Str(l.key)),
        ("project_label"@, Tree::Str(l.label)),
        ("ts"@, Tree::Str(l.ts)),
    ]
}

/// The text of a line.
pub open spec fn index_text(l: LineModel) -> Seq<char> {
    object_text(index_members(l))
}

/// The fields of a line, in the order in which it may give them without their names.
pub open spec fn index_shape() -> Shape {
    any("session_id", any("project_key", any("project_label", any("ts", Shape::End))))
}

/// The line that a tree holds. A line without a time has the empty one, which is no instant and so
/// loses against any that has one.
pub open spec fn index_line_of(t: Tree) -> Option<LineModel> {
    match shaped(t, index_shape()) {
        Tree::Obj(m) => match (
            slot(m, "session_id"@),
            slot(m, "project_key"@),
            slot(m, "project_label"@),
            slot(m, "ts"@),
        ) {
            (
                Some(Tree::Str(session)),
                Some(Tree::Str(key)),
                Some(Tree::Str(label)),
                Some(Tree::Str(ts)),
            ) => Some(LineModel { session, key, label, ts }),
            (Some(Tree::Str(session)), Some(Tree::Str(key)), Some(Tree::Str(label)), None) => Some(
                LineModel { session, key, label, ts: Seq::empty() },
            ),
            _ => None,
        },
        _ => None,
    }
}

/// The line of a text.
pub open spec fn read_index_line(line: Seq<char>) -> Option<LineModel> {
    match parsed(line) {
        Ok(t) => index_line_of(t),
        Err(_) => None,
    }
}

fn string_member(m: &Vec<(String, Json)>, key: &str) -> (r: Option<String>)
    ensures
        match r {
            Some(s) => slot(members(m@), key@) == Some(Tree::Str(s@)),
            None => !(slot(members(m@), key@) matches Some(Tree::Str(_))),
        },
{
    let at = find_member(m, key);
    if at < m.len() {
        match &m[at].1 {
            Json::Str(s) => Some(owned(s)),
            _ => None,
        }
    } else {
        None
    }
}

fn index_line(t: &Json) -> (r: Option<IndexLine>)
    ensures
        match r {
            Some(l) => index_line_of(t.view()) == Some(l.model()),
            None => index_line_of(t.view()) is None,
        },
{
    let fields = any(
        "session_id",
        any("project_key", any("project_label", any("ts", Shape::End))),
    );
    let m = match shape(t, &fields) {
        Json::Object(m) => m,
        _ => {
            return None;
        },
    };
    let at = find_member(&m, "ts");
    let ts = if at < m.len() {
        string_member(&m, "ts")
    } else {
        let s = String::new();
        assert(s@ =~= Seq::<char>::empty());
        Some(s)
    };
    match (
        string_member(&m, "session_id"),
        string_member(&m, "project_key"),
        string_member(&m, "project_label"),
        ts,
    ) {
        (Some(session_id), Some(project_key), Some(project_label), Some(ts)) => Some(
            IndexLine { session_id, project_key, project_label, ts },
        ),
        _ => None,
    }
}

/// Read one line of the index; a malformed one yields nothing. A line that was written reads back
/// as what was written.
///
/// The line is read as a JSON value first: every member is judged, also one that a line does not
/// have, and where a member is repeated its last value counts.
pub fn parse_index_line(line: &str) -> (r: Option<IndexLine>)
    ensures
        match r {
            Some(l) => read_index_line(line@) == Some(l.model()),
            None => read_index_line(line@) is None,
        },
        forall|l: LineModel|
            line@ == #[trigger] index_text(l) ==> (r matches Some(got) && got.model() == l),
{
    match parse(line) {
        Ok(t) => {
            proof {
                assert forall|l: LineModel| line@ == #[trigger] index_text(l) implies index_line_of(
                    t.view(),
                ) == Some(l) by {
                    lemma_index_round_trip(l);
                }
            }
            index_line(&t)
        },
        Err(_) => {
            proof {
                assert forall|l: LineModel| line@ != #[trigger] index_text(l) by {
                    lemma_index_round_trip(l);
                }
            }
            None
        },
    }
}

proof fn lemma_index_round_trip(l: LineModel)
    ensures
        crate::json::plain_members(index_members(l)),
        index_line_of(Tree::Obj(crate::json::member_map(index_members(l)))) == Some(l),
{
    let m = index_members(l);
    crate::json::lemma_reserved_key();
    reveal_strlit("session_id");
    reveal_strlit("project_key");
    reveal_strlit("project_label");
    reveal_strlit("ts");
    assert("session_id"@.len() == 10 && "project_key"@.len() == 11 && "project_label"@.len() == 13
        && "ts"@.len() == 2);
    assert(m.drop_last() =~= seq![m[0], m[1], m[2]]);
    assert(m.drop_last().drop_last() =~= seq![m[0], m[1]]);
    assert(m.drop_last().drop_last().drop_last() =~= seq![m[0]]);
    assert(m.drop_last().drop_last().drop_last().drop_last() =~= Seq::<(Seq<char>, Tree)>::empty());
    reveal_with_fuel(crate::json::member_map, 5);
    let map = crate::json::member_map(m);
    reveal_with_fuel(flat, 5);
    lemma_flat(map, index_shape());
    assert(slot(map, "session_id"@) == Some(Tree::Str(l.session)));
    assert(slot(map, "project_key"@) == Some(Tree::Str(l.key)));
    assert(slot(map, "project_label"@) == Some(Tree::Str(l.label)));
    assert(slot(map, "ts"@) == Some(Tree::Str(l.ts)));
}

// ---------------------------------------------------------------------------------------------
// Folding
// ---------------------------------------------------------------------------------------------

/// A session's project.
#[derive(Debug)]
pub struct SessionRow {
    pub project_key: String,
    pub project_label: String,
}

/// What a row says.
#[verifier::ext_equal]
pub struct RowModel {
    pub key: Seq<char>,
    pub label: Seq<char>,
}

impl SessionRow {
    pub open spec fn model(self) -> RowModel {
        RowModel { key: self.project_key@, label: self.project_label@ }
    }
}

/// The line that decides a session: the latest, and of two at one instant the one that stands
/// later.
pub open spec fn deciding_line(lines: Seq<LineModel>, session: Seq<char>) -> Option<LineModel>
    decreases lines.len(),
{
    if lines.len() == 0 {
        None
    } else {
        let rest = deciding_line(lines.drop_last(), session);
        let last = lines.last();
        if last.session == session && (rest matches Some(prev) ==> not_later(
            instant(prev.ts),
            instant(last.ts),
        )) {
            Some(last)
        } else {
            rest
        }
    }
}

/// The row of a line.
pub open spec fn row_of(l: Option<LineModel>) -> Option<RowModel> {
    match l {
        Some(l) => Some(RowModel { key: l.key, label: l.label }),
        None => None,
    }
}

/// The rows of a folded index.
pub struct SessionMap {
    rows: Vec<(String, SessionRow)>,
}

impl SessionMap {
    /// The row of a session.
    pub closed spec fn lookup(self, session: Seq<char>) -> Option<RowModel> {
        if entries(self.rows@).contains_key(session) {
            Some(entries(self.rows@)[session].model())
        } else {
            None
        }
    }

    /// The row of a session.
    pub fn get(&self, session_id: &str) -> (r: Option<&SessionRow>)
        ensures
            match r {
                Some(row) => self.lookup(session_id@) == Some(row.model()),
                None => self.lookup(session_id@) is None,
            },
    {
        let at = find(&self.rows, session_id);
        if at < self.rows.len() {
            Some(&self.rows[at].1)
        } else {
            None
        }
    }

    /// Whether a session has a row.
    pub fn contains_key(&self, session_id: &str) -> (r: bool)
        ensures
            r == (self.lookup(session_id@) is Some),
    {
        find(&self.rows, session_id) < self.rows.len()
    }

    /// No session has a row.
    pub fn is_empty(&self) -> (r: bool)
        ensures
            r == forall|s: Seq<char>| (#[trigger] self.lookup(s)) is None,
    {
        if self.rows.len() > 0 {
            let ghost at = self.rows@.len() - 1;
            proof {
                crate::assoc::lemma_entries_at(self.rows@, self.rows@[at].0@, at);
                assert(self.lookup(self.rows@[at].0@) is Some);
            }
            false
        } else {
            true
        }
    }
}

struct Held {
    at: Option<(i64, i32)>,
    row: SessionRow,
}

spec fn held_model(m: Map<Seq<char>, Held>, s: Seq<char>) -> Option<(Option<(i64, i32)>, RowModel)> {
    if m.contains_key(s) {
        Some((m[s].at, m[s].row.model()))
    } else {
        None
    }
}

spec fn line_held(l: Option<LineModel>) -> Option<(Option<(i64, i32)>, RowModel)> {
    match l {
        Some(l) => Some((instant(l.ts), RowModel { key: l.key, label: l.label })),
        None => None,
    }
}

/// Fold the lines of an index to one row for each session.
pub fn fold(lines: &Vec<IndexLine>) -> (r: SessionMap)
    ensures
        forall|s: Seq<char>| #[trigger]
            r.lookup(s) == row_of(deciding_line(line_models(lines@), s)),
{
    let ghost all = line_models(lines@);
    let mut held: Vec<(String, Held)> = Vec::new();
    let mut i: usize = 0;
    assert(all.take(0) =~= Seq::<LineModel>::empty());
    while i < lines.len()
        invariant
            0 <= i <= lines.len(),
            all == line_models(lines@),
            forall|s: Seq<char>| #[trigger]
                held_model(entries(held@), s) == line_held(deciding_line(all.take(i as int), s)),
        decreases lines.len() - i,
    {
        let line = &lines[i];
        let ghost before = entries(held@);
        proof {
            assert(all.take(i + 1).drop_last() =~= all.take(i as int));
            assert(all.take(i + 1).last() == line.model());
            assert(held_model(before, line.session_id@) == line_held(
                deciding_line(all.take(i as int), line.session_id@),
            ));
        }
        let at = parse_instant(&line.ts);
        let place = find(&held, &line.session_id);
        let newer = if place < held.len() {
            is_not_later(held[place].1.at, at)
        } else {
            true
        };
        if newer {
            let row = SessionRow {
                project_key: owned(&line.project_key),
                project_label: owned(&line.project_label),
            };
            put(&mut held, &line.session_id, Held { at, row });
        }
        proof {
            assert forall|s: Seq<char>| #[trigger]
                held_model(entries(held@), s) == line_held(deciding_line(all.take(i + 1), s)) by {
                assert(held_model(before, s) == line_held(deciding_line(all.take(i as int), s)));
            }
        }
        i = i + 1;
    }
    assert(all.take(lines.len() as int) =~= all);
    rows_only(held, Ghost(all))
}

fn rows_only(held: Vec<(String, Held)>, Ghost(all): Ghost<Seq<LineModel>>) -> (r: SessionMap)
    requires
        forall|s: Seq<char>| #[trigger]
            held_model(entries(held@), s) == line_held(deciding_line(all, s)),
    ensures
        forall|s: Seq<char>| #[trigger] r.lookup(s) == row_of(deciding_line(all, s)),
{
    let mut rows: Vec<(String, SessionRow)> = Vec::new();
    let mut i: usize = 0;
    assert(held@.take(0) =~= Seq::<(String, Held)>::empty());
    while i < held.len()
        invariant
            0 <= i <= held.len(),
            forall|s: Seq<char>| #[trigger]
                entries(rows@).contains_key(s) == entries(held@.take(i as int)).contains_key(s),
            forall|s: Seq<char>| #[trigger]
                entries(rows@).contains_key(s) ==> entries(rows@)[s].model() == entries(
                    held@.take(i as int),
                )[s].row.model(),
        decreases held.len() - i,
    {
        assert(held@.take(i + 1).drop_last() =~= held@.take(i as int));
        let ghost before = rows@;
        let row = SessionRow {
            project_key: owned(&held[i].1.row.project_key),
            project_label: owned(&held[i].1.row.project_label),
        };
        rows.push((owned(&held[i].0), row));
        proof {
            assert(rows@.drop_last() =~= before);
            let was = entries(held@.take(i as int));
            let now = entries(held@.take(i + 1));
            assert(now == was.insert(held@[i as int].0@, held@[i as int].1));
            assert(entries(rows@) == entries(before).insert(held@[i as int].0@, row));
            assert forall|s: Seq<char>| #[trigger]
                entries(rows@).contains_key(s) == now.contains_key(s) by {
                assert(entries(before).contains_key(s) == was.contains_key(s));
            }
            assert forall|s: Seq<char>| #[trigger]
                entries(rows@).contains_key(s) implies entries(rows@)[s].model()
                == now[s].row.model() by {
                if s != held@[i as int].0@ {
                    assert(entries(before).contains_key(s));
                }
            }
        }
        i = i + 1;
    }
    assert(held@.take(held.len() as int) =~= held@);
    let r = SessionMap { rows };
    proof {
        assert forall|s: Seq<char>| #[trigger] r.lookup(s) == row_of(deciding_line(all, s)) by {
            assert(held_model(entries(held@), s) == line_held(deciding_line(all, s)));
            assert(entries(rows@).contains_key(s) == entries(held@).contains_key(s));
        }
    }
    r
}

/// The line that decides a session is one of its lines, and none of its lines is later.
pub proof fn law_the_latest_line_decides(lines: Seq<LineModel>, session: Seq<char>)
    ensures
        match deciding_line(lines, session) {
            Some(l) => lines.contains(l) && l.session == session && forall|i: int|
                0 <= i < lines.len() && (#[trigger] lines[i]).session == session ==> not_later(
                    instant(lines[i].ts),
                    instant(l.ts),
                ),
            None => forall|i: int|
                0 <= i < lines.len() ==> (#[trigger] lines[i]).session != session,
        },
    decreases lines.len(),
{
    if lines.len() > 0 {
        let d = lines.drop_last();
        law_the_latest_line_decides(d, session);
        assert(lines[lines.len() - 1] == lines.last());
        if let Some(l) = deciding_line(lines, session) {
            if d.contains(l) {
                let k = choose|k: int| 0 <= k < d.len() && d[k] == l;
                assert(lines[k] == l);
            }
            assert forall|i: int|
                0 <= i < lines.len() && (#[trigger] lines[i]).session == session implies not_later(
                instant(lines[i].ts),
                instant(l.ts),
            ) by {
                if i < d.len() {
                    assert(d[i] == lines[i]);
                }
            }
        } else {
            assert forall|i: int| 0 <= i < lines.len() implies (#[trigger] lines[i]).session
                != session by {
                if i < d.len() {
                    assert(d[i] == lines[i]);
                }
            }
        }
    }
}

/// The fold does not depend on the order of the lines: two logs with the same lines decide every
/// session alike, where no two different lines of a session have the same instant.
pub proof fn law_fold_is_order_independent(a: Seq<LineModel>, b: Seq<LineModel>, session: Seq<char>)
    requires
        forall|l: LineModel| #[trigger] a.contains(l) <==> b.contains(l),
        forall|x: LineModel, y: LineModel|
            #[trigger] a.contains(x) && #[trigger] a.contains(y) && x.session == session
                && y.session == session && instant(x.ts) == instant(y.ts) ==> x == y,
    ensures
        deciding_line(a, session) == deciding_line(b, session),
{
    law_the_latest_line_decides(a, session);
    law_the_latest_line_decides(b, session);
    match deciding_line(a, session) {
        Some(x) => {
            assert(b.contains(x));
            let k = choose|k: int| 0 <= k < b.len() && b[k] == x;
            assert(b[k].session == session);
            let y = deciding_line(b, session)->0;
            assert(a.contains(y));
            let n = choose|n: int| 0 <= n < a.len() && a[n] == y;
            assert(a[n].session == session);
        },
        None => {
            if let Some(y) = deciding_line(b, session) {
                assert(a.contains(y));
                let n = choose|n: int| 0 <= n < a.len() && a[n] == y;
                assert(a[n].session == session);
            }
        },
    }
}

// ---------------------------------------------------------------------------------------------
// The index and its cache
// ---------------------------------------------------------------------------------------------

/// The session index of a state directory.
pub struct SessionIndex {
    pub state_dir: String,
}

/// The lines that texts hold, malformed ones left out.
pub open spec fn lines_of(texts: Seq<Seq<char>>) -> Seq<LineModel>
    decreases texts.len(),
{
    if texts.len() == 0 {
        Seq::empty()
    } else {
        let rest = lines_of(texts.drop_last());
        match read_index_line(texts.last()) {
            Some(l) => rest.push(l),
            None => rest,
        }
    }
}

/// The line that records a session; one without a project has an empty key and label.
pub open spec fn session_line(
    session: Seq<char>,
    project: Option<ProjectModel>,
    ts: Seq<char>,
) -> LineModel {
    match project {
        Some(p) => LineModel { session, key: p.key, label: p.label, ts },
        None => LineModel { session, key: Seq::empty(), label: Seq::empty(), ts },
    }
}

/// What an optional project reference says.
pub open spec fn opt_project(p: Option<ProjectRef>) -> Option<ProjectModel> {
    match p {
        Some(p) => Some(p.model()),
        None => None,
    }
}

/// The text of the line that records a session at a given time.
pub fn record_line_at(session_id: &str, project: &Option<ProjectRef>, ts: &str) -> (r: String)
    ensures
        r@ == index_text(session_line(session_id@, opt_project(*project), ts@)),
        crate::json::one_line(r@),
{
    let (key, label) = match project {
        Some(p) => (owned(&p.key), owned(&p.label)),
        None => {
            let empty = String::new();
            assert(empty@ =~= Seq::<char>::empty());
            (owned(&empty), empty)
        },
    };
    let mut m: Vec<(String, Json)> = Vec::new();
    m.push((owned("session_id"), Json::text(session_id)));
    m.push((owned("project_key"), Json::Str(key)));
    m.push((owned("project_label"), Json::Str(label)));
    m.push((owned("ts"), Json::text(ts)));
    assert(member_list(m@) =~= index_members(
        session_line(session_id@, opt_project(*project), ts@),
    ));
    write_object(&m)
}

/// Read the lines of texts, malformed ones left out.
pub fn read_lines(texts: &Vec<String>) -> (r: Vec<IndexLine>)
    ensures
        line_models(r@) == lines_of(views(texts@)),
{
    let ghost all = views(texts@);
    let mut out: Vec<IndexLine> = Vec::new();
    let mut i: usize = 0;
    assert(all.take(0) =~= Seq::<Seq<char>>::empty());
    assert(line_models(out@) =~= Seq::<LineModel>::empty());
    while i < texts.len()
        invariant
            0 <= i <= texts.len(),
            all == views(texts@),
            line_models(out@) == lines_of(all.take(i as int)),
        decreases texts.len() - i,
    {
        proof {
            assert(all.take(i + 1).drop_last() =~= all.take(i as int));
            assert(all.take(i + 1).last() == texts@[i as int]@);
        }
        if let Some(l) = parse_index_line(&texts[i]) {
            let ghost held = out@;
            out.push(l);
            assert(line_models(out@) =~= line_models(held).push(l.model()));
        }
        i = i + 1;
    }
    assert(all.take(texts.len() as int) =~= all);
    out
}

impl SessionIndex {
    /// The index of a state directory.
    pub fn new(state_dir: String) -> (r: SessionIndex)
        ensures
            r.state_dir@ == state_dir@,
    {
        SessionIndex { state_dir }
    }

    /// The line to append for a session that starts now.
    pub fn record(&self, session_id: &str, project: &Option<ProjectRef>) -> (r: String)
        ensures
            exists|ts: Seq<char>|
                r@ == #[trigger] index_text(session_line(session_id@, opt_project(*project), ts)),
            crate::json::one_line(r@),
    {
        let ts = now_iso_utc();
        record_line_at(session_id, project, &ts)
    }

    /// Fold the lines of the log, the active file's and the archives', to one row for each
    /// session.
    pub fn load(&self, lines: &Vec<String>) -> (r: SessionMap)
        ensures
            forall|s: Seq<char>| #[trigger]
                r.lookup(s) == row_of(deciding_line(lines_of(views(lines@)), s)),
    {
        fold(&read_lines(lines))
    }

    /// The archives of the index that have aged out. The active file is never among them.
    pub fn prune(&self, files: &Vec<Aged>, cutoff_epoch: i64) -> (r: Vec<String>)
        ensures
            views(r@) == aged_names(
                files@,
                |f: Aged| archive_of(f.name@, INDEX_BASE@) && aged_out(f, cutoff_epoch),
            ),
            !views(r@).contains(INDEX_BASE@),
    {
        let doomed = prune_archives_of(files, INDEX_BASE, cutoff_epoch);
        proof {
            reveal_strlit("session_index.jsonl");
            reveal_strlit(".jsonl");
            assert(".jsonl"@.is_suffix_of(INDEX_BASE@)) by {
                assert(INDEX_BASE@.subrange(INDEX_BASE@.len() - 6, INDEX_BASE@.len() as int)
                    =~= ".jsonl"@);
            }
            if views(doomed@).contains(INDEX_BASE@) {
                let i = views(doomed@).index_of(INDEX_BASE@);
                assert(doomed@[i]@ == INDEX_BASE@);
            }
        }
        doomed
    }

    /// The newest time of change across the index, or `None` when nothing has been recorded yet.
    pub fn newest_mtime(&self, files: &Vec<FileStat>) -> (r: Option<i128>)
        ensures
            r == newest_change(files@),
    {
        crate::rolling::newest(files)
    }
}

/// A row that decides its session: one with a label, or one that says there is no project.
pub open spec fn decides(r: RowModel) -> bool {
    r.label.len() > 0 || r.key.len() == 0
}

/// The row of a session, where it decides it.
pub open spec fn decided(lines: Seq<LineModel>, session: Seq<char>) -> Option<RowModel> {
    match row_of(deciding_line(lines, session)) {
        Some(r) => if decides(r) {
            Some(r)
        } else {
            None
        },
        None => None,
    }
}

/// A cache of the folded index that is loaded again only when the files have changed. It holds the
/// rows that decide a session.
pub struct SessionIndexCache {
    state_dir: String,
    fingerprint: Option<Fingerprint>,
    map: SessionMap,
}

fn decided_rows(lines: &Vec<IndexLine>) -> (r: SessionMap)
    ensures
        forall|s: Seq<char>| #[trigger] r.lookup(s) == decided(line_models(lines@), s),
{
    let all = fold(lines);
    let keys = keys_of(&all.rows);
    let ghost ks = views(keys@);
    let ghost m = entries(all.rows@);
    let ghost models = line_models(lines@);
    let mut rows: Vec<(String, SessionRow)> = Vec::new();
    let mut i: usize = 0;
    assert(ks.take(0) =~= Seq::<Seq<char>>::empty());
    while i < keys.len()
        invariant
            0 <= i <= keys.len(),
            ks == views(keys@),
            m == entries(all.rows@),
            lists(ks, m),
            models == line_models(lines@),
            forall|s: Seq<char>| #[trigger]
                all.lookup(s) == row_of(deciding_line(models, s)),
            forall|s: Seq<char>| #[trigger]
                entries(rows@).contains_key(s) == (ks.take(i as int).contains(s) && decides(
                    m[s].model(),
                )),
            forall|s: Seq<char>| #[trigger]
                entries(rows@).contains_key(s) ==> entries(rows@)[s].model() == m[s].model(),
        decreases keys.len() - i,
    {
        let ghost before = entries(rows@);
        let ghost key = keys@[i as int]@;
        proof {
            assert(ks[i as int] == key);
            assert(ks.contains(key));
            assert(ks.take(i + 1) =~= ks.take(i as int).push(key));
        }
        let at = find(&all.rows, &keys[i]);
        let row = &all.rows[at].1;
        if !row.project_label.as_str().is_empty() || row.project_key.as_str().is_empty() {
            let copy = SessionRow {
                project_key: owned(&row.project_key),
                project_label: owned(&row.project_label),
            };
            put(&mut rows, &keys[i], copy);
        }
        proof {
            assert forall|s: Seq<char>| #[trigger]
                entries(rows@).contains_key(s) == (ks.take(i + 1).contains(s) && decides(
                    m[s].model(),
                )) by {
                crate::scopes::lemma_push_contains(ks.take(i as int), key, s);
                assert(before.contains_key(s) == (ks.take(i as int).contains(s) && decides(
                    m[s].model(),
                )));
            }
            assert forall|s: Seq<char>| #[trigger]
                entries(rows@).contains_key(s) implies entries(rows@)[s].model()
                == m[s].model() by {
                if s != key {
                    assert(before.contains_key(s));
                }
            }
        }
        i = i + 1;
    }
    let r = SessionMap { rows };
    proof {
        assert(ks.take(keys.len() as int) =~= ks);
        assert forall|s: Seq<char>| #[trigger] r.lookup(s) == decided(models, s) by {
            assert(all.lookup(s) == row_of(deciding_line(models, s)));
            assert(ks.contains(s) <==> m.contains_key(s));
            assert(entries(rows@).contains_key(s) == (ks.contains(s) && decides(m[s].model())));
        }
    }
    r
}

impl SessionIndexCache {
    /// The row that the cache holds for a session.
    pub closed spec fn row(self, session: Seq<char>) -> Option<RowModel> {
        self.map.lookup(session)
    }

    /// The signature of the files that the cache was loaded from.
    pub closed spec fn loaded_from(self) -> Option<Fingerprint> {
        self.fingerprint
    }

    /// The project of a session, where it has one.
    pub open spec fn project_row(self, session: Seq<char>) -> Option<RowModel> {
        match self.row(session) {
            Some(r) => if r.label.len() > 0 {
                Some(r)
            } else {
                None
            },
            None => None,
        }
    }

    /// The state directory whose index this is.
    pub closed spec fn dir(self) -> Seq<char> {
        self.state_dir@
    }

    /// An empty cache for a state directory.
    pub fn new(state_dir: String) -> (r: SessionIndexCache)
        ensures
            r.dir() == state_dir@,
            forall|s: Seq<char>| (#[trigger] r.row(s)) is None,
            r.loaded_from() is None,
    {
        let rows: Vec<(String, SessionRow)> = Vec::new();
        SessionIndexCache { state_dir, fingerprint: None, map: SessionMap { rows } }
    }

    /// The state directory whose index this is.
    pub fn state_dir(&self) -> (r: &str)
        ensures
            r@ == self.dir(),
    {
        self.state_dir.as_str()
    }

    /// Whether the index has to be read again: its files can be listed, and their signature is not
    /// the one that was loaded.
    pub fn is_stale(&self, files: &Option<Fingerprint>) -> (r: bool)
        ensures
            r == (files is Some && *files != self.loaded_from()),
    {
        match files {
            None => false,
            Some(f) => match &self.fingerprint {
                Some(have) => *f != *have,
                None => true,
            },
        }
    }

    /// Take over the lines of an index whose files have the given signature. Where the signature
    /// is missing or the one that is loaded, nothing changes. Lines that decide no session, from
    /// files that hold bytes, are taken for a read that raced a change: what is held stays, and so
    /// does the signature, so that the next refresh reads again.
    pub fn refresh(&mut self, files: Option<Fingerprint>, lines: &Vec<IndexLine>)
        ensures
            final(self).dir() == old(self).dir(),
            ({
                let models = line_models(lines@);
                let adopts = files matches Some(f) && files != old(self).loaded_from() && (f.bytes
                    == 0 || exists|s: Seq<char>| (#[trigger] decided(models, s)) is Some);
                if adopts {
                    final(self).loaded_from() == files && forall|s: Seq<char>| #[trigger]
                        final(self).row(s) == decided(models, s)
                } else {
                    final(self).loaded_from() == old(self).loaded_from() && forall|s: Seq<char>|
                        #[trigger] final(self).row(s) == old(self).row(s)
                }
            }),
    {
        if self.is_stale(&files) {
            if let Some(f) = files {
                let loaded = decided_rows(lines);
                let none = loaded.is_empty();
                proof {
                    let models = line_models(lines@);
                    if none {
                        assert forall|s: Seq<char>| (#[trigger] decided(models, s)) is None by {
                            assert(loaded.lookup(s) == decided(models, s));
                        }
                    } else {
                        let s = choose|s: Seq<char>| (#[trigger] loaded.lookup(s)) is Some;
                        assert(decided(models, s) is Some);
                    }
                }
                if !none || f.bytes == 0 {
                    self.map = loaded;
                    self.fingerprint = files;
                }
            }
        }
    }

    /// The row of a session that has a project.
    pub fn get(&self, session_id: &str) -> (r: Option<&SessionRow>)
        ensures
            match r {
                Some(row) => self.project_row(session_id@) == Some(row.model()),
                None => self.project_row(session_id@) is None,
            },
    {
        match self.map.get(session_id) {
            Some(row) => if row.project_label.as_str().is_empty() {
                None
            } else {
                Some(row)
            },
            None => None,
        }
    }

    /// Whether a session is decided: it is known to have a project, or to have none.
    pub fn contains(&self, session_id: &str) -> (r: bool)
        ensures
            r == (self.row(session_id@) is Some),
    {
        self.map.contains_key(session_id)
    }

    /// Whether a session is known to have no project.
    pub fn is_unattributed(&self, session_id: &str) -> (r: bool)
        ensures
            r == (self.row(session_id@) is Some && self.project_row(session_id@) is None),
    {
        self.contains(session_id) && self.get(session_id).is_none()
    }

    /// The label of a session's project; never made up.
    pub fn label(&self, session_id: &str) -> (r: Option<String>)
        ensures
            crate::text::opt_view(r) == match self.project_row(session_id@) {
                Some(row) => Some(row.label),
                None => None,
            },
    {
        match self.get(session_id) {
            Some(row) => Some(owned(&row.project_label)),
            None => None,
        }
    }

    /// The label and the key of a session's project.
    pub fn project(&self, session_id: &str) -> (r: Option<(&str, &str)>)
        ensures
            match r {
                Some(p) => self.project_row(session_id@) == Some(RowModel { label: p.0@, key: p.1@ }),
                None => self.project_row(session_id@) is None,
            },
    {
        match self.get(session_id) {
            Some(row) => Some((row.project_label.as_str(), row.project_key.as_str())),
            None => None,
        }
    }
}

} // verus!
