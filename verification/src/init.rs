//! `init`: the decisions of wiring the collector into a settings file, of inserting it in front of
//! a collector that is already configured, and of taking it out again.
//!
//! Reading and writing the files is left to the caller: a plan says what to print, what to write
//! and what to print after that.
use vstd::prelude::*;
use crate::claude_settings::{
    cleared_events, is_local_receiver, local_receiver, names, slot, unwire, unwired, wire,
    wire_reported, wired, WireReport, DEFAULT_ENDPOINT,
};
use crate::decimal::{nat_text, show};
use crate::export::{
    header_pair, header_pairs, parse_otlp_headers, target_models, upserted, ExportConfig,
    ExportMode, ExportTarget, FilterModel, ProjectFilter, TargetModel,
};
use crate::headers::Headers;
use crate::json::{dup_members, find_member, members, pretty, pretty_text, set_member, Json, Tree};
use crate::scopes::{Env, Load};
use crate::text::{
    blank, cat2, cat3, cat4, cat5, is_blank, join, joined, opt_str_view, owned, pieces, split,
    split_once, trim, views,
};

verus! {

broadcast use vstd::map::group_map_axioms;

/// Where to write. Managed settings are print-only, so they are no target.
#[derive(Debug, Clone, Copy, PartialEq, Eq, Structural)]
pub enum Scope {
    /// The user's settings, for every project.
    User,
    /// The project's settings, shared.
    Project,
    /// The project's settings, of this developer.
    Local,
}

impl Scope {
    /// The scope's name.
    pub open spec fn name(self) -> Seq<char> {
        match self {
            Scope::User => "user"@,
            Scope::Project => "project"@,
            Scope::Local => "local"@,
        }
    }

    /// The scope's name.
    pub fn key(self) -> (r: &'static str)
        ensures
            r@ == self.name(),
    {
        match self {
            Scope::User => "user",
            Scope::Project => "project",
            Scope::Local => "local",
        }
    }
}

/// The transform applied to a captured endpoint.
#[derive(Debug, Clone, Copy, PartialEq, Eq, Structural)]
pub enum InsertMode {
    /// Forward every body as it came.
    Raw,
    /// Forward with the project label added.
    Enriched,
}

impl InsertMode {
    pub open spec fn mode(self) -> ExportMode {
        match self {
            InsertMode::Raw => ExportMode::Raw,
            InsertMode::Enriched => ExportMode::Enriched,
        }
    }

    /// The export mode of the transform.
    pub fn as_export(self) -> (r: ExportMode)
        ensures
            r == self.mode(),
    {
        match self {
            InsertMode::Raw => ExportMode::Raw,
            InsertMode::Enriched => ExportMode::Enriched,
        }
    }
}

// ---------------------------------------------------------------------------------------------
// Lines and plans
// ---------------------------------------------------------------------------------------------

/// One line to print: on the standard output or on the standard error.
#[derive(Debug)]
pub enum Line {
    Said(String),
    Warned(String),
}

/// What a line says, and where.
#[verifier::ext_equal]
pub enum LineModel {
    Said(Seq<char>),
    Warned(Seq<char>),
}

impl Line {
    pub open spec fn model(self) -> LineModel {
        match self {
            Line::Said(s) => LineModel::Said(s@),
            Line::Warned(s) => LineModel::Warned(s@),
        }
    }
}

pub open spec fn line_models(v: Seq<Line>) -> Seq<LineModel> {
    Seq::new(v.len(), |i: int| v[i].model())
}

fn say(lines: &mut Vec<Line>, text: String)
    ensures
        line_models(final(lines)@) == line_models(old(lines)@).push(LineModel::Said(text@)),
{
    let ghost held = lines@;
    lines.push(Line::Said(text));
    assert(line_models(lines@) =~= line_models(held).push(LineModel::Said(text@)));
}

fn warn(lines: &mut Vec<Line>, text: String)
    ensures
        line_models(final(lines)@) == line_models(old(lines)@).push(LineModel::Warned(text@)),
{
    let ghost held = lines@;
    lines.push(Line::Warned(text));
    assert(line_models(lines@) =~= line_models(held).push(LineModel::Warned(text@)));
}

fn no_lines() -> (r: Vec<Line>)
    ensures
        line_models(r@) == Seq::<LineModel>::empty(),
{
    let r: Vec<Line> = Vec::new();
    assert(line_models(r@) =~= Seq::<LineModel>::empty());
    r
}

fn one_line(line: Line) -> (r: Vec<Line>)
    ensures
        line_models(r@) == seq![line.model()],
{
    let mut r: Vec<Line> = Vec::new();
    r.push(line);
    assert(line_models(r@) =~= seq![line.model()]);
    r
}

/// What to do: print `said`; write the settings file where there is a text for it; then, unless
/// the write failed, print `done` and exit with `code`.
#[derive(Debug)]
pub struct Plan {
    pub said: Vec<Line>,
    pub write: Option<String>,
    pub done: Vec<Line>,
    pub code: i32,
}

#[verifier::ext_equal]
pub struct PlanModel {
    pub said: Seq<LineModel>,
    pub write: Option<Seq<char>>,
    pub done: Seq<LineModel>,
    pub code: i32,
}

impl Plan {
    pub open spec fn model(self) -> PlanModel {
        PlanModel {
            said: line_models(self.said@),
            write: crate::text::opt_view(self.write),
            done: line_models(self.done@),
            code: self.code,
        }
    }
}

/// A plan that prints and ends.
pub open spec fn stop(said: Seq<LineModel>, code: i32) -> PlanModel {
    PlanModel { said, write: None, done: Seq::empty(), code }
}

fn stopped(said: Vec<Line>, code: i32) -> (r: Plan)
    ensures
        r.model() == stop(line_models(said@), code),
{
    Plan { said, write: None, done: no_lines(), code }
}

/// The text of a settings file.
pub open spec fn file_text(t: Tree) -> Seq<char> {
    pretty_text(t) + "\n"@
}

/// The text that a settings value is written as.
pub fn settings_text(settings: &Json) -> (r: String)
    ensures
        r@ == file_text(settings.view()),
{
    cat2(&pretty(settings), "\n")
}

/// A write that failed, in words.
pub open spec fn write_failure(command: Seq<char>, path: Seq<char>, reason: Seq<char>) -> Seq<char> {
    command + ": failed to write "@ + path + ": "@ + reason
}

/// The line of a write that failed.
pub fn write_failed(command: &str, path: &str, reason: &str) -> (r: Line)
    ensures
        r.model() == LineModel::Warned(write_failure(command@, path@, reason@)),
{
    Line::Warned(cat5(command, ": failed to write ", path, ": ", reason))
}

// ---------------------------------------------------------------------------------------------
// The settings file
// ---------------------------------------------------------------------------------------------

/// The settings a merge starts from, or why it must not: a file that is absent starts empty, and
/// one that is not an object, malformed or unreadable is refused rather than overwritten.
pub open spec fn base_of(load: Load, command: Seq<char>, path: Seq<char>) -> Result<Tree, Seq<char>> {
    match load {
        Load::Absent => Ok(Tree::Obj(Map::empty())),
        Load::Found(v) => if v.view() is Obj {
            Ok(v.view())
        } else {
            Err(command + ": "@ + path + " is not a JSON object; refusing to overwrite"@)
        },
        Load::Malformed(e) => Err(
            command + ": "@ + path + " is malformed ("@ + e@ + "); fix or remove it first"@,
        ),
        Load::Unreadable(e) => Err(command + ": "@ + path + " is unreadable ("@ + e@ + ")"@),
    }
}

pub open spec fn base_agrees(r: Result<Json, String>, want: Result<Tree, Seq<char>>) -> bool {
    match (r, want) {
        (Ok(v), Ok(t)) => v.view() == t,
        (Err(e), Err(s)) => e@ == s,
        _ => false,
    }
}

/// The settings a merge starts from.
pub fn base_settings(load: Load, command: &str, path: &str) -> (r: Result<Json, String>)
    ensures
        base_agrees(r, base_of(load, command@, path@)),
{
    match load {
        Load::Absent => {
            let none: Vec<(String, Json)> = Vec::new();
            assert(members(none@) =~= Map::empty());
            Ok(Json::Object(none))
        },
        Load::Found(v) => {
            let object = match &v {
                Json::Object(_) => true,
                _ => false,
            };
            if object {
                Ok(v)
            } else {
                Err(cat4(command, ": ", path, " is not a JSON object; refusing to overwrite"))
            }
        },
        Load::Malformed(e) => {
            let head = cat4(command, ": ", path, " is malformed (");
            Err(cat3(&head, &e, "); fix or remove it first"))
        },
        Load::Unreadable(e) => {
            let head = cat4(command, ": ", path, " is unreadable (");
            Err(cat3(&head, &e, ")"))
        },
    }
}

// ---------------------------------------------------------------------------------------------
// Wiring
// ---------------------------------------------------------------------------------------------

/// A key that is set otherwise, and telemetry still flows.
pub open spec fn conflict_line(pair: (&'static str, String)) -> LineModel {
    LineModel::Warned(
        "  ⚠ "@ + pair.0@ + " already set to "@ + pair.1@
            + " — left as-is (re-point the receiver or edit by hand)"@,
    )
}

/// A key that is set so that telemetry cannot flow.
pub open spec fn blocked_line(pair: (&'static str, String)) -> LineModel {
    LineModel::Warned(
        "  ✗ "@ + pair.0@ + "="@ + pair.1@
            + " keeps native telemetry off — left as-is; set it to the collector value to capture cost/tokens"@,
    )
}

pub open spec fn conflict_lines(pairs: Seq<(&'static str, String)>) -> Seq<LineModel> {
    Seq::new(pairs.len(), |i: int| conflict_line(pairs[i]))
}

pub open spec fn blocked_lines(pairs: Seq<(&'static str, String)>) -> Seq<LineModel> {
    Seq::new(pairs.len(), |i: int| blocked_line(pairs[i]))
}

pub open spec fn broken_event_line(event: Seq<char>, path: Seq<char>) -> LineModel {
    LineModel::Warned("init: hooks."@ + event + " in "@ + path + " is not an array — fix it first"@)
}

pub open spec fn broken_event_lines(events: Seq<Seq<char>>, path: Seq<char>) -> Seq<LineModel> {
    Seq::new(events.len(), |i: int| broken_event_line(events[i], path))
}

/// What is wrong with a file that cannot be merged into.
pub open spec fn broken_lines(rep: WireReport, path: Seq<char>) -> Seq<LineModel> {
    (if rep.env_not_object {
        seq![LineModel::Warned("init: `env` in "@ + path + " is not an object — fix it first"@)]
    } else {
        Seq::empty()
    }) + (if rep.hooks_not_object {
        seq![LineModel::Warned("init: `hooks` in "@ + path + " is not an object — fix it first"@)]
    } else {
        Seq::empty()
    }) + broken_event_lines(names(rep.events_conflicts@), path)
}

/// A hook binary that is not where it was wired.
pub open spec fn missing_hook_lines(command: Seq<char>, missing: bool) -> Seq<LineModel> {
    if missing {
        seq![
            LineModel::Warned(
                "  ⚠ the hook binary isn't at "@ + command
                    + " yet — install hatel-hook beside hatel"@,
            ),
        ]
    } else {
        Seq::empty()
    }
}

pub open spec fn listing_line(head: Seq<char>, list: Seq<Seq<char>>) -> Seq<LineModel> {
    if list.len() == 0 {
        Seq::empty()
    } else {
        seq![LineModel::Said(head + joined(list, ", "@))]
    }
}

/// What a merge that changed the file did.
pub open spec fn wired_lines(rep: WireReport, path: Seq<char>, scope: Scope) -> Seq<LineModel> {
    seq![LineModel::Said("wired "@ + path + " ("@ + scope.name() + " scope)"@)] + listing_line(
        "  env:   +"@,
        names(rep.env_added@),
    ) + listing_line("  hooks: +"@, names(rep.events_added@)) + listing_line(
        "  hooks: -"@,
        names(rep.events_cleared@),
    )
}

pub open spec fn unwireable_line(event: Seq<char>) -> LineModel {
    LineModel::Warned(
        "  ⚠ a plugin binds `"@ + event
            + "`, which hatel does not wire — that binding never fires (not a supported event)"@,
    )
}

pub open spec fn unwireable_lines(events: Seq<Seq<char>>) -> Seq<LineModel> {
    Seq::new(events.len(), |i: int| unwireable_line(events[i]))
}

/// The plan that follows from a merge. A malformed file is refused: nothing is written. A required
/// key that blocks telemetry leaves the hooks in place and the exit code at one.
pub open spec fn plan_after(
    rep: WireReport,
    settings: Tree,
    path: Seq<char>,
    scope: Scope,
    command: Seq<char>,
    missing: bool,
    unwireable: Seq<Seq<char>>,
) -> PlanModel {
    let notes = conflict_lines(rep.env_conflicts@) + blocked_lines(rep.env_blocked@);
    if rep.is_malformed() {
        stop(notes + broken_lines(rep, path), 1)
    } else {
        PlanModel {
            said: notes + missing_hook_lines(command, missing),
            write: if rep.has_changes() {
                Some(file_text(settings))
            } else {
                None
            },
            done: (if rep.has_changes() {
                wired_lines(rep, path, scope)
            } else {
                seq![LineModel::Said("already wired: "@ + path)]
            }) + unwireable_lines(unwireable) + seq![LineModel::Said("verify with `hatel doctor`"@)],
            code: if rep.env_blocked@.len() > 0 {
                1
            } else {
                0
            },
        }
    }
}

fn owned_names(v: &Vec<&'static str>) -> (r: Vec<String>)
    ensures
        views(r@) == names(v@),
{
    let mut out: Vec<String> = Vec::new();
    let mut i: usize = 0;
    while i < v.len()
        invariant
            0 <= i <= v.len(),
            out.len() == i,
            forall|k: int| 0 <= k < i ==> (#[trigger] out@[k])@ == v@[k]@,
        decreases v.len() - i,
    {
        out.push(owned(v[i]));
        i = i + 1;
    }
    assert(views(out@) =~= names(v@));
    out
}

fn push_conflicts(lines: &mut Vec<Line>, pairs: &Vec<(&'static str, String)>)
    ensures
        line_models(final(lines)@) == line_models(old(lines)@) + conflict_lines(pairs@),
{
    let ghost start = line_models(lines@);
    let mut i: usize = 0;
    assert(start + conflict_lines(pairs@).take(0) =~= start);
    while i < pairs.len()
        invariant
            0 <= i <= pairs.len(),
            line_models(lines@) == start + conflict_lines(pairs@).take(i as int),
        decreases pairs.len() - i,
    {
        warn(
            lines,
            cat5(
                "  ⚠ ",
                pairs[i].0,
                " already set to ",
                &pairs[i].1,
                " — left as-is (re-point the receiver or edit by hand)",
            ),
        );
        assert(conflict_lines(pairs@).take(i + 1) =~= conflict_lines(pairs@).take(i as int).push(
            conflict_line(pairs@[i as int]),
        ));
        assert(line_models(lines@) =~= start + conflict_lines(pairs@).take(i + 1));
        i = i + 1;
    }
    assert(conflict_lines(pairs@).take(pairs.len() as int) =~= conflict_lines(pairs@));
}

fn push_blocked(lines: &mut Vec<Line>, pairs: &Vec<(&'static str, String)>)
    ensures
        line_models(final(lines)@) == line_models(old(lines)@) + blocked_lines(pairs@),
{
    let ghost start = line_models(lines@);
    let mut i: usize = 0;
    assert(start + blocked_lines(pairs@).take(0) =~= start);
    while i < pairs.len()
        invariant
            0 <= i <= pairs.len(),
            line_models(lines@) == start + blocked_lines(pairs@).take(i as int),
        decreases pairs.len() - i,
    {
        warn(
            lines,
            cat5(
                "  ✗ ",
                pairs[i].0,
                "=",
                &pairs[i].1,
                " keeps native telemetry off — left as-is; set it to the collector value to capture cost/tokens",
            ),
        );
        assert(blocked_lines(pairs@).take(i + 1) =~= blocked_lines(pairs@).take(i as int).push(
            blocked_line(pairs@[i as int]),
        ));
        assert(line_models(lines@) =~= start + blocked_lines(pairs@).take(i + 1));
        i = i + 1;
    }
    assert(blocked_lines(pairs@).take(pairs.len() as int) =~= blocked_lines(pairs@));
}

fn push_broken(lines: &mut Vec<Line>, rep: &WireReport, path: &str)
    ensures
        line_models(final(lines)@) == line_models(old(lines)@) + broken_lines(*rep, path@),
{
    let ghost start = line_models(lines@);
    if rep.env_not_object {
        warn(lines, cat3("init: `env` in ", path, " is not an object — fix it first"));
    }
    if rep.hooks_not_object {
        warn(lines, cat3("init: `hooks` in ", path, " is not an object — fix it first"));
    }
    let ghost base = line_models(lines@);
    let ghost all = broken_event_lines(names(rep.events_conflicts@), path@);
    let mut i: usize = 0;
    assert(base + all.take(0) =~= base);
    while i < rep.events_conflicts.len()
        invariant
            0 <= i <= rep.events_conflicts.len(),
            all == broken_event_lines(names(rep.events_conflicts@), path@),
            line_models(lines@) == base + all.take(i as int),
        decreases rep.events_conflicts.len() - i,
    {
        warn(
            lines,
            cat5(
                "init: hooks.",
                rep.events_conflicts[i],
                " in ",
                path,
                " is not an array — fix it first",
            ),
        );
        assert(all.take(i + 1) =~= all.take(i as int).push(all[i as int]));
        assert(line_models(lines@) =~= base + all.take(i + 1));
        i = i + 1;
    }
    assert(all.take(rep.events_conflicts.len() as int) =~= all);
    assert(line_models(lines@) =~= start + broken_lines(*rep, path@));
}

fn push_missing(lines: &mut Vec<Line>, command: &str, missing: bool)
    ensures
        line_models(final(lines)@) == line_models(old(lines)@) + missing_hook_lines(
            command@,
            missing,
        ),
{
    let ghost start = line_models(lines@);
    if missing {
        warn(
            lines,
            cat3(
                "  ⚠ the hook binary isn't at ",
                command,
                " yet — install hatel-hook beside hatel",
            ),
        );
    }
    assert(line_models(lines@) =~= start + missing_hook_lines(command@, missing));
}

fn push_listing(lines: &mut Vec<Line>, head: &str, list: &Vec<&'static str>)
    ensures
        line_models(final(lines)@) == line_models(old(lines)@) + listing_line(head@, names(list@)),
{
    let ghost start = line_models(lines@);
    if list.len() > 0 {
        let all = owned_names(list);
        say(lines, cat2(head, &join(&all, ", ")));
    }
    assert(line_models(lines@) =~= start + listing_line(head@, names(list@)));
}

fn push_unwireable(lines: &mut Vec<Line>, events: &Vec<String>)
    ensures
        line_models(final(lines)@) == line_models(old(lines)@) + unwireable_lines(views(events@)),
{
    let ghost start = line_models(lines@);
    let ghost all = unwireable_lines(views(events@));
    let mut i: usize = 0;
    assert(start + all.take(0) =~= start);
    while i < events.len()
        invariant
            0 <= i <= events.len(),
            all == unwireable_lines(views(events@)),
            line_models(lines@) == start + all.take(i as int),
        decreases events.len() - i,
    {
        warn(
            lines,
            cat3(
                "  ⚠ a plugin binds `",
                &events[i],
                "`, which hatel does not wire — that binding never fires (not a supported event)",
            ),
        );
        assert(all.take(i + 1) =~= all.take(i as int).push(all[i as int]));
        assert(line_models(lines@) =~= start + all.take(i + 1));
        i = i + 1;
    }
    assert(all.take(events.len() as int) =~= all);
}

/// The plan that follows from a merge. `missing` says that the wired hook command is an absolute
/// path with no file at it; `unwireable` are the bound events that cannot be wired.
pub fn after_wiring(
    rep: &WireReport,
    settings: &Json,
    path: &str,
    scope: Scope,
    hook_cmd: &str,
    missing: bool,
    unwireable: &Vec<String>,
) -> (r: Plan)
    ensures
        r.model() == plan_after(
            *rep,
            settings.view(),
            path@,
            scope,
            hook_cmd@,
            missing,
            views(unwireable@),
        ),
{
    let mut said = no_lines();
    push_conflicts(&mut said, &rep.env_conflicts);
    push_blocked(&mut said, &rep.env_blocked);
    let ghost notes = conflict_lines(rep.env_conflicts@) + blocked_lines(rep.env_blocked@);
    assert(line_models(said@) =~= notes);
    if rep.malformed() {
        push_broken(&mut said, rep, path);
        return stopped(said, 1);
    }
    push_missing(&mut said, hook_cmd, missing);
    let mut done = no_lines();
    let mut write: Option<String> = None;
    if rep.changed() {
        write = Some(settings_text(settings));
        say(&mut done, cat5("wired ", path, " (", scope.key(), " scope)"));
        push_listing(&mut done, "  env:   +", &rep.env_added);
        push_listing(&mut done, "  hooks: +", &rep.events_added);
        push_listing(&mut done, "  hooks: -", &rep.events_cleared);
        assert(line_models(done@) =~= wired_lines(*rep, path@, scope));
    } else {
        say(&mut done, cat2("already wired: ", path));
        assert(line_models(done@) =~= seq![LineModel::Said("already wired: "@ + path@)]);
    }
    let ghost did = line_models(done@);
    push_unwireable(&mut done, unwireable);
    say(&mut done, owned("verify with `hatel doctor`"));
    assert(line_models(done@) =~= did + unwireable_lines(views(unwireable@)) + seq![
        LineModel::Said("verify with `hatel doctor`"@),
    ]);
    let code: i32 = if rep.env_blocked.len() > 0 {
        1
    } else {
        0
    };
    Plan { said, write, done, code }
}

/// Plan the wiring of one settings file.
pub fn run(
    load: Load,
    path: &str,
    scope: Scope,
    hook_cmd: &str,
    events: &[&'static str],
    missing: bool,
    unwireable: &Vec<String>,
) -> (r: Plan)
    ensures
        match base_of(load, "init"@, path@) {
            Err(e) => r.model() == stop(seq![LineModel::Warned(e)], 1),
            Ok(t) => exists|rep: WireReport| #[trigger]
                wire_reported(rep, t, hook_cmd@, names(events@)) && r.model() == plan_after(
                    rep,
                    wired(t, hook_cmd@, names(events@)),
                    path@,
                    scope,
                    hook_cmd@,
                    missing,
                    views(unwireable@),
                ),
        },
{
    let mut settings = match base_settings(load, "init", path) {
        Ok(v) => v,
        Err(e) => {
            return stopped(one_line(Line::Warned(e)), 1);
        },
    };
    let rep = wire(&mut settings, hook_cmd, events);
    after_wiring(&rep, &settings, path, scope, hook_cmd, missing, unwireable)
}

// ---------------------------------------------------------------------------------------------
// Removal
// ---------------------------------------------------------------------------------------------

/// The plan of taking the wiring out of a settings file. The `env` block stays.
pub open spec fn removal(load: Load, path: Seq<char>, scope: Scope) -> PlanModel {
    match load {
        Load::Absent => stop(
            seq![LineModel::Said("not wired: "@ + path + " does not exist"@)],
            0,
        ),
        Load::Malformed(e) => stop(
            seq![
                LineModel::Warned(
                    "init: "@ + path + " is malformed ("@ + e@ + "); fix or remove it first"@,
                ),
            ],
            1,
        ),
        Load::Unreadable(e) => stop(
            seq![LineModel::Warned("init: "@ + path + " is unreadable ("@ + e@ + ")"@)],
            1,
        ),
        Load::Found(v) => if v.view() !is Obj {
            stop(seq![LineModel::Warned("init: "@ + path + " is not a JSON object"@)], 1)
        } else if cleared_events(v.view()).len() == 0 {
            stop(seq![LineModel::Said("no hatel hooks in "@ + path)], 0)
        } else {
            PlanModel {
                said: Seq::empty(),
                write: Some(file_text(unwired(v.view()))),
                done: seq![
                    LineModel::Said("unwired "@ + path + " ("@ + scope.name() + " scope)"@),
                    LineModel::Said("  hooks: -"@ + joined(cleared_events(v.view()), ", "@)),
                    LineModel::Said(
                        "  env left as-is — the agent's native telemetry config; remove by hand if you no longer want it"@,
                    ),
                ],
                code: 0,
            }
        },
    }
}

/// Plan the removal of this collector's hooks from a settings file.
pub fn remove_wiring(load: Load, path: &str, scope: Scope) -> (r: Plan)
    ensures
        r.model() == removal(load, path@, scope),
{
    match load {
        Load::Absent => stopped(
            one_line(Line::Said(cat3("not wired: ", path, " does not exist"))),
            0,
        ),
        Load::Malformed(e) => stopped(
            one_line(
                Line::Warned(
                    cat5("init: ", path, " is malformed (", &e, "); fix or remove it first"),
                ),
            ),
            1,
        ),
        Load::Unreadable(e) => stopped(
            one_line(Line::Warned(cat5("init: ", path, " is unreadable (", &e, ")"))),
            1,
        ),
        Load::Found(v) => {
            let object = match &v {
                Json::Object(_) => true,
                _ => false,
            };
            if !object {
                return stopped(
                    one_line(Line::Warned(cat3("init: ", path, " is not a JSON object"))),
                    1,
                );
            }
            let mut settings = v;
            let rep = unwire(&mut settings);
            if !rep.changed() {
                return stopped(one_line(Line::Said(cat2("no hatel hooks in ", path))), 0);
            }
            let cleared = owned_names(&rep.events_cleared);
            let mut done = no_lines();
            say(&mut done, cat5("unwired ", path, " (", scope.key(), " scope)"));
            say(&mut done, cat2("  hooks: -", &join(&cleared, ", ")));
            say(
                &mut done,
                owned(
                    "  env left as-is — the agent's native telemetry config; remove by hand if you no longer want it",
                ),
            );
            let r = Plan {
                said: no_lines(),
                write: Some(settings_text(&settings)),
                done,
                code: 0,
            };
            assert(r.model().done =~= removal(load, path@, scope).done);
            r
        },
    }
}

// ---------------------------------------------------------------------------------------------
// Insertion
// ---------------------------------------------------------------------------------------------

/// What is to be inserted in front of: nothing, with what to print and the exit code, or an
/// endpoint and the scope that sets it.
#[derive(Debug)]
pub enum Front {
    Nothing(Line, i32),
    Endpoint(String, &'static str),
}

#[verifier::ext_equal]
pub enum FrontModel {
    Nothing(LineModel, i32),
    Endpoint(Seq<char>, Seq<char>),
}

impl Front {
    pub open spec fn model(self) -> FrontModel {
        match self {
            Front::Nothing(line, code) => FrontModel::Nothing(line.model(), code),
            Front::Endpoint(e, s) => FrontModel::Endpoint(e@, s@),
        }
    }
}

/// What insertion finds in the effective environment. An endpoint of one signal only is refused,
/// since a single endpoint is captured; no endpoint and a local one leave nothing to do; one that
/// managed settings lock cannot be repointed.
pub open spec fn front_of(env: Env) -> FrontModel {
    if env.lookup("OTEL_EXPORTER_OTLP_METRICS_ENDPOINT"@) is Some || env.lookup(
        "OTEL_EXPORTER_OTLP_LOGS_ENDPOINT"@,
    ) is Some {
        FrontModel::Nothing(
            LineModel::Warned(
                "init --insert: a per-signal OTLP endpoint (…_METRICS_ENDPOINT / …_LOGS_ENDPOINT) is set; --insert handles a single endpoint. Configure config.toml [[export]] and repoint those by hand."@,
            ),
            1,
        )
    } else {
        match env.lookup("OTEL_EXPORTER_OTLP_ENDPOINT"@) {
            None => FrontModel::Nothing(
                LineModel::Said(
                    "init --insert: no OTEL_EXPORTER_OTLP_ENDPOINT is set — there's no collector to insert in front of. Run `hatel init` to point the agent at hatel directly."@,
                ),
                0,
            ),
            Some((endpoint, scope)) => if local_receiver(endpoint) {
                FrontModel::Nothing(
                    LineModel::Said(
                        "init --insert: the agent already points at the local receiver ("@
                            + endpoint
                            + ") — nothing to insert. Add [[export]] targets to config.toml to forward onward."@,
                    ),
                    0,
                )
            } else if scope == "managed"@ {
                FrontModel::Nothing(
                    LineModel::Warned(
                        "init --insert: the endpoint is managed-locked to "@ + endpoint
                            + "; it can't be repointed, so hatel can't sit in front of it (only the hook ledger is available). Ask IT to route the agent at the local receiver."@,
                    ),
                    1,
                )
            } else {
                FrontModel::Endpoint(endpoint, scope)
            },
        }
    }
}

/// Find what to insert in front of.
pub fn insert_front(env: &Env) -> (r: Front)
    ensures
        r.model() == front_of(*env),
{
    let metrics = env.get("OTEL_EXPORTER_OTLP_METRICS_ENDPOINT");
    let logs = env.get("OTEL_EXPORTER_OTLP_LOGS_ENDPOINT");
    if metrics.is_some() || logs.is_some() {
        return Front::Nothing(
            Line::Warned(
                owned(
                    "init --insert: a per-signal OTLP endpoint (…_METRICS_ENDPOINT / …_LOGS_ENDPOINT) is set; --insert handles a single endpoint. Configure config.toml [[export]] and repoint those by hand.",
                ),
            ),
            1,
        );
    }
    match env.get("OTEL_EXPORTER_OTLP_ENDPOINT") {
        None => Front::Nothing(
            Line::Said(
                owned(
                    "init --insert: no OTEL_EXPORTER_OTLP_ENDPOINT is set — there's no collector to insert in front of. Run `hatel init` to point the agent at hatel directly.",
                ),
            ),
            0,
        ),
        Some((endpoint, scope)) => {
            if is_local_receiver(endpoint) {
                return Front::Nothing(
                    Line::Said(
                        cat3(
                            "init --insert: the agent already points at the local receiver (",
                            endpoint,
                            ") — nothing to insert. Add [[export]] targets to config.toml to forward onward.",
                        ),
                    ),
                    0,
                );
            }
            if crate::text::same(scope, "managed") {
                return Front::Nothing(
                    Line::Warned(
                        cat3(
                            "init --insert: the endpoint is managed-locked to ",
                            endpoint,
                            "; it can't be repointed, so hatel can't sit in front of it (only the hook ledger is available). Ask IT to route the agent at the local receiver.",
                        ),
                    ),
                    1,
                );
            }
            Front::Endpoint(owned(endpoint), scope)
        },
    }
}

/// A piece of a header list that says something and holds no pair.
pub open spec fn dropped_piece(piece: Seq<char>) -> bool {
    !is_blank(piece) && header_pair(piece) is None
}

/// How many pieces of a header list are dropped.
pub open spec fn dropped_pieces(list: Seq<Seq<char>>) -> nat
    decreases list.len(),
{
    if list.len() == 0 {
        0
    } else {
        dropped_pieces(list.drop_last()) + if dropped_piece(list.last()) {
            1nat
        } else {
            0nat
        }
    }
}

/// Count the pieces of a header list that hold no pair.
pub fn count_dropped(raw: &str) -> (r: u64)
    ensures
        r == dropped_pieces(pieces(raw@, ',')),
{
    let parts = split(raw, ',');
    let ghost all = views(parts@);
    let mut n: u64 = 0;
    let mut i: usize = 0;
    assert(all.take(0) =~= Seq::<Seq<char>>::empty());
    while i < parts.len()
        invariant
            0 <= i <= parts.len(),
            all == views(parts@),
            n == dropped_pieces(all.take(i as int)),
            n <= i,
        decreases parts.len() - i,
    {
        proof {
            assert(all.take(i + 1).drop_last() =~= all.take(i as int));
            assert(all.take(i + 1).last() == parts@[i as int]@);
        }
        if !blank(&parts[i]) {
            let keyless = match split_once(&parts[i], '=') {
                Some((k, _)) => crate::text::length(&trim(&k)) == 0,
                None => true,
            };
            if keyless {
                n = n + 1;
            }
        }
        i = i + 1;
    }
    assert(all.take(parts.len() as int) =~= all);
    n
}

/// The warning about dropped header pieces. It counts them only: a piece may carry a credential.
pub open spec fn dropped_lines(raw: Option<Seq<char>>) -> Seq<LineModel> {
    match raw {
        Some(s) => if dropped_pieces(pieces(s, ',')) > 0 {
            seq![
                LineModel::Warned(
                    "  ⚠ ignored "@ + nat_text(dropped_pieces(pieces(s, ',')))
                        + " malformed OTLP header segment(s) (each needs `key=value`)"@,
                ),
            ]
        } else {
            Seq::empty()
        },
        None => Seq::empty(),
    }
}

/// The captured endpoint as a destination: every project, with the headers it was sent with.
pub open spec fn captured(
    endpoint: Seq<char>,
    mode: InsertMode,
    raw: Option<Seq<char>>,
) -> TargetModel {
    TargetModel {
        endpoint,
        mode: mode.mode(),
        filter: FilterModel::All,
        headers: match raw {
            Some(s) => header_pairs(pieces(s, ',')),
            None => Map::empty(),
        },
        timeout: None,
    }
}

/// Settings with the endpoint and the protocol pointed at the local receiver.
pub open spec fn repointed(t: Tree) -> Tree {
    match t {
        Tree::Obj(m) => match slot(m, "env"@) {
            Some(Tree::Obj(env)) => Tree::Obj(
                m.insert(
                    "env"@,
                    Tree::Obj(
                        env.insert(
                            "OTEL_EXPORTER_OTLP_ENDPOINT"@,
                            Tree::Str("http://127.0.0.1:4318"@),
                        ).insert("OTEL_EXPORTER_OTLP_PROTOCOL"@, Tree::Str("http/json"@)),
                    ),
                ),
            ),
            _ => t,
        },
        _ => t,
    }
}

/// Point the endpoint and the protocol of settings at the local receiver.
pub fn repoint(settings: &mut Json)
    ensures
        final(settings).view() == repointed(old(settings).view()),
{
    if let Json::Object(obj) = settings {
        let at = find_member(obj, "env");
        if at < obj.len() {
            let found = match &obj[at].1 {
                Json::Object(env) => Some(dup_members(env)),
                _ => None,
            };
            if let Some(env) = found {
                let mut env = env;
                set_member(&mut env, "OTEL_EXPORTER_OTLP_ENDPOINT", Json::text(DEFAULT_ENDPOINT));
                set_member(&mut env, "OTEL_EXPORTER_OTLP_PROTOCOL", Json::text("http/json"));
                set_member(obj, "env", Json::Object(env));
            }
        }
    }
}

/// What an insertion does: print `said`, save the destinations, then write the settings.
#[derive(Debug)]
pub struct Insertion {
    pub said: Vec<Line>,
    pub export: ExportConfig,
    pub settings: String,
}

/// The settings that an insertion ends with, or why there is none: a settings file that cannot be
/// merged into, or destinations that are not valid, are refused before anything is written.
pub open spec fn insert_fault(
    load: Load,
    path: Seq<char>,
    malformed: bool,
    export: Result<ExportConfig, String>,
) -> Option<Seq<char>> {
    match base_of(load, "init --insert"@, path) {
        Err(e) => Some(e),
        Ok(_) => if malformed {
            Some("init --insert: "@ + path + " has a malformed env/hooks block — fix it first"@)
        } else {
            match export {
                Err(e) => Some(
                    "init --insert: existing export config is invalid ("@ + e@
                        + "); fix it first"@,
                ),
                Ok(_) => None,
            }
        },
    }
}

/// An insertion agrees with what it starts from.
pub open spec fn insert_agrees(
    r: Result<Insertion, Line>,
    rep: WireReport,
    mode: InsertMode,
    endpoint: Seq<char>,
    path: Seq<char>,
    load: Load,
    command: Seq<char>,
    events: Seq<Seq<char>>,
    export: Result<ExportConfig, String>,
    raw: Option<Seq<char>>,
) -> bool {
    match insert_fault(load, path, rep.is_malformed(), export) {
        Some(reason) => r matches Err(line) && line.model() == LineModel::Warned(reason),
        None => r matches Ok(done) && {
            &&& line_models(done.said@) == dropped_lines(raw)
            &&& target_models(done.export.targets@) == upserted(
                target_models(export->Ok_0.targets@),
                captured(endpoint, mode, raw),
            )
            &&& done.settings@ == file_text(
                repointed(wired(base_of(load, "init --insert"@, path)->Ok_0, command, events)),
            )
        },
    }
}

/// Plan an insertion in front of `endpoint`, which `scope` sets in the file at `path`. Everything
/// is prepared and checked in memory, so that a refusal leaves both files as they are. `raw` is
/// the header list that the endpoint was sent with.
pub fn insert(
    mode: InsertMode,
    endpoint: &str,
    path: &str,
    load: Load,
    hook_cmd: &str,
    events: &[&'static str],
    export: Result<ExportConfig, String>,
    raw: Option<&str>,
) -> (r: Result<Insertion, Line>)
    ensures
        match base_of(load, "init --insert"@, path@) {
            Err(e) => r matches Err(line) && line.model() == LineModel::Warned(e),
            Ok(t) => exists|rep: WireReport| #[trigger]
                wire_reported(rep, t, hook_cmd@, names(events@)) && insert_agrees(
                    r,
                    rep,
                    mode,
                    endpoint@,
                    path@,
                    load,
                    hook_cmd@,
                    names(events@),
                    export,
                    opt_str_view(raw),
                ),
        },
{
    let mut settings = match base_settings(load, "init --insert", path) {
        Ok(v) => v,
        Err(e) => {
            return Err(Line::Warned(e));
        },
    };
    let ghost base = settings.view();
    let rep = wire(&mut settings, hook_cmd, events);
    assert(wire_reported(rep, base, hook_cmd@, names(events@)));
    if rep.malformed() {
        return Err(
            Line::Warned(
                cat3("init --insert: ", path, " has a malformed env/hooks block — fix it first"),
            ),
        );
    }
    let mut config = match export {
        Ok(c) => c,
        Err(e) => {
            return Err(
                Line::Warned(
                    cat3(
                        "init --insert: existing export config is invalid (",
                        &e,
                        "); fix it first",
                    ),
                ),
            );
        },
    };
    let mut said = no_lines();
    let headers = match raw {
        Some(s) => {
            let dropped = count_dropped(s);
            if dropped > 0 {
                warn(
                    &mut said,
                    cat3(
                        "  ⚠ ignored ",
                        &show(dropped),
                        " malformed OTLP header segment(s) (each needs `key=value`)",
                    ),
                );
            }
            parse_otlp_headers(s)
        },
        None => Headers::new(),
    };
    assert(line_models(said@) =~= dropped_lines(opt_str_view(raw)));
    config.upsert(
        ExportTarget {
            endpoint: owned(endpoint),
            mode: mode.as_export(),
            filter: ProjectFilter::All,
            headers,
            timeout_ms: None,
        },
    );
    repoint(&mut settings);
    Ok(Insertion { said, export: config, settings: settings_text(&settings) })
}

/// What is printed after an insertion.
pub open spec fn inserted_lines(
    endpoint: Seq<char>,
    mode: InsertMode,
    config_path: Seq<char>,
    scope: Seq<char>,
    command: Seq<char>,
    missing: bool,
) -> Seq<LineModel> {
    seq![
        LineModel::Said("inserted hatel in front of "@ + endpoint + ":"@),
        LineModel::Said(
            "  export: captured "@ + endpoint + " as a "@ + mode.mode().name() + " target in "@
                + config_path,
        ),
        LineModel::Said(
            "  wiring: repointed the agent ("@ + scope + " scope) at "@
                + "http://127.0.0.1:4318"@ + " (http/json)"@,
        ),
        LineModel::Said(
            "  note:   the agent now sends http/json to hatel, which forwards to "@ + endpoint
                + " — ensure that collector accepts http/json (most do)"@,
        ),
    ] + missing_hook_lines(command, missing) + seq![
        LineModel::Said(
            "run `hatel serve` (or `hatel service`) to start forwarding, then `hatel doctor`"@,
        ),
    ]
}

/// What to print after an insertion.
pub fn insert_done(
    endpoint: &str,
    mode: InsertMode,
    config_path: &str,
    scope: &str,
    hook_cmd: &str,
    missing: bool,
) -> (r: Vec<Line>)
    ensures
        line_models(r@) == inserted_lines(
            endpoint@,
            mode,
            config_path@,
            scope@,
            hook_cmd@,
            missing,
        ),
{
    let mut lines = no_lines();
    say(&mut lines, cat3("inserted hatel in front of ", endpoint, ":"));
    let head = cat4("  export: captured ", endpoint, " as a ", mode.as_export().as_str());
    say(&mut lines, cat3(&head, " target in ", config_path));
    say(
        &mut lines,
        cat5(
            "  wiring: repointed the agent (",
            scope,
            " scope) at ",
            DEFAULT_ENDPOINT,
            " (http/json)",
        ),
    );
    say(
        &mut lines,
        cat3(
            "  note:   the agent now sends http/json to hatel, which forwards to ",
            endpoint,
            " — ensure that collector accepts http/json (most do)",
        ),
    );
    push_missing(&mut lines, hook_cmd, missing);
    say(
        &mut lines,
        owned("run `hatel serve` (or `hatel service`) to start forwarding, then `hatel doctor`"),
    );
    assert(line_models(lines@) =~= inserted_lines(
        endpoint@,
        mode,
        config_path@,
        scope@,
        hook_cmd@,
        missing,
    ));
    lines
}

/// A repointed file sends to the local receiver as JSON, and keeps every other variable and every
/// other member of the settings.
pub proof fn law_repointing_changes_the_endpoint_only(
    m: Map<Seq<char>, Tree>,
    env: Map<Seq<char>, Tree>,
    key: Seq<char>,
)
    requires
        slot(m, "env"@) == Some(Tree::Obj(env)),
    ensures
        repointed(Tree::Obj(m)) matches Tree::Obj(n) && slot(n, "env"@) matches Some(Tree::Obj(e))
            && slot(e, "OTEL_EXPORTER_OTLP_ENDPOINT"@) == Some(Tree::Str("http://127.0.0.1:4318"@))
            && slot(e, "OTEL_EXPORTER_OTLP_PROTOCOL"@) == Some(Tree::Str("http/json"@)) && (key
            != "OTEL_EXPORTER_OTLP_ENDPOINT"@ && key != "OTEL_EXPORTER_OTLP_PROTOCOL"@ ==> slot(
            e,
            key,
        ) == slot(env, key)) && (key != "env"@ ==> slot(n, key) == slot(m, key)),
{
    reveal_strlit("OTEL_EXPORTER_OTLP_ENDPOINT");
    reveal_strlit("OTEL_EXPORTER_OTLP_PROTOCOL");
    assert("OTEL_EXPORTER_OTLP_ENDPOINT"@[19] == 'E');
    assert("OTEL_EXPORTER_OTLP_PROTOCOL"@[19] == 'P');
}

} // verus!
