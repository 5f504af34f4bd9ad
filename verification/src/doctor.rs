//! `doctor`: the findings about the wiring between the agent and this collector, and their
//! rendering. A missing signal is said and explained, never papered over. Only a failed finding
//! makes the whole fail.
use vstd::prelude::*;
use crate::claude_settings::{is_local_receiver, local_receiver, names};
use crate::decimal::{nat_text, show};
use crate::export::{
    normalize_endpoint, normalized, target_models, ExportConfig, ExportMode, ExportTarget,
    FilterModel, TargetModel,
};
use crate::json::{items, members, set_member, Json, Tree};
use crate::assoc::{lemma_ordered_keys, ordered_keys};
use crate::receiver::{authority, authority_of, Probe, IDENTITY_SINCE};
use crate::registry::{bindings_of, ref_models, BindingModel, Registry};
use crate::render::{filled, push_filled};
use crate::scopes::{
    event_wiring, hook_blocked, hook_wired_but_blocked, managed_hooks_only, managed_only, models,
    wiring_of, Env, HookBuild, ScopeFile, ScopeModel, Wiring,
};
use crate::sorted::{sort_set, sorted_set};
use crate::text::{cat2, cat3, cat4, cat5, join, joined, opt_view, owned, same, views};

verus! {

broadcast use vstd::map::group_map_axioms;

/// Days without records after which a wired binding is worth a note.
pub const DORMANT_WINDOW_DAYS: i64 = 7;

// ---------------------------------------------------------------------------------------------
// Findings
// ---------------------------------------------------------------------------------------------

/// How serious a finding is; only a failure fails the whole.
#[derive(Debug, Clone, Copy, PartialEq, Eq, Structural)]
pub enum Status {
    Good,
    Fail,
    Warn,
    Note,
}

impl Status {
    pub open spec fn glyph_text(self) -> Seq<char> {
        match self {
            Status::Good => "✓"@,
            Status::Fail => "✗"@,
            Status::Warn => "⚠"@,
            Status::Note => "•"@,
        }
    }

    /// The mark a person sees.
    pub fn glyph(self) -> (r: &'static str)
        ensures
            r@ == self.glyph_text(),
    {
        match self {
            Status::Good => "✓",
            Status::Fail => "✗",
            Status::Warn => "⚠",
            Status::Note => "•",
        }
    }

    pub open spec fn name_text(self) -> Seq<char> {
        match self {
            Status::Good => "ok"@,
            Status::Fail => "fail"@,
            Status::Warn => "warn"@,
            Status::Note => "note"@,
        }
    }

    /// The name a machine reads.
    pub fn name(self) -> (r: &'static str)
        ensures
            r@ == self.name_text(),
    {
        match self {
            Status::Good => "ok",
            Status::Fail => "fail",
            Status::Warn => "warn",
            Status::Note => "note",
        }
    }
}

/// One finding.
#[derive(Debug)]
pub struct Finding {
    pub message: String,
    pub status: Status,
}

#[verifier::ext_equal]
pub struct FindingModel {
    pub message: Seq<char>,
    pub status: Status,
}

impl Finding {
    pub open spec fn model(self) -> FindingModel {
        FindingModel { message: self.message@, status: self.status }
    }
}

pub open spec fn finding_models(v: Seq<Finding>) -> Seq<FindingModel> {
    Seq::new(v.len(), |i: int| v[i].model())
}

pub open spec fn good(message: Seq<char>) -> FindingModel {
    FindingModel { message, status: Status::Good }
}

pub open spec fn failed(message: Seq<char>) -> FindingModel {
    FindingModel { message, status: Status::Fail }
}

pub open spec fn warned(message: Seq<char>) -> FindingModel {
    FindingModel { message, status: Status::Warn }
}

pub open spec fn noted(message: Seq<char>) -> FindingModel {
    FindingModel { message, status: Status::Note }
}

/// One section of the report: a stable name, the heading it is shown under, and its findings.
#[derive(Debug)]
pub struct Section {
    pub name: &'static str,
    pub header: &'static str,
    pub findings: Vec<Finding>,
}

#[verifier::ext_equal]
pub struct SectionModel {
    pub name: Seq<char>,
    pub header: Seq<char>,
    pub findings: Seq<FindingModel>,
}

impl Section {
    pub open spec fn model(self) -> SectionModel {
        SectionModel {
            name: self.name@,
            header: self.header@,
            findings: finding_models(self.findings@),
        }
    }

    /// A section without findings.
    pub fn new(name: &'static str, header: &'static str) -> (r: Section)
        ensures
            r.model() == (SectionModel {
                name: name@,
                header: header@,
                findings: Seq::<FindingModel>::empty(),
            }),
    {
        let r = Section { name, header, findings: Vec::new() };
        assert(r.model().findings =~= Seq::<FindingModel>::empty());
        r
    }

    /// Add a finding.
    pub fn push(&mut self, status: Status, message: String)
        ensures
            final(self).model() == (SectionModel {
                findings: old(self).model().findings.push(
                    FindingModel { message: message@, status },
                ),
                ..old(self).model()
            }),
    {
        let ghost held = self.findings@;
        let one = Finding { message, status };
        self.findings.push(one);
        assert(finding_models(self.findings@) =~= finding_models(held).push(one.model()));
    }
}

/// A section with findings added to it.
pub open spec fn extended(sec: SectionModel, more: Seq<FindingModel>) -> SectionModel {
    SectionModel { findings: sec.findings + more, ..sec }
}

// ---------------------------------------------------------------------------------------------
// Native telemetry
// ---------------------------------------------------------------------------------------------

/// The finding about a variable that must have a value.
pub open spec fn env_finding(env: Env, key: Seq<char>, want: Seq<char>) -> FindingModel {
    match env.lookup(key) {
        Some((value, scope)) => if value == want {
            good(key + "="@ + value + " (from "@ + scope + ")"@)
        } else {
            failed(key + "="@ + value + " (from "@ + scope + "); expected "@ + want)
        },
        None => failed(key + " unset"@),
    }
}

/// Check a variable that must have a value.
pub fn check_env(sec: &mut Section, env: &Env, key: &str, want: &str)
    ensures
        final(sec).model() == extended(old(sec).model(), seq![env_finding(*env, key@, want@)]),
{
    let ghost before = sec.model();
    match env.get(key) {
        Some((value, scope)) => {
            let head = cat5(key, "=", value, " (from ", scope);
            if same(value, want) {
                sec.push(Status::Good, cat2(&head, ")"));
            } else {
                sec.push(Status::Fail, cat3(&head, "); expected ", want));
            }
        },
        None => {
            sec.push(Status::Fail, cat2(key, " unset"));
        },
    }
    assert(sec.model().findings =~= extended(
        before,
        seq![env_finding(*env, key@, want@)],
    ).findings);
}

/// The finding about the endpoint: the first of the three variables that is set.
pub open spec fn endpoint_finding(env: Env) -> FindingModel {
    if env.lookup("OTEL_EXPORTER_OTLP_ENDPOINT"@) is Some {
        set_finding(env, "OTEL_EXPORTER_OTLP_ENDPOINT"@)
    } else if env.lookup("OTEL_EXPORTER_OTLP_METRICS_ENDPOINT"@) is Some {
        set_finding(env, "OTEL_EXPORTER_OTLP_METRICS_ENDPOINT"@)
    } else if env.lookup("OTEL_EXPORTER_OTLP_LOGS_ENDPOINT"@) is Some {
        set_finding(env, "OTEL_EXPORTER_OTLP_LOGS_ENDPOINT"@)
    } else {
        failed(
            "no OTLP endpoint set (OTEL_EXPORTER_OTLP_ENDPOINT, or a per-signal …_METRICS_ENDPOINT / …_LOGS_ENDPOINT)"@,
        )
    }
}

pub open spec fn set_finding(env: Env, key: Seq<char>) -> FindingModel {
    match env.lookup(key) {
        Some((value, scope)) => good(key + "="@ + value + " (from "@ + scope + ")"@),
        None => failed(key + " unset"@),
    }
}

fn push_set(sec: &mut Section, env: &Env, key: &str) -> (r: bool)
    ensures
        r == (env.lookup(key@) is Some),
        r ==> final(sec).model() == extended(old(sec).model(), seq![set_finding(*env, key@)]),
        !r ==> final(sec).model() == old(sec).model(),
{
    let ghost before = sec.model();
    match env.get(key) {
        Some((value, scope)) => {
            let head = cat5(key, "=", value, " (from ", scope);
            sec.push(Status::Good, cat2(&head, ")"));
            assert(sec.model().findings =~= extended(
                before,
                seq![set_finding(*env, key@)],
            ).findings);
            true
        },
        None => false,
    }
}

/// Check that an endpoint is set: the general one, or one of a signal.
pub fn check_endpoint_present(sec: &mut Section, env: &Env)
    ensures
        final(sec).model() == extended(old(sec).model(), seq![endpoint_finding(*env)]),
{
    let ghost before = sec.model();
    if push_set(sec, env, "OTEL_EXPORTER_OTLP_ENDPOINT") {
        return;
    }
    if push_set(sec, env, "OTEL_EXPORTER_OTLP_METRICS_ENDPOINT") {
        return;
    }
    if push_set(sec, env, "OTEL_EXPORTER_OTLP_LOGS_ENDPOINT") {
        return;
    }
    sec.push(
        Status::Fail,
        owned(
            "no OTLP endpoint set (OTEL_EXPORTER_OTLP_ENDPOINT, or a per-signal …_METRICS_ENDPOINT / …_LOGS_ENDPOINT)",
        ),
    );
    assert(sec.model().findings =~= extended(before, seq![endpoint_finding(*env)]).findings);
}

/// The endpoint of a signal: its own, or else the general one.
pub open spec fn signal_route(env: Env, key: Seq<char>) -> Option<(Seq<char>, Seq<char>)> {
    match env.lookup(key) {
        Some(p) => Some(p),
        None => env.lookup("OTEL_EXPORTER_OTLP_ENDPOINT"@),
    }
}

pub open spec fn metrics_route(env: Env) -> Option<(Seq<char>, Seq<char>)> {
    signal_route(env, "OTEL_EXPORTER_OTLP_METRICS_ENDPOINT"@)
}

pub open spec fn logs_route(env: Env) -> Option<(Seq<char>, Seq<char>)> {
    signal_route(env, "OTEL_EXPORTER_OTLP_LOGS_ENDPOINT"@)
}

pub open spec fn opt_entry(o: Option<(&str, &'static str)>) -> Option<(Seq<char>, Seq<char>)> {
    match o {
        Some(p) => Some((p.0@, p.1@)),
        None => None,
    }
}

/// The endpoint of each signal, metrics first: its own, or else the general one.
pub fn effective_otlp_endpoints(env: &Env) -> (r: (
    Option<(&str, &'static str)>,
    Option<(&str, &'static str)>,
))
    ensures
        opt_entry(r.0) == metrics_route(*env),
        opt_entry(r.1) == logs_route(*env),
{
    let metrics = match env.get("OTEL_EXPORTER_OTLP_METRICS_ENDPOINT") {
        Some(p) => Some(p),
        None => env.get("OTEL_EXPORTER_OTLP_ENDPOINT"),
    };
    let logs = match env.get("OTEL_EXPORTER_OTLP_LOGS_ENDPOINT") {
        Some(p) => Some(p),
        None => env.get("OTEL_EXPORTER_OTLP_ENDPOINT"),
    };
    (metrics, logs)
}

/// A route that ends at the local receiver.
pub open spec fn route_is_local(r: Option<(Seq<char>, Seq<char>)>) -> bool {
    r matches Some(p) && local_receiver(p.0)
}

/// The finding about the protocol. It must be JSON where a signal reaches the local receiver.
pub open spec fn protocol_finding(env: Env) -> FindingModel {
    let local = route_is_local(metrics_route(env)) || route_is_local(logs_route(env));
    match env.lookup("OTEL_EXPORTER_OTLP_PROTOCOL"@) {
        Some((value, scope)) => if value == "http/json"@ {
            good("OTEL_EXPORTER_OTLP_PROTOCOL=http/json (from "@ + scope + ")"@)
        } else if local {
            failed(
                "OTEL_EXPORTER_OTLP_PROTOCOL="@ + value + " (from "@ + scope
                    + "); the local receiver only decodes http/json"@,
            )
        } else {
            warned(
                "OTEL_EXPORTER_OTLP_PROTOCOL="@ + value + " (from "@ + scope
                    + "); http/json is required for the local receiver"@,
            )
        },
        None => if local {
            failed("OTEL_EXPORTER_OTLP_PROTOCOL unset; the local receiver needs http/json"@)
        } else {
            warned(
                "OTEL_EXPORTER_OTLP_PROTOCOL unset; set it to http/json for the local receiver"@,
            )
        },
    }
}

fn entry_is_local(o: Option<(&str, &'static str)>) -> (r: bool)
    ensures
        r == route_is_local(opt_entry(o)),
{
    match o {
        Some((endpoint, _)) => is_local_receiver(endpoint),
        None => false,
    }
}

/// Check the protocol.
pub fn advise_protocol(sec: &mut Section, env: &Env)
    ensures
        final(sec).model() == extended(old(sec).model(), seq![protocol_finding(*env)]),
{
    let ghost before = sec.model();
    let (metrics, logs) = effective_otlp_endpoints(env);
    let local = entry_is_local(metrics) || entry_is_local(logs);
    match env.get("OTEL_EXPORTER_OTLP_PROTOCOL") {
        Some((value, scope)) => {
            if same(value, "http/json") {
                sec.push(
                    Status::Good,
                    cat3("OTEL_EXPORTER_OTLP_PROTOCOL=http/json (from ", scope, ")"),
                );
            } else if local {
                sec.push(
                    Status::Fail,
                    cat5(
                        "OTEL_EXPORTER_OTLP_PROTOCOL=",
                        value,
                        " (from ",
                        scope,
                        "); the local receiver only decodes http/json",
                    ),
                );
            } else {
                sec.push(
                    Status::Warn,
                    cat5(
                        "OTEL_EXPORTER_OTLP_PROTOCOL=",
                        value,
                        " (from ",
                        scope,
                        "); http/json is required for the local receiver",
                    ),
                );
            }
        },
        None => {
            if local {
                sec.push(
                    Status::Fail,
                    owned(
                        "OTEL_EXPORTER_OTLP_PROTOCOL unset; the local receiver needs http/json",
                    ),
                );
            } else {
                sec.push(
                    Status::Warn,
                    owned(
                        "OTEL_EXPORTER_OTLP_PROTOCOL unset; set it to http/json for the local receiver",
                    ),
                );
            }
        },
    }
    assert(sec.model().findings =~= extended(before, seq![protocol_finding(*env)]).findings);
}

/// The finding about sessions in metrics.
pub open spec fn session_finding(env: Env) -> FindingModel {
    match env.lookup("OTEL_METRICS_INCLUDE_SESSION_ID"@) {
        Some((value, scope)) => if value == "false"@ {
            warned(
                "OTEL_METRICS_INCLUDE_SESSION_ID=false (from "@ + scope
                    + "): per-session/project attribution is impossible — hatel drops these session-less metrics rather than guess."@,
            )
        } else {
            good("session.id included in metrics (default on)"@)
        },
        None => good("session.id included in metrics (default on)"@),
    }
}

/// Check that metrics name their session.
pub fn advise_session_id(sec: &mut Section, env: &Env)
    ensures
        final(sec).model() == extended(old(sec).model(), seq![session_finding(*env)]),
{
    let ghost before = sec.model();
    let mut excluded: Option<&'static str> = None;
    if let Some((value, scope)) = env.get("OTEL_METRICS_INCLUDE_SESSION_ID") {
        if same(value, "false") {
            excluded = Some(scope);
        }
    }
    match excluded {
        Some(scope) => {
            sec.push(
                Status::Warn,
                cat3(
                    "OTEL_METRICS_INCLUDE_SESSION_ID=false (from ",
                    scope,
                    "): per-session/project attribution is impossible — hatel drops these session-less metrics rather than guess.",
                ),
            );
        },
        None => {
            sec.push(Status::Good, owned("session.id included in metrics (default on)"));
        },
    }
    assert(sec.model().findings =~= extended(before, seq![session_finding(*env)]).findings);
}

/// The section about native telemetry.
pub open spec fn native_section(env: Env) -> SectionModel {
    SectionModel {
        name: "native_telemetry"@,
        header: "native telemetry (settings.json env):"@,
        findings: seq![
            env_finding(env, "CLAUDE_CODE_ENABLE_TELEMETRY"@, "1"@),
            env_finding(env, "OTEL_METRICS_EXPORTER"@, "otlp"@),
            env_finding(env, "OTEL_LOGS_EXPORTER"@, "otlp"@),
            endpoint_finding(env),
            protocol_finding(env),
            session_finding(env),
        ],
    }
}

/// Check native telemetry.
pub fn report_native(env: &Env) -> (r: Section)
    ensures
        r.model() == native_section(*env),
{
    let mut sec = Section::new("native_telemetry", "native telemetry (settings.json env):");
    check_env(&mut sec, env, "CLAUDE_CODE_ENABLE_TELEMETRY", "1");
    check_env(&mut sec, env, "OTEL_METRICS_EXPORTER", "otlp");
    check_env(&mut sec, env, "OTEL_LOGS_EXPORTER", "otlp");
    check_endpoint_present(&mut sec, env);
    advise_protocol(&mut sec, env);
    advise_session_id(&mut sec, env);
    assert(sec.model().findings =~= native_section(*env).findings);
    sec
}

// ---------------------------------------------------------------------------------------------
// Hooks
// ---------------------------------------------------------------------------------------------

/// The events that are captured (`wired`), or those that are not.
pub open spec fn events_wired(
    files: Seq<ScopeModel>,
    events: Seq<Seq<char>>,
    wired: bool,
) -> Seq<Seq<char>>
    decreases events.len(),
{
    if events.len() == 0 {
        Seq::empty()
    } else {
        let rest = events_wired(files, events.drop_last(), wired);
        if (wiring_of(files, events.last()) != Wiring::Missing) == wired {
            rest.push(events.last())
        } else {
            rest
        }
    }
}

/// The finding about the coverage of the events.
pub open spec fn coverage_finding(files: Seq<ScopeModel>, events: Seq<Seq<char>>) -> FindingModel {
    let covered = events_wired(files, events, true);
    let total = nat_text(events.len());
    if covered.len() == events.len() {
        good("all "@ + total + " lifecycle events invoke `hatel-hook`"@)
    } else if covered.len() > 0 {
        failed(
            "only "@ + nat_text(covered.len()) + "/"@ + total + " events wired — missing "@
                + joined(events_wired(files, events, false), ", "@) + (if managed_only(files) {
                "; deploy the rest as MANAGED hooks (allowManagedHooksOnly ignores lower scopes)"@
            } else {
                "; re-run `hatel init`"@
            }),
        )
    } else if hook_blocked(files) {
        failed(
            "a hook invokes `hatel-hook` but is BLOCKED by allowManagedHooksOnly — deploy it as a MANAGED hook (IT/MDM) or no events are captured"@,
        )
    } else {
        failed(
            "no hook invokes `hatel-hook` — events are not captured"@ + (if managed_only(files) {
                "\n    (allowManagedHooksOnly is set: the hook must be in the managed scope)"@
            } else {
                "\n    wire it with `hatel init`"@
            }),
        )
    }
}

pub open spec fn gone_finding(command: Seq<char>) -> FindingModel {
    failed(
        "wired hook `"@ + command
            + "` is missing on disk — re-run `hatel init` to repoint it"@,
    )
}

pub open spec fn unwireable_finding(event: Seq<char>) -> FindingModel {
    failed(
        "a plugin binds `"@ + event
            + "`, which hatel does not wire — that binding never fires (the event isn't in the supported set; remove it or use a supported event)"@,
    )
}

/// The findings about the hooks: the coverage, the commands that are gone from disk, and the bound
/// events that cannot be wired.
pub open spec fn hook_findings(
    files: Seq<ScopeModel>,
    events: Seq<Seq<char>>,
    gone: Seq<Seq<char>>,
    unwireable: Seq<Seq<char>>,
) -> Seq<FindingModel> {
    seq![coverage_finding(files, events)] + Seq::new(gone.len(), |i: int| gone_finding(gone[i]))
        + Seq::new(unwireable.len(), |i: int| unwireable_finding(unwireable[i]))
}

/// Split the events into those that are captured and those that are not.
fn split_events(files: &Vec<ScopeFile>, events: &[&'static str]) -> (r: (Vec<String>, Vec<String>))
    ensures
        views(r.0@) == events_wired(models(files@), names(events@), true),
        views(r.1@) == events_wired(models(files@), names(events@), false),
{
    let wiring = event_wiring(files, events);
    let ghost all = names(events@);
    let ghost ms = models(files@);
    let mut yes: Vec<String> = Vec::new();
    let mut no: Vec<String> = Vec::new();
    let mut i: usize = 0;
    assert(all.take(0) =~= Seq::<Seq<char>>::empty());
    assert(views(yes@) =~= Seq::<Seq<char>>::empty());
    assert(views(no@) =~= Seq::<Seq<char>>::empty());
    while i < wiring.len()
        invariant
            0 <= i <= wiring.len(),
            wiring@.len() == events@.len(),
            all == names(events@),
            ms == models(files@),
            forall|k: int|
                0 <= k < events@.len() ==> (#[trigger] wiring@[k]).0@ == events@[k]@ && wiring@[k].1
                    == wiring_of(ms, events@[k]@),
            views(yes@) == events_wired(ms, all.take(i as int), true),
            views(no@) == events_wired(ms, all.take(i as int), false),
        decreases wiring.len() - i,
    {
        proof {
            assert(all.take(i + 1).drop_last() =~= all.take(i as int));
            assert(all.take(i + 1).last() == wiring@[i as int].0@);
        }
        if wiring[i].1 != Wiring::Missing {
            let ghost held = yes@;
            yes.push(owned(wiring[i].0));
            assert(views(yes@) =~= views(held).push(wiring@[i as int].0@));
        } else {
            let ghost held = no@;
            no.push(owned(wiring[i].0));
            assert(views(no@) =~= views(held).push(wiring@[i as int].0@));
        }
        i = i + 1;
    }
    assert(all.take(wiring.len() as int) =~= all);
    (yes, no)
}

fn coverage(files: &Vec<ScopeFile>, events: &[&'static str]) -> (r: Finding)
    ensures
        r.model() == coverage_finding(models(files@), names(events@)),
{
    let (yes, no) = split_events(files, events);
    assert(views(yes@).len() == yes@.len());
    let only = managed_hooks_only(files);
    let total = show(events.len() as u64);
    if yes.len() == events.len() {
        return Finding {
            message: cat3("all ", &total, " lifecycle events invoke `hatel-hook`"),
            status: Status::Good,
        };
    }
    if yes.len() > 0 {
        let head = cat5("only ", &show(yes.len() as u64), "/", &total, " events wired — missing ");
        let remedy: &str = if only {
            "; deploy the rest as MANAGED hooks (allowManagedHooksOnly ignores lower scopes)"
        } else {
            "; re-run `hatel init`"
        };
        return Finding { message: cat3(&head, &join(&no, ", "), remedy), status: Status::Fail };
    }
    if hook_wired_but_blocked(files) {
        return Finding {
            message: owned(
                "a hook invokes `hatel-hook` but is BLOCKED by allowManagedHooksOnly — deploy it as a MANAGED hook (IT/MDM) or no events are captured",
            ),
            status: Status::Fail,
        };
    }
    let remedy: &str = if only {
        "\n    (allowManagedHooksOnly is set: the hook must be in the managed scope)"
    } else {
        "\n    wire it with `hatel init`"
    };
    Finding {
        message: cat2("no hook invokes `hatel-hook` — events are not captured", remedy),
        status: Status::Fail,
    }
}

/// Check the hooks. `gone` are the wired commands whose absolute path is not on disk, `unwireable`
/// the bound events that cannot be wired.
pub fn report_hooks(
    sec: &mut Section,
    files: &Vec<ScopeFile>,
    events: &[&'static str],
    gone: &Vec<String>,
    unwireable: &Vec<String>,
)
    ensures
        final(sec).model() == extended(
            old(sec).model(),
            hook_findings(models(files@), names(events@), views(gone@), views(unwireable@)),
        ),
{
    let ghost before = sec.model();
    let first = coverage(files, events);
    sec.push(first.status, first.message);
    let ghost want = hook_findings(
        models(files@),
        names(events@),
        views(gone@),
        views(unwireable@),
    );
    let mut i: usize = 0;
    assert(sec.model().findings =~= before.findings + want.take(1));
    while i < gone.len()
        invariant
            0 <= i <= gone.len(),
            want == hook_findings(
                models(files@),
                names(events@),
                views(gone@),
                views(unwireable@),
            ),
            sec.model() == extended(before, want.take(1 + i)),
        decreases gone.len() - i,
    {
        sec.push(
            Status::Fail,
            cat3(
                "wired hook `",
                &gone[i],
                "` is missing on disk — re-run `hatel init` to repoint it",
            ),
        );
        assert(views(gone@)[i as int] == gone@[i as int]@);
        assert(sec.model().findings =~= before.findings + want.take(2 + i));
        i = i + 1;
    }
    let mut j: usize = 0;
    while j < unwireable.len()
        invariant
            0 <= j <= unwireable.len(),
            want == hook_findings(
                models(files@),
                names(events@),
                views(gone@),
                views(unwireable@),
            ),
            sec.model() == extended(before, want.take(1 + gone@.len() + j)),
        decreases unwireable.len() - j,
    {
        sec.push(
            Status::Fail,
            cat3(
                "a plugin binds `",
                &unwireable[j],
                "`, which hatel does not wire — that binding never fires (the event isn't in the supported set; remove it or use a supported event)",
            ),
        );
        assert(views(unwireable@)[j as int] == unwireable@[j as int]@);
        assert(sec.model().findings =~= before.findings + want.take(2 + gone@.len() + j));
        j = j + 1;
    }
    assert(want.take((1 + gone@.len() + unwireable@.len()) as int) =~= want);
}

// ---------------------------------------------------------------------------------------------
// Dormant bindings
// ---------------------------------------------------------------------------------------------

/// A Kind that captured events are bound to, whether it has records in the window.
#[derive(Debug)]
pub struct BoundKind {
    pub kind: String,
    pub events: Vec<String>,
    pub active: bool,
}

#[verifier::ext_equal]
pub struct BoundModel {
    pub kind: Seq<char>,
    pub events: Seq<Seq<char>>,
    pub active: bool,
}

impl BoundKind {
    pub open spec fn model(self) -> BoundModel {
        BoundModel { kind: self.kind@, events: views(self.events@), active: self.active }
    }
}

pub open spec fn bound_models(v: Seq<BoundKind>) -> Seq<BoundModel> {
    Seq::new(v.len(), |i: int| v[i].model())
}

pub open spec fn dormant_finding(b: BoundModel) -> FindingModel {
    noted(
        joined(b.events, ", "@) + " → "@ + b.kind
            + ": wired, but no records in the last 7d — either the event hasn't fired, or its payload no longer matches the binding"@,
    )
}

/// The Kind and the event of each binding of an event, in order.
pub open spec fn event_pairs(bindings: Seq<BindingModel>, event: Seq<char>) -> Seq<
    (Seq<char>, Seq<char>),
> {
    let bound = bindings_of(bindings, event);
    Seq::new(bound.len(), |i: int| (bound[i].kind, event))
}

/// The Kind and the event of each binding of a list of events, in order.
pub open spec fn bound_pairs(bindings: Seq<BindingModel>, events: Seq<Seq<char>>) -> Seq<
    (Seq<char>, Seq<char>),
>
    decreases events.len(),
{
    if events.len() == 0 {
        Seq::empty()
    } else {
        bound_pairs(bindings, events.drop_last()) + event_pairs(bindings, events.last())
    }
}

/// The Kinds of a list of pairs.
pub open spec fn pair_kinds(pairs: Seq<(Seq<char>, Seq<char>)>) -> Seq<Seq<char>> {
    Seq::new(pairs.len(), |i: int| pairs[i].0)
}

/// The events of the first `n` pairs with a Kind.
pub open spec fn pair_events(pairs: Seq<(Seq<char>, Seq<char>)>, kind: Seq<char>, n: int) -> Seq<
    Seq<char>,
>
    decreases n,
{
    if n <= 0 {
        Seq::empty()
    } else {
        let rest = pair_events(pairs, kind, n - 1);
        if pairs[n - 1].0 == kind {
            rest.push(pairs[n - 1].1)
        } else {
            rest
        }
    }
}

/// The Kinds that a list of events is bound to, in the order of their names, each with its events.
pub open spec fn bound_to(pairs: Seq<(Seq<char>, Seq<char>)>) -> Seq<BoundModel> {
    let kinds = sorted_set(pair_kinds(pairs));
    Seq::new(
        kinds.len(),
        |i: int|
            BoundModel {
                kind: kinds[i],
                events: pair_events(pairs, kinds[i], pairs.len() as int),
                active: false,
            },
    )
}

/// The Kinds that the captured events are bound to.
pub fn bound_kinds(
    files: &Vec<ScopeFile>,
    events: &[&'static str],
    registry: &Registry,
) -> (r: Vec<BoundKind>)
    ensures
        bound_models(r@) == bound_to(
            bound_pairs(
                registry.model().bindings,
                events_wired(models(files@), names(events@), true),
            ),
        ),
{
    let (covered, _) = split_events(files, events);
    let ghost evs = views(covered@);
    let ghost bindings = registry.model().bindings;
    let mut kinds: Vec<String> = Vec::new();
    let mut heard: Vec<String> = Vec::new();
    let ghost mut pairs: Seq<(Seq<char>, Seq<char>)> = Seq::empty();
    let mut i: usize = 0;
    assert(evs.take(0) =~= Seq::<Seq<char>>::empty());
    while i < covered.len()
        invariant
            0 <= i <= covered.len(),
            evs == views(covered@),
            bindings == registry.model().bindings,
            pairs == bound_pairs(bindings, evs.take(i as int)),
            kinds.len() == pairs.len(),
            heard.len() == pairs.len(),
            forall|k: int| 0 <= k < pairs.len() ==> (#[trigger] kinds@[k])@ == pairs[k].0,
            forall|k: int| 0 <= k < pairs.len() ==> (#[trigger] heard@[k])@ == pairs[k].1,
        decreases covered.len() - i,
    {
        proof {
            assert(evs.take(i + 1).drop_last() =~= evs.take(i as int));
            assert(evs.take(i + 1).last() == covered@[i as int]@);
        }
        let bound = registry.bindings_for(&covered[i]);
        let ghost more = event_pairs(bindings, covered@[i as int]@);
        let ghost start = pairs;
        let mut j: usize = 0;
        assert(start + more.take(0) =~= start);
        while j < bound.len()
            invariant
                0 <= j <= bound.len(),
                i < covered.len(),
                ref_models(bound@) == bindings_of(bindings, covered@[i as int]@),
                more == event_pairs(bindings, covered@[i as int]@),
                pairs == start + more.take(j as int),
                kinds.len() == pairs.len(),
                heard.len() == pairs.len(),
                forall|k: int| 0 <= k < pairs.len() ==> (#[trigger] kinds@[k])@ == pairs[k].0,
                forall|k: int| 0 <= k < pairs.len() ==> (#[trigger] heard@[k])@ == pairs[k].1,
            decreases bound.len() - j,
        {
            proof {
                assert(ref_models(bound@)[j as int].kind == bound@[j as int].kind@);
                assert(more.take(j + 1) =~= more.take(j as int).push(more[j as int]));
                pairs = pairs.push(more[j as int]);
                assert(pairs =~= start + more.take(j + 1));
            }
            kinds.push(owned(&bound[j].kind));
            heard.push(owned(&covered[i]));
            j = j + 1;
        }
        assert(more.take(bound.len() as int) =~= more);
        i = i + 1;
    }
    assert(evs.take(covered.len() as int) =~= evs);
    assert(views(kinds@) =~= pair_kinds(pairs));
    let order = sort_set(&kinds);
    let mut out: Vec<BoundKind> = Vec::new();
    let mut n: usize = 0;
    while n < order.len()
        invariant
            0 <= n <= order.len(),
            views(order@) == sorted_set(pair_kinds(pairs)),
            kinds.len() == pairs.len(),
            heard.len() == pairs.len(),
            forall|k: int| 0 <= k < pairs.len() ==> (#[trigger] kinds@[k])@ == pairs[k].0,
            forall|k: int| 0 <= k < pairs.len() ==> (#[trigger] heard@[k])@ == pairs[k].1,
            out.len() == n,
            forall|k: int| 0 <= k < n ==> (#[trigger] out@[k]).model() == bound_to(pairs)[k],
        decreases order.len() - n,
    {
        let ghost kind = order@[n as int]@;
        let mut mine: Vec<String> = Vec::new();
        let mut k: usize = 0;
        assert(views(mine@) =~= Seq::<Seq<char>>::empty());
        while k < kinds.len()
            invariant
                0 <= k <= kinds.len(),
                n < order.len(),
                kind == order@[n as int]@,
                kinds.len() == pairs.len(),
                heard.len() == pairs.len(),
                forall|k: int| 0 <= k < pairs.len() ==> (#[trigger] kinds@[k])@ == pairs[k].0,
                forall|k: int| 0 <= k < pairs.len() ==> (#[trigger] heard@[k])@ == pairs[k].1,
                views(mine@) == pair_events(pairs, kind, k as int),
            decreases kinds.len() - k,
        {
            if same(&kinds[k], &order[n]) {
                let ghost held = mine@;
                mine.push(owned(&heard[k]));
                assert(views(mine@) =~= views(held).push(pairs[k as int].1));
            }
            k = k + 1;
        }
        assert(views(order@)[n as int] == kind);
        out.push(BoundKind { kind: owned(&order[n]), events: mine, active: false });
        n = n + 1;
    }
    assert(bound_models(out@) =~= bound_to(pairs));
    out
}

/// A note for every bound Kind without records.
pub open spec fn dormant_findings(v: Seq<BoundModel>) -> Seq<FindingModel>
    decreases v.len(),
{
    if v.len() == 0 {
        Seq::empty()
    } else {
        let rest = dormant_findings(v.drop_last());
        if v.last().active {
            rest
        } else {
            rest.push(dormant_finding(v.last()))
        }
    }
}

/// Note the bound Kinds that recorded nothing in the window. It is said only while sessions have
/// been starting (`recent`): otherwise the silence means nothing.
pub fn advise_dormant_bindings(sec: &mut Section, recent: bool, bound: &Vec<BoundKind>)
    ensures
        final(sec).model() == if recent {
            extended(old(sec).model(), dormant_findings(bound_models(bound@)))
        } else {
            old(sec).model()
        },
{
    if !recent {
        return;
    }
    let ghost before = sec.model();
    let ghost all = bound_models(bound@);
    let mut i: usize = 0;
    assert(all.take(0) =~= Seq::<BoundModel>::empty());
    assert(sec.model().findings =~= before.findings + dormant_findings(all.take(0)));
    while i < bound.len()
        invariant
            0 <= i <= bound.len(),
            all == bound_models(bound@),
            sec.model() == extended(before, dormant_findings(all.take(i as int))),
        decreases bound.len() - i,
    {
        proof {
            assert(all.take(i + 1).drop_last() =~= all.take(i as int));
            assert(all.take(i + 1).last() == bound@[i as int].model());
        }
        if !bound[i].active {
            sec.push(
                Status::Note,
                cat4(
                    &join(&bound[i].events, ", "),
                    " → ",
                    &bound[i].kind,
                    ": wired, but no records in the last 7d — either the event hasn't fired, or its payload no longer matches the binding",
                ),
            );
            assert(sec.model().findings =~= before.findings + dormant_findings(all.take(i + 1)));
        }
        i = i + 1;
    }
    assert(all.take(bound.len() as int) =~= all);
}

// ---------------------------------------------------------------------------------------------
// Builds
// ---------------------------------------------------------------------------------------------

/// The notes about the build of the hook at a command: none where it is this build.
pub open spec fn hook_build_findings(
    command: Seq<char>,
    build: HookBuild,
    version: Seq<char>,
) -> Seq<FindingModel> {
    match build {
        HookBuild::Version(v) => if v@ == version {
            Seq::empty()
        } else {
            seq![noted("`"@ + command + "` is build "@ + v@ + ", this is "@ + version)]
        },
        HookBuild::Unreported => seq![noted("`"@ + command + "` names no build"@)],
        HookBuild::Unverified(why) => seq![
            noted("the build of `"@ + command + "` is unknown ("@ + why@ + ")"@),
        ],
    }
}

/// Note a wired hook that is not this build. A note only: a hook of another build collects too.
pub fn advise_hook_build(sec: &mut Section, command: &str, build: &HookBuild, version: &str)
    ensures
        final(sec).model() == extended(
            old(sec).model(),
            hook_build_findings(command@, *build, version@),
        ),
{
    let ghost before = sec.model();
    match build {
        HookBuild::Version(v) => {
            if !same(v, version) {
                let mut message = cat5("`", command, "` is build ", v, ", this is ");
                message.append(version);
                sec.push(Status::Note, message);
            }
        },
        HookBuild::Unreported => {
            sec.push(Status::Note, cat3("`", command, "` names no build"));
        },
        HookBuild::Unverified(why) => {
            sec.push(Status::Note, cat5("the build of `", command, "` is unknown (", why, ")"));
        },
    }
    assert(sec.model() =~= extended(before, hook_build_findings(command@, *build, version@)));
}

/// The authority that is asked for its build: the local receiver's, where metrics go to it.
pub open spec fn probed(env: Env) -> Option<Seq<char>> {
    if route_is_local(metrics_route(env)) {
        Some(authority_of(metrics_route(env)->Some_0.0))
    } else {
        None
    }
}

/// The authority of the receiver to ask for its build; none where metrics go elsewhere.
pub fn receiver_to_probe(env: &Env) -> (r: Option<String>)
    ensures
        opt_view(r) == probed(*env),
{
    let (metrics, _) = effective_otlp_endpoints(env);
    match metrics {
        Some((endpoint, _)) => {
            if is_local_receiver(endpoint) {
                Some(authority(endpoint))
            } else {
                None
            }
        },
        None => None,
    }
}

/// The notes about what answers at the receiver's authority: none where it is this build.
pub open spec fn receiver_findings(
    at: Seq<char>,
    probe: Probe,
    version: Seq<char>,
) -> Seq<FindingModel> {
    match probe {
        Probe::Build(v) => if v@ == version {
            Seq::empty()
        } else {
            seq![noted("the receiver at "@ + at + " is build "@ + v@ + ", this is "@ + version)]
        },
        Probe::Foreign => seq![
            noted(
                at + " did not answer as a receiver (a build before "@ + IDENTITY_SINCE@
                    + ", or another collector)"@,
            ),
        ],
        Probe::Unreachable(why) => seq![
            noted("no receiver answers at "@ + at + " ("@ + why@ + ")"@),
        ],
    }
}

/// Note a receiver that is not this build, or that does not answer.
pub fn advise_receiver(sec: &mut Section, at: &str, probe: &Probe, version: &str)
    ensures
        final(sec).model() == extended(old(sec).model(), receiver_findings(at@, *probe, version@)),
{
    let ghost before = sec.model();
    match probe {
        Probe::Build(v) => {
            if !same(v, version) {
                let mut message = cat5("the receiver at ", at, " is build ", v, ", this is ");
                message.append(version);
                sec.push(Status::Note, message);
            }
        },
        Probe::Foreign => {
            sec.push(
                Status::Note,
                cat4(
                    at,
                    " did not answer as a receiver (a build before ",
                    IDENTITY_SINCE,
                    ", or another collector)",
                ),
            );
        },
        Probe::Unreachable(why) => {
            sec.push(Status::Note, cat5("no receiver answers at ", at, " (", why, ")"));
        },
    }
    assert(sec.model() =~= extended(before, receiver_findings(at@, *probe, version@)));
}

// ---------------------------------------------------------------------------------------------
// Storage
// ---------------------------------------------------------------------------------------------

/// What was found of the storage and the schemas.
#[derive(Debug)]
pub struct StorageFacts {
    pub state_dir: String,
    /// Why the state directory cannot be written, where it cannot.
    pub write_error: Option<String>,
    /// The path of the configuration file, in words.
    pub config_path: String,
    /// Why the configuration file cannot be read, where it cannot.
    pub settings_error: Option<String>,
    pub plugins: u64,
    /// Why the registry cannot be built from every schema, where it cannot.
    pub registry_error: Option<String>,
    /// The stored Kinds that no loaded schema declares, or why the stored ones cannot be listed.
    pub unreadable: Result<Vec<String>, String>,
}

/// The finding about the state directory.
pub open spec fn writable_finding(dir: Seq<char>, error: Option<Seq<char>>) -> FindingModel {
    match error {
        None => good("state dir writable: "@ + dir),
        Some(e) => failed("state dir not writable ("@ + dir + "): "@ + e),
    }
}

/// The findings about the schemas and the stored Kinds.
pub open spec fn registry_findings(f: StorageFacts) -> Seq<FindingModel> {
    let path = f.config_path@;
    match opt_view(f.settings_error) {
        Some(e) => seq![failed(e)],
        None => seq![
            match opt_view(f.registry_error) {
                Some(e) => failed("plugin schema in "@ + path + ": "@ + e),
                None => if f.plugins == 0 {
                    noted("no plugin schemas configured ("@ + path + ")"@)
                } else {
                    good(nat_text(f.plugins as nat) + " plugin schema(s) from "@ + path)
                },
            },
        ] + (match f.unreadable {
            Err(e) => seq![failed("cannot enumerate stored Kinds: "@ + e@)],
            Ok(v) => if v@.len() == 0 {
                Seq::empty()
            } else {
                seq![
                    warned(
                        "stored but unreadable — no loaded schema declares "@ + joined(
                            views(v@),
                            ", "@,
                        ) + "; add the plugin that defines them to `plugins` in "@ + path
                            + ", or their records stay uncountable"@,
                    ),
                ]
            },
        }),
    }
}

/// The section about storage.
pub open spec fn storage_section(f: StorageFacts) -> SectionModel {
    SectionModel {
        name: "storage"@,
        header: "storage:"@,
        findings: seq![writable_finding(f.state_dir@, opt_view(f.write_error))]
            + registry_findings(f),
    }
}

/// Check the storage and the schemas.
pub fn report_storage(f: &StorageFacts) -> (r: Section)
    ensures
        r.model() == storage_section(*f),
{
    let mut sec = Section::new("storage", "storage:");
    match &f.write_error {
        None => sec.push(Status::Good, cat2("state dir writable: ", &f.state_dir)),
        Some(e) => sec.push(
            Status::Fail,
            cat4("state dir not writable (", &f.state_dir, "): ", e),
        ),
    }
    if let Some(e) = &f.settings_error {
        sec.push(Status::Fail, owned(e));
        assert(sec.model().findings =~= storage_section(*f).findings);
        return sec;
    }
    match &f.registry_error {
        Some(e) => sec.push(Status::Fail, cat4("plugin schema in ", &f.config_path, ": ", e)),
        None => {
            if f.plugins == 0 {
                sec.push(
                    Status::Note,
                    cat3("no plugin schemas configured (", &f.config_path, ")"),
                );
            } else {
                sec.push(
                    Status::Good,
                    cat3(&show(f.plugins), " plugin schema(s) from ", &f.config_path),
                );
            }
        },
    }
    match &f.unreadable {
        Err(e) => sec.push(Status::Fail, cat2("cannot enumerate stored Kinds: ", e)),
        Ok(v) => {
            if v.len() > 0 {
                sec.push(
                    Status::Warn,
                    cat5(
                        "stored but unreadable — no loaded schema declares ",
                        &join(v, ", "),
                        "; add the plugin that defines them to `plugins` in ",
                        &f.config_path,
                        ", or their records stay uncountable",
                    ),
                );
            }
        },
    }
    assert(sec.model().findings =~= storage_section(*f).findings);
    sec
}

// ---------------------------------------------------------------------------------------------
// Export
// ---------------------------------------------------------------------------------------------

/// The note about a destination. Of its headers only the number is said: they may be credentials.
pub open spec fn target_finding(t: TargetModel) -> FindingModel {
    noted(
        t.endpoint + " ("@ + t.mode.name() + (match t.filter {
            FilterModel::All => Seq::empty(),
            FilterModel::Only(v) => ", "@ + ("only: "@ + joined(v, ", "@)),
            FilterModel::Except(v) => ", "@ + ("except: "@ + joined(v, ", "@)),
        }) + (if ordered_keys(t.headers).len() == 0 {
            Seq::empty()
        } else {
            ", "@ + nat_text(ordered_keys(t.headers).len()) + " header(s)"@
        }) + ")"@,
    )
}

pub open spec fn any_headers(targets: Seq<TargetModel>) -> bool {
    exists|i: int|
        0 <= i < targets.len() && ordered_keys((#[trigger] targets[i]).headers).len() > 0
}

/// Some destination reads the bodies: it enriches or restricts by project.
pub open spec fn needs_json(targets: Seq<TargetModel>) -> bool {
    exists|i: int|
        0 <= i < targets.len() && ((#[trigger] targets[i]).mode == ExportMode::Enriched
            || targets[i].filter != FilterModel::All)
}

/// The warning about a protocol that such a destination cannot read.
pub open spec fn json_findings(env: Env, targets: Seq<TargetModel>) -> Seq<FindingModel> {
    let proto = match env.lookup("OTEL_EXPORTER_OTLP_PROTOCOL"@) {
        Some((value, _)) => Some(value),
        None => None,
    };
    if needs_json(targets) && proto != Some("http/json"@) {
        seq![
            warned(
                "enriched/filtered export needs http/json input — OTEL_EXPORTER_OTLP_PROTOCOL is "@
                    + (match proto {
                    Some(p) => p,
                    None => "unset"@,
                }) + " → those targets forward nothing"@,
            ),
        ]
    } else {
        Seq::empty()
    }
}

/// The finding about a route: whether it ends at this receiver. `at` names the signal.
pub open spec fn route_finding(
    at: Seq<char>,
    route: Option<(Seq<char>, Seq<char>)>,
) -> FindingModel {
    match route {
        Some((endpoint, scope)) => if local_receiver(endpoint) {
            good(
                at
                    + "OTel is routed through this receiver — export has a stream to forward"@,
            )
        } else if scope == "managed"@ {
            failed(
                at + "endpoint is managed-locked to "@ + endpoint
                    + " — OTel can't be routed through hatel, so export forwards nothing (only the hook ledger is available)"@,
            )
        } else {
            failed(
                at + "OTel goes directly to "@ + endpoint + " (from "@ + scope
                    + "), bypassing this receiver — export forwards nothing; run `hatel init --insert` to route it through hatel"@,
            )
        },
        None => warned(
            at
                + "OTLP endpoint is unset — run `hatel init` to point it explicitly at this receiver"@,
        ),
    }
}

/// Both signals go to one place.
pub open spec fn one_destination(
    metrics: Option<(Seq<char>, Seq<char>)>,
    logs: Option<(Seq<char>, Seq<char>)>,
) -> bool {
    match (metrics, logs) {
        (Some(m), Some(l)) => normalized(m.0) == normalized(l.0),
        (None, None) => true,
        _ => false,
    }
}

/// The findings about the routes: one where both signals go to one place, else one for each.
pub open spec fn route_findings(env: Env) -> Seq<FindingModel> {
    let metrics = metrics_route(env);
    let logs = logs_route(env);
    if one_destination(metrics, logs) {
        seq![route_finding(Seq::empty(), metrics)]
    } else {
        seq![route_finding("metrics "@, metrics), route_finding("logs "@, logs)]
    }
}

/// The findings about a valid set of destinations. `unprotected` says that the host cannot keep
/// the file's headers private.
pub open spec fn export_findings(
    env: Env,
    targets: Seq<TargetModel>,
    unprotected: bool,
) -> Seq<FindingModel> {
    Seq::new(targets.len(), |i: int| target_finding(targets[i])) + seq![
        warned(
            "egress forwards the raw OTLP stream off this host — hatel does not redact it"@,
        ),
    ] + (if unprotected && any_headers(targets) {
        seq![
            warned(
                "this export config carries auth headers, and on Windows hatel cannot restrict the config file's permissions — protect it with file ACLs"@,
            ),
        ]
    } else {
        Seq::empty()
    }) + json_findings(env, targets) + route_findings(env)
}

/// The section about export; none where nothing is exported.
pub open spec fn export_section(
    env: Env,
    export: Result<ExportConfig, String>,
    unprotected: bool,
) -> Option<SectionModel> {
    match export {
        Err(e) => Some(
            SectionModel {
                name: "export"@,
                header: "export:"@,
                findings: seq![
                    failed(
                        "export config is invalid ("@ + e@ + ") — `serve` will refuse to start"@,
                    ),
                ],
            },
        ),
        Ok(c) => if c.targets@.len() == 0 {
            None
        } else {
            Some(
                SectionModel {
                    name: "export"@,
                    header: "export:"@,
                    findings: export_findings(env, target_models(c.targets@), unprotected),
                },
            )
        },
    }
}

pub open spec fn opt_section(o: Option<Section>) -> Option<SectionModel> {
    match o {
        Some(s) => Some(s.model()),
        None => None,
    }
}

fn header_count(t: &ExportTarget) -> (r: u64)
    ensures
        r == ordered_keys(t.model().headers).len(),
{
    let keys = t.headers.names();
    proof {
        lemma_ordered_keys(t.headers@, views(keys@));
    }
    keys.len() as u64
}

fn describe_target(t: &ExportTarget) -> (r: String)
    ensures
        target_finding(t.model()) == noted(r@),
{
    let mut out = cat3(&t.endpoint, " (", t.mode.as_str());
    match t.filter.describe() {
        Some(d) => {
            out.append(", ");
            out.append(&d);
        },
        None => {},
    }
    let n = header_count(t);
    if n > 0 {
        out.append(", ");
        out.append(&show(n));
        out.append(" header(s)");
    }
    out.append(")");
    assert(out@ =~= target_finding(t.model()).message);
    out
}

fn push_route(sec: &mut Section, at: &str, route: Option<(&str, &'static str)>)
    ensures
        final(sec).model() == extended(
            old(sec).model(),
            seq![route_finding(at@, opt_entry(route))],
        ),
{
    let ghost before = sec.model();
    match route {
        Some((endpoint, scope)) => {
            if is_local_receiver(endpoint) {
                sec.push(
                    Status::Good,
                    cat2(
                        at,
                        "OTel is routed through this receiver — export has a stream to forward",
                    ),
                );
            } else if same(scope, "managed") {
                sec.push(
                    Status::Fail,
                    cat4(
                        at,
                        "endpoint is managed-locked to ",
                        endpoint,
                        " — OTel can't be routed through hatel, so export forwards nothing (only the hook ledger is available)",
                    ),
                );
            } else {
                let head = cat5(at, "OTel goes directly to ", endpoint, " (from ", scope);
                sec.push(
                    Status::Fail,
                    cat2(
                        &head,
                        "), bypassing this receiver — export forwards nothing; run `hatel init --insert` to route it through hatel",
                    ),
                );
            }
        },
        None => {
            sec.push(
                Status::Warn,
                cat2(
                    at,
                    "OTLP endpoint is unset — run `hatel init` to point it explicitly at this receiver",
                ),
            );
        },
    }
    assert(sec.model().findings =~= extended(
        before,
        seq![route_finding(at@, opt_entry(route))],
    ).findings);
}

fn push_routes(sec: &mut Section, env: &Env)
    ensures
        final(sec).model() == extended(old(sec).model(), route_findings(*env)),
{
    let ghost before = sec.model();
    let (metrics, logs) = effective_otlp_endpoints(env);
    let one = match (metrics, logs) {
        (Some((m, _)), Some((l, _))) => same(&normalize_endpoint(m), &normalize_endpoint(l)),
        (None, None) => true,
        _ => false,
    };
    if one {
        let empty = String::new();
        assert(empty@ =~= Seq::<char>::empty());
        push_route(sec, &empty, metrics);
    } else {
        push_route(sec, "metrics ", metrics);
        push_route(sec, "logs ", logs);
        assert(sec.model().findings =~= before.findings + route_findings(*env));
    }
}

/// Check the destinations and whether the stream reaches this receiver at all. `unprotected` says
/// that the host cannot keep the file's headers private.
pub fn report_export(
    env: &Env,
    export: &Result<ExportConfig, String>,
    unprotected: bool,
) -> (r: Option<Section>)
    ensures
        opt_section(r) == export_section(*env, *export, unprotected),
{
    let mut sec = Section::new("export", "export:");
    let config = match export {
        Ok(c) => c,
        Err(e) => {
            sec.push(
                Status::Fail,
                cat3("export config is invalid (", e, ") — `serve` will refuse to start"),
            );
            assert(sec.model().findings =~= seq![
                failed("export config is invalid ("@ + e@ + ") — `serve` will refuse to start"@),
            ]);
            return Some(sec);
        },
    };
    if config.targets.len() == 0 {
        return None;
    }
    let ghost targets = target_models(config.targets@);
    let ghost want = export_findings(*env, targets, unprotected);
    let mut headed = false;
    let mut reads = false;
    let mut i: usize = 0;
    assert(sec.model().findings =~= Seq::<FindingModel>::empty());
    while i < config.targets.len()
        invariant
            0 <= i <= config.targets.len(),
            targets == target_models(config.targets@),
            sec.model().name == "export"@,
            sec.model().header == "export:"@,
            sec.model().findings == Seq::new(i as nat, |k: int| target_finding(targets[k])),
            headed == exists|k: int|
                0 <= k < i && ordered_keys((#[trigger] targets[k]).headers).len() > 0,
            reads == exists|k: int|
                0 <= k < i && ((#[trigger] targets[k]).mode == ExportMode::Enriched
                    || targets[k].filter != FilterModel::All),
        decreases config.targets.len() - i,
    {
        let t = &config.targets[i];
        assert(targets[i as int] == t.model());
        sec.push(Status::Note, describe_target(t));
        assert(sec.model().findings =~= Seq::new(
            (i + 1) as nat,
            |k: int| target_finding(targets[k]),
        ));
        let enriches = match t.mode {
            ExportMode::Enriched => true,
            ExportMode::Raw => false,
        };
        let here = header_count(t) > 0;
        let this = enriches || t.filter.is_filtered();
        proof {
            if headed {
                let k = choose|k: int|
                    0 <= k < i && ordered_keys((#[trigger] targets[k]).headers).len() > 0;
                assert(0 <= k < i + 1 && ordered_keys(targets[k].headers).len() > 0);
            }
            if reads {
                let k = choose|k: int|
                    0 <= k < i && ((#[trigger] targets[k]).mode == ExportMode::Enriched
                        || targets[k].filter != FilterModel::All);
                assert(0 <= k < i + 1 && (targets[k].mode == ExportMode::Enriched
                    || targets[k].filter != FilterModel::All));
            }
        }
        headed = headed || here;
        reads = reads || this;
        i = i + 1;
    }
    sec.push(
        Status::Warn,
        owned("egress forwards the raw OTLP stream off this host — hatel does not redact it"),
    );
    if unprotected && headed {
        sec.push(
            Status::Warn,
            owned(
                "this export config carries auth headers, and on Windows hatel cannot restrict the config file's permissions — protect it with file ACLs",
            ),
        );
    }
    let ghost half = sec.model();
    if reads {
        let proto = env.value("OTEL_EXPORTER_OTLP_PROTOCOL");
        let json = match proto {
            Some(p) => same(p, "http/json"),
            None => false,
        };
        if !json {
            let shown: &str = match proto {
                Some(p) => p,
                None => "unset",
            };
            sec.push(
                Status::Warn,
                cat3(
                    "enriched/filtered export needs http/json input — OTEL_EXPORTER_OTLP_PROTOCOL is ",
                    shown,
                    " → those targets forward nothing",
                ),
            );
        }
    }
    assert(sec.model().findings =~= half.findings + json_findings(*env, targets));
    push_routes(&mut sec, env);
    assert(sec.model().findings =~= want);
    Some(sec)
}

// ---------------------------------------------------------------------------------------------
// The report
// ---------------------------------------------------------------------------------------------

/// What is shown of a settings file.
#[derive(Debug)]
pub struct SettingsFileInfo {
    pub load: String,
    pub name: String,
    pub path: String,
}

#[verifier::ext_equal]
pub struct FileModel {
    pub load: Seq<char>,
    pub name: Seq<char>,
    pub path: Seq<char>,
}

impl SettingsFileInfo {
    pub open spec fn model(self) -> FileModel {
        FileModel { load: self.load@, name: self.name@, path: self.path@ }
    }
}

pub open spec fn file_models(v: Seq<SettingsFileInfo>) -> Seq<FileModel> {
    Seq::new(v.len(), |i: int| v[i].model())
}

pub open spec fn section_models(v: Seq<Section>) -> Seq<SectionModel> {
    Seq::new(v.len(), |i: int| v[i].model())
}

/// The whole report. The snippet is what `init` would apply.
#[derive(Debug)]
pub struct Report {
    pub ok: bool,
    pub sections: Vec<Section>,
    pub settings_files: Vec<SettingsFileInfo>,
    pub snippet: String,
}

#[verifier::ext_equal]
pub struct ReportModel {
    pub ok: bool,
    pub sections: Seq<SectionModel>,
    pub files: Seq<FileModel>,
    pub snippet: Seq<char>,
}

impl Report {
    pub open spec fn model(self) -> ReportModel {
        ReportModel {
            ok: self.ok,
            sections: section_models(self.sections@),
            files: file_models(self.settings_files@),
            snippet: self.snippet@,
        }
    }
}

/// No finding of a section failed.
pub open spec fn passes(sec: SectionModel) -> bool {
    forall|i: int| 0 <= i < sec.findings.len() ==> (#[trigger] sec.findings[i]).status != Status::Fail
}

/// No finding failed.
pub open spec fn all_pass(sections: Seq<SectionModel>) -> bool {
    forall|i: int| 0 <= i < sections.len() ==> passes(#[trigger] sections[i])
}

fn section_passes(sec: &Section) -> (r: bool)
    ensures
        r == passes(sec.model()),
{
    let mut i: usize = 0;
    while i < sec.findings.len()
        invariant
            0 <= i <= sec.findings.len(),
            forall|k: int|
                0 <= k < i ==> (#[trigger] sec.model().findings[k]).status != Status::Fail,
        decreases sec.findings.len() - i,
    {
        assert(sec.model().findings[i as int] == sec.findings@[i as int].model());
        let fails = match sec.findings[i].status {
            Status::Fail => true,
            _ => false,
        };
        if fails {
            return false;
        }
        i = i + 1;
    }
    true
}

/// What is shown of each settings file.
pub open spec fn shown_files(files: Seq<ScopeFile>) -> Seq<FileModel> {
    Seq::new(
        files.len(),
        |i: int|
            FileModel {
                load: files[i].load.label_text(),
                name: files[i].name@,
                path: files[i].path@,
            },
    )
}

/// Put a report together. It is ok where no finding failed.
pub fn build_report(files: &Vec<ScopeFile>, sections: Vec<Section>, snippet: String) -> (r: Report)
    ensures
        r.model() == (ReportModel {
            ok: all_pass(section_models(sections@)),
            sections: section_models(sections@),
            files: shown_files(files@),
            snippet: snippet@,
        }),
{
    let ghost all = section_models(sections@);
    let mut ok = true;
    let mut i: usize = 0;
    while i < sections.len()
        invariant
            0 <= i <= sections.len(),
            all == section_models(sections@),
            ok == forall|k: int| 0 <= k < i ==> passes(#[trigger] all[k]),
        decreases sections.len() - i,
    {
        assert(all[i as int] == sections@[i as int].model());
        if !section_passes(&sections[i]) {
            assert(!passes(all[i as int]));
            ok = false;
        }
        i = i + 1;
    }
    let mut settings_files: Vec<SettingsFileInfo> = Vec::new();
    let mut j: usize = 0;
    while j < files.len()
        invariant
            0 <= j <= files.len(),
            settings_files.len() == j,
            forall|k: int|
                0 <= k < j ==> (#[trigger] settings_files@[k]).model() == shown_files(files@)[k],
        decreases files.len() - j,
    {
        settings_files.push(
            SettingsFileInfo {
                load: files[j].load.label(),
                name: owned(files[j].name),
                path: owned(&files[j].path),
            },
        );
        j = j + 1;
    }
    assert(file_models(settings_files@) =~= shown_files(files@));
    Report { ok, sections, settings_files, snippet }
}

pub open spec fn file_line(f: FileModel) -> Seq<char> {
    "  "@ + filled(f.name, 8) + " "@ + filled(f.load, 22) + " "@ + f.path + "\n"@
}

pub open spec fn file_lines(files: Seq<FileModel>) -> Seq<char>
    decreases files.len(),
{
    if files.len() == 0 {
        Seq::empty()
    } else {
        file_lines(files.drop_last()) + file_line(files.last())
    }
}

pub open spec fn finding_line(f: FindingModel) -> Seq<char> {
    "  "@ + f.status.glyph_text() + " "@ + f.message + "\n"@
}

pub open spec fn finding_lines(v: Seq<FindingModel>) -> Seq<char>
    decreases v.len(),
{
    if v.len() == 0 {
        Seq::empty()
    } else {
        finding_lines(v.drop_last()) + finding_line(v.last())
    }
}

pub open spec fn section_text(s: SectionModel) -> Seq<char> {
    s.header + "\n"@ + finding_lines(s.findings) + "\n"@
}

pub open spec fn sections_text(v: Seq<SectionModel>) -> Seq<char>
    decreases v.len(),
{
    if v.len() == 0 {
        Seq::empty()
    } else {
        sections_text(v.drop_last()) + section_text(v.last())
    }
}

/// The report as a person reads it.
pub open spec fn human_text(r: ReportModel) -> Seq<char> {
    "hatel doctor\n\nsettings files:\n"@ + file_lines(r.files) + "\n"@ + sections_text(r.sections)
        + "to wire automatically run `hatel init` — or paste this into managed settings for an org:\n\n"@
        + r.snippet
}

fn push_section(out: &mut String, s: &Section)
    ensures
        final(out)@ == old(out)@ + section_text(s.model()),
{
    let ghost start = out@;
    out.append(s.header);
    out.append("\n");
    let ghost base = out@;
    let ghost all = finding_models(s.findings@);
    let mut i: usize = 0;
    assert(all.take(0) =~= Seq::<FindingModel>::empty());
    assert(base + finding_lines(all.take(0)) =~= base);
    while i < s.findings.len()
        invariant
            0 <= i <= s.findings.len(),
            all == finding_models(s.findings@),
            out@ == base + finding_lines(all.take(i as int)),
        decreases s.findings.len() - i,
    {
        proof {
            assert(all.take(i + 1).drop_last() =~= all.take(i as int));
            assert(all.take(i + 1).last() == s.findings@[i as int].model());
        }
        let line = cat5("  ", s.findings[i].status.glyph(), " ", &s.findings[i].message, "\n");
        out.append(&line);
        assert(out@ =~= base + finding_lines(all.take(i + 1)));
        i = i + 1;
    }
    assert(all.take(s.findings.len() as int) =~= all);
    out.append("\n");
    assert(out@ =~= start + section_text(s.model()));
}

fn push_file(out: &mut String, f: &SettingsFileInfo)
    ensures
        final(out)@ == old(out)@ + file_line(f.model()),
{
    let ghost start = out@;
    out.append("  ");
    push_filled(out, &f.name, 8);
    out.append(" ");
    push_filled(out, &f.load, 22);
    out.append(" ");
    out.append(&f.path);
    out.append("\n");
    assert(out@ =~= start + file_line(f.model()));
}

/// Render the report for a person.
pub fn render_human(r: &Report) -> (text: String)
    ensures
        text@ == human_text(r.model()),
{
    let mut out = owned("hatel doctor\n\nsettings files:\n");
    let ghost top = out@;
    let ghost files = file_models(r.settings_files@);
    let mut i: usize = 0;
    assert(files.take(0) =~= Seq::<FileModel>::empty());
    assert(top + file_lines(files.take(0)) =~= top);
    while i < r.settings_files.len()
        invariant
            0 <= i <= r.settings_files.len(),
            files == file_models(r.settings_files@),
            out@ == top + file_lines(files.take(i as int)),
        decreases r.settings_files.len() - i,
    {
        proof {
            assert(files.take(i + 1).drop_last() =~= files.take(i as int));
            assert(files.take(i + 1).last() == r.settings_files@[i as int].model());
        }
        push_file(&mut out, &r.settings_files[i]);
        assert(out@ =~= top + file_lines(files.take(i + 1)));
        i = i + 1;
    }
    assert(files.take(r.settings_files.len() as int) =~= files);
    out.append("\n");
    let ghost base = out@;
    let ghost all = section_models(r.sections@);
    let mut j: usize = 0;
    assert(all.take(0) =~= Seq::<SectionModel>::empty());
    assert(base + sections_text(all.take(0)) =~= base);
    while j < r.sections.len()
        invariant
            0 <= j <= r.sections.len(),
            all == section_models(r.sections@),
            out@ == base + sections_text(all.take(j as int)),
        decreases r.sections.len() - j,
    {
        proof {
            assert(all.take(j + 1).drop_last() =~= all.take(j as int));
            assert(all.take(j + 1).last() == r.sections@[j as int].model());
        }
        push_section(&mut out, &r.sections[j]);
        assert(out@ =~= base + sections_text(all.take(j + 1)));
        j = j + 1;
    }
    assert(all.take(r.sections.len() as int) =~= all);
    out.append(
        "to wire automatically run `hatel init` — or paste this into managed settings for an org:\n\n",
    );
    out.append(&r.snippet);
    out
}

// ---------------------------------------------------------------------------------------------
// The report as a value
// ---------------------------------------------------------------------------------------------

pub open spec fn finding_tree(f: FindingModel) -> Tree {
    Tree::Obj(
        map![
            "message"@ => Tree::Str(f.message),
            "status"@ => Tree::Str(f.status.name_text()),
        ],
    )
}

/// A section as a machine reads it: the heading is for people only.
pub open spec fn section_tree(s: SectionModel) -> Tree {
    Tree::Obj(
        map![
            "name"@ => Tree::Str(s.name),
            "findings"@ => Tree::Arr(
                Seq::new(s.findings.len(), |i: int| finding_tree(s.findings[i])),
            ),
        ],
    )
}

pub open spec fn file_tree(f: FileModel) -> Tree {
    Tree::Obj(
        map![
            "load"@ => Tree::Str(f.load),
            "name"@ => Tree::Str(f.name),
            "path"@ => Tree::Str(f.path),
        ],
    )
}

/// The report as a machine reads it.
pub open spec fn report_tree(r: ReportModel) -> Tree {
    Tree::Obj(
        map![
            "ok"@ => Tree::Bool(r.ok),
            "sections"@ => Tree::Arr(
                Seq::new(r.sections.len(), |i: int| section_tree(r.sections[i])),
            ),
            "settings_files"@ => Tree::Arr(
                Seq::new(r.files.len(), |i: int| file_tree(r.files[i])),
            ),
            "snippet"@ => Tree::Str(r.snippet),
        ],
    )
}

fn finding_value(f: &Finding) -> (r: Json)
    ensures
        r.view() == finding_tree(f.model()),
{
    let mut m: Vec<(String, Json)> = Vec::new();
    set_member(&mut m, "message", Json::text(&f.message));
    set_member(&mut m, "status", Json::text(f.status.name()));
    assert(members(m@) =~= finding_tree(f.model())->Obj_0);
    Json::Object(m)
}

fn section_value(s: &Section) -> (r: Json)
    ensures
        r.view() == section_tree(s.model()),
{
    let ghost all = s.model().findings;
    let mut found: Vec<Json> = Vec::new();
    let mut i: usize = 0;
    while i < s.findings.len()
        invariant
            0 <= i <= s.findings.len(),
            all == s.model().findings,
            found.len() == i,
            forall|k: int| 0 <= k < i ==> (#[trigger] found@[k]).view() == finding_tree(all[k]),
        decreases s.findings.len() - i,
    {
        found.push(finding_value(&s.findings[i]));
        i = i + 1;
    }
    assert(items(found@) =~= Seq::new(all.len(), |i: int| finding_tree(all[i])));
    let mut m: Vec<(String, Json)> = Vec::new();
    set_member(&mut m, "name", Json::text(s.name));
    set_member(&mut m, "findings", Json::Array(found));
    assert(members(m@) =~= section_tree(s.model())->Obj_0);
    Json::Object(m)
}

fn file_value(f: &SettingsFileInfo) -> (r: Json)
    ensures
        r.view() == file_tree(f.model()),
{
    let mut m: Vec<(String, Json)> = Vec::new();
    set_member(&mut m, "load", Json::text(&f.load));
    set_member(&mut m, "name", Json::text(&f.name));
    set_member(&mut m, "path", Json::text(&f.path));
    assert(members(m@) =~= file_tree(f.model())->Obj_0);
    Json::Object(m)
}

/// The report as a value.
pub fn report_value(report: &Report) -> (r: Json)
    ensures
        r.view() == report_tree(report.model()),
{
    let ghost secs = report.model().sections;
    let ghost files = report.model().files;
    let mut sections: Vec<Json> = Vec::new();
    let mut i: usize = 0;
    while i < report.sections.len()
        invariant
            0 <= i <= report.sections.len(),
            secs == report.model().sections,
            sections.len() == i,
            forall|k: int| 0 <= k < i ==> (#[trigger] sections@[k]).view() == section_tree(secs[k]),
        decreases report.sections.len() - i,
    {
        sections.push(section_value(&report.sections[i]));
        i = i + 1;
    }
    assert(items(sections@) =~= Seq::new(secs.len(), |i: int| section_tree(secs[i])));
    let mut listed: Vec<Json> = Vec::new();
    let mut j: usize = 0;
    while j < report.settings_files.len()
        invariant
            0 <= j <= report.settings_files.len(),
            files == report.model().files,
            listed.len() == j,
            forall|k: int| 0 <= k < j ==> (#[trigger] listed@[k]).view() == file_tree(files[k]),
        decreases report.settings_files.len() - j,
    {
        listed.push(file_value(&report.settings_files[j]));
        j = j + 1;
    }
    assert(items(listed@) =~= Seq::new(files.len(), |i: int| file_tree(files[i])));
    let mut m: Vec<(String, Json)> = Vec::new();
    set_member(&mut m, "ok", Json::Bool(report.ok));
    set_member(&mut m, "sections", Json::Array(sections));
    set_member(&mut m, "settings_files", Json::Array(listed));
    set_member(&mut m, "snippet", Json::text(&report.snippet));
    assert(members(m@) =~= report_tree(report.model())->Obj_0);
    Json::Object(m)
}

} // verus!
