//! What a diagnosis promises: which finding passes, warns or fails, that none is left out of the
//! report, and that a report passes exactly where none of its findings fails.
use vstd::prelude::*;
use crate::assoc::{lemma_ordered_keys, lists, ordered_keys};
use crate::claude_settings::local_receiver;
use crate::doctor::{
    all_pass, any_headers, bound_pairs, bound_to, coverage_finding, dormant_finding,
    dormant_findings, endpoint_finding, env_finding, event_pairs, events_wired, export_findings,
    export_section, file_line, file_lines, file_tree, finding_line, finding_lines, gone_finding,
    hook_build_findings, hook_findings, json_findings, logs_route, metrics_route, native_section,
    needs_json, pair_events, pair_kinds, passes, probed, protocol_finding, receiver_findings,
    report_tree, route_finding, route_findings, section_text, sections_text, session_finding,
    shown_files, storage_section, target_finding, unwireable_finding, BoundModel, FileModel,
    FindingModel, ReportModel, SectionModel, Status, StorageFacts,
};
use crate::export::{normalized, ExportConfig, ExportMode, FilterModel, TargetModel};
use crate::json::{tree_get, Tree};
use crate::order::before;
use crate::receiver::{authority_of, Probe};
use crate::registry::{bindings_of, BindingModel};
use crate::scopes::{wiring_of, Env, HookBuild, ScopeFile, ScopeModel, Wiring};
use crate::seqs::lemma_filter_holds;
use crate::sorted::{is_sorted_set_of, lemma_sorted_set, sorted_set};

verus! {

broadcast use vstd::map::group_map_axioms;

// ---------------------------------------------------------------------------------------------
// Native telemetry
// ---------------------------------------------------------------------------------------------

/// A required variable passes exactly where it has its value; else it fails.
pub proof fn law_a_variable_passes_with_its_value(env: Env, key: Seq<char>, want: Seq<char>)
    ensures
        env_finding(env, key, want).status == Status::Good <==> (env.lookup(key) matches Some(p)
            && p.0 == want),
        env_finding(env, key, want).status == Status::Good || env_finding(env, key, want).status
            == Status::Fail,
{
}

/// An endpoint passes exactly where one of the three variables is set; else it fails.
pub proof fn law_any_endpoint_passes(env: Env)
    ensures
        endpoint_finding(env).status == Status::Good <==> env.lookup(
            "OTEL_EXPORTER_OTLP_ENDPOINT"@,
        ) is Some || env.lookup("OTEL_EXPORTER_OTLP_METRICS_ENDPOINT"@) is Some || env.lookup(
            "OTEL_EXPORTER_OTLP_LOGS_ENDPOINT"@,
        ) is Some,
        endpoint_finding(env).status == Status::Good || endpoint_finding(env).status
            == Status::Fail,
{
}

/// Each signal goes to its own endpoint, where one is set, and else to the general one.
pub proof fn law_a_route_is_the_nearest_endpoint(env: Env)
    ensures
        env.lookup("OTEL_EXPORTER_OTLP_METRICS_ENDPOINT"@) is Some ==> metrics_route(env)
            == env.lookup("OTEL_EXPORTER_OTLP_METRICS_ENDPOINT"@),
        env.lookup("OTEL_EXPORTER_OTLP_METRICS_ENDPOINT"@) is None ==> metrics_route(env)
            == env.lookup("OTEL_EXPORTER_OTLP_ENDPOINT"@),
        env.lookup("OTEL_EXPORTER_OTLP_LOGS_ENDPOINT"@) is Some ==> logs_route(env) == env.lookup(
            "OTEL_EXPORTER_OTLP_LOGS_ENDPOINT"@,
        ),
        env.lookup("OTEL_EXPORTER_OTLP_LOGS_ENDPOINT"@) is None ==> logs_route(env) == env.lookup(
            "OTEL_EXPORTER_OTLP_ENDPOINT"@,
        ),
{
}

/// The protocol passes exactly where it is JSON. Another, or none, fails where metrics or logs go to
/// the local receiver, and is a warning where neither does.
pub proof fn law_the_local_receiver_needs_json(env: Env)
    ensures
        ({
            let json = env.lookup("OTEL_EXPORTER_OTLP_PROTOCOL"@) matches Some(p) && p.0
                == "http/json"@;
            let local = (metrics_route(env) matches Some(p) && local_receiver(p.0)) || (logs_route(
                env,
            ) matches Some(p) && local_receiver(p.0));
            protocol_finding(env).status == if json {
                Status::Good
            } else if local {
                Status::Fail
            } else {
                Status::Warn
            }
        }),
{
}

/// Metrics without sessions are warned of exactly where they are switched off.
pub proof fn law_sessions_are_warned_of_where_switched_off(env: Env)
    ensures
        session_finding(env).status == if (env.lookup("OTEL_METRICS_INCLUDE_SESSION_ID"@) matches Some(
            p,
        ) && p.0 == "false"@) {
            Status::Warn
        } else {
            Status::Good
        },
{
}

/// Native telemetry passes exactly where it is switched on, both exporters speak OTLP, an endpoint
/// is set and the protocol does not fail.
pub proof fn law_native_telemetry_passes_where_it_arrives(env: Env)
    ensures
        passes(native_section(env)) <==> {
            &&& (env.lookup("CLAUDE_CODE_ENABLE_TELEMETRY"@) matches Some(p) && p.0 == "1"@)
            &&& (env.lookup("OTEL_METRICS_EXPORTER"@) matches Some(p) && p.0 == "otlp"@)
            &&& (env.lookup("OTEL_LOGS_EXPORTER"@) matches Some(p) && p.0 == "otlp"@)
            &&& endpoint_finding(env).status == Status::Good
            &&& protocol_finding(env).status != Status::Fail
        },
{
    let sec = native_section(env);
    assert(sec.findings.len() == 6);
    assert(sec.findings[0] == env_finding(env, "CLAUDE_CODE_ENABLE_TELEMETRY"@, "1"@));
    assert(sec.findings[1] == env_finding(env, "OTEL_METRICS_EXPORTER"@, "otlp"@));
    assert(sec.findings[2] == env_finding(env, "OTEL_LOGS_EXPORTER"@, "otlp"@));
    assert(sec.findings[3] == endpoint_finding(env));
    assert(sec.findings[4] == protocol_finding(env));
    assert(sec.findings[5] == session_finding(env));
}

// ---------------------------------------------------------------------------------------------
// Hooks
// ---------------------------------------------------------------------------------------------

proof fn lemma_events_wired(files: Seq<ScopeModel>, events: Seq<Seq<char>>, wired: bool)
    ensures
        forall|e: Seq<char>| #[trigger]
            events_wired(files, events, wired).contains(e) <==> events.contains(e) && (wiring_of(
                files,
                e,
            ) != Wiring::Missing) == wired,
        events_wired(files, events, true).len() + events_wired(files, events, false).len()
            == events.len(),
    decreases events.len(),
{
    if events.len() > 0 {
        let init = events.drop_last();
        let last = events.last();
        lemma_events_wired(files, init, wired);
        let rest = events_wired(files, init, wired);
        let all = events_wired(files, events, wired);
        assert(events[events.len() - 1] == last);
        assert forall|e: Seq<char>| #[trigger] all.contains(e) <==> events.contains(e) && (wiring_of(
            files,
            e,
        ) != Wiring::Missing) == wired by {
            assert(rest.contains(e) <==> init.contains(e) && (wiring_of(files, e)
                != Wiring::Missing) == wired);
            if init.contains(e) {
                assert(events[init.index_of(e)] == e);
            }
            if events.contains(e) && e != last {
                assert(init[events.index_of(e)] == e);
            }
            if rest.contains(e) {
                assert(all[rest.index_of(e)] == e);
            }
            if (wiring_of(files, last) != Wiring::Missing) == wired {
                assert(all[rest.len() as int] == last);
            }
            if all.contains(e) {
                let k = all.index_of(e);
                if k < rest.len() {
                    assert(rest[k] == e);
                }
            }
        }
    }
}

/// Every event is either among those that are captured or among those that are not.
pub proof fn law_events_are_captured_or_missing(
    files: Seq<ScopeModel>,
    events: Seq<Seq<char>>,
    event: Seq<char>,
)
    ensures
        events_wired(files, events, true).contains(event) <==> events.contains(event) && wiring_of(
            files,
            event,
        ) != Wiring::Missing,
        events_wired(files, events, false).contains(event) <==> events.contains(event)
            && wiring_of(files, event) == Wiring::Missing,
        events_wired(files, events, true).len() + events_wired(files, events, false).len()
            == events.len(),
{
    lemma_events_wired(files, events, true);
    lemma_events_wired(files, events, false);
}

/// The coverage passes exactly where every event is captured; else it fails.
pub proof fn law_coverage_passes_where_every_event_is_captured(
    files: Seq<ScopeModel>,
    events: Seq<Seq<char>>,
)
    ensures
        coverage_finding(files, events).status == Status::Good <==> forall|i: int|
            0 <= i < events.len() ==> wiring_of(files, #[trigger] events[i]) != Wiring::Missing,
        coverage_finding(files, events).status == Status::Good || coverage_finding(
            files,
            events,
        ).status == Status::Fail,
{
    lemma_events_wired(files, events, true);
    lemma_events_wired(files, events, false);
    let missing = events_wired(files, events, false);
    if missing.len() > 0 {
        assert(missing.contains(missing[0]));
        let i = events.index_of(missing[0]);
        assert(wiring_of(files, events[i]) == Wiring::Missing);
    } else {
        assert forall|i: int| 0 <= i < events.len() implies wiring_of(files, #[trigger] events[i])
            != Wiring::Missing by {
            assert(events.contains(events[i]));
            assert(!missing.contains(events[i]));
        }
    }
}

/// The hooks pass exactly where every event is captured, every command is on disk and every binding
/// can fire; each command that is gone and each binding that cannot fire has its own finding.
pub proof fn law_hooks_pass_where_nothing_is_missing(
    name: Seq<char>,
    header: Seq<char>,
    files: Seq<ScopeModel>,
    events: Seq<Seq<char>>,
    gone: Seq<Seq<char>>,
    unwireable: Seq<Seq<char>>,
)
    ensures
        ({
            let found = hook_findings(files, events, gone, unwireable);
            &&& passes(SectionModel { name, header, findings: found }) <==> gone.len() == 0
                && unwireable.len() == 0 && coverage_finding(files, events).status == Status::Good
            &&& found.len() == 1 + gone.len() + unwireable.len()
            &&& forall|i: int|
                0 <= i < gone.len() ==> #[trigger] found[1 + i] == gone_finding(gone[i])
            &&& forall|i: int|
                0 <= i < unwireable.len() ==> #[trigger] found[1 + gone.len() + i]
                    == unwireable_finding(unwireable[i])
        }),
{
    let found = hook_findings(files, events, gone, unwireable);
    law_coverage_passes_where_every_event_is_captured(files, events);
    assert(found[0] == coverage_finding(files, events));
    if gone.len() > 0 {
        assert(found[1] == gone_finding(gone[0]));
    }
    if unwireable.len() > 0 {
        assert(found[1 + gone.len() as int] == unwireable_finding(unwireable[0]));
    }
}

proof fn lemma_pair_events(pairs: Seq<(Seq<char>, Seq<char>)>, kind: Seq<char>, n: int)
    requires
        0 <= n <= pairs.len(),
    ensures
        forall|e: Seq<char>| #[trigger]
            pair_events(pairs, kind, n).contains(e) <==> pairs.take(n).contains((kind, e)),
    decreases n,
{
    if n > 0 {
        lemma_pair_events(pairs, kind, n - 1);
        let rest = pair_events(pairs, kind, n - 1);
        let all = pair_events(pairs, kind, n);
        let last = pairs[n - 1];
        assert forall|e: Seq<char>| #[trigger] all.contains(e) <==> pairs.take(n).contains(
            (kind, e),
        ) by {
            assert(rest.contains(e) <==> pairs.take(n - 1).contains((kind, e)));
            assert(pairs.take(n)[n - 1] == last);
            if pairs.take(n - 1).contains((kind, e)) {
                let k = pairs.take(n - 1).index_of((kind, e));
                assert(pairs.take(n)[k] == (kind, e));
            }
            if pairs.take(n).contains((kind, e)) {
                let k = pairs.take(n).index_of((kind, e));
                if k < n - 1 {
                    assert(pairs.take(n - 1)[k] == (kind, e));
                }
            }
            if rest.contains(e) {
                assert(all[rest.index_of(e)] == e);
            }
            if last.0 == kind {
                assert(all[rest.len() as int] == last.1);
            }
            if all.contains(e) {
                let k = all.index_of(e);
                if k < rest.len() {
                    assert(rest[k] == e);
                }
            }
        }
    } else {
        assert(pairs.take(0) =~= Seq::<(Seq<char>, Seq<char>)>::empty());
    }
}

/// Every bound Kind is listed, once and in the order of their names, with exactly the events that are
/// bound to it.
pub proof fn law_a_bound_kind_has_its_events(
    pairs: Seq<(Seq<char>, Seq<char>)>,
    kind: Seq<char>,
    event: Seq<char>,
    i: int,
)
    ensures
        pairs.contains((kind, event)) ==> exists|j: int|
            0 <= j < bound_to(pairs).len() && (#[trigger] bound_to(pairs)[j]).kind == kind,
        0 <= i < bound_to(pairs).len() ==> (bound_to(pairs)[i].events.contains(event)
            <==> pairs.contains((bound_to(pairs)[i].kind, event))),
        forall|a: int, b: int|
            0 <= a < b < bound_to(pairs).len() ==> before(
                (#[trigger] bound_to(pairs)[a]).kind,
                (#[trigger] bound_to(pairs)[b]).kind,
            ),
{
    let kinds = sorted_set(pair_kinds(pairs));
    let bound = bound_to(pairs);
    lemma_sorted_set(pair_kinds(pairs));
    assert(is_sorted_set_of(kinds, pair_kinds(pairs)));
    if pairs.contains((kind, event)) {
        let k = pairs.index_of((kind, event));
        assert(pair_kinds(pairs)[k] == kind);
        assert(pair_kinds(pairs).contains(kind));
        assert(kinds.contains(kind));
        let j = kinds.index_of(kind);
        assert(bound[j].kind == kind);
    }
    if 0 <= i < bound.len() {
        lemma_pair_events(pairs, kinds[i], pairs.len() as int);
        assert(pairs.take(pairs.len() as int) =~= pairs);
        assert(bound[i].kind == kinds[i]);
        assert(pair_events(pairs, kinds[i], pairs.len() as int).contains(event) <==> pairs.contains(
            (kinds[i], event),
        ));
    }
    assert forall|a: int, b: int| 0 <= a < b < bound.len() implies before(
        (#[trigger] bound[a]).kind,
        (#[trigger] bound[b]).kind,
    ) by {
        assert(before(kinds[a], kinds[b]));
    }
}

/// A Kind and an event are a pair exactly where the event is in the list and a binding of it records
/// the Kind.
pub proof fn law_pairs_are_the_bindings_of_the_events(
    bindings: Seq<BindingModel>,
    events: Seq<Seq<char>>,
    kind: Seq<char>,
    event: Seq<char>,
)
    ensures
        bound_pairs(bindings, events).contains((kind, event)) <==> events.contains(event) && exists|
            i: int,
        |
            0 <= i < bindings.len() && (#[trigger] bindings[i]).event == event && bindings[i].kind
                == kind,
    decreases events.len(),
{
    if events.len() > 0 {
        let init = events.drop_last();
        let last = events.last();
        law_pairs_are_the_bindings_of_the_events(bindings, init, kind, event);
        let rest = bound_pairs(bindings, init);
        let more = event_pairs(bindings, last);
        let all = bound_pairs(bindings, events);
        assert(events[events.len() - 1] == last);
        let p = |b: BindingModel| b.event == last;
        let bound = bindings_of(bindings, last);
        if more.contains((kind, event)) {
            let k = more.index_of((kind, event));
            lemma_filter_holds(bindings, p, bound[k]);
            assert(bound.contains(bound[k]));
            let i = bindings.index_of(bound[k]);
            assert(bindings[i].event == event && bindings[i].kind == kind);
        }
        if event == last && exists|i: int|
            0 <= i < bindings.len() && (#[trigger] bindings[i]).event == event && bindings[i].kind
                == kind {
            let i = choose|i: int|
                0 <= i < bindings.len() && (#[trigger] bindings[i]).event == event
                    && bindings[i].kind == kind;
            lemma_filter_holds(bindings, p, bindings[i]);
            assert(bindings.contains(bindings[i]));
            let k = bound.index_of(bindings[i]);
            assert(more[k] == (kind, event));
            assert(all[rest.len() + k] == (kind, event));
        }
        if rest.contains((kind, event)) {
            assert(all[rest.index_of((kind, event))] == (kind, event));
        }
        if all.contains((kind, event)) {
            let k = all.index_of((kind, event));
            if k < rest.len() {
                assert(rest[k] == (kind, event));
            } else {
                assert(more[k - rest.len()] == (kind, event));
            }
        }
        if init.contains(event) {
            assert(events[init.index_of(event)] == event);
        }
        if events.contains(event) && event != last {
            assert(init[events.index_of(event)] == event);
        }
    }
}

/// The notes about two lists of Kinds are those about the first and those about the second; a Kind is
/// noted exactly where it has no records.
pub proof fn law_silent_kinds_are_noted(a: Seq<BoundModel>, b: Seq<BoundModel>, one: BoundModel)
    ensures
        dormant_findings(a + b) == dormant_findings(a) + dormant_findings(b),
        dormant_findings(seq![one]) == if one.active {
            Seq::empty()
        } else {
            seq![dormant_finding(one)]
        },
        dormant_finding(one).status == Status::Note,
    decreases b.len(),
{
    let s = seq![one];
    assert(s.drop_last() =~= Seq::<BoundModel>::empty());
    assert(dormant_findings(s.drop_last()) =~= Seq::<FindingModel>::empty());
    assert(s.last() == one);
    if b.len() == 0 {
        assert(a + b =~= a);
        assert(dormant_findings(a) + dormant_findings(b) =~= dormant_findings(a));
    } else {
        law_silent_kinds_are_noted(a, b.drop_last(), one);
        assert((a + b).drop_last() =~= a + b.drop_last());
        assert((a + b).last() == b.last());
        assert(dormant_findings(a + b) =~= dormant_findings(a) + dormant_findings(b));
    }
}

/// A hook or a receiver is noted exactly where it does not say that it is this build; neither fails
/// the whole.
pub proof fn law_another_build_is_noted(
    at: Seq<char>,
    build: HookBuild,
    probe: Probe,
    version: Seq<char>,
)
    ensures
        hook_build_findings(at, build, version).len() == 0 <==> (build matches HookBuild::Version(v)
            && v@ == version),
        hook_build_findings(at, build, version).len() <= 1,
        hook_build_findings(at, build, version).len() == 1 ==> hook_build_findings(
            at,
            build,
            version,
        )[0].status == Status::Note,
        receiver_findings(at, probe, version).len() == 0 <==> (probe matches Probe::Build(v) && v@
            == version),
        receiver_findings(at, probe, version).len() <= 1,
        receiver_findings(at, probe, version).len() == 1 ==> receiver_findings(
            at,
            probe,
            version,
        )[0].status == Status::Note,
{
}

/// A receiver is asked exactly where metrics go to the local one, at the authority of their endpoint.
pub proof fn law_the_receiver_of_the_metrics_is_asked(env: Env, endpoint: Seq<char>)
    ensures
        metrics_route(env) matches Some(p) && p.0 == endpoint && local_receiver(endpoint)
            ==> probed(env) == Some(authority_of(endpoint)),
        probed(env) is Some <==> (metrics_route(env) matches Some(p) && local_receiver(p.0)),
{
}

// ---------------------------------------------------------------------------------------------
// Storage and export
// ---------------------------------------------------------------------------------------------

/// Storage passes exactly where the state can be written, the configuration and every schema can be
/// read, and the stored Kinds can be listed. Stored Kinds that no schema declares are warned of.
pub proof fn law_storage_passes_where_nothing_is_broken(f: StorageFacts)
    ensures
        passes(storage_section(f)) <==> f.write_error is None && f.settings_error is None
            && f.registry_error is None && f.unreadable is Ok,
        f.settings_error is None && f.registry_error is None ==> storage_section(
            f,
        ).findings[1].status == if f.plugins == 0 {
            Status::Note
        } else {
            Status::Good
        },
        f.settings_error is None ==> ((exists|i: int|
            0 <= i < storage_section(f).findings.len() && (
            #[trigger] storage_section(f).findings[i]).status == Status::Warn) <==> (
        f.unreadable matches Ok(v) && v@.len() > 0)),
{
    let found = storage_section(f).findings;
    assert(found[0].status == Status::Fail <==> f.write_error is Some);
    assert(found.len() >= 2);
    assert(found[1].status == Status::Fail <==> f.settings_error is Some || f.registry_error is Some);
    if f.settings_error is None {
        if f.unreadable is Err {
            assert(found[2].status == Status::Fail);
        } else if f.unreadable->Ok_0@.len() > 0 {
            assert(found[2].status == Status::Warn);
        }
    }
}

/// A route passes exactly where it ends at the local receiver, is a warning where no endpoint is set,
/// and fails where the endpoint is another's.
pub proof fn law_a_route_passes_through_this_receiver(
    at: Seq<char>,
    route: Option<(Seq<char>, Seq<char>)>,
)
    ensures
        route_finding(at, route).status == match route {
            None => Status::Warn,
            Some(p) => if local_receiver(p.0) {
                Status::Good
            } else {
                Status::Fail
            },
        },
{
}

/// The two signals are told together exactly where they go to one place, and each for itself where
/// they part.
pub proof fn law_parted_signals_are_told_apart(env: Env)
    ensures
        ({
            let m = metrics_route(env);
            let l = logs_route(env);
            let found = route_findings(env);
            &&& found.len() == 1 || found.len() == 2
            &&& found.len() == 1 <==> (m is None && l is None) || (m is Some && l is Some
                && normalized((m->0).0) == normalized((l->0).0))
            &&& found.len() == 1 ==> found[0] == route_finding(Seq::empty(), m)
            &&& found.len() == 2 ==> found[0] == route_finding("metrics "@, m) && found[1]
                == route_finding("logs "@, l)
        }),
{
}

/// What is told of a destination does not depend on what its headers hold.
pub proof fn law_headers_are_not_shown(a: TargetModel, b: TargetModel, keys: Seq<Seq<char>>)
    requires
        lists(keys, a.headers),
        lists(keys, b.headers),
        a.endpoint == b.endpoint,
        a.mode == b.mode,
        a.filter == b.filter,
    ensures
        target_finding(a) == target_finding(b),
{
    lemma_ordered_keys(a.headers, keys);
    lemma_ordered_keys(b.headers, keys);
}

/// A protocol other than JSON is warned of exactly where a destination enriches or restricts.
pub proof fn law_reading_destinations_need_json(env: Env, targets: Seq<TargetModel>)
    ensures
        needs_json(targets) <==> exists|i: int|
            0 <= i < targets.len() && ((#[trigger] targets[i]).mode == ExportMode::Enriched || !(
            targets[i].filter is All)),
        json_findings(env, targets).len() == if needs_json(targets) && !(env.lookup(
            "OTEL_EXPORTER_OTLP_PROTOCOL"@,
        ) matches Some(p) && p.0 == "http/json"@) {
            1nat
        } else {
            0nat
        },
        json_findings(env, targets).len() == 1 ==> json_findings(env, targets)[0].status
            == Status::Warn,
{
    if needs_json(targets) {
        let i = choose|i: int|
            0 <= i < targets.len() && ((#[trigger] targets[i]).mode == ExportMode::Enriched
                || targets[i].filter != FilterModel::All);
        assert(targets[i].mode == ExportMode::Enriched || !(targets[i].filter is All));
    }
}

/// Every destination is told, in order, and that nothing is redacted behind them; the routes come
/// last.
pub proof fn law_every_destination_is_told(
    env: Env,
    targets: Seq<TargetModel>,
    unprotected: bool,
    i: int,
)
    ensures
        ({
            let found = export_findings(env, targets, unprotected);
            let routes = route_findings(env);
            &&& 0 <= i < targets.len() ==> found[i] == target_finding(targets[i])
            &&& found[targets.len() as int].status == Status::Warn
            &&& 0 <= i < routes.len() ==> found[found.len() - routes.len() + i] == routes[i]
        }),
{
}

/// Where the host cannot keep the file private there is one warning more exactly where a destination
/// has headers.
pub proof fn law_headers_on_an_open_host_are_warned_of(
    env: Env,
    targets: Seq<TargetModel>,
    i: int,
    keys: Seq<Seq<char>>,
)
    requires
        0 <= i < targets.len(),
        lists(keys, targets[i].headers),
    ensures
        keys.len() > 0 ==> export_findings(env, targets, true).len() == export_findings(
            env,
            targets,
            false,
        ).len() + 1 && export_findings(env, targets, true)[targets.len() as int + 1].status
            == Status::Warn,
        keys.len() == 0 && targets.len() == 1 ==> export_findings(env, targets, true)
            == export_findings(env, targets, false),
{
    lemma_ordered_keys(targets[i].headers, keys);
    if keys.len() > 0 {
        assert(ordered_keys(targets[i].headers).len() > 0);
        assert(any_headers(targets));
    }
    if keys.len() == 0 && targets.len() == 1 {
        assert forall|j: int| 0 <= j < targets.len() implies ordered_keys(
            (#[trigger] targets[j]).headers,
        ).len() == 0 by {
            assert(j == i);
        }
        assert(!any_headers(targets));
    }
}

/// There is an export section exactly where there are destinations, or where these are not valid; in
/// that case it fails.
pub proof fn law_export_is_told_where_there_is_any(
    env: Env,
    export: Result<ExportConfig, String>,
    unprotected: bool,
)
    ensures
        export_section(env, export, unprotected) is None <==> (export matches Ok(c)
            && c.targets@.len() == 0),
        export is Err ==> !passes(export_section(env, export, unprotected)->0),
        export matches Ok(c) && c.targets@.len() > 0 ==> (passes(
            export_section(env, export, unprotected)->0,
        ) <==> forall|i: int|
            0 <= i < route_findings(env).len() ==> (#[trigger] route_findings(env)[i]).status
                != Status::Fail),
{
    match export {
        Err(e) => {
            let found = export_section(env, export, unprotected)->0.findings;
            assert(found[0].status == Status::Fail);
        },
        Ok(c) => {
            if c.targets@.len() > 0 {
                let targets = crate::export::target_models(c.targets@);
                let found = export_section(env, export, unprotected)->0.findings;
                let routes = route_findings(env);
                let n = found.len() - routes.len();
                assert forall|i: int| 0 <= i < routes.len() implies #[trigger] routes[i] == found[n
                    + i] by {}
                assert forall|i: int| 0 <= i < n implies (#[trigger] found[i]).status
                    != Status::Fail by {
                    if i < targets.len() {
                        assert(found[i] == target_finding(targets[i]));
                    }
                }
                if forall|i: int|
                    0 <= i < routes.len() ==> (#[trigger] routes[i]).status != Status::Fail {
                    assert forall|i: int| 0 <= i < found.len() implies (#[trigger] found[i]).status
                        != Status::Fail by {
                        if i >= n {
                            assert(found[i] == routes[i - n]);
                        }
                    }
                }
            }
        },
    }
}

// ---------------------------------------------------------------------------------------------
// The report
// ---------------------------------------------------------------------------------------------

/// A report passes exactly where no finding of any section fails: a warning or a note does not fail
/// it, and one failure anywhere does.
pub proof fn law_one_failure_fails_the_report(sections: Seq<SectionModel>, i: int, j: int)
    ensures
        all_pass(sections) && 0 <= i < sections.len() && 0 <= j < sections[i].findings.len()
            ==> sections[i].findings[j].status != Status::Fail,
        !all_pass(sections) ==> exists|a: int, b: int|
            0 <= a < sections.len() && 0 <= b < sections[a].findings.len() && (
            #[trigger] sections[a].findings[b]).status == Status::Fail,
{
    if !all_pass(sections) {
        let a = choose|a: int| 0 <= a < sections.len() && !passes(#[trigger] sections[a]);
        let b = choose|b: int|
            0 <= b < sections[a].findings.len() && (#[trigger] sections[a].findings[b]).status
                == Status::Fail;
        assert(sections[a].findings[b].status == Status::Fail);
    }
}

/// The findings, sections and files of two lists are shown one after the other; each finding is one
/// line with its mark.
pub proof fn law_reports_are_shown_in_order(
    a: Seq<FindingModel>,
    b: Seq<FindingModel>,
    one: FindingModel,
    x: Seq<SectionModel>,
    y: Seq<SectionModel>,
    section: SectionModel,
    p: Seq<FileModel>,
    q: Seq<FileModel>,
    file: FileModel,
)
    ensures
        finding_lines(a + b) == finding_lines(a) + finding_lines(b),
        finding_lines(seq![one]) == "  "@ + one.status.glyph_text() + " "@ + one.message + "\n"@,
        sections_text(x + y) == sections_text(x) + sections_text(y),
        sections_text(seq![section]) == section.header + "\n"@ + finding_lines(section.findings)
            + "\n"@,
        file_lines(p + q) == file_lines(p) + file_lines(q),
        file_lines(seq![file]) == file_line(file),
    decreases b.len() + y.len() + q.len(),
{
    let f = seq![one];
    assert(f.drop_last() =~= Seq::<FindingModel>::empty());
    assert(finding_lines(f.drop_last()) =~= Seq::<char>::empty());
    assert(f.last() == one);
    assert(finding_lines(f) =~= finding_line(one));
    let s = seq![section];
    assert(s.drop_last() =~= Seq::<SectionModel>::empty());
    assert(sections_text(s.drop_last()) =~= Seq::<char>::empty());
    assert(s.last() == section);
    assert(sections_text(s) =~= section_text(section));
    let g = seq![file];
    assert(g.drop_last() =~= Seq::<FileModel>::empty());
    assert(file_lines(g.drop_last()) =~= Seq::<char>::empty());
    assert(g.last() == file);
    assert(file_lines(g) =~= file_line(file));
    if b.len() == 0 {
        assert(a + b =~= a);
        assert(finding_lines(a) + finding_lines(b) =~= finding_lines(a));
    } else {
        law_reports_are_shown_in_order(a, b.drop_last(), one, x, y, section, p, q, file);
        assert((a + b).drop_last() =~= a + b.drop_last());
        assert((a + b).last() == b.last());
        assert(finding_lines(a + b) =~= finding_lines(a) + finding_lines(b));
    }
    if y.len() == 0 {
        assert(x + y =~= x);
        assert(sections_text(x) + sections_text(y) =~= sections_text(x));
    } else {
        law_reports_are_shown_in_order(a, b, one, x, y.drop_last(), section, p, q, file);
        assert((x + y).drop_last() =~= x + y.drop_last());
        assert((x + y).last() == y.last());
        assert(sections_text(x + y) =~= sections_text(x) + sections_text(y));
    }
    if q.len() == 0 {
        assert(p + q =~= p);
        assert(file_lines(p) + file_lines(q) =~= file_lines(p));
    } else {
        law_reports_are_shown_in_order(a, b, one, x, y, section, p, q.drop_last(), file);
        assert((p + q).drop_last() =~= p + q.drop_last());
        assert((p + q).last() == q.last());
        assert(file_lines(p + q) =~= file_lines(p) + file_lines(q));
    }
}

/// Every settings file is told, with the scope it is of, where it lies and how it was loaded.
pub proof fn law_every_settings_file_is_told(a: Seq<ScopeFile>, b: Seq<ScopeFile>, one: ScopeFile)
    ensures
        shown_files(a + b) == shown_files(a) + shown_files(b),
        shown_files(seq![one]).len() == 1,
        shown_files(seq![one])[0].name == one.name@,
        shown_files(seq![one])[0].path == one.path@,
        one.load is Absent ==> shown_files(seq![one])[0].load == "absent"@,
        one.load is Found ==> shown_files(seq![one])[0].load == "found"@,
{
    assert(shown_files(a + b) =~= shown_files(a) + shown_files(b));
}

/// Two statuses have different marks and different names.
pub proof fn law_statuses_are_told_apart(a: Status, b: Status)
    requires
        a != b,
    ensures
        a.glyph_text() != b.glyph_text(),
        a.name_text() != b.name_text(),
{
    reveal_strlit("✓");
    reveal_strlit("✗");
    reveal_strlit("⚠");
    reveal_strlit("•");
    reveal_strlit("ok");
    reveal_strlit("fail");
    reveal_strlit("warn");
    reveal_strlit("note");
    assert("✓"@[0] != "✗"@[0] && "✓"@[0] != "⚠"@[0] && "✓"@[0] != "•"@[0]);
    assert("✗"@[0] != "⚠"@[0] && "✗"@[0] != "•"@[0] && "⚠"@[0] != "•"@[0]);
    assert("ok"@.len() == 2 && "fail"@.len() == 4 && "warn"@.len() == 4 && "note"@.len() == 4);
    assert("fail"@[0] != "warn"@[0] && "fail"@[0] != "note"@[0] && "warn"@[0] != "note"@[0]);
}

/// A machine reads the whole report: whether it passes, every section by its name with every finding
/// in order, every settings file and the snippet.
pub proof fn law_a_machine_reads_the_whole_report(r: ReportModel, i: int, j: int)
    requires
        0 <= i < r.sections.len(),
        0 <= j < r.sections[i].findings.len(),
    ensures
        tree_get(report_tree(r), "ok"@) == Some(Tree::Bool(r.ok)),
        tree_get(report_tree(r), "snippet"@) == Some(Tree::Str(r.snippet)),
        tree_get(report_tree(r), "sections"@) matches Some(Tree::Arr(s)) && s.len()
            == r.sections.len() && tree_get(s[i], "name"@) == Some(Tree::Str(r.sections[i].name))
            && (tree_get(s[i], "findings"@) matches Some(Tree::Arr(f)) && f.len()
            == r.sections[i].findings.len() && tree_get(f[j], "message"@) == Some(
            Tree::Str(r.sections[i].findings[j].message),
        ) && tree_get(f[j], "status"@) == Some(
            Tree::Str(r.sections[i].findings[j].status.name_text()),
        )),
        tree_get(report_tree(r), "settings_files"@) matches Some(Tree::Arr(s)) && s.len()
            == r.files.len(),
{
    reveal_strlit("ok");
    reveal_strlit("snippet");
    reveal_strlit("sections");
    reveal_strlit("settings_files");
    reveal_strlit("name");
    reveal_strlit("findings");
    reveal_strlit("message");
    reveal_strlit("status");
    assert("ok"@.len() == 2 && "snippet"@.len() == 7 && "sections"@.len() == 8
        && "settings_files"@.len() == 14);
    assert("name"@.len() == 4 && "findings"@.len() == 8);
    assert("message"@.len() == 7 && "status"@.len() == 6);
}

/// A machine reads of a settings file its name, its path and how it was loaded.
pub proof fn law_a_machine_reads_a_file(f: FileModel)
    ensures
        tree_get(file_tree(f), "load"@) == Some(Tree::Str(f.load)),
        tree_get(file_tree(f), "name"@) == Some(Tree::Str(f.name)),
        tree_get(file_tree(f), "path"@) == Some(Tree::Str(f.path)),
{
    reveal_strlit("load");
    reveal_strlit("name");
    reveal_strlit("path");
    assert("load"@[0] != "name"@[0] && "load"@[0] != "path"@[0] && "name"@[0] != "path"@[0]);
}

} // verus!
