use hatel::active::{active_events, render_snippet, unwireable_bindings};
use hatel::claude_settings::{
    command_is_our_hook, entry_is_our_hook, group_is_current, hook_group, is_local_receiver, unwire,
    wire, WireReport, EVENTS, TELEMETRY_ENV,
};
use hatel::json::{compact, parse, Json};
use hatel::registry::{HookBinding, KindSpec, KindSpecRaw, Registry};
use hatel::schema::{load_core, CORE_SCHEMA};
use hatel::scopes::{
    covered, effective_env, event_wiring, hook_build, hook_step, hook_wired_but_blocked, scope_path,
    wired_hook_commands, HookAction, HookBuild, HookEvent, Load, Places, ScopeFile, Wiring,
    HOOK_DEADLINE_NANOS,
};

const CMD: &str = "/usr/local/bin/hatel-hook";

fn j(text: &str) -> Json {
    parse(text).unwrap()
}

fn at<'a>(v: &'a Json, path: &[&str]) -> &'a Json {
    let mut cur = v;
    for p in path {
        cur = match cur {
            Json::Array(items) => &items[p.parse::<usize>().unwrap()],
            _ => cur.get(p).unwrap(),
        };
    }
    cur
}

fn items(v: &Json) -> &Vec<Json> {
    match v {
        Json::Array(items) => items,
        _ => panic!("not an array"),
    }
}

fn text_at(v: &Json, path: &[&str]) -> String {
    at(v, path).as_str().unwrap().to_string()
}

fn event_has_hook(event: &Json) -> bool {
    items(event)
        .iter()
        .flat_map(|g| items(g.get("hooks").unwrap()))
        .any(entry_is_our_hook)
}

fn event_commands(s: &Json, ev: &str) -> Vec<String> {
    items(at(s, &["hooks", ev]))
        .iter()
        .flat_map(|g| items(g.get("hooks").unwrap()))
        .map(|e| e.get_str("command").unwrap().to_string())
        .collect()
}

fn blocked(rep: &WireReport, key: &str) -> bool {
    rep.env_blocked.iter().any(|(k, _)| *k == key)
}

fn conflicting(rep: &WireReport, key: &str) -> bool {
    rep.env_conflicts.iter().any(|(k, _)| *k == key)
}

fn scope(name: &'static str, v: Json) -> ScopeFile {
    ScopeFile { name, path: "x".to_string(), load: Load::Found(v) }
}

fn one_scope(v: Json) -> Vec<ScopeFile> {
    vec![scope("user", v)]
}

fn without_post_tool_use() -> Vec<&'static str> {
    EVENTS.iter().copied().filter(|e| *e != "PostToolUse").collect()
}

fn old_wiring(event: &str) -> Json {
    j(&format!(
        r#"{{"hooks":{{"{event}":[{{"hooks":[{{"type":"command","command":"{CMD}"}}]}}]}}}}"#
    ))
}

#[test]
fn wire_empty_adds_env_and_all_events() {
    let mut s = j("{}");
    let rep = wire(&mut s, CMD, &EVENTS);
    assert_eq!(rep.env_added.len(), TELEMETRY_ENV.len());
    assert_eq!(rep.events_added.len(), EVENTS.len());
    assert!(rep.changed());
    assert!(
        !rep.malformed() && rep.env_conflicts.is_empty() && rep.env_blocked.is_empty(),
        "a clean wire has no conflicts"
    );
    for ev in EVENTS {
        assert!(event_has_hook(at(&s, &["hooks", ev])), "{ev} wired");
    }
    assert_eq!(text_at(&s, &["env", "OTEL_EXPORTER_OTLP_PROTOCOL"]), "http/json");
}

#[test]
fn wire_is_idempotent_byte_for_byte() {
    let mut s = j("{}");
    wire(&mut s, CMD, &EVENTS);
    let first = compact(&s);
    let rep = wire(&mut s, CMD, &EVENTS);
    assert!(!rep.changed(), "second run changes nothing");
    assert_eq!(rep.events_present.len(), EVENTS.len());
    assert_eq!(compact(&s), first, "second run leaves the value identical");
}

#[test]
fn wire_appends_to_an_existing_user_hook() {
    let mut s = j(
        r#"{"hooks":{"UserPromptSubmit":[{"hooks":[{"type":"command","command":"my-own-tool"}]}]}}"#,
    );
    let rep = wire(&mut s, CMD, &EVENTS);
    let groups = items(at(&s, &["hooks", "UserPromptSubmit"]));
    assert_eq!(groups.len(), 2, "our hook is appended, theirs kept");
    assert_eq!(text_at(&groups[0], &["hooks", "0", "command"]), "my-own-tool");
    assert!(rep.events_added.contains(&"UserPromptSubmit"));
}

#[test]
fn wire_repoints_a_stale_hook_path() {
    let mut s = j(
        r#"{"hooks":{"UserPromptSubmit":[{"hooks":[{"type":"command","command":"/old/bin/hatel-hook"}]}]}}"#,
    );
    let rep = wire(&mut s, CMD, &EVENTS);
    let groups = items(at(&s, &["hooks", "UserPromptSubmit"]));
    assert_eq!(groups.len(), 1, "stale group is repointed in place, not added alongside");
    assert_eq!(text_at(&groups[0], &["hooks", "0", "command"]), CMD);
    assert!(rep.events_added.contains(&"UserPromptSubmit"));
}

#[test]
fn the_printed_snippet_is_the_wiring_init_writes() {
    let snippet = render_snippet(CMD, &["SessionStart"]);
    let group = compact(&hook_group(CMD));
    assert!(
        snippet.contains(&group),
        "snippet must embed the built group, got: {snippet}"
    );
}

#[test]
fn wire_upgrades_a_synchronous_entry_of_ours() {
    let mut s = old_wiring("UserPromptSubmit");
    let rep = wire(&mut s, CMD, &EVENTS);
    let groups = items(at(&s, &["hooks", "UserPromptSubmit"]));
    assert_eq!(groups.len(), 1, "replaced in place, not added alongside");
    assert_eq!(text_at(&groups[0], &["hooks", "0", "command"]), CMD);
    assert_eq!(compact(at(&groups[0], &["hooks", "0", "async"])), "true");
    assert!(rep.events_added.contains(&"UserPromptSubmit"));
}

#[test]
fn wire_repoints_stale_but_keeps_the_users_hook() {
    let mut s = j(
        r#"{"hooks":{"UserPromptSubmit":[
            {"hooks":[{"type":"command","command":"my-own-tool"}]},
            {"hooks":[{"type":"command","command":"/old/hatel-hook"}]}]}}"#,
    );
    wire(&mut s, CMD, &EVENTS);
    let cmds: Vec<String> = items(at(&s, &["hooks", "UserPromptSubmit"]))
        .iter()
        .map(|g| text_at(g, &["hooks", "0", "command"]))
        .collect();
    assert_eq!(cmds.len(), 2);
    assert!(cmds.iter().any(|c| c == "my-own-tool"), "user hook kept");
    assert!(cmds.iter().any(|c| c == CMD), "our hook repointed to current");
    assert!(!cmds.iter().any(|c| c == "/old/hatel-hook"), "stale path gone");
}

#[test]
fn wire_strips_a_stale_entry_colocated_with_a_user_entry() {
    let mut s = j(
        r#"{"hooks":{"UserPromptSubmit":[{"hooks":[
            {"type":"command","command":"my-own-tool"},
            {"type":"command","command":"/old/hatel-hook"}]}]}}"#,
    );
    wire(&mut s, CMD, &EVENTS);
    let cmds = event_commands(&s, "UserPromptSubmit");
    assert!(cmds.iter().any(|c| c == "my-own-tool"), "user entry survives");
    assert!(cmds.iter().any(|c| c == CMD), "current added");
    assert!(!cmds.iter().any(|c| c == "/old/hatel-hook"), "stale entry removed");
}

#[test]
fn wire_strips_a_stale_entry_colocated_with_the_current_one() {
    let mut s = j(&format!(
        r#"{{"hooks":{{"UserPromptSubmit":[{{"hooks":[
            {{"type":"command","command":"{CMD}"}},
            {{"type":"command","command":"/old/hatel-hook"}}]}}]}}}}"#
    ));
    wire(&mut s, CMD, &EVENTS);
    let cmds = event_commands(&s, "UserPromptSubmit");
    assert_eq!(cmds, vec![CMD.to_string()], "stale entry stripped, current kept once");
}

#[test]
fn wired_hook_commands_collects_distinct_ours_only() {
    let v = j(
        r#"{"hooks":{
            "SessionStart":[{"hooks":[{"type":"command","command":"/x/hatel-hook"}]}],
            "UserPromptSubmit":[{"hooks":[
                {"type":"command","command":"/x/hatel-hook"},
                {"type":"command","command":"my-tool"}]}]}}"#,
    );
    assert_eq!(wired_hook_commands(&one_scope(v)), vec!["/x/hatel-hook".to_string()]);
}

#[test]
fn wire_does_not_overwrite_a_repointed_endpoint() {
    let mut s = j(r#"{"env":{"OTEL_EXPORTER_OTLP_ENDPOINT":"http://corp:4318"}}"#);
    let rep = wire(&mut s, CMD, &EVENTS);
    assert_eq!(text_at(&s, &["env", "OTEL_EXPORTER_OTLP_ENDPOINT"]), "http://corp:4318");
    assert!(conflicting(&rep, "OTEL_EXPORTER_OTLP_ENDPOINT"));
    assert!(!rep.malformed(), "a repointed endpoint is advisory, not malformed");
    assert!(rep.env_blocked.is_empty(), "a repointed endpoint is advisory, not blocking");
    assert_eq!(text_at(&s, &["env", "OTEL_METRICS_EXPORTER"]), "otlp");
}

#[test]
fn wire_flags_disabled_telemetry_as_blocked_not_advisory() {
    let mut s = j(
        r#"{"env":{
            "CLAUDE_CODE_ENABLE_TELEMETRY":"0",
            "OTEL_METRICS_EXPORTER":"none",
            "OTEL_EXPORTER_OTLP_ENDPOINT":"http://corp:4318"}}"#,
    );
    let rep = wire(&mut s, CMD, &EVENTS);
    assert!(blocked(&rep, "CLAUDE_CODE_ENABLE_TELEMETRY"));
    assert!(blocked(&rep, "OTEL_METRICS_EXPORTER"));
    assert!(conflicting(&rep, "OTEL_EXPORTER_OTLP_ENDPOINT"));
    assert!(!rep.malformed());
    assert_eq!(text_at(&s, &["env", "CLAUDE_CODE_ENABLE_TELEMETRY"]), "0");
}

#[test]
fn is_local_receiver_normalizes_host() {
    assert!(is_local_receiver("http://127.0.0.1:4318"));
    assert!(is_local_receiver("http://127.0.0.1:4318/"));
    assert!(is_local_receiver("http://localhost:4318"));
    assert!(is_local_receiver("http://127.0.0.1:9999"));
    assert!(is_local_receiver("http://[::1]:4318"));
    assert!(!is_local_receiver("http://corp-collector:4318"));
    assert!(!is_local_receiver("https://otel.example.com"));
    assert!(!is_local_receiver("https://127.0.0.1:4318"));
    assert!(!is_local_receiver("https://localhost:4318"));
}

#[test]
fn wire_blocks_wrong_protocol_against_a_local_endpoint() {
    let mut s = j(r#"{"env":{"OTEL_EXPORTER_OTLP_PROTOCOL":"grpc"}}"#);
    let rep = wire(&mut s, CMD, &EVENTS);
    assert!(blocked(&rep, "OTEL_EXPORTER_OTLP_PROTOCOL"));
    assert!(!conflicting(&rep, "OTEL_EXPORTER_OTLP_PROTOCOL"));
}

#[test]
fn wire_keeps_wrong_protocol_advisory_against_a_remote_endpoint() {
    let mut s = j(
        r#"{"env":{"OTEL_EXPORTER_OTLP_PROTOCOL":"grpc",
            "OTEL_EXPORTER_OTLP_ENDPOINT":"http://corp:4318"}}"#,
    );
    let rep = wire(&mut s, CMD, &EVENTS);
    assert!(conflicting(&rep, "OTEL_EXPORTER_OTLP_PROTOCOL"));
    assert!(!blocked(&rep, "OTEL_EXPORTER_OTLP_PROTOCOL"));
}

#[test]
fn wire_blocks_wrong_protocol_against_a_per_signal_local_endpoint() {
    let mut s = j(
        r#"{"env":{"OTEL_EXPORTER_OTLP_PROTOCOL":"grpc",
            "OTEL_EXPORTER_OTLP_ENDPOINT":"http://corp:4318",
            "OTEL_EXPORTER_OTLP_METRICS_ENDPOINT":"http://127.0.0.1:4318"}}"#,
    );
    let rep = wire(&mut s, CMD, &EVENTS);
    assert!(
        blocked(&rep, "OTEL_EXPORTER_OTLP_PROTOCOL"),
        "a per-signal local endpoint must promote the protocol mismatch to blocking"
    );
}

#[test]
fn wire_keeps_protocol_advisory_when_per_signal_overrides_shadow_a_local_general() {
    let mut s = j(
        r#"{"env":{"OTEL_EXPORTER_OTLP_PROTOCOL":"grpc",
            "OTEL_EXPORTER_OTLP_ENDPOINT":"http://127.0.0.1:4318",
            "OTEL_EXPORTER_OTLP_METRICS_ENDPOINT":"http://corp:4318",
            "OTEL_EXPORTER_OTLP_LOGS_ENDPOINT":"http://corp:4318"}}"#,
    );
    let rep = wire(&mut s, CMD, &EVENTS);
    assert!(
        !blocked(&rep, "OTEL_EXPORTER_OTLP_PROTOCOL"),
        "both signals overridden to remote → protocol is advisory, not blocking"
    );
    assert!(conflicting(&rep, "OTEL_EXPORTER_OTLP_PROTOCOL"));
}

#[test]
fn wire_leaves_a_non_array_event_untouched() {
    let mut s = j(r#"{"hooks":{"UserPromptSubmit":"oops"}}"#);
    let rep = wire(&mut s, CMD, &EVENTS);
    assert_eq!(text_at(&s, &["hooks", "UserPromptSubmit"]), "oops");
    assert!(rep.events_conflicts.contains(&"UserPromptSubmit"));
    assert!(rep.malformed(), "a non-array event is structural malformation");
    assert!(rep.events_added.contains(&"SessionStart"));
}

#[test]
fn unwire_removes_only_our_hooks_and_prunes() {
    let mut s = j("{}");
    wire(&mut s, CMD, &EVENTS);
    let rep = unwire(&mut s);
    assert!(rep.changed());
    assert_eq!(rep.events_cleared.len(), EVENTS.len());
    assert!(s.get("hooks").is_none(), "an emptied hooks object is pruned");
    assert!(
        matches!(s.get("env"), Some(Json::Object(_))),
        "env is the agent's config — left intact"
    );
}

#[test]
fn unwire_keeps_a_users_own_hook() {
    let mut s = j(
        r#"{"hooks":{"UserPromptSubmit":[{"hooks":[{"type":"command","command":"my-own-tool"}]}]}}"#,
    );
    wire(&mut s, CMD, &EVENTS);
    let rep = unwire(&mut s);
    let groups = items(at(&s, &["hooks", "UserPromptSubmit"]));
    assert_eq!(groups.len(), 1, "only our hook is removed");
    assert_eq!(text_at(&groups[0], &["hooks", "0", "command"]), "my-own-tool");
    assert!(rep.events_cleared.contains(&"UserPromptSubmit"));
}

#[test]
fn unwire_removes_only_our_entry_from_a_shared_group() {
    let mut s = j(&format!(
        r#"{{"hooks":{{"UserPromptSubmit":[{{"hooks":[
            {{"type":"command","command":"my-own-tool"}},
            {{"type":"command","command":"{CMD}"}}]}}]}}}}"#
    ));
    let rep = unwire(&mut s);
    assert!(rep.events_cleared.contains(&"UserPromptSubmit"));
    let entries = items(at(&s, &["hooks", "UserPromptSubmit", "0", "hooks"]));
    assert_eq!(entries.len(), 1, "only our entry is removed, the user's survives");
    assert_eq!(entries[0].get_str("command"), Some("my-own-tool"));
}

#[test]
fn unwire_on_an_unwired_file_is_a_noop() {
    let mut s = j(r#"{"env":{"FOO":"bar"}}"#);
    let rep = unwire(&mut s);
    assert!(!rep.changed());
    assert_eq!(compact(&s), r#"{"env":{"FOO":"bar"}}"#);
}

#[test]
fn wire_then_unwire_round_trips() {
    let mut s = j(r#"{"permissions":{"allow":["Bash"]}}"#);
    wire(&mut s, CMD, &EVENTS);
    unwire(&mut s);
    assert!(s.get("hooks").is_none());
    assert_eq!(text_at(&s, &["permissions", "allow", "0"]), "Bash");
}

#[test]
fn snippet_is_valid_json_with_a_windows_path() {
    let snippet = render_snippet(r"C:\Program Files\ht\hatel-hook.exe", &EVENTS);
    let parsed = parse(&snippet).expect("snippet parses as JSON");
    assert!(event_has_hook(at(&parsed, &["hooks", "SessionStart"])));
}

#[test]
fn command_matching_is_precise_not_substring() {
    assert!(command_is_our_hook("/usr/local/bin/hatel-hook"));
    assert!(command_is_our_hook("hatel-hook"));
    assert!(command_is_our_hook(r"C:\ht\hatel-hook.exe"));
    assert!(command_is_our_hook("hatel-hook.EXE"));
    assert!(!command_is_our_hook("/usr/local/bin/hatel-hook-shim"));
    assert!(!command_is_our_hook("my-hatel-hook"));
}

fn settled(event: HookEvent, waited: u64) -> HookBuild {
    match hook_step(event, waited) {
        HookAction::Settle(build) => build,
        other => panic!("not settled: {other:?}"),
    }
}

#[test]
fn a_hook_build_is_read_only_from_a_clean_and_timely_exit() {
    let answer = |text: &str, failure: Option<&str>| {
        let failure = failure.map(|f| f.to_string());
        settled(HookEvent::Answered(text.to_string(), text.len() as u64, failure), 1)
    };
    let got = answer("hatel-hook 9.9.9\n", None);
    assert!(matches!(&got, HookBuild::Version(v) if v == "9.9.9"), "{got:?}");
    let got = answer("", None);
    assert!(matches!(got, HookBuild::Unreported), "{got:?}");
    let got = answer(&"x".repeat(257), Some("signal: 13 (SIGPIPE)"));
    assert!(matches!(&got, HookBuild::Unverified(r) if r.contains("more than")), "{got:?}");
    for failure in ["exit status: 3", "signal: 9 (SIGKILL)"] {
        let got = answer("hatel-hook 9.9.9\n", Some(failure));
        assert!(matches!(&got, HookBuild::Unverified(r) if r == failure), "{got:?}");
    }
    for event in [HookEvent::Killed, HookEvent::Silent] {
        let got = settled(event, HOOK_DEADLINE_NANOS);
        assert!(matches!(&got, HookBuild::Unverified(r) if r == "no answer within 5s"), "{got:?}");
    }
    let got = hook_build("hatel-hook 1.2", 14, None);
    assert!(matches!(&got, HookBuild::Version(v) if v == "1.2"), "{got:?}");
}

#[test]
fn a_running_hook_is_waited_for_until_the_deadline() {
    assert!(matches!(hook_step(HookEvent::Running, 0), HookAction::Wait));
    assert!(matches!(hook_step(HookEvent::Running, HOOK_DEADLINE_NANOS - 1), HookAction::Wait));
    assert!(matches!(hook_step(HookEvent::Running, HOOK_DEADLINE_NANOS), HookAction::Kill));
    let left = |waited| match hook_step(HookEvent::Exited, waited) {
        HookAction::Collect(left) => left,
        other => panic!("{other:?}"),
    };
    assert_eq!(left(1_000_000_000), 4_000_000_000);
    assert_eq!(left(u64::MAX), 0, "output is taken under the same deadline");
    let got = settled(HookEvent::Failed("No such file".to_string()), 0);
    assert!(matches!(&got, HookBuild::Unverified(r) if r == "No such file"), "{got:?}");
}

#[test]
fn partial_wiring_leaves_the_rest_missing() {
    let files = one_scope(j(&format!(
        r#"{{"hooks":{{
            "SessionStart":[{{"hooks":[{{"type":"command","command":"{CMD}"}}]}}],
            "UserPromptSubmit":[{{"hooks":[{{"type":"command","command":"{CMD}"}}]}}]}}}}"#
    )));
    let covered = covered(&event_wiring(&files, &EVENTS));
    assert_eq!(covered.len(), 2);
    assert!(covered.contains(&"SessionStart") && covered.contains(&"UserPromptSubmit"));
    assert!(!covered.contains(&"SessionEnd"));
}

#[test]
fn wire_leaves_every_event_covered_and_none_blocking() {
    let mut s = j("{}");
    wire(&mut s, CMD, &EVENTS);
    let wiring = event_wiring(&one_scope(s), &EVENTS);
    assert_eq!(covered(&wiring).len(), EVENTS.len());
    assert!(wiring.iter().all(|(_, w)| *w == Wiring::Concurrent));
}

#[test]
fn wiring_that_predates_async_is_covered_but_blocking() {
    let files = one_scope(old_wiring("SessionStart"));
    let wiring = event_wiring(&files, &EVENTS);
    assert_eq!(covered(&wiring), vec!["SessionStart"]);
    assert_eq!(
        wiring.iter().find(|(ev, _)| *ev == "SessionStart").unwrap().1,
        Wiring::Blocking
    );
}

#[test]
fn a_blocking_entry_decides_an_event_another_scope_wires_asynchronously() {
    let mut project = j("{}");
    wire(&mut project, CMD, &["SessionStart"]);
    let files = vec![scope("user", old_wiring("SessionStart")), scope("project", project)];
    assert_eq!(
        event_wiring(&files, &["SessionStart"]),
        vec![("SessionStart", Wiring::Blocking)]
    );
}

#[test]
fn a_foreign_synchronous_hook_does_not_make_our_wiring_blocking() {
    let files = one_scope(j(&format!(
        r#"{{"hooks":{{"SessionStart":[
            {{"hooks":[{{"type":"command","command":"/usr/local/bin/their-hook"}}]}},
            {}]}}}}"#,
        compact(&hook_group(CMD))
    )));
    assert_eq!(
        event_wiring(&files, &["SessionStart"]),
        vec![("SessionStart", Wiring::Concurrent)]
    );
}

#[test]
fn managed_only_does_not_count_blocked_user_hooks() {
    let files = vec![
        scope("user", old_wiring("SessionStart")),
        scope("managed", j(r#"{"allowManagedHooksOnly":true}"#)),
    ];
    assert!(covered(&event_wiring(&files, &EVENTS)).is_empty());
    assert!(hook_wired_but_blocked(&files));
}

#[test]
fn managed_only_counts_managed_wiring() {
    let mut managed = j(r#"{"allowManagedHooksOnly":true}"#);
    wire(&mut managed, CMD, &EVENTS);
    let files = vec![scope("managed", managed)];
    assert_eq!(covered(&event_wiring(&files, &EVENTS)).len(), EVENTS.len());
    assert!(!hook_wired_but_blocked(&files));
}

#[test]
fn rewiring_a_shrunken_active_set_prunes_stale_events() {
    let mut s = j("{}");
    wire(&mut s, CMD, &EVENTS);
    assert!(at(&s, &["hooks"]).get("PostToolUse").is_some());
    let rep = wire(&mut s, CMD, &without_post_tool_use());
    assert!(rep.events_cleared.contains(&"PostToolUse"), "stale event reported as cleared");
    assert!(
        at(&s, &["hooks"]).get("PostToolUse").is_none(),
        "stale event key pruned, no empty cruft"
    );
    assert!(group_is_current(at(&s, &["hooks", "SessionStart", "0"]), CMD));
}

#[test]
fn pruning_leaves_an_inactive_event_we_dont_own_untouched() {
    let mut s = j(
        r#"{"hooks":{"PostToolUse":[
            {"hooks":[]},
            {"hooks":[{"type":"command","command":"user-tool"}]}]}}"#,
    );
    let before = compact(at(&s, &["hooks", "PostToolUse"]));
    let rep = wire(&mut s, CMD, &without_post_tool_use());
    assert!(!rep.events_cleared.contains(&"PostToolUse"), "nothing of ours to clear");
    assert_eq!(
        compact(at(&s, &["hooks", "PostToolUse"])),
        before,
        "an event we don't own is untouched (no group dropped, no key deleted)"
    );
}

#[test]
fn pruning_keeps_a_users_own_hook_on_a_deactivated_event() {
    let mut s = j(&format!(
        r#"{{"hooks":{{"PostToolUse":[{{"hooks":[
            {{"type":"command","command":"{CMD}"}},
            {{"type":"command","command":"user-tool"}}]}}]}}}}"#
    ));
    wire(&mut s, CMD, &without_post_tool_use());
    let cmds = event_commands(&s, "PostToolUse");
    assert!(!cmds.iter().any(|c| c == CMD), "our hook stripped");
    assert!(cmds.iter().any(|c| c == "user-tool"), "user's hook kept");
}

#[test]
fn active_events_are_session_start_plus_bound_events_only() {
    let reg = load_core(CORE_SCHEMA).unwrap();
    let active = active_events(&reg);
    for ev in [
        "SessionStart",
        "UserPromptSubmit",
        "SubagentStop",
        "InstructionsLoaded",
        "PreCompact",
        "PostToolUse",
        "PostToolUseFailure",
        "UserPromptExpansion",
    ] {
        assert!(active.contains(&ev), "{ev} should be wired");
    }
    for ev in ["SessionEnd", "PostCompact"] {
        assert!(!active.contains(&ev), "{ev} should not be wired (nothing binds it)");
    }
}

#[test]
fn unwireable_flags_only_out_of_vocabulary_bound_events() {
    let mut reg = Registry::new();
    reg.add_kind(
        KindSpec::from_raw(KindSpecRaw {
            name: "x".into(),
            fields: vec!["session_id".into()],
            group_key: "session_id".into(),
            redact: vec![],
            measures: vec![],
            identity: None,
        })
        .unwrap(),
    )
    .unwrap();
    for ev in ["PostToolUse", "PreToolUse"] {
        reg.bind(HookBinding { event: ev.into(), kind: "x".into(), map: vec![] }).unwrap();
    }
    assert_eq!(unwireable_bindings(&reg), vec!["PreToolUse".to_string()]);
}

#[test]
fn a_second_wiring_after_unwiring_restores_the_same_hooks() {
    let mut s = j(r#"{"model":"opus"}"#);
    wire(&mut s, CMD, &EVENTS);
    let wired = compact(&s);
    unwire(&mut s);
    wire(&mut s, CMD, &EVENTS);
    assert_eq!(compact(&s), wired);
}

#[test]
fn a_later_scope_overrides_an_earlier_one() {
    let set = |value: &str| format!("{{\"env\":{{\"OTEL_METRICS_EXPORTER\":\"{value}\"}}}}");
    let files = vec![
        scope("user", parse(&set("console")).unwrap()),
        scope("local", parse("{}").unwrap()),
        scope("managed", parse(&set("otlp")).unwrap()),
    ];
    let env = effective_env(&files);
    assert_eq!(env.get("OTEL_METRICS_EXPORTER"), Some(("otlp", "managed")));
    assert_eq!(env.get("OTEL_LOGS_EXPORTER"), None);
}

#[test]
fn a_scope_names_its_file() {
    let places = |agent: Option<&str>| Places {
        home: Some("/home/me".to_string()),
        base: "/work/acme".to_string(),
        agent_dir: agent.map(str::to_string),
        managed: Some("/etc/agent/managed.json".to_string()),
    };
    let p = places(Some(".agent"));
    assert_eq!(scope_path("user", &p).as_deref(), Some("/home/me/.agent/settings.json"));
    assert_eq!(scope_path("project", &p).as_deref(), Some("/work/acme/.agent/settings.json"));
    assert_eq!(scope_path("local", &p).as_deref(), Some("/work/acme/.agent/settings.local.json"));
    assert_eq!(scope_path("managed", &p).as_deref(), Some("/etc/agent/managed.json"));
    assert_eq!(scope_path("other", &p), None);
    assert_eq!(scope_path("user", &places(None)), None);
}
