use hatel::claude_settings::{hook_group, wire, EVENTS};
use hatel::doctor::{
    advise_dormant_bindings, advise_hook_build, advise_receiver, bound_kinds, build_report,
    receiver_to_probe, render_human, report_export, report_hooks, report_native, report_storage,
    report_value, Report, Section, Status, StorageFacts,
};
use hatel::export::{ExportConfig, ExportMode, ExportTarget, ProjectFilter};
use hatel::headers::Headers;
use hatel::json::{compact, parse, Json};
use hatel::receiver::Probe;
use hatel::schema::{load_core, CORE_SCHEMA};
use hatel::scopes::{effective_env, load_text, HookBuild, Load, ScopeFile};

fn user_file() -> ScopeFile {
    ScopeFile {
        name: "user",
        path: "/tmp/settings.json".to_string(),
        load: Load::Found(parse("{}").unwrap()),
    }
}

fn scope(name: &'static str, text: &str) -> ScopeFile {
    ScopeFile { name, path: "x".to_string(), load: load_text(text) }
}

fn report_with(status: Status) -> Report {
    let mut sec = Section::new("native_telemetry", "native telemetry (settings.json env):");
    sec.push(status, "CLAUDE_CODE_ENABLE_TELEMETRY=1 (from user)".to_string());
    let mut report = build_report(&vec![user_file()], vec![sec], "{}\n".to_string());
    report.settings_files[0].load = "loaded".to_string();
    report
}

fn messages(sec: &Section, status: Status) -> Vec<&str> {
    sec.findings
        .iter()
        .filter(|f| f.status == status)
        .map(|f| f.message.as_str())
        .collect()
}

#[test]
fn only_fail_findings_flip_ok() {
    for status in [Status::Good, Status::Warn, Status::Note] {
        assert!(report_with(status).ok, "{status:?} is advisory");
    }
    assert!(!report_with(Status::Fail).ok, "a ✗ fails the report");
}

#[test]
fn json_serializes_statuses_as_stable_names_and_skips_presentation() {
    let value = report_value(&report_with(Status::Fail));
    let section = match value.get("sections") {
        Some(Json::Array(v)) => &v[0],
        _ => panic!("no sections"),
    };
    let finding = match section.get("findings") {
        Some(Json::Array(v)) => &v[0],
        _ => panic!("no findings"),
    };
    assert_eq!(finding.get_str("status"), Some("fail"), "snake_case status, not a glyph");
    assert_eq!(section.get_str("name"), Some("native_telemetry"));
    assert!(section.get("header").is_none(), "the human header is presentation, not data");
    assert!(matches!(value.get("ok"), Some(Json::Bool(false))));
    assert!(compact(&report_value(&report_with(Status::Good))).contains("\"status\":\"ok\""));
}

#[test]
fn human_rendering_glyphs_each_status_and_keeps_the_section_layout() {
    let text = render_human(&report_with(Status::Fail));
    assert!(text.starts_with("hatel doctor\n\n"));
    assert!(text.contains("settings files:\n  user     loaded"), "got: {text}");
    assert!(
        text.contains("native telemetry (settings.json env):\n  ✗ "),
        "got: {text}"
    );
    assert!(text.contains("to wire automatically run `hatel init`"));
}

#[test]
fn the_native_section_fails_what_a_hard_requirement_misses() {
    let good = effective_env(&vec![scope(
        "user",
        r#"{"env":{"CLAUDE_CODE_ENABLE_TELEMETRY":"1","OTEL_METRICS_EXPORTER":"otlp",
            "OTEL_LOGS_EXPORTER":"otlp","OTEL_EXPORTER_OTLP_PROTOCOL":"http/json",
            "OTEL_EXPORTER_OTLP_ENDPOINT":"http://127.0.0.1:4318"}}"#,
    )]);
    assert!(messages(&report_native(&good), Status::Fail).is_empty());
    let bad = effective_env(&vec![scope(
        "user",
        r#"{"env":{"CLAUDE_CODE_ENABLE_TELEMETRY":"0"}}"#,
    )]);
    let sec = report_native(&bad);
    let failed = messages(&sec, Status::Fail);
    assert!(
        failed.contains(&"CLAUDE_CODE_ENABLE_TELEMETRY=0 (from user); expected 1"),
        "got: {failed:?}"
    );
    assert!(failed.contains(&"OTEL_METRICS_EXPORTER unset"), "got: {failed:?}");
}

#[test]
fn a_protocol_is_required_only_where_a_signal_reaches_the_receiver() {
    let local = effective_env(&vec![scope(
        "user",
        r#"{"env":{"OTEL_EXPORTER_OTLP_PROTOCOL":"grpc",
            "OTEL_EXPORTER_OTLP_ENDPOINT":"http://corp:4318",
            "OTEL_EXPORTER_OTLP_LOGS_ENDPOINT":"http://localhost:4318"}}"#,
    )]);
    assert!(messages(&report_native(&local), Status::Fail)
        .iter()
        .any(|m| m.contains("OTEL_EXPORTER_OTLP_PROTOCOL=grpc")));
    let remote = effective_env(&vec![scope(
        "user",
        r#"{"env":{"OTEL_EXPORTER_OTLP_PROTOCOL":"grpc",
            "OTEL_EXPORTER_OTLP_ENDPOINT":"http://corp:4318"}}"#,
    )]);
    assert!(messages(&report_native(&remote), Status::Warn)
        .iter()
        .any(|m| m.contains("OTEL_EXPORTER_OTLP_PROTOCOL=grpc")));
}

#[test]
fn a_missing_hook_binary_and_an_unwireable_binding_fail() {
    let mut s = parse("{}").unwrap();
    wire(&mut s, "/gone/hatel-hook", &EVENTS);
    let files = vec![ScopeFile { name: "user", path: "x".to_string(), load: Load::Found(s) }];
    let mut sec = Section::new("hooks", "hooks:");
    report_hooks(
        &mut sec,
        &files,
        &EVENTS,
        &vec!["/gone/hatel-hook".to_string()],
        &vec!["PreToolUse".to_string()],
    );
    let failed = messages(&sec, Status::Fail);
    assert_eq!(failed.len(), 2, "got: {failed:?}");
    assert!(failed[0].contains("wired hook `/gone/hatel-hook` is missing on disk"));
    assert!(failed[1].contains("a plugin binds `PreToolUse`"));
}

#[test]
fn a_quiet_binding_is_noted_only_while_sessions_start() {
    let reg = load_core(CORE_SCHEMA).unwrap();
    let files = vec![scope(
        "user",
        &format!(
            r#"{{"hooks":{{"PreCompact":[{}]}}}}"#,
            compact(&hook_group("/x/hatel-hook"))
        ),
    )];
    let mut bound = bound_kinds(&files, &["PreCompact"], &reg);
    assert_eq!(bound.len(), 1);
    assert_eq!(bound[0].kind, "compaction");
    assert_eq!(bound[0].events, vec!["PreCompact".to_string()]);
    bound[0].active = false;
    let mut quiet = Section::new("hooks", "hooks:");
    advise_dormant_bindings(&mut quiet, false, &bound);
    assert!(quiet.findings.is_empty());
    let mut noted = Section::new("hooks", "hooks:");
    advise_dormant_bindings(&mut noted, true, &bound);
    assert_eq!(messages(&noted, Status::Note).len(), 1);
}

#[test]
fn storage_findings_name_the_gap_and_its_fix() {
    let sec = report_storage(&StorageFacts {
        state_dir: "/s".to_string(),
        write_error: None,
        config_path: "/c/config.toml".to_string(),
        settings_error: None,
        plugins: 2,
        registry_error: None,
        unreadable: Ok(vec!["ci_check".to_string(), "old".to_string()]),
    });
    assert_eq!(
        messages(&sec, Status::Good),
        vec!["state dir writable: /s", "2 plugin schema(s) from /c/config.toml"]
    );
    assert_eq!(
        messages(&sec, Status::Warn),
        vec![
            "stored but unreadable — no loaded schema declares ci_check, old; add the plugin that \
             defines them to `plugins` in /c/config.toml, or their records stay uncountable"
        ]
    );
}

#[test]
fn export_without_a_stream_to_forward_fails() {
    let env = effective_env(&vec![scope(
        "managed",
        r#"{"env":{"OTEL_EXPORTER_OTLP_ENDPOINT":"http://corp:4318"}}"#,
    )]);
    let target = |mode| ExportTarget {
        endpoint: "http://downstream:4318".to_string(),
        mode,
        filter: ProjectFilter::All,
        headers: Headers::new(),
        timeout_ms: None,
    };
    let none = report_export(&env, &Ok(ExportConfig { targets: vec![] }), false);
    assert!(none.is_none());
    let sec = report_export(
        &env,
        &Ok(ExportConfig { targets: vec![target(ExportMode::Raw)] }),
        false,
    )
    .unwrap();
    assert!(messages(&sec, Status::Fail)
        .iter()
        .any(|m| m.contains("managed-locked to http://corp:4318")));
    let broken = report_export(&env, &Err("bad file".to_string()), false).unwrap();
    assert_eq!(messages(&broken, Status::Fail).len(), 1);
}

#[test]
fn another_build_is_noted_and_this_build_is_not() {
    let mut sec = Section::new("hooks", "hooks:");
    for build in [
        HookBuild::Version("1.0".to_string()),
        HookBuild::Version("0.9".to_string()),
        HookBuild::Unreported,
        HookBuild::Unverified("exit status: 3".to_string()),
    ] {
        advise_hook_build(&mut sec, "/bin/hatel-hook", &build, "1.0");
    }
    for probe in [
        Probe::Build("1.0".to_string()),
        Probe::Build("0.9".to_string()),
        Probe::Foreign,
        Probe::Unreachable("refused".to_string()),
    ] {
        advise_receiver(&mut sec, "localhost:4318", &probe, "1.0");
    }
    let messages: Vec<&str> = sec.findings.iter().map(|f| f.message.as_str()).collect();
    assert_eq!(
        messages,
        vec![
            "`/bin/hatel-hook` is build 0.9, this is 1.0",
            "`/bin/hatel-hook` names no build",
            "the build of `/bin/hatel-hook` is unknown (exit status: 3)",
            "the receiver at localhost:4318 is build 0.9, this is 1.0",
            "localhost:4318 did not answer as a receiver (a build before 0.18.0, or another \
             collector)",
            "no receiver answers at localhost:4318 (refused)",
        ]
    );
    assert!(sec.findings.iter().all(|f| f.status == Status::Note));
}

#[test]
fn only_a_local_receiver_is_asked_for_its_build() {
    let asked = |endpoint: &str| {
        let text = format!("{{\"env\":{{\"OTEL_EXPORTER_OTLP_ENDPOINT\":\"{endpoint}\"}}}}");
        receiver_to_probe(&effective_env(&vec![scope("user", &text)]))
    };
    assert_eq!(asked("http://localhost:4318").as_deref(), Some("localhost:4318"));
    assert_eq!(asked("https://collector.example.com"), None);
    assert_eq!(receiver_to_probe(&effective_env(&vec![scope("user", "{}")])), None);
}
