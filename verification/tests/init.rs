use hatel::claude_settings::EVENTS;
use hatel::export::{ExportConfig, ExportMode};
use hatel::init::{
    count_dropped, insert, insert_done, insert_front, remove_wiring, repoint, run, write_failed,
    Front, InsertMode, Line, Scope,
};
use hatel::json::{compact, parse};
use hatel::scopes::{effective_env, load_text, Load, ScopeFile};

const CMD: &str = "/usr/local/bin/hatel-hook";

fn said(line: &Line) -> &str {
    match line {
        Line::Said(s) => s,
        Line::Warned(s) => s,
    }
}

fn env_of(name: &'static str, text: &str) -> hatel::scopes::Env {
    effective_env(&vec![ScopeFile { name, path: "x".to_string(), load: load_text(text) }])
}

#[test]
fn a_first_run_writes_the_wiring_and_a_second_changes_nothing() {
    let plan = run(Load::Absent, "/s.json", Scope::User, CMD, &EVENTS, false, &vec![]);
    assert_eq!(plan.code, 0);
    let text = plan.write.expect("a first run writes");
    assert!(text.ends_with("}\n"), "got: {text}");
    let again = run(load_text(&text), "/s.json", Scope::User, CMD, &EVENTS, false, &vec![]);
    assert!(again.write.is_none());
    assert_eq!(again.code, 0);
}

#[test]
fn a_file_that_does_not_parse_is_never_overwritten() {
    let plan = run(load_text("{ nope"), "/s.json", Scope::User, CMD, &EVENTS, false, &vec![]);
    assert!(plan.write.is_none());
    assert_eq!(plan.code, 1);
    assert!(said(&plan.said[0]).contains("/s.json"));
}

#[test]
fn telemetry_that_was_switched_off_fails_the_run() {
    let plan = run(
        load_text(r#"{"env":{"CLAUDE_CODE_ENABLE_TELEMETRY":"0"}}"#),
        "/s.json",
        Scope::User,
        CMD,
        &EVENTS,
        false,
        &vec![],
    );
    assert_eq!(plan.code, 1);
}

#[test]
fn removing_undoes_the_hooks_and_leaves_the_env() {
    let plan = run(Load::Absent, "/s.json", Scope::Local, CMD, &EVENTS, false, &vec![]);
    let wired = plan.write.unwrap();
    let removed = remove_wiring(load_text(&wired), "/s.json", Scope::Local);
    assert_eq!(removed.code, 0);
    let left = parse(&removed.write.unwrap()).unwrap();
    assert!(left.get("hooks").is_none());
    assert!(left.get("env").is_some());
    let nothing = remove_wiring(Load::Absent, "/s.json", Scope::Local);
    assert!(nothing.write.is_none());
    assert_eq!(nothing.code, 0);
    assert_eq!(Scope::Local.key(), "local");
}

#[test]
fn an_endpoint_is_captured_once_and_the_wiring_repointed() {
    let text = r#"{"env":{"OTEL_EXPORTER_OTLP_ENDPOINT":"http://corp:4318",
        "OTEL_EXPORTER_OTLP_PROTOCOL":"grpc"}}"#;
    let env = env_of("user", text);
    let endpoint = match insert_front(&env) {
        Front::Endpoint(e, scope) => {
            assert_eq!(scope, "user");
            e
        }
        Front::Nothing(..) => panic!("there is an endpoint to capture"),
    };
    assert_eq!(endpoint, "http://corp:4318");
    let done = match insert(
        InsertMode::Enriched,
        &endpoint,
        "/s.json",
        load_text(text),
        CMD,
        &EVENTS,
        Ok(ExportConfig { targets: vec![] }),
        Some("authorization=tok,broken"),
    ) {
        Ok(i) => i,
        Err(l) => panic!("refused: {}", said(&l)),
    };
    assert_eq!(done.export.targets.len(), 1);
    assert_eq!(done.export.targets[0].endpoint, "http://corp:4318");
    assert_eq!(done.export.targets[0].mode, ExportMode::Enriched);
    assert_eq!(done.export.targets[0].headers.get("authorization"), Some("tok"));
    let after = env_of("user", &done.settings);
    assert_eq!(after.value("OTEL_EXPORTER_OTLP_ENDPOINT"), Some("http://127.0.0.1:4318"));
    assert!(matches!(insert_front(&after), Front::Nothing(_, 0)));
    assert_eq!(count_dropped("authorization=tok,broken"), 1);
    let lines = insert_done(
        "http://corp:4318",
        InsertMode::Enriched,
        "/c/config.toml",
        "user",
        CMD,
        false,
    );
    assert!(lines.iter().any(|l| said(l).contains("http://corp:4318")));
}

#[test]
fn a_managed_endpoint_cannot_be_captured() {
    let env = env_of("managed", r#"{"env":{"OTEL_EXPORTER_OTLP_ENDPOINT":"http://corp:4318"}}"#);
    assert!(matches!(insert_front(&env), Front::Nothing(Line::Warned(_), 1)));
    let none = env_of("user", "{}");
    assert!(matches!(insert_front(&none), Front::Nothing(_, 0)));
}

#[test]
fn a_broken_export_file_stops_an_insertion() {
    let refused = insert(
        InsertMode::Raw,
        "http://corp:4318",
        "/s.json",
        Load::Absent,
        CMD,
        &EVENTS,
        Err("bad file".to_string()),
        None,
    );
    match refused {
        Ok(_) => panic!("must be refused"),
        Err(l) => assert!(said(&l).contains("bad file")),
    }
    assert!(said(&write_failed("init", "/s.json", "denied")).contains("denied"));
    assert_eq!(InsertMode::Raw.as_export(), ExportMode::Raw);
}

#[test]
fn repointing_changes_the_endpoint_and_nothing_beside_it() {
    let mut s = parse(
        r#"{"env":{"OTEL_EXPORTER_OTLP_ENDPOINT":"http://corp:4318","FOO":"bar"},"model":"x"}"#,
    )
    .unwrap();
    repoint(&mut s);
    let after = compact(&s);
    assert!(after.contains("\"FOO\":\"bar\""), "got: {after}");
    assert!(after.contains("\"model\":\"x\""));
    assert!(after.contains("http://127.0.0.1:4318"));
    assert!(!after.contains("corp"));
}
