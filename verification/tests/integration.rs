use hatel::clock::{now_epoch, now_iso_utc, ts_epoch};
use hatel::cost::{CostRow, read_snapshot};
use hatel::error::Error;
use hatel::hook::{
    event_of, inject_branch, inject_derived, is_named, needs_branch, process_event, record_at,
    started_session,
};
use hatel::json::{compact, parse, Json};
use hatel::model::{make_envelope, Envelope, Payload};
use hatel::pii::{redacted, value_text};
use hatel::project::ProjectRef;
use hatel::registry::{FieldMap, KindSpec, KindSpecRaw, Registry};
use hatel::report::{
    aggregate, cost_by_project, cost_groups, parse_window, plan, rank, reach, truncate, Amount,
    Answer, GroupAgg, GroupRows, Measure, Query, Report,
};
use hatel::rolling::{prune_archives, Aged, Fingerprint};
use hatel::schema::{
    build_registry, build_registry_resilient, load_core, read_field_map, PluginFile, CORE_SCHEMA,
};
use hatel::session::{read_lines, SessionIndex, SessionIndexCache};
use hatel::sink::{prune_bound, stored_kinds, stored_record, window_bound};
use hatel::table::parse_toml;

const EXAMPLE: &str = r#"
[[kind]]
name = "ci_check"
fields = ["check", "date", "runs", "failures", "actor"]
group_key = "check"
measures = ["runs", "failures"]
redact = ["actor"]

[[kind]]
name = "branch_work"
fields = ["session_id", "project", "branch"]
group_key = "branch"

[[binding]]
event = "SessionEnd"
kind = "branch_work"
map.session_id = { from = "session_id" }
map.branch = { from = "git_branch" }
"#;

fn j(text: &str) -> Json {
    parse(text).unwrap()
}

fn plugin(text: &str) -> PluginFile {
    PluginFile { path: "p.toml".to_string(), text: Ok(text.to_string()) }
}

fn build(plugins: Vec<PluginFile>) -> Result<Registry, Error> {
    build_registry(CORE_SCHEMA, &plugins)
}

fn refused(text: &str) -> String {
    match build(vec![plugin(text)]) {
        Ok(_) => panic!("the schema must be refused"),
        Err(e) => e.message(),
    }
}

fn core_registry() -> Registry {
    load_core(CORE_SCHEMA).expect("core schema loads")
}

fn query<'a>(since: i64, top_n: usize, project: Option<&'a str>) -> Query<'a> {
    Query { since, top_n, project, kind: None, group_by: None, sort_by: None, filters: &[] }
}

fn get<'a>(p: &'a Payload, key: &str) -> Option<&'a Json> {
    p.iter().find(|(k, _)| k == key).map(|(_, v)| v)
}

fn text<'a>(env: &'a Envelope, key: &str) -> Option<&'a str> {
    get(&env.payload, key).and_then(|v| v.as_str())
}

fn payload(text: &str) -> Payload {
    match j(text) {
        Json::Object(m) => m,
        _ => panic!("not an object"),
    }
}

/// The records that an event writes.
fn fire(event: &str, reg: &Registry, label: &str) -> Vec<Envelope> {
    process_event(&j(event), reg, label, true).into_iter().map(|r| r.unwrap()).collect()
}

fn of_kind(records: Vec<Envelope>, kind: &str) -> Vec<Envelope> {
    records.into_iter().filter(|r| r.kind == kind).collect()
}

fn line(tool: &str) -> Envelope {
    stamped(&now_iso_utc(), tool)
}

fn stamped(ts: &str, tool: &str) -> Envelope {
    record("tool", ts, &format!("{{\"session_id\":\"S\",\"project\":\"p\",\"tool_name\":\"{tool}\"}}"))
}

fn record(kind: &str, ts: &str, payload: &str) -> Envelope {
    Envelope::from_json_line(&format!(
        "{{\"ts\":\"{ts}\",\"kind\":\"{kind}\",\"_schema_version\":1,\"payload\":{payload}}}"
    ))
    .unwrap()
}

/// What a field of the counted records adds up to.
fn summed(records: &[Envelope], rows: &[usize], field: &str) -> f64 {
    rows.iter()
        .map(|i| match get(&records[*i].payload, field) {
            Some(Json::Number(n)) => n.as_f64().unwrap(),
            Some(Json::Str(s)) => s.parse::<f64>().ok().filter(|v| v.is_finite()).unwrap_or(0.0),
            _ => 0.0,
        })
        .sum()
}

fn groups_of(reg: &Registry, kind: &str, records: &Vec<Envelope>, q: &Query) -> Vec<GroupRows> {
    aggregate(reg.kind(kind).unwrap(), records, q)
}

fn measure(name: &str, sum: i64) -> Measure {
    Measure {
        name: name.to_string(),
        sum: Amount { order: sum, plain: sum.to_string(), value: None },
    }
}

fn group(key: &str, count: i64, sums: &[(&str, i64)]) -> GroupAgg {
    GroupAgg {
        key: Some(key.to_string()),
        count,
        sums: sums.iter().map(|(n, v)| measure(n, *v)).collect(),
        share: 0,
    }
}

#[test]
fn core_registry_is_self_consistent() {
    let reg = core_registry();
    for spec in reg.kinds() {
        assert!(spec.fields.contains(&spec.group_key), "group_key in fields for {}", spec.name);
        for r in &spec.redact {
            assert!(spec.fields.contains(r), "redact field in fields for {}", spec.name);
        }
        for m in &spec.measures {
            assert!(spec.fields.contains(m), "measure in fields for {}", spec.name);
        }
    }
    assert!(reg.kind("tool").is_some());
    assert!(reg.kind("memory").is_some());
    assert!(reg.kind("compaction").is_some());
}

#[test]
fn example_plugin_merges_cleanly() {
    let reg = build(vec![plugin(EXAMPLE)]).expect("example plugin loads");
    assert!(reg.kind("branch_work").is_some());
    let ci = reg.kind("ci_check").unwrap();
    assert_eq!(ci.group_key, "check");
    assert_eq!(ci.measures, vec!["runs".to_string(), "failures".to_string()]);
    assert!(ci.redact.contains(&"actor".to_string()));
}

#[test]
fn emit_redacts_declared_field() {
    let reg = build(vec![plugin(EXAMPLE)]).unwrap();
    let p = payload("{\"check\":\"lint\",\"actor\":\"alice@example.com\"}");
    let env = make_envelope("ci_check", p, &reg, false).unwrap();
    let stored = text(&env, "actor").unwrap();
    assert_ne!(stored, "alice@example.com", "raw identity must never be stored");
    assert_eq!(stored.len(), 16, "redacted to a 16-hex blake3 hash");
}

#[test]
fn emit_payload_is_allow_list_filtered() {
    let reg = build(vec![plugin(EXAMPLE)]).unwrap();
    let p = payload("{\"check\":\"lint\",\"runs\":14000,\"failures\":3,\"secret\":\"leak\"}");
    let env = make_envelope("ci_check", p, &reg, false).unwrap();
    assert_eq!(compact(get(&env.payload, "runs").unwrap()), "14000");
    assert!(get(&env.payload, "secret").is_none(), "non-allowed key dropped on emit");
}

#[test]
fn duplicate_kind_is_a_hard_error() {
    let err = match build(vec![plugin(EXAMPLE), plugin(EXAMPLE)]) {
        Ok(_) => panic!("a duplicate must be refused"),
        Err(e) => e.message(),
    };
    assert!(err.contains("duplicate"), "got: {err}");
}

#[test]
fn bound_events_surfaces_an_out_of_vocabulary_binding() {
    let reg = build(vec![plugin(
        "[[kind]]\nname = \"team.pre\"\nfields = [\"session_id\"]\ngroup_key = \"session_id\"\n\
         [[binding]]\nevent = \"PreToolUse\"\nkind = \"team.pre\"\nmap.session_id = { from = \"session_id\" }\n",
    )])
    .unwrap();
    let bound = reg.bound_events();
    assert!(
        bound.contains(&"PreToolUse".to_string()),
        "bound events include the out-of-vocab one: {bound:?}"
    );
}

#[test]
fn tool_kind_allow_list_keeps_it_content_free() {
    let reg = core_registry();
    let p = payload(
        "{\"session_id\":\"S1\",\"project\":\"myproj\",\"tool_name\":\"Bash\",\"duration_ms\":23,\
         \"ok\":1,\"user.email\":\"a@b.com\",\"tool_input\":\"rm -rf /\"}",
    );
    let env = make_envelope("tool", p, &reg, false).unwrap();
    assert_eq!(text(&env, "tool_name"), Some("Bash"));
    assert_eq!(compact(get(&env.payload, "duration_ms").unwrap()), "23");
    assert_eq!(compact(get(&env.payload, "ok").unwrap()), "1");
    assert!(get(&env.payload, "user.email").is_none(), "PII dropped");
    assert!(get(&env.payload, "tool_input").is_none(), "tool content dropped");
}

#[test]
fn prompt_stores_length_not_text() {
    let recs = of_kind(
        fire(
            r#"{"hook_event_name":"UserPromptSubmit","session_id":"S2","cwd":"/tmp/x",
                "prompt":"hello world"}"#,
            &core_registry(),
            "",
        ),
        "prompt",
    );
    assert_eq!(recs.len(), 1);
    assert_eq!(compact(get(&recs[0].payload, "prompt_len").unwrap()), "11");
    assert!(get(&recs[0].payload, "prompt").is_none());
}

#[test]
fn session_start_is_recorded_in_the_index() {
    let event = j(r#"{"hook_event_name":"SessionStart","session_id":"S3","cwd":"/repos/myproj"}"#);
    let session = started_session(&event).expect("a session starts");
    let idx = SessionIndex::new("/state".to_string());
    let line = idx.record(
        &session,
        &Some(ProjectRef { key: "/repos/myproj".to_string(), label: "myproj".to_string() }),
    );
    let index = idx.load(&vec![line]);
    let row = index.get("S3").expect("session recorded");
    assert_eq!(row.project_label, "myproj");
    assert_eq!(row.project_key, "/repos/myproj");
}

#[test]
fn an_unattributable_session_start_is_recorded_without_a_project() {
    let idx = SessionIndex::new("/state".to_string());
    let mut lines = vec![];
    for (session_id, cwd) in [("S4", ""), ("S5", "/outside")] {
        let event = j(&format!(
            r#"{{"hook_event_name":"SessionStart","session_id":"{session_id}","cwd":"{cwd}"}}"#
        ));
        lines.push(idx.record(&started_session(&event).unwrap(), &None));
    }
    let index = idx.load(&lines);
    let mut cache = SessionIndexCache::new("/state".to_string());
    cache.refresh(
        Some(Fingerprint { files: 1, bytes: 1, newest: Some(1) }),
        &read_lines(&lines),
    );
    for session_id in ["S4", "S5"] {
        assert!(index.contains_key(session_id), "the session start is recorded");
        assert!(cache.is_unattributed(session_id), "with no project");
        assert_eq!(cache.label(session_id), None, "and nothing to attribute by");
    }
    assert!(!cache.contains("never-started"), "a session never seen stays undecided");
}

#[test]
fn an_unattributable_session_records_the_empty_project_label() {
    let recs = of_kind(
        fire(
            r#"{"hook_event_name":"UserPromptSubmit","session_id":"S6","cwd":"/outside",
                "prompt":"hello"}"#,
            &core_registry(),
            "",
        ),
        "prompt",
    );
    assert_eq!(recs.len(), 1);
    assert_eq!(
        text(&recs[0], "project"),
        Some(""),
        "no directory lends its name to an unattributable session"
    );
}

fn field_map(toml: &str) -> FieldMap {
    read_field_map(&parse_toml(toml).unwrap()).unwrap()
}

#[test]
fn field_map_capture_derives_value_or_omits() {
    let fm = field_map("from = \"git_branch\"\ncapture = \"^spec/(.+)$\"");
    let matched = fm.apply(&j(r#"{"git_branch":"spec/my-feature"}"#));
    assert_eq!(matched.unwrap().as_str(), Some("my-feature"));
    assert!(fm.apply(&j(r#"{"git_branch":"main"}"#)).is_none());
    assert!(fm.apply(&j("{}")).is_none());
}

#[test]
fn field_map_tries_multiple_source_keys() {
    let fm = field_map("from = [\"trigger\", \"compact_trigger\"]");
    assert_eq!(fm.apply(&j(r#"{"trigger":"auto"}"#)).unwrap().as_str(), Some("auto"));
    assert_eq!(
        fm.apply(&j(r#"{"compact_trigger":"manual"}"#)).unwrap().as_str(),
        Some("manual")
    );
    assert!(fm.apply(&j(r#"{"other":"x"}"#)).is_none());
}

#[test]
fn field_map_transforms_apply_or_omit() {
    let event = j(r#"{"path":"/a/b/c.md","prompt":"añb","gone":null,"n":4}"#);
    let out = |toml: &str| field_map(toml).apply(&event).map(|v| compact(&v));
    assert_eq!(out("from = \"path\"\nbasename = true").as_deref(), Some("\"c.md\""));
    assert_eq!(out("from = \"prompt\"\nlen = true").as_deref(), Some("3"));
    assert_eq!(out("from = \"path\"\npresent = true").as_deref(), Some("true"));
    assert_eq!(out("from = \"gone\"\npresent = true").as_deref(), Some("false"));
    assert_eq!(out("const = 7").as_deref(), Some("7"));
    assert_eq!(out("from = \"n\"").as_deref(), Some("4"));
    assert_eq!(out("from = \"n\"\nlen = true"), None);
    assert!(field_map("from = \"n\"").references("n"));
    assert!(!field_map("from = \"n\"").references("m"));
}

#[test]
fn compaction_records_trigger_with_either_field_name() {
    let recs = of_kind(
        fire(
            r#"{"hook_event_name":"PreCompact","session_id":"S","cwd":"/tmp/x",
                "compact_trigger":"auto"}"#,
            &core_registry(),
            "",
        ),
        "compaction",
    );
    assert_eq!(recs.len(), 1);
    assert_eq!(text(&recs[0], "trigger"), Some("auto"));
}

#[test]
fn git_branch_is_injected_only_when_a_binding_uses_it() {
    let reg = build(vec![plugin(
        r#"
[[kind]]
name = "work"
fields = ["session_id", "project", "spec_slug"]
group_key = "spec_slug"
[[binding]]
event = "SessionEnd"
kind = "work"
map.session_id = { from = "session_id" }
map.spec_slug = { from = "git_branch", capture = "^spec/(.+)$" }
"#,
    )])
    .unwrap();
    let mut end = j(r#"{"hook_event_name":"SessionEnd","session_id":"S","cwd":"/repo"}"#);
    assert!(needs_branch(&end, &reg));
    inject_branch(&mut end, "spec/checkout");
    assert_eq!(end.get_str("git_branch"), Some("spec/checkout"));
    let recs: Vec<Envelope> =
        process_event(&end, &reg, "", true).into_iter().map(|r| r.unwrap()).collect();
    assert_eq!(recs.len(), 1);
    assert_eq!(text(&recs[0], "spec_slug"), Some("checkout"));
    let tool = j(
        r#"{"hook_event_name":"PostToolUse","session_id":"S","cwd":"/repo","tool_name":"Bash"}"#,
    );
    assert!(!needs_branch(&tool, &reg), "git_branch not read when no binding uses it");
}

#[test]
fn strict_mode_rejects_unknown_keys() {
    let p = payload("{\"session_id\":\"X\",\"tool_name\":\"Bash\",\"secret\":\"leak\"}");
    let err = match make_envelope("tool", p, &core_registry(), true) {
        Ok(_) => panic!("an unknown key must be refused"),
        Err(e) => e.message(),
    };
    assert!(err.contains("disallowed"), "got: {err}");
}

#[test]
fn reports_read_active_and_rotated_archives() {
    let names: Vec<String> =
        vec!["tool.jsonl".to_string(), "tool.jsonl.20240101.1".to_string(), "x.jsonl".to_string()];
    let read = hatel::rolling::matching_files(&names, &hatel::sink::base("tool"));
    assert_eq!(read.len(), 2);
    let texts = [line("A").to_json_line(), line("B").to_json_line()];
    let recs: Vec<Envelope> = texts.iter().filter_map(|t| Envelope::from_json_line(t)).collect();
    assert_eq!(recs.len(), 2);
}

#[test]
fn report_filter_restricts_to_matching_records() {
    let reg = core_registry();
    let rec = |tool: &str, ok: i64| {
        record(
            "tool",
            &now_iso_utc(),
            &format!(
                "{{\"session_id\":\"S\",\"project\":\"p\",\"tool_name\":\"{tool}\",\
                 \"duration_ms\":5,\"ok\":{ok}}}"
            ),
        )
    };
    let records = vec![rec("Bash", 1), rec("Bash", 0), rec("Edit", 1)];
    let filters = vec![("tool_name".to_string(), "Bash".to_string())];
    let groups =
        groups_of(&reg, "tool", &records, &Query { filters: &filters, ..query(0, 0, None) });
    assert_eq!(groups.len(), 1);
    assert_eq!(groups[0].key.as_deref(), Some("Bash"));
    assert_eq!(groups[0].rows.len(), 2);
    let filters = vec![
        ("tool_name".to_string(), "Bash".to_string()),
        ("ok".to_string(), "1".to_string()),
    ];
    let groups =
        groups_of(&reg, "tool", &records, &Query { filters: &filters, ..query(0, 0, None) });
    assert_eq!(groups.len(), 1);
    assert_eq!(groups[0].rows.len(), 1, "both filters must match");
    let filters = vec![("tool_name".to_string(), "Nope".to_string())];
    let groups =
        groups_of(&reg, "tool", &records, &Query { filters: &filters, ..query(0, 0, None) });
    assert!(groups.is_empty());
}

#[test]
fn a_redacted_field_is_filterable_by_its_stored_form() {
    let reg = build(vec![plugin(EXAMPLE)]).unwrap();
    let p = payload("{\"check\":\"lint\",\"actor\":\"alice@example.com\"}");
    let records = vec![make_envelope("ci_check", p, &reg, false).unwrap()];
    let stored = vec![("actor".to_string(), redacted("alice@example.com"))];
    let groups =
        groups_of(&reg, "ci_check", &records, &Query { filters: &stored, ..query(0, 0, None) });
    assert_eq!(
        groups.iter().map(|g| g.rows.len()).sum::<usize>(),
        1,
        "stored form matches the redacted record"
    );
    let raw = vec![("actor".to_string(), "alice@example.com".to_string())];
    let groups =
        groups_of(&reg, "ci_check", &records, &Query { filters: &raw, ..query(0, 0, None) });
    assert!(groups.is_empty(), "the raw value never exists on disk, so it matches nothing");
}

#[test]
fn retention_prunes_old_archives_but_never_the_active_ledger() {
    let now = now_epoch();
    let past = now - 100 * 86_400;
    let file = |name: &str, at: i64| Aged { name: name.to_string(), modified: Some(at) };
    let removed = prune_archives(
        &vec![
            file("tool.jsonl", past),
            file("tool.jsonl.20240101.1", past),
            file("tool.jsonl.20990101.1", now),
        ],
        now - 90 * 86_400,
    );
    assert_eq!(
        removed,
        vec!["tool.jsonl.20240101.1".to_string()],
        "exactly the aged archive is removed"
    );
}

#[test]
fn retention_never_prunes_an_active_ledger_for_a_dotted_kind_name() {
    let past = now_epoch() - 100 * 86_400;
    let file = |name: &str| Aged { name: name.to_string(), modified: Some(past) };
    let removed = prune_archives(
        &vec![file("foo.jsonl.jsonl"), file("foo.jsonl.jsonl.20240101.1")],
        now_epoch() - 90 * 86_400,
    );
    assert_eq!(removed, vec!["foo.jsonl.jsonl.20240101.1".to_string()]);
}

#[test]
fn sqlite_retention_prunes_only_rows_older_than_the_cutoff() {
    let bound = prune_bound(now_epoch() - 86_400).expect("a bound");
    let ancient = "2000-01-01T00:00:00Z".to_string();
    assert!(ancient < bound, "exactly the ancient row is deleted");
    assert!(now_iso_utc() > bound, "the in-window row remains");
}

#[test]
fn compaction_writes_one_record_per_compaction() {
    let reg = core_registry();
    let mut recs = vec![];
    for name in ["PreCompact", "PostCompact"] {
        recs.extend(fire(
            &format!(
                r#"{{"hook_event_name":"{name}","session_id":"S","cwd":"/tmp/x",
                    "compact_trigger":"auto"}}"#
            ),
            &reg,
            "",
        ));
    }
    assert_eq!(of_kind(recs, "compaction").len(), 1);
}

#[test]
fn binding_writing_a_non_allowlisted_field_is_rejected_at_build() {
    let err = refused(
        "[[kind]]\nname=\"x\"\nfields=[\"session_id\",\"spec\"]\ngroup_key=\"spec\"\n\
         [[binding]]\nevent=\"SessionEnd\"\nkind=\"x\"\nmap.typo={ from=\"session_id\" }\n",
    );
    assert!(err.contains("not in the kind's fields"), "got: {err}");
}

#[test]
fn invalid_capture_regex_is_rejected_at_build() {
    let err = refused(
        "[[kind]]\nname=\"x\"\nfields=[\"session_id\",\"spec\"]\ngroup_key=\"spec\"\n\
         [[binding]]\nevent=\"SessionEnd\"\nkind=\"x\"\n\
         map.spec={ from=\"git_branch\", capture=\"([\" }\n",
    );
    assert!(err.contains("invalid capture regex"), "got: {err}");
}

#[test]
fn unsafe_kind_name_is_rejected() {
    let err = refused("[[kind]]\nname=\"../escape\"\nfields=[\"a\"]\ngroup_key=\"a\"\n");
    assert!(err.contains("[A-Za-z0-9._-]"), "got: {err}");
}

#[test]
fn parse_window_rejects_overflow_and_nonsense() {
    assert!(parse_window("30d").is_some());
    assert!(parse_window("0d").is_none());
    assert!(parse_window("7h").is_none());
    assert!(parse_window("999999999999999999d").is_none());
    assert_eq!(parse_window("30d"), Some(30 * 86_400));
}

#[test]
fn report_sums_measures_and_coerces_numeric_strings() {
    let reg = build(vec![plugin(EXAMPLE)]).unwrap();
    let rec = |runs: &str, fails: i64| {
        record(
            "ci_check",
            &now_iso_utc(),
            &format!("{{\"check\":\"lint\",\"runs\":{runs},\"failures\":{fails}}}"),
        )
    };
    let records = vec![rec("14000", 3), rec("\"1000\"", 2)];
    let groups = groups_of(&reg, "ci_check", &records, &query(0, 5, None));
    assert_eq!(groups.len(), 1);
    assert_eq!(groups[0].key.as_deref(), Some("lint"));
    assert_eq!(groups[0].rows.len(), 2);
    assert_eq!(summed(&records, &groups[0].rows, "runs"), 15000.0);
    assert_eq!(summed(&records, &groups[0].rows, "failures"), 5.0);
}

#[test]
fn report_filters_by_project() {
    let reg = core_registry();
    let rec = |proj: &str, tool: &str| {
        record(
            "tool",
            &now_iso_utc(),
            &format!("{{\"session_id\":\"S\",\"project\":\"{proj}\",\"tool_name\":\"{tool}\"}}"),
        )
    };
    let records = vec![rec("alpha", "Bash"), rec("alpha", "Edit"), rec("beta", "Bash")];
    let total = |p: Option<&str>| -> usize {
        groups_of(&reg, "tool", &records, &query(0, 5, p)).iter().map(|g| g.rows.len()).sum()
    };
    assert_eq!(total(None), 3, "all projects");
    assert_eq!(total(Some("alpha")), 2, "only alpha");
    assert_eq!(total(Some("beta")), 1, "only beta");
}

#[test]
fn binding_mapping_project_is_rejected() {
    let err = refused(
        "[[kind]]\nname=\"x\"\nfields=[\"session_id\",\"project\"]\ngroup_key=\"session_id\"\n\
         [[binding]]\nevent=\"SessionEnd\"\nkind=\"x\"\nmap.project={ from=\"session_id\" }\n",
    );
    assert!(err.contains("may not map 'project'"), "got: {err}");
}

#[test]
fn field_map_with_two_transforms_is_rejected() {
    let err = refused(
        "[[kind]]\nname=\"x\"\nfields=[\"session_id\",\"n\"]\ngroup_key=\"session_id\"\n\
         [[binding]]\nevent=\"SessionEnd\"\nkind=\"x\"\n\
         map.session_id={ from=\"session_id\" }\nmap.n={ from=\"p\", len=true, basename=true }\n",
    );
    assert!(err.contains("at most one"), "got: {err}");
}

#[test]
fn field_map_transform_without_source_is_rejected() {
    let err = refused(
        "[[kind]]\nname=\"x\"\nfields=[\"session_id\",\"n\"]\ngroup_key=\"session_id\"\n\
         [[binding]]\nevent=\"SessionEnd\"\nkind=\"x\"\n\
         map.session_id={ from=\"session_id\" }\nmap.n={ len=true }\n",
    );
    assert!(err.contains("non-empty `from`"), "got: {err}");
}

#[test]
fn capture_regex_without_a_group_is_rejected() {
    let err = refused(
        "[[kind]]\nname=\"x\"\nfields=[\"session_id\",\"spec\"]\ngroup_key=\"spec\"\n\
         [[binding]]\nevent=\"SessionEnd\"\nkind=\"x\"\n\
         map.spec={ from=\"git_branch\", capture=\"spec/.+\" }\n",
    );
    assert!(err.contains("needs a group"), "got: {err}");
}

#[test]
fn measures_reject_non_finite_values() {
    let reg = build(vec![plugin(EXAMPLE)]).unwrap();
    let rec = |runs: &str| {
        record("ci_check", &now_iso_utc(), &format!("{{\"check\":\"lint\",\"runs\":{runs}}}"))
    };
    let records = vec![rec("\"inf\""), rec("50")];
    let groups = groups_of(&reg, "ci_check", &records, &query(0, 5, None));
    assert_eq!(
        summed(&records, &groups[0].rows, "runs"),
        50.0,
        "inf rejected, only 50 summed"
    );
}

#[test]
fn duplicate_event_kind_binding_is_rejected() {
    let err = refused(
        "[[kind]]\nname=\"x\"\nfields=[\"session_id\"]\ngroup_key=\"session_id\"\n\
         [[binding]]\nevent=\"SessionEnd\"\nkind=\"x\"\nmap.session_id={ from=\"session_id\" }\n\
         [[binding]]\nevent=\"SessionEnd\"\nkind=\"x\"\nmap.session_id={ from=\"session_id\" }\n",
    );
    assert!(err.contains("already has a binding for kind"), "got: {err}");
}

#[test]
fn sqlite_window_filter_excludes_old_records() {
    let bound = window_bound(Some(now_epoch() - 86_400));
    assert!("2000-01-01T00:00:00Z".to_string() < bound, "ancient row excluded by SQL window");
    assert!(now_iso_utc() >= bound);
    assert!("2000-01-01T00:00:00Z".to_string() >= window_bound(None), "both rows present");
}

#[test]
fn sqlite_window_keeps_records_in_the_cutoff_second() {
    let ts = "2026-01-01T00:00:20.5Z";
    let bound = window_bound(Some(ts_epoch(ts).unwrap()));
    assert!(
        ts.to_string() >= bound,
        "same-second record kept by the SQL superset filter"
    );
    let whole = "2026-01-01T00:00:20Z".to_string();
    assert!(whole >= bound);
}

#[test]
fn sqlite_sink_round_trips_through_report() {
    let reg = core_registry();
    let recs = of_kind(
        fire(
            r#"{"hook_event_name":"UserPromptSubmit","session_id":"S","cwd":"/tmp/p","prompt":"hi"}"#,
            &reg,
            "",
        ),
        "prompt",
    );
    let stored = hatel::sink::payload_text(&recs[0]);
    let back = stored_record(recs[0].ts.clone(), "prompt", recs[0].schema_version, &stored)
        .expect("record read back from sqlite");
    assert_eq!(compact(get(&back.payload, "prompt_len").unwrap()), "2");
    let records = vec![back];
    let groups = groups_of(&reg, "prompt", &records, &query(0, 5, None));
    assert_eq!(
        groups.iter().map(|g| g.rows.len()).sum::<usize>(),
        1,
        "report aggregates sqlite records"
    );
}

#[test]
fn a_kind_section_says_how_far_back_its_store_reaches() {
    let reg = core_registry();
    let section = |firsts: Vec<Envelope>| {
        let q = query(0, 0, None);
        let answers: Vec<Answer> = plan(&reg, &q)
            .iter()
            .map(|s| Answer {
                retained_since: if s.kind == "tool" { reach(&firsts) } else { None },
                groups: vec![],
            })
            .collect();
        Report::build(&reg, "30d", &q, &answers, &vec![], &vec![])
            .kinds
            .into_iter()
            .find(|k| k.kind == "tool")
            .unwrap()
            .retained_since
    };
    assert_eq!(section(vec![]), None, "an empty store reaches nowhere");
    assert_eq!(
        section(vec![
            stamped("2026-03-01T00:00:00Z", "Read"),
            stamped("2026-01-01T00:00:00Z", "Bash"),
        ])
        .as_deref(),
        Some("2026-01-01T00:00:00Z"),
        "the oldest record, wherever it is held"
    );
}

#[test]
fn top_zero_means_all_groups() {
    let reg = core_registry();
    let records: Vec<Envelope> =
        ["Bash", "Edit", "Read", "Write", "Grep", "Glob"].iter().map(|t| line(t)).collect();
    let shown = |top_n: usize| {
        let mut groups: Vec<GroupAgg> = groups_of(&reg, "tool", &records, &query(0, top_n, None))
            .into_iter()
            .map(|g| GroupAgg { key: g.key, count: g.rows.len() as i64, sums: vec![], share: 0 })
            .collect();
        rank(&mut groups, None);
        truncate(&mut groups, top_n);
        groups.len()
    };
    assert_eq!(shown(3), 3, "capped at 3");
    assert_eq!(shown(0), 6, "0 = all 6");
}

#[test]
fn records_newer_than_this_schema_version_are_skipped() {
    let lines = [1, 999].map(|v| {
        format!(
            "{{\"ts\":\"2026-01-01T00:00:00Z\",\"kind\":\"tool\",\"_schema_version\":{v},\
             \"payload\":{{\"session_id\":\"S\",\"project\":\"p\",\"tool_name\":\"Bash\"}}}}"
        )
    });
    let recs: Vec<Envelope> = lines.iter().filter_map(|l| Envelope::from_json_line(l)).collect();
    assert_eq!(recs.len(), 1, "only the v1 record is read");
    assert_eq!(text(&recs[0], "tool_name"), Some("Bash"));
}

#[test]
fn a_report_names_the_stored_kinds_no_loaded_schema_declares() {
    let gap = |reg: &Registry, files: &[&str]| {
        let names: Vec<String> = files.iter().map(|f| f.to_string()).collect();
        let q = query(0, 5, None);
        let answers: Vec<Answer> = plan(reg, &q)
            .iter()
            .map(|_| Answer { retained_since: None, groups: vec![] })
            .collect();
        Report::build(reg, "7d", &q, &answers, &vec![], &stored_kinds(&names))
            .unreadable_kinds
            .map(|u| u.names)
    };
    let reg = core_registry();
    assert!(
        gap(&reg, &["tool.jsonl"]).is_none(),
        "a store holding only declared Kinds has no gap to report"
    );
    assert_eq!(
        gap(&reg, &["tool.jsonl", "ci_check.jsonl"]).expect("must be named"),
        vec!["ci_check".to_string()]
    );
    let reg = build(vec![plugin(EXAMPLE)]).unwrap();
    assert!(gap(&reg, &["tool.jsonl", "ci_check.jsonl"]).is_none());
}

#[test]
fn a_resumed_agent_counts_once_however_many_turns_it_stops_on() {
    let reg = core_registry();
    let mut records = vec![];
    for turn in 0..4 {
        records.extend(fire(
            &format!(
                r#"{{"hook_event_name":"SubagentStop","session_id":"S","cwd":"/tmp/x",
                    "agent_id":"a43e754af29bd6784","agent_type":"general-purpose","turn":{turn}}}"#
            ),
            &reg,
            "",
        ));
    }
    let records = of_kind(records, "subagent");
    let groups = groups_of(&reg, "subagent", &records, &query(0, 0, None));
    assert_eq!(groups.len(), 1);
    assert_eq!(groups[0].key.as_deref(), Some("general-purpose"));
    assert_eq!(groups[0].rows.len(), 1, "four stops, one agent");
    assert_eq!(
        records.len(),
        4,
        "every observed stop is still stored — the deduplication is the query's, not the write's"
    );
}

#[test]
fn agents_without_an_identity_never_merge_into_one() {
    let reg = core_registry();
    let mut records = vec![];
    for _ in 0..3 {
        records.extend(fire(
            r#"{"hook_event_name":"SubagentStop","session_id":"S","cwd":"/tmp/x",
                "agent_type":"general-purpose"}"#,
            &reg,
            "",
        ));
    }
    let records = of_kind(records, "subagent");
    let groups = groups_of(&reg, "subagent", &records, &query(0, 0, None));
    assert_eq!(groups[0].rows.len(), 3);
}

#[test]
fn an_identity_is_scoped_to_the_group_it_is_counted_in() {
    let reg = core_registry();
    let mut records = vec![];
    for agent in ["critic", "critic", "implementer"] {
        records.extend(fire(
            &format!(
                r#"{{"hook_event_name":"SubagentStop","session_id":"S","cwd":"/tmp/x",
                    "agent_id":"a1","agent_type":"{agent}"}}"#
            ),
            &reg,
            "",
        ));
    }
    let records = of_kind(records, "subagent");
    let groups = groups_of(&reg, "subagent", &records, &query(0, 0, None));
    assert_eq!(groups.len(), 2);
    assert!(groups.iter().all(|g| g.rows.len() == 1));
}

#[test]
fn an_identity_must_name_a_field_of_its_kind() {
    let raw = |identity: Option<&str>| KindSpecRaw {
        name: "k".into(),
        fields: vec!["id".into(), "label".into(), "ms".into()],
        group_key: "label".into(),
        redact: vec![],
        measures: vec!["ms".into()],
        identity: identity.map(str::to_string),
    };
    assert!(KindSpec::from_raw(raw(Some("id"))).is_ok());
    assert!(
        KindSpec::from_raw(raw(Some("agent_id"))).is_err(),
        "an identity naming no field would silently count every record as its own entity"
    );
    assert!(KindSpec::from_raw(raw(None)).is_ok());
}

#[test]
fn each_start_of_one_session_counts_its_own_resume_cost() {
    let reg = core_registry();
    let mut records = fire(
        r#"{"hook_event_name":"SessionStart","session_id":"S","cwd":"/tmp/x","source":"startup"}"#,
        &reg,
        "",
    );
    for usd in ["0.40", "0.55"] {
        records.extend(fire(
            &format!(
                r#"{{"hook_event_name":"SessionStart","session_id":"S","cwd":"/tmp/x",
                    "source":"resume","context_tokens":40000,"seconds_since_last_response":30,
                    "estimated_cache_write_usd":{usd},"prompt_cache_likely_expired":false}}"#
            ),
            &reg,
            "",
        ));
    }
    let records = of_kind(records, "session");
    let groups = groups_of(&reg, "session", &records, &query(0, 0, None));
    let resume =
        groups.iter().find(|g| g.key.as_deref() == Some("resume")).expect("resume group");
    assert_eq!(resume.rows.len(), 2, "two resumes of one session are two starts");
    let spend = summed(&records, &resume.rows, "estimated_cache_write_usd");
    assert!((spend - 0.95).abs() < 1e-9, "resume cost sums across starts");
}

#[test]
fn a_fresh_start_carries_no_resume_cost_rather_than_a_zero() {
    let recs = of_kind(
        fire(
            r#"{"hook_event_name":"SessionStart","session_id":"S","cwd":"/tmp/x","source":"startup"}"#,
            &core_registry(),
            "",
        ),
        "session",
    );
    assert_eq!(recs.len(), 1);
    assert_eq!(text(&recs[0], "source"), Some("startup"));
    for absent in [
        "estimated_cache_write_usd",
        "context_tokens",
        "since_last_response_s",
        "cache_likely_expired",
    ] {
        assert!(get(&recs[0].payload, absent).is_none(), "{absent} must be absent, not zero");
    }
}

#[test]
fn both_backends_represent_an_entity_by_its_earliest_record() {
    let reg = build(vec![plugin(
        r#"
[[kind]]
name = "ord.job"
fields = ["job_id", "stage", "ms"]
group_key = "stage"
identity = "job_id"
measures = ["ms"]
"#,
    )])
    .unwrap();
    let job = |at: &str, id: &str, ms: &str| {
        record(
            "ord.job",
            at,
            &format!("{{\"job_id\":\"{id}\",\"stage\":\"build\",\"ms\":{ms}}}"),
        )
    };
    let written = || {
        [
            job("2026-01-01T00:00:01Z", "j1", "10.0"),
            job("2026-01-01T00:00:02Z", "j2", "5.0"),
            job("2026-01-01T00:00:03Z", "j1", "99.0"),
        ]
    };
    let in_order: Vec<Envelope> = written().into_iter().collect();
    let newest_first: Vec<Envelope> = written().into_iter().rev().collect();
    for records in [in_order, newest_first] {
        let groups = groups_of(&reg, "ord.job", &records, &query(0, 0, None));
        assert_eq!(groups.len(), 1);
        assert_eq!(groups[0].rows.len(), 2, "two jobs, three records");
        assert_eq!(
            summed(&records, &groups[0].rows, "ms"),
            15.0,
            "j1's earliest record represents it, so 10 + 5 rather than 99"
        );
    }
}

#[test]
fn a_tool_call_is_attributed_to_the_agent_that_made_it() {
    let reg = core_registry();
    let mut records = vec![];
    for (use_id, agent) in [("t1", ""), ("t2", ",\"agent_id\":\"a9\""), ("t3", ",\"agent_id\":\"a9\"")]
    {
        records.extend(fire(
            &format!(
                r#"{{"hook_event_name":"PostToolUse","session_id":"S","cwd":"/tmp/x",
                    "tool_name":"Bash","tool_use_id":"{use_id}","prompt_id":"P",
                    "duration_ms":12{agent}}}"#
            ),
            &reg,
            "",
        ));
    }
    let records = of_kind(records, "tool");
    let groups = groups_of(
        &reg,
        "tool",
        &records,
        &Query { group_by: Some("agent_id"), ..query(0, 0, None) },
    );
    let count = |key: Option<&str>| {
        groups.iter().find(|g| g.key.as_deref() == key).map(|g| g.rows.len())
    };
    assert_eq!(count(Some("a9")), Some(2), "the subagent's two calls");
    assert_eq!(
        count(None),
        Some(1),
        "the main agent's call carries no agent_id and is not invented one"
    );
}

#[test]
fn a_failed_call_and_a_returning_one_land_in_the_same_kind() {
    let reg = core_registry();
    let mut records = vec![];
    for (event_name, use_id) in
        [("PostToolUse", "t1"), ("PostToolUse", "t2"), ("PostToolUseFailure", "t3")]
    {
        records.extend(fire(
            &format!(
                r#"{{"hook_event_name":"{event_name}","session_id":"S","cwd":"/tmp/x",
                    "tool_name":"Bash","tool_use_id":"{use_id}","duration_ms":10}}"#
            ),
            &reg,
            "",
        ));
    }
    let records = of_kind(records, "tool");
    let groups = groups_of(&reg, "tool", &records, &query(0, 0, None));
    assert_eq!(groups.len(), 1);
    assert_eq!(groups[0].key.as_deref(), Some("Bash"));
    assert_eq!(groups[0].rows.len(), 3, "three calls");
    assert_eq!(
        summed(&records, &groups[0].rows, "ok"),
        2.0,
        "two of the three returned"
    );
}

#[test]
fn one_call_delivered_twice_counts_once() {
    let reg = core_registry();
    let mut records = vec![];
    for _ in 0..2 {
        records.extend(fire(
            r#"{"hook_event_name":"PostToolUse","session_id":"S","cwd":"/tmp/x",
                "tool_name":"Read","tool_use_id":"t1","duration_ms":7}"#,
            &reg,
            "",
        ));
    }
    let records = of_kind(records, "tool");
    let groups = groups_of(&reg, "tool", &records, &query(0, 0, None));
    assert_eq!(groups[0].rows.len(), 1);
    assert_eq!(
        summed(&records, &groups[0].rows, "duration_ms"),
        7.0,
        "the duplicate does not double the duration"
    );
}

#[test]
fn a_command_record_keeps_the_name_and_nothing_the_operator_typed() {
    let recs = of_kind(
        fire(
            r#"{"hook_event_name":"UserPromptExpansion","session_id":"S","cwd":"/tmp/x",
                "prompt_id":"P1","expansion_type":"slash_command","command_name":"hatel",
                "command_args":"a secret argument","prompt":"/hatel a secret argument"}"#,
            &core_registry(),
            "",
        ),
        "command",
    );
    assert_eq!(recs.len(), 1);
    assert_eq!(text(&recs[0], "command_name"), Some("hatel"));
    for leaked in ["command_args", "prompt", "expansion_type"] {
        assert!(get(&recs[0].payload, leaked).is_none(), "{leaked} must not be stored");
    }
}

#[test]
fn one_turn_joins_its_records_across_kinds() {
    let reg = core_registry();
    let mut records = vec![];
    for event in [
        r#"{"hook_event_name":"UserPromptSubmit","session_id":"S","cwd":"/tmp/x",
            "prompt_id":"T1","prompt":"do the thing"}"#,
        r#"{"hook_event_name":"PostToolUse","session_id":"S","cwd":"/tmp/x",
            "prompt_id":"T1","tool_name":"Bash","tool_use_id":"t1","duration_ms":5}"#,
        r#"{"hook_event_name":"SubagentStop","session_id":"S","cwd":"/tmp/x",
            "prompt_id":"T1","agent_id":"a1","agent_type":"general-purpose"}"#,
    ] {
        records.extend(fire(event, &reg, ""));
    }
    for kind in ["prompt", "tool", "subagent"] {
        let own: Vec<Envelope> = records
            .iter()
            .filter(|r| r.kind == kind)
            .map(|r| Envelope::from_json_line(&r.to_json_line()).unwrap())
            .collect();
        let groups = groups_of(
            &reg,
            kind,
            &own,
            &Query { group_by: Some("prompt_id"), ..query(0, 0, None) },
        );
        assert_eq!(groups.len(), 1, "{kind} groups under one turn");
        assert_eq!(
            groups[0].key.as_deref(),
            Some("T1"),
            "{kind} carries the turn it belongs to"
        );
    }
}

#[test]
fn ranking_follows_the_named_measure_not_its_position() {
    let mut groups = vec![
        group("noisy", 9, &[("evaluations", 12_000_000), ("violations", 0)]),
        group("real", 3, &[("evaluations", 21_000), ("violations", 203)]),
    ];
    rank(&mut groups, Some("evaluations"));
    assert_eq!(groups[0].key.as_deref(), Some("noisy"));
    rank(&mut groups, Some("violations"));
    assert_eq!(groups[0].key.as_deref(), Some("real"));
}

#[test]
fn a_measureless_kind_ranks_by_record_count() {
    let mut groups = vec![group("few", 2, &[]), group("many", 40, &[])];
    rank(&mut groups, None);
    assert_eq!(groups[0].key.as_deref(), Some("many"));
}

#[test]
fn cost_rolls_up_by_project_ranked_by_spend() {
    let row = |session: &str, project: &str, cost: &str, tokens: i64| {
        format!(
            "{{\"session_id\":\"{session}\",\"project\":\"{project}\",\"tokens\":{tokens},\
             \"cost_usd\":{cost},\"active_time_s\":1.0,\"lines\":2,\"ts\":\"2026-01-01T00:00:00Z\"}}\n"
        )
    };
    let rows: Vec<CostRow> = read_snapshot(&format!(
        "{}{}{}{}",
        row("s1", "alpha", "1.0", 10),
        row("s2", "beta", "5.0", 20),
        row("s3", "alpha", "9.0", 30),
        row("s4", "", "0.5", 1)
    ));
    let summed: Vec<GroupAgg> = cost_groups(&rows)
        .into_iter()
        .map(|g| {
            let tokens: i64 = g.rows.iter().map(|i| rows[*i].tokens).sum();
            let cost: f64 = g.rows.iter().map(|i| rows[*i].cost_usd.as_f64().unwrap()).sum();
            GroupAgg {
                key: g.key,
                count: g.rows.len() as i64,
                sums: vec![
                    measure("tokens", tokens),
                    Measure {
                        name: "cost_usd".to_string(),
                        sum: Amount {
                            order: (cost * 100.0) as i64,
                            plain: cost.to_string(),
                            value: None,
                        },
                    },
                ],
                share: 0,
            }
        })
        .collect();
    let groups = cost_by_project(summed, 0);
    assert_eq!(groups[0].key.as_deref(), Some("alpha"));
    assert_eq!(groups[0].count, 2, "the group count is sessions");
    assert_eq!(groups[0].sums[0].sum.order, 40, "tokens summed across sessions");
    assert_eq!(groups[0].sums[1].sum.order, 1000);
    assert_eq!(groups[1].key.as_deref(), Some("beta"));
    assert_eq!(groups[2].key.as_deref(), Some(""));
}

#[test]
fn rejects_unknown_top_level_key() {
    let err = refused("tracked_metric = []");
    assert!(err.contains("p.toml"), "unknown top-level schema key must be rejected: {err}");
}

#[test]
fn core_schema_loads_under_deny_unknown_fields() {
    assert!(load_core(CORE_SCHEMA).is_ok());
}

#[test]
fn a_broken_plugin_never_silences_the_others() {
    let (reg, notes) = build_registry_resilient(
        CORE_SCHEMA,
        &vec![
            plugin("pluginz = 1"),
            plugin(EXAMPLE),
            PluginFile { path: "gone.toml".to_string(), text: Err("no such file".to_string()) },
        ],
    );
    assert!(reg.kind("ci_check").is_some() && reg.kind("tool").is_some());
    assert_eq!(notes.len(), 2);
    assert!(notes[1].1.message().contains("read plugin gone.toml: no such file"));
}

#[test]
fn only_the_core_may_leave_a_kind_to_the_receiver() {
    let err = refused(
        "[[kind]]\nname=\"x\"\nfields=[\"a\"]\ngroup_key=\"a\"\nreceiver_sourced=true\n",
    );
    assert!(err.contains("receiver_sourced is core-only"), "got: {err}");
}

#[test]
fn a_record_carries_its_projects_label() {
    let reg = core_registry();
    let bindings = reg.bindings_for("SubagentStop");
    let env = record_at(
        bindings[0],
        &j(r#"{"session_id":"S","agent_type":"x"}"#),
        &reg,
        "alpha",
        true,
        "2026-01-01T00:00:00Z".to_string(),
    )
    .unwrap();
    assert_eq!(text(&env, "project"), Some("alpha"));
    assert_eq!(env.ts, "2026-01-01T00:00:00Z");
    let back = Envelope::from_json_line(&env.to_json_line()).unwrap();
    assert_eq!(back.to_json_line(), env.to_json_line());
}

#[test]
fn a_value_is_matched_by_how_it_prints() {
    assert_eq!(value_text(&j("\"x\"")), "x");
    assert_eq!(value_text(&j("1")), "1");
    assert_eq!(value_text(&j("true")), "true");
    assert_eq!(redacted("x").len(), 16);
    assert_ne!(redacted("x"), redacted("y"));
    assert_eq!(redacted(""), "af1349b9f5f9a1a6");
}

#[test]
fn a_timestamp_has_its_second() {
    assert_eq!(ts_epoch("1970-01-01T00:00:07.9Z"), Some(7));
    assert_eq!(ts_epoch("nope"), None);
    let now = now_epoch();
    assert!((ts_epoch(&now_iso_utc()).unwrap() - now).abs() <= 1);
}

/// The records that an event in a working tree writes.
fn fire_in(event: &str, root: Option<&str>, reg: &Registry, label: &str) -> Vec<Envelope> {
    let mut event = j(event);
    inject_derived(&mut event, root);
    process_event(&event, reg, label, true).into_iter().map(|r| r.unwrap()).collect()
}

#[test]
fn a_skill_the_model_invoked_is_named_and_no_other_tool_input_is_kept() {
    let reg = core_registry();
    let mut recs: Vec<Envelope> = Vec::new();
    for (event, tool, id, input) in [
        ("PostToolUse", "Skill", "t1", "{\"skill\":\"greet\",\"args\":\"a secret\"}"),
        ("PostToolUseFailure", "Skill", "t2", "{\"skill\":\"greet\"}"),
        ("PostToolUse", "mcp__kb__search", "t3", "{\"skill\":\"internal note\"}"),
        ("PostToolUse", "Skill", "t4", "{\"skill\":{\"args\":\"a secret\"}}"),
    ] {
        let e = format!(
            "{{\"hook_event_name\":\"{event}\",\"session_id\":\"S\",\"cwd\":\"/tmp/x\",\
             \"prompt_id\":\"P\",\"tool_name\":\"{tool}\",\"tool_use_id\":\"{id}\",\
             \"duration_ms\":3,\"tool_input\":{input}}}"
        );
        recs.extend(of_kind(fire_in(&e, None, &reg, ""), "tool"));
    }
    let skill_of = |id: &str| {
        let rec = recs.iter().find(|r| text(r, "tool_use_id") == Some(id)).unwrap();
        text(rec, "skill")
    };
    assert_eq!(skill_of("t1"), Some("greet"));
    assert_eq!(skill_of("t2"), Some("greet"));
    assert_eq!(skill_of("t3"), None);
    assert_eq!(skill_of("t4"), None, "a source that is not one value is not stored");
    assert!(recs.iter().all(|r| !r.to_json_line().contains("secret")));
    let filters = [("tool_name".to_string(), "Skill".to_string())];
    let q = Query { group_by: Some("skill"), filters: &filters, ..query(0, 0, None) };
    let groups = groups_of(&reg, "tool", &recs, &q);
    let count = |key: Option<&str>| {
        groups.iter().find(|g| g.key.as_deref() == key).map(|g| g.rows.len())
    };
    assert_eq!(count(Some("greet")), Some(2));
    assert_eq!(
        count(None),
        Some(1),
        "the call whose skill was not one value is still a call, under no skill"
    );
}

#[test]
fn memory_files_are_told_apart_by_their_path_in_the_repository() {
    let reg = core_registry();
    let root = "/work/acme";
    let at = |rel: &str| format!("{root}/{rel}");
    let start = format!(
        "{{\"hook_event_name\":\"InstructionsLoaded\",\"session_id\":\"S\",\"cwd\":\"{}\"",
        at("crates/api")
    );
    let events = [
        format!(
            "{start},\"file_path\":\"{}\",\"memory_type\":\"Project\",\
             \"load_reason\":\"session_start\"}}",
            at("NOTES.md")
        ),
        format!(
            "{start},\"prompt_id\":\"T1\",\"file_path\":\"{}\",\"memory_type\":\"Project\",\
             \"load_reason\":\"nested_traversal\",\"trigger_file_path\":\"{}\"}}",
            at("crates/api/NOTES.md"),
            at("crates/api/src/lib.rs")
        ),
        format!(
            "{start},\"prompt_id\":\"T1\",\"file_path\":\"{}\",\"memory_type\":\"Project\",\
             \"load_reason\":\"include\",\"trigger_file_path\":\"{}\",\
             \"parent_file_path\":\"{}\"}}",
            at("docs/style.md"),
            at("crates/api/src/lib.rs"),
            at("crates/api/NOTES.md")
        ),
    ];
    let recs: Vec<Envelope> = events
        .iter()
        .flat_map(|e| of_kind(fire_in(e, Some(root), &reg, "acme"), "memory"))
        .collect();
    let fields = |i: usize| {
        let mut all: Vec<(&str, &str)> =
            recs[i].payload.iter().map(|(k, v)| (k.as_str(), v.as_str().unwrap())).collect();
        all.sort();
        all
    };
    assert_eq!(recs.len(), 3);
    assert_eq!(
        fields(0),
        [
            ("file_path", "NOTES.md"),
            ("load_reason", "session_start"),
            ("memory_type", "Project"),
            ("project", "acme"),
            ("session_id", "S"),
        ]
    );
    assert_eq!(
        fields(1),
        [
            ("file_path", "crates/api/NOTES.md"),
            ("load_reason", "nested_traversal"),
            ("memory_type", "Project"),
            ("project", "acme"),
            ("prompt_id", "T1"),
            ("session_id", "S"),
            ("trigger_file_path", "crates/api/src/lib.rs"),
        ]
    );
    assert_eq!(
        fields(2),
        [
            ("file_path", "docs/style.md"),
            ("load_reason", "include"),
            ("memory_type", "Project"),
            ("parent_file_path", "crates/api/NOTES.md"),
            ("project", "acme"),
            ("prompt_id", "T1"),
            ("session_id", "S"),
            ("trigger_file_path", "crates/api/src/lib.rs"),
        ]
    );
}

#[test]
fn a_path_outside_the_repository_keeps_only_its_name() {
    let mut event = j("{\"file_path\":\"/home/me/notes/style.md\",\"repo_parent_file_path\":\"own\"}");
    inject_derived(&mut event, Some("/work/acme"));
    assert_eq!(event.get_str("repo_file_path"), Some("style.md"));
    assert_eq!(event.get_str("repo_parent_file_path"), Some("own"), "an own member is kept");
    assert_eq!(event.get_str("invoked_skill"), None);
}

#[test]
fn a_written_row_gives_its_record_back() {
    let env = line("Bash");
    let text = hatel::sink::payload_text(&env);
    let back =
        stored_record(env.ts.clone(), &env.kind, env.schema_version, &text).unwrap();
    assert_eq!(back.to_json_line(), env.to_json_line());
    assert!(stored_record(env.ts.clone(), "tool", 2, &text).is_none());
    assert!(stored_record(env.ts.clone(), "tool", 1, "[]").is_none());
}

#[test]
fn a_plugin_adds_and_never_changes_a_kind() {
    let plugin = PluginFile {
        path: "p.toml".to_string(),
        text: Ok("[[kind]]\nname=\"team.x\"\nfields=[\"a\"]\ngroup_key=\"a\"\n".to_string()),
    };
    let broken = PluginFile {
        path: "q.toml".to_string(),
        text: Ok("[[kind]]\nname=\"tool\"\nfields=[\"a\"]\ngroup_key=\"a\"\n".to_string()),
    };
    let (reg, skipped) = build_registry_resilient(CORE_SCHEMA, &vec![broken, plugin]);
    assert_eq!(skipped.len(), 1);
    assert_eq!(skipped[0].0, "q.toml");
    let before = core_registry();
    for kind in before.kinds() {
        assert_eq!(reg.kind(&kind.name).unwrap().fields, kind.fields);
    }
    assert!(reg.kind("team.x").is_some());
}

#[test]
fn a_redacted_field_is_found_by_its_recorded_value() {
    let plugin = PluginFile {
        path: "p.toml".to_string(),
        text: Ok("[[kind]]\nname=\"team.y\"\nfields=[\"a\",\"who\"]\ngroup_key=\"a\"\n\
                  redact=[\"who\"]\n"
            .to_string()),
    };
    let reg = build_registry(CORE_SCHEMA, &vec![plugin]).unwrap();
    let env = hatel::emit::emit_record(
        "team.y",
        payload("{\"a\":\"x\",\"who\":\"me@example.com\"}"),
        &reg,
        false,
    )
    .unwrap()
    .record;
    assert!(!env.to_json_line().contains("me@example.com"));
    let filters =
        hatel::query::parse_filters(&vec!["who=me@example.com".to_string()], Some("team.y"), &reg)
            .unwrap();
    let q = Query { filters: &filters, ..query(0, 0, None) };
    let records = vec![env];
    let groups = groups_of(&reg, "team.y", &records, &q);
    assert_eq!(groups.len(), 1);
    assert_eq!(groups[0].rows, vec![0]);
}

#[test]
fn an_unreadable_event_is_none_and_a_nameless_one_leads_to_nothing() {
    assert_eq!(event_of("not json"), Json::Null);
    assert!(!is_named(&event_of("not json")));
    assert!(!is_named(&event_of("{\"hook_event_name\":\"\"}")));
    assert!(!is_named(&event_of("{\"hook_event_name\":7}")));
    assert!(is_named(&event_of("{\"hook_event_name\":\"Stop\"}")));
}

#[test]
fn disallowed_keys_are_listed_in_quotes() {
    let keys = vec!["a\"b".to_string(), "c".to_string()];
    let text = Error::DisallowedKeys { kind: "tool".to_string(), keys }.message();
    assert_eq!(text, "disallowed payload keys for kind 'tool': [\"a\\\"b\", \"c\"]");
    let none = Error::DisallowedKeys { kind: "tool".to_string(), keys: vec![] }.message();
    assert_eq!(none, "disallowed payload keys for kind 'tool': []");
}
