use hatel::clock::{now_epoch, now_iso_utc};
use hatel::cost::read_snapshot;
use hatel::emit::{build_payload, check_kind, emit_record, parse_json_object, parse_pairs};
use hatel::json::{compact, parse, Json};
use hatel::model::Payload;
use hatel::pii::redacted;
use hatel::query::{kinds_text, kinds_value, parse_filters, parse_query, report_json};
use hatel::registry::Registry;
use hatel::report::{Answer, Query, Report};
use hatel::schema::{build_registry, load_core, PluginFile, CORE_SCHEMA};

const EXAMPLE: &str = r#"
[[kind]]
name = "ci_check"
fields = ["check", "date", "runs", "failures", "actor"]
group_key = "check"
measures = ["runs", "failures"]
redact = ["actor"]

[[kind]]
name = "branch_work"
fields = ["session_id", "project", "branch"]
group_key = "branch"
"#;

fn core_registry() -> Registry {
    load_core(CORE_SCHEMA).unwrap()
}

fn with_example() -> Registry {
    build_registry(
        CORE_SCHEMA,
        &vec![PluginFile { path: "example.toml".to_string(), text: Ok(EXAMPLE.to_string()) }],
    )
    .unwrap()
}

fn get<'a>(p: &'a Payload, key: &str) -> Option<&'a Json> {
    p.iter().find(|(k, _)| k == key).map(|(_, v)| v)
}

fn query<'a>(since: i64, project: Option<&'a str>, kind: Option<&'a str>) -> Query<'a> {
    Query { since, top_n: 0, project, kind, group_by: None, sort_by: None, filters: &[] }
}

fn strings(v: &[&str]) -> Vec<String> {
    v.iter().map(|s| s.to_string()).collect()
}

#[test]
fn cost_rows_honor_window_and_project() {
    let row = |sid: &str, proj: &str, ts: &str| {
        format!(
            "{{\"session_id\":\"{sid}\",\"project\":\"{proj}\",\"tokens\":1,\"cost_usd\":0.0,\
             \"active_time_s\":0.0,\"lines\":0,\"ts\":\"{ts}\"}}"
        )
    };
    let now = now_iso_utc();
    let snapshot = read_snapshot(&format!(
        "{}\n{}\n{}\n",
        row("old", "alpha", "2000-01-01T00:00:00Z"),
        row("recent", "alpha", &now),
        row("other", "beta", &now),
    ));
    let reg = Registry::new();
    let since = now_epoch() - 86_400;
    let cost = |project| {
        Report::build(&reg, "1d", &query(since, project, None), &vec![], &snapshot, &vec![]).cost
    };
    assert_eq!(cost(None).len(), 2, "old row outside window dropped");
    let alpha = cost(Some("alpha"));
    assert_eq!(alpha.len(), 1);
    assert_eq!(alpha[0].session_id, "recent");
}

#[test]
fn pairs_split_string_and_json_by_separator() {
    let p = parse_pairs(&strings(&["check=lint", "runs:=14000", "ok:=true", "note=a:=b"])).unwrap();
    assert_eq!(compact(get(&p, "check").unwrap()), "\"lint\"");
    assert_eq!(compact(get(&p, "runs").unwrap()), "14000");
    assert_eq!(compact(get(&p, "ok").unwrap()), "true");
    assert_eq!(compact(get(&p, "note").unwrap()), "\"a:=b\"");
}

#[test]
fn pair_without_separator_or_key_is_an_error() {
    assert!(parse_pairs(&strings(&["lonely"])).is_err());
    assert!(parse_pairs(&strings(&["=novalue"])).is_err());
}

#[test]
fn typed_pair_with_bad_json_errors() {
    assert!(parse_pairs(&strings(&["n:=not-json"])).is_err());
}

#[test]
fn filter_flag_requires_kind() {
    let reg = core_registry();
    assert!(
        parse_query(&reg, None, None, None, &strings(&["tool_name=b"])).is_err(),
        "--filter without --kind must be rejected"
    );
    assert!(parse_query(&reg, Some("tool"), None, None, &strings(&["tool_name=b"])).is_ok());
}

#[test]
fn parse_filters_validates_fields_against_the_allow_list() {
    let reg = core_registry();
    assert_eq!(
        parse_filters(&strings(&["tool_name=Bash"]), Some("tool"), &reg).unwrap(),
        vec![("tool_name".to_string(), "Bash".to_string())]
    );
    let err = parse_filters(&strings(&["nope=1"]), Some("tool"), &reg).unwrap_err();
    assert!(err.contains("accepted fields"), "got: {err}");
    assert!(parse_filters(&strings(&["broken"]), Some("tool"), &reg).is_err());
    assert!(parse_filters(&strings(&["=v"]), Some("tool"), &reg).is_err());
}

#[test]
fn parse_filters_maps_a_redacted_field_to_its_stored_form() {
    let reg = with_example();
    let parsed =
        parse_filters(&strings(&["actor=alice@example.com"]), Some("ci_check"), &reg).unwrap();
    assert_eq!(parsed[0].0, "actor");
    assert_ne!(
        parsed[0].1, "alice@example.com",
        "the raw identity is never used for matching"
    );
    assert_eq!(parsed[0].1, redacted("alice@example.com"));
}

#[test]
fn report_json_kind_filter_scopes_to_one_kind() {
    let reg = core_registry();
    let row = "{\"session_id\":\"S\",\"project\":\"p\",\"tokens\":1,\"cost_usd\":0.5,\
               \"active_time_s\":0.0,\"lines\":0,\"ts\":\"2026-01-01T00:00:00Z\"}\n";
    let snapshot = read_snapshot(row);
    let kinds_of = |kind: Option<&'static str>| {
        let q = query(0, None, kind);
        let answers: Vec<Answer> = hatel::report::plan(&reg, &q)
            .iter()
            .map(|_| Answer { retained_since: None, groups: vec![] })
            .collect();
        let text = report_json(&Report::build(&reg, "7d", &q, &answers, &snapshot, &vec![]));
        assert!(text.ends_with("}\n"));
        let v = parse(&text).unwrap();
        let kinds: Vec<String> = match v.get("kinds") {
            Some(Json::Array(items)) => {
                items.iter().map(|k| k.get_str("kind").unwrap().to_string()).collect()
            }
            _ => panic!("no kinds"),
        };
        let cost = match v.get("cost") {
            Some(Json::Array(items)) => items.len(),
            _ => panic!("no cost"),
        };
        (kinds, cost)
    };
    let (full, cost) = kinds_of(None);
    assert!(full.contains(&"tool".to_string()), "full report lists every Kind: {full:?}");
    assert!(full.len() > 1);
    assert_eq!(cost, 1);
    let (scoped, cost) = kinds_of(Some("tool"));
    assert_eq!(scoped, vec!["tool".to_string()], "--kind scopes to exactly that Kind");
    assert_eq!(cost, 0);
}

#[test]
fn a_query_may_only_group_by_a_field_and_sort_by_a_measure() {
    let reg = core_registry();
    assert!(parse_query(&reg, Some("tool"), Some("agent_id"), Some("ok"), &vec![]).is_ok());
    assert!(parse_query(&reg, Some("tool"), Some("nope"), None, &vec![]).is_err());
    assert!(parse_query(&reg, Some("tool"), None, Some("tool_name"), &vec![]).is_err());
    assert!(parse_query(&reg, None, Some("agent_id"), None, &vec![]).is_err());
    assert!(parse_query(&reg, Some("nope"), None, None, &vec![]).is_err());
}

#[test]
fn kinds_are_listed_with_their_fields() {
    let reg = with_example();
    let text = kinds_text(&reg);
    assert!(text.contains(
        "ci_check       group_key=check        fields=[actor, check, date, failures, runs]\n"
    ), "got: {text}");
    let value = compact(&kinds_value(&reg));
    assert!(value.contains("\"redact\":[\"actor\"]"), "got: {value}");
    assert!(value.contains("\"measures\":[\"runs\",\"failures\"]"));
}

#[test]
fn a_payload_comes_from_pairs_or_an_object_or_the_input() {
    let p = build_payload(&strings(&["check=lint"]), None, "").unwrap();
    assert_eq!(p.len(), 1);
    let p = build_payload(&vec![], Some("{\"check\":\"lint\",\"runs\":1}"), "").unwrap();
    assert_eq!(p.len(), 2);
    let p = build_payload(&vec![], None, "{\"check\":\"lint\"}").unwrap();
    assert_eq!(get(&p, "check").and_then(|v| v.as_str()), Some("lint"));
    assert!(parse_json_object("[1]").is_err());
    assert!(parse_json_object("nope").is_err());
}

#[test]
fn a_dropped_field_is_warned_about_and_an_unknown_kind_is_refused() {
    let reg = with_example();
    let payload = parse_json_object("{\"check\":\"lint\",\"secret\":\"leak\"}").unwrap();
    let emitted = emit_record("ci_check", payload, &reg, false).unwrap();
    assert!(get(&emitted.record.payload, "secret").is_none());
    let warning = emitted.warning.expect("a warning");
    assert!(warning.contains("secret"), "got: {warning}");
    assert!(check_kind("ci_check", &reg).is_none());
    let refused = check_kind("nope", &reg).expect("a refusal");
    assert!(refused.contains("nope") && refused.contains("ci_check"), "got: {refused}");
    let payload = parse_json_object("{\"check\":\"lint\"}").unwrap();
    assert!(emit_record("nope", payload, &reg, false).is_err());
}
