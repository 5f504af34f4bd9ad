use hatel::json::{compact, parse, Json};
use hatel::rolling::Fingerprint;
use hatel::session::{read_lines, SessionIndexCache};
use hatel::transform::{enrich_logs, enrich_metrics, session_ids};

fn index(pairs: &[(&str, &str)]) -> SessionIndexCache {
    let lines: Vec<String> = pairs
        .iter()
        .map(|(s, label)| {
            format!(
                "{{\"session_id\":\"{s}\",\"project_key\":\"/k/{label}\",\"project_label\":\"{label}\"}}"
            )
        })
        .collect();
    let mut cache = SessionIndexCache::new("/state".to_string());
    cache.refresh(
        Some(Fingerprint { files: 1, bytes: 1, newest: Some(1) }),
        &read_lines(&lines),
    );
    cache
}

fn at<'a>(v: &'a Json, path: &[&str]) -> &'a Json {
    let mut cur = v;
    for p in path {
        cur = match cur {
            Json::Array(items) => &items[p.parse::<usize>().unwrap()],
            _ => cur.get(p).unwrap(),
        };
    }
    cur
}

fn attributes(point: &Json) -> &Vec<Json> {
    match point.get("attributes") {
        Some(Json::Array(v)) => v,
        _ => panic!("no attributes"),
    }
}

fn project_of(point: &Json) -> Option<String> {
    attributes(point)
        .iter()
        .find(|a| a.get_str("key") == Some("project"))
        .map(|a| at(a, &["value", "stringValue"]).as_str().unwrap().to_string())
}

fn metrics_body(points: &str) -> Vec<u8> {
    format!(
        r#"{{"resourceMetrics":[{{"scopeMetrics":[{{"metrics":[{{
            "name":"claude_code.token.usage",
            "sum":{{"aggregationTemporality":1,"dataPoints":{points}}}}}]}}]}}]}}"#
    )
    .into_bytes()
}

fn point(session: &str) -> String {
    format!(
        r#"{{"attributes":[{{"key":"session.id","value":{{"stringValue":"{session}"}}}}],"asInt":"1"}}"#
    )
}

fn data_points(body: &str) -> Vec<Json> {
    let v = parse(body).unwrap();
    match at(&v, &["resourceMetrics", "0", "scopeMetrics", "0", "metrics", "0", "sum", "dataPoints"])
    {
        Json::Array(items) => items.clone(),
        _ => panic!("no data points"),
    }
}

#[test]
fn injects_project_at_datapoint_level() {
    let body = metrics_body(
        r#"[{"attributes":[{"key":"session.id","value":{"stringValue":"S1"}}],"asInt":"100"}]"#,
    );
    let out = enrich_metrics(&body, &index(&[("S1", "alpha")])).unwrap();
    assert_eq!(project_of(&data_points(&out)[0]).as_deref(), Some("alpha"));
}

#[test]
fn multi_session_batch_enriches_each_independently() {
    let body = metrics_body(&format!("[{},{}]", point("S1"), point("S2")));
    let out = enrich_metrics(&body, &index(&[("S1", "alpha"), ("S2", "beta")])).unwrap();
    let dps = data_points(&out);
    assert_eq!(project_of(&dps[0]).as_deref(), Some("alpha"));
    assert_eq!(project_of(&dps[1]).as_deref(), Some("beta"));
}

#[test]
fn unknown_session_leaves_that_datapoint_unenriched() {
    let body = metrics_body(&format!("[{}]", point("ghost")));
    let out = enrich_metrics(&body, &index(&[("S1", "alpha")])).unwrap();
    assert_eq!(project_of(&data_points(&out)[0]), None, "no label is fabricated");
}

#[test]
fn datapoint_without_session_is_untouched() {
    let body = metrics_body(r#"[{"attributes":[],"asInt":"1"}]"#);
    let out = enrich_metrics(&body, &index(&[("S1", "alpha")])).unwrap();
    assert_eq!(project_of(&data_points(&out)[0]), None);
}

#[test]
fn existing_project_is_not_duplicated() {
    let body = metrics_body(
        r#"[{"attributes":[
            {"key":"session.id","value":{"stringValue":"S1"}},
            {"key":"project","value":{"stringValue":"preset"}}],"asInt":"1"}]"#,
    );
    let out = enrich_metrics(&body, &index(&[("S1", "alpha")])).unwrap();
    let dps = data_points(&out);
    let projects = attributes(&dps[0])
        .iter()
        .filter(|a| a.get_str("key") == Some("project"))
        .count();
    assert_eq!(projects, 1, "no duplicate project attribute");
    assert_eq!(
        project_of(&dps[0]).as_deref(),
        Some("preset"),
        "the existing value is kept"
    );
}

#[test]
fn unknown_and_resource_fields_round_trip() {
    let body = r#"{"resourceMetrics":[{
        "resource":{"attributes":[{"key":"host.name","value":{"stringValue":"mac"}}]},
        "scopeMetrics":[{
            "scope":{"name":"agent","version":"1.2.3"},
            "metrics":[{
                "name":"claude_code.token.usage",
                "sum":{"aggregationTemporality":1,"isMonotonic":true,"dataPoints":[{
                    "attributes":[{"key":"session.id","value":{"stringValue":"S1"}}],
                    "asInt":"5","timeUnixNano":"123","exemplars":[]}]}}]}]}]}"#;
    let out = enrich_metrics(body.as_bytes(), &index(&[("S1", "alpha")])).unwrap();
    let v = parse(&out).unwrap();
    let first = at(&v, &["resourceMetrics", "0"]);
    assert_eq!(
        at(first, &["resource", "attributes", "0"]).get_str("key"),
        Some("host.name")
    );
    assert_eq!(
        at(first, &["scopeMetrics", "0", "scope"]).get_str("version"),
        Some("1.2.3")
    );
    let sum = at(first, &["scopeMetrics", "0", "metrics", "0", "sum"]);
    let dp = at(sum, &["dataPoints", "0"]);
    assert_eq!(dp.get_str("timeUnixNano"), Some("123"));
    assert_eq!(compact(sum.get("isMonotonic").unwrap()), "true");
    assert_eq!(project_of(dp).as_deref(), Some("alpha"));
}

#[test]
fn enrich_logs_injects_into_records() {
    let body = r#"{"resourceLogs":[{"scopeLogs":[{"logRecords":[{"attributes":[
        {"key":"event.name","value":{"stringValue":"claude_code.user_prompt"}},
        {"key":"session.id","value":{"stringValue":"S1"}}]}]}]}]}"#;
    let out = enrich_logs(body.as_bytes(), &index(&[("S1", "alpha")])).unwrap();
    let v = parse(&out).unwrap();
    let rec = at(&v, &["resourceLogs", "0", "scopeLogs", "0", "logRecords", "0"]);
    assert_eq!(project_of(rec).as_deref(), Some("alpha"));
}

#[test]
fn non_json_body_is_an_error() {
    assert!(enrich_metrics(b"not json", &index(&[])).is_err());
    assert!(enrich_logs(b"\x00\x01proto", &index(&[])).is_err());
}

#[test]
fn session_ids_collects_distinct_across_datapoints() {
    let body = metrics_body(&format!("[{},{},{}]", point("S1"), point("S2"), point("S1")));
    let ids = session_ids(&body, true).unwrap();
    assert_eq!(ids.len(), 2);
    assert!(ids.contains(&"S1".to_string()) && ids.contains(&"S2".to_string()));
}

#[test]
fn session_ids_none_for_non_json_some_empty_for_sessionless() {
    assert!(session_ids(b"\x00proto", true).is_none(), "non-JSON is None");
    let body = metrics_body(r#"[{"attributes":[],"asInt":"1"}]"#);
    assert!(
        session_ids(&body, true).unwrap().is_empty(),
        "parseable but sessionless is an empty set"
    );
}

#[test]
fn enriching_twice_is_enriching_once() {
    let cache = index(&[("S1", "alpha")]);
    let once = enrich_metrics(&metrics_body(&format!("[{}]", point("S1"))), &cache).unwrap();
    let twice = enrich_metrics(once.as_bytes(), &cache).unwrap();
    assert_eq!(once, twice);
    assert_eq!(session_ids(once.as_bytes(), true).unwrap(), vec!["S1".to_string()]);
}
