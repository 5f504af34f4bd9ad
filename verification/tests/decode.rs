use hatel::decode::{
    normalize, parse_events, parse_logs, parse_metrics, parse_tool_results, Reading,
};

fn followed() -> Vec<String> {
    vec!["claude_code.token.usage".to_string()]
}

fn amount(r: &Reading) -> f64 {
    match r {
        Reading::Text(t) => t.parse().unwrap(),
        Reading::Number(n) => n.as_f64().unwrap(),
        Reading::Nothing => 0.0,
    }
}

fn metric(kind: &str) -> String {
    format!(
        r#"{{"resourceMetrics":[{{"scopeMetrics":[{{"metrics":[{{
            "name":"claude_code.token.usage",{kind}}}]}}]}}]}}"#
    )
}

#[test]
fn delta_sum_attributes_to_session_and_folds_series() {
    let body = metric(
        r#""sum":{"aggregationTemporality":1,"dataPoints":[{
            "attributes":[
                {"key":"session.id","value":{"stringValue":"S1"}},
                {"key":"type","value":{"stringValue":"output"}}],
            "asInt":"100"}]}"#,
    );
    let points = parse_metrics(body.as_bytes(), &followed()).unwrap();
    assert_eq!(points.len(), 1);
    assert_eq!(points[0].session_id, "S1");
    assert_eq!(amount(&points[0].value), 100.0);
    assert!(points[0].delta);
    assert_eq!(points[0].series, vec![("type".to_string(), "output".to_string())]);
}

#[test]
fn tool_result_decodes_duration_and_outcome() {
    let body = r#"{"resourceLogs":[{"scopeLogs":[{"logRecords":[
        {"attributes":[
            {"key":"event.name","value":{"stringValue":"claude_code.tool_result"}},
            {"key":"session.id","value":{"stringValue":"S1"}},
            {"key":"tool_name","value":{"stringValue":"Bash"}},
            {"key":"duration_ms","value":{"intValue":"23"}},
            {"key":"success","value":{"boolValue":true}}]},
        {"attributes":[
            {"key":"event.name","value":{"stringValue":"claude_code.tool_result"}},
            {"key":"session.id","value":{"stringValue":"S1"}},
            {"key":"tool_name","value":{"stringValue":"Edit"}},
            {"key":"duration_ms","value":{"doubleValue":5.0}},
            {"key":"success","value":{"stringValue":"false"}}]},
        {"attributes":[
            {"key":"event.name","value":{"stringValue":"claude_code.tool_decision"}},
            {"key":"session.id","value":{"stringValue":"S1"}}]}]}]}]}"#;
    let r = parse_tool_results(body.as_bytes()).unwrap();
    assert_eq!(r.len(), 2);
    assert_eq!(r[0].session_id, "S1");
    assert_eq!(r[0].tool_name, "Bash");
    assert_eq!(amount(&r[0].duration), 23.0);
    assert!(r[0].ok);
    assert_eq!(r[1].session_id, "S1");
    assert_eq!(r[1].tool_name, "Edit");
    assert_eq!(amount(&r[1].duration), 5.0);
    assert!(!r[1].ok);
}

#[test]
fn tool_result_without_success_attribute_is_a_success() {
    let body = r#"{"resourceLogs":[{"scopeLogs":[{"logRecords":[{"attributes":[
        {"key":"event.name","value":{"stringValue":"tool_result"}},
        {"key":"session.id","value":{"stringValue":"S1"}},
        {"key":"tool_name","value":{"stringValue":"Read"}},
        {"key":"duration_ms","value":{"intValue":"9"}}]}]}]}]}"#;
    let r = parse_tool_results(body.as_bytes()).unwrap();
    assert_eq!(r.len(), 1);
    assert!(r[0].ok, "absent success defaults to ok");
}

#[test]
fn enum_named_temporality_is_delta() {
    let body = metric(
        r#""sum":{"aggregationTemporality":"AGGREGATION_TEMPORALITY_DELTA","dataPoints":[{
            "attributes":[{"key":"session.id","value":{"stringValue":"S"}}],"asInt":"3"}]}"#,
    );
    assert!(parse_metrics(body.as_bytes(), &followed()).unwrap()[0].delta);
}

#[test]
fn missing_temporality_reads_as_cumulative() {
    let body = metric(
        r#""sum":{"dataPoints":[{
            "attributes":[{"key":"session.id","value":{"stringValue":"S"}}],"asInt":"7"}]}"#,
    );
    let points = parse_metrics(body.as_bytes(), &followed()).unwrap();
    assert_eq!(points.len(), 1);
    assert!(!points[0].delta, "absent temporality is cumulative");
}

#[test]
fn gauge_is_not_delta() {
    let body = metric(
        r#""gauge":{"dataPoints":[{
            "attributes":[{"key":"session.id","value":{"stringValue":"S"}}],"asDouble":5.0}]}"#,
    );
    let points = parse_metrics(body.as_bytes(), &followed()).unwrap();
    assert_eq!(points.len(), 1);
    assert!(!points[0].delta);
    assert_eq!(amount(&points[0].value), 5.0);
}

#[test]
fn datapoint_without_session_is_dropped() {
    let body = metric(
        r#""sum":{"aggregationTemporality":1,"dataPoints":[{"attributes":[],"asInt":"9"}]}"#,
    );
    assert!(parse_metrics(body.as_bytes(), &followed()).unwrap().is_empty());
}

#[test]
fn events_match_on_normalized_name() {
    let counted = vec!["skill_activated".to_string()];
    let body = r#"{"resourceLogs":[{"scopeLogs":[{"logRecords":[{"attributes":[
        {"key":"event.name","value":{"stringValue":"claude_code.skill_activated"}},
        {"key":"session.id","value":{"stringValue":"S1"}}]}]}]}]}"#;
    let pairs = parse_events(body.as_bytes(), &counted).unwrap();
    assert_eq!(pairs, vec![("S1".to_string(), "skill_activated".to_string())]);
}

#[test]
fn malformed_body_is_an_error_not_an_empty_batch() {
    assert!(parse_metrics(b"not json", &followed()).is_err());
    assert!(parse_events(b"\x00\x01protobuf", &vec![]).is_err());
    assert!(parse_metrics(b"{}", &followed()).unwrap().is_empty());
}

#[test]
fn an_untracked_metric_is_left_out() {
    let body = metric(
        r#""sum":{"dataPoints":[{
            "attributes":[{"key":"session.id","value":{"stringValue":"S"}}],"asInt":"7"}]}"#,
    );
    assert!(parse_metrics(body.as_bytes(), &vec!["other".to_string()]).unwrap().is_empty());
    assert_eq!(normalize("claude_code.token.usage"), "token.usage");
    assert_eq!(normalize("token.usage"), "token.usage");
}

#[test]
fn a_series_value_prints_whatever_type_it_has() {
    let body = metric(
        r#""sum":{"dataPoints":[{
            "attributes":[
                {"key":"session.id","value":{"stringValue":"S"}},
                {"key":"a","value":{"intValue":"4"}},
                {"key":"b","value":{"boolValue":true}},
                {"key":"c","value":{"doubleValue":2.5}}],
            "asInt":"7"}]}"#,
    );
    let points = parse_metrics(body.as_bytes(), &followed()).unwrap();
    assert_eq!(
        points[0].series,
        vec![
            ("a".to_string(), "4".to_string()),
            ("b".to_string(), "true".to_string()),
            ("c".to_string(), "2.5".to_string()),
        ]
    );
}

#[test]
fn one_walk_gives_events_and_outcomes() {
    let body = r#"{"resourceLogs":[{"scopeLogs":[{"logRecords":[
        {"attributes":[
            {"key":"event.name","value":{"stringValue":"claude_code.user_prompt"}},
            {"key":"session.id","value":{"stringValue":"S1"}}]},
        {"attributes":[
            {"key":"event.name","value":{"stringValue":"claude_code.tool_result"}},
            {"key":"session.id","value":{"stringValue":"S1"}},
            {"key":"tool_name","value":{"stringValue":"Read"}}]}]}]}]}"#;
    let logs = parse_logs(body.as_bytes(), &vec!["user_prompt".to_string()]).unwrap();
    assert_eq!(logs.events, vec![("S1".to_string(), "user_prompt".to_string())]);
    assert_eq!(logs.tool_results.len(), 1);
}

#[test]
fn a_body_may_give_its_fields_by_position() {
    let named = metric(
        r#""sum":{"aggregationTemporality":1,"dataPoints":[{"asInt":"42","attributes":[
            {"key":"session.id","value":{"stringValue":"S1"}}]}]}"#,
    );
    let positions = r#"[[[[[[["claude_code.token.usage",
        [1,[[[["session.id",["S1"]]],"42"]]]]]]]]]]"#;
    let a = parse_metrics(named.as_bytes(), &followed()).unwrap();
    let b = parse_metrics(positions.as_bytes(), &followed()).unwrap();
    assert_eq!((a.len(), b.len()), (1, 1));
    assert_eq!(a[0].session_id, b[0].session_id);
    assert_eq!(amount(&b[0].value), 42.0);
    assert!(b[0].delta);
    assert!(parse_metrics(b"[]", &followed()).unwrap().is_empty());
    assert!(parse_metrics(b"[[],[]]", &followed()).is_err(), "a body has one field");
}
