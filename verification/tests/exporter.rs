use hatel::export::{ExportMode, ExportTarget, ProjectFilter};
use hatel::exporter::{
    record_drop, reserve, resolve_batch_projects, BatchProjects, OtlpSignal, Outbound, Turn, Worker,
    DEFER_TIMEOUT_MS, EXPORT_QUEUE_CAP, MAX_DEFERRED, MAX_QUEUED_BYTES,
};
use hatel::headers::Headers;
use hatel::json::{parse, Json};
use hatel::rolling::Fingerprint;
use hatel::session::{read_lines, record_line_at};

const ALPHA: &str =
    "{\"session_id\":\"S1\",\"project_key\":\"/k/alpha\",\"project_label\":\"alpha\"}";
const BETA: &str =
    "{\"session_id\":\"S2\",\"project_key\":\"/k/beta\",\"project_label\":\"beta\"}";

fn index_lines(worker: &mut Worker, stamp: i128, lines: &[&str]) {
    let texts: Vec<String> = lines.iter().map(|l| l.to_string()).collect();
    worker.index.refresh(
        Some(Fingerprint { files: 1, bytes: 1, newest: Some(stamp) }),
        &read_lines(&texts),
    );
}

fn metrics_body(sid: &str) -> Vec<u8> {
    format!(
        r#"{{"resourceMetrics":[{{"scopeMetrics":[{{"metrics":[{{
            "name":"claude_code.token.usage",
            "sum":{{"aggregationTemporality":1,"dataPoints":[{{
                "attributes":[{{"key":"session.id","value":{{"stringValue":"{sid}"}}}}],
                "asInt":"10"}}]}}}}]}}]}}]}}"#
    )
    .into_bytes()
}

fn outbound(body: Vec<u8>) -> Outbound {
    Outbound {
        signal: OtlpSignal::Metrics,
        body,
        content_type: Some("application/json".to_string()),
        content_encoding: None,
    }
}

fn target(endpoint: &str, mode: ExportMode, filter: ProjectFilter) -> ExportTarget {
    ExportTarget {
        endpoint: endpoint.to_string(),
        mode,
        filter,
        headers: Headers::new(),
        timeout_ms: Some(2_000),
    }
}

fn only(labels: &[&str]) -> ProjectFilter {
    ProjectFilter::Only(labels.iter().map(|l| l.to_string()).collect())
}

fn sends(turn: &Turn) -> usize {
    turn.dispatches.iter().map(|d| d.sends.len()).sum()
}

fn released(turn: &Turn) -> usize {
    turn.released.iter().sum()
}

#[test]
fn enqueue_never_blocks_and_counts_drops_past_capacity() {
    // Two bodies fit a queue of two bytes' worth of room; every further one is dropped and counted.
    let mut queued = MAX_QUEUED_BYTES - 4;
    let mut dropped: u64 = 0;
    let mut logged = 0;
    for _ in 0..10 {
        match reserve(queued, 2) {
            Some(total) => queued = total,
            None => {
                logged += usize::from(record_drop(dropped).is_some());
                dropped += 1;
            }
        }
    }
    assert!(dropped >= 8, "excess beyond capacity is dropped");
    assert_eq!(logged, 1, "the first drop is said, the next ones are throttled");
    assert_eq!(queued, MAX_QUEUED_BYTES);
    assert!(EXPORT_QUEUE_CAP > 0);
}

#[test]
fn batch_projects_resolves_known_and_fails_closed_on_unknown() {
    let mut worker = Worker::new(vec![], "/state".to_string());
    index_lines(&mut worker, 1, &[ALPHA]);
    match resolve_batch_projects(&worker.index, &outbound(metrics_body("S1"))) {
        BatchProjects::Resolved(p) => {
            assert_eq!(p, vec![("alpha".to_string(), "/k/alpha".to_string())])
        }
        other => panic!("known session should resolve, got {other:?}"),
    }
    match resolve_batch_projects(&worker.index, &outbound(metrics_body("GHOST"))) {
        BatchProjects::Unindexed(missing) => assert_eq!(missing, vec!["GHOST".to_string()]),
        other => panic!("unknown session is unindexed (parkable), got {other:?}"),
    }
    assert!(
        matches!(
            resolve_batch_projects(&worker.index, &outbound(b"\x00proto".to_vec())),
            BatchProjects::Unattributable
        ),
        "non-JSON is unattributable (never retried)"
    );
}

#[test]
fn a_mixed_project_batch_is_forwarded_only_when_every_project_passes() {
    let mut worker = Worker::new(vec![], "/state".to_string());
    index_lines(&mut worker, 1, &[ALPHA, BETA]);
    let body = br#"{"resourceMetrics":[{"scopeMetrics":[{"metrics":[{"sum":{"dataPoints":[
        {"attributes":[{"key":"session.id","value":{"stringValue":"S1"}}]},
        {"attributes":[{"key":"session.id","value":{"stringValue":"S2"}}]}]}}]}]}]}"#;
    let projects = match resolve_batch_projects(&worker.index, &outbound(body.to_vec())) {
        BatchProjects::Resolved(p) => p,
        other => panic!("both sessions are indexed, got {other:?}"),
    };
    assert_eq!(projects.len(), 2, "both sessions resolved");
    let only_alpha = only(&["alpha"]);
    let passes = projects.iter().all(|(label, key)| only_alpha.allows(label, key));
    assert!(!passes, "a batch with a disallowed project (beta) is rejected as a whole");
    worker.targets = vec![target("http://d", ExportMode::Raw, only(&["alpha"]))];
    let turn = worker.handle(outbound(body.to_vec()), 0);
    assert_eq!(sends(&turn), 0);
    worker.targets = vec![target("http://d", ExportMode::Raw, only(&["alpha", "beta"]))];
    let turn = worker.handle(outbound(body.to_vec()), 0);
    assert_eq!(sends(&turn), 1);
}

#[test]
fn an_unindexed_batch_is_parked_then_forwarded_after_the_index_catches_up() {
    let mut worker = Worker::new(
        vec![target("http://d", ExportMode::Raw, only(&["alpha"]))],
        "/state".to_string(),
    );
    let len = metrics_body("S1").len();
    let first = worker.handle(outbound(metrics_body("S1")), 0);
    assert_eq!(worker.deferred.len(), 1, "unindexed batch parked");
    assert_eq!(sends(&first), 0, "nothing forwarded while unresolved");
    assert_eq!(released(&first), 0);
    index_lines(&mut worker, 1, &[ALPHA]);
    let second = worker.handle(outbound(metrics_body("S1")), 10);
    assert!(worker.deferred.is_empty(), "parked batch disposed");
    assert_eq!(
        sends(&second),
        2,
        "the parked batch AND the fresh batch both reached the filtered destination"
    );
    assert_eq!(released(&second), 2 * len, "all bytes released at disposition");
}

#[test]
fn an_unrelated_session_append_does_not_burn_a_parked_body() {
    let mut worker = Worker::new(
        vec![target("http://d", ExportMode::Raw, only(&["alpha", "beta"]))],
        "/state".to_string(),
    );
    worker.handle(outbound(metrics_body("RACER")), 0);
    assert_eq!(worker.deferred.len(), 1);
    let other = "{\"session_id\":\"OTHER\",\"project_key\":\"/k/beta\",\"project_label\":\"beta\"}";
    index_lines(&mut worker, 1, &[other]);
    let turn = worker.handle(outbound(metrics_body("OTHER")), 1);
    assert_eq!(sends(&turn), 1, "OTHER forwarded");
    assert_eq!(
        worker.deferred.len(),
        1,
        "RACER still parked after an unrelated index advance"
    );
    assert_eq!(worker.unresolved_dropped, 0, "nothing dropped");
    let racer =
        "{\"session_id\":\"RACER\",\"project_key\":\"/k/alpha\",\"project_label\":\"alpha\"}";
    index_lines(&mut worker, 2, &[other, racer]);
    let turn = worker.handle(outbound(metrics_body("OTHER")), 2);
    assert!(worker.deferred.is_empty(), "RACER disposed");
    assert_eq!(sends(&turn), 2, "parked RACER and the fresh OTHER batch delivered");
    assert_eq!(
        released(&turn),
        metrics_body("RACER").len() + metrics_body("OTHER").len(),
        "all bytes released"
    );
}

#[test]
fn an_idle_worker_purges_timed_out_parked_bodies_by_itself() {
    let mut worker = Worker::new(
        vec![target("http://127.0.0.1:9", ExportMode::Raw, only(&["alpha"]))],
        "/state".to_string(),
    );
    worker.handle(outbound(metrics_body("GHOST")), 1_000);
    let deadline = worker.deadline().expect("a parked body has a deadline");
    assert_eq!(deadline, 1_000 + DEFER_TIMEOUT_MS);
    let turn = worker.retry_deferred(false, deadline);
    assert_eq!(
        released(&turn),
        metrics_body("GHOST").len(),
        "idle worker released the timed-out parked bytes"
    );
    assert!(worker.deferred.is_empty());
    assert!(worker.deadline().is_none());
}

#[test]
fn parked_batches_fail_closed_at_shutdown_when_never_indexed() {
    let mut worker = Worker::new(
        vec![target("http://127.0.0.1:9", ExportMode::Raw, only(&["alpha"]))],
        "/state".to_string(),
    );
    worker.handle(outbound(metrics_body("GHOST")), 0);
    assert_eq!(worker.deferred.len(), 1, "parked while plausibly racing");
    let turn = worker.retry_deferred(true, 1);
    assert!(worker.deferred.is_empty(), "nothing stays parked");
    assert_eq!(worker.unresolved_dropped, 1, "the drop is counted");
    assert_eq!(released(&turn), metrics_body("GHOST").len(), "bytes released");
    assert_eq!(sends(&turn), 0);
}

#[test]
fn enriched_forward_injects_project_to_downstream() {
    let mut worker = Worker::new(
        vec![target("http://d:4318", ExportMode::Enriched, ProjectFilter::All)],
        "/state".to_string(),
    );
    assert!(worker.index_needed());
    index_lines(&mut worker, 1, &[ALPHA]);
    let turn = worker.handle(outbound(metrics_body("S1")), 0);
    let send = &turn.dispatches[0].sends[0];
    assert_eq!(send.url, "http://d:4318/v1/metrics");
    assert_eq!(send.content_type, "application/json");
    assert_eq!(send.timeout_ms, 2_000);
    let v = parse(send.enriched.as_ref().expect("an enriched body")).unwrap();
    let mut cur = &v;
    for step in ["resourceMetrics", "0", "scopeMetrics", "0", "metrics", "0", "sum", "dataPoints", "0"]
    {
        cur = match cur {
            Json::Array(items) => &items[step.parse::<usize>().unwrap()],
            _ => cur.get(step).unwrap(),
        };
    }
    let project = match cur.get("attributes") {
        Some(Json::Array(items)) => items
            .iter()
            .find(|a| a.get_str("key") == Some("project"))
            .and_then(|a| a.get("value"))
            .and_then(|v| v.get_str("stringValue")),
        _ => None,
    };
    assert_eq!(project, Some("alpha"), "downstream got the project-enriched body");
}

#[test]
fn a_body_that_cannot_be_enriched_is_not_sent_raw_to_an_enriched_target() {
    let mut worker = Worker::new(
        vec![
            target("http://enriched", ExportMode::Enriched, ProjectFilter::All),
            target("http://raw", ExportMode::Raw, ProjectFilter::All),
        ],
        "/state".to_string(),
    );
    let turn = worker.handle(outbound(b"\x00proto".to_vec()), 0);
    let urls: Vec<&str> =
        turn.dispatches.iter().flat_map(|d| d.sends.iter()).map(|s| s.url.as_str()).collect();
    assert_eq!(urls, vec!["http://raw/v1/metrics"]);
    assert_eq!(turn.logs.len(), 1, "the skip is said once");
    let again = worker.handle(outbound(b"\x00proto".to_vec()), 0);
    assert!(again.logs.is_empty());
}

#[test]
fn waiting_bodies_stay_within_their_bound() {
    let mut worker = Worker::new(
        vec![target("http://d", ExportMode::Raw, only(&["alpha"]))],
        "/state".to_string(),
    );
    for i in 0..(MAX_DEFERRED + 3) {
        worker.handle(outbound(metrics_body(&format!("G{i}"))), 0);
    }
    assert!(worker.deferred.len() <= MAX_DEFERRED);
    assert_eq!(worker.unresolved_dropped, 3);
}

#[test]
fn a_restricted_target_never_gets_a_body_without_a_session() {
    let mut worker = Worker::new(
        vec![
            target("http://open", ExportMode::Raw, ProjectFilter::All),
            target("http://closed", ExportMode::Raw, ProjectFilter::Except(vec!["x".to_string()])),
        ],
        "/state".to_string(),
    );
    let turn = worker.handle(outbound(b"\x00proto".to_vec()), 0);
    let urls: Vec<&str> =
        turn.dispatches.iter().flat_map(|d| d.sends.iter()).map(|s| s.url.as_str()).collect();
    assert_eq!(urls, vec!["http://open/v1/metrics"]);
    assert!(worker.deferred.is_empty());
}

#[test]
fn the_signals_have_their_paths() {
    assert_eq!(OtlpSignal::Metrics.path(), "/v1/metrics");
    assert_eq!(OtlpSignal::Logs.path(), "/v1/logs");
}

#[test]
fn a_session_without_a_project_is_decided_and_holds_nothing_back() {
    let targets = vec![target("http://c:4318", ExportMode::Raw, only(&["alpha"]))];
    let mut worker = Worker::new(targets, "/state".to_string());
    let bare = record_line_at("S9", &None, "2026-01-01T00:00:00Z");
    index_lines(&mut worker, 1, &[ALPHA, &bare]);
    assert!(matches!(
        resolve_batch_projects(&worker.index, &outbound(metrics_body("S9"))),
        BatchProjects::Unattributable
    ));
    let turn = worker.handle(outbound(metrics_body("S9")), 0);
    assert_eq!((sends(&turn), worker.deferred.len()), (0, 0));
    assert_eq!(released(&turn), metrics_body("S9").len());
    let turn = worker.handle(outbound(metrics_body("LATE")), 0);
    assert_eq!((sends(&turn), worker.deferred.len()), (0, 1), "an unseen one is waited for");
    let late = record_line_at("LATE", &None, "2026-01-01T00:00:01Z");
    index_lines(&mut worker, 2, &[ALPHA, &bare, &late]);
    let turn = worker.retry_deferred(false, 1);
    assert_eq!((sends(&turn), worker.deferred.len()), (0, 0));
    assert_eq!(worker.unresolved_dropped, 0, "its session was seen");
}
