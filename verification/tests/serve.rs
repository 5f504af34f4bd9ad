use hatel::cost::{read_snapshot, Spend};
use hatel::export::{ExportMode, ExportTarget, ProjectFilter};
use hatel::headers::Headers;
use hatel::json::parse;
use hatel::rolling::Fingerprint;
use hatel::schema::{load_core, CORE_SCHEMA};
use hatel::serve::{
    add_baseline, agent_rows, buffer_tool_results, continued_row, forwarding_line, index_pruned,
    ledger_pruned, live_view, passes_filter, persist_tool, prune_due, record_tool_drop, tool_payload, tool_record_at,
    totals_fit, truncate, AgentRow, Attributed, BufferedTool, Focus, Listing, Totals,
    MAX_TOOL_BUFFER, MAX_TOOL_DEFERRALS,
};
use hatel::session::{read_lines, record_line_at, SessionIndexCache};
use hatel::sink::SinkKind;

fn tool(sid: &str) -> BufferedTool {
    BufferedTool {
        session_id: sid.to_string(),
        tool_name: "Bash".to_string(),
        duration_ms: 5,
        ok: true,
        deferrals: 0,
    }
}

fn index(stamp: i128, lines: &[String]) -> SessionIndexCache {
    let mut cache = SessionIndexCache::new("/state".to_string());
    cache.refresh(
        Some(Fingerprint { files: 1, bytes: 1, newest: Some(stamp) }),
        &read_lines(&lines.to_vec()),
    );
    cache
}

fn started(sid: &str, label: &str) -> String {
    record_line_at(
        sid,
        &Some(hatel::project::ProjectRef {
            key: format!("/k/{label}"),
            label: label.to_string(),
        }),
        "2026-01-01T00:00:00Z",
    )
}

fn number(text: &str) -> serde_json::Number {
    match parse(text).unwrap() {
        hatel::json::Json::Number(n) => n,
        _ => panic!("not a number"),
    }
}

#[test]
fn an_unindexed_tool_outcome_is_deferred_then_attributed() {
    let mut buf = vec![tool("S1")];
    let empty = SessionIndexCache::new("/state".to_string());
    let (now, later) = persist_tool(std::mem::take(&mut buf), &empty, false);
    assert!(now.is_empty(), "unindexed outcome is deferred");
    assert_eq!(buffer_tool_results(&mut buf, later), 0);
    assert_eq!(buf.len(), 1, "still buffered");
    let cache = index(1, &[started("S1", "alpha")]);
    let (now, later) = persist_tool(std::mem::take(&mut buf), &cache, false);
    assert_eq!(now.len(), 1);
    assert_eq!(
        now[0].project, "alpha",
        "deferred outcome written with its project once the index catches up"
    );
    assert!(later.is_empty());
}

#[test]
fn deferrals_exhaust_to_an_honest_unattributed_record() {
    let mut buf = vec![tool("GHOST")];
    let empty = SessionIndexCache::new("/state".to_string());
    for cycle in 0..MAX_TOOL_DEFERRALS {
        let (now, later) = persist_tool(std::mem::take(&mut buf), &empty, false);
        assert!(now.is_empty(), "cycle {cycle}: still deferred");
        buffer_tool_results(&mut buf, later);
    }
    let (now, later) = persist_tool(std::mem::take(&mut buf), &empty, false);
    assert_eq!(now.len(), 1);
    assert_eq!(now[0].project, "", "exhausted deferral records reality: unattributed");
    assert!(later.is_empty());
}

#[test]
fn the_final_flush_writes_unresolved_outcomes_immediately() {
    let empty = SessionIndexCache::new("/state".to_string());
    let (now, later) = persist_tool(vec![tool("GHOST")], &empty, true);
    assert_eq!(now.len(), 1, "final flush writes everything");
    assert!(later.is_empty());
}

#[test]
fn an_outcome_is_stored_as_five_fields() {
    let reg = load_core(CORE_SCHEMA).unwrap();
    let one = Attributed { tool: tool("S1"), project: "alpha".to_string() };
    let mut keys: Vec<String> = tool_payload(&one).into_iter().map(|(k, _)| k).collect();
    keys.sort();
    assert_eq!(keys, vec!["duration_ms", "ok", "project", "session_id", "tool_name"]);
    let env = tool_record_at(&one, &reg, false, "2026-01-01T00:00:00Z".to_string()).unwrap();
    assert_eq!(env.kind, "tool");
    let line = env.to_json_line();
    assert!(line.contains("\"ok\":1"), "got: {line}");
    assert!(line.contains("\"duration_ms\":5"), "got: {line}");
}

#[test]
fn the_buffer_takes_what_fits_and_counts_the_rest() {
    let mut buf: Vec<BufferedTool> = (0..MAX_TOOL_BUFFER - 1).map(|_| tool("S")).collect();
    let dropped = buffer_tool_results(&mut buf, vec![tool("A"), tool("B"), tool("C")]);
    assert_eq!(dropped, 2);
    assert_eq!(buf.len(), MAX_TOOL_BUFFER);
    assert_eq!(buf[MAX_TOOL_BUFFER - 1].session_id, "A");
    assert!(record_tool_drop(0, dropped).unwrap().contains("dropped 2 tool record(s) so far"));
    assert!(record_tool_drop(2, 1).is_none());
}

#[test]
fn a_restart_adds_the_baseline_to_increments_only() {
    assert_eq!(add_baseline(10, Some(100), true), 110);
    assert_eq!(add_baseline(10, Some(100), false), 10);
    assert_eq!(add_baseline(10, None, true), 10);
    let base = read_snapshot(
        "{\"session_id\":\"S\",\"project\":\"p\",\"tokens\":100,\"cost_usd\":1.5,\
         \"active_time_s\":2.0,\"lines\":7,\"tokens_by_type\":{\"input\":60},\
         \"by_model\":{\"opus\":{\"tokens\":100,\"cost_usd\":1.5}},\"by_agent\":{},\
         \"ts\":\"2026-01-01T00:00:00Z\"}\n",
    );
    let totals = Totals {
        session_id: "S".to_string(),
        tokens: 10,
        cost_usd: number("3.25"),
        active_time_s: number("4.0"),
        lines: 1,
        tokens_by_type: vec![("input".to_string(), 10)],
        by_model: vec![(
            "opus".to_string(),
            Spend { tokens: 10, cost_usd: number("3.25") },
        )],
        by_agent: vec![],
        tokens_delta: true,
        cost_delta: false,
        active_delta: true,
        lines_delta: false,
    };
    assert!(totals_fit(Some(&base[0]), &totals));
    let cache = index(1, &[started("S", "alpha")]);
    let row = continued_row(&cache, Some(&base[0]), &totals, "2026-02-01T00:00:00Z");
    assert_eq!(row.project, "alpha");
    assert_eq!(row.tokens, 110);
    assert_eq!(row.lines, 1);
    assert_eq!(row.costs.len(), 1, "a total is not counted twice");
    assert_eq!(row.active_times.len(), 2);
    assert_eq!(row.tokens_by_type, vec![("input".to_string(), 70)]);
    assert_eq!(row.by_model[0].1.tokens, 110);
    assert_eq!(row.by_model[0].1.costs.len(), 1);
    let huge = Totals { tokens: i64::MAX, ..totals };
    assert!(!totals_fit(Some(&base[0]), &huge));
}

#[test]
fn the_live_view_filters_by_key_and_by_label() {
    let none: Option<String> = None;
    let key = Some("/k/alpha".to_string());
    let label = Some("beta".to_string());
    assert!(passes_filter(true, &label, &key, "x", "y"));
    assert!(passes_filter(false, &none, &key, "/k/alpha", "alpha"));
    assert!(!passes_filter(false, &none, &key, "/other/alpha", "alpha"));
    assert!(passes_filter(false, &label, &key, "/other", "beta"));
    assert!(!passes_filter(false, &label, &key, "/k/alpha", "alpha"));
    assert!(passes_filter(false, &none, &none, "/any", "any"));
}

#[test]
fn a_live_row_is_aligned_and_its_agents_are_shown_where_one_is_named() {
    let agent = |name: &str| AgentRow {
        agent: name.to_string(),
        tokens: "12".to_string(),
        cost: "0.5000".to_string(),
    };
    assert_eq!(agent_rows(&vec![agent("main"), agent("(unattributed)")]), "");
    assert_eq!(
        agent_rows(&vec![agent("Explore")]),
        "  └ Explore                            12    0.5000\n"
    );
    let cache = index(1, &[started("0123456789", "alpha")]);
    let focus = Focus { show_all: true, filter: None, current: None };
    let listing = |sid: &str| Listing {
        session_id: sid.to_string(),
        tokens: "15".to_string(),
        cost: "0.2500".to_string(),
        active: "3.0".to_string(),
        lines: "2".to_string(),
        prompts: "1".to_string(),
        skills: "0".to_string(),
        decisions: "4".to_string(),
        agents: vec![],
    };
    let view = live_view(&focus, &cache, &vec![listing("0123456789"), listing("ghost")]);
    let lines: Vec<&str> = view.lines().collect();
    assert_eq!(lines[1], "=== hatel (live) ===");
    assert_eq!(
        lines[2],
        "session  project                 tokens     cost$ active_s  lines prompts skills decisions"
    );
    assert_eq!(
        lines[3],
        "01234567 alpha                       15    0.2500      3.0      2       1      0         4"
    );
    assert!(lines[4].starts_with("ghost    (unknown) "));
    let mine = Focus { show_all: false, filter: None, current: Some("/k/alpha".to_string()) };
    assert_eq!(live_view(&mine, &cache, &vec![listing("ghost")]).lines().count(), 3);
    assert_eq!(truncate("añb", 2), "añ");
}

#[test]
fn retention_says_what_it_removed() {
    assert_eq!(
        ledger_pruned(2, SinkKind::Jsonl, 90).as_deref(),
        Some("hatel: retention — removed 2 archived ledger file(s) older than 90 days")
    );
    assert_eq!(
        ledger_pruned(1, SinkKind::Sqlite, 90).as_deref(),
        Some("hatel: retention — removed 1 ledger row(s) older than 90 days")
    );
    assert_eq!(
        index_pruned(3, 7).as_deref(),
        Some("hatel: retention — removed 3 archived session-index file(s) older than 7 days")
    );
    assert!(ledger_pruned(0, SinkKind::Jsonl, 90).is_none());
}

#[test]
fn a_destination_is_announced_without_its_headers() {
    let mut headers = Headers::new();
    headers.insert("authorization", "Bearer x");
    let target = |mode, filter| ExportTarget {
        endpoint: "https://c.example.com".to_string(),
        mode,
        filter,
        headers: Headers::new(),
        timeout_ms: None,
    };
    let mut raw = target(ExportMode::Raw, ProjectFilter::All);
    raw.headers = headers;
    assert_eq!(forwarding_line(&raw), "  → forwarding to https://c.example.com (raw)");
    let only = ProjectFilter::Only(vec!["a".to_string(), "b".to_string()]);
    assert_eq!(
        forwarding_line(&target(ExportMode::Enriched, only)),
        "  → forwarding to https://c.example.com (enriched, only: a, b)"
    );
}

#[test]
fn an_outcome_of_a_session_without_a_project_is_written_at_once() {
    let cache = index(1, &[record_line_at("S9", &None, "2026-01-01T00:00:00Z")]);
    let (now, later) = persist_tool(vec![tool("S9")], &cache, false);
    assert!(later.is_empty(), "nothing is gained by waiting");
    assert_eq!(now[0].project, "");
}

#[test]
fn a_sweep_is_due_once_a_day() {
    assert!(!prune_due(24 * 60 * 60 * 1_000_000_000 - 1));
    assert!(prune_due(24 * 60 * 60 * 1_000_000_000));
}
