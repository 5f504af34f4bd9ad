use hatel::clock::{now_epoch, now_iso_utc, ts_epoch};
use hatel::cost::{
    counts_fit, merge_counts, merge_snapshot, merge_spend, read_snapshot, snapshot_text, tokens_fit,
    CostRow, Counts, Spend,
};
use hatel::json::{parse, Json};
use hatel::throttle::should_log;

fn counts(pairs: &[(&str, i64)]) -> Counts {
    pairs.iter().map(|(k, v)| (k.to_string(), *v)).collect()
}

fn sorted(mut c: Counts) -> Counts {
    c.sort();
    c
}

fn number(text: &str) -> serde_json::Number {
    match parse(text).unwrap() {
        Json::Number(n) => n,
        _ => panic!("not a number"),
    }
}

fn spends(pairs: &[(&str, i64, &str)]) -> Vec<(String, Spend)> {
    pairs
        .iter()
        .map(|(k, tokens, cost)| {
            (k.to_string(), Spend { tokens: *tokens, cost_usd: number(cost) })
        })
        .collect()
}

fn row(sid: &str, tokens: i64, ts: &str) -> CostRow {
    CostRow {
        session_id: sid.to_string(),
        project: "p".to_string(),
        tokens,
        cost_usd: number("0.0"),
        active_time_s: number("0.0"),
        lines: 0,
        tokens_by_type: vec![],
        by_model: vec![],
        by_agent: vec![],
        ts: ts.to_string(),
    }
}

/// A snapshot written and read again.
fn stored(rows: &Vec<CostRow>) -> Vec<CostRow> {
    match snapshot_text(rows) {
        Some(text) => read_snapshot(&text),
        None => vec![],
    }
}

#[test]
fn merge_counts_sums_delta_and_replaces_cumulative_per_key() {
    let base = counts(&[("input", 100), ("cacheRead", 40)]);
    let current = counts(&[("input", 10), ("output", 5)]);
    assert!(counts_fit(&base, &current, true));
    let delta = merge_counts(&base, current, true);
    assert_eq!(
        sorted(delta),
        sorted(counts(&[("input", 110), ("cacheRead", 40), ("output", 5)]))
    );
    let cumulative = merge_counts(&base, counts(&[("input", 10)]), false);
    assert_eq!(sorted(cumulative), sorted(counts(&[("input", 10), ("cacheRead", 40)])));
    assert!(!counts_fit(&base, &counts(&[("input", i64::MAX)]), true));
}

#[test]
fn merge_spend_applies_each_measure_under_its_own_temporality() {
    let base = spends(&[("opus", 100, "1.0")]);
    let current = spends(&[("opus", 10, "3.0")]);
    assert!(tokens_fit(&base, &current, true));
    let merged = merge_spend(&base, &current, true, false);
    assert_eq!(merged.len(), 1);
    assert_eq!(merged[0].0, "opus");
    assert_eq!(merged[0].1.tokens, 110);
    let cost: f64 = merged[0].1.costs.iter().map(|n| n.as_f64().unwrap()).sum();
    assert_eq!(cost, 3.0);
    let both = merge_spend(&base, &current, false, true);
    assert_eq!(both[0].1.tokens, 10);
    let cost: f64 = both[0].1.costs.iter().map(|n| n.as_f64().unwrap()).sum();
    assert_eq!(cost, 4.0);
    assert!(!tokens_fit(&base, &spends(&[("opus", i64::MAX, "0.0")]), true));
}

#[test]
fn a_row_persisted_without_breakdowns_deserializes_to_empty_maps() {
    let line = "{\"session_id\":\"S\",\"project\":\"alpha\",\"tokens\":7,\"cost_usd\":0.5,\
                \"active_time_s\":1.0,\"lines\":2,\"ts\":\"2026-01-01T00:00:00Z\"}";
    let row = CostRow::from_json(&parse(line).unwrap()).unwrap();
    assert_eq!(row.tokens, 7);
    assert!(row.tokens_by_type.is_empty());
    assert!(row.by_model.is_empty());
    assert!(row.by_agent.is_empty());
}

#[test]
fn cost_snapshot_merges_by_session() {
    let ts = "2024-01-01T00:00:00Z";
    let first = stored(&merge_snapshot(&vec![], &vec![row("S1", 10, ts), row("S2", 5, ts)], 0));
    let mut rows = stored(&merge_snapshot(&first, &vec![row("S1", 99, ts)], 0));
    rows.sort_by(|a, b| a.session_id.cmp(&b.session_id));
    assert_eq!(rows.len(), 2);
    assert_eq!(rows[0].tokens, 99, "S1 updated");
    assert_eq!(rows[1].tokens, 5, "S2 preserved across merge");
}

#[test]
fn merge_with_no_rows_still_prunes_stale_entries() {
    let seeded = stored(&merge_snapshot(&vec![], &vec![row("old", 1, "2000-01-01T00:00:00Z")], 0));
    assert_eq!(seeded.len(), 1);
    let cutoff = ts_epoch(&now_iso_utc()).unwrap();
    let merged = merge_snapshot(&seeded, &vec![], cutoff);
    assert!(merged.is_empty(), "stale row pruned on empty merge");
    assert!(
        snapshot_text(&merged).is_none(),
        "a fully-aged-out snapshot leaves no file behind"
    );
}

#[test]
fn cost_snapshot_prunes_rows_past_retention() {
    let now = now_iso_utc();
    let both = stored(&merge_snapshot(
        &vec![],
        &vec![row("old", 1, "2000-01-01T00:00:00Z"), row("recent", 1, &now)],
        0,
    ));
    assert_eq!(both.len(), 2, "both retained at retain_since=0");
    let rows = stored(&merge_snapshot(&both, &vec![], now_epoch() - 86_400));
    assert_eq!(rows.len(), 1, "old row pruned");
    assert_eq!(rows[0].session_id, "recent");
}

#[test]
fn a_snapshot_reads_back_what_was_written() {
    let mut one = row("S \"q\"", 12, "2026-01-01T00:00:00Z");
    one.tokens_by_type = counts(&[("input", 3), ("output", 9)]);
    one.by_model = spends(&[("opus", 12, "0.25")]);
    one.by_agent = spends(&[("main", 12, "0.25")]);
    one.cost_usd = number("0.25");
    let back = stored(&vec![one]);
    assert_eq!(back.len(), 1);
    assert_eq!(back[0].session_id, "S \"q\"");
    assert_eq!(back[0].tokens, 12);
    assert_eq!(back[0].cost_usd.as_f64(), Some(0.25));
    assert_eq!(sorted(back[0].tokens_by_type.iter().cloned().collect()), counts(&[("input", 3), ("output", 9)]));
    assert_eq!(back[0].by_model[0].1.tokens, 12);
    assert_eq!(back[0].by_agent[0].0, "main");
}

#[test]
fn a_malformed_snapshot_line_is_left_out() {
    let rows = read_snapshot("nope\n{\"session_id\":1}\n\n");
    assert!(rows.is_empty());
}

#[test]
fn logs_first_then_every_n() {
    assert!(should_log(0, 1, 100), "first drop logs");
    assert!(!should_log(1, 1, 100));
    assert!(!should_log(98, 1, 100));
    assert!(should_log(99, 1, 100), "crossing 100 logs");
    assert!(!should_log(100, 1, 100));
}

#[test]
fn a_batch_crossing_the_boundary_logs_even_when_added_gt_one() {
    assert!(should_log(50, 100, 100));
    assert!(!should_log(101, 49, 100));
}

#[test]
fn a_written_snapshot_reads_back() {
    let mut first = row("S1", 7, "2026-01-01T00:00:00Z");
    first.cost_usd = number("3");
    first.active_time_s = number("60");
    first.tokens_by_type = counts(&[("input", 4), ("output", -3)]);
    first.by_model = spends(&[("m", 7, "3")]);
    let rows = vec![first, row("S2", 0, "line\nbreak")];
    let text = snapshot_text(&rows).unwrap();
    assert_eq!(text.matches('\n').count(), 2, "one line for each row");
    let back = read_snapshot(&text);
    assert_eq!(back.len(), 2);
    assert_eq!(snapshot_text(&back).unwrap(), text);
    assert_eq!(back[0].tokens_by_type.len(), 2);
    assert_eq!(back[1].ts, "line\nbreak");
}

#[test]
fn a_row_may_give_its_fields_by_position() {
    let line = "[\"S\",\"alpha\",7,0.5,1.0,2,{\"input\":3},{\"opus\":[7,0.5]},{},\"t\"]";
    let row = CostRow::from_json(&parse(line).unwrap()).unwrap();
    assert_eq!((row.session_id.as_str(), row.project.as_str(), row.tokens), ("S", "alpha", 7));
    assert_eq!((row.lines, row.ts.as_str()), (2, "t"));
    assert_eq!(row.tokens_by_type, counts(&[("input", 3)]));
    assert_eq!(row.by_model[0].1.tokens, 7);
    assert_eq!(row.by_model[0].1.cost_usd.as_f64(), Some(0.5));
    let short = "[\"S\",\"alpha\",7,0.5,1.0,2,{},{},{}]";
    assert!(CostRow::from_json(&parse(short).unwrap()).is_none(), "its time is missing");
}
