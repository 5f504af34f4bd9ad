use hatel::model::Envelope;
use hatel::project::ProjectRef;
use hatel::rolling::{
    archive_target, date_stamp, fingerprint, is_archive_name, log_line, matching_files, newest,
    parse_lines, prune_archives, prune_archives_of, read_step, rotation_due, Aged, FileStat,
    Fingerprint, ReadStep, READ_PASSES,
};
use hatel::session::{
    fold, parse_index_line, read_lines, record_line_at, SessionIndex, SessionIndexCache, SessionMap,
    INDEX_BASE,
};
use hatel::sink::{
    base, payload_text, prune_bound, stored_kinds, stored_record, window_bound, SinkKind,
};

/// Files in memory, named as a log names them.
struct Log {
    files: Vec<(String, String)>,
}

impl Log {
    fn new() -> Log {
        Log { files: vec![] }
    }

    fn names(&self) -> Vec<String> {
        self.files.iter().map(|(n, _)| n.clone()).collect()
    }

    fn append(&mut self, name: &str, line: &str, threshold: u64) {
        let len = self.files.iter().find(|(n, _)| n == name).map_or(0, |(_, t)| t.len() as u64);
        if rotation_due(len, threshold) {
            let stamp = date_stamp("2026-06-13T10:00:00Z");
            let mut n = 0;
            let mut to = archive_target(name, &stamp, 1071, n);
            while self.names().contains(&to) {
                n += 1;
                to = archive_target(name, &stamp, 1071, n);
            }
            for f in self.files.iter_mut() {
                if f.0 == name {
                    f.0 = to.clone();
                }
            }
        }
        if !self.names().contains(&name.to_string()) {
            self.files.push((name.to_string(), String::new()));
        }
        for f in self.files.iter_mut() {
            if f.0 == name {
                f.1.push_str(&log_line(line));
            }
        }
    }

    fn lines(&self, name: &str) -> Vec<String> {
        matching_files(&self.names(), name)
            .iter()
            .flat_map(|n| {
                let text = &self.files.iter().find(|(f, _)| f == n).unwrap().1;
                parse_lines(text)
            })
            .collect()
    }

    fn aged(&self, modified: i64) -> Vec<Aged> {
        self.files.iter().map(|(n, _)| Aged { name: n.clone(), modified: Some(modified) }).collect()
    }

    fn remove(&mut self, names: &[String]) {
        self.files.retain(|(n, _)| !names.contains(n));
    }

    fn signature(&self, name: &str, stamp: i128) -> Fingerprint {
        let stats: Vec<FileStat> = matching_files(&self.names(), name)
            .iter()
            .map(|n| FileStat {
                bytes: Some(self.files.iter().find(|(f, _)| f == n).unwrap().1.len() as u64),
                modified: Some(stamp),
            })
            .collect();
        fingerprint(&stats)
    }
}

fn pref(label: &str) -> Option<ProjectRef> {
    Some(ProjectRef { key: format!("/k/{label}"), label: label.to_string() })
}

fn load(log: &Log) -> SessionMap {
    SessionIndex::new("/state".to_string()).load(&log.lines(INDEX_BASE))
}

fn refresh(cache: &mut SessionIndexCache, log: &Log, stamp: i128) {
    cache.refresh(Some(log.signature(INDEX_BASE, stamp)), &read_lines(&log.lines(INDEX_BASE)));
}

fn record(log: &mut Log, session: &str, project: &Option<ProjectRef>, threshold: u64) {
    let line = SessionIndex::new("/state".to_string()).record(session, project);
    log.append(INDEX_BASE, &line, threshold);
}

fn index_of(text: &str) -> Log {
    Log { files: vec![(INDEX_BASE.to_string(), text.to_string())] }
}

#[test]
fn append_then_read_round_trips_in_order() {
    let mut log = Log::new();
    log.append("log.jsonl", "a", 1 << 20);
    log.append("log.jsonl", "b", 1 << 20);
    assert_eq!(log.lines("log.jsonl"), vec!["a", "b"]);
}

#[test]
fn rotation_preserves_all_lines() {
    let mut log = Log::new();
    log.append("log.jsonl", "old", 1 << 20);
    log.append("log.jsonl", "new", 1);
    let mut got = log.lines("log.jsonl");
    got.sort();
    assert_eq!(got, vec!["new", "old"]);
    let archives = log.names().iter().filter(|n| is_archive_name(n)).count();
    assert_eq!(archives, 1, "exactly one archive after one rotation");
}

#[test]
fn the_active_file_is_never_matched_as_an_archive() {
    assert!(!is_archive_name("session_index.jsonl"));
    assert!(!is_archive_name("v2.jsonl"));
    assert!(!is_archive_name("cost_snapshot.jsonl.12345.6.tmp"));
    assert!(
        !is_archive_name("tool.jsonl.20240101"),
        "a bare date with no pid is not the rotation format"
    );
    assert!(is_archive_name("session_index.jsonl.20260613.1071"));
    assert!(is_archive_name("tool.jsonl.20260613.1071.2"));
}

#[test]
fn prune_removes_old_archives_only() {
    let mut log = Log::new();
    log.append("log.jsonl", "a", 1 << 20);
    log.append("log.jsonl", "b", 1);
    log.append("log.jsonl", "c", 1);
    let mut before = log.lines("log.jsonl");
    before.sort();
    assert_eq!(before, vec!["a", "b", "c"]);
    let removed = prune_archives(&log.aged(100), i64::MAX);
    assert_eq!(removed.len(), 2, "both archives pruned, active kept");
    log.remove(&removed);
    assert_eq!(log.lines("log.jsonl"), vec!["c"], "active file survives");
}

#[test]
fn fingerprint_changes_on_append() {
    let mut log = Log::new();
    log.append("log.jsonl", "a", 1 << 20);
    let f1 = log.signature("log.jsonl", 1);
    log.append("log.jsonl", "bb", 1 << 20);
    let f2 = log.signature("log.jsonl", 1);
    assert_ne!(f1.bytes, f2.bytes, "total bytes grew, so the fingerprint changed");
    assert_eq!(f2.newest, Some(1));
    assert_eq!(newest(&vec![]), None);
}

#[test]
fn a_log_is_its_file_and_its_archives() {
    let names: Vec<String> = [
        "tool.jsonl",
        "tool.jsonl.20240101.1",
        "tool.jsonl.tmp",
        "toolbox.jsonl",
        "other.jsonl",
    ]
    .iter()
    .map(|s| s.to_string())
    .collect();
    let mut got = matching_files(&names, "tool.jsonl");
    got.sort();
    assert_eq!(got, vec!["tool.jsonl", "tool.jsonl.20240101.1"]);
    let aged: Vec<Aged> =
        names.iter().map(|n| Aged { name: n.clone(), modified: Some(0) }).collect();
    assert_eq!(prune_archives_of(&aged, "tool.jsonl", 10), vec!["tool.jsonl.20240101.1"]);
    assert_eq!(archive_target("tool.jsonl", "20260613", 7, 0), "tool.jsonl.20260613.7");
    assert_eq!(archive_target("tool.jsonl", "20260613", 7, 2), "tool.jsonl.20260613.7.2");
    assert_eq!(date_stamp("2026-06-13T10:00:00Z"), "20260613");
}

#[test]
fn a_read_that_raced_a_rotation_is_tried_again() {
    let same = Some(vec!["a".to_string()]);
    let other = Some(vec!["b".to_string()]);
    assert!(matches!(read_step(0, &same, false, &same), ReadStep::Accept));
    assert!(matches!(read_step(0, &same, false, &other), ReadStep::Retry));
    assert!(matches!(read_step(0, &same, true, &same), ReadStep::Retry));
    assert!(matches!(read_step(READ_PASSES - 1, &same, true, &other), ReadStep::BestEffort));
}

#[test]
fn record_then_load_folds_per_session() {
    let mut log = Log::new();
    record(&mut log, "S1", &pref("alpha"), 1 << 20);
    record(&mut log, "S2", &pref("beta"), 1 << 20);
    let map = load(&log);
    assert_eq!(map.get("S1").unwrap().project_label, "alpha");
    assert_eq!(map.get("S2").unwrap().project_key, "/k/beta");
}

#[test]
fn fold_keeps_the_latest_record_per_session_regardless_of_order() {
    let old = "{\"session_id\":\"S1\",\"project_key\":\"/k/old\",\"project_label\":\"old\",\"ts\":\"2026-01-01T00:00:00Z\"}\n";
    let new = "{\"session_id\":\"S1\",\"project_key\":\"/k/new\",\"project_label\":\"new\",\"ts\":\"2026-06-01T00:00:00Z\"}\n";
    let label = |text: String| load(&index_of(&text)).get("S1").unwrap().project_label.clone();
    assert_eq!(label(format!("{old}{new}")), "new");
    assert_eq!(
        label(format!("{new}{old}")),
        "new",
        "order-independent: latest ts still wins"
    );
}

#[test]
fn fold_decides_by_instant_not_string_within_a_second() {
    let whole = "{\"session_id\":\"S1\",\"project_key\":\"/k/old\",\"project_label\":\"old\",\"ts\":\"2026-06-01T00:00:05Z\"}\n";
    let frac = "{\"session_id\":\"S1\",\"project_key\":\"/k/new\",\"project_label\":\"new\",\"ts\":\"2026-06-01T00:00:05.000001Z\"}\n";
    assert_eq!(
        load(&index_of(&format!("{whole}{frac}"))).get("S1").unwrap().project_label,
        "new",
        "the later sub-second instant wins, not the lexically-greater whole-second string"
    );
}

#[test]
fn rotation_and_prune_bound_the_index_without_losing_the_active_session() {
    let mut log = Log::new();
    record(&mut log, "S1", &pref("alpha"), 1);
    record(&mut log, "S2", &pref("beta"), 1);
    let map = load(&log);
    assert!(map.contains_key("S1") && map.contains_key("S2"));
    let idx = SessionIndex::new("/state".to_string());
    let removed = idx.prune(&log.aged(100), i64::MAX);
    assert!(!removed.is_empty(), "at least one archive pruned");
    log.remove(&removed);
    assert!(load(&log).contains_key("S2"), "the active session survives pruning");
}

#[test]
fn cache_serves_known_and_never_fabricates_unknown() {
    let mut log = Log::new();
    record(&mut log, "S1", &pref("alpha"), 1 << 20);
    let mut cache = SessionIndexCache::new("/state".to_string());
    refresh(&mut cache, &log, 1);
    assert_eq!(cache.label("S1").as_deref(), Some("alpha"));
    assert_eq!(cache.project("S1"), Some(("alpha", "/k/alpha")));
    assert!(cache.contains("S1"));
    assert_eq!(cache.label("ghost"), None, "an unknown session is never fabricated");
    assert_eq!(cache.state_dir(), "/state");
}

#[test]
fn cache_reloads_when_a_new_session_is_appended() {
    let mut log = Log::new();
    record(&mut log, "S1", &pref("alpha"), 1 << 20);
    let mut cache = SessionIndexCache::new("/state".to_string());
    refresh(&mut cache, &log, 1);
    assert!(cache.contains("S1") && !cache.contains("S2"));
    record(&mut log, "S2", &pref("beta"), 1 << 20);
    assert!(cache.is_stale(&Some(log.signature(INDEX_BASE, 1))));
    refresh(&mut cache, &log, 1);
    assert!(cache.contains("S2"), "a freshly recorded session is picked up");
}

#[test]
fn cache_drops_labels_when_the_index_is_reset() {
    let mut log = Log::new();
    record(&mut log, "S1", &pref("alpha"), 1 << 20);
    let mut cache = SessionIndexCache::new("/state".to_string());
    refresh(&mut cache, &log, 1);
    assert!(cache.contains("S1"));
    refresh(&mut cache, &Log::new(), 1);
    assert!(!cache.contains("S1"), "stale label dropped after the index is removed");
}

#[test]
fn cache_keeps_prior_labels_when_a_nonempty_index_folds_empty() {
    let mut log = Log::new();
    record(&mut log, "S1", &pref("alpha"), 1 << 20);
    let mut cache = SessionIndexCache::new("/state".to_string());
    refresh(&mut cache, &log, 1);
    assert_eq!(cache.label("S1").as_deref(), Some("alpha"));
    let other =
        index_of("{\"session_id\":\"S9\",\"project_key\":\"/k/\",\"project_label\":\"\"}\n");
    refresh(&mut cache, &other, 2);
    assert_eq!(
        cache.label("S1").as_deref(),
        Some("alpha"),
        "prior labels kept on an empty fold"
    );
}

#[test]
fn cache_recovers_after_a_transient_empty_fold_at_a_colliding_fingerprint() {
    let empty = "{\"session_id\":\"S9\",\"project_key\":\"/k/y\",\"project_label\":\"\"}\n";
    let good = "{\"session_id\":\"S2\",\"project_key\":\"/k/\",\"project_label\":\"x\"}\n";
    assert_eq!(empty.len(), good.len(), "fixture lines must collide on length");
    let mut log = Log::new();
    record(&mut log, "S1", &pref("alpha"), 1 << 20);
    let mut cache = SessionIndexCache::new("/state".to_string());
    refresh(&mut cache, &log, 1);
    assert!(cache.contains("S1"));
    refresh(&mut cache, &index_of(empty), 2);
    assert!(cache.contains("S1"), "prior label kept across an empty fold");
    refresh(&mut cache, &index_of(good), 2);
    assert!(cache.contains("S2"), "good data after a colliding empty fold is not stranded");
}

#[test]
fn an_index_line_reads_back_what_was_written() {
    let line = record_line_at("S \"1\"", &pref("al|pha"), "2026-06-13T10:00:00Z");
    let back = parse_index_line(&line).unwrap();
    assert_eq!(back.session_id, "S \"1\"");
    assert_eq!(back.project_key, "/k/al|pha");
    assert_eq!(back.project_label, "al|pha");
    assert_eq!(back.ts, "2026-06-13T10:00:00Z");
    assert!(parse_index_line("nope").is_none());
    assert!(fold(&vec![]).is_empty());
}

#[test]
fn a_sink_names_its_files_and_bounds() {
    assert_eq!(base("tool"), "tool.jsonl");
    assert_eq!(SinkKind::parse("sqlite"), Some(SinkKind::Sqlite));
    assert_eq!(SinkKind::parse("csv"), None);
    let files: Vec<String> = ["tool.jsonl", "tool.jsonl.20240101.1", "a.b.jsonl", "notes.txt"]
        .iter()
        .map(|s| s.to_string())
        .collect();
    let mut kinds = stored_kinds(&files);
    kinds.sort();
    assert_eq!(kinds, vec!["a.b", "tool"]);
    assert_eq!(window_bound(None), "");
    assert_eq!(window_bound(Some(0)), "1969-12-31T23:59:59Z");
    assert_eq!(prune_bound(0).as_deref(), Some("1969-12-31T23:59:59Z"));
    assert!(prune_bound(i64::MAX).is_none());
}

#[test]
fn a_stored_row_reads_back_as_its_record() {
    let line = "{\"ts\":\"2026-01-01T00:00:00Z\",\"kind\":\"tool\",\"_schema_version\":1,\
                \"payload\":{\"tool_name\":\"Bash\",\"ok\":1}}";
    let env = Envelope::from_json_line(line).unwrap();
    let text = payload_text(&env);
    let back = stored_record(env.ts.clone(), "tool", 1, &text).unwrap();
    assert_eq!(back.to_json_line(), env.to_json_line());
    assert!(stored_record(env.ts.clone(), "tool", 999, &text).is_none());
    assert!(stored_record(env.ts.clone(), "tool", 1, "[]").is_none());
}

#[test]
fn every_appended_line_is_read_or_was_removed_with_its_archive() {
    let mut log = Log::new();
    let lines = ["a", "b", "a", "c", "b", "d", "a"];
    for (i, line) in lines.iter().enumerate() {
        log.append("log.jsonl", line, if i % 2 == 0 { 1 } else { 1 << 20 });
    }
    let mut got = log.lines("log.jsonl");
    assert_ne!(got, lines, "the active file is read before its archives");
    got.sort();
    let mut want = lines.to_vec();
    want.sort();
    assert_eq!(got, want);
    let gone = log.names().into_iter().find(|n| is_archive_name(n)).unwrap();
    let lost = log.files.iter().find(|(n, _)| *n == gone).unwrap().1.clone();
    log.remove(&[gone]);
    let mut rest = log.lines("log.jsonl");
    rest.extend(parse_lines(&lost));
    rest.sort();
    assert_eq!(rest, want);
}

#[test]
fn a_line_may_give_its_fields_by_position() {
    let named = "{\"ts\":\"2026-01-01T00:00:00Z\",\"kind\":\"tool\",\"_schema_version\":1,\
                 \"payload\":{\"ok\":1}}";
    let by_name = Envelope::from_json_line(named).unwrap();
    let by_position =
        Envelope::from_json_line("[\"2026-01-01T00:00:00Z\",\"tool\",1,{\"ok\":1}]").unwrap();
    assert_eq!(by_position.to_json_line(), by_name.to_json_line());
    assert!(Envelope::from_json_line("[\"t\",\"tool\",1]").is_none(), "no payload");
    assert!(Envelope::from_json_line("[\"t\",\"tool\",1,{},0]").is_none(), "one too many");
    assert!(Envelope::from_json_line("[\"t\",\"tool\",2,{}]").is_none(), "a newer version");
    let line = parse_index_line("[\"S\",\"/k\",\"alpha\"]").unwrap();
    assert_eq!((line.session_id.as_str(), line.project_key.as_str()), ("S", "/k"));
    assert_eq!((line.project_label.as_str(), line.ts.as_str()), ("alpha", ""));
    assert!(parse_index_line("[\"S\",\"/k\"]").is_none());
}

#[test]
fn a_reserved_key_does_not_read_back() {
    let line = "{\"ts\":\"t\",\"kind\":\"tool\",\"_schema_version\":1,\
                \"payload\":{\"a\":{\"$serde_json::private::RawValue\":\"[1]\"}}}";
    let read = Envelope::from_json_line(line).unwrap();
    assert_eq!(
        read.to_json_line(),
        "{\"ts\":\"t\",\"kind\":\"tool\",\"_schema_version\":1,\"payload\":{\"a\":[1]}}"
    );
}
