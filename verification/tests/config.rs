use hatel::config::{Config, EnvValues, PluginSource, MAX_RETENTION_DAYS};
use hatel::error::Error;
use hatel::export::{
    normalize_endpoint, parse_otlp_headers, ExportConfig, ExportMode, ExportTarget, ProjectFilter,
};
use hatel::headers::Headers;
use hatel::settings::Settings;
use hatel::sink::SinkKind;

fn read(text: &str) -> Result<ExportConfig, Error> {
    ExportConfig::validate(&Settings::parse(text, "config.toml")?.export)
}

fn target(endpoint: &str, mode: ExportMode) -> ExportTarget {
    ExportTarget {
        endpoint: endpoint.to_string(),
        mode,
        filter: ProjectFilter::All,
        headers: Headers::new(),
        timeout_ms: None,
    }
}

fn written(cfg: &ExportConfig) -> String {
    cfg.save(None, "config.toml").unwrap()
}

fn no_env() -> EnvValues {
    EnvValues {
        sink: None,
        state_dir: None,
        plugins: None,
        rotate_bytes: None,
        retention_days: None,
        disabled: None,
        strict: None,
        testing: None,
    }
}

#[test]
fn saving_destinations_keeps_the_sections_export_does_not_own() {
    let before = Settings::parse("plugins = [\"/p/aix.toml\"]", "config.toml").unwrap();
    let mut cfg = ExportConfig { targets: vec![] };
    cfg.upsert(target("http://corp:4318", ExportMode::Enriched));
    let after = cfg.merged_into(before);
    assert_eq!(after.plugins, vec!["/p/aix.toml".to_string()]);
    assert_eq!(after.export.len(), 1);
    let text = after.to_toml().unwrap();
    let reread = Settings::parse(&text, "config.toml").unwrap();
    assert_eq!(reread.plugins, vec!["/p/aix.toml".to_string()]);
    assert_eq!(reread.export[0].endpoint, "http://corp:4318");
}

#[test]
fn parses_a_two_target_file() {
    let cfg = read(
        r#"
        [[export]]
        endpoint = "http://corp:4318"
        mode = "enriched"
        headers = { authorization = "tok" }

        [[export]]
        endpoint = "http://archive:4318"
        mode = "raw"
        timeout_ms = 2000
        "#,
    )
    .unwrap();
    assert_eq!(cfg.targets.len(), 2);
    assert_eq!(cfg.targets[0].endpoint, "http://corp:4318");
    assert_eq!(cfg.targets[0].mode, ExportMode::Enriched);
    assert_eq!(cfg.targets[0].headers.get("authorization").unwrap(), "tok");
    assert_eq!(cfg.targets[1].mode, ExportMode::Raw);
    assert_eq!(cfg.targets[1].timeout_ms, Some(2000));
}

#[test]
fn empty_file_is_export_off() {
    assert!(read("").unwrap().targets.is_empty());
}

#[test]
fn unknown_mode_is_a_hard_error() {
    let err = read("[[export]]\nendpoint = \"http://x:4318\"\nmode = \"tee\"\n");
    assert!(matches!(err, Err(Error::InvalidExport(_))));
}

#[test]
fn empty_endpoint_is_a_hard_error() {
    let err = read("[[export]]\nendpoint = \"\"\nmode = \"raw\"\n");
    assert!(matches!(err, Err(Error::InvalidExport(_))));
}

#[test]
fn duplicate_endpoint_is_rejected_to_prevent_double_count() {
    let err = read(
        "[[export]]\nendpoint = \"http://x:4318\"\nmode = \"raw\"\n\
         [[export]]\nendpoint = \"http://x:4318\"\nmode = \"enriched\"\n",
    );
    assert!(matches!(err, Err(Error::InvalidExport(_))));
}

#[test]
fn trailing_slash_does_not_evade_duplicate_detection() {
    let err = read(
        "[[export]]\nendpoint = \"http://x:4318\"\nmode = \"raw\"\n\
         [[export]]\nendpoint = \"http://x:4318/\"\nmode = \"enriched\"\n",
    );
    assert!(matches!(err, Err(Error::InvalidExport(_))));
    let cfg = read("[[export]]\nendpoint = \"http://x:4318/\"\nmode = \"raw\"\n").unwrap();
    assert_eq!(cfg.targets[0].endpoint, "http://x:4318");
    assert_eq!(normalize_endpoint("http://x:4318//"), "http://x:4318");
}

#[test]
fn malformed_toml_is_an_error_not_empty() {
    assert!(matches!(read("[[export]\nendpoint ="), Err(Error::ConfigParse { .. })));
}

#[test]
fn upsert_replaces_by_endpoint() {
    let mut cfg = ExportConfig { targets: vec![] };
    cfg.upsert(target("http://x:4318", ExportMode::Raw));
    cfg.upsert(target("http://x:4318", ExportMode::Enriched));
    assert_eq!(cfg.targets.len(), 1, "same endpoint updates in place");
    assert_eq!(cfg.targets[0].mode, ExportMode::Enriched);
}

#[test]
fn to_toml_round_trips() {
    let mut cfg = ExportConfig { targets: vec![] };
    cfg.upsert(ExportTarget {
        endpoint: "http://corp:4318".into(),
        mode: ExportMode::Enriched,
        filter: ProjectFilter::All,
        headers: parse_otlp_headers("authorization=tok, x-team=core"),
        timeout_ms: Some(3000),
    });
    let back = read(&written(&cfg)).unwrap();
    assert_eq!(back.targets.len(), 1);
    assert_eq!(back.targets[0].endpoint, "http://corp:4318");
    assert_eq!(back.targets[0].mode, ExportMode::Enriched);
    assert_eq!(back.targets[0].headers.get("authorization").unwrap(), "tok");
    assert_eq!(back.targets[0].headers.get("x-team").unwrap(), "core");
    assert_eq!(back.targets[0].timeout_ms, Some(3000));
}

#[test]
fn allow_list_round_trips_and_filters() {
    let cfg = read(
        "[[export]]\nendpoint = \"http://corp:4318\"\nmode = \"enriched\"\n\
         projects = [\"work-a\", \"work-b\"]\n",
    )
    .unwrap();
    let f = &cfg.targets[0].filter;
    assert!(f.is_filtered());
    assert!(f.allows("work-a", "/repos/work-a") && f.allows("work-b", "/x/work-b"));
    assert!(!f.allows("personal", "/repos/personal"));
    let back = read(&written(&cfg)).unwrap();
    assert_eq!(back.targets[0].filter, cfg.targets[0].filter);
}

#[test]
fn exclude_list_forwards_all_but_named() {
    let cfg = read(
        "[[export]]\nendpoint = \"http://corp:4318\"\nmode = \"raw\"\n\
         exclude_projects = [\"personal\"]\n",
    )
    .unwrap();
    let f = &cfg.targets[0].filter;
    assert!(f.allows("work-a", "/repos/work-a"));
    assert!(!f.allows("personal", "/repos/personal"));
    let back = read(&written(&cfg)).unwrap();
    assert_eq!(back.targets[0].filter, cfg.targets[0].filter);
}

#[test]
fn a_filter_entry_matches_label_or_unique_key() {
    let cfg = read(
        "[[export]]\nendpoint = \"http://corp:4318\"\nmode = \"enriched\"\n\
         projects = [\"/Users/me/work/api\"]\n",
    )
    .unwrap();
    let f = &cfg.targets[0].filter;
    assert!(f.allows("api", "/Users/me/work/api"));
    assert!(!f.allows("api", "/Users/me/personal/api"));
}

#[test]
fn a_misspelled_filter_key_is_rejected_not_silently_ignored() {
    let err = read(
        "[[export]]\nendpoint = \"http://corp:4318\"\nmode = \"raw\"\nproject = [\"work\"]\n",
    );
    assert!(matches!(err, Err(Error::ConfigParse { .. })));
}

#[test]
fn a_misspelled_top_level_export_key_is_rejected_not_silently_off() {
    let err = read("[[exports]]\nendpoint = \"http://corp:4318\"\nmode = \"raw\"\n");
    assert!(matches!(err, Err(Error::ConfigParse { .. })));
}

#[test]
fn an_explicit_empty_filter_list_is_rejected_not_fail_open() {
    for key in ["projects", "exclude_projects"] {
        let err = read(&format!(
            "[[export]]\nendpoint = \"http://x:4318\"\nmode = \"raw\"\n{key} = []\n"
        ));
        assert!(matches!(err, Err(Error::InvalidExport(_))), "{key} = [] should be rejected");
    }
}

#[test]
fn an_empty_filter_entry_is_rejected() {
    for entry in ["\"\"", "\"  \""] {
        let err = read(&format!(
            "[[export]]\nendpoint = \"http://x:4318\"\nmode = \"raw\"\nprojects = [{entry}]\n"
        ));
        assert!(
            matches!(err, Err(Error::InvalidExport(_))),
            "projects = [{entry}] should be rejected"
        );
    }
}

#[test]
fn allow_and_exclude_together_is_rejected() {
    let err = read(
        "[[export]]\nendpoint = \"http://corp:4318\"\nmode = \"raw\"\n\
         projects = [\"a\"]\nexclude_projects = [\"b\"]\n",
    );
    assert!(matches!(err, Err(Error::InvalidExport(_))));
}

#[test]
fn no_filter_is_all_and_allows_everything() {
    let cfg = read("[[export]]\nendpoint = \"http://corp:4318\"\nmode = \"raw\"\n").unwrap();
    let f = &cfg.targets[0].filter;
    assert_eq!(*f, ProjectFilter::All);
    assert!(!f.is_filtered());
    assert!(f.allows("anything", "/any/where"));
}

#[test]
fn parse_otlp_headers_splits_pairs_and_trims() {
    let h = parse_otlp_headers("authorization=Bearer abc, tenant = acme ,broken");
    assert_eq!(h.get("authorization").unwrap(), "Bearer abc");
    assert_eq!(h.get("tenant").unwrap(), "acme");
    assert!(!h.contains_key("broken"), "a pair without `=` is skipped");
}

#[test]
fn a_filter_is_described_by_its_entries() {
    assert_eq!(ProjectFilter::All.describe(), None);
    assert!(ProjectFilter::Only(vec!["a".to_string()]).describe().unwrap().contains("a"));
    assert_eq!(ExportMode::parse("raw"), Some(ExportMode::Raw));
    assert_eq!(ExportMode::parse("tee"), None);
    assert_eq!(ExportMode::Enriched.as_str(), "enriched");
}

#[test]
fn a_missing_file_is_export_off() {
    assert!(ExportConfig::load(None, "/c/config.toml").unwrap().targets.is_empty());
    let err = ExportConfig::load(Some("nope = 1"), "/c/config.toml").unwrap_err();
    assert!(err.message().contains("/c/config.toml"), "got: {}", err.message());
}

#[test]
fn a_misspelled_key_in_any_section_is_rejected() {
    for text in ["pluginz = []", "[[exports]]\nendpoint = \"x\"\nmode = \"raw\""] {
        assert!(Settings::parse(text, "/c/config.toml").is_err(), "{text:?} must be rejected");
    }
}

#[test]
fn a_relative_plugin_path_anchors_to_the_config_directory() {
    let s = Settings::parse(
        "plugins = [\"schemas/aix.toml\", \"/abs/w.toml\"]",
        "/home/u/.config/hatel/config.toml",
    )
    .unwrap();
    assert_eq!(
        s.plugin_paths(),
        vec!["/home/u/.config/hatel/schemas/aix.toml".to_string(), "/abs/w.toml".to_string()]
    );
}

#[test]
fn rewriting_the_file_never_re_anchors_a_relative_plugin_path() {
    let config = "cfg/config.toml";
    let mut settings = Settings::parse("plugins = [\"schemas/p.toml\"]", config).unwrap();
    for _ in 0..3 {
        let text = settings.to_toml().unwrap();
        settings = Settings::parse(&text, config).unwrap();
        assert_eq!(settings.plugins, vec!["schemas/p.toml".to_string()]);
        assert_eq!(settings.plugin_paths(), vec!["cfg/schemas/p.toml".to_string()]);
    }
}

#[test]
fn every_section_survives_a_write_read_round_trip() {
    let original = Settings::parse(
        "plugins = [\"/p/a.toml\"]\n\
         [[export]]\nendpoint = \"http://h:4318\"\nmode = \"enriched\"\ntimeout_ms = 900\n\
         [export.headers]\nauthorization = \"t\"\n",
        "/c/config.toml",
    )
    .unwrap();
    let text = original.to_toml().unwrap();
    let again = Settings::parse(&text, "/c/config.toml").unwrap();
    assert_eq!(again.plugins, vec!["/p/a.toml".to_string()]);
    assert_eq!(again.export.len(), 1);
    assert_eq!(again.export[0].mode, "enriched");
    assert_eq!(again.export[0].timeout_ms, Some(900));
    assert_eq!(again.export[0].headers.get("authorization").unwrap(), "t");
}

#[test]
fn the_environment_overrides_and_the_defaults_hold() {
    let plain = Config::load(&no_env(), "/state", &vec!["/p.toml".to_string()]);
    assert_eq!(plain.sink, SinkKind::Jsonl);
    assert_eq!(plain.state_dir, "/state");
    assert_eq!(plain.ledger_dir, "/state/ledger");
    assert_eq!(plain.plugins, vec!["/p.toml".to_string()]);
    assert_eq!(plain.plugin_source, PluginSource::ConfigFile);
    assert_eq!(plain.rotate_bytes, 10_485_760);
    assert_eq!(plain.retention_days, 90);
    assert!(!plain.disabled && !plain.strict);
    let mut env = no_env();
    env.sink = Some("sqlite".to_string());
    env.state_dir = Some("/elsewhere".to_string());
    env.plugins = Some(vec!["/e.toml".to_string()]);
    env.retention_days = Some("7".to_string());
    env.strict = Some("1".to_string());
    let set = Config::load(&env, "/state", &vec!["/p.toml".to_string()]);
    assert_eq!(set.sink, SinkKind::Sqlite);
    assert_eq!(set.state_dir, "/elsewhere");
    assert_eq!(set.plugins, vec!["/e.toml".to_string()]);
    assert_eq!(set.plugin_source, PluginSource::Environment);
    assert_eq!(set.retention_days, 7);
    assert!(set.strict);
    assert_eq!(set.retain_since(1_000_000), 1_000_000 - 7 * 86_400);
    assert_eq!(MAX_RETENTION_DAYS, 100_000);
}

#[test]
fn a_saved_file_keeps_the_order_of_its_fields() {
    let mut headers = Headers::new();
    headers.insert("x-b", "2");
    headers.insert("authorization", "Bearer x");
    let mut full = target("http://c:4318", ExportMode::Enriched);
    full.filter = ProjectFilter::Only(vec!["a".to_string(), "b".to_string()]);
    full.timeout_ms = Some(500);
    full.headers = headers;
    let cfg = ExportConfig { targets: vec![full] };
    let body = cfg.save(Some("plugins = [\"/p/a.toml\"]"), "config.toml").unwrap();
    let order = [
        "plugins = ",
        "[[export]]",
        "endpoint = \"http://c:4318\"",
        "mode = \"enriched\"",
        "projects = ",
        "timeout_ms = 500",
        "[export.headers]",
        "authorization = \"Bearer x\"",
        "x-b = \"2\"",
    ];
    let places: Vec<usize> = order.iter().map(|line| body.find(line).unwrap()).collect();
    assert!(places.windows(2).all(|w| w[0] < w[1]), "{body}");
    let mut late = target("http://c:4318", ExportMode::Raw);
    late.timeout_ms = Some(u64::MAX);
    let cfg = ExportConfig { targets: vec![late] };
    assert_eq!(read(&written(&cfg)).unwrap().targets[0].timeout_ms, Some(u64::MAX));
}

#[test]
fn a_saved_file_reads_back_whatever_its_texts_hold() {
    let odd = "\n tab\t line\n cr\r crlf\r\n nul\0 bell\u{7} del\u{7f} \"'\\ ''' \"\"\" \u{85} end''";
    for text in [odd, "\t", "\n", "a\nb\\", "''\n", "it's \"so\"", "\r", "\u{1b}[0m", "", "'''\n\"\"\""]
        .into_iter()
        .chain(["$serde_json::private::RawValue", "$__toml_private_datetime"])
    {
        let mut headers = Headers::new();
        headers.insert(text, text);
        let mut one = target("http://c:4318", ExportMode::Raw);
        one.filter = ProjectFilter::Except(vec![text.to_string()]);
        one.headers = headers;
        let cfg = ExportConfig { targets: vec![one] };
        let before = "plugins = [\"a\\tb\\nc.toml\"]";
        let body = cfg.save(Some(before), "config.toml").unwrap();
        let back = Settings::parse(&body, "config.toml").unwrap();
        assert_eq!(back.plugins, vec!["a\tb\nc.toml"]);
        assert_eq!(back.export[0].headers.get(text), Some(text), "{body}");
        assert_eq!(back.export[0].exclude_projects, Some(vec![text.to_string()]));
    }
}

#[test]
fn nothing_is_saved_over_a_file_that_does_not_load() {
    let cfg = ExportConfig { targets: vec![target("http://c:4318", ExportMode::Raw)] };
    for text in ["pluginz = []", "plugins = ["] {
        assert!(matches!(cfg.save(Some(text), "config.toml"), Err(Error::ConfigParse { .. })));
    }
}
