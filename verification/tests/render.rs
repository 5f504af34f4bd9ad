use hatel::render::{
    escape_md_cell, format_markdown, format_text, group_digits, key_label, truncate,
    BAR_WIDTH,
};
use hatel::report::{
    Amount, Filter, GroupAgg, KindSection, Measure, ProjectScope, Report, UnreadableKinds,
};
use unicode_width::UnicodeWidthStr;

fn measure(name: &str, sum: i64) -> Measure {
    Measure {
        name: name.to_string(),
        sum: Amount { order: sum, plain: sum.to_string(), value: None },
    }
}

fn section(kind: &str, groups: Vec<GroupAgg>) -> KindSection {
    KindSection {
        kind: kind.to_string(),
        group_by: "tool_name".to_string(),
        sort_by: Some("duration_ms".to_string()),
        project_scope: ProjectScope::Unrestricted,
        retained_since: None,
        groups,
    }
}

fn group(key: &str, count: i64, sum: i64, share: usize) -> GroupAgg {
    GroupAgg {
        key: Some(key.to_string()),
        count,
        sums: vec![measure("duration_ms", sum)],
        share,
    }
}

fn report(kinds: Vec<KindSection>) -> Report {
    Report {
        window: "30d".to_string(),
        project: None,
        filters: Vec::new(),
        top_n: 5,
        kinds,
        cost: Vec::new(),
        unreadable_kinds: None,
    }
}

fn text_of(r: &Report) -> String {
    format_text(r, &vec![])
}

fn markdown_of(r: &Report) -> String {
    format_markdown(r, &vec![])
}

#[test]
fn escape_md_cell_neutralizes_pipes_and_newlines() {
    assert_eq!(escape_md_cell("feat/a|b"), "feat/a\\|b");
    assert_eq!(escape_md_cell("line1\nline2"), "line1 line2");
    assert_eq!(escape_md_cell("a\r\nb\tc"), "a  b c");
    assert_eq!(escape_md_cell(r"a\|b"), r"a\\\|b");
    assert_eq!(escape_md_cell(r"c:\path"), r"c:\\path");
    assert_eq!(escape_md_cell("Bash"), "Bash");
}

#[test]
fn a_hostile_group_key_stays_one_markdown_row() {
    let md = markdown_of(&report(vec![section("tool", vec![group("a|b\nc", 1, 5, BAR_WIDTH)])]));
    let row = md.lines().find(|l| l.starts_with("| a")).expect("the group row");
    assert!(!row.contains("a|b"), "raw pipe must be escaped: {row}");
    assert!(row.contains("a\\|b c"), "newline collapsed inline: {row}");
    assert!(row.ends_with(" |"), "row closes cleanly: {row}");
}

#[test]
fn digits_are_grouped_without_changing_the_value() {
    assert_eq!(group_digits("770991471"), "770,991,471");
    assert_eq!(group_digits("1234.57"), "1,234.57");
    assert_eq!(group_digits("-1234"), "-1,234");
    assert_eq!(group_digits("999"), "999");
    assert_eq!(group_digits("0"), "0");
}

#[test]
fn a_wide_key_leaves_the_columns_aligned() {
    let text = text_of(&report(vec![section(
        "k",
        vec![group("한국어규칙이름", 1, 100, BAR_WIDTH), group("ascii-rule", 1, 90, 16)],
    )]));
    let cols = |line: &str, needle: &str| {
        let byte = line.find(needle).unwrap();
        UnicodeWidthStr::width(&line[..byte])
    };
    let wide = text.lines().find(|l| l.contains("한국어")).unwrap();
    let ascii = text.lines().find(|l| l.contains("ascii-rule")).unwrap();
    assert_eq!(
        cols(wide, "100") + 3,
        cols(ascii, "90") + 2,
        "measure columns end at the same terminal column:\n{wide}\n{ascii}"
    );
}

#[test]
fn a_kind_that_records_no_project_says_so_instead_of_showing_nothing() {
    let mut s = section("aix.rules", Vec::new());
    s.project_scope = ProjectScope::Unsupported;
    let mut r = report(vec![s]);
    r.project = Some("acme".to_string());
    let text = text_of(&r);
    assert!(text.contains("records no project"), "{text}");
    assert!(!text.contains("no records in this window"), "{text}");
}

#[test]
fn every_row_carries_a_bar_scaled_to_the_leader() {
    let text = text_of(&report(vec![section(
        "tool",
        vec![group("Bash", 9, 100, BAR_WIDTH), group("Edit", 2, 50, BAR_WIDTH / 2)],
    )]));
    let bash = text.lines().find(|l| l.contains("Bash")).unwrap();
    let edit = text.lines().find(|l| l.contains("Edit")).unwrap();
    assert_eq!(bash.matches('█').count(), BAR_WIDTH, "leader fills the bar");
    assert_eq!(edit.matches('█').count(), BAR_WIDTH / 2, "half the leader");
    assert!(bash.contains("100"), "the measure is still printed: {bash}");
}

#[test]
fn a_newline_in_a_field_name_cannot_break_the_layout() {
    let mut s = section("k", vec![group("v", 1, 1, BAR_WIDTH)]);
    s.group_by = "rule\nname".to_string();
    let r = report(vec![s]);
    for out in [text_of(&r), markdown_of(&r)] {
        let axes = out.lines().find(|l| l.contains("rule")).unwrap();
        assert!(axes.contains("rule name"), "collapsed inline: {axes:?}");
    }
}

#[test]
fn markdown_headers_are_escaped_like_values() {
    let mut s = section("k", vec![group("v", 1, 1, BAR_WIDTH)]);
    s.group_by = "rule|name".to_string();
    let md = markdown_of(&report(vec![s]));
    let header = md.lines().find(|l| l.starts_with("| rule")).unwrap();
    assert!(header.contains("rule\\|name"), "{header}");
    assert_eq!(header.matches(" | ").count(), 2, "3 columns, not 4: {header}");
}

#[test]
fn an_empty_group_key_is_named_not_blank() {
    let mut missing = group("", 2, 1, 1);
    missing.key = None;
    let text = text_of(&report(vec![section(
        "aix.sessions",
        vec![group("", 15, 1, BAR_WIDTH), missing],
    )]));
    assert!(text.contains("(empty)"), "{text}");
    assert!(text.contains('—'), "{text}");
    assert_eq!(key_label(&None), "—");
}

#[test]
fn bars_measure_what_the_rows_are_ordered_by() {
    let measured = |key: &str, first: i64, second: i64, share: usize| GroupAgg {
        key: Some(key.to_string()),
        count: 1,
        sums: vec![measure("evaluations", first), measure("violations", second)],
        share,
    };
    let mut s = section(
        "aix.rules",
        vec![
            measured("citation", 21_000, 200, BAR_WIDTH),
            measured("imports", 13_000_000, 100, BAR_WIDTH / 2),
        ],
    );
    s.sort_by = Some("violations".to_string());
    let text = text_of(&report(vec![s]));
    let citation = text.lines().find(|l| l.contains("citation")).unwrap();
    let imports = text.lines().find(|l| l.contains("imports")).unwrap();
    assert_eq!(citation.matches('█').count(), BAR_WIDTH);
    assert_eq!(imports.matches('█').count(), BAR_WIDTH / 2);
}

#[test]
fn columns_line_up_under_a_non_ascii_header() {
    let mut s = section("k", vec![group("v", 1, 1, BAR_WIDTH)]);
    s.group_by = "규칙".to_string();
    let text = text_of(&report(vec![s]));
    let mut lines = text.lines().skip_while(|l| !l.starts_with("k —")).skip(1);
    let header = lines.next().unwrap();
    let row = lines.next().unwrap();
    let column =
        |line: &str, needle: &str| UnicodeWidthStr::width(&line[..line.find(needle).unwrap()]);
    assert_eq!(column(header, "규칙"), column(row, "v"));
    assert_eq!(column(header, "count") + "count".len(), column(row, "1") + 1);
}

#[test]
fn columns_line_up_under_their_headers() {
    let text = text_of(&report(vec![section(
        "tool",
        vec![group("Bash", 155_637, 770_991_471, BAR_WIDTH)],
    )]));
    let mut lines = text.lines().skip_while(|l| !l.starts_with("tool —")).skip(1);
    let header = lines.next().unwrap();
    let row = lines.next().unwrap();
    let column = |line: &str, needle: &str| {
        line.find(needle)
            .map(|byte| line[..byte].chars().count())
            .unwrap_or_else(|| panic!("{needle:?} not in {line:?}"))
    };
    assert_eq!(
        column(header, "tool_name"),
        column(row, "Bash"),
        "the dimension header sits over its keys:\n{header}\n{row}"
    );
    assert_eq!(
        column(header, "duration_ms") + "duration_ms".len(),
        column(row, "770,991,471") + "770,991,471".len(),
        "numeric columns are right-aligned under their headers:\n{header}\n{row}"
    );
}

#[test]
fn the_header_states_the_scope_it_covers() {
    let mut r = report(vec![section("tool", vec![group("Bash", 1, 1, BAR_WIDTH)])]);
    r.project = Some("acme".to_string());
    r.filters = vec![Filter { field: "spec".to_string(), value: "auth".to_string() }];
    assert!(text_of(&r).starts_with("=== hatel — rolling 30d — project acme — spec=auth ==="));
    assert!(markdown_of(&r).starts_with("# hatel — rolling 30d — project acme — spec=auth"));
}

#[test]
fn a_long_text_is_cut_to_its_columns() {
    assert_eq!(truncate("abcdef", 6), "abcdef");
    assert_eq!(truncate("abcdefg", 6), "abcde…");
    assert_eq!(truncate("한국어규칙", 6), "한국…");
    assert_eq!(hatel::render::inline("a\nb\tc"), "a b c");
}

#[test]
fn a_report_over_part_of_a_store_says_so() {
    let mut r = report(vec![]);
    r.unreadable_kinds = Some(UnreadableKinds { names: vec!["ci_check".to_string()] });
    assert!(text_of(&r).contains("ci_check"), "{}", text_of(&r));
    assert!(markdown_of(&r).contains("ci_check"));
}
