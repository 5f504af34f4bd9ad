use hatel::accumulator::{Accumulator, ACTIVE_TIME, COST, LINES, TOKENS};
use hatel::decode::{MetricPoint, Reading};

fn point(name: &str, value: &str, delta: bool, series: Vec<(&str, &str)>) -> MetricPoint {
    MetricPoint {
        name: name.to_string(),
        value: Reading::Text(value.to_string()),
        session_id: "S".to_string(),
        series: series.iter().map(|(k, v)| (k.to_string(), v.to_string())).collect(),
        delta,
    }
}

/// The amounts that the slots hold, kept beside an accumulator.
struct Ledger {
    acc: Accumulator,
    amounts: Vec<f64>,
}

impl Ledger {
    fn new() -> Ledger {
        Ledger { acc: Accumulator::new(), amounts: vec![] }
    }

    fn update(&mut self, points: Vec<MetricPoint>) {
        let steps = self.acc.update_metrics(&points);
        assert_eq!(steps.len(), points.len());
        for (step, p) in steps.iter().zip(&points) {
            let value: f64 = match &p.value {
                Reading::Text(t) => t.parse().unwrap(),
                _ => panic!("a text was given"),
            };
            while self.amounts.len() <= step.slot {
                self.amounts.push(0.0);
            }
            if step.delta {
                self.amounts[step.slot] += value;
            } else {
                self.amounts[step.slot] = value;
            }
        }
    }

    fn sum(&self, metric: &str) -> f64 {
        self.acc.metric_slots("S", metric).iter().fold(0.0, |a, s| a + self.amounts[*s])
    }

    fn by(&self, metric: &str, dimensions: &[&str]) -> Vec<(String, f64)> {
        let dims: Vec<String> = dimensions.iter().map(|d| d.to_string()).collect();
        self.acc
            .breakdown("S", metric, &dims)
            .into_iter()
            .map(|b| (b.label, b.slots.iter().fold(0.0, |a, s| a + self.amounts[*s])))
            .collect()
    }
}

#[test]
fn delta_accumulates_and_cumulative_replaces() {
    let mut acc = Ledger::new();
    acc.update(vec![point(TOKENS, "10.0", true, vec![("type", "output")])]);
    acc.update(vec![point(TOKENS, "5.0", true, vec![("type", "output")])]);
    assert_eq!(acc.sum(TOKENS) as i64, 15);
    assert_eq!(acc.acc.sessions(), vec!["S".to_string()]);

    let mut cum = Ledger::new();
    cum.update(vec![point(COST, "1.0", false, vec![])]);
    cum.update(vec![point(COST, "3.0", false, vec![])]);
    assert!((cum.sum(COST) - 3.0).abs() < 1e-9);
}

#[test]
fn distinct_series_fold_independently() {
    let mut acc = Ledger::new();
    acc.update(vec![
        point(TOKENS, "10.0", true, vec![("type", "input")]),
        point(TOKENS, "20.0", true, vec![("type", "output")]),
    ]);
    assert_eq!(acc.sum(TOKENS) as i64, 30);
    assert_eq!(acc.acc.metric_slots("S", TOKENS).len(), 2);
    assert_eq!(
        acc.by(TOKENS, &["type"]),
        vec![("input".to_string(), 10.0), ("output".to_string(), 20.0)]
    );
}

#[test]
fn empty_totals_are_positive_zero() {
    let t = Ledger::new();
    assert!(!t.sum(ACTIVE_TIME).is_sign_negative());
    assert!(!t.sum(COST).is_sign_negative());
    assert_eq!(format!("{:.1}", t.sum(ACTIVE_TIME)), "0.0");
}

#[test]
fn by_agent_labels_honestly() {
    let mut acc = Ledger::new();
    acc.update(vec![point(TOKENS, "10.0", true, vec![("agent.name", "Explore")])]);
    acc.update(vec![point(TOKENS, "20.0", true, vec![("query_source", "main")])]);
    acc.update(vec![point(COST, "1.0", false, vec![])]);
    let agents = ["agent.name", "query_source"];
    let tokens = acc.by(TOKENS, &agents);
    assert!(tokens.contains(&("Explore".to_string(), 10.0)));
    assert!(tokens.contains(&("main".to_string(), 20.0)));
    assert!(
        acc.by(COST, &agents).iter().any(|(label, _)| label == "(unattributed)"),
        "agentless cost is not guessed as main"
    );
}

#[test]
fn temporality_is_tracked_per_metric_for_baseline_decisions() {
    let mut acc = Ledger::new();
    acc.update(vec![
        point(TOKENS, "10.0", true, vec![]),
        point(COST, "5.0", false, vec![]),
    ]);
    assert!(acc.acc.metric_is_delta("S", TOKENS), "delta tokens → baseline added");
    assert!(!acc.acc.metric_is_delta("S", COST), "cumulative cost → baseline NOT added");
    assert!(acc.acc.metric_slots("S", LINES).is_empty());
}

#[test]
fn events_count_per_name() {
    let mut acc = Accumulator::new();
    acc.update_events(&vec![
        ("S".to_string(), "skill_activated".to_string()),
        ("S".to_string(), "skill_activated".to_string()),
    ]);
    assert_eq!(acc.event_count("S", "skill_activated"), 2);
    assert_eq!(acc.event_count("S", "user_prompt"), 0);
    assert_eq!(acc.event_count("T", "skill_activated"), 0);
}
