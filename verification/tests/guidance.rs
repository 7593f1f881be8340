use kaizen::contracts::GuidanceKind;
use kaizen::guidance::{guidance_counts, GuidanceCount};

fn s(v: &str) -> String {
    v.to_string()
}

fn row(kind: GuidanceKind, id: &str, sessions: u64, cost: i64, on_disk: bool) -> GuidanceCount {
    GuidanceCount { kind, id: s(id), sessions, total_cost_usd_e6: cost, on_disk }
}

#[test]
fn guidance_counts_skill_and_rule_sessions() {
    let active = vec![s("a"), s("b"), s("c")];
    let costs = vec![(s("a"), 500_000), (s("b"), 10_000), (s("c"), 0)];
    let skills = vec![(s("a"), s("tdd")), (s("b"), s("tdd")), (s("a"), s("review"))];
    let rules = vec![(s("a"), s("style"))];
    let skills_on_disk = vec![s("tdd"), s("unused")];
    let rules_on_disk = vec![];
    let c = guidance_counts(&active, &costs, &skills, &rules, &skills_on_disk, &rules_on_disk).unwrap();
    assert_eq!(c.sessions_in_window, 3);
    assert_eq!(c.total_cost_usd_e6, 510_000);
    assert_eq!(
        c.rows,
        vec![
            row(GuidanceKind::Skill, "tdd", 2, 510_000, true),
            row(GuidanceKind::Skill, "review", 1, 500_000, false),
            row(GuidanceKind::Rule, "style", 1, 500_000, false),
            row(GuidanceKind::Skill, "unused", 0, 0, true),
        ]
    );
}

#[test]
fn guidance_counts_duplicate_usage_rows_once() {
    let active = vec![s("a"), s("a")];
    let costs = vec![(s("a"), 7)];
    let skills = vec![(s("a"), s("x")), (s("a"), s("x"))];
    let c = guidance_counts(&active, &costs, &skills, &vec![], &vec![s("x"), s("x")], &vec![]).unwrap();
    assert_eq!(c.sessions_in_window, 1);
    assert_eq!(c.total_cost_usd_e6, 7);
    assert_eq!(c.rows, vec![row(GuidanceKind::Skill, "x", 1, 7, true)]);
}

#[test]
fn guidance_counts_sessions_without_cost_as_zero() {
    let skills = vec![(s("nocost"), s("x"))];
    let c = guidance_counts(&vec![s("nocost")], &vec![], &skills, &vec![], &vec![], &vec![]).unwrap();
    assert_eq!(c.total_cost_usd_e6, 0);
    assert_eq!(c.rows, vec![row(GuidanceKind::Skill, "x", 1, 0, false)]);
}

#[test]
fn guidance_counts_refuses_totals_past_i64() {
    let active = vec![s("a"), s("b")];
    let costs = vec![(s("a"), i64::MAX), (s("b"), 1)];
    assert!(guidance_counts(&active, &costs, &vec![], &vec![], &vec![], &vec![]).is_none());
    let skills = vec![(s("a"), s("x")), (s("b"), s("x"))];
    assert!(guidance_counts(&vec![], &costs, &skills, &vec![], &vec![], &vec![]).is_none());
}

#[test]
fn guidance_rows_tie_break_by_kind_then_id() {
    let skills = vec![(s("a"), s("b-skill")), (s("a"), s("a-skill"))];
    let rules = vec![(s("a"), s("a-rule"))];
    let c = guidance_counts(&vec![s("a")], &vec![], &skills, &rules, &vec![], &vec![]).unwrap();
    let ids: Vec<&str> = c.rows.iter().map(|r| r.id.as_str()).collect();
    assert_eq!(ids, vec!["a-skill", "b-skill", "a-rule"]);
}
