use kaizen::remote_cache::{day_label, remote_event_aggregate, RemoteEvent, RemotePullState};

const DAY: u64 = 86_400_000;

fn ev(sid: &str, ts_ms: u64, agent: &str, model: &str, tool: Option<&str>, cost: Option<i64>, tin: Option<u32>) -> RemoteEvent {
    RemoteEvent {
        session_id_hash: sid.into(),
        ts_ms,
        agent: agent.into(),
        model: model.into(),
        tool: tool.map(str::to_string),
        cost_usd_e6: cost,
        tokens_in: tin,
        tokens_out: Some(1),
        reasoning_tokens: None,
    }
}

#[test]
fn pull_state_defaults_to_no_provider() {
    let st = RemotePullState::default();
    assert_eq!(st.query_provider, "none");
    assert_eq!(st.cursor_json, "");
    assert_eq!(st.last_success_ms, None);
}

#[test]
fn day_label_counts_from_thursday_epoch() {
    assert_eq!(day_label(0), "Thu");
    assert_eq!(day_label(3), "Sun");
    assert_eq!(day_label(4), "Mon");
    assert_eq!(day_label(19675), "Tue");
}

#[test]
fn aggregate_counts_sessions_costs_and_rankings() {
    let now = 20_000 * DAY + 1000;
    let events = vec![
        ev("s1", now - 10, "alpha", "m1", Some("bash"), Some(5), Some(10)),
        ev("s1", now - 20, "alpha", "m1", Some("read"), None, None),
        ev("s2", now - DAY, "beta", "m2", Some("bash"), Some(7), Some(3)),
        ev("s3", now - 30 * DAY, "beta", "m1", None, None, None),
    ];
    let agg = remote_event_aggregate(now, &events);
    assert_eq!(agg.event_count, 4);
    assert_eq!(agg.session_count, 3);
    assert_eq!(agg.total_cost_usd_e6, 12);
    assert_eq!(agg.sessions_with_cost, 2);
    assert_eq!(agg.by_agent, vec![("beta".to_string(), 2), ("alpha".to_string(), 1)]);
    assert_eq!(agg.by_model, vec![("m1".to_string(), 2), ("m2".to_string(), 1)]);
    assert_eq!(agg.top_tools, vec![("bash".to_string(), 2), ("read".to_string(), 1)]);
    assert_eq!(agg.tool_token_totals, vec![("bash".to_string(), 15), ("read".to_string(), 1)]);
    assert_eq!(agg.sessions_by_day.len(), 7);
    assert_eq!(agg.sessions_by_day[6], (day_label(20_000).to_string(), 1));
    assert_eq!(agg.sessions_by_day[5], (day_label(19_999).to_string(), 1));
    assert_eq!(agg.sessions_by_day[0].1, 0);
}

#[test]
fn aggregate_cost_saturates() {
    let events = vec![
        ev("a", 0, "x", "m", None, Some(i64::MAX), None),
        ev("b", 0, "x", "m", None, Some(10), None),
        ev("c", 0, "x", "m", None, Some(-5), None),
    ];
    let agg = remote_event_aggregate(0, &events);
    assert_eq!(agg.total_cost_usd_e6, i64::MAX - 5);
}

#[test]
fn aggregate_keeps_top_ten_tools() {
    let names = ["a", "b", "c", "d", "e", "f", "g", "h", "i", "j", "k", "l"];
    let mut events = Vec::new();
    for (n, name) in names.iter().enumerate() {
        for _ in 0..(n + 1) {
            events.push(ev("s", 0, "x", "m", Some(name), None, None));
        }
    }
    let agg = remote_event_aggregate(0, &events);
    assert_eq!(agg.top_tools.len(), 10);
    assert_eq!(agg.top_tools[0], ("l".to_string(), 12));
    assert_eq!(agg.top_tools[9], ("c".to_string(), 3));
    assert_eq!(agg.tool_token_totals.len(), 12);
}

#[test]
fn aggregate_of_nothing_is_empty() {
    let agg = remote_event_aggregate(5 * DAY, &[]);
    assert_eq!(agg.session_count, 0);
    assert!(agg.by_agent.is_empty());
    assert_eq!(agg.sessions_by_day.iter().map(|d| d.1).sum::<u64>(), 0);
}
