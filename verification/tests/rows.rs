use kaizen::event::{Event, EventKind, EventSource, Json, SessionRecord, SessionStatus};
use kaizen::event_codec::{cold_event, flatten_event, hot_event};
use kaizen::rows::{
    bool_to_i64, empty_to_none, event_from_row, event_to_row, i64_to_bool, kind_from_str, session_from_row,
    session_to_row, source_from_str, status_from_str,
};

fn event() -> Event {
    Event {
        session_id: "s1".into(),
        seq: u64::MAX,
        ts_ms: 1_700_000_000_000,
        ts_exact: true,
        kind: EventKind::ToolCall,
        source: EventSource::Hook,
        tool: Some("bash".into()),
        tool_call_id: Some("c1".into()),
        tokens_in: Some(u32::MAX),
        tokens_out: Some(2),
        reasoning_tokens: None,
        cost_usd_e6: Some(-4),
        stop_reason: None,
        latency_ms: Some(9),
        ttft_ms: None,
        retry_count: Some(3),
        context_used_tokens: None,
        context_max_tokens: Some(100),
        cache_creation_tokens: None,
        cache_read_tokens: None,
        system_prompt_tokens: Some(7),
        payload: Json::Object(vec![("ok".into(), Json::Bool(true))]),
    }
}

fn session(binding: Option<&str>) -> SessionRecord {
    SessionRecord {
        id: "s1".into(),
        agent: "cursor".into(),
        model: None,
        workspace: "/ws".into(),
        started_at_ms: 1000,
        ended_at_ms: Some(u64::MAX),
        status: SessionStatus::Waiting,
        trace_path: "/t".into(),
        start_commit: Some("abc".into()),
        end_commit: None,
        branch: Some("main".into()),
        dirty_start: Some(true),
        dirty_end: Some(false),
        repo_binding_source: binding.map(str::to_string),
        prompt_fingerprint: None,
        parent_session_id: None,
        agent_version: Some("1".into()),
        os: Some("linux".into()),
        arch: None,
        repo_file_count: Some(12),
        repo_total_loc: Some(345),
    }
}

fn same_event(a: &Event, b: &Event) {
    assert_eq!(format!("{a:?}"), format!("{b:?}"));
}

#[test]
fn names_read_back_with_their_defaults() {
    assert_eq!(kind_from_str("Lifecycle"), EventKind::Lifecycle);
    assert_eq!(kind_from_str("nope"), EventKind::Hook);
    assert_eq!(source_from_str("Tail"), EventSource::Tail);
    assert_eq!(source_from_str("nope"), EventSource::Proxy);
    assert_eq!(status_from_str("Idle"), SessionStatus::Idle);
    assert_eq!(status_from_str("nope"), SessionStatus::Done);
    assert_eq!(bool_to_i64(true), 1);
    assert!(!i64_to_bool(0));
    assert!(i64_to_bool(-3));
    assert_eq!(empty_to_none(String::new()), None);
    assert_eq!(empty_to_none("x".into()), Some("x".to_string()));
}

#[test]
fn event_row_round_trips() {
    let e = event();
    let row = event_to_row(&e);
    assert_eq!(row.seq, -1);
    assert_eq!(row.kind, "ToolCall");
    assert_eq!(row.payload, "{\"ok\":true}");
    same_event(&event_from_row(row), &e);
}

#[test]
fn event_row_with_bad_payload_reads_null() {
    let mut row = event_to_row(&event());
    row.payload = "not json".into();
    row.kind = "Weird".into();
    let back = event_from_row(row);
    assert!(matches!(back.payload, Json::Null));
    assert_eq!(back.kind, EventKind::Hook);
}

#[test]
fn session_row_round_trips() {
    let s = session(Some("git"));
    let row = session_to_row(&s);
    assert_eq!(row.status, "Waiting");
    assert_eq!(row.ended_at_ms, Some(-1));
    let back = session_from_row(row);
    assert_eq!(format!("{back:?}"), format!("{s:?}"));
    let none = session_from_row(session_to_row(&session(None)));
    assert_eq!(none.repo_binding_source, None);
    let empty = session_from_row(session_to_row(&session(Some(""))));
    assert_eq!(empty.repo_binding_source, None);
}

#[test]
fn flat_event_round_trips_through_cold_and_hot_readers() {
    let e = event();
    let f = flatten_event(&e);
    assert_eq!(f.source, "Hook");
    same_event(&cold_event(f.clone()), &e);
    same_event(&hot_event(f.clone()).unwrap(), &e);
    let mut bad = f;
    bad.payload_json = "{".into();
    bad.kind = "x".into();
    bad.source = "y".into();
    let cold = cold_event(bad.clone());
    assert_eq!(cold.kind, EventKind::Message);
    assert_eq!(cold.source, EventSource::Tail);
    assert!(matches!(cold.payload, Json::Null));
    assert!(hot_event(bad).is_none());
}
