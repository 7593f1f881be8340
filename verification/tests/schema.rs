use kaizen::error::StoreError;
use kaizen::event::{Event, EventKind, EventSource, Json};
use kaizen::schema::{batch_session, contains_text, is_duplicate_column_message, mmap_size_bytes_from_mb, parse_u64};

fn event(session: &str) -> Event {
    Event {
        session_id: session.into(),
        seq: 0,
        ts_ms: 0,
        ts_exact: false,
        kind: EventKind::Message,
        source: EventSource::Tail,
        tool: None,
        tool_call_id: None,
        tokens_in: None,
        tokens_out: None,
        reasoning_tokens: None,
        cost_usd_e6: None,
        stop_reason: None,
        latency_ms: None,
        ttft_ms: None,
        retry_count: None,
        context_used_tokens: None,
        context_max_tokens: None,
        cache_creation_tokens: None,
        cache_read_tokens: None,
        system_prompt_tokens: None,
        payload: Json::Null,
    }
}

#[test]
fn mmap_size_from_mb() {
    assert_eq!(mmap_size_bytes_from_mb(Some("64")), 67_108_864);
    assert_eq!(mmap_size_bytes_from_mb(Some(" 1 \n")), 1_048_576);
    assert_eq!(mmap_size_bytes_from_mb(None), 32 * 1_048_576);
    assert_eq!(mmap_size_bytes_from_mb(Some("lots")), 32 * 1_048_576);
    assert_eq!(mmap_size_bytes_from_mb(Some("18446744073709551615")), i64::MAX);
    assert_eq!(mmap_size_bytes_from_mb(Some("+2")), 2 * 1_048_576);
}

#[test]
fn parse_u64_matches_std() {
    for s in ["0", "+7", "007", "18446744073709551615", "18446744073709551616", "", "+", "-1", " 1", "1a", "+-1"] {
        assert_eq!(parse_u64(s), s.parse::<u64>().ok(), "{s:?}");
    }
}

#[test]
fn batch_session_requires_one_session() {
    assert_eq!(batch_session(&[]), Ok(None));
    let same = [event("a"), event("a")];
    assert_eq!(batch_session(&same), Ok(Some(&"a".to_string())));
    let mixed = [event("a"), event("b")];
    assert_eq!(batch_session(&mixed), Err(StoreError::MixedSessions));
}

#[test]
fn duplicate_column_message_is_recognised() {
    assert!(is_duplicate_column_message("duplicate column name: start_commit"));
    assert!(!is_duplicate_column_message("no such table: sessions"));
    assert!(contains_text("abc", ""));
    assert!(!contains_text("", "a"));
}
