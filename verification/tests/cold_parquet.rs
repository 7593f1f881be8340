use kaizen::cold_parquet::{order_events, partition_day, partition_expired, write_daily_events, DailyEventWriter};
use kaizen::error::StoreError;
use kaizen::event::{Event, EventKind, EventSource, Json};

fn event(session: &str, seq: u64, ts_ms: u64) -> Event {
    Event {
        session_id: session.into(),
        seq,
        ts_ms,
        ts_exact: true,
        kind: EventKind::Message,
        source: EventSource::Hook,
        tool: None,
        tool_call_id: None,
        tokens_in: Some(10),
        tokens_out: None,
        reasoning_tokens: None,
        cost_usd_e6: Some(5),
        stop_reason: None,
        latency_ms: None,
        ttft_ms: None,
        retry_count: None,
        context_used_tokens: Some(12),
        context_max_tokens: None,
        cache_creation_tokens: None,
        cache_read_tokens: None,
        system_prompt_tokens: None,
        payload: Json::Object(vec![("type".into(), Json::Str("note".into()))]),
    }
}

const DAY: u64 = 86_400_000;

#[test]
fn partition_day_formats_utc_date() {
    assert_eq!(partition_day(1_700_000_000_000).unwrap(), "2023-11-14");
    assert_eq!(partition_day(0).unwrap(), "1970-01-01");
    assert_eq!(partition_day(253_402_300_799_999).unwrap(), "9999-12-31");
}

#[test]
fn partition_day_refuses_years_past_9999() {
    assert_eq!(partition_day(253_402_300_800_000), Err(StoreError::TimestampOutOfRange));
    assert_eq!(partition_day(u64::MAX), Err(StoreError::TimestampOutOfRange));
}

#[test]
fn writer_cuts_chunk_when_day_is_full() {
    let mut w = DailyEventWriter::new("/data", 2);
    assert!(w.push(event("s", 0, 1_700_000_000_000)).unwrap().is_none());
    let chunk = w.push(event("s", 1, 1_700_000_000_001)).unwrap().unwrap();
    assert_eq!(chunk.path, "/data/cold/events/2023-11-14-000000.parquet");
    assert_eq!(chunk.rows.len(), 2);
    assert_eq!(chunk.rows[1].seq, 1);
    assert!(w.push(event("s", 2, 1_700_000_000_002)).unwrap().is_none());
    let (rest, paths) = w.finish();
    assert_eq!(rest.len(), 1);
    assert_eq!(rest[0].path, "/data/cold/events/2023-11-14-000001.parquet");
    assert_eq!(rest[0].rows[0].seq, 2);
    assert_eq!(
        paths,
        vec![
            "/data/cold/events/2023-11-14-000000.parquet".to_string(),
            "/data/cold/events/2023-11-14-000001.parquet".to_string(),
        ]
    );
}

#[test]
fn writer_treats_zero_max_rows_as_one() {
    let mut w = DailyEventWriter::new("r/", 0);
    let chunk = w.push(event("s", 0, 0)).unwrap().unwrap();
    assert_eq!(chunk.path, "r/cold/events/1970-01-01-000000.parquet");
    let (rest, paths) = w.finish();
    assert!(rest.is_empty());
    assert_eq!(paths.len(), 1);
}

#[test]
fn writer_finish_hands_out_days_in_ascending_order() {
    let mut w = DailyEventWriter::new("", 10);
    w.push(event("s", 0, 1_700_000_000_000 + DAY)).unwrap();
    w.push(event("s", 1, 1_700_000_000_000)).unwrap();
    w.push(event("s", 2, 1_700_000_000_000 + DAY)).unwrap();
    let (chunks, paths) = w.finish();
    assert_eq!(chunks.len(), 2);
    assert_eq!(chunks[0].path, "cold/events/2023-11-14-000000.parquet");
    assert_eq!(chunks[1].path, "cold/events/2023-11-15-000000.parquet");
    assert_eq!(chunks[1].rows.iter().map(|e| e.seq).collect::<Vec<_>>(), vec![0, 2]);
    assert_eq!(paths.len(), 2);
}

#[test]
fn writer_refuses_unpartitionable_event_and_keeps_state() {
    let mut w = DailyEventWriter::new("/d", 5);
    w.push(event("s", 0, 1_700_000_000_000)).unwrap();
    assert_eq!(w.push(event("s", 1, u64::MAX)).unwrap_err(), StoreError::TimestampOutOfRange);
    let (chunks, _) = w.finish();
    assert_eq!(chunks.len(), 1);
    assert_eq!(chunks[0].rows.len(), 1);
}

#[test]
fn write_daily_events_lays_out_one_file_per_day() {
    let events = vec![
        event("a", 0, 1_700_000_000_000 + DAY),
        event("a", 1, 1_700_000_000_000),
        event("b", 0, 1_700_000_000_000 + DAY + 5),
    ];
    let files = write_daily_events("/root", &events).unwrap();
    assert_eq!(files.len(), 2);
    assert_eq!(files[0].path, "/root/cold/events/2023-11-14.parquet");
    assert_eq!(files[0].rows, vec![1]);
    assert_eq!(files[1].path, "/root/cold/events/2023-11-15.parquet");
    assert_eq!(files[1].rows, vec![0, 2]);
}

#[test]
fn write_daily_events_refuses_when_any_timestamp_is_out_of_range() {
    let events = vec![event("a", 0, 1_700_000_000_000), event("a", 1, u64::MAX)];
    assert_eq!(write_daily_events("/root", &events).unwrap_err(), StoreError::TimestampOutOfRange);
    assert!(write_daily_events("/root", &[]).unwrap().is_empty());
}

#[test]
fn order_events_sorts_by_time_session_and_seq_stably() {
    let mut a = event("b", 1, 10);
    a.tool = Some("first".into());
    let mut b = event("b", 1, 10);
    b.tool = Some("second".into());
    let events = vec![event("b", 2, 10), a, event("a", 9, 10), event("z", 0, 5), b];
    let ordered = order_events(events);
    let keys: Vec<(u64, String, u64)> = ordered.iter().map(|e| (e.ts_ms, e.session_id.clone(), e.seq)).collect();
    assert_eq!(
        keys,
        vec![
            (5, "z".to_string(), 0),
            (10, "a".to_string(), 9),
            (10, "b".to_string(), 1),
            (10, "b".to_string(), 1),
            (10, "b".to_string(), 2),
        ]
    );
    assert_eq!(ordered[2].tool.as_deref(), Some("first"));
    assert_eq!(ordered[3].tool.as_deref(), Some("second"));
}

#[test]
fn partition_expired_compares_day_names() {
    assert_eq!(partition_expired("2023-11-13-000000", 1_700_000_000_000), Ok(true));
    assert_eq!(partition_expired("2023-11-14", 1_700_000_000_000), Ok(false));
    assert_eq!(partition_expired("2023-11-14-000003", 1_700_000_000_000), Ok(false));
    assert!(partition_expired("x", u64::MAX).is_err());
}
