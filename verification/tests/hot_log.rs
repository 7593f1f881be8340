use kaizen::error::StoreError;
use kaizen::hot_log::{
    frame_record, header_bytes, next_session_meta, pending_by_session, read_records, seq_key,
    validate_header, HotLogState, RecordFrame, SessionMeta,
};

fn log_of(payloads: &[&[u8]]) -> Vec<u8> {
    let mut log = header_bytes();
    for p in payloads {
        log.extend(frame_record(p));
    }
    log
}

#[test]
fn header_is_magic_then_version() {
    let h = header_bytes();
    assert_eq!(h, [0x4f, 0x48, 0x4e, 0x45, 0x5a, 0x49, 0x41, 0x4b, 1, 0, 0, 0]);
    assert_eq!(u64::from_le_bytes(h[0..8].try_into().unwrap()), 0x4b41495a454e484f);
    assert_eq!(validate_header(&h), Ok(()));
}

#[test]
fn header_with_wrong_version_is_refused() {
    let mut h = header_bytes();
    h[8] = 2;
    assert_eq!(validate_header(&h), Err(StoreError::InvalidHotLogHeader));
    let mut h = header_bytes();
    h[0] = 0;
    assert_eq!(validate_header(&h), Err(StoreError::InvalidHotLogHeader));
}

#[test]
fn frame_holds_length_payload_and_crc() {
    let f = frame_record(b"abc");
    assert_eq!(&f[0..4], &[3, 0, 0, 0]);
    assert_eq!(&f[4..7], b"abc");
    assert_eq!(u32::from_le_bytes(f[7..11].try_into().unwrap()), 0x352441c2);
}

#[test]
fn records_read_back_in_order_with_offsets() {
    let log = log_of(&[b"abc", b"", b"hello"]);
    let frames = read_records(&log);
    assert_eq!(
        frames,
        vec![
            RecordFrame { offset: 12, start: 16, end: 19 },
            RecordFrame { offset: 23, start: 27, end: 27 },
            RecordFrame { offset: 31, start: 35, end: 40 },
        ]
    );
    assert_eq!(&log[frames[2].start..frames[2].end], b"hello");
}

#[test]
fn torn_tail_keeps_intact_records() {
    let log = log_of(&[b"abc", b"hello"]);
    let cut = &log[..log.len() - 1];
    assert_eq!(read_records(cut), vec![RecordFrame { offset: 12, start: 16, end: 19 }]);
    assert!(read_records(&log[..12]).is_empty());
}

#[test]
fn checksum_mismatch_stops_the_scan() {
    let mut log = log_of(&[b"abc", b"hello"]);
    log[17] ^= 0xff;
    assert!(read_records(&log).is_empty());
}

#[test]
fn seq_key_pads_seq_to_twenty_digits() {
    assert_eq!(seq_key("s1", 7), "s1\u{0}00000000000000000007");
    assert_eq!(seq_key("", u64::MAX), "\u{0}18446744073709551615");
}

#[test]
fn seq_keys_of_distinct_records_differ() {
    assert_ne!(seq_key("s1", 7), seq_key("s1", 70));
    assert_ne!(seq_key("s1", 7), seq_key("s", 17));
    assert_ne!(seq_key("a", 1), seq_key("b", 1));
}

#[test]
fn session_meta_keeps_first_offset_and_takes_last_row() {
    let m = next_session_meta(None, &[(1, 100), (2, 200)]);
    assert_eq!(m, SessionMeta { first_offset: 100, last_offset: 200, last_seq: 2 });
    let m2 = next_session_meta(Some(m), &[(3, 300)]);
    assert_eq!(m2, SessionMeta { first_offset: 100, last_offset: 300, last_seq: 3 });
    let m3 = next_session_meta(None, &[]);
    assert_eq!(m3, SessionMeta { first_offset: 0, last_offset: 0, last_seq: 0 });
}

#[test]
fn pending_rows_group_by_session_and_sort_stably_by_seq() {
    let rows = vec![
        ("b".to_string(), 2, 20),
        ("a".to_string(), 5, 50),
        ("b".to_string(), 1, 10),
        ("b".to_string(), 1, 11),
    ];
    let grouped = pending_by_session(&rows);
    assert_eq!(
        grouped,
        vec![
            ("a".to_string(), vec![(5, 50)]),
            ("b".to_string(), vec![(1, 10), (1, 11), (2, 20)]),
        ]
    );
}

#[test]
fn append_asks_for_flush_at_byte_or_row_threshold() {
    let mut s = HotLogState::new();
    assert!(!s.record_append("s".into(), 0, 12, 100));
    assert_eq!(s.bytes_since_sync, 108);
    assert!(s.record_append("s".into(), 1, 120, 4000));
    let mut t = HotLogState::new();
    for i in 0..127 {
        assert!(!t.record_append("s".into(), i, 0, 0));
    }
    assert!(t.record_append("s".into(), 127, 0, 0));
}
