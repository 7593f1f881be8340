use kaizen::outbox::{
    digest, digest_input, is_replacement, migration_step, reconcile, LegacyOutboxRow, MigrationStep, QueueRow,
};

fn legacy(rows: &[(&str, &str, &str)]) -> Vec<LegacyOutboxRow> {
    rows.iter()
        .enumerate()
        .map(|(i, (o, k, p))| LegacyOutboxRow {
            id: i as u64 + 1,
            owner_id: o.to_string(),
            kind: k.to_string(),
            payload: p.to_string(),
        })
        .collect()
}

fn queue(rows: &[(&str, &str, &str)]) -> Vec<QueueRow> {
    rows.iter()
        .map(|(o, k, p)| QueueRow { owner_id: o.to_string(), kind: k.to_string(), payload: p.to_string() })
        .collect()
}

fn triples(rows: &[QueueRow]) -> Vec<(String, String, String)> {
    rows.iter().map(|r| (r.owner_id.clone(), r.kind.clone(), r.payload.clone())).collect()
}

fn row(owner: &str, kind: &str, payload: &str) -> (String, String, String) {
    (owner.into(), kind.into(), payload.into())
}

#[test]
fn reconcile_orders_legacy_before_surviving_sqlite_rows() {
    let sqlite = queue(&[
        ("event-owner", "events", "duplicate"),
        ("sqlite-only", "events", "sqlite-event"),
        ("replace", "tool_spans", "stale-span"),
        ("snapshot", "repo_snapshots", "stale-snapshot"),
        ("workspace", "workspace_facts", "stale-facts"),
        ("sqlite-replace", "tool_spans", "sqlite-span"),
        ("unknown", "custom_kind", "duplicate-custom"),
        ("event-owner", "events", "duplicate"),
        ("event-owner", "events", "duplicate"),
    ]);
    let old = legacy(&[
        ("event-owner", "events", "duplicate"),
        ("replace", "tool_spans", "legacy-span-a"),
        ("snapshot", "repo_snapshots", "legacy-snapshot"),
        ("unknown", "custom_kind", "duplicate-custom"),
        ("workspace", "workspace_facts", "legacy-facts"),
        ("event-owner", "events", "duplicate"),
        ("replace", "tool_spans", "legacy-span-b"),
    ]);
    assert_eq!(
        triples(&reconcile(&old, &sqlite)),
        vec![
            row("event-owner", "events", "duplicate"),
            row("replace", "tool_spans", "legacy-span-a"),
            row("snapshot", "repo_snapshots", "legacy-snapshot"),
            row("unknown", "custom_kind", "duplicate-custom"),
            row("workspace", "workspace_facts", "legacy-facts"),
            row("event-owner", "events", "duplicate"),
            row("replace", "tool_spans", "legacy-span-b"),
            row("sqlite-only", "events", "sqlite-event"),
            row("sqlite-replace", "tool_spans", "sqlite-span"),
            row("event-owner", "events", "duplicate"),
        ]
    );
}

#[test]
fn reconcile_with_no_legacy_rows_keeps_sqlite_rows() {
    let sqlite = queue(&[("sqlite", "events", "sqlite-row"), ("sqlite", "events", "sqlite-row")]);
    assert_eq!(triples(&reconcile(&vec![], &sqlite)), triples(&sqlite));
}

#[test]
fn replacement_kinds_are_spans_snapshots_and_facts() {
    assert!(is_replacement("tool_spans"));
    assert!(is_replacement("repo_snapshots"));
    assert!(is_replacement("workspace_facts"));
    assert!(!is_replacement("events"));
    assert!(!is_replacement("tool_span"));
}

#[test]
fn digest_covers_tag_ids_and_length_prefixed_fields() {
    let rows = legacy(&[("o", "events", "p€")]);
    let mut expected = b"kaizen-outbox-migration-v1".to_vec();
    expected.extend(1u64.to_le_bytes());
    expected.extend(1u64.to_le_bytes());
    expected.extend(b"o");
    expected.extend(6u64.to_le_bytes());
    expected.extend(b"events");
    expected.extend(4u64.to_le_bytes());
    expected.extend("p€".as_bytes());
    assert_eq!(digest_input(&rows), expected);
    assert_eq!(digest(&rows), blake3::hash(&expected).to_hex().to_string());
    assert_eq!(digest(&vec![]), blake3::hash(b"kaizen-outbox-migration-v1").to_hex().to_string());
}

#[test]
fn migration_step_follows_marker_and_rows() {
    let rows = legacy(&[("legacy", "events", "legacy-row")]);
    let d = digest(&rows);
    assert_eq!(migration_step(Some(d.as_str()), &rows), MigrationStep::AlreadyDone);
    assert_eq!(migration_step(None, &rows), MigrationStep::Merge(d.clone()));
    assert_eq!(migration_step(Some("other"), &rows), MigrationStep::Merge(d));
    let empty = digest(&vec![]);
    assert_eq!(migration_step(None, &vec![]), MigrationStep::MarkOnly(empty));
}
