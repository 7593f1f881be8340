use kaizen::contracts::SessionFilter;
use kaizen::event::SessionStatus;
use kaizen::session_query::{escape_like, session_filter_sql, session_page, sessions_by_day, SqlArg};

const DAY: u64 = 86_400_000;

#[test]
fn escape_like_lowercases_and_escapes_wildcards() {
    assert_eq!(escape_like("Cur_50%\\x"), "cur\\_50\\%\\\\x");
    assert_eq!(escape_like("ÄB"), "äb");
}

#[test]
fn filter_sql_lists_conditions_in_order() {
    let filter = SessionFilter {
        agent_prefix: Some("Cur".into()),
        status: Some(SessionStatus::Running),
        since_ms: Some(1500),
    };
    let (sql, args) = session_filter_sql("/ws", &filter);
    assert_eq!(
        sql,
        "WHERE workspace = ? AND lower(agent) LIKE ? ESCAPE '\\' AND status = ? AND started_at_ms >= ?"
    );
    assert_eq!(
        args,
        vec![
            SqlArg::Text("/ws".into()),
            SqlArg::Text("cur%".into()),
            SqlArg::Text("Running".into()),
            SqlArg::Integer(1500),
        ]
    );
}

#[test]
fn filter_sql_skips_empty_prefix() {
    let filter = SessionFilter { agent_prefix: Some(String::new()), status: None, since_ms: None };
    let (sql, args) = session_filter_sql("w", &filter);
    assert_eq!(sql, "WHERE workspace = ?");
    assert_eq!(args, vec![SqlArg::Text("w".into())]);
}

#[test]
fn sessions_by_day_counts_the_last_week() {
    let now = 19_675 * DAY + 5;
    let started = [(19_675 * DAY) as i64, (19_675 * DAY + 1) as i64, (19_670 * DAY) as i64, (19_600 * DAY) as i64];
    let days = sessions_by_day(now, &started);
    assert_eq!(days.len(), 7);
    assert_eq!(days[6], ("Tue".to_string(), 2));
    assert_eq!(days[1], ("Thu".to_string(), 1));
    assert_eq!(days.iter().map(|d| d.1).sum::<u64>(), 3);
}

#[test]
fn page_reports_next_offset_while_rows_remain() {
    let p = session_page(vec![], 10, 4);
    assert_eq!(p.next_offset, Some(4));
    let p = session_page(vec![], 4, 4);
    assert_eq!(p.next_offset, None);
    assert_eq!(p.total, 4);
}
