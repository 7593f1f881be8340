use kaizen::query::QueryStore;

#[test]
fn query_store_opens_and_cold_tier_is_empty() {
    let q = QueryStore::open("/tmp/anywhere").unwrap();
    assert_eq!(q.cold_event_count().unwrap(), 0);
}
