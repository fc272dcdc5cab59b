use amail_bridge::pull::{
    ack_url, backoff_secs, domains, pending_query, pending_url, read_acked, read_batches,
    BatchDelivery, DedupCache, PendingBatch, PullSession, Triage, SEEN_TTL,
};
use amail_bridge::router::ProfileRouter;
use serde_json::Value;

const SEC: u64 = 1_000_000_000;

fn json(text: &str) -> Value {
    serde_json::from_str(text).unwrap()
}

fn router() -> ProfileRouter {
    ProfileRouter::new(String::from("/nonexistent/amail_routes.toml"))
}

#[test]
fn test_pending_batch_deserialize() {
    let v = json(
        r#"{
            "body": {"subject": "hello"},
            "deliveries": [
                {"id": 1, "email": "alice@x.com", "headers": {"x-fwd": "v1"}},
                {"id": 2, "email": "bob@x.com", "headers": {"x-fwd": "v2"}}
            ]
        }"#,
    );
    let batch = PendingBatch::from_json(&v).unwrap();
    assert_eq!(batch.deliveries.len(), 2);
    assert_eq!(batch.deliveries[0].id, 1);
    assert_eq!(batch.deliveries[0].email, "alice@x.com");
    assert_eq!(batch.deliveries[1].id, 2);
    assert_eq!(batch.deliveries[1].email, "bob@x.com");
    assert_eq!(batch.body_bytes().unwrap(), b"{\"subject\":\"hello\"}");
}

#[test]
fn test_pending_batch_empty_deliveries() {
    let batch = PendingBatch::from_json(&json(r#"{"body": {}, "deliveries": []}"#)).unwrap();
    assert!(batch.deliveries.is_empty());
}

#[test]
fn test_batch_delivery_deserialize() {
    let d = BatchDelivery::from_json(&json(
        r#"{"id": 42, "email": "carol@test.org", "headers": {"key": "val"}}"#,
    ))
    .unwrap();
    assert_eq!(d.id, 42);
    assert_eq!(d.email, "carol@test.org");
    assert_eq!(d.headers.get("key").unwrap(), "val");
}

#[test]
fn test_batch_delivery_missing_email() {
    let d = BatchDelivery::from_json(&json(r#"{"id": 0, "email": "", "headers": {}}"#)).unwrap();
    assert!(d.email.is_empty());
}

#[test]
fn test_backoff_calculation_start() {
    assert_eq!(backoff_secs(10, 1), 20);
}

#[test]
fn test_backoff_calculation_ramp() {
    for (failures, expected) in
        &[(0u32, 10u64), (1, 20), (2, 40), (3, 80), (4, 160), (5, 300), (6, 300)]
    {
        let bs = backoff_secs(10, *failures);
        assert_eq!(bs, *expected, "failures={} should give {}", failures, expected);
    }
}

#[test]
fn test_backoff_calculation_capped_at_300() {
    assert_eq!(backoff_secs(10, 100), 300);
}

#[test]
fn test_backoff_different_poll_interval() {
    assert_eq!(backoff_secs(30, 3), 240);
}

#[test]
fn test_backoff_poll_interval_above_max() {
    assert_eq!(backoff_secs(600, 0), 300);
}

#[test]
fn backoff_grows_six_times() {
    assert_eq!(backoff_secs(1, 6), 64);
    assert_eq!(backoff_secs(1, 7), 64);
    assert_eq!(backoff_secs(0, 9), 0);
    assert_eq!(backoff_secs(u64::MAX, u32::MAX), 300);
}

#[test]
fn test_fetch_pending_url_with_trailing_slash() {
    assert_eq!(
        pending_url("http://relay.example.com/"),
        "http://relay.example.com/api/v1/admin/pending"
    );
}

#[test]
fn test_fetch_pending_url_without_trailing_slash() {
    assert_eq!(
        pending_url("http://relay.example.com"),
        "http://relay.example.com/api/v1/admin/pending"
    );
}

#[test]
fn test_fetch_pending_url_localhost() {
    assert_eq!(pending_url("http://127.0.0.1:38080"), "http://127.0.0.1:38080/api/v1/admin/pending");
}

#[test]
fn test_ack_url_construction() {
    assert_eq!(ack_url("http://admin.relay"), "http://admin.relay/api/v1/admin/pending/ack");
}

#[test]
fn test_pending_batch_deserialize_extra_fields() {
    let v = json(r#"{"body": {}, "deliveries": [], "extra": "ignored"}"#);
    let batch = PendingBatch::from_json(&v).unwrap();
    assert!(batch.deliveries.is_empty());
}

#[test]
fn test_pending_batch_body_null() {
    let v = json(r#"{"body": null, "deliveries": [{"id": 1, "email": "a@b.c", "headers": {}}]}"#);
    let batch = PendingBatch::from_json(&v).unwrap();
    assert_eq!(batch.deliveries.len(), 1);
}

#[test]
fn test_pending_batch_delivery_missing_headers() {
    let v = json(r#"{"body": {}, "deliveries": [{"id": 1, "email": "a@b.c"}]}"#);
    assert!(PendingBatch::from_json(&v).is_none());
}

#[test]
fn test_pending_batch_delivery_email_null() {
    let v = json(r#"{"body": {}, "deliveries": [{"id": 1, "email": null, "headers": {}}]}"#);
    assert!(PendingBatch::from_json(&v).is_none());
}

#[test]
fn test_batch_delivery_deserialize_invalid_id_type() {
    let v = json(r#"{"id": "not-a-number", "email": "a@b.c", "headers": {}}"#);
    assert!(BatchDelivery::from_json(&v).is_none());
}

#[test]
fn test_pending_batch_empty_body_array() {
    let batch = PendingBatch::from_json(&json(r#"{"body": [], "deliveries": []}"#)).unwrap();
    assert!(batch.body.is_array());
}

#[test]
fn test_pending_batch_multiple_batches() {
    let v = json(
        r#"{
            "batches": [
                {"body": {"t": 1}, "deliveries": [{"id": 1, "email": "a@x.com", "headers": {}}]},
                {"body": {"t": 2}, "deliveries": [{"id": 2, "email": "b@x.com", "headers": {}}]}
            ]
        }"#,
    );
    let batches = read_batches(&v);
    assert_eq!(batches.len(), 2);
    assert_eq!(batches[0].deliveries[0].email, "a@x.com");
    assert_eq!(batches[1].deliveries[0].email, "b@x.com");
}

#[test]
fn replies_without_proper_batches_have_none() {
    assert!(read_batches(&json("{}")).is_empty());
    assert!(read_batches(&json("[]")).is_empty());
    assert!(read_batches(&json(r#"{"batches": {}}"#)).is_empty());
    assert!(read_batches(&json(r#"{"batches": [{"body": 1, "deliveries": []}, {"body": 1}]}"#))
        .is_empty());
}

#[test]
fn records_can_be_arrays() {
    let d = BatchDelivery::from_json(&json(r#"[-7, "a@b.c", {}]"#)).unwrap();
    assert_eq!((d.id, d.email.as_str()), (-7, "a@b.c"));
    assert!(BatchDelivery::from_json(&json(r#"[1, "a@b.c"]"#)).is_none());
    assert!(BatchDelivery::from_json(&json(r#"[1, "a@b.c", {}, 4]"#)).is_none());
    let b = PendingBatch::from_json(&json(r#"["x", [[1, "a@b.c", {}]]]"#)).unwrap();
    assert_eq!(b.deliveries.len(), 1);
    assert_eq!(b.body_bytes().unwrap(), b"\"x\"");
}

#[test]
fn ids_are_integers_that_fit() {
    for (text, ok) in [
        (r#"{"id": 9223372036854775807, "email": "", "headers": 1}"#, true),
        (r#"{"id": -9223372036854775808, "email": "", "headers": 1}"#, true),
        (r#"{"id": 9223372036854775808, "email": "", "headers": 1}"#, false),
        (r#"{"id": 1.0, "email": "", "headers": 1}"#, false),
        (r#"{"id": 1e3, "email": "", "headers": 1}"#, false),
    ] {
        assert_eq!(BatchDelivery::from_json(&json(text)).is_some(), ok, "{}", text);
    }
}

#[test]
fn acknowledged_count_is_read() {
    assert_eq!(read_acked(&json(r#"{"acked": 3}"#)), Some(3));
    assert_eq!(read_acked(&json(r#"{"acked": -3}"#)), None);
    assert_eq!(read_acked(&json(r#"{"acked": "3"}"#)), None);
    assert_eq!(read_acked(&json("{}")), None);
}

#[test]
fn test_dedup_seen_map_logic() {
    let mut seen = DedupCache::new();
    seen.insert(1, 0);
    seen.insert(2, 0);
    assert_eq!(seen.len(), 2);

    assert!(seen.contains(1, 0));
    assert!(seen.contains(2, 0));

    seen.cleanup(0);
    assert_eq!(seen.len(), 2);

    let ack_only_new: Vec<i64> =
        vec![3i64, 4].into_iter().filter(|id| !seen.contains(*id, 0)).collect();
    assert_eq!(ack_only_new.len(), 2);
    assert_eq!(ack_only_new, vec![3, 4]);

    seen.insert(3, 0);
    assert!(seen.contains(3, 0));
}

#[test]
fn test_dedup_skip_already_forwarded() {
    let mut seen = DedupCache::new();
    seen.insert(42, 0);
    let id = 42i64;
    let already_seen = seen.contains(id, 0);
    assert!(already_seen);
    let deduped_acks = if already_seen { vec![id] } else { vec![] };
    assert_eq!(deduped_acks, vec![42]);
}

#[test]
fn deliveries_are_remembered_for_two_hours() {
    let mut seen = DedupCache::new();
    seen.insert(1, 5);
    assert!(seen.contains(1, 5 + SEEN_TTL - 1));
    assert!(!seen.contains(1, 5 + SEEN_TTL));
    assert_eq!(SEEN_TTL, 7200 * SEC);
    seen.insert(2, 100 * SEC);
    seen.cleanup(5 + SEEN_TTL);
    assert_eq!(seen.len(), 1);
    assert!(!seen.contains(1, 5));
    assert!(seen.contains(2, 200 * SEC));
}

fn delivery(id: i64, email: &str, headers: &str) -> BatchDelivery {
    BatchDelivery { id, email: email.to_string(), headers: json(headers) }
}

#[test]
fn forwarded_is_acknowledged_and_not_posted_again() {
    let mut router = router();
    router.update_route("a@x.com", "127.0.0.1", 8645);
    let mut session = PullSession::new();
    let d = delivery(7, "a@x.com", r#"{"x-b": "2", "x-a": "1"}"#);
    session.begin_cycle(0);
    match session.consider(&mut router, &d, 0) {
        Triage::Forward { target, headers } => {
            assert_eq!(target, "http://127.0.0.1:8645/webhooks/amail-inbound");
            let h: Vec<(&str, &str)> =
                headers.iter().map(|(n, v)| (n.as_str(), v.as_str())).collect();
            assert_eq!(h, vec![("x-a", "1"), ("x-b", "2"), ("content-type", "application/json")]);
        }
        other => panic!("{:?}", other),
    }
    assert!(session.ack_ids().is_empty());
    session.forwarded(&d, 3 * SEC);
    assert_eq!(session.ack_ids(), &vec![7]);
    // A later cycle acknowledges it again and does not post it.
    session.begin_cycle(3600 * SEC);
    assert!(session.ack_ids().is_empty());
    assert!(matches!(session.consider(&mut router, &d, 3600 * SEC), Triage::AckOnly));
    assert_eq!(session.ack_ids(), &vec![7]);
    assert_eq!(session.ack_emails(), &vec!["a@x.com".to_string()]);
    // After two hours it counts as new.
    session.begin_cycle(7300 * SEC);
    assert!(matches!(session.consider(&mut router, &d, 7300 * SEC), Triage::Forward { .. }));
}

#[test]
fn what_cannot_be_posted_stays_pending() {
    let mut router = router();
    router.update_route("a@x.com", "127.0.0.1", 8645);
    let mut session = PullSession::new();
    session.begin_cycle(0);
    let d = delivery(1, "nobody@x.com", "{}");
    assert!(matches!(session.consider(&mut router, &d, 0), Triage::NoRoute));
    for headers in [r#"{"x": 1}"#, "[]", "null", r#""x""#] {
        let d = delivery(2, "a@x.com", headers);
        assert!(matches!(session.consider(&mut router, &d, 0), Triage::BadHeaders));
    }
    assert!(session.ack_ids().is_empty());
}

#[test]
fn decisions_on_plain_values() {
    let mut router = router();
    router.update_route("a@x.com", "http://h/x", 0);
    let mut session = PullSession::new();
    match session.decide(&mut router, 1, "a@x.com", Some(vec![]), 0) {
        Triage::Forward { target, headers } => {
            assert_eq!(target, "http://h/x");
            assert_eq!(headers, vec![("content-type".to_string(), "application/json".to_string())]);
        }
        other => panic!("{:?}", other),
    }
    assert!(matches!(session.decide(&mut router, 1, "a@x.com", None, 0), Triage::BadHeaders));
}

#[test]
fn failures_are_counted() {
    let mut session = PullSession::new();
    assert_eq!(session.fetch_failed(10), 20);
    assert_eq!(session.fetch_failed(10), 40);
    assert_eq!(session.fetch_failure_count(), 2);
    session.fetched();
    assert_eq!(session.fetch_failed(10), 20);
    for i in 1..=20u32 {
        let warned = session.ack_failed();
        assert_eq!(warned, if i % 10 == 0 { Some(i) } else { None });
    }
    session.ack_succeeded();
    assert_eq!(session.ack_failure_count(), 0);
}

#[test]
fn query_names_each_domain_once() {
    let mut router = router();
    assert!(pending_query(&router, "http://r").is_none());
    for email in ["a@x.com", "b@y.com", "c@x.com", "d@e@y.com", "plain"] {
        router.update_route(email, "h", 1);
    }
    let q = pending_query(&router, "http://r///").unwrap();
    assert_eq!(q.url, "http://r/api/v1/admin/pending");
    assert_eq!(q.limit, 50);
    assert_eq!(q.filter, vec!["x.com", "y.com", "plain"]);
    assert_eq!(domains(&vec![]), Vec::<String>::new());
}

#[test]
fn one_success_restores_the_interval() {
    let mut session = PullSession::new();
    assert_eq!(session.next_wait(30), 30);
    for expected in [60u64, 120, 240, 300, 300, 300, 300] {
        assert_eq!(session.fetch_failed(30), expected);
        assert_eq!(session.next_wait(30), expected);
    }
    assert_eq!(session.next_wait(600), 300);
    session.fetched();
    assert_eq!(session.next_wait(30), 30);
    assert_eq!(session.next_wait(600), 600);
}

#[test]
fn poll_acknowledges_what_was_taken() {
    let mut router = router();
    router.update_route("a@x.com", "127.0.0.1", 8645);
    let mut session = PullSession::new();
    session.begin_cycle(0);
    assert!(session.ack_request("http://r/").is_none());
    let taken = delivery(1, "a@x.com", "{}");
    let refused = delivery(2, "a@x.com", "{}");
    let unknown = delivery(3, "nobody@x.com", "{}");
    let odd = delivery(4, "a@x.com", "[]");
    let late = delivery(5, "a@x.com", "{}");
    assert!(matches!(session.consider(&mut router, &taken, 1), Triage::Forward { .. }));
    assert!(session.answered(&taken, 202, 2));
    assert!(matches!(session.consider(&mut router, &refused, 3), Triage::Forward { .. }));
    assert!(!session.answered(&refused, 500, 3));
    assert!(matches!(session.consider(&mut router, &unknown, 4), Triage::NoRoute));
    assert!(matches!(session.consider(&mut router, &odd, 5), Triage::BadHeaders));
    assert!(matches!(session.consider(&mut router, &late, 6), Triage::Forward { .. }));
    session.forwarded(&late, 7);
    assert!(matches!(session.consider(&mut router, &taken, 8), Triage::AckOnly));
    let request = session.ack_request("http://r/").unwrap();
    assert_eq!(request.url, "http://r/api/v1/admin/pending/ack");
    assert_eq!(request.ids, vec![1, 5, 1]);
    // The next poll acknowledges again what was taken less than two hours ago.
    session.begin_cycle(SEEN_TTL + 1);
    assert!(session.ack_request("http://r/").is_none());
    let now = SEEN_TTL + 1;
    assert!(matches!(session.consider(&mut router, &taken, now), Triage::AckOnly));
    let now = SEEN_TTL + 2;
    assert!(matches!(session.consider(&mut router, &taken, now), Triage::Forward { .. }));
    assert_eq!(session.ack_request("http://r").unwrap().ids, vec![1]);
}
