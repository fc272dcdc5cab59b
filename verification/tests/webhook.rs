use amail_bridge::router::ProfileRouter;
use amail_bridge::webhook::{
    batch_header_value, batch_reply, forward_failed, is_success, looks_like_batch, plan_batch,
    plan_webhook, route_webhook, settle_batch, ForwardHeaders, Plan, Reply,
};
use axum::http::{HeaderMap, HeaderValue};

fn router() -> ProfileRouter {
    ProfileRouter::new(String::from("/nonexistent/amail_routes.toml"))
}

fn no_headers() -> ForwardHeaders {
    ForwardHeaders::from_config(&[])
}

fn relay_headers() -> ForwardHeaders {
    ForwardHeaders::from_config(&amail_bridge::config::default_forward_headers())
}

fn answer(plan: Plan) -> Reply {
    match plan {
        Plan::Answer(reply) => reply,
        _ => panic!("no answer"),
    }
}

#[test]
fn test_handle_webhook_missing_email() {
    let plan = plan_webhook(
        &mut router(),
        &no_headers(),
        &HeaderMap::new(),
        b"{\"hello\": \"world\"}",
    );
    let reply = answer(plan);
    assert_eq!(reply.status, 400);
    assert_eq!(reply.body, "Missing X-Amail-Email header");
}

#[test]
fn test_handle_batch_webhook_invalid_json() {
    let reply = answer(plan_batch(&mut router(), &no_headers(), b"not-json"));
    assert_eq!(reply.status, 400);
    assert_eq!(reply.body, "Invalid batch JSON: expected ident at line 1 column 2");
}

#[test]
fn test_handle_batch_webhook_missing_signatures() {
    let reply = answer(plan_batch(&mut router(), &no_headers(), b"{\"body\": {}}"));
    assert_eq!(reply.status, 400);
    assert_eq!(reply.body, "Missing 'signatures' array");
}

#[test]
fn test_handle_batch_webhook_empty_signatures() {
    match plan_batch(&mut router(), &no_headers(), b"{\"signatures\": []}") {
        Plan::FanOut { deliveries, body, total } => {
            assert!(deliveries.is_empty());
            assert_eq!(body, b"{}");
            assert_eq!(batch_reply(0, total).status, 200);
        }
        _ => panic!("no fan-out"),
    }
}

#[test]
fn test_handle_batch_webhook_entry_without_email() {
    match plan_batch(&mut router(), &no_headers(), b"{\"signatures\": [{\"signature\": \"sig\"}]}") {
        Plan::FanOut { deliveries, total, .. } => {
            assert!(deliveries.is_empty());
            assert_eq!(batch_reply(0, total).status, 207);
        }
        _ => panic!("no fan-out"),
    }
}

#[test]
fn test_handle_batch_webhook_partial_delivery_no_route() {
    let body = b"{\"signatures\": [{\"email\": \"nobody@x.com\", \"signature\": \"sig\"}]}";
    match plan_batch(&mut router(), &no_headers(), body) {
        Plan::FanOut { deliveries, total, .. } => {
            assert!(deliveries.is_empty());
            let reply = batch_reply(0, total);
            assert_eq!(reply.status, 207);
            assert_eq!(reply.body, "0/1 delivered");
        }
        _ => panic!("no fan-out"),
    }
}

#[test]
fn test_batch_detection_prefix_matches() {
    assert!(looks_like_batch(b"{\"signatures\":[]}"));
    assert!(looks_like_batch(b"{\"signatures\": []}"));
    assert!(looks_like_batch(b"{\"signatures\":\"abc\"}"));
}

#[test]
fn test_batch_detection_prefix_does_not_match() {
    assert!(!looks_like_batch(b"{\"data\": {}}"));
    assert!(!looks_like_batch(b"{\"signature\": \"x\"}"));
    assert!(!looks_like_batch(b"not-json"));
    assert!(!looks_like_batch(b"{\"signatures\""));
    assert!(!looks_like_batch(b""));
}

#[test]
fn single_post_is_forwarded_with_configured_headers() {
    let mut router = router();
    router.update_route("alice@x.com", "http://127.0.0.1:8799/hook", 0);
    let mut headers = HeaderMap::new();
    headers.insert("x-amail-email", HeaderValue::from_static("alice@x.com"));
    headers.insert("x-webhook-signature", HeaderValue::from_static("sha256=1"));
    headers.append("x-webhook-signature", HeaderValue::from_static("sha256=2"));
    headers.insert("authorization", HeaderValue::from_static("secret"));
    headers.insert("host", HeaderValue::from_static("bridge"));
    match plan_webhook(&mut router, &relay_headers(), &headers, b"{}") {
        Plan::Forward { email, target, headers } => {
            assert_eq!(email, "alice@x.com");
            assert_eq!(target, "http://127.0.0.1:8799/hook");
            assert_eq!(headers.len(), 2);
            assert_eq!(headers.get("x-amail-email").unwrap(), "alice@x.com");
            assert_eq!(headers.get("x-webhook-signature").unwrap(), "sha256=1");
        }
        _ => panic!("no forward"),
    }
}

#[test]
fn post_for_unknown_agent_is_refused() {
    let mut headers = HeaderMap::new();
    headers.insert("X-Amail-Email", HeaderValue::from_static("nobody@x.com"));
    let reply = answer(plan_webhook(&mut router(), &relay_headers(), &headers, b"{}"));
    assert_eq!(reply.status, 502);
    assert_eq!(reply.body, "No route for nobody@x.com");
}

#[test]
fn unreadable_email_header_counts_as_missing() {
    let mut headers = HeaderMap::new();
    headers.insert("x-amail-email", HeaderValue::from_bytes(b"al\xffice").unwrap());
    let reply = answer(plan_webhook(&mut router(), &relay_headers(), &headers, b"{}"));
    assert_eq!(reply.status, 400);
}

#[test]
fn route_of_a_post() {
    let mut router = router();
    router.update_route("a@x.com", "127.0.0.1", 8645);
    let route = route_webhook(&mut router, Some("a@x.com")).unwrap();
    assert_eq!(route.target_url(), "http://127.0.0.1:8645/webhooks/amail-inbound");
    assert_eq!(route_webhook(&mut router, None).unwrap_err().status, 400);
    assert_eq!(route_webhook(&mut router, Some("b@x.com")).unwrap_err().status, 502);
}

#[test]
fn batch_is_fanned_out() {
    let mut router = router();
    router.update_route("alice@x.com", "127.0.0.1", 8645);
    router.update_route("bob@x.com", "http://127.0.0.1:8646/hook", 0);
    let body = b"{\"signatures\":[{\"email\":\"alice@x.com\",\"signature\":\"s1\",\"timestamp\":\"t1\"},{\"email\":\"nobody@x.com\"},{\"email\":\"bob@x.com\"},{\"email\":5},7],\"subject\":\"hi\",\"a\":[1,2.5,null,true]}";
    match plan_webhook(&mut router, &relay_headers(), &HeaderMap::new(), body) {
        Plan::FanOut { deliveries, body, total } => {
            assert_eq!(total, 5);
            assert_eq!(body, b"{\"a\":[1,2.5,null,true],\"subject\":\"hi\"}");
            assert_eq!(deliveries.len(), 2);
            assert_eq!(deliveries[0].email, "alice@x.com");
            assert_eq!(deliveries[0].target, "http://127.0.0.1:8645/webhooks/amail-inbound");
            let h: Vec<(&str, &str)> =
                deliveries[0].headers.iter().map(|(n, v)| (n.as_str(), v.as_str())).collect();
            assert_eq!(
                h,
                vec![
                    ("x-amail-email", "alice@x.com"),
                    ("x-webhook-signature", "s1"),
                    ("x-mailrelay-timestamp", "t1"),
                    ("content-type", "application/json"),
                ]
            );
            assert_eq!(deliveries[1].target, "http://127.0.0.1:8646/hook");
            assert_eq!(deliveries[1].headers[1].1, "");
        }
        _ => panic!("no fan-out"),
    }
}

#[test]
fn lookups_of_a_fan_out_are_kept() {
    let mut router = router();
    router.load_from_file(Some("\".*@x\" = \"10.0.0.9:1\"\n"));
    let body = b"{\"signatures\":[{\"email\":\"a@x\"},{\"email\":\"b@y\"}]}";
    let _ = plan_batch(&mut router, &no_headers(), body);
    assert_eq!(router.list_emails(), vec!["a@x".to_string()]);
}

#[test]
fn empty_list_of_signatures_is_a_single_post() {
    let reply =
        answer(plan_webhook(&mut router(), &no_headers(), &HeaderMap::new(), b"{\"signatures\":[]}"));
    assert_eq!(reply.body, "Missing X-Amail-Email header");
    let reply =
        answer(plan_webhook(&mut router(), &no_headers(), &HeaderMap::new(), b"{\"signatures\":[1"));
    assert_eq!(reply.body, "Missing X-Amail-Email header");
}

#[test]
fn headers_of_batches() {
    assert_eq!(
        batch_header_value("x-amail-email", "e", "s", "t"),
        Some(("x-amail-email", "e".to_string()))
    );
    assert_eq!(
        batch_header_value("x-webhook-signature", "e", "s", "t"),
        Some(("x-webhook-signature", "s".to_string()))
    );
    assert_eq!(
        batch_header_value("x-mailrelay-timestamp", "e", "s", "t"),
        Some(("x-mailrelay-timestamp", "t".to_string()))
    );
    assert_eq!(
        batch_header_value("content-type", "e", "s", "t"),
        Some(("content-type", "application/json".to_string()))
    );
    assert_eq!(batch_header_value("x-other", "e", "s", "t"), None);
}

#[test]
fn configured_names_that_are_none_are_left_out() {
    let forward =
        ForwardHeaders::from_config(&["X-Ok".to_string(), "not a name".to_string(), "".to_string()]);
    let mut router = router();
    router.update_route("a@x", "h", 1);
    let mut headers = HeaderMap::new();
    headers.insert("x-amail-email", HeaderValue::from_static("a@x"));
    headers.insert("x-ok", HeaderValue::from_static("1"));
    match plan_webhook(&mut router, &forward, &headers, b"") {
        Plan::Forward { headers, .. } => {
            assert_eq!(headers.len(), 1);
            assert_eq!(headers.get("x-ok").unwrap(), "1");
        }
        _ => panic!("no forward"),
    }
}

#[test]
fn answers_after_forwarding() {
    let reply = forward_failed("connection refused");
    assert_eq!((reply.status, reply.body.as_str()), (502, "Forward failed: connection refused"));
    let reply = batch_reply(3, 3);
    assert_eq!((reply.status, reply.body.as_str()), (200, "3/3 delivered"));
    let reply = batch_reply(1, 12);
    assert_eq!((reply.status, reply.body.as_str()), (207, "1/12 delivered"));
}

#[test]
fn full_success_means_all_took() {
    for (status, taken) in [(199, false), (200, true), (299, true), (300, false), (502, false)] {
        assert_eq!(is_success(status), taken);
    }
    let reply = settle_batch(&vec![Some(200), Some(204)], 2);
    assert_eq!((reply.status, reply.body.as_str()), (200, "2/2 delivered"));
    let reply = settle_batch(&vec![Some(200), Some(500), None, Some(202)], 4);
    assert_eq!((reply.status, reply.body.as_str()), (207, "2/4 delivered"));
    let reply = settle_batch(&vec![Some(200)], 2);
    assert_eq!((reply.status, reply.body.as_str()), (207, "1/2 delivered"));
    let reply = settle_batch(&vec![], 0);
    assert_eq!((reply.status, reply.body.as_str()), (200, "0/0 delivered"));
}
