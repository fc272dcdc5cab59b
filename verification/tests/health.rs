use amail_bridge::health::{route_target_key, target_groups, HealthTracker};
use amail_bridge::router::ProfileRouter;

fn empty_router() -> ProfileRouter {
    ProfileRouter::new(String::from("/nonexistent/routes.toml"))
}

fn router_with_route(target: &str) -> ProfileRouter {
    let mut router = empty_router();
    router.update_route("a@x.com", target, 0);
    router
}

fn key(target: &str) -> String {
    let r = router_with_route(target).list_routes().pop().unwrap();
    route_target_key(&r)
}

#[test]
fn test_route_target_key_http_url() {
    assert_eq!(key("http://127.0.0.1:8646/webhooks/agentmail-inbound"), "127.0.0.1:8646");
}

#[test]
fn test_route_target_key_https_url_no_port() {
    assert_eq!(key("https://10.0.0.5/webhooks/agentmail-inbound"), "10.0.0.5:443");
}

#[test]
fn test_route_target_key_http_url_no_port() {
    assert_eq!(key("http://10.0.0.6/hook"), "10.0.0.6:80");
}

#[test]
fn test_route_target_key_ipv6() {
    assert_eq!(key("http://[::1]:8799/hook"), "[::1]:8799");
}

#[test]
fn test_route_target_key_bare_hostport() {
    let mut router = empty_router();
    router.update_route("e@x.com", "127.0.0.1", 8645);
    let r = router.list_routes().pop().unwrap();
    assert_eq!(route_target_key(&r), "127.0.0.1:8645");
}

#[test]
fn route_target_key_edge_cases() {
    assert_eq!(key("http://[::1]/hook"), "[::1]:80");
    assert_eq!(key("https://[::1]/hook"), "[::1]:443");
    assert_eq!(key("http://[::1]:x/hook"), "[::1]:x]:80");
    assert_eq!(key("https://h:x/hook"), "h:x:443");
    assert_eq!(key("http://h:008/hook"), "h:8");
}

fn three_routes() -> ProfileRouter {
    let mut router = empty_router();
    router.update_route("a@x.com", "127.0.0.1", 1);
    router.update_route("b@x.com", "[::1]", 2);
    router.update_route("c@x.com", "http://127.0.0.1:1/other", 0);
    router
}

#[test]
fn routes_are_grouped_by_target() {
    let groups = target_groups(&three_routes());
    assert_eq!(groups.len(), 2);
    assert_eq!(groups[0].target, "127.0.0.1:1");
    assert_eq!(groups[0].emails, vec!["a@x.com", "c@x.com"]);
    assert_eq!(groups[1].target, "[::1]:2");
    assert_eq!(groups[1].emails, vec!["b@x.com"]);
}

#[test]
fn dead_target_loses_its_routes_at_the_threshold() {
    let mut router = three_routes();
    let mut tracker = HealthTracker::new(3);
    for round in 1..=3 {
        let groups = target_groups(&router);
        let dead = tracker.settle(&mut router, &groups, &vec![false, true]);
        if round < 3 {
            assert!(dead.is_empty());
            assert_eq!(router.route_count(), 3);
        } else {
            assert_eq!(dead, vec!["127.0.0.1:1"]);
            assert_eq!(router.list_emails(), vec!["b@x.com"]);
        }
    }
}

#[test]
fn answer_resets_the_count() {
    let mut router = three_routes();
    let mut tracker = HealthTracker::new(2);
    let groups = target_groups(&router);
    assert!(tracker.settle(&mut router, &groups, &vec![false, false]).is_empty());
    assert!(tracker.settle(&mut router, &groups, &vec![true, true]).is_empty());
    assert!(tracker.settle(&mut router, &groups, &vec![false, false]).is_empty());
    assert_eq!(router.route_count(), 3);
    assert_eq!(tracker.settle(&mut router, &groups, &vec![true, false]), vec!["[::1]:2"]);
    assert_eq!(router.list_emails(), vec!["a@x.com", "c@x.com"]);
}

#[test]
fn first_failure_kills_without_a_threshold() {
    let mut router = three_routes();
    let mut tracker = HealthTracker::new(0);
    let groups = target_groups(&router);
    assert_eq!(tracker.settle(&mut router, &groups, &vec![false, false]).len(), 2);
    assert_eq!(router.route_count(), 0);
}

#[test]
fn routes_go_with_their_targets() {
    let mut router = three_routes();
    router.update_route("d@x.com", "http://[::1]:2/hook", 0);
    let mut tracker = HealthTracker::new(1);
    let groups = target_groups(&router);
    assert_eq!(groups[1].emails, vec!["b@x.com", "d@x.com"]);
    assert_eq!(tracker.settle(&mut router, &groups, &vec![true, false]), vec!["[::1]:2"]);
    assert_eq!(router.list_emails(), vec!["a@x.com", "c@x.com"]);
}
