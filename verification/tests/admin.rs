use amail_bridge::admin::{check_admin_ip, create_route, delete_route, list_routes};
use amail_bridge::config::default_admin_allowed_ips;
use amail_bridge::ip::parse_ip;
use amail_bridge::push::IpAllowlist;
use amail_bridge::router::ProfileRouter;

fn router() -> ProfileRouter {
    ProfileRouter::new(String::from("/nonexistent/amail_routes.toml"))
}

#[test]
fn admin_api_is_for_this_machine_by_default() {
    let allowed = IpAllowlist::from_config(&default_admin_allowed_ips());
    assert!(check_admin_ip(&allowed, parse_ip("127.0.0.1")));
    assert!(check_admin_ip(&allowed, parse_ip("::1")));
    assert!(!check_admin_ip(&allowed, parse_ip("127.0.0.2")));
    assert!(!check_admin_ip(&allowed, parse_ip("10.0.0.1")));
    assert!(!check_admin_ip(&allowed, None));
}

#[test]
fn unknown_source_counts_as_unspecified() {
    let allowed = IpAllowlist::from_config(&["0.0.0.0/8".to_string()]);
    assert!(check_admin_ip(&allowed, None));
}

#[test]
fn routes_are_created_listed_and_deleted() {
    let mut router = router();
    let reply = create_route(&mut router, "a@x.com", "http://127.0.0.1:8799/hook", 80);
    assert_eq!((reply.status, reply.body.as_str()), (200, "ok"));
    create_route(&mut router, "b@x.com", "127.0.0.1", 8645);
    let entries = list_routes(&router);
    assert_eq!(entries.len(), 2);
    assert_eq!(
        (entries[0].email.as_str(), entries[0].host.as_str(), entries[0].port),
        ("a@x.com", "127.0.0.1", 8799)
    );
    assert_eq!(entries[1].port, 8645);
    let reply = delete_route(&mut router, "a@x.com");
    assert_eq!((reply.status, reply.body.as_str()), (200, "ok"));
    assert_eq!(list_routes(&router).len(), 1);
}

#[test]
fn incomplete_routes_are_refused() {
    let mut router = router();
    for (email, host, port) in [("", "h", 1), ("a@x", "", 1), ("a@x", "h", 0)] {
        let reply = create_route(&mut router, email, host, port);
        assert_eq!(
            (reply.status, reply.body.as_str()),
            (400, "email, host, and port are required")
        );
    }
    assert_eq!(router.route_count(), 0);
}
