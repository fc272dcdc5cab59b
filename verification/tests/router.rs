use amail_bridge::router::{ProfileRoute, ProfileRouter};

fn router() -> ProfileRouter {
    ProfileRouter::new(String::from("/nonexistent/amail_routes.toml"))
}

#[test]
fn test_parse_addr_ipv4_with_port() {
    let (host, port) = ProfileRouter::parse_addr("192.168.1.2:8645").unwrap();
    assert_eq!(host, "192.168.1.2");
    assert_eq!(port, 8645);
}

#[test]
fn test_parse_addr_ipv6_with_port() {
    let (host, port) = ProfileRouter::parse_addr("[::1]:8645").unwrap();
    assert_eq!(host, "[::1]");
    assert_eq!(port, 8645);
}

#[test]
fn test_parse_addr_bare_port() {
    let (host, port) = ProfileRouter::parse_addr("8645").unwrap();
    assert_eq!(host, "127.0.0.1");
    assert_eq!(port, 8645);
}

#[test]
fn test_parse_addr_bare_hostname() {
    let (host, port) = ProfileRouter::parse_addr("myhost.local").unwrap();
    assert_eq!(host, "myhost.local");
    assert_eq!(port, 8645);
}

#[test]
fn test_parse_addr_empty() {
    assert!(ProfileRouter::parse_addr("").is_none());
}

#[test]
fn test_parse_addr_hostname_with_port() {
    let (host, port) = ProfileRouter::parse_addr("bridge.example.com:38080").unwrap();
    assert_eq!(host, "bridge.example.com");
    assert_eq!(port, 38080);
}

#[test]
fn parse_addr_edge_cases() {
    assert_eq!(ProfileRouter::parse_addr("  10.0.0.1:80 "), Some(("10.0.0.1".to_string(), 80)));
    assert_eq!(ProfileRouter::parse_addr("[::1]"), None);
    assert_eq!(ProfileRouter::parse_addr("[::1]:x"), None);
    assert_eq!(ProfileRouter::parse_addr("host:70000"), Some(("host:70000".to_string(), 8645)));
    assert_eq!(ProfileRouter::parse_addr("+99"), Some(("127.0.0.1".to_string(), 99)));
    assert_eq!(ProfileRouter::parse_addr(" \t\u{3000}"), None);
}

#[test]
fn test_load_from_file_and_lookup() {
    let mut router = router();
    router.load_from_file(Some(r#""a1@t.local" = "127.0.0.1:8001""#));
    assert_eq!(router.route_count(), 1);
    assert!(router.lookup("a1@t.local").is_some());
    assert!(router.lookup("nobody@t.local").is_none());
}

#[test]
fn test_load_from_file_overrides_empty() {
    let mut router = router();
    router.load_from_file(None);
    assert_eq!(router.route_count(), 0);
}

#[test]
fn test_routes_file_regex_pattern_matches() {
    let mut router = router();
    router.load_from_file(Some(
        r#""a1@admin.relay" = "127.0.0.1:8765"
".*@admin" = "10.0.0.88:8765"
"#,
    ));
    let route = router.lookup("a1@admin.relay").unwrap();
    assert_eq!(route.host, "127.0.0.1", "Exact match wins over regex");
    assert_eq!(route.port, 8765);
}

#[test]
fn pattern_serves_unknown_emails() {
    let mut router = router();
    router.load_from_file(Some("\".*@admin\\\\.relay\" = \"10.0.0.88:8765\"\n"));
    assert_eq!(router.route_count(), 0);
    let route = router.lookup("b2@admin.relay").unwrap();
    assert_eq!(route.email, "b2@admin.relay");
    assert_eq!(route.host, "10.0.0.88");
    assert_eq!(route.target_url(), "http://10.0.0.88:8765/webhooks/amail-inbound");
    // What was found is kept as an exact route.
    assert_eq!(router.route_count(), 1);
    assert!(router.lookup("b2@adminXrelay").is_none());
}

#[test]
fn invalid_pattern_is_left_out() {
    let mut router = router();
    router.load_from_file(Some("\"(\" = \"10.0.0.1:1\"\n\"a@x\" = \"10.0.0.2:2\"\n"));
    assert_eq!(router.route_count(), 1);
    assert!(router.lookup("(").is_none());
    assert!(router.lookup("a@x").is_some());
}

#[test]
fn malformed_file_empties_the_table() {
    let mut router = router();
    router.update_route("a@x.com", "127.0.0.1", 1);
    router.load_from_file(Some("not toml"));
    assert_eq!(router.route_count(), 0);
    router.update_route("a@x.com", "127.0.0.1", 1);
    router.load_from_file(Some("\"a@x.com\" = 5\n"));
    assert_eq!(router.route_count(), 0);
}

#[test]
fn entry_without_address_is_left_out() {
    let mut router = router();
    router.load_from_file(Some("\"a@x.com\" = \"\"\n\"b@x.com\" = \"[::1]\"\n\"c@x.com\" = \"9\"\n"));
    assert_eq!(router.list_emails(), vec!["c@x.com".to_string()]);
}

#[test]
fn test_route_added_via_api_persists() {
    let mut router = router();
    router.update_route("alice@x.com", "127.0.0.1", 8645);
    let content = router.begin_write();
    router.finish_write();
    assert!(content.contains("alice@x.com"));
    assert!(content.contains("127.0.0.1:8645"));
}

#[test]
fn test_route_from_full_url_preserves_path() {
    let route = ProfileRoute::from_url("alice@x.com".into(), "http://127.0.0.1:8799/hook");
    assert_eq!(route.target_url(), "http://127.0.0.1:8799/hook");
    assert_eq!(route.host, "127.0.0.1");
    assert_eq!(route.port, 8799);
}

#[test]
fn test_route_from_full_url_no_port() {
    let route = ProfileRoute::from_url(
        "bob@x.com".into(),
        "http://10.0.0.5/webhooks/agentmail-inbound",
    );
    assert_eq!(route.target_url(), "http://10.0.0.5/webhooks/agentmail-inbound");
    assert_eq!(route.host, "10.0.0.5");
    assert_eq!(route.port, 80);
}

#[test]
fn route_from_other_urls() {
    let r = ProfileRoute::from_url("a".into(), " https://h.example:444/x ");
    assert_eq!(r.target_url(), "https://h.example:444/x");
    assert_eq!((r.host.as_str(), r.port), ("h.example", 444));
    let r = ProfileRoute::from_url("a".into(), "http://[::1]:8799/hook");
    assert_eq!((r.host.as_str(), r.port), ("[::1]", 8799));
    let r = ProfileRoute::from_url("a".into(), "http://[::1]/hook");
    assert_eq!((r.host.as_str(), r.port), ("[::1]", 80));
    let r = ProfileRoute::from_url("a".into(), "h/x");
    assert_eq!(r.target_url(), "http://h/x");
    let r = ProfileRoute::from_url("a".into(), "h:99999/x");
    assert_eq!((r.host.as_str(), r.port), ("h", 80));
}

#[test]
fn test_load_full_url_routes_file() {
    let mut router = router();
    router.load_from_file(Some(
        "\"a1@t.local\" = \"http://127.0.0.1:8799/hook\"\n\"a2@t.local\" = \"127.0.0.1:8002\"\n",
    ));
    let r1 = router.lookup("a1@t.local").unwrap();
    assert_eq!(r1.target_url(), "http://127.0.0.1:8799/hook", "full URL path preserved");
    let r2 = router.lookup("a2@t.local").unwrap();
    assert_eq!(
        r2.target_url(),
        "http://127.0.0.1:8002/webhooks/amail-inbound",
        "bare host:port falls back to legacy path"
    );
}

#[test]
fn test_route_api_persists_full_url() {
    let mut router = router();
    router.update_route("c1@t.local", "http://127.0.0.1:8799/hook", 0);
    let content = router.begin_write();
    router.finish_write();
    assert!(content.contains("\"http://127.0.0.1:8799/hook\""), "full URL persisted: {}", content);
    let r = router.lookup("c1@t.local").unwrap();
    assert_eq!(r.target_url(), "http://127.0.0.1:8799/hook");
}

#[test]
fn file_content_is_exact() {
    let mut router = router();
    router.update_route("b@x.com", "http://h/x", 0);
    router.update_route("a@x.com", "127.0.0.1", 8645);
    assert_eq!(
        router.file_content(),
        "# Auto-generated by amail-bridge.\n# File changes take effect immediately.\n\
         \"a@x.com\" = \"127.0.0.1:8645\"\n\"b@x.com\" = \"http://h/x\"\n"
    );
}

#[test]
fn saved_table_is_read_back() {
    let mut router = router();
    router.update_route("b@x.com", "https://h:444/x?y=1", 0);
    router.update_route("a@x.com", "127.0.0.1", 8645);
    router.update_route("c@x.com", "[::1]", 9);
    let content = router.begin_write();
    router.finish_write();
    let mut other = ProfileRouter::new(String::from("elsewhere"));
    other.load_from_file(Some(content.as_str()));
    let a = router.list_routes();
    let b = other.list_routes();
    assert_eq!(a.len(), 3);
    assert_eq!(b.len(), 3);
    for i in 0..3 {
        assert_eq!(a[i].email, b[i].email);
        assert_eq!(a[i].host, b[i].host);
        assert_eq!(a[i].port, b[i].port);
        assert_eq!(a[i].target_url(), b[i].target_url());
    }
}

#[test]
fn removal_undoes_registration() {
    let mut router = router();
    router.update_route("a@x.com", "127.0.0.1", 1);
    router.update_route("b@x.com", "127.0.0.1", 2);
    router.remove_route("b@x.com");
    router.remove_route("nobody@x.com");
    assert_eq!(router.list_emails(), vec!["a@x.com".to_string()]);
    assert!(router.lookup("b@x.com").is_none());
}

#[test]
fn registration_replaces_the_route() {
    let mut router = router();
    router.update_route("a@x.com", "127.0.0.1", 1);
    router.update_route("a@x.com", "127.0.0.1", 2);
    assert_eq!(router.route_count(), 1);
    assert_eq!(router.lookup("a@x.com").unwrap().port, 2);
}

#[test]
fn routes_are_listed_in_order() {
    let mut router = router();
    for email in ["m@x", "a@x", "z@x", "b@x", "ab@x"] {
        router.update_route(email, "h", 1);
    }
    assert_eq!(router.list_emails(), vec!["a@x", "ab@x", "b@x", "m@x", "z@x"]);
}

#[test]
fn own_writes_do_not_reload() {
    let mut router = router();
    let changed = vec!["/other".to_string(), "/nonexistent/amail_routes.toml".to_string()];
    assert!(router.should_reload(&changed));
    assert!(!router.should_reload(&vec!["/other".to_string()]));
    let _ = router.begin_write();
    assert!(!router.should_reload(&changed));
    router.finish_write();
    assert!(router.should_reload(&changed));
}

#[test]
fn pattern_characters() {
    assert!(ProfileRouter::is_regex_pattern(".*@x"));
    assert!(ProfileRouter::is_regex_pattern("a|b"));
    assert!(!ProfileRouter::is_regex_pattern("a.b-c_d@x.com"));
}

#[test]
fn default_endpoint_url_is_read_back() {
    let mut router = router();
    router.update_route("a@x.com", "http://127.0.0.1:8645/webhooks/amail-inbound", 1);
    router.update_route("b@x.com", "http://[::1]:8645/webhooks/amail-inbound", 1);
    let content = router.file_content();
    assert!(content.contains("\"a@x.com\" = \"127.0.0.1:8645\"\n"));
    assert!(content.contains("\"b@x.com\" = \"[::1]:8645\"\n"));
    router.load_from_file(Some(content.as_str()));
    assert_eq!(
        router.lookup("a@x.com").unwrap().target_url(),
        "http://127.0.0.1:8645/webhooks/amail-inbound"
    );
    assert_eq!(
        router.lookup("b@x.com").unwrap().target_url(),
        "http://[::1]:8645/webhooks/amail-inbound"
    );
}

#[test]
fn custom_path_is_saved_in_full() {
    let mut router = router();
    router.update_route("a@x.com", "http://127.0.0.1:8799/v2/webhooks/amail-inbound", 0);
    let content = router.file_content();
    assert!(content
        .ends_with("\"a@x.com\" = \"http://127.0.0.1:8799/v2/webhooks/amail-inbound\"\n"));
    router.load_from_file(Some(content.as_str()));
    assert_eq!(
        router.lookup("a@x.com").unwrap().target_url(),
        "http://127.0.0.1:8799/v2/webhooks/amail-inbound"
    );
}

#[test]
fn pattern_leads_to_its_full_url() {
    let mut router = router();
    router.load_from_file(Some("\".*@d.com\" = \"http://10.0.0.5:8799/hook\"\n"));
    let route = router.lookup("x@d.com").unwrap();
    assert_eq!(route.email, "x@d.com");
    assert_eq!(route.host, "10.0.0.5");
    assert_eq!(route.port, 8799);
    assert_eq!(route.target_url(), "http://10.0.0.5:8799/hook");
}

#[test]
fn host_with_a_port_is_registered() {
    let mut router = router();
    router.update_route("a@x.com", "127.0.0.1:8645", 1);
    router.update_route("b@x.com", "[::1]:8646", 1);
    router.update_route("c@x.com", "host:port", 8647);
    let a = router.lookup("a@x.com").unwrap();
    assert_eq!(a.target_url(), "http://127.0.0.1:8645/webhooks/amail-inbound");
    assert_eq!((a.host.as_str(), a.port), ("127.0.0.1", 8645));
    assert_eq!(
        router.lookup("b@x.com").unwrap().target_url(),
        "http://[::1]:8646/webhooks/amail-inbound"
    );
    assert_eq!(
        router.lookup("c@x.com").unwrap().target_url(),
        "http://host:port:8647/webhooks/amail-inbound"
    );
}

#[test]
fn bare_ipv6_host_is_kept() {
    let mut router = router();
    for host in ["::1", "fe80::1", "fe80::ab", "2001:db8::8646"] {
        router.update_route("a@x.com", host, 8645);
        let route = router.lookup("a@x.com").unwrap();
        assert_eq!((route.host.as_str(), route.port), (host, 8645));
    }
    router.update_route("a@x.com", "[::1]", 8645);
    let route = router.lookup("a@x.com").unwrap();
    assert_eq!((route.host.as_str(), route.port), ("[::1]", 8645));
}

#[test]
fn email_that_looks_like_a_pattern_is_found() {
    let mut router = router();
    router.load_from_file(Some(
        "\".*@x.com\" = \"10.0.0.1:1\"\n\"alice+tag@x.com\" = \"127.0.0.1:8645\"\n",
    ));
    let route = router.lookup("alice+tag@x.com").unwrap();
    assert_eq!((route.host.as_str(), route.port), ("127.0.0.1", 8645));
    assert_eq!(router.lookup("bob@x.com").unwrap().port, 1);
    // What is saved leads the email to the same place again.
    let content = router.file_content();
    router.load_from_file(Some(content.as_str()));
    assert_eq!(router.lookup("alice+tag@x.com").unwrap().port, 8645);
}
