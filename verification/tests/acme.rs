use amail_bridge::acme::{
    account_contact, account_path, bridge_url, cert_paths, challenge_answer, check_existing_cert,
    check_order, needs_renewal, plan_authorization, plan_challenge, plan_port_80, plan_serving,
    plan_tls, AcmeCertPaths, AuthorizationStatus, AuthorizationStep, ChallengeListener,
    ChallengePlan, ChallengeRegistry, ListenEvent, ListenStep, OrderStatus, Port80Plan, RenewStep,
    RenewTimer, Serving, TlsSource, MAX_AGE, WAITS_PER_LOOK,
};
use amail_bridge::config::BridgeConfig;

#[test]
fn test_check_existing_cert_missing() {
    assert!(check_existing_cert("example.com", "/cache", false, false, None).is_none());
    assert!(check_existing_cert("example.com", "/cache", true, false, Some(0)).is_none());
    assert!(check_existing_cert("example.com", "/cache", false, true, None).is_none());
}

#[test]
fn test_check_existing_cert_fresh() {
    let paths = check_existing_cert("example.com", "/cache", true, true, Some(0))
        .expect("fresh cert should be reused");
    assert_eq!(paths.cert, "/cache/example.com.cert.pem");
    assert_eq!(paths.key, "/cache/example.com.key.pem");
}

#[test]
fn certificates_are_used_for_sixty_days() {
    assert_eq!(MAX_AGE, 60 * 86400 * 1_000_000_000);
    assert!(check_existing_cert("d", "c", true, true, Some(MAX_AGE)).is_some());
    assert!(check_existing_cert("d", "c", true, true, Some(MAX_AGE + 1)).is_none());
    assert!(check_existing_cert("d", "c", true, true, None).is_none());
    assert!(!needs_renewal(Some(MAX_AGE)));
    assert!(needs_renewal(Some(MAX_AGE + 1)));
    assert!(needs_renewal(None));
}

#[test]
fn files_of_certificates() {
    let p = cert_paths("d.org", "");
    assert_eq!((p.cert.as_str(), p.key.as_str()), ("d.org.cert.pem", "d.org.key.pem"));
    assert_eq!(account_path("/c/"), "/c/account.json");
    assert_eq!(account_contact(Some("me@x.org")), "mailto:me@x.org");
    assert_eq!(account_contact(None), "mailto:acme@agent-mail-relay.local");
}

#[test]
fn test_challenge_registry_roundtrip() {
    let mut reg = ChallengeRegistry::new();
    reg.insert("tok".into(), "proof".into());
    assert_eq!(reg.get("tok"), Some("proof"));
    assert!(reg.get("missing").is_none());
}

#[test]
fn registry_keeps_the_last_proof() {
    let mut reg = ChallengeRegistry::new();
    reg.insert("tok".into(), "one".into());
    reg.insert("other".into(), "x".into());
    reg.insert("tok".into(), "two".into());
    assert_eq!(reg.get("tok"), Some("two"));
    assert_eq!(reg.get("other"), Some("x"));
}

#[test]
fn challenges_are_answered_by_plan() {
    assert!(matches!(plan_challenge("t", Some("/d"), true), ChallengePlan::Register));
    match plan_challenge("t", Some("/d"), false) {
        ChallengePlan::WriteFile { dir, path } => {
            assert_eq!(dir, "/d/.well-known/acme-challenge");
            assert_eq!(path, "/d/.well-known/acme-challenge/t");
        }
        other => panic!("{:?}", other),
    }
    assert!(matches!(plan_challenge("t", None, false), ChallengePlan::Listen));
}

#[test]
fn listener_answers_its_challenge() {
    let line = "GET /.well-known/acme-challenge/tok HTTP/1.1\r\n";
    assert_eq!(
        challenge_answer(line, "tok", "pr\u{f6}of").unwrap(),
        "HTTP/1.1 200 OK\r\nContent-Length: 6\r\nConnection: close\r\n\r\npr\u{f6}of"
    );
    assert!(challenge_answer(line, "other", "proof").is_none());
    assert!(challenge_answer("", "tok", "proof").is_none());
}

const SEC: u64 = 1_000_000_000;

fn asking() -> ListenEvent {
    ListenEvent::Request("GET /.well-known/acme-challenge/tok HTTP/1.1\r\n".into())
}

#[test]
fn first_request_is_answered() {
    let mut listener = ChallengeListener::new("tok".into(), "proof".into());
    let other = ListenEvent::Request("GET / HTTP/1.1\r\n".into());
    assert!(matches!(listener.step(&ListenEvent::Quiet, 0), ListenStep::Keep { wait_millis: 100 }));
    assert!(matches!(listener.step(&other, SEC), ListenStep::Keep { wait_millis: 0 }));
    match listener.step(&asking(), 30 * SEC - 1) {
        ListenStep::AnswerAndClose(answer) => assert_eq!(
            answer,
            "HTTP/1.1 200 OK\r\nContent-Length: 5\r\nConnection: close\r\n\r\nproof"
        ),
        other => panic!("{:?}", other),
    }
    assert!(matches!(listener.step(&asking(), 30 * SEC - 1), ListenStep::Close));
    assert!(matches!(listener.step(&ListenEvent::Quiet, 30 * SEC - 1), ListenStep::Close));
}

#[test]
fn listener_closes_in_time() {
    let mut listener = ChallengeListener::new("tok".into(), "proof".into());
    assert!(matches!(listener.step(&asking(), 30 * SEC), ListenStep::Close));
    assert!(matches!(listener.step(&asking(), SEC), ListenStep::Close));
    let mut listener = ChallengeListener::new("tok".into(), "proof".into());
    assert!(matches!(listener.step(&ListenEvent::Failed, 0), ListenStep::Close));
    assert!(matches!(listener.step(&asking(), SEC), ListenStep::Close));
}

#[test]
fn port_80_answers_or_redirects() {
    let mut reg = ChallengeRegistry::new();
    reg.insert("tok".into(), "proof".into());
    match plan_port_80(&reg, "h.org", "/.well-known/acme-challenge/tok", "/.well-known/acme-challenge/tok") {
        Port80Plan::Proof(p) => assert_eq!(p, "proof"),
        other => panic!("{:?}", other),
    }
    match plan_port_80(&reg, "h.org", "/a", "/a?b=1") {
        Port80Plan::Redirect(u) => assert_eq!(u, "https://h.org/a?b=1"),
        other => panic!("{:?}", other),
    }
    assert!(matches!(
        plan_port_80(&reg, "h.org", "/.well-known/acme-challenge/no", "/x"),
        Port80Plan::Redirect(_)
    ));
}

#[test]
fn source_of_the_certificate() {
    let mut cfg = BridgeConfig::default();
    assert!(matches!(plan_tls(&cfg, None), TlsSource::Plain));
    cfg.hostname = Some("10.0.0.1".into());
    assert!(matches!(plan_tls(&cfg, None), TlsSource::Plain));
    cfg.hostname = Some("h.org".into());
    cfg.tls_cert = Some("/c".into());
    match plan_tls(&cfg, Some("/home/u")) {
        TlsSource::Acme { domain, cache_dir } => {
            assert_eq!(domain, "h.org");
            assert_eq!(cache_dir, "/home/u/.acme_cache");
        }
        other => panic!("{:?}", other),
    }
    cfg.tls_key = Some("/k".into());
    match plan_tls(&cfg, None) {
        TlsSource::Files { cert, key } => assert_eq!((cert.as_str(), key.as_str()), ("/c", "/k")),
        other => panic!("{:?}", other),
    }
    cfg.tls_cert = None;
    cfg.acme_cache = Some("/cache".into());
    match plan_tls(&cfg, None) {
        TlsSource::Acme { cache_dir, .. } => assert_eq!(cache_dir, "/cache"),
        other => panic!("{:?}", other),
    }
    assert_eq!(bridge_url(Some("h.org")), "https://h.org/webhooks/amail-inbound");
    assert_eq!(bridge_url(None), "https:///webhooks/amail-inbound");
}

#[test]
fn certificate_is_looked_at_every_twelve_hours() {
    let mut timer = RenewTimer::new();
    assert_eq!(WAITS_PER_LOOK, 12 * 3600 / 10);
    for _ in 0..2 {
        for _ in 0..WAITS_PER_LOOK {
            assert_eq!(timer.step(false), RenewStep::Wait);
        }
        assert_eq!(timer.step(false), RenewStep::Look);
    }
    assert_eq!(timer.step(true), RenewStep::Stop);
}

fn serving(addr: &str, hostname: Option<&str>, files: bool, acquired: bool) -> Serving {
    let mut config = BridgeConfig::default();
    config.addr = addr.into();
    config.hostname = hostname.map(|h| h.to_string());
    if files {
        config.tls_cert = Some("/c.pem".into());
        config.tls_key = Some("/k.pem".into());
    }
    let paths = AcmeCertPaths { cert: "/a/c.pem".into(), key: "/a/k.pem".into() };
    plan_serving(&config, if acquired { Some(paths) } else { None })
}

#[test]
fn serving_follows_the_certificate() {
    assert!(matches!(serving("0.0.0.0:8080", None, true, true), Serving::Http { port: 8080 }));
    assert!(matches!(
        serving("0.0.0.0:80", Some("10.0.0.1"), true, true),
        Serving::Http { port: 80 }
    ));
    // The certificate authority failed.
    assert!(matches!(
        serving("0.0.0.0:80", Some("example.com"), false, false),
        Serving::Http { port: 80 }
    ));
    match serving("0.0.0.0:80", Some("example.com"), false, true) {
        Serving::Tls { cert, key, port } => {
            assert_eq!((cert.as_str(), key.as_str(), port), ("/a/c.pem", "/a/k.pem", 443));
        }
        other => panic!("{:?}", other),
    }
    match serving("0.0.0.0:8443", Some("example.com"), true, true) {
        Serving::Tls { cert, key, port } => {
            assert_eq!((cert.as_str(), key.as_str(), port), ("/c.pem", "/k.pem", 8443));
        }
        other => panic!("{:?}", other),
    }
}

#[test]
fn statuses_decide_on_orders() {
    assert!(matches!(
        plan_authorization(AuthorizationStatus::Pending),
        AuthorizationStep::Answer
    ));
    assert!(matches!(plan_authorization(AuthorizationStatus::Valid), AuthorizationStep::Skip));
    for (status, name) in [
        (AuthorizationStatus::Invalid, "Invalid"),
        (AuthorizationStatus::Revoked, "Revoked"),
        (AuthorizationStatus::Expired, "Expired"),
        (AuthorizationStatus::Deactivated, "Deactivated"),
    ] {
        match plan_authorization(status) {
            AuthorizationStep::Fail(e) => {
                assert_eq!(e, format!("unexpected authorization status: {}", name));
            }
            other => panic!("{:?}", other),
        }
    }
    assert_eq!(check_order(OrderStatus::Ready), Ok(()));
    assert_eq!(
        check_order(OrderStatus::Processing),
        Err("unexpected order status: Processing".to_string())
    );
    assert_eq!(
        check_order(OrderStatus::Pending),
        Err("unexpected order status: Pending".to_string())
    );
    assert_eq!(check_order(OrderStatus::Valid), Err("unexpected order status: Valid".to_string()));
    assert_eq!(
        check_order(OrderStatus::Invalid),
        Err("unexpected order status: Invalid".to_string())
    );
}
