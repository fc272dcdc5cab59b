use amail_bridge::config::{
    is_ip_address, join_path, BridgeConfig, EnvOverrides, LoggingConfig, Notice, PullSystemConfig,
};

fn pull_config() -> BridgeConfig {
    let mut cfg = BridgeConfig::default();
    cfg.mode = "pull".into();
    cfg.pull.amail_url = "http://x".into();
    cfg.pull.admin_key = "k".into();
    cfg.pull.system_id = "s".into();
    cfg
}

fn system(url: &str, admin_key: &str, api_key: &str, id: &str, secs: u64) -> PullSystemConfig {
    PullSystemConfig {
        amail_url: url.into(),
        admin_key: admin_key.into(),
        api_key: api_key.into(),
        poll_interval_sec: secs,
        system_id: id.into(),
    }
}

#[test]
fn test_defaults() {
    let cfg = pull_config();
    assert_eq!(cfg.mode, "pull");
    assert_eq!(cfg.addr, "0.0.0.0:38080");
    assert_eq!(cfg.admin_allowed_ips, vec!["127.0.0.1", "::1"]);
    assert_eq!(cfg.push.body_limit_mb, 20);
    assert_eq!(cfg.push.rate_limit, 30);
    assert!(cfg.hostname.is_none());
}

#[test]
fn other_defaults() {
    let cfg = BridgeConfig::default();
    assert_eq!(cfg.mode, "push");
    assert_eq!(cfg.pull.poll_interval_sec, 10);
    assert_eq!(cfg.pull.system_id, "admin");
    assert_eq!(cfg.logging.level, "info");
    assert_eq!(LoggingConfig::default().file, None);
    assert_eq!(cfg.health.check_interval_sec, 60);
    assert_eq!(cfg.health.fail_threshold, 3);
    assert_eq!(cfg.health.connect_timeout_sec, 3);
    assert_eq!(
        cfg.forward_headers,
        vec!["X-Amail-Email", "X-Webhook-Signature", "X-Mailrelay-Timestamp", "content-type"]
    );
    assert_eq!(cfg.push.body_limit_bytes(), 20 * 1024 * 1024);
}

#[test]
fn test_addr_with_port() {
    let mut cfg = BridgeConfig::default();
    cfg.addr = "127.0.0.1:8080".into();
    let (host, port) = cfg.parsed_addr();
    assert_eq!(host, "127.0.0.1");
    assert_eq!(port, 8080);
}

#[test]
fn test_addr_default_port() {
    let mut cfg = BridgeConfig::default();
    cfg.addr = "0.0.0.0".into();
    let (host, port) = cfg.parsed_addr();
    assert_eq!(host, "0.0.0.0");
    assert_eq!(port, 80);
}

#[test]
fn test_dual_port_detection() {
    let mut cfg = BridgeConfig::default();
    cfg.addr = "0.0.0.0:80".into();
    cfg.hostname = Some("example.com".into());
    assert!(cfg.is_dual_port());
}

#[test]
fn test_push_config_with_limits() {
    let mut cfg = BridgeConfig::default();
    cfg.addr = "0.0.0.0:8080".into();
    cfg.admin_allowed_ips = vec!["10.0.0.0/8".into()];
    cfg.hostname = Some("bridge.example.com".into());
    cfg.push.blacklist_ips = vec!["1.2.3.4".into()];
    cfg.push.allowed_ips = vec!["10.0.0.0/8".into()];
    cfg.push.rate_limit = 100;
    cfg.push.body_limit_mb = 50;
    assert_eq!(cfg.addr, "0.0.0.0:8080");
    assert_eq!(cfg.admin_allowed_ips, vec!["10.0.0.0/8"]);
    assert_eq!(cfg.push.rate_limit, 100);
    assert_eq!(cfg.push.body_limit_mb, 50);
    assert_eq!(cfg.hostname, Some("bridge.example.com".into()));
    assert!(cfg.has_tls());
    assert!(!cfg.is_dual_port()); // port is 8080, not 80
}

#[test]
fn test_no_tls_without_hostname() {
    assert!(!BridgeConfig::default().has_tls());
}

#[test]
fn hosts_that_are_addresses() {
    for h in ["10.0.0.1", "10.0.0.1:443", "::1", "[::1]:8080", "[2001:db8::1]"] {
        assert!(is_ip_address(h), "{}", h);
        let mut cfg = BridgeConfig::default();
        cfg.hostname = Some(h.into());
        assert!(!cfg.has_tls());
    }
    for h in ["example.com", "example.com:443", "", "[x]", "1.2.3"] {
        assert!(!is_ip_address(h), "{}", h);
    }
}

#[test]
fn test_validate_pull_empty_warns() {
    let mut cfg = BridgeConfig::default();
    cfg.mode = "pull".into();
    cfg.pull.amail_url = "".into();
    cfg.pull.admin_key = "".into();
    cfg.pull.system_id = "".into();
    assert!(cfg.pull.amail_url.is_empty());
    assert!(cfg.pull.admin_key.is_empty());
    assert!(cfg.pull.system_id.is_empty());
    assert_eq!(
        cfg.validate(),
        vec![Notice::EmptyUrl(0), Notice::NoKey(0), Notice::EmptySystemId(0)]
    );
}

#[test]
fn notices_come_in_order() {
    let mut cfg = BridgeConfig::default();
    assert_eq!(cfg.validate(), vec![]);
    cfg.addr = "0.0.0.0:80".into();
    cfg.hostname = Some("example.com".into());
    assert_eq!(cfg.validate(), vec![Notice::AcmeAttempt, Notice::DualPort]);
    cfg.tls_cert = Some("c".into());
    assert_eq!(cfg.validate(), vec![Notice::DualPort]);
    let mut cfg = pull_config();
    assert_eq!(cfg.validate(), vec![]);
    cfg.pull.systems = vec![system("u", "", "k", "s", 1), system("", "", "", "s", 1)];
    assert_eq!(cfg.validate(), vec![Notice::EmptyUrl(1), Notice::NoKey(1)]);
    cfg.mode = "push".into();
    assert_eq!(cfg.validate(), vec![]);
}

#[test]
fn test_admin_allowed_ips_default_localhost() {
    let cfg = pull_config();
    assert_eq!(cfg.admin_allowed_ips, vec!["127.0.0.1", "::1"]);
}

#[test]
fn test_pull_multi_system_resolved() {
    let mut cfg = BridgeConfig::default();
    cfg.mode = "pull".into();
    cfg.pull.systems = vec![
        system("https://a.tm", "ka", "", "sys-a", 2),
        system("https://b.tm", "kb", "", "sys-b", 5),
    ];
    let systems = cfg.pull.resolved_systems();
    assert_eq!(systems.len(), 2);
    assert_eq!(systems[0].system_id, "sys-a");
    assert_eq!(systems[0].effective_key(), "ka");
    assert_eq!(systems[1].poll_interval_sec, 5);
    assert_eq!(systems[1].effective_key(), "kb");
}

#[test]
fn test_pull_legacy_single_system_resolved() {
    let mut cfg = BridgeConfig::default();
    cfg.mode = "pull".into();
    cfg.pull.amail_url = "https://a.tm".into();
    cfg.pull.admin_key = "legacy-key".into();
    cfg.pull.system_id = "legacy-sys".into();
    assert!(cfg.pull.systems.is_empty(), "no explicit systems array");
    let systems = cfg.pull.resolved_systems();
    assert_eq!(systems.len(), 1, "legacy flat fields synthesize one system");
    assert_eq!(systems[0].system_id, "legacy-sys");
    assert_eq!(systems[0].effective_key(), "legacy-key");
    assert_eq!(systems[0].amail_url, "https://a.tm");
    assert_eq!(cfg.pull.effective_key(), "legacy-key");
}

#[test]
fn test_pull_multi_system_api_key_preferred() {
    let mut cfg = BridgeConfig::default();
    cfg.mode = "pull".into();
    cfg.pull.systems = vec![system("https://a.tm", "ka", "ak", "sys-a", 10)];
    let systems = cfg.pull.resolved_systems();
    assert_eq!(systems[0].effective_key(), "ak", "api_key preferred over admin_key");
}

#[test]
fn environment_overrides() {
    let mut cfg = pull_config();
    cfg.hostname = Some("before".into());
    cfg.apply_env(EnvOverrides {
        mode: Some("push".into()),
        hostname: Some("".into()),
        gateway_url: Some("relay:1".into()),
        admin_key: Some("key".into()),
        system_id: Some("sys".into()),
        poll_secs: Some("7".into()),
        allowed_ips: Some("10.0.0.0/8, ::1 ,".into()),
        hermes_home: Some("/h".into()),
    });
    assert_eq!(cfg.mode, "push");
    assert_eq!(cfg.hostname, Some("before".into()));
    assert_eq!(cfg.pull.amail_url, "relay:1");
    assert_eq!(cfg.pull.admin_key, "key");
    assert_eq!(cfg.pull.system_id, "sys");
    assert_eq!(cfg.pull.poll_interval_sec, 7);
    assert_eq!(cfg.push.allowed_ips, vec!["10.0.0.0/8", "::1", ""]);
    assert_eq!(cfg.hermes_home, Some("/h".into()));
    let mut env = EnvOverrides::default();
    env.hostname = Some("after".into());
    env.poll_secs = Some("soon".into());
    cfg.apply_env(env);
    assert_eq!(cfg.hostname, Some("after".into()));
    assert_eq!(cfg.pull.poll_interval_sec, 10);
    assert_eq!(cfg.mode, "push");
}

#[test]
fn loading_fills_in_the_rest() {
    let mut cfg = BridgeConfig::default();
    cfg.pull.amail_url = "relay.example.com:38080".into();
    cfg.admin_allowed_ips = vec![];
    cfg.finish_load(Some("/home/u".into()), "/etc/amail");
    assert_eq!(cfg.default_profile_dir, "/home/u/.hermes");
    assert_eq!(cfg.routes_file, "/etc/amail/amail_routes.toml");
    assert_eq!(cfg.pull.amail_url, "http://relay.example.com:38080");
    assert_eq!(cfg.admin_allowed_ips, vec!["127.0.0.1", "::1"]);
    cfg.finish_load(None, "");
    assert_eq!(cfg.default_profile_dir, "/tmp/.hermes");
    assert_eq!(cfg.routes_file, "amail_routes.toml");
    assert_eq!(cfg.pull.amail_url, "http://relay.example.com:38080");
    cfg.hermes_home = Some("/srv/hermes".into());
    cfg.pull.amail_url = "".into();
    cfg.finish_load(None, "/");
    assert_eq!(cfg.default_profile_dir, "/srv/hermes");
    assert_eq!(cfg.routes_file, "/amail_routes.toml");
    assert_eq!(cfg.pull.amail_url, "");
}

#[test]
fn paths_are_joined() {
    assert_eq!(join_path("a", "b"), "a/b");
    assert_eq!(join_path("a/", "b"), "a/b");
    assert_eq!(join_path("", "b"), "b");
    assert_eq!(join_path("a", "/b"), "/b");
}
