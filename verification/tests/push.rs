use amail_bridge::ip::{parse_ip, IpAddr};
use amail_bridge::push::{Admission, IpAllowlist, IpBlacklist, IpRateLimiter, PushGuard};

const MS: u64 = 1_000_000;

fn ip(s: &str) -> IpAddr {
    parse_ip(s).unwrap()
}

fn list(entries: &[&str]) -> Vec<String> {
    entries.iter().map(|s| s.to_string()).collect()
}

#[test]
fn test_allowlist_allows() {
    let allowlist = IpAllowlist::from_config(&list(&["10.0.0.0/8"]));
    assert!(allowlist.allows(ip("10.1.2.3")));
    assert!(!allowlist.allows(ip("192.168.1.1")));
}

#[test]
fn test_allowlist_empty_allows_all() {
    let allowlist = IpAllowlist::from_config(&[]);
    assert!(allowlist.allows(ip("1.2.3.4")));
}

#[test]
fn test_blacklist_blocks() {
    let blacklist = IpBlacklist::from_config(&list(&["10.0.0.0/8"]));
    assert!(blacklist.blocks(ip("10.1.2.3")));
    assert!(!blacklist.blocks(ip("192.168.1.1")));
}

#[test]
fn blacklist_empty_blocks_none() {
    let blacklist = IpBlacklist::from_config(&[]);
    assert!(!blacklist.blocks(ip("1.2.3.4")));
}

#[test]
fn test_rate_limiter_allows_under_limit() {
    let mut limiter = IpRateLimiter::new(5);
    let a = ip("1.2.3.4");
    for _ in 0..5 {
        assert!(limiter.check(a, 0));
    }
    assert!(!limiter.check(a, 0)); // 6th should be blocked
}

#[test]
fn test_rate_limiter_disabled() {
    let mut limiter = IpRateLimiter::new(0);
    let a = ip("1.2.3.4");
    for _ in 0..100 {
        assert!(limiter.check(a, 0));
    }
    assert_eq!(limiter.window_count(), 0);
}

#[test]
fn test_rate_limiter_multiple_ips() {
    let mut limiter = IpRateLimiter::new(2);
    let ip_a = ip("1.1.1.1");
    let ip_b = ip("2.2.2.2");
    assert!(limiter.check(ip_a, 0));
    assert!(limiter.check(ip_a, 0));
    assert!(!limiter.check(ip_a, 0));
    assert!(limiter.check(ip_b, 0));
    assert!(limiter.check(ip_b, 0));
    assert!(!limiter.check(ip_b, 0));
}

#[test]
fn test_rate_limiter_window_reset() {
    let mut limiter = IpRateLimiter::new(2);
    let a = ip("1.2.3.4");
    assert!(limiter.check(a, 0));
    assert!(limiter.check(a, 0));
    assert!(!limiter.check(a, 0));
    assert!(limiter.has_window(a));
}

#[test]
fn test_rate_limiter_stale_cleanup() {
    let mut limiter = IpRateLimiter::new(5);
    let a = ip("10.0.0.1");
    assert!(limiter.check(a, 0));
    assert_eq!(limiter.window_count(), 1);
    assert!(limiter.check(a, 10_000 * MS));
    let b = ip("10.0.0.2");
    assert!(limiter.check(b, 10_000 * MS));
}

#[test]
fn window_lasts_a_second() {
    let mut limiter = IpRateLimiter::new(1);
    let a = ip("1.2.3.4");
    assert!(limiter.check(a, 5 * MS));
    assert!(!limiter.check(a, 1005 * MS));
    assert!(!limiter.check(a, 1006 * MS - 1));
    assert!(limiter.check(a, 1006 * MS));
    assert!(!limiter.check(a, 1006 * MS));
}

#[test]
fn windows_are_dropped_after_two_seconds() {
    let mut limiter = IpRateLimiter::new(1);
    let (a, b) = (ip("1.1.1.1"), ip("2.2.2.2"));
    assert!(limiter.check(a, 0));
    assert!(limiter.check(b, 2001 * MS - 1));
    assert!(limiter.has_window(a));
    assert!(limiter.check(b, 4100 * MS));
    assert!(!limiter.has_window(a));
    assert!(limiter.has_window(b));
}

#[test]
fn window_allows_its_limit() {
    let mut limiter = IpRateLimiter::new(3);
    let a = ip("1.2.3.4");
    let mut allowed = 0;
    for t in [7u64, 8, 500, 999, 1000, 1007] {
        if limiter.check(a, t * MS) {
            allowed += 1;
        }
    }
    assert_eq!(allowed, 3);
}

#[test]
fn test_allowlist_ipv6() {
    let allowlist = IpAllowlist::from_config(&list(&["2001:db8::/32"]));
    assert!(allowlist.allows(ip("2001:db8::1")));
    assert!(!allowlist.allows(ip("2001:db9::1")));
}

#[test]
fn test_blacklist_ipv6() {
    let blacklist = IpBlacklist::from_config(&list(&["fe80::/10"]));
    assert!(blacklist.blocks(ip("fe80::1")));
    assert!(!blacklist.blocks(ip("2001:db8::1")));
}

#[test]
fn guard_checks_rate_and_lists() {
    let mut guard = PushGuard::new(&list(&["10.0.0.0/8"]), &list(&["10.6.6.6"]), 2);
    assert_eq!(guard.check(ip("10.1.1.1"), 0), Admission::Pass);
    assert_eq!(guard.check(ip("10.6.6.6"), 0), Admission::Forbidden);
    assert_eq!(guard.check(ip("192.168.1.1"), 0), Admission::Forbidden);
    assert_eq!(guard.check(ip("192.168.1.1"), 0), Admission::Forbidden);
    assert_eq!(guard.check(ip("192.168.1.1"), 0), Admission::TooManyRequests);
    assert_eq!(Admission::TooManyRequests.status(), 429);
    assert_eq!(Admission::Forbidden.status(), 403);
}

#[test]
fn open_guard_lets_all_pass() {
    let mut guard = PushGuard::new(&[], &[], 0);
    for _ in 0..50 {
        assert_eq!(guard.check(ip("::1"), 0), Admission::Pass);
    }
}

#[test]
fn no_second_exceeds_the_limit() {
    let a = ip("1.2.3.4");
    let mut limiter = IpRateLimiter::new(2);
    let times = [0u64, 900, 1001, 1002, 1500, 1901, 1902, 2001, 2002, 2901, 2902];
    let mut allowed = Vec::new();
    for t in times {
        let answer = limiter.check(a, t * MS);
        if answer {
            allowed.push(t);
        }
        // Another address that asks at the same times gets the same answers.
        assert_eq!(limiter.check(ip("::1"), t * MS), answer);
    }
    assert_eq!(allowed, vec![0, 900, 1001, 1901, 2002, 2902]);
    for from in &allowed {
        let n = allowed.iter().filter(|t| from <= *t && *t - from <= 1000).count();
        assert!(n <= 2);
    }
}
