use amail_bridge::ip::{parse_ip, IpAddr};
use amail_bridge::security::{add_security_headers, ip_matches, parse_cidr, parse_ip_list};
use axum::http::{HeaderMap, HeaderValue};

fn ip(s: &str) -> IpAddr {
    parse_ip(s).unwrap()
}

#[test]
fn addresses_are_read() {
    assert_eq!(parse_ip("192.168.1.50"), Some(IpAddr::V4(0xc0a80132)));
    assert_eq!(parse_ip("::1"), Some(IpAddr::V6(1)));
    assert_eq!(parse_ip("::"), Some(IpAddr::V6(0)));
    assert_eq!(
        parse_ip("2001:db8::ff00:42:8329"),
        Some(IpAddr::V6(0x20010db8000000000000ff0000428329))
    );
    assert_eq!(parse_ip("::ffff:192.168.1.1"), Some(IpAddr::V6(0xffffc0a80101)));
    assert_eq!(parse_ip("1:2:3:4:5:6:7:8"), Some(IpAddr::V6(0x00010002000300040005000600070008)));
    assert_eq!(parse_ip("1:2:3:4:5:6:7::"), Some(IpAddr::V6(0x00010002000300040005000600070000)));
}

#[test]
fn other_texts_are_no_addresses() {
    for s in [
        "", "1.2.3", "1.2.3.4.5", "256.0.0.1", "01.2.3.4", "1.2.3.4 ", ":::", "1::2::3", "12345::",
        "1:2:3:4:5:6:7:8:9", "1:2:3:4:5:6:7:8::", "g::", "1:2", "::1.2.3", "[::1]", "::1%eth0",
        "1.2.3.4::",
    ] {
        assert_eq!(parse_ip(s), None, "{}", s);
    }
}

#[test]
fn test_parse_cidr_single_ip() {
    assert_eq!(parse_cidr("192.168.1.1"), Some((ip("192.168.1.1"), 32)));
}

#[test]
fn test_parse_cidr_network() {
    assert_eq!(parse_cidr("10.0.0.0/8"), Some((ip("10.0.0.0"), 8)));
}

#[test]
fn test_parse_cidr_invalid() {
    assert_eq!(parse_cidr("not-an-ip"), None);
    assert_eq!(parse_cidr("10.0.0.0/33"), None);
}

#[test]
fn test_ip_matches() {
    let a = ip("192.168.1.50");
    let net = ip("192.168.1.0");
    assert!(ip_matches(a, net, 24));
    assert!(!ip_matches(a, net, 32));
}

#[test]
fn test_parse_cidr_ipv6() {
    assert_eq!(parse_cidr("::1"), Some((ip("::1"), 128)));
    assert_eq!(parse_cidr("2001:db8::/32"), Some((ip("2001:db8::"), 32)));
}

#[test]
fn test_parse_cidr_prefix_0() {
    assert_eq!(parse_cidr("0.0.0.0/0"), Some((ip("0.0.0.0"), 0)));
    assert_eq!(parse_cidr("::/0"), Some((ip("::"), 0)));
}

#[test]
fn test_parse_cidr_full_mask() {
    assert_eq!(parse_cidr("192.168.1.1/32"), Some((ip("192.168.1.1"), 32)));
    assert_eq!(parse_cidr("10.0.0.1/32"), Some((ip("10.0.0.1"), 32)));
}

#[test]
fn test_ip_matches_ipv6() {
    let a = ip("2001:db8::1");
    let net = ip("2001:db8::");
    assert!(ip_matches(a, net, 32));
    assert!(!ip_matches(a, net, 128));
}

#[test]
fn test_ip_matches_prefix_0() {
    let v4 = ip("1.2.3.4");
    assert!(ip_matches(v4, ip("0.0.0.0"), 0));
    let v6 = ip("2001:db8::1");
    assert!(ip_matches(v6, ip("::"), 0));
}

#[test]
fn test_ip_matches_v4_v6_mismatch() {
    let v4 = ip("192.168.1.1");
    let v6 = ip("::ffff:192.168.1.1");
    assert!(!ip_matches(v4, v6, 0));
    assert!(!ip_matches(v6, v4, 0));
}

#[test]
fn test_ip_matches_edge_cases() {
    let a = ip("10.0.0.1");
    assert!(ip_matches(a, a, 32));
    assert!(ip_matches(ip("10.0.1.5"), ip("10.0.1.0"), 24));
    assert!(!ip_matches(ip("10.0.2.5"), ip("10.0.1.0"), 24));
}

#[test]
fn test_parse_cidr_invalid_prefix_too_large() {
    assert_eq!(parse_cidr("10.0.0.1/33"), None);
    assert_eq!(parse_cidr("::1/129"), None);
}

#[test]
fn test_parse_cidr_invalid_empty() {
    assert_eq!(parse_cidr(""), None);
    assert_eq!(parse_cidr("/24"), None);
}

#[test]
fn cidr_edge_cases() {
    assert_eq!(parse_cidr("10.0.0.0/"), None);
    assert_eq!(parse_cidr("10.0.0.0/8/8"), None);
    assert_eq!(parse_cidr("10.0.0.0/+8"), Some((ip("10.0.0.0"), 8)));
    assert_eq!(parse_cidr("::1/32"), Some((ip("::1"), 32)));
    assert_eq!(parse_cidr("10.0.0.0/999"), None);
}

#[test]
fn shorter_prefix_holds_more() {
    let (a, b) = (ip("10.1.2.3"), ip("10.1.2.9"));
    assert!(!ip_matches(a, b, 32));
    assert!(ip_matches(a, b, 28));
    assert!(ip_matches(a, b, 8));
    assert_eq!(ip_matches(a, b, 30), ip_matches(b, a, 30));
}

#[test]
fn list_leaves_out_what_is_no_network() {
    let raw = vec!["10.0.0.0/8".to_string(), "nonsense".to_string(), "::1".to_string()];
    assert_eq!(parse_ip_list(&raw), vec![(ip("10.0.0.0"), 8), (ip("::1"), 128)]);
}

#[test]
fn answers_get_security_headers() {
    let mut headers = HeaderMap::new();
    headers.insert("x-frame-options", HeaderValue::from_static("SAMEORIGIN"));
    headers.append("x-frame-options", HeaderValue::from_static("ALLOWALL"));
    headers.insert("content-type", HeaderValue::from_static("text/plain"));
    headers.insert("strict-transport-security", HeaderValue::from_static("max-age=1"));
    add_security_headers(&mut headers, false);
    assert_eq!(headers.len(), 4);
    assert_eq!(headers.get("x-content-type-options").unwrap(), "nosniff");
    assert_eq!(headers.get("x-frame-options").unwrap(), "DENY");
    assert_eq!(headers.get("referrer-policy").unwrap(), "strict-origin-when-cross-origin");
    assert_eq!(headers.get("content-type").unwrap(), "text/plain");
    assert!(headers.get("strict-transport-security").is_none());
    add_security_headers(&mut headers, true);
    assert_eq!(headers.len(), 5);
    assert_eq!(headers.get("strict-transport-security").unwrap(), "max-age=31536000");
}
