use amail_bridge::config::VhostSiteConfig;
use amail_bridge::vhost::{
    bad_gateway, build_routes, file_answer, find_vhost, mime_type, not_found, plan_request,
    plan_vhost, prepare_proxy_headers, strip_hop_by_hop, FileAnswer, VhostPlan, VhostRoute,
};
use axum::http::{HeaderMap, HeaderValue, Request};

fn make_routes() -> Vec<(String, VhostRoute)> {
    vec![
        ("example.com".into(), VhostRoute::Redirect("https://example.com".into())),
        ("www.test.org".into(), VhostRoute::Static("/tmp".into())),
    ]
}

fn request(host: Option<&str>, uri: &str) -> Request<()> {
    let mut b = Request::builder().uri(uri);
    if let Some(h) = host {
        b = b.header("host", h);
    }
    b.body(()).unwrap()
}

fn finds(host: Option<&str>, uri: &str) -> bool {
    let routes = make_routes();
    let req = request(host, uri);
    find_vhost(req.headers(), req.uri().host(), &routes).is_some()
}

#[test]
fn test_find_vhost_exact() {
    assert!(finds(Some("example.com"), "/"));
}

#[test]
fn test_find_vhost_with_port() {
    assert!(finds(Some("example.com:8080"), "/"));
}

#[test]
fn test_find_vhost_case_insensitive() {
    assert!(finds(Some("EXAMPLE.COM"), "/"));
}

#[test]
fn test_find_vhost_no_match() {
    assert!(!finds(Some("notfound.net"), "/"));
}

#[test]
fn test_find_vhost_no_header_uri_authority() {
    assert!(finds(None, "http://example.com/path"));
}

#[test]
fn host_header_wins_over_uri() {
    assert!(!finds(Some("notfound.net"), "http://example.com/path"));
    assert!(finds(Some(":8080"), "http://example.com/path"));
    assert!(!finds(None, "/"));
    let routes = make_routes();
    let req = request(Some("www.TEST.org:1"), "/");
    match find_vhost(req.headers(), req.uri().host(), &routes) {
        Some(VhostRoute::Static(root)) => assert_eq!(root, "/tmp"),
        other => panic!("{:?}", other),
    }
}

#[test]
fn test_static_path_traversal_blocked() {
    let route = VhostRoute::Static("/srv/site".into());
    match plan_vhost(&route, "/sub/secret.txt", Some("/sub/secret.txt")) {
        VhostPlan::File { path, mime, fallback } => {
            assert_eq!(path, "/srv/site/sub/secret.txt");
            assert_eq!(mime, "application/octet-stream");
            assert_eq!(fallback, "/srv/site/index.html");
            assert!(matches!(
                file_answer(&mime, true, false),
                FileAnswer::File { status: 200, .. }
            ));
        }
        other => panic!("{:?}", other),
    }
    match plan_vhost(&route, "/../etc/passwd", Some("/../etc/passwd")) {
        VhostPlan::Forbidden { status, body } => {
            assert_eq!(status, 403);
            assert_eq!(body, "forbidden");
        }
        other => panic!("{:?}", other),
    }
}

#[test]
fn test_redirect_returns_permanent() {
    let route = VhostRoute::Redirect("https://example.com".into());
    match plan_vhost(&route, "/", Some("/")) {
        VhostPlan::Redirect { status, location } => {
            assert_eq!(status, 308);
            assert_eq!(location, "https://example.com");
        }
        other => panic!("{:?}", other),
    }
}

fn file_of(path: &str) -> String {
    match plan_vhost(&VhostRoute::Static("/s".into()), path, None) {
        VhostPlan::File { path, .. } => path,
        other => panic!("{:?}", other),
    }
}

#[test]
fn files_of_a_site() {
    assert_eq!(file_of("/"), "/s/index.html");
    assert_eq!(file_of(""), "/s/index.html");
    assert_eq!(file_of("//a.css"), "/s/a.css");
    assert_eq!(file_of("//"), "/s/");
    assert_eq!(mime_type("/s/index.html"), "text/html; charset=utf-8");
    assert_eq!(mime_type("a.css"), "text/css; charset=utf-8");
    assert_eq!(mime_type("a.js"), "application/javascript");
    assert_eq!(mime_type("a.JS"), "application/octet-stream");
}

#[test]
fn fallback_and_missing_files() {
    match file_answer("text/css; charset=utf-8", false, true) {
        FileAnswer::Fallback { status, mime } => {
            assert_eq!(status, 200);
            assert_eq!(mime, "text/html; charset=utf-8");
        }
        other => panic!("{:?}", other),
    }
    match file_answer("x", false, false) {
        FileAnswer::NotFound(reply) => assert_eq!((reply.status, reply.body.as_str()), (404, "not found")),
        other => panic!("{:?}", other),
    }
    assert_eq!(not_found().status, 404);
    assert_eq!((bad_gateway().status, bad_gateway().body.as_str()), (502, "bad gateway"));
}

#[test]
fn proxied_urls() {
    let route = VhostRoute::Proxy("http://10.0.0.1:3000".into());
    match plan_vhost(&route, "/a", Some("/a?b=c")) {
        VhostPlan::Proxy { url } => assert_eq!(url, "http://10.0.0.1:3000/a?b=c"),
        other => panic!("{:?}", other),
    }
    match plan_vhost(&route, "", None) {
        VhostPlan::Proxy { url } => assert_eq!(url, "http://10.0.0.1:3000/"),
        other => panic!("{:?}", other),
    }
}

fn site(domain: &str, root: Option<&str>, proxy: Option<&str>, redirect: Option<&str>) -> VhostSiteConfig {
    VhostSiteConfig {
        domain: domain.into(),
        root: root.map(|s| s.into()),
        proxy: proxy.map(|s| s.into()),
        redirect: redirect.map(|s| s.into()),
    }
}

#[test]
fn sites_are_built() {
    let configs = vec![
        site("a", Some("/var/www"), None, None),
        site("b", Some("/missing"), None, None),
        site("c", None, Some("127.0.0.1:3000"), None),
        site("d", None, None, Some("https://www.example.com")),
        site("e", None, None, None),
        site("f", Some("/var/www"), Some("x"), None),
    ];
    let routes = build_routes(&configs, &[true, false, false, false, false, true], true);
    let text: Vec<String> = routes.iter().map(|(d, r)| format!("{} {:?}", d, r)).collect();
    assert_eq!(
        text,
        vec![
            "a Static(\"/var/www\")",
            "c Proxy(\"http://127.0.0.1:3000\")",
            "d Redirect(\"https://www.example.com\")",
        ]
    );
    let routes = build_routes(&configs, &[true, false, false, false, false, true], false);
    let names: Vec<&str> = routes.iter().map(|(d, _)| d.as_str()).collect();
    assert_eq!(names, vec!["a", "d"]);
}

#[test]
fn requests_go_to_their_site() {
    let routes = make_routes();
    let req = request(Some("example.com:443"), "/a/b?c=d");
    let path_and_query = req.uri().path_and_query().map(|pq| pq.as_str());
    match plan_request(req.headers(), req.uri().host(), &routes, req.uri().path(), path_and_query) {
        Ok(VhostPlan::Redirect { location, .. }) => {
            assert_eq!(location, "https://example.com")
        }
        other => panic!("{:?}", other),
    }
    for host in [Some("other.org"), None] {
        let req = request(host, "/a");
        match plan_request(req.headers(), req.uri().host(), &routes, "/a", Some("/a")) {
            Err(reply) => assert_eq!((reply.status, reply.body.as_str()), (404, "not found")),
            other => panic!("{:?}", other),
        }
    }
}

#[test]
fn headers_for_the_backend() {
    let mut h = HeaderMap::new();
    h.insert("host", HeaderValue::from_static("example.com:80"));
    h.insert("accept", HeaderValue::from_static("*/*"));
    prepare_proxy_headers(&mut h, Some("10.0.0.9"));
    assert!(h.get("host").is_none());
    assert_eq!(h.get("x-forwarded-host").unwrap(), "example.com:80");
    assert_eq!(h.get("x-forwarded-proto").unwrap(), "https");
    assert_eq!(h.get("x-forwarded-for").unwrap(), "10.0.0.9");
    assert_eq!(h.get("accept").unwrap(), "*/*");
    let mut h = HeaderMap::new();
    prepare_proxy_headers(&mut h, None);
    assert_eq!(h.get("x-forwarded-host").unwrap(), "");
    assert_eq!(h.get("x-forwarded-for").unwrap(), "unknown");
    let mut h = HeaderMap::new();
    prepare_proxy_headers(&mut h, Some("a\nb"));
    assert_eq!(h.get("x-forwarded-for").unwrap(), "unknown");
}

#[test]
fn hop_by_hop_headers_are_taken_out() {
    let mut h = HeaderMap::new();
    for name in [
        "transfer-encoding", "connection", "keep-alive", "proxy-authenticate",
        "proxy-authorization", "te", "trailer", "upgrade", "content-type",
    ] {
        h.insert(name, HeaderValue::from_static("x"));
    }
    h.append("set-cookie", HeaderValue::from_static("a"));
    h.append("set-cookie", HeaderValue::from_static("b"));
    h.append("te", HeaderValue::from_static("y"));
    strip_hop_by_hop(&mut h);
    assert_eq!(h.len(), 3);
    assert_eq!(h.get_all("set-cookie").iter().count(), 2);
    assert!(h.contains_key("content-type"));
}
