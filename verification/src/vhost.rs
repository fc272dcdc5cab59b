//! Virtual hosts: several domains on one address.
//!
//! Each site serves files from a directory, passes requests on to a backend, or
//! redirects. A plan says which; carrying it out is left to the server around
//! this library.

use axum::http::{HeaderMap, HeaderValue};
use vstd::prelude::*;

use crate::config::{join_path, VhostSiteConfig};
use crate::headers::{get_text, remove_header, set_text};
use crate::text::{contains, ends_with, rsplit_once, same_ignoring_case, same_text, trim_leading};
use crate::webhook::{Reply, ReplyView};

verus! {

broadcast use vstd::seq::group_seq_axioms;

// ── Sites ──────────────────────────────────────────────────────────

/// What a site does.
#[derive(Debug)]
pub enum VhostRoute {
    /// Serve files from this directory.
    Static(String),
    /// Pass requests on to this backend.
    Proxy(String),
    /// Redirect to this URL.
    Redirect(String),
}

/// What a site does, as plain texts.
pub enum VhostView {
    Static(Seq<char>),
    Proxy(Seq<char>),
    Redirect(Seq<char>),
}

impl View for VhostRoute {
    type V = VhostView;

    open spec fn view(&self) -> VhostView {
        match *self {
            VhostRoute::Static(s) => VhostView::Static(s@),
            VhostRoute::Proxy(s) => VhostView::Proxy(s@),
            VhostRoute::Redirect(s) => VhostView::Redirect(s@),
        }
    }
}

/// What the sites do, with their domains.
pub open spec fn site_views(v: Seq<(String, VhostRoute)>) -> Seq<(Seq<char>, VhostView)> {
    v.map_values(|e: (String, VhostRoute)| (e.0@, e.1@))
}

/// What a configured site does. Nothing, unless exactly one of the three is set,
/// the directory exists and, for a backend, requests can be passed on.
pub open spec fn site_of(cfg: VhostSiteConfig, root_exists: bool, can_proxy: bool) -> Option<
    VhostView,
> {
    match (cfg.root, cfg.proxy, cfg.redirect) {
        (Some(root), None, None) => if root_exists {
            Some(VhostView::Static(root@))
        } else {
            None
        },
        (None, Some(proxy), None) => if can_proxy {
            Some(VhostView::Proxy("http://"@ + proxy@))
        } else {
            None
        },
        (None, None, Some(redirect)) => Some(VhostView::Redirect(redirect@)),
        _ => None,
    }
}

/// What the first `n` configured sites do, without those that do nothing.
pub open spec fn sites_of(
    configs: Seq<VhostSiteConfig>,
    root_exists: Seq<bool>,
    can_proxy: bool,
    n: nat,
) -> Seq<(Seq<char>, VhostView)>
    decreases n,
{
    if n == 0 {
        Seq::empty()
    } else {
        let front = sites_of(configs, root_exists, can_proxy, (n - 1) as nat);
        match site_of(configs[n - 1], root_exists[n - 1], can_proxy) {
            Some(v) => front.push((configs[n - 1].domain@, v)),
            None => front,
        }
    }
}

/// What a configured site does. `root_exists` says whether its directory is
/// there, `can_proxy` whether requests can be passed on.
pub fn site_route(cfg: &VhostSiteConfig, root_exists: bool, can_proxy: bool) -> (r: Option<
    VhostRoute,
>)
    ensures
        match r {
            Some(v) => site_of(*cfg, root_exists, can_proxy) == Some(v@),
            None => site_of(*cfg, root_exists, can_proxy) is None,
        },
{
    match (&cfg.root, &cfg.proxy, &cfg.redirect) {
        (Some(root), None, None) => if root_exists {
            Some(VhostRoute::Static(root.clone()))
        } else {
            None
        },
        (None, Some(proxy), None) => {
            if !can_proxy {
                return None;
            }
            let mut backend = String::from_str("http://");
            backend.append(proxy.as_str());
            Some(VhostRoute::Proxy(backend))
        },
        (None, None, Some(redirect)) => Some(VhostRoute::Redirect(redirect.clone())),
        _ => None,
    }
}

/// What the configured sites do, with their domains. Sites that do nothing are
/// left out. `root_exists` says of each site whether its directory is there,
/// `can_proxy` whether requests can be passed on.
pub fn build_routes(
    configs: &[VhostSiteConfig],
    root_exists: &[bool],
    can_proxy: bool,
) -> (r: Vec<(String, VhostRoute)>)
    requires
        configs@.len() == root_exists@.len(),
    ensures
        site_views(r@) == sites_of(configs@, root_exists@, can_proxy, configs@.len()),
{
    let mut out: Vec<(String, VhostRoute)> = Vec::new();
    let mut i: usize = 0;
    assert(site_views(out@) =~= Seq::<(Seq<char>, VhostView)>::empty());
    while i < configs.len()
        invariant
            i <= configs@.len(),
            configs@.len() == root_exists@.len(),
            site_views(out@) == sites_of(configs@, root_exists@, can_proxy, i as nat),
        decreases configs@.len() - i,
    {
        if let Some(route) = site_route(&configs[i], root_exists[i], can_proxy) {
            let ghost before = out@;
            let e = (configs[i].domain.clone(), route);
            out.push(e);
            assert(site_views(out@) =~= site_views(before).push((e.0@, e.1@)));
        }
        i += 1;
    }
    out
}

// ── Finding a site ─────────────────────────────────────────────────

/// A host without its port.
pub open spec fn without_port(host: Seq<char>) -> Seq<char> {
    match crate::text::split_last(host, ":"@) {
        Some((name, _)) => name,
        None => host,
    }
}

/// The host that a request is for: that of its `Host` header without the port,
/// or else that of its URI.
pub open spec fn requested_host(header: Option<Seq<char>>, uri_host: Option<Seq<char>>) -> Option<
    Seq<char>,
> {
    if header is Some && without_port(header->0).len() > 0 {
        Some(without_port(header->0))
    } else {
        uri_host
    }
}

/// `i` is the first site for the host; the case of letters does not matter.
pub open spec fn is_first_site(
    sites: Seq<(Seq<char>, VhostView)>,
    host: Seq<char>,
    i: int,
) -> bool {
    &&& 0 <= i < sites.len()
    &&& crate::text::lower(sites[i].0) == crate::text::lower(host)
    &&& forall|k: int|
        0 <= k < i ==> crate::text::lower((#[trigger] sites[k]).0) != crate::text::lower(host)
}

/// Some site is for the host.
pub open spec fn has_site(sites: Seq<(Seq<char>, VhostView)>, host: Seq<char>) -> bool {
    exists|k: int|
        0 <= k < sites.len() && crate::text::lower((#[trigger] sites[k]).0) == crate::text::lower(
            host,
        )
}

/// The first site for a host.
pub fn site_for_host(host: &str, routes: &[(String, VhostRoute)]) -> (r: Option<usize>)
    ensures
        match r {
            Some(i) => is_first_site(site_views(routes@), host@, i as int),
            None => !has_site(site_views(routes@), host@),
        },
{
    let ghost sites = site_views(routes@);
    let mut i: usize = 0;
    while i < routes.len()
        invariant
            i <= routes@.len(),
            sites == site_views(routes@),
            forall|k: int|
                0 <= k < i ==> crate::text::lower((#[trigger] sites[k]).0) != crate::text::lower(
                    host@,
                ),
        decreases routes@.len() - i,
    {
        assert(sites[i as int] == (routes@[i as int].0@, routes@[i as int].1@));
        if same_ignoring_case(host, routes[i].0.as_str()) {
            return Some(i);
        }
        i += 1;
    }
    None
}

/// The first site for the host of a request, which is named by the text of its
/// `Host` header or by its URI.
pub fn find_site(
    header: Option<&str>,
    uri_host: Option<&str>,
    routes: &[(String, VhostRoute)],
) -> (r: Option<usize>)
    ensures
        ({
            let host = requested_host(
                match header {
                    Some(t) => Some(t@),
                    None => None,
                },
                match uri_host {
                    Some(t) => Some(t@),
                    None => None,
                },
            );
            match r {
                Some(i) => host is Some && is_first_site(site_views(routes@), host->0, i as int),
                None => host is None || !has_site(site_views(routes@), host->0),
            }
        }),
{
    if let Some(t) = header {
        let name = match rsplit_once(t, ":") {
            Some((name, _port)) => name,
            None => t,
        };
        if !name.is_empty() {
            return site_for_host(name, routes);
        }
    }
    match uri_host {
        Some(h) => site_for_host(h, routes),
        None => None,
    }
}

/// The site that a request is for.
pub fn find_vhost<'a>(
    headers: &HeaderMap<HeaderValue>,
    uri_host: Option<&str>,
    routes: &'a [(String, VhostRoute)],
) -> (r: Option<&'a VhostRoute>)
    ensures
        ({
            let host = requested_host(
                crate::headers::header_text(crate::headers::header_contents(*headers), "host"@),
                match uri_host {
                    Some(t) => Some(t@),
                    None => None,
                },
            );
            match r {
                Some(v) => host is Some && exists|i: int|
                    is_first_site(site_views(routes@), host->0, i) && v@ == (
                    #[trigger] site_views(routes@)[i]).1,
                None => host is None || !has_site(site_views(routes@), host->0),
            }
        }),
{
    proof {
        reveal_strlit("host");
        assert(crate::text::lower("host"@) =~= "host"@);
    }
    match find_site(get_text(headers, "host"), uri_host, routes) {
        Some(i) => {
            assert(site_views(routes@)[i as int].1 == routes@[i as int].1@);
            Some(&routes[i].1)
        },
        None => None,
    }
}

// ── Answering ──────────────────────────────────────────────────────

/// What is to be done with a request for a site.
#[derive(Debug)]
pub enum VhostPlan {
    /// Redirect for good.
    Redirect { status: u16, location: String },
    /// Refuse.
    Forbidden { status: u16, body: String },
    /// Answer with this file, or else with the fallback, or else not at all.
    File { path: String, mime: String, fallback: String },
    /// Ask the backend.
    Proxy { url: String },
}

/// What a plan for a request says.
pub enum VhostPlanView {
    Redirect(u16, Seq<char>),
    Forbidden(u16, Seq<char>),
    File { path: Seq<char>, mime: Seq<char>, fallback: Seq<char> },
    Proxy(Seq<char>),
}

impl View for VhostPlan {
    type V = VhostPlanView;

    open spec fn view(&self) -> VhostPlanView {
        match *self {
            VhostPlan::Redirect { status, location } => VhostPlanView::Redirect(
                status,
                location@,
            ),
            VhostPlan::Forbidden { status, body } => VhostPlanView::Forbidden(status, body@),
            VhostPlan::File { path, mime, fallback } => VhostPlanView::File {
                path: path@,
                mime: mime@,
                fallback: fallback@,
            },
            VhostPlan::Proxy { url } => VhostPlanView::Proxy(url@),
        }
    }
}

/// The type of a file, by the end of its name.
pub open spec fn mime_of(path: Seq<char>) -> Seq<char> {
    if crate::text::has_suffix(path, ".html"@) {
        "text/html; charset=utf-8"@
    } else if crate::text::has_suffix(path, ".css"@) {
        "text/css; charset=utf-8"@
    } else if crate::text::has_suffix(path, ".js"@) {
        "application/javascript"@
    } else {
        "application/octet-stream"@
    }
}

/// The file of a site that a path asks for.
pub open spec fn static_plan(root: Seq<char>, path: Seq<char>) -> VhostPlanView {
    let clean = crate::text::without_leading(path, '/');
    if crate::text::contains_text(clean, ".."@) {
        VhostPlanView::Forbidden(403, "forbidden"@)
    } else {
        let file = crate::config::path_in(
            root,
            if path == "/"@ || path.len() == 0 {
                "index.html"@
            } else {
                clean
            },
        );
        VhostPlanView::File {
            path: file,
            mime: mime_of(file),
            fallback: crate::config::path_in(root, "index.html"@),
        }
    }
}

/// What is to be done with a request for a site. `path` is that of the URI,
/// `path_and_query` has the query with it.
pub open spec fn plan_of(
    route: VhostView,
    path: Seq<char>,
    path_and_query: Option<Seq<char>>,
) -> VhostPlanView {
    match route {
        VhostView::Redirect(url) => VhostPlanView::Redirect(308, url),
        VhostView::Static(root) => static_plan(root, path),
        VhostView::Proxy(backend) => VhostPlanView::Proxy(
            backend + match path_and_query {
                Some(p) => p,
                None => "/"@,
            },
        ),
    }
}

/// The type of a file, by the end of its name.
pub fn mime_type(path: &str) -> (r: String)
    ensures
        r@ == mime_of(path@),
{
    if ends_with(path, ".html") {
        String::from_str("text/html; charset=utf-8")
    } else if ends_with(path, ".css") {
        String::from_str("text/css; charset=utf-8")
    } else if ends_with(path, ".js") {
        String::from_str("application/javascript")
    } else {
        String::from_str("application/octet-stream")
    }
}

/// The file of a site that a path asks for.
fn plan_static(root: &str, path: &str) -> (r: VhostPlan)
    ensures
        r@ == static_plan(root@, path@),
{
    let clean = trim_leading(path, '/');
    if contains(clean, "..") {
        return VhostPlan::Forbidden { status: 403, body: String::from_str("forbidden") };
    }
    let file = if same_text(path, "/") || path.is_empty() {
        join_path(root, "index.html")
    } else {
        join_path(root, clean)
    };
    let mime = mime_type(file.as_str());
    VhostPlan::File { path: file, mime, fallback: join_path(root, "index.html") }
}

/// What is to be done with a request for a site.
pub fn plan_vhost(route: &VhostRoute, path: &str, path_and_query: Option<&str>) -> (r: VhostPlan)
    ensures
        r@ == plan_of(
            route@,
            path@,
            match path_and_query {
                Some(p) => Some(p@),
                None => None,
            },
        ),
{
    match route {
        VhostRoute::Redirect(url) => VhostPlan::Redirect { status: 308, location: url.clone() },
        VhostRoute::Static(root) => plan_static(root.as_str(), path),
        VhostRoute::Proxy(backend) => {
            let mut url = backend.clone();
            match path_and_query {
                Some(p) => {
                    url.append(p);
                },
                None => {
                    url.append("/");
                },
            }
            VhostPlan::Proxy { url }
        },
    }
}

/// What a request for a file is answered with.
#[derive(Debug)]
pub enum FileAnswer {
    /// The file, with its type.
    File { status: u16, mime: String },
    /// The fallback page.
    Fallback { status: u16, mime: String },
    /// Nothing was found.
    NotFound(Reply),
}

/// The answer that there is nothing.
pub fn not_found() -> (r: Reply)
    ensures
        r@ == (ReplyView { status: 404, body: "not found"@ }),
{
    Reply { status: 404, body: String::from_str("not found") }
}

/// The answer that the backend could not be reached.
pub fn bad_gateway() -> (r: Reply)
    ensures
        r@ == (ReplyView { status: 502, body: "bad gateway"@ }),
{
    Reply { status: 502, body: String::from_str("bad gateway") }
}

/// What a request for a file of this type is answered with: the file if it could
/// be read, or else the fallback page if that could be read.
pub fn file_answer(mime: &str, file_read: bool, fallback_read: bool) -> (r: FileAnswer)
    ensures
        match r {
            FileAnswer::File { status, mime: m } => file_read && status == 200 && m@ == mime@,
            FileAnswer::Fallback { status, mime: m } => !file_read && fallback_read && status == 200
                && m@ == "text/html; charset=utf-8"@,
            FileAnswer::NotFound(reply) => !file_read && !fallback_read && reply@ == (ReplyView {
                status: 404,
                body: "not found"@,
            }),
        },
{
    if file_read {
        FileAnswer::File { status: 200, mime: String::from_str(mime) }
    } else if fallback_read {
        FileAnswer::Fallback { status: 200, mime: String::from_str("text/html; charset=utf-8") }
    } else {
        FileAnswer::NotFound(not_found())
    }
}

/// What is to be done with a request: what its site plans, or the answer that
/// there is nothing where no site is for it.
pub fn plan_request(
    headers: &HeaderMap<HeaderValue>,
    uri_host: Option<&str>,
    routes: &[(String, VhostRoute)],
    path: &str,
    path_and_query: Option<&str>,
) -> (r: Result<VhostPlan, Reply>)
    ensures
        ({
            let host = requested_host(
                crate::headers::header_text(crate::headers::header_contents(*headers), "host"@),
                match uri_host {
                    Some(t) => Some(t@),
                    None => None,
                },
            );
            match r {
                Ok(plan) => host is Some && exists|i: int|
                    is_first_site(site_views(routes@), host->0, i) && plan@ == plan_of(
                        (#[trigger] site_views(routes@)[i]).1,
                        path@,
                        match path_and_query {
                            Some(p) => Some(p@),
                            None => None,
                        },
                    ),
                Err(reply) => (host is None || !has_site(site_views(routes@), host->0)) && reply@
                    == (ReplyView { status: 404, body: "not found"@ }),
            }
        }),
{
    match find_vhost(headers, uri_host, routes) {
        Some(route) => Ok(plan_vhost(route, path, path_and_query)),
        None => Err(not_found()),
    }
}

// ── Passing requests on ────────────────────────────────────────────

/// The text, or `unknown` where a header cannot hold it.
pub open spec fn or_unknown(t: Option<Seq<char>>) -> Seq<char> {
    match t {
        Some(s) => if crate::headers::is_header_text(s) {
            s
        } else {
            "unknown"@
        },
        None => "unknown"@,
    }
}

/// The contents of the headers of a request that is passed on: the host goes
/// into a header of its own, with the protocol and the client.
pub open spec fn proxied(
    contents: Map<Seq<char>, Seq<Seq<u8>>>,
    client_ip: Option<Seq<char>>,
) -> Map<Seq<char>, Seq<Seq<u8>>> {
    let host = match crate::headers::header_text(contents, "host"@) {
        Some(h) => h,
        None => Seq::empty(),
    };
    crate::security::with_header(
        crate::security::with_header(
            crate::security::with_header(contents.remove("host"@), "x-forwarded-host"@, host),
            "x-forwarded-proto"@,
            "https"@,
        ),
        "x-forwarded-for"@,
        or_unknown(client_ip),
    )
}

/// Visible text can stand in a header.
proof fn lemma_visible_is_header_text(b: Seq<u8>)
    requires
        crate::headers::is_visible(b),
    ensures
        crate::headers::is_header_text(crate::headers::ascii_text(b)),
{
    let t = crate::headers::ascii_text(b);
    assert forall|i: int| 0 <= i < t.len() implies (#[trigger] t[i]) == '\t' || (0x20
        <= t[i] as int && t[i] as int != 0x7f) by {
        assert(b[i] == 9 || 0x20 <= b[i] < 0x7f);
        assert(t[i] == b[i] as char);
    }
}

/// Prepares the headers of a request for the backend.
pub fn prepare_proxy_headers(headers: &mut HeaderMap<HeaderValue>, client_ip: Option<&str>)
    requires
        crate::headers::has_room_for(*old(headers), 3),
    ensures
        crate::headers::header_contents(*final(headers)) == proxied(
            crate::headers::header_contents(*old(headers)),
            match client_ip {
                Some(t) => Some(t@),
                None => None,
            },
        ),
{
    let ghost contents = crate::headers::header_contents(*headers);
    proof {
        reveal_strlit("host");
        reveal_strlit("x-forwarded-host");
        reveal_strlit("x-forwarded-proto");
        reveal_strlit("x-forwarded-for");
        reveal_strlit("https");
        reveal_strlit("unknown");
        assert(crate::text::lower("host"@) =~= "host"@);
        assert(crate::text::lower("x-forwarded-host"@) =~= "x-forwarded-host"@);
        assert(crate::text::lower("x-forwarded-proto"@) =~= "x-forwarded-proto"@);
        assert(crate::text::lower("x-forwarded-for"@) =~= "x-forwarded-for"@);
        assert(crate::headers::is_header_text("unknown"@));
    }
    let host = match get_text(headers, "host") {
        Some(t) => String::from_str(t),
        None => {
            let empty = String::new();
            assert(empty@ =~= Seq::<char>::empty());
            empty
        },
    };
    proof {
        if crate::headers::header_text(contents, "host"@) is Some {
            lemma_visible_is_header_text(contents["host"@][0]);
        }
        assert(crate::headers::is_header_text(host@));
    }
    remove_header(headers, "host");
    assert(crate::headers::has_room_for(*headers, 2 + 1)) by {
        assert(contents.remove("host"@).dom() =~= contents.dom().remove("host"@));
    }
    set_text(headers, "x-forwarded-host", host.as_str());
    assert(crate::headers::has_room_for(*headers, 2));
    assert(crate::headers::has_room_for(*headers, 1 + 1));
    set_text(headers, "x-forwarded-proto", "https");
    assert(crate::headers::has_room_for(*headers, 1));
    let ip = match client_ip {
        Some(t) => if crate::headers::can_stand_in_header(t) {
            t
        } else {
            "unknown"
        },
        None => "unknown",
    };
    set_text(headers, "x-forwarded-for", ip);
}

/// The headers that are between two neighbours only.
pub open spec fn hop_by_hop() -> Seq<Seq<char>> {
    seq![
        "transfer-encoding"@,
        "connection"@,
        "keep-alive"@,
        "proxy-authenticate"@,
        "proxy-authorization"@,
        "te"@,
        "trailer"@,
        "upgrade"@,
    ]
}

/// The contents of a header map without some names.
pub open spec fn without_names(
    contents: Map<Seq<char>, Seq<Seq<u8>>>,
    names: Seq<Seq<char>>,
) -> Map<Seq<char>, Seq<Seq<u8>>> {
    Map::new(
        |k: Seq<char>| contents.contains_key(k) && !names.contains(k),
        |k: Seq<char>| contents[k],
    )
}

/// The names of the headers between two neighbours are header names in small letters.
proof fn lemma_hop_by_hop()
    ensures
        forall|i: int|
            0 <= i < 8 ==> crate::headers::is_header_name(#[trigger] hop_by_hop()[i])
                && crate::text::lower(hop_by_hop()[i]) == hop_by_hop()[i],
{
    reveal_strlit("transfer-encoding");
    reveal_strlit("connection");
    reveal_strlit("keep-alive");
    reveal_strlit("proxy-authenticate");
    reveal_strlit("proxy-authorization");
    reveal_strlit("te");
    reveal_strlit("trailer");
    reveal_strlit("upgrade");
    assert forall|i: int| 0 <= i < 8 implies crate::headers::is_header_name(
        #[trigger] hop_by_hop()[i],
    ) && crate::text::lower(hop_by_hop()[i]) == hop_by_hop()[i] by {
        assert(crate::text::lower(hop_by_hop()[i]) =~= hop_by_hop()[i]);
    }
}

/// Takes out the headers that are between two neighbours only.
pub fn strip_hop_by_hop(headers: &mut HeaderMap<HeaderValue>)
    ensures
        crate::headers::header_contents(*final(headers)) == without_names(
            crate::headers::header_contents(*old(headers)),
            hop_by_hop(),
        ),
{
    let ghost before = crate::headers::header_contents(*headers);
    proof {
        lemma_hop_by_hop();
        let h = hop_by_hop();
        assert(h[0] == "transfer-encoding"@ && h[1] == "connection"@ && h[2] == "keep-alive"@
            && h[3] == "proxy-authenticate"@ && h[4] == "proxy-authorization"@ && h[5] == "te"@
            && h[6] == "trailer"@ && h[7] == "upgrade"@);
    }
    remove_header(headers, "transfer-encoding");
    remove_header(headers, "connection");
    remove_header(headers, "keep-alive");
    remove_header(headers, "proxy-authenticate");
    remove_header(headers, "proxy-authorization");
    remove_header(headers, "te");
    remove_header(headers, "trailer");
    remove_header(headers, "upgrade");
    assert(crate::headers::header_contents(*headers) =~= without_names(before, hop_by_hop()));
}

// ── Laws ───────────────────────────────────────────────────────────

/// The path has no run of `c` at its start any more.
proof fn lemma_without_leading(s: Seq<char>, c: char)
    ensures
        crate::text::without_leading(s, c).len() > 0 ==> crate::text::without_leading(s, c)[0] != c,
    decreases s.len(),
{
    if s.len() > 0 && s[0] == c {
        lemma_without_leading(s.subrange(1, s.len() as int), c);
    }
}

/// A site serves no file from outside its directory: what follows the directory
/// is a relative path that never goes up.
pub proof fn files_stay_below_root(root: Seq<char>, path: Seq<char>)
    ensures
        match static_plan(root, path) {
            VhostPlanView::File { path: file, mime: _, fallback } => exists|name: Seq<char>|
                file == #[trigger] crate::config::path_in(root, name)
                    && !crate::text::contains_text(name, ".."@) && (name.len() > 0 ==> name[0]
                    != '/'),
            VhostPlanView::Forbidden(status, _) => status == 403 && crate::text::contains_text(
                crate::text::without_leading(path, '/'),
                ".."@,
            ),
            _ => false,
        },
{
    let clean = crate::text::without_leading(path, '/');
    lemma_without_leading(path, '/');
    if !crate::text::contains_text(clean, ".."@) {
        if path == "/"@ || path.len() == 0 {
            reveal_strlit("index.html");
            reveal_strlit("..");
            let name = "index.html"@;
            assert forall|i: int| !#[trigger] crate::text::occurs_at(name, ".."@, i) by {
                if crate::text::occurs_at(name, ".."@, i) {
                    assert(name.subrange(i, i + 2)[0] == name[i]);
                    assert(name.subrange(i, i + 2)[1] == name[i + 1]);
                }
            }
            assert(crate::config::path_in(root, name) == static_plan(root, path)->path);
        } else {
            assert(crate::config::path_in(root, clean) == static_plan(root, path)->path);
        }
    }
}

/// A request finds the same site whatever the case of the letters of its host.
pub proof fn hosts_have_no_case(
    sites: Seq<(Seq<char>, VhostView)>,
    a: Seq<char>,
    b: Seq<char>,
    i: int,
)
    requires
        crate::text::lower(a) == crate::text::lower(b),
    ensures
        is_first_site(sites, a, i) == is_first_site(sites, b, i),
        has_site(sites, a) == has_site(sites, b),
{
}

/// The type of a file goes by the end of the name of the very file that is
/// served, whatever was asked for.
pub proof fn type_is_that_of_the_file(root: Seq<char>, path: Seq<char>)
    ensures
        static_plan(root, path) matches VhostPlanView::File { path: file, mime, .. } ==> {
            &&& (file.len() >= 5 && file.subrange(file.len() - 5, file.len() as int) == seq![
                '.',
                'h',
                't',
                'm',
                'l',
            ]) ==> mime == "text/html; charset=utf-8"@
            &&& (file.len() >= 4 && file.subrange(file.len() - 4, file.len() as int) == seq![
                '.',
                'c',
                's',
                's',
            ]) ==> mime == "text/css; charset=utf-8"@
            &&& (file.len() >= 3 && file.subrange(file.len() - 3, file.len() as int) == seq![
                '.',
                'j',
                's',
            ]) ==> mime == "application/javascript"@
            &&& !(file.len() >= 5 && file.subrange(file.len() - 5, file.len() as int) == seq![
                '.',
                'h',
                't',
                'm',
                'l',
            ]) && !(file.len() >= 4 && file.subrange(file.len() - 4, file.len() as int) == seq![
                '.',
                'c',
                's',
                's',
            ]) && !(file.len() >= 3 && file.subrange(file.len() - 3, file.len() as int) == seq![
                '.',
                'j',
                's',
            ]) ==> mime == "application/octet-stream"@
        },
{
    if let VhostPlanView::File { path: file, .. } = static_plan(root, path) {
        lemma_types(file);
    }
}

/// The ends of names that tell types.
proof fn lemma_types(file: Seq<char>)
    ensures
        crate::text::has_suffix(file, ".html"@) <==> file.len() >= 5 && file.subrange(
            file.len() - 5,
            file.len() as int,
        ) == seq!['.', 'h', 't', 'm', 'l'],
        crate::text::has_suffix(file, ".css"@) <==> file.len() >= 4 && file.subrange(
            file.len() - 4,
            file.len() as int,
        ) == seq!['.', 'c', 's', 's'],
        crate::text::has_suffix(file, ".js"@) <==> file.len() >= 3 && file.subrange(
            file.len() - 3,
            file.len() as int,
        ) == seq!['.', 'j', 's'],
        crate::text::has_suffix(file, ".html"@) ==> !crate::text::has_suffix(file, ".css"@)
            && !crate::text::has_suffix(file, ".js"@),
        crate::text::has_suffix(file, ".css"@) ==> !crate::text::has_suffix(file, ".js"@),
{
    reveal_strlit(".html");
    reveal_strlit(".css");
    reveal_strlit(".js");
    assert(".html"@ =~= seq!['.', 'h', 't', 'm', 'l']);
    assert(".css"@ =~= seq!['.', 'c', 's', 's']);
    assert(".js"@ =~= seq!['.', 'j', 's']);
    let n = file.len() as int;
    if crate::text::has_suffix(file, ".html"@) {
        assert(file.subrange(n - 5, n)[4] == file[n - 1]);
    }
    if crate::text::has_suffix(file, ".css"@) {
        assert(file.subrange(n - 4, n)[3] == file[n - 1]);
        assert(file.subrange(n - 4, n)[2] == file[n - 2]);
    }
    if crate::text::has_suffix(file, ".js"@) {
        assert(file.subrange(n - 3, n)[2] == file[n - 1]);
        assert(file.subrange(n - 3, n)[1] == file[n - 2]);
    }
}

/// The front page of a site is its `index.html`, in HTML, and so is the page
/// that stands in for what is missing.
pub proof fn front_page_is_the_index(root: Seq<char>, path: Seq<char>)
    requires
        root.len() > 0,
        root.last() != '/',
        path.len() == 0 || path == seq!['/'],
    ensures
        static_plan(root, path) == (VhostPlanView::File {
            path: root + "/index.html"@,
            mime: "text/html; charset=utf-8"@,
            fallback: root + "/index.html"@,
        }),
{
    reveal_strlit("/index.html");
    reveal_strlit("index.html");
    reveal_strlit("/");
    reveal_strlit("..");
    assert("/"@ =~= seq!['/']);
    crate::config::names_stand_below_directories(root, "index.html"@);
    let file = root + "/index.html"@;
    assert(root + seq!['/'] + "index.html"@ =~= file);
    lemma_types(file);
    assert(file.subrange(file.len() - 5, file.len() as int) =~= seq!['.', 'h', 't', 'm', 'l']);
    let clean = crate::text::without_leading(path, '/');
    assert(clean.len() == 0) by {
        if path.len() > 0 {
            assert(path =~= Seq::new(1, |i: int| '/') + Seq::<char>::empty());
            crate::text::rows_at_the_ends_go(1, '/', Seq::empty());
        }
    }
    crate::text::split_nowhere(clean, ".."@);
}

/// A path names a file below the directory of the site, however many slashes it
/// begins with; one with two points in a row is forbidden.
pub proof fn paths_name_files_below_the_root(root: Seq<char>, n: nat, name: Seq<char>)
    requires
        root.len() > 0,
        root.last() != '/',
        name.len() > 0,
        name[0] != '/',
    ensures
        ({
            let path = Seq::new(n, |i: int| '/') + name;
            &&& (exists|i: int|
                0 <= i <= name.len() - 2 && #[trigger] name.subrange(i, i + 2) == seq!['.', '.'])
                ==> static_plan(root, path) == VhostPlanView::Forbidden(403, "forbidden"@)
            &&& (forall|i: int|
                0 <= i <= name.len() - 2 ==> #[trigger] name.subrange(i, i + 2) != seq!['.', '.'])
                ==> (static_plan(root, path) matches VhostPlanView::File {
                path: file,
                fallback,
                ..
            } && file == root + seq!['/'] + name && fallback == root + "/index.html"@)
        }),
{
    reveal_strlit("/index.html");
    reveal_strlit("index.html");
    reveal_strlit("/");
    reveal_strlit("..");
    assert(".."@ =~= seq!['.', '.']);
    let row = Seq::new(n, |i: int| '/');
    let path = row + name;
    crate::text::rows_at_the_ends_go(n, '/', name);
    crate::text::split_nowhere(name, ".."@);
    crate::config::names_stand_below_directories(root, name);
    crate::config::names_stand_below_directories(root, "index.html"@);
    assert(root + seq!['/'] + "index.html"@ =~= root + "/index.html"@);
    assert(path.last() == name.last());
    assert(path != "/"@) by {
        if path == "/"@ {
            assert(path.len() == n + name.len());
            assert(path[0] == name[0]);
        }
    }
    if exists|i: int|
        0 <= i <= name.len() - 2 && #[trigger] name.subrange(i, i + 2) == seq!['.', '.'] {
        let i = choose|i: int|
            0 <= i <= name.len() - 2 && #[trigger] name.subrange(i, i + 2) == seq!['.', '.'];
        assert(crate::text::occurs_at(name, ".."@, i));
    }
    if forall|i: int|
        0 <= i <= name.len() - 2 ==> #[trigger] name.subrange(i, i + 2) != seq!['.', '.'] {
        assert forall|i: int| 0 <= i <= name.len() - ".."@.len() implies #[trigger] name.subrange(
            i,
            i + ".."@.len(),
        ) != ".."@ by {
            assert(name.subrange(i, i + 2) != seq!['.', '.']);
        }
    }
}

/// A site redirects for good to its URL, asks its backend for what was asked for,
/// or serves a file.
pub proof fn sites_do_what_they_are_for(
    url: Seq<char>,
    path: Seq<char>,
    path_and_query: Seq<char>,
)
    ensures
        plan_of(VhostView::Redirect(url), path, Some(path_and_query)) == VhostPlanView::Redirect(
            308,
            url,
        ),
        plan_of(VhostView::Redirect(url), path, None) == VhostPlanView::Redirect(308, url),
        plan_of(VhostView::Proxy(url), path, Some(path_and_query)) == VhostPlanView::Proxy(
            url + path_and_query,
        ),
        plan_of(VhostView::Proxy(url), path, None) == VhostPlanView::Proxy(url + "/"@),
        plan_of(VhostView::Static(url), path, Some(path_and_query)) == plan_of(
            VhostView::Static(url),
            path,
            None,
        ),
        plan_of(VhostView::Static(url), path, None) == static_plan(url, path),
{
}

/// A site has exactly one of a directory that exists, a backend that can be
/// asked, and a URL to redirect to; any other is left out.
pub proof fn sites_have_one_purpose(cfg: VhostSiteConfig, root_exists: bool, can_proxy: bool)
    ensures
        ({
            let s = site_of(cfg, root_exists, can_proxy);
            let set = (if cfg.root is Some {
                1int
            } else {
                0
            }) + (if cfg.proxy is Some {
                1int
            } else {
                0
            }) + (if cfg.redirect is Some {
                1int
            } else {
                0
            });
            &&& set != 1 ==> s is None
            &&& set == 1 && cfg.root is Some ==> s == if root_exists {
                Some(VhostView::Static(cfg.root->0@))
            } else {
                None
            }
            &&& set == 1 && cfg.proxy is Some ==> s == if can_proxy {
                Some(VhostView::Proxy("http://"@ + cfg.proxy->0@))
            } else {
                None
            }
            &&& set == 1 && cfg.redirect is Some ==> s == Some(
                VhostView::Redirect(cfg.redirect->0@),
            )
        }),
{
}

/// The configured sites that do something are served, each under its domain, and
/// no others.
pub proof fn configured_sites_are_served(
    configs: Seq<VhostSiteConfig>,
    root_exists: Seq<bool>,
    can_proxy: bool,
    n: nat,
    domain: Seq<char>,
    site: VhostView,
)
    requires
        n <= configs.len(),
        configs.len() == root_exists.len(),
    ensures
        sites_of(configs, root_exists, can_proxy, n).contains((domain, site)) <==> exists|i: int|
            0 <= i < n && (#[trigger] configs[i]).domain@ == domain && site_of(
                configs[i],
                root_exists[i],
                can_proxy,
            ) == Some(site),
        sites_of(configs, root_exists, can_proxy, n).len() <= n,
    decreases n,
{
    if n > 0 {
        let m = (n - 1) as nat;
        configured_sites_are_served(configs, root_exists, can_proxy, m, domain, site);
        let front = sites_of(configs, root_exists, can_proxy, m);
        let all = sites_of(configs, root_exists, can_proxy, n);
        if front.contains((domain, site)) {
            let k = choose|k: int| 0 <= k < front.len() && front[k] == (domain, site);
            assert(all[k] == (domain, site));
        }
        if all.contains((domain, site)) {
            let k = choose|k: int| 0 <= k < all.len() && all[k] == (domain, site);
            if k < front.len() {
                assert(front[k] == (domain, site));
            } else {
                assert(configs[m as int].domain@ == domain);
            }
        }
        if exists|i: int|
            0 <= i < n && (#[trigger] configs[i]).domain@ == domain && site_of(
                configs[i],
                root_exists[i],
                can_proxy,
            ) == Some(site) {
            let i = choose|i: int|
                0 <= i < n && (#[trigger] configs[i]).domain@ == domain && site_of(
                    configs[i],
                    root_exists[i],
                    can_proxy,
                ) == Some(site);
            if i == m {
                assert(all[all.len() - 1] == (domain, site));
            }
        }
    }
}

/// The host of a request is what its header says before the port, or else what
/// its URI says.
pub proof fn host_is_named_by_the_header(
    name: Seq<char>,
    port: Seq<char>,
    uri_host: Option<Seq<char>>,
)
    requires
        name.len() > 0,
        !port.contains(':'),
    ensures
        !name.contains(':') ==> requested_host(Some(name), uri_host) == Some(name),
        requested_host(Some(name + ":"@ + port), uri_host) == Some(name),
        requested_host(Some(Seq::empty()), uri_host) == uri_host,
        requested_host(Some(":"@ + port), uri_host) == uri_host,
        requested_host(None, uri_host) == uri_host,
{
    reveal_strlit(":");
    assert(":"@ =~= seq![':']);
    crate::text::split_at_no_character(name, ':');
    crate::text::split_at_a_character(name, ':', port);
    crate::text::split_at_no_character(Seq::empty(), ':');
    crate::text::split_at_a_character(Seq::empty(), ':', port);
    assert(Seq::<char>::empty() + ":"@ + port =~= ":"@ + port);
}

/// A request goes to the first site whose domain is its host, letter by letter,
/// capital or small; there is one exactly if some domain is.
pub proof fn site_is_told_by_its_domain(
    sites: Seq<(Seq<char>, VhostView)>,
    host: Seq<char>,
    i: int,
    c: int,
)
    requires
        is_first_site(sites, host, i),
        0 <= c < host.len(),
    ensures
        0 <= i < sites.len(),
        sites[i].0.len() == host.len(),
        sites[i].0[c] == host[c] || 65 <= host[c] as int <= 90 && sites[i].0[c] as int
            == host[c] as int + 32 || 97 <= host[c] as int <= 122 && sites[i].0[c] as int
            == host[c] as int - 32,
        has_site(sites, host),
        forall|k: int| 0 <= k < i ==> (#[trigger] sites[k]).0 != host,
{
    crate::text::capitals_are_made_small(sites[i].0, c);
    crate::text::capitals_are_made_small(host, c);
    assert(crate::text::lower(sites[i].0)[c] == crate::text::lower(host)[c]);
}

/// A site whose domain is the host is found, unless an earlier one is.
pub proof fn site_of_the_host_is_found(
    sites: Seq<(Seq<char>, VhostView)>,
    host: Seq<char>,
    i: int,
)
    requires
        0 <= i < sites.len(),
        sites[i].0 == host,
    ensures
        has_site(sites, host),
        exists|k: int| 0 <= k <= i && #[trigger] is_first_site(sites, host, k),
    decreases i,
{
    lemma_first_site(sites, host, i);
}

proof fn lemma_first_site(sites: Seq<(Seq<char>, VhostView)>, host: Seq<char>, i: int)
    requires
        0 <= i < sites.len(),
        crate::text::lower(sites[i].0) == crate::text::lower(host),
    ensures
        exists|k: int| 0 <= k <= i && #[trigger] is_first_site(sites, host, k),
    decreases i,
{
    if exists|k: int|
        0 <= k < i && crate::text::lower((#[trigger] sites[k]).0) == crate::text::lower(host) {
        let k = choose|k: int|
            0 <= k < i && crate::text::lower((#[trigger] sites[k]).0) == crate::text::lower(host);
        lemma_first_site(sites, host, k);
    } else {
        assert(is_first_site(sites, host, i));
    }
}

/// A backend is told the host that was asked for, that it was asked over TLS and
/// who asks, and not the host itself; everything else it gets as it was.
pub proof fn backend_is_told_who_asks(
    contents: Map<Seq<char>, Seq<Seq<u8>>>,
    client: Seq<char>,
    strange: Seq<char>,
    other: Seq<char>,
)
    requires
        crate::headers::is_header_text(client),
        other != "host"@,
        other != "x-forwarded-host"@,
        other != "x-forwarded-proto"@,
        other != "x-forwarded-for"@,
    ensures
        ({
            let p = proxied(contents, Some(client));
            &&& !p.contains_key("host"@)
            &&& p["x-forwarded-proto"@] == seq![vstd::utf8::encode_utf8("https"@)]
            &&& p["x-forwarded-for"@] == seq![vstd::utf8::encode_utf8(client)]
            &&& p["x-forwarded-host"@] == seq![
                vstd::utf8::encode_utf8(
                    match crate::headers::header_text(contents, "host"@) {
                        Some(h) => h,
                        None => Seq::empty(),
                    },
                ),
            ]
            &&& p.contains_key("x-forwarded-host"@) && p.contains_key("x-forwarded-proto"@)
                && p.contains_key("x-forwarded-for"@)
            &&& p.contains_key(other) == contents.contains_key(other)
            &&& p.contains_key(other) ==> p[other] == contents[other]
            &&& proxied(contents, None)["x-forwarded-for"@] == seq![
                vstd::utf8::encode_utf8("unknown"@),
            ]
            &&& !crate::headers::is_header_text(strange) ==> proxied(
                contents,
                Some(strange),
            )["x-forwarded-for"@] == seq![vstd::utf8::encode_utf8("unknown"@)]
        }),
{
    reveal_strlit("host");
    reveal_strlit("x-forwarded-host");
    reveal_strlit("x-forwarded-proto");
    reveal_strlit("x-forwarded-for");
    assert("host"@.len() == 4);
    assert("x-forwarded-host"@.len() == 16);
    assert("x-forwarded-proto"@.len() == 17);
    assert("x-forwarded-for"@.len() == 15);
}

/// The headers that concern one connection alone are taken out of an answer, and
/// no others.
pub proof fn headers_of_one_connection_go(
    contents: Map<Seq<char>, Seq<Seq<u8>>>,
    name: Seq<char>,
)
    ensures
        ({
            let r = without_names(contents, hop_by_hop());
            let hops = name == "transfer-encoding"@ || name == "connection"@ || name
                == "keep-alive"@ || name == "proxy-authenticate"@ || name
                == "proxy-authorization"@ || name == "te"@ || name == "trailer"@ || name
                == "upgrade"@;
            &&& r.contains_key(name) <==> contents.contains_key(name) && !hops
            &&& r.contains_key(name) ==> r[name] == contents[name]
        }),
{
    let h = hop_by_hop();
    assert(h[0] == "transfer-encoding"@ && h[1] == "connection"@ && h[2] == "keep-alive"@ && h[3]
        == "proxy-authenticate"@ && h[4] == "proxy-authorization"@ && h[5] == "te"@ && h[6]
        == "trailer"@ && h[7] == "upgrade"@);
    if h.contains(name) {
        let i = choose|i: int| 0 <= i < h.len() && h[i] == name;
        assert(0 <= i < 8);
    }
}

/// A directory that ends with a slash is the same as one that does not, and a
/// path of slashes alone names the directory itself.
pub proof fn slash_behind_the_root_counts_for_nothing(root: Seq<char>, n: nat, name: Seq<char>)
    requires
        root.len() > 0,
        root.last() != '/',
        name.len() > 0,
        name[0] != '/',
    ensures
        static_plan(root + seq!['/'], Seq::new(n, |i: int| '/') + name) == static_plan(
            root,
            Seq::new(n, |i: int| '/') + name,
        ),
        n >= 2 ==> (static_plan(root, Seq::new(n, |i: int| '/')) matches VhostPlanView::File {
            path: file,
            ..
        } && file == root + seq!['/']),
{
    reveal_strlit("index.html");
    reveal_strlit("/");
    reveal_strlit("..");
    let row = Seq::new(n, |i: int| '/');
    crate::text::rows_at_the_ends_go(n, '/', name);
    crate::text::rows_at_the_ends_go(n, '/', Seq::empty());
    assert(row + Seq::<char>::empty() =~= row);
    crate::config::names_stand_below_directories(root, name);
    crate::config::names_stand_below_directories(root, "index.html"@);
    crate::config::names_stand_below_directories(root, Seq::empty());
    assert(row + name != "/"@) by {
        if row + name == "/"@ {
            assert((row + name).len() == n + name.len());
            assert((row + name)[0] == name[0]);
        }
    }
    crate::text::split_nowhere(Seq::<char>::empty(), ".."@);
    assert(root + seq!['/'] + Seq::<char>::empty() =~= root + seq!['/']);
}

/// Sites are tried in the order in which they are configured.
pub proof fn sites_come_in_their_order(
    configs: Seq<VhostSiteConfig>,
    root_exists: Seq<bool>,
    can_proxy: bool,
    n: nat,
    m: nat,
)
    requires
        n <= m,
    ensures
        sites_of(configs, root_exists, can_proxy, n).len() <= sites_of(
            configs,
            root_exists,
            can_proxy,
            m,
        ).len(),
        sites_of(configs, root_exists, can_proxy, m).take(
            sites_of(configs, root_exists, can_proxy, n).len() as int,
        ) == sites_of(configs, root_exists, can_proxy, n),
    decreases m,
{
    let x = sites_of(configs, root_exists, can_proxy, n);
    let y = sites_of(configs, root_exists, can_proxy, m);
    if n == m {
        assert(y.take(x.len() as int) =~= x);
    } else {
        let k = (m - 1) as nat;
        sites_come_in_their_order(configs, root_exists, can_proxy, n, k);
        let z = sites_of(configs, root_exists, can_proxy, k);
        assert(y.take(x.len() as int) =~= z.take(x.len() as int));
    }
}

/// What is said of sites and of plans for them is what they hold.
pub proof fn sites_say_what_they_hold(
    route: VhostRoute,
    plan: VhostPlan,
    sites: Seq<(String, VhostRoute)>,
    i: int,
)
    ensures
        match (route, route@) {
            (VhostRoute::Static(s), VhostView::Static(v)) => v == s@,
            (VhostRoute::Proxy(s), VhostView::Proxy(v)) => v == s@,
            (VhostRoute::Redirect(s), VhostView::Redirect(v)) => v == s@,
            _ => false,
        },
        match (plan, plan@) {
            (VhostPlan::Redirect { status, location }, VhostPlanView::Redirect(n, l)) => n == status
                && l == location@,
            (VhostPlan::Forbidden { status, body }, VhostPlanView::Forbidden(n, b)) => n == status
                && b == body@,
            (
                VhostPlan::File { path, mime, fallback },
                VhostPlanView::File { path: p, mime: m, fallback: f },
            ) => p == path@ && m == mime@ && f == fallback@,
            (VhostPlan::Proxy { url }, VhostPlanView::Proxy(u)) => u == url@,
            _ => false,
        },
        site_views(sites).len() == sites.len(),
        0 <= i < sites.len() ==> site_views(sites)[i] == (sites[i].0@, sites[i].1@),
{
}

/// The type of a name goes by its end: pages, style sheets and scripts have
/// types of their own, and everything else is just bytes.
pub proof fn names_tell_their_types(name: Seq<char>)
    ensures
        mime_of(name + seq!['.', 'h', 't', 'm', 'l']) == "text/html; charset=utf-8"@,
        mime_of(name + seq!['.', 'c', 's', 's']) == "text/css; charset=utf-8"@,
        mime_of(name + seq!['.', 'j', 's']) == "application/javascript"@,
        mime_of(name) == "text/html; charset=utf-8"@ || mime_of(name) == "text/css; charset=utf-8"@
            || mime_of(name) == "application/javascript"@ || mime_of(name)
            == "application/octet-stream"@,
        name.len() < 3 || name.last() != 'l' && name.last() != 's' ==> mime_of(name)
            == "application/octet-stream"@,
{
    let html = seq!['.', 'h', 't', 'm', 'l'];
    let css = seq!['.', 'c', 's', 's'];
    let js = seq!['.', 'j', 's'];
    lemma_types(name + html);
    lemma_types(name + css);
    lemma_types(name + js);
    lemma_types(name);
    let n = name.len() as int;
    assert((name + html).subrange(n, n + 5) =~= html);
    assert((name + css).subrange(n, n + 4) =~= css);
    assert((name + js).subrange(n, n + 3) =~= js);
    if n >= 5 {
        assert(name.subrange(n - 5, n)[4] == name.last());
    }
    if n >= 4 {
        assert(name.subrange(n - 4, n)[3] == name.last());
    }
    if n >= 3 {
        assert(name.subrange(n - 3, n)[2] == name.last());
    }
}

} // verus!
