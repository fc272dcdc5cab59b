//! Route table: email → endpoint lookup, loaded from `amail_routes.toml`.
//!
//! Routes are registered through the admin API, which updates the table and
//! writes it back to the routes file. An entry of the file is either an exact
//! email or a regular expression:
//!
//! ```toml
//! "agent@domain.com" = "127.0.0.1:8645"
//! ".*@domain\\.com" = "192.168.1.2:8645"
//! ```
//!
//! Lookup priority: exact email, then the first pattern that matches. An entry
//! whose key is the email itself is an exact match, also where the key holds
//! characters that make it a pattern.

use vstd::prelude::*;

use crate::text::{
    chars_of, comes_before, contains_char, decimal_text, ends_with, parse_port, rsplit_once,
    same_text, split_once, starts_with, strip_prefix, trim, trim_trailing,
};

verus! {

broadcast use vstd::seq::group_seq_axioms;

/// What a route says, as plain texts.
#[verifier::ext_equal]
pub struct RouteView {
    pub email: Seq<char>,
    pub host: Seq<char>,
    pub port: u16,
    pub target_url: Seq<char>,
}

/// A single routing entry.
#[derive(Debug)]
pub struct ProfileRoute {
    pub email: String,
    pub host: String,
    pub port: u16,
    /// The endpoint URL, computed once and reused for all lookups.
    pub target_url: String,
}

impl View for ProfileRoute {
    type V = RouteView;

    open spec fn view(&self) -> RouteView {
        RouteView {
            email: self.email@,
            host: self.host@,
            port: self.port,
            target_url: self.target_url@,
        }
    }
}

impl Clone for ProfileRoute {
    fn clone(&self) -> (r: Self)
        ensures
            r@ == self@,
    {
        ProfileRoute {
            email: self.email.clone(),
            host: self.host.clone(),
            port: self.port,
            target_url: self.target_url.clone(),
        }
    }
}

// ── URLs ───────────────────────────────────────────────────────────

/// The scheme of a route URL: everything that is not https is taken as http.
pub open spec fn url_scheme(url: Seq<char>) -> Seq<char> {
    if crate::text::has_prefix(url, "https://"@) {
        "https"@
    } else {
        "http"@
    }
}

/// A URL without its scheme.
pub open spec fn url_rest(url: Seq<char>) -> Seq<char> {
    match crate::text::after_prefix(url, "http://"@) {
        Some(s) => s,
        None => match crate::text::after_prefix(url, "https://"@) {
            Some(s) => s,
            None => url,
        },
    }
}

/// What stands before the first slash.
pub open spec fn url_authority(rest: Seq<char>) -> Seq<char> {
    match crate::text::split_first(rest, "/"@) {
        Some((a, _)) => a,
        None => rest,
    }
}

/// The port that `s` spells, or `default`.
pub open spec fn port_or(s: Seq<char>, default: u16) -> u16 {
    match crate::text::number(s, 0xffff) {
        Some(n) => n as u16,
        None => default,
    }
}

/// The host and the port of `[v6]:port`, `[v6]`, `host:port` or `host`.
/// A missing or unreadable port is 80.
pub open spec fn host_and_port(authority: Seq<char>) -> (Seq<char>, u16) {
    match crate::text::after_prefix(authority, "["@) {
        Some(b) => match crate::text::split_first(b, "]:"@) {
            Some((h, p)) => ("["@ + h + "]"@, port_or(p, 80)),
            None => ("["@ + crate::text::without_trailing(b, ']') + "]"@, 80),
        },
        None => match crate::text::split_last(authority, ":"@) {
            Some((h, p)) => (h, port_or(p, 80)),
            None => (authority, 80),
        },
    }
}

/// The route to a full URL: `scheme://host[:port][/path]`, with the path kept as it is.
pub open spec fn url_route(email: Seq<char>, url: Seq<char>) -> RouteView {
    let u = crate::text::trimmed(url);
    let (host, port) = host_and_port(url_authority(url_rest(u)));
    RouteView { email, host, port, target_url: url_scheme(u) + "://"@ + url_rest(u) }
}

/// The default endpoint of a host and a port.
pub open spec fn default_target(host: Seq<char>, port: u16) -> Seq<char> {
    "http://"@ + host + ":"@ + crate::text::decimal(port as nat) + "/webhooks/amail-inbound"@
}

/// The route to the default endpoint of a host and a port.
pub open spec fn host_route(email: Seq<char>, host: Seq<char>, port: u16) -> RouteView {
    RouteView { email, host, port, target_url: default_target(host, port) }
}

/// The host and the port that an address spells: `[v6]:port`, `host:port`,
/// a bare port (on this machine) or a bare host (at the default port).
pub open spec fn address(s: Seq<char>) -> Option<(Seq<char>, u16)> {
    let t = crate::text::trimmed(s);
    if t.len() == 0 {
        None
    } else {
        match crate::text::after_prefix(t, "["@) {
            Some(rest) => match crate::text::split_first(rest, "]:"@) {
                Some((a, p)) => match crate::text::number(p, 0xffff) {
                    Some(n) => Some(("["@ + a + "]"@, n as u16)),
                    None => None,
                },
                None => None,
            },
            None => match split_port(t) {
                Some(hp) => Some(hp),
                None => match crate::text::number(t, 0xffff) {
                    Some(n) => Some(("127.0.0.1"@, n as u16)),
                    None => Some((t, 8645)),
                },
            },
        }
    }
}

/// The host and the port of `host:port`, if a port stands behind the last colon.
pub open spec fn split_port(t: Seq<char>) -> Option<(Seq<char>, u16)> {
    match crate::text::split_last(t, ":"@) {
        Some((h, p)) => match crate::text::number(p, 0xffff) {
            Some(n) => Some((h, n as u16)),
            None => None,
        },
        None => None,
    }
}

/// The route that an entry of the routes file stands for.
pub open spec fn entry_route(key: Seq<char>, value: Seq<char>) -> Option<RouteView> {
    let v = crate::text::trimmed(value);
    if v.contains('/') {
        Some(url_route(key, v))
    } else {
        match address(v) {
            Some((host, port)) => Some(host_route(key, host, port)),
            None => None,
        }
    }
}

/// The host and the port of `host:port` or `[v6]:port`. An IPv6 address without
/// brackets has no port behind it.
pub open spec fn registered_port(t: Seq<char>) -> Option<(Seq<char>, u16)> {
    match split_port(t) {
        Some((h, p)) => if !h.contains(':') || crate::text::has_suffix(h, "]"@) {
            Some((h, p))
        } else {
            None
        },
        None => None,
    }
}

/// The route that the admin API registers: a full URL, `host:port`, or a host
/// with a port beside it. A port behind the host wins over the one beside it.
pub open spec fn registered_route(email: Seq<char>, host_or_url: Seq<char>, port: u16) -> RouteView {
    if host_or_url.contains('/') {
        url_route(email, host_or_url)
    } else {
        match registered_port(host_or_url) {
            Some((h, p)) => host_route(email, h, p),
            None => host_route(email, host_or_url, port),
        }
    }
}

/// `s` without its scheme.
pub(crate) fn rest_of<'a>(url: &'a str) -> (r: &'a str)
    ensures
        r@ == url_rest(url@),
{
    match strip_prefix(url, "http://") {
        Some(s) => s,
        None => match strip_prefix(url, "https://") {
            Some(s) => s,
            None => url,
        },
    }
}

/// What stands before the first slash.
pub(crate) fn authority_of<'a>(rest: &'a str) -> (r: &'a str)
    ensures
        r@ == url_authority(rest@),
{
    match split_once(rest, "/") {
        Some((a, _b)) => a,
        None => rest,
    }
}

/// `[inner]`.
pub(crate) fn bracketed(inner: &str) -> (r: String)
    ensures
        r@ == "["@ + inner@ + "]"@,
{
    let mut out = String::from_str("[");
    out.append(inner);
    out.append("]");
    out
}

/// The host and the port of `host:port`, if a port stands behind the last colon.
pub(crate) fn read_split_port<'a>(t: &'a str) -> (r: Option<(&'a str, u16)>)
    ensures
        match r {
            Some((h, p)) => split_port(t@) == Some((h@, p)),
            None => split_port(t@) is None,
        },
{
    match rsplit_once(t, ":") {
        Some((h, p)) => match parse_port(p) {
            Some(port) => Some((h, port)),
            None => None,
        },
        None => None,
    }
}

/// The host and the port of `host:port` or `[v6]:port`.
fn read_registered_port<'a>(t: &'a str) -> (r: Option<(&'a str, u16)>)
    ensures
        match r {
            Some((h, p)) => registered_port(t@) == Some((h@, p)),
            None => registered_port(t@) is None,
        },
{
    match read_split_port(t) {
        Some((h, p)) => if !contains_char(h, ':') || ends_with(h, "]") {
            Some((h, p))
        } else {
            None
        },
        None => None,
    }
}

/// The port that `s` spells, or `default`.
fn read_port_or(s: &str, default: u16) -> (r: u16)
    ensures
        r == port_or(s@, default),
{
    match parse_port(s) {
        Some(n) => n,
        None => default,
    }
}

/// The host and the port of an authority.
fn read_host_and_port(authority: &str) -> (r: (String, u16))
    ensures
        (r.0@, r.1) == host_and_port(authority@),
{
    match strip_prefix(authority, "[") {
        Some(b) => match split_once(b, "]:") {
            Some((h, p)) => (bracketed(h), read_port_or(p, 80)),
            None => (bracketed(trim_trailing(b, ']')), 80),
        },
        None => match rsplit_once(authority, ":") {
            Some((h, p)) => (String::from_str(h), read_port_or(p, 80)),
            None => (String::from_str(authority), 80),
        },
    }
}

/// The default endpoint of a host and a port.
fn default_target_text(host: &str, port: u16) -> (r: String)
    ensures
        r@ == default_target(host@, port),
{
    let mut target_url = String::from_str("http://");
    target_url.append(host);
    target_url.append(":");
    target_url.append(decimal_text(port as u64).as_str());
    target_url.append("/webhooks/amail-inbound");
    target_url
}

impl ProfileRoute {
    /// The URL that deliveries for this route go to.
    pub fn target_url(&self) -> (r: &str)
        ensures
            r@ == self@.target_url,
    {
        self.target_url.as_str()
    }

    /// A route to a full URL (`scheme://host[:port][/path]`). The path is kept
    /// as it is, so agent endpoints with paths of their own work unchanged.
    pub fn from_url(email: String, url: &str) -> (r: Self)
        ensures
            r@ == url_route(email@, url@),
    {
        let url = trim(url);
        let rest = rest_of(url);
        let (host, port) = read_host_and_port(authority_of(rest));
        let mut target_url = if starts_with(url, "https://") {
            String::from_str("https")
        } else {
            String::from_str("http")
        };
        target_url.append("://");
        target_url.append(rest);
        ProfileRoute { email, host, port, target_url }
    }

    /// A route to the default endpoint of a host and a port.
    pub fn new(email: String, host: String, port: u16) -> (r: Self)
        ensures
            r@ == host_route(email@, host@, port),
    {
        let target_url = default_target_text(host.as_str(), port);
        ProfileRoute { email, host, port, target_url }
    }
}

// ── The table ──────────────────────────────────────────────────────

/// The routes stand in ascending order of their emails, each email once.
pub open spec fn ascending(s: Seq<RouteView>) -> bool {
    forall|i: int, j: int|
        0 <= i < j < s.len() ==> crate::text::before(
            (#[trigger] s[i]).email,
            (#[trigger] s[j]).email,
        )
}

/// Where the route for `email` stands.
pub open spec fn position(s: Seq<RouteView>, email: Seq<char>) -> int {
    choose|i: int| 0 <= i < s.len() && (#[trigger] s[i]).email == email
}

/// Some route of `s` is for `email`.
pub open spec fn has_email(s: Seq<RouteView>, email: Seq<char>) -> bool {
    exists|i: int| 0 <= i < s.len() && (#[trigger] s[i]).email == email
}

/// The map from emails to routes that a listing stands for.
pub open spec fn table(s: Seq<RouteView>) -> Map<Seq<char>, RouteView> {
    Map::new(|email: Seq<char>| has_email(s, email), |email: Seq<char>| s[position(s, email)])
}

/// In an ascending listing an email stands once.
proof fn lemma_email_once(s: Seq<RouteView>, i: int, j: int)
    requires
        ascending(s),
        0 <= i < s.len(),
        0 <= j < s.len(),
        s[i].email == s[j].email,
    ensures
        i == j,
{
    crate::text::lemma_before_total(s[i].email, s[j].email);
    if i < j {
        assert(crate::text::before(s[i].email, s[j].email));
    }
    if j < i {
        assert(crate::text::before(s[j].email, s[i].email));
    }
}

/// The table holds each route of the listing under its email.
pub proof fn lemma_table_at(s: Seq<RouteView>, i: int)
    requires
        ascending(s),
        0 <= i < s.len(),
    ensures
        table(s).contains_key(s[i].email),
        table(s)[s[i].email] == s[i],
{
    let email = s[i].email;
    assert(has_email(s, email));
    let k = position(s, email);
    assert(0 <= k < s.len() && s[k].email == email);
    lemma_email_once(s, i, k);
}

/// Putting a new route where it belongs keeps the order and adds one key.
proof fn lemma_insert(s: Seq<RouteView>, at: int, r: RouteView)
    requires
        ascending(s),
        0 <= at <= s.len(),
        forall|i: int| 0 <= i < at ==> crate::text::before((#[trigger] s[i]).email, r.email),
        forall|i: int| at <= i < s.len() ==> crate::text::before(r.email, (#[trigger] s[i]).email),
    ensures
        ascending(s.insert(at, r)),
        table(s.insert(at, r)) == table(s).insert(r.email, r),
{
    let t = s.insert(at, r);
    assert forall|i: int, j: int| 0 <= i < j < t.len() implies crate::text::before(
        (#[trigger] t[i]).email,
        (#[trigger] t[j]).email,
    ) by {
        let a = if i < at { i } else { i - 1 };
        let b = if j < at { j } else { j - 1 };
        if i != at {
            assert(t[i] == s[a]);
        }
        if j != at {
            assert(t[j] == s[b]);
        }
    }
    lemma_table_at(t, at);
    assert(t[at] == r);
    assert forall|email: Seq<char>| has_email(t, email) <==> has_email(s, email) || email
        == r.email by {
        if has_email(s, email) {
            let i = position(s, email);
            let k = if i < at { i } else { i + 1 };
            assert(t[k] == s[i]);
        }
        if has_email(t, email) {
            let i = position(t, email);
            if i != at {
                let k = if i < at { i } else { i - 1 };
                assert(t[i] == s[k]);
            }
        }
    }
    assert forall|email: Seq<char>| has_email(s, email) && email != r.email implies table(t)[email]
        == table(s)[email] by {
        let i = position(s, email);
        let k = if i < at { i } else { i + 1 };
        assert(t[k] == s[i]);
        lemma_table_at(t, k);
    }
    assert(table(t) =~= table(s).insert(r.email, r));
}

/// Replacing the route for an email keeps the order.
proof fn lemma_replace(s: Seq<RouteView>, at: int, r: RouteView)
    requires
        ascending(s),
        0 <= at < s.len(),
        s[at].email == r.email,
    ensures
        ascending(s.update(at, r)),
        table(s.update(at, r)) == table(s).insert(r.email, r),
{
    let t = s.update(at, r);
    assert forall|i: int| 0 <= i < s.len() implies (#[trigger] t[i]).email == s[i].email by {}
    lemma_table_at(t, at);
    assert forall|email: Seq<char>| has_email(t, email) <==> has_email(s, email) by {
        if has_email(s, email) {
            assert(t[position(s, email)].email == email);
        }
        if has_email(t, email) {
            assert(s[position(t, email)].email == email);
        }
    }
    lemma_table_at(s, at);
    assert forall|email: Seq<char>| has_email(s, email) && email != r.email implies table(t)[email]
        == table(s)[email] by {
        let i = position(s, email);
        assert(t[i] == s[i]);
        lemma_table_at(t, i);
    }
    assert(table(t) =~= table(s).insert(r.email, r));
}

/// Taking a route out keeps the order and removes one key.
proof fn lemma_remove(s: Seq<RouteView>, at: int)
    requires
        ascending(s),
        0 <= at < s.len(),
    ensures
        ascending(s.remove(at)),
        table(s.remove(at)) == table(s).remove(s[at].email),
{
    let t = s.remove(at);
    let gone = s[at].email;
    assert forall|i: int, j: int| 0 <= i < j < t.len() implies crate::text::before(
        (#[trigger] t[i]).email,
        (#[trigger] t[j]).email,
    ) by {
        let a = if i < at { i } else { i + 1 };
        let b = if j < at { j } else { j + 1 };
        assert(t[i] == s[a]);
        assert(t[j] == s[b]);
    }
    assert forall|email: Seq<char>| has_email(t, email) <==> has_email(s, email) && email
        != gone by {
        if has_email(s, email) && email != gone {
            let i = position(s, email);
            let k = if i < at { i } else { i - 1 };
            assert(t[k] == s[i]);
        }
        if has_email(t, email) {
            let i = position(t, email);
            let k = if i < at { i } else { i + 1 };
            assert(t[i] == s[k]);
            if email == gone {
                lemma_email_once(s, k, at);
            }
        }
    }
    assert forall|email: Seq<char>| has_email(s, email) && email != gone implies table(t)[email]
        == table(s)[email] by {
        let i = position(s, email);
        let k = if i < at { i } else { i - 1 };
        assert(t[k] == s[i]);
        lemma_table_at(t, k);
    }
    assert(table(t) =~= table(s).remove(gone));
}

/// The table has as many keys as the listing has routes.
pub proof fn lemma_table_len(s: Seq<RouteView>)
    requires
        ascending(s),
    ensures
        table(s).dom().finite(),
        table(s).dom().len() == s.len(),
    decreases s.len(),
{
    if s.len() == 0 {
        assert(table(s).dom() =~= Set::empty());
    } else {
        let last = s.len() - 1;
        lemma_remove(s, last);
        lemma_table_at(s, last);
        lemma_table_len(s.remove(last));
        assert(table(s).dom() =~= table(s.remove(last)).dom().insert(s[last].email));
    }
}

/// The table determines the listing: there is one way to list it in ascending order.
pub proof fn listing_is_determined(a: Seq<RouteView>, b: Seq<RouteView>)
    requires
        ascending(a),
        ascending(b),
        table(a) == table(b),
    ensures
        a == b,
    decreases a.len(),
{
    lemma_table_len(a);
    lemma_table_len(b);
    if a.len() > 0 {
        let last = a.len() - 1;
        lemma_table_at(a, last);
        lemma_table_at(b, last);
        assert(has_email(b, a[last].email));
        assert(has_email(a, b[last].email));
        let i = position(b, a[last].email);
        let j = position(a, b[last].email);
        crate::text::lemma_before_total(a[last].email, b[last].email);
        if i < last && j < last {
            assert(crate::text::before(b[i].email, b[last].email));
            assert(crate::text::before(a[j].email, a[last].email));
        }
        assert(a[last].email == b[last].email);
        lemma_remove(a, last);
        lemma_remove(b, last);
        listing_is_determined(a.remove(last), b.remove(last));
        assert(a =~= a.remove(last).push(a[last]));
        assert(b =~= b.remove(last).push(b[last]));
    } else {
        assert(a =~= b);
    }
}

// ── Patterns ───────────────────────────────────────────────────────

/// A regular expression of the `regex` crate.
#[verifier::external_type_specification]
#[verifier::external_body]
pub struct ExRegex(regex::Regex);

/// Why the `regex` crate rejects a pattern.
#[verifier::external_type_specification]
#[verifier::external_body]
pub struct ExRegexError(regex::Error);

/// The texts in which a compiled expression finds a match.
pub uninterp spec fn regex_language(re: regex::Regex) -> Set<Seq<char>>;

/// The texts in which a pattern finds a match once it is compiled, if the
/// `regex` crate accepts it.
pub uninterp spec fn pattern_language(pattern: Seq<char>) -> Option<Set<Seq<char>>>;

/// `regex::Regex::new`: compiles a pattern with the crate's default settings.
/// Whether it is accepted, and what the expression then matches, depends on
/// the pattern alone.
#[verifier::external_body]
fn compile_pattern(pattern: &str) -> (r: Result<regex::Regex, regex::Error>)
    ensures
        match r {
            Ok(re) => pattern_language(pattern@) == Some(regex_language(re)),
            Err(_) => pattern_language(pattern@) is None,
        },
{
    regex::Regex::new(pattern)
}

/// `regex::Regex::is_match`: there is a match somewhere in the text.
#[verifier::external_body]
fn pattern_matches(re: &regex::Regex, haystack: &str) -> (r: bool)
    ensures
        r == regex_language(*re).contains(haystack@),
{
    re.is_match(haystack)
}

/// A pattern of the routes file with the endpoint that it leads to.
#[derive(Debug)]
pub struct PatternRoute {
    pub regex: regex::Regex,
    pub key: String,
    pub host: String,
    pub port: u16,
    pub target_url: String,
}

/// What a pattern route says.
#[verifier::ext_equal]
pub struct PatternView {
    pub language: Set<Seq<char>>,
    pub key: Seq<char>,
    pub host: Seq<char>,
    pub port: u16,
    pub target_url: Seq<char>,
}

impl View for PatternRoute {
    type V = PatternView;

    open spec fn view(&self) -> PatternView {
        PatternView {
            language: regex_language(self.regex),
            key: self.key@,
            host: self.host@,
            port: self.port,
            target_url: self.target_url@,
        }
    }
}

/// The first pattern that matches `email`.
pub open spec fn first_match(patterns: Seq<PatternView>, email: Seq<char>) -> Option<PatternView>
    decreases patterns.len(),
{
    if patterns.len() == 0 {
        None
    } else if patterns[0].language.contains(email) {
        Some(patterns[0])
    } else {
        first_match(patterns.subrange(1, patterns.len() as int), email)
    }
}

/// The first pattern whose key is `email` itself.
pub open spec fn first_named(patterns: Seq<PatternView>, email: Seq<char>) -> Option<PatternView>
    decreases patterns.len(),
{
    if patterns.len() == 0 {
        None
    } else if patterns[0].key == email {
        Some(patterns[0])
    } else {
        first_named(patterns.subrange(1, patterns.len() as int), email)
    }
}

/// The pattern that serves `email`: the one that is named so, or else the first
/// one that matches.
pub open spec fn serving_pattern(
    patterns: Seq<PatternView>,
    email: Seq<char>,
) -> Option<PatternView> {
    match first_named(patterns, email) {
        Some(p) => Some(p),
        None => first_match(patterns, email),
    }
}

/// The route that a pattern gives `email`: to the endpoint of the pattern.
pub open spec fn pattern_route(p: PatternView, email: Seq<char>) -> RouteView {
    RouteView { email, host: p.host, port: p.port, target_url: p.target_url }
}

/// The characters that make a key a regular expression.
pub open spec fn is_meta(c: char) -> bool {
    c == '*' || c == '+' || c == '?' || c == '[' || c == ']' || c == '(' || c == ')' || c == '^'
        || c == '$' || c == '|' || c == '\\'
}

/// `key` is a regular expression, not an exact email.
pub open spec fn is_pattern(key: Seq<char>) -> bool {
    exists|i: int| 0 <= i < key.len() && is_meta(#[trigger] key[i])
}

/// The route for `email`: its own, or else that of the pattern that serves it.
pub open spec fn resolve(
    routes: Map<Seq<char>, RouteView>,
    patterns: Seq<PatternView>,
    email: Seq<char>,
) -> Option<RouteView> {
    if routes.contains_key(email) {
        Some(routes[email])
    } else {
        match serving_pattern(patterns, email) {
            Some(p) => Some(pattern_route(p, email)),
            None => None,
        }
    }
}

// ── The routes file ────────────────────────────────────────────────

/// An entry of the routes file: its key and its value.
pub type EntryView = (Seq<char>, Seq<char>);

/// The texts that entries hold.
pub open spec fn entry_views(v: Seq<(String, String)>) -> Seq<EntryView> {
    v.map_values(|e: (String, String)| (e.0@, e.1@))
}

/// The exact routes among the entries. Entries without a usable address are left out.
pub open spec fn exact_routes(entries: Seq<EntryView>) -> Map<Seq<char>, RouteView>
    decreases entries.len(),
{
    if entries.len() == 0 {
        Map::empty()
    } else {
        let front = exact_routes(entries.drop_last());
        let (key, value) = entries.last();
        match entry_route(key, value) {
            Some(r) => if is_pattern(key) {
                front
            } else {
                front.insert(key, r)
            },
            None => front,
        }
    }
}

/// The pattern routes among the entries, in their order. Patterns that the
/// `regex` crate rejects are left out.
pub open spec fn pattern_routes(entries: Seq<EntryView>) -> Seq<PatternView>
    decreases entries.len(),
{
    if entries.len() == 0 {
        Seq::empty()
    } else {
        let front = pattern_routes(entries.drop_last());
        let (key, value) = entries.last();
        match (entry_route(key, value), pattern_language(key)) {
            (Some(r), Some(language)) => if is_pattern(key) {
                front.push(
                    PatternView {
                        language,
                        key,
                        host: r.host,
                        port: r.port,
                        target_url: r.target_url,
                    },
                )
            } else {
                front
            },
            _ => front,
        }
    }
}

/// The comment that heads the routes file.
pub open spec fn file_header() -> Seq<char> {
    "# Auto-generated by amail-bridge.\n# File changes take effect immediately.\n"@
}

/// The line of an entry.
pub open spec fn entry_line(e: EntryView) -> Seq<char> {
    "\""@ + e.0 + "\" = \""@ + e.1 + "\"\n"@
}

/// The text of a routes file with these entries.
pub open spec fn entries_text(entries: Seq<EntryView>) -> Seq<char>
    decreases entries.len(),
{
    if entries.len() == 0 {
        file_header()
    } else {
        entries_text(entries.drop_last()) + entry_line(entries.last())
    }
}

/// The value that a route is saved as: `host:port` for the default endpoint,
/// so that the file stays short, and the full URL for any other.
pub open spec fn saved_value(r: RouteView) -> Seq<char> {
    if r.target_url == default_target(r.host, r.port) {
        r.host + ":"@ + crate::text::decimal(r.port as nat)
    } else {
        r.target_url
    }
}

/// The entries that a listing is saved as.
pub open spec fn saved_entries(s: Seq<RouteView>) -> Seq<EntryView> {
    s.map_values(|r: RouteView| (r.email, saved_value(r)))
}

/// A text that a TOML basic string holds as it is: no quotes, no backslashes
/// and no control characters but the tab.
pub open spec fn is_plain(s: Seq<char>) -> bool {
    forall|i: int|
        0 <= i < s.len() ==> (#[trigger] s[i]) != '"' && s[i] != '\\' && s[i] as int != 0x7f && (
        s[i] == '\t' || 0x20 <= s[i] as int)
}

/// Entries with plain texts and with their keys in ascending order.
pub open spec fn are_plain(entries: Seq<EntryView>) -> bool {
    &&& forall|i: int|
        0 <= i < entries.len() ==> is_plain((#[trigger] entries[i]).0) && is_plain(entries[i].1)
    &&& forall|i: int, j: int|
        0 <= i < j < entries.len() ==> crate::text::before(
            (#[trigger] entries[i]).0,
            (#[trigger] entries[j]).0,
        )
}

/// The entries of a TOML document that is a table of strings, in ascending
/// order of their keys, as `toml::from_str` reads it.
pub uninterp spec fn toml_entries(content: Seq<char>) -> Option<Seq<EntryView>>;

/// `toml::from_str` into an ordered map of strings. It fails where the text is
/// no TOML document or where some value is no string; what it gives depends on
/// the text alone. A file of comment lines and of lines `"key" = "value"` with
/// plain texts and ascending keys is read as those very entries.
#[verifier::external_body]
fn read_toml(content: &str) -> (r: Option<Vec<(String, String)>>)
    ensures
        match r {
            Some(v) => toml_entries(content@) == Some(entry_views(v@)),
            None => toml_entries(content@) is None,
        },
        forall|e: Seq<EntryView>|
            are_plain(e) && content@ == #[trigger] entries_text(e) ==> r is Some && entry_views(
                r->0@,
            ) == e,
{
    match toml::from_str::<std::collections::BTreeMap<String, String>>(content) {
        Ok(m) => Some(m.into_iter().collect()),
        Err(_) => None,
    }
}

// ── The router ─────────────────────────────────────────────────────

/// Email → route lookup table.
pub struct ProfileRouter {
    routes: Vec<ProfileRoute>,
    patterns: Vec<PatternRoute>,
    routes_file: String,
    writing_routes: bool,
}

/// The texts that routes hold.
pub open spec fn route_views(v: Seq<ProfileRoute>) -> Seq<RouteView> {
    v.map_values(|r: ProfileRoute| r@)
}

impl ProfileRouter {
    /// The routes in ascending order of their emails.
    pub closed spec fn listing(&self) -> Seq<RouteView> {
        route_views(self.routes@)
    }

    /// The patterns in the order in which they are tried.
    pub closed spec fn patterns(&self) -> Seq<PatternView> {
        self.patterns@.map_values(|p: PatternRoute| p@)
    }

    /// Where the routes are saved.
    pub closed spec fn file(&self) -> Seq<char> {
        self.routes_file@
    }

    /// The routes file is being written by this process.
    pub closed spec fn writing(&self) -> bool {
        self.writing_routes
    }

    /// Each email has one route.
    pub open spec fn wf(&self) -> bool {
        ascending(self.listing())
    }

    /// The routes by email.
    pub open spec fn routes(&self) -> Map<Seq<char>, RouteView> {
        table(self.listing())
    }

    /// An empty table, saved at `routes_file`.
    pub fn new(routes_file: String) -> (r: Self)
        ensures
            r.wf(),
            r.listing() == Seq::<RouteView>::empty(),
            r.routes() == Map::<Seq<char>, RouteView>::empty(),
            r.patterns() == Seq::<PatternView>::empty(),
            r.file() == routes_file@,
            !r.writing(),
    {
        let r = ProfileRouter {
            routes: Vec::new(),
            patterns: Vec::new(),
            routes_file,
            writing_routes: false,
        };
        assert(r.listing() =~= Seq::<RouteView>::empty());
        assert(r.routes() =~= Map::<Seq<char>, RouteView>::empty());
        assert(r.patterns() =~= Seq::<PatternView>::empty());
        r
    }

    /// Where the routes are saved.
    pub fn routes_file(&self) -> (r: &str)
        ensures
            r@ == self.file(),
    {
        self.routes_file.as_str()
    }

    /// Where the route for `email` stands, or where it belongs.
    fn search(&self, email: &str) -> (r: (bool, usize))
        requires
            self.wf(),
        ensures
            r.1 <= self.listing().len(),
            forall|i: int|
                0 <= i < r.1 ==> crate::text::before((#[trigger] self.listing()[i]).email, email@),
            r.0 ==> r.1 < self.listing().len() && self.listing()[r.1 as int].email == email@,
            !r.0 ==> forall|i: int|
                r.1 <= i < self.listing().len() ==> crate::text::before(
                    email@,
                    (#[trigger] self.listing()[i]).email,
                ),
            r.0 == self.routes().contains_key(email@),
    {
        let ghost s = self.listing();
        let mut lo: usize = 0;
        let mut hi: usize = self.routes.len();
        while lo < hi
            invariant
                s == self.listing(),
                s.len() == self.routes@.len(),
                ascending(s),
                lo <= hi <= s.len(),
                forall|i: int| 0 <= i < lo ==> crate::text::before((#[trigger] s[i]).email, email@),
                forall|i: int|
                    hi <= i < s.len() ==> !crate::text::before((#[trigger] s[i]).email, email@),
            decreases hi - lo,
        {
            let mid = lo + (hi - lo) / 2;
            assert(s[mid as int] == self.routes@[mid as int]@);
            if comes_before(self.routes[mid].email.as_str(), email) {
                assert forall|i: int| 0 <= i < mid + 1 implies crate::text::before(
                    (#[trigger] s[i]).email,
                    email@,
                ) by {
                    if i < mid {
                        crate::text::lemma_before_transitive(
                            s[i].email,
                            s[mid as int].email,
                            email@,
                        );
                    }
                }
                lo = mid + 1;
            } else {
                assert forall|i: int| mid <= i < s.len() implies !crate::text::before(
                    (#[trigger] s[i]).email,
                    email@,
                ) by {
                    if mid < i && crate::text::before(s[i].email, email@) {
                        crate::text::lemma_before_transitive(
                            s[mid as int].email,
                            s[i].email,
                            email@,
                        );
                    }
                }
                hi = mid;
            }
        }
        let found = lo < self.routes.len() && same_text(self.routes[lo].email.as_str(), email);
        assert(lo < s.len() ==> s[lo as int] == self.routes@[lo as int]@);
        proof {
            if found {
                assert(has_email(s, email@));
            } else {
                assert forall|i: int| lo <= i < s.len() implies crate::text::before(
                    email@,
                    (#[trigger] s[i]).email,
                ) by {
                    crate::text::lemma_before_total(email@, s[i].email);
                    crate::text::lemma_before_total(email@, s[lo as int].email);
                    if s[i].email == email@ {
                        assert(lo < i);
                        assert(crate::text::before(s[lo as int].email, s[i].email));
                    }
                }
                if has_email(s, email@) {
                    let k = position(s, email@);
                    crate::text::lemma_before_total(email@, s[k].email);
                    assert(crate::text::before(s[k].email, email@) || crate::text::before(
                        email@,
                        s[k].email,
                    ));
                }
            }
        }
        (found, lo)
    }

    /// Puts `route` into the table under its email.
    fn store(&mut self, route: ProfileRoute)
        requires
            old(self).wf(),
        ensures
            final(self).wf(),
            final(self).routes() == old(self).routes().insert(route@.email, route@),
            final(self).patterns() == old(self).patterns(),
            final(self).file() == old(self).file(),
            final(self).writing() == old(self).writing(),
    {
        let (found, at) = self.search(route.email.as_str());
        let ghost s = self.listing();
        let ghost view = route@;
        if found {
            self.routes.set(at, route);
            proof {
                lemma_replace(s, at as int, view);
                assert(self.listing() =~= s.update(at as int, view));
            }
        } else {
            self.routes.insert(at, route);
            proof {
                lemma_insert(s, at as int, view);
                assert(self.listing() =~= s.insert(at as int, view));
            }
        }
    }

    /// Where the pattern that is named `email` stands.
    fn find_named(&self, email: &str) -> (r: Option<usize>)
        ensures
            match r {
                Some(i) => i < self.patterns().len() && first_named(self.patterns(), email@)
                    == Some(self.patterns()[i as int]),
                None => first_named(self.patterns(), email@) is None,
            },
    {
        let ghost patterns = self.patterns();
        let ghost all = patterns.len() as int;
        let mut i: usize = 0;
        assert(patterns.subrange(0, all) =~= patterns);
        while i < self.patterns.len()
            invariant
                patterns == self.patterns(),
                all == patterns.len(),
                all == self.patterns@.len(),
                i <= self.patterns.len(),
                first_named(patterns, email@) == first_named(
                    patterns.subrange(i as int, all),
                    email@,
                ),
            decreases self.patterns.len() - i,
        {
            let ghost rest = patterns.subrange(i as int, all);
            assert(rest[0] == self.patterns@[i as int]@);
            if same_text(self.patterns[i].key.as_str(), email) {
                return Some(i);
            }
            assert(rest.subrange(1, rest.len() as int) =~= patterns.subrange(i + 1, all));
            i += 1;
        }
        None
    }

    /// Where the first pattern that matches `email` stands.
    fn find_match(&self, email: &str) -> (r: Option<usize>)
        ensures
            match r {
                Some(i) => i < self.patterns().len() && first_match(self.patterns(), email@)
                    == Some(self.patterns()[i as int]),
                None => first_match(self.patterns(), email@) is None,
            },
    {
        let ghost patterns = self.patterns();
        let ghost all = patterns.len() as int;
        let mut i: usize = 0;
        assert(patterns.subrange(0, all) =~= patterns);
        while i < self.patterns.len()
            invariant
                patterns == self.patterns(),
                all == patterns.len(),
                all == self.patterns@.len(),
                i <= self.patterns.len(),
                first_match(patterns, email@) == first_match(
                    patterns.subrange(i as int, all),
                    email@,
                ),
            decreases self.patterns.len() - i,
        {
            let ghost rest = patterns.subrange(i as int, all);
            assert(rest[0] == self.patterns@[i as int]@);
            if pattern_matches(&self.patterns[i].regex, email) {
                return Some(i);
            }
            assert(rest.subrange(1, rest.len() as int) =~= patterns.subrange(i + 1, all));
            i += 1;
        }
        None
    }

    /// The route for an agent's email: the exact one, or else the endpoint of the
    /// pattern that is named so or, failing that, of the first one that matches.
    /// What a pattern gives is then kept as the exact route.
    pub fn lookup(&mut self, email: &str) -> (r: Option<ProfileRoute>)
        requires
            old(self).wf(),
        ensures
            final(self).wf(),
            final(self).patterns() == old(self).patterns(),
            final(self).file() == old(self).file(),
            final(self).writing() == old(self).writing(),
            match resolve(old(self).routes(), old(self).patterns(), email@) {
                Some(v) => r is Some && r->0@ == v && final(self).routes()
                    == old(self).routes().insert(email@, v),
                None => r is None && final(self).routes() == old(self).routes(),
            },
    {
        let (found, at) = self.search(email);
        if found {
            let route = self.routes[at].clone();
            proof {
                lemma_table_at(self.listing(), at as int);
                assert(self.listing()[at as int] == self.routes@[at as int]@);
                assert(self.routes().insert(email@, route@) =~= self.routes());
            }
            return Some(route);
        }
        let found = match self.find_named(email) {
            Some(i) => Some(i),
            None => self.find_match(email),
        };
        match found {
            Some(i) => {
                assert(self.patterns()[i as int] == self.patterns@[i as int]@);
                let p = &self.patterns[i];
                let route = ProfileRoute {
                    email: String::from_str(email),
                    host: p.host.clone(),
                    port: p.port,
                    target_url: p.target_url.clone(),
                };
                self.store(route.clone());
                Some(route)
            },
            None => None,
        }
    }

    /// The host and the port that an address spells.
    pub fn parse_addr(s: &str) -> (r: Option<(String, u16)>)
        ensures
            match r {
                Some((host, port)) => address(s@) == Some((host@, port)),
                None => address(s@) is None,
            },
    {
        let t = trim(s);
        if t.is_empty() {
            return None;
        }
        if let Some(rest) = strip_prefix(t, "[") {
            return match split_once(rest, "]:") {
                Some((a, p)) => match parse_port(p) {
                    Some(port) => Some((bracketed(a), port)),
                    None => None,
                },
                None => None,
            };
        }
        if let Some((host, port)) = read_split_port(t) {
            return Some((String::from_str(host), port));
        }
        match parse_port(t) {
            Some(port) => Some((String::from_str("127.0.0.1"), port)),
            None => Some((String::from_str(t), 8645)),
        }
    }

    /// `key` is a regular expression, not an exact email.
    pub fn is_regex_pattern(key: &str) -> (r: bool)
        ensures
            r == is_pattern(key@),
    {
        let x = chars_of(key);
        let mut i: usize = 0;
        while i < x.len()
            invariant
                x@ == key@,
                i <= x.len(),
                forall|j: int| 0 <= j < i ==> !is_meta(#[trigger] x@[j]),
            decreases x.len() - i,
        {
            let c = x[i];
            if c == '*' || c == '+' || c == '?' || c == '[' || c == ']' || c == '(' || c == ')'
                || c == '^' || c == '$' || c == '|' || c == '\\' {
                assert(is_meta(key@[i as int]));
                return true;
            }
            i += 1;
        }
        false
    }

    /// The route that an entry of the routes file stands for.
    fn read_entry(key: &str, value: &str) -> (r: Option<ProfileRoute>)
        ensures
            match r {
                Some(route) => entry_route(key@, value@) == Some(route@),
                None => entry_route(key@, value@) is None,
            },
    {
        let v = trim(value);
        if contains_char(v, '/') {
            Some(ProfileRoute::from_url(String::from_str(key), v))
        } else {
            match Self::parse_addr(v) {
                Some((host, port)) => Some(ProfileRoute::new(String::from_str(key), host, port)),
                None => None,
            }
        }
    }

    /// Replaces the table by the entries of a routes file.
    pub fn load_entries(&mut self, entries: &Vec<(String, String)>)
        requires
            old(self).wf(),
        ensures
            final(self).wf(),
            final(self).routes() == exact_routes(entry_views(entries@)),
            final(self).patterns() == pattern_routes(entry_views(entries@)),
            final(self).file() == old(self).file(),
            !final(self).writing(),
    {
        self.writing_routes = false;
        self.routes = Vec::new();
        self.patterns = Vec::new();
        let ghost e = entry_views(entries@);
        let mut i: usize = 0;
        assert(self.listing() =~= Seq::<RouteView>::empty());
        assert(e.take(0) =~= Seq::<EntryView>::empty());
        assert(self.routes() =~= exact_routes(e.take(0)));
        assert(self.patterns() =~= pattern_routes(e.take(0)));
        while i < entries.len()
            invariant
                i <= entries.len(),
                e == entry_views(entries@),
                self.wf(),
                self.routes() == exact_routes(e.take(i as int)),
                self.patterns() == pattern_routes(e.take(i as int)),
                self.file() == old(self).file(),
                !self.writing(),
            decreases entries.len() - i,
        {
            let ghost next = e.take(i + 1);
            assert(next.drop_last() =~= e.take(i as int));
            assert(next.last() == (entries@[i as int].0@, entries@[i as int].1@));
            let key = entries[i].0.as_str();
            if let Some(route) = Self::read_entry(key, entries[i].1.as_str()) {
                if Self::is_regex_pattern(key) {
                    if let Ok(re) = compile_pattern(key) {
                        let pattern = PatternRoute {
                            regex: re,
                            key: String::from_str(key),
                            host: route.host,
                            port: route.port,
                            target_url: route.target_url,
                        };
                        let ghost before = self.patterns();
                        let ghost view = pattern@;
                        let ghost listing = self.listing();
                        self.patterns.push(pattern);
                        assert(self.listing() == listing);
                        assert(self.patterns() =~= before.push(view));
                    }
                } else {
                    self.store(route);
                }
            }
            i += 1;
        }
        assert(e.take(entries.len() as int) =~= e);
    }

    /// Replaces the table by what the routes file holds. `content` is `None`
    /// where the file could not be read. A file that is no table of strings
    /// empties the table.
    ///
    /// What `begin_write` made of a table leads every email where it did before,
    /// as long as each of its routes can be told from its saved value; it is
    /// read back as that very table if no email looks like a pattern.
    pub fn load_from_file(&mut self, content: Option<&str>)
        requires
            old(self).wf(),
        ensures
            final(self).wf(),
            final(self).routes() == exact_routes(loaded_entries(content)),
            final(self).patterns() == pattern_routes(loaded_entries(content)),
            final(self).file() == old(self).file(),
            !final(self).writing(),
            forall|s: Seq<RouteView>|
                are_restorable(s) && content is Some && content->0@ == #[trigger] file_text(s)
                    ==> answers_as(final(self).routes(), final(self).patterns(), s),
            forall|s: Seq<RouteView>|
                are_restorable(s) && are_exact(s) && content is Some && content->0@
                    == #[trigger] file_text(s) ==> final(self).listing() == s
                    && final(self).patterns() == Seq::<PatternView>::empty(),
    {
        let mut entries: Vec<(String, String)> = Vec::new();
        if let Some(c) = content {
            if let Some(v) = read_toml(c) {
                proof {
                    assert forall|s: Seq<RouteView>|
                        are_restorable(s) && c@ == #[trigger] file_text(s) implies entry_views(v@)
                        == saved_entries(s) by {
                        lemma_saved_entries_are_plain(s);
                        assert(c@ == entries_text(saved_entries(s)));
                    }
                }
                entries = v;
            } else {
                proof {
                    assert forall|s: Seq<RouteView>|
                        are_restorable(s) && c@ == #[trigger] file_text(s) implies false by {
                        lemma_saved_entries_are_plain(s);
                        assert(c@ == entries_text(saved_entries(s)));
                    }
                }
                assert(entry_views(entries@) =~= Seq::<EntryView>::empty());
            }
        } else {
            assert(entry_views(entries@) =~= Seq::<EntryView>::empty());
        }
        self.load_entries(&entries);
        proof {
            assert forall|s: Seq<RouteView>|
                are_restorable(s) && content is Some && content->0@ == #[trigger] file_text(
                    s,
                ) implies answers_as(self.routes(), self.patterns(), s) by {
                lemma_answers_as(s);
            }
            assert forall|s: Seq<RouteView>|
                are_restorable(s) && are_exact(s) && content is Some && content->0@
                    == #[trigger] file_text(s) implies self.listing() == s && self.patterns()
                == Seq::<PatternView>::empty() by {
                lemma_restored(s);
                listing_is_determined(self.listing(), s);
            }
        }
    }

    /// Adds or updates the route for an exact email. `host_or_url` is a full
    /// URL, whose path is kept, or else `host:port` or a bare host, which get the
    /// default path. `port` is for a bare host, such as an IPv6 address.
    pub fn update_route(&mut self, email: &str, host_or_url: &str, port: u16)
        requires
            old(self).wf(),
        ensures
            final(self).wf(),
            final(self).routes() == old(self).routes().insert(
                email@,
                registered_route(email@, host_or_url@, port),
            ),
            final(self).patterns() == old(self).patterns(),
            final(self).file() == old(self).file(),
            final(self).writing() == old(self).writing(),
    {
        let route = if contains_char(host_or_url, '/') {
            ProfileRoute::from_url(String::from_str(email), host_or_url)
        } else {
            match read_registered_port(host_or_url) {
                Some((h, p)) => ProfileRoute::new(String::from_str(email), String::from_str(h), p),
                None => ProfileRoute::new(
                    String::from_str(email),
                    String::from_str(host_or_url),
                    port,
                ),
            }
        };
        self.store(route);
    }

    /// Removes the route for an exact email, if there is one.
    pub fn remove_route(&mut self, email: &str)
        requires
            old(self).wf(),
        ensures
            final(self).wf(),
            final(self).routes() == old(self).routes().remove(email@),
            final(self).patterns() == old(self).patterns(),
            final(self).file() == old(self).file(),
            final(self).writing() == old(self).writing(),
    {
        let (found, at) = self.search(email);
        let ghost s = self.listing();
        if found {
            self.routes.remove(at);
            proof {
                lemma_remove(s, at as int);
                assert(self.listing() =~= s.remove(at as int));
            }
        } else {
            assert(self.routes().remove(email@) =~= self.routes());
        }
    }

    /// All routes, in ascending order of their emails.
    pub fn list_routes(&self) -> (r: Vec<ProfileRoute>)
        ensures
            route_views(r@) == self.listing(),
    {
        let mut out: Vec<ProfileRoute> = Vec::new();
        let mut i: usize = 0;
        while i < self.routes.len()
            invariant
                i <= self.routes.len(),
                route_views(out@) == self.listing().take(i as int),
                self.listing().len() == self.routes@.len(),
            decreases self.routes.len() - i,
        {
            let ghost before = out@;
            let route = self.routes[i].clone();
            out.push(route);
            assert(route_views(out@) =~= route_views(before).push(route@));
            assert(self.listing()[i as int] == self.routes@[i as int]@);
            assert(self.listing().take(i as int).push(route@) =~= self.listing().take(i + 1));
            i += 1;
        }
        assert(self.listing().take(i as int) =~= self.listing());
        out
    }

    /// The number of routes.
    pub fn route_count(&self) -> (r: usize)
        requires
            self.wf(),
        ensures
            r == self.routes().dom().len(),
            r == self.listing().len(),
    {
        proof {
            lemma_table_len(self.listing());
        }
        self.routes.len()
    }

    /// The emails that have a route, in ascending order.
    pub fn list_emails(&self) -> (r: Vec<String>)
        ensures
            crate::text::texts(r@) == self.listing().map_values(|v: RouteView| v.email),
    {
        let ghost emails = self.listing().map_values(|v: RouteView| v.email);
        let mut out: Vec<String> = Vec::new();
        let mut i: usize = 0;
        while i < self.routes.len()
            invariant
                i <= self.routes.len(),
                emails == self.listing().map_values(|v: RouteView| v.email),
                emails.len() == self.routes@.len(),
                crate::text::texts(out@) == emails.take(i as int),
            decreases self.routes.len() - i,
        {
            let ghost before = out@;
            let email = self.routes[i].email.clone();
            out.push(email);
            assert(crate::text::texts(out@) =~= crate::text::texts(before).push(email@));
            assert(emails[i as int] == self.routes@[i as int]@.email);
            assert(emails.take(i as int).push(email@) =~= emails.take(i + 1));
            i += 1;
        }
        assert(emails.take(i as int) =~= emails);
        out
    }

    /// The text that the table is saved as.
    pub fn file_content(&self) -> (r: String)
        ensures
            r@ == file_text(self.listing()),
    {
        let ghost e = saved_entries(self.listing());
        let mut out = String::from_str(
            "# Auto-generated by amail-bridge.\n# File changes take effect immediately.\n",
        );
        let mut i: usize = 0;
        assert(e.take(0) =~= Seq::<EntryView>::empty());
        while i < self.routes.len()
            invariant
                i <= self.routes.len(),
                e == saved_entries(self.listing()),
                e.len() == self.routes@.len(),
                out@ == entries_text(e.take(i as int)),
            decreases self.routes.len() - i,
        {
            let ghost next = e.take(i + 1);
            assert(next.drop_last() =~= e.take(i as int));
            assert(next.last() == (self.routes@[i as int]@.email, saved_value(
                self.routes@[i as int]@,
            )));
            let route = &self.routes[i];
            let value = Self::value_to_save(route);
            let ghost before = out@;
            out.append("\"");
            out.append(route.email.as_str());
            out.append("\" = \"");
            out.append(value.as_str());
            out.append("\"\n");
            assert(out@ =~= before + entry_line(next.last()));
            i += 1;
        }
        assert(e.take(i as int) =~= e);
        out
    }

    /// The value that a route is saved as.
    fn value_to_save(route: &ProfileRoute) -> (r: String)
        ensures
            r@ == saved_value(route@),
    {
        let default = default_target_text(route.host.as_str(), route.port);
        if same_text(route.target_url.as_str(), default.as_str()) {
            let mut origin = route.host.clone();
            origin.append(":");
            origin.append(decimal_text(route.port as u64).as_str());
            origin
        } else {
            route.target_url.clone()
        }
    }

    /// Marks the routes file as being written by this process and gives the
    /// text to write. `finish_write` follows when the write is over.
    pub fn begin_write(&mut self) -> (r: String)
        ensures
            r@ == file_text(old(self).listing()),
            final(self).listing() == old(self).listing(),
            final(self).patterns() == old(self).patterns(),
            final(self).file() == old(self).file(),
            final(self).writing(),
    {
        self.writing_routes = true;
        self.file_content()
    }

    /// Changes of the routes file by others are picked up again.
    pub fn finish_write(&mut self)
        ensures
            final(self).listing() == old(self).listing(),
            final(self).patterns() == old(self).patterns(),
            final(self).file() == old(self).file(),
            !final(self).writing(),
    {
        self.writing_routes = false;
    }

    /// Whether a change of these files calls for a reload: the routes file is
    /// among them, and this process is not writing it.
    pub fn should_reload(&self, changed: &Vec<String>) -> (r: bool)
        ensures
            r == (crate::text::texts(changed@).contains(self.file()) && !self.writing()),
    {
        let ghost t = crate::text::texts(changed@);
        let mut i: usize = 0;
        while i < changed.len()
            invariant
                i <= changed.len(),
                t == crate::text::texts(changed@),
                forall|j: int| 0 <= j < i ==> (#[trigger] t[j]) != self.file(),
            decreases changed.len() - i,
        {
            assert(t[i as int] == changed@[i as int]@);
            if same_text(changed[i].as_str(), self.routes_file.as_str()) {
                return !self.writing_routes;
            }
            i += 1;
        }
        false
    }
}

/// The entries that a load takes over.
pub open spec fn loaded_entries(content: Option<&str>) -> Seq<EntryView> {
    match content {
        Some(c) => match toml_entries(c@) {
            Some(e) => e,
            None => Seq::empty(),
        },
        None => Seq::empty(),
    }
}

/// The text that a listing is saved as.
pub open spec fn file_text(s: Seq<RouteView>) -> Seq<char> {
    entries_text(saved_entries(s))
}

/// A route that can be told from its entry in the routes file.
pub open spec fn is_restorable(r: RouteView) -> bool {
    &&& is_plain(r.email)
    &&& is_plain(saved_value(r))
    &&& entry_route(r.email, saved_value(r)) == Some(r)
    &&& is_pattern(r.email) ==> pattern_language(r.email) is Some
}

/// A listing whose routes can all be told from their entries.
pub open spec fn are_restorable(s: Seq<RouteView>) -> bool {
    &&& ascending(s)
    &&& forall|i: int| 0 <= i < s.len() ==> is_restorable(#[trigger] s[i])
}

/// No email of the listing looks like a pattern.
pub open spec fn are_exact(s: Seq<RouteView>) -> bool {
    forall|i: int| 0 <= i < s.len() ==> !is_pattern((#[trigger] s[i]).email)
}

/// Every email of the listing is led where the listing says.
pub open spec fn answers_as(
    routes: Map<Seq<char>, RouteView>,
    patterns: Seq<PatternView>,
    s: Seq<RouteView>,
) -> bool {
    forall|i: int|
        0 <= i < s.len() ==> resolve(routes, patterns, (#[trigger] s[i]).email) == Some(s[i])
}

proof fn lemma_saved_entries_are_plain(s: Seq<RouteView>)
    requires
        are_restorable(s),
    ensures
        are_plain(saved_entries(s)),
{
    let e = saved_entries(s);
    assert forall|i: int| 0 <= i < e.len() implies is_plain((#[trigger] e[i]).0) && is_plain(
        e[i].1,
    ) by {
        assert(is_restorable(s[i]));
    }
    assert forall|i: int, j: int| 0 <= i < j < e.len() implies crate::text::before(
        (#[trigger] e[i]).0,
        (#[trigger] e[j]).0,
    ) by {
        assert(e[i].0 == s[i].email);
        assert(e[j].0 == s[j].email);
    }
}

/// The entries of a restorable listing make up its table, without any pattern.
proof fn lemma_restored(s: Seq<RouteView>)
    requires
        are_restorable(s),
        are_exact(s),
    ensures
        exact_routes(saved_entries(s)) == table(s),
        pattern_routes(saved_entries(s)) == Seq::<PatternView>::empty(),
    decreases s.len(),
{
    let e = saved_entries(s);
    if s.len() == 0 {
        assert(table(s) =~= Map::<Seq<char>, RouteView>::empty());
    } else {
        let last = s.len() - 1;
        let front = s.drop_last();
        assert(front =~= s.remove(last));
        lemma_remove(s, last);
        assert forall|i: int| 0 <= i < front.len() implies is_restorable(#[trigger] front[i]) by {
            assert(front[i] == s[i]);
        }
        assert forall|i: int| 0 <= i < front.len() implies !is_pattern(
            (#[trigger] front[i]).email,
        ) by {
            assert(front[i] == s[i]);
        }
        lemma_restored(front);
        assert(e.drop_last() =~= saved_entries(front));
        assert(e.last() == (s[last].email, saved_value(s[last])));
        assert(is_restorable(s[last]));
        assert(!is_pattern(s[last].email));
        lemma_table_at(s, last);
        assert(table(s) =~= table(front).insert(s[last].email, s[last]));
    }
}

/// Each pattern among the entries is named by one of the keys.
proof fn lemma_pattern_keys(e: Seq<EntryView>, k: int)
    requires
        0 <= k < pattern_routes(e).len(),
    ensures
        exists|i: int| 0 <= i < e.len() && (#[trigger] e[i]).0 == pattern_routes(e)[k].key,
    decreases e.len(),
{
    let front = e.drop_last();
    if k < pattern_routes(front).len() {
        lemma_pattern_keys(front, k);
        let i = choose|i: int|
            0 <= i < front.len() && (#[trigger] front[i]).0 == pattern_routes(front)[k].key;
        assert(e[i] == front[i]);
    } else {
        assert(e[e.len() - 1].0 == pattern_routes(e)[k].key);
    }
}

/// No key that looks like a pattern has an exact route, and what has one is a key.
proof fn lemma_exact_keys(e: Seq<EntryView>, email: Seq<char>)
    requires
        exact_routes(e).contains_key(email),
    ensures
        !is_pattern(email),
        exists|i: int| 0 <= i < e.len() && (#[trigger] e[i]).0 == email,
    decreases e.len(),
{
    if e.len() > 0 {
        let front = e.drop_last();
        if exact_routes(front).contains_key(email) {
            lemma_exact_keys(front, email);
            let i = choose|i: int| 0 <= i < front.len() && (#[trigger] front[i]).0 == email;
            assert(e[i] == front[i]);
        } else {
            assert(e[e.len() - 1].0 == email);
        }
    }
}

/// A pattern behind others of another name is found under its name.
proof fn lemma_named_last(patterns: Seq<PatternView>, p: PatternView, email: Seq<char>)
    ensures
        first_named(patterns, email) is Some ==> first_named(patterns.push(p), email)
            == first_named(patterns, email),
        first_named(patterns, email) is None ==> first_named(patterns.push(p), email)
            == if p.key == email {
            Some(p)
        } else {
            None
        },
    decreases patterns.len(),
{
    let all = patterns.push(p);
    if patterns.len() == 0 {
        assert(all.subrange(1, 1) =~= Seq::<PatternView>::empty());
    } else {
        let rest = patterns.subrange(1, patterns.len() as int);
        assert(all.subrange(1, all.len() as int) =~= rest.push(p));
        lemma_named_last(rest, p, email);
    }
}

/// A name that no pattern has is not found.
proof fn lemma_no_name(patterns: Seq<PatternView>, email: Seq<char>)
    requires
        forall|k: int| 0 <= k < patterns.len() ==> (#[trigger] patterns[k]).key != email,
    ensures
        first_named(patterns, email) is None,
    decreases patterns.len(),
{
    if patterns.len() > 0 {
        let rest = patterns.subrange(1, patterns.len() as int);
        assert forall|k: int| 0 <= k < rest.len() implies (#[trigger] rest[k]).key != email by {
            assert(rest[k] == patterns[k + 1]);
        }
        lemma_no_name(rest, email);
        assert(patterns[0].key != email);
    }
}

/// What a listing says of an email is told again by its entries, also where the
/// email looks like a pattern.
proof fn lemma_answered(s: Seq<RouteView>, i: int)
    requires
        are_restorable(s),
        0 <= i < s.len(),
    ensures
        ({
            let e = saved_entries(s);
            if is_pattern(s[i].email) {
                &&& !exact_routes(e).contains_key(s[i].email)
                &&& first_named(pattern_routes(e), s[i].email) is Some
                &&& pattern_route(first_named(pattern_routes(e), s[i].email)->0, s[i].email)
                    == s[i]
            } else {
                exact_routes(e).contains_key(s[i].email) && exact_routes(e)[s[i].email] == s[i]
            }
        }),
    decreases s.len(),
{
    let e = saved_entries(s);
    let email = s[i].email;
    let last = s.len() - 1;
    let front = s.drop_last();
    let f = saved_entries(front);
    assert(e.drop_last() =~= f);
    assert(e.last() == (s[last].email, saved_value(s[last])));
    assert(is_restorable(s[last]));
    if i < last {
        assert(ascending(front)) by {
            assert forall|a: int, b: int| 0 <= a < b < front.len() implies crate::text::before(
                (#[trigger] front[a]).email,
                (#[trigger] front[b]).email,
            ) by {
                assert(front[a] == s[a] && front[b] == s[b]);
            }
        }
        assert forall|a: int| 0 <= a < front.len() implies is_restorable(#[trigger] front[a]) by {
            assert(front[a] == s[a]);
        }
        assert(front[i] == s[i]);
        lemma_answered(front, i);
        if s[last].email == email {
            lemma_email_once(s, i, last);
        }
        if is_pattern(email) && is_pattern(s[last].email) {
            let p = pattern_routes(e).last();
            assert(pattern_routes(e) =~= pattern_routes(f).push(p));
            lemma_named_last(pattern_routes(f), p, email);
        }
    } else {
        assert forall|a: int| 0 <= a < f.len() implies (#[trigger] f[a]).0 != email by {
            assert(f[a].0 == s[a].email);
            if s[a].email == email {
                lemma_email_once(s, a, last);
            }
        }
        if is_pattern(email) {
            if exact_routes(e).contains_key(email) {
                lemma_exact_keys(e, email);
            }
            let p = pattern_routes(e).last();
            assert(pattern_routes(e) =~= pattern_routes(f).push(p));
            assert forall|k: int| 0 <= k < pattern_routes(f).len() implies (
            #[trigger] pattern_routes(f)[k]).key != email by {
                lemma_pattern_keys(f, k);
            }
            lemma_no_name(pattern_routes(f), email);
            lemma_named_last(pattern_routes(f), p, email);
        }
    }
}

/// What is loaded from a saved listing leads every email where the listing says.
proof fn lemma_answers_as(s: Seq<RouteView>)
    requires
        are_restorable(s),
    ensures
        answers_as(exact_routes(saved_entries(s)), pattern_routes(saved_entries(s)), s),
{
    assert forall|i: int| 0 <= i < s.len() implies resolve(
        exact_routes(saved_entries(s)),
        pattern_routes(saved_entries(s)),
        (#[trigger] s[i]).email,
    ) == Some(s[i]) by {
        lemma_answered(s, i);
    }
}

// ── Laws ───────────────────────────────────────────────────────────

/// An exact route wins over every pattern.
pub proof fn exact_route_wins(
    routes: Map<Seq<char>, RouteView>,
    patterns: Seq<PatternView>,
    email: Seq<char>,
)
    requires
        routes.contains_key(email),
    ensures
        resolve(routes, patterns, email) == Some(routes[email]),
{
}

/// A pattern that is named as the email is an exact match, whatever it or the
/// other patterns match.
pub proof fn named_pattern_wins(
    routes: Map<Seq<char>, RouteView>,
    patterns: Seq<PatternView>,
    email: Seq<char>,
    i: int,
)
    requires
        !routes.contains_key(email),
        0 <= i < patterns.len(),
        patterns[i].key == email,
        forall|k: int| 0 <= k < i ==> (#[trigger] patterns[k]).key != email,
    ensures
        resolve(routes, patterns, email) == Some(pattern_route(patterns[i], email)),
{
    lemma_first_named(patterns, email, i);
}

/// The first pattern of a name is found under it.
proof fn lemma_first_named(patterns: Seq<PatternView>, email: Seq<char>, i: int)
    requires
        0 <= i < patterns.len(),
        patterns[i].key == email,
        forall|k: int| 0 <= k < i ==> (#[trigger] patterns[k]).key != email,
    ensures
        first_named(patterns, email) == Some(patterns[i]),
    decreases i,
{
    if i > 0 {
        let rest = patterns.subrange(1, patterns.len() as int);
        assert(patterns[0].key != email);
        assert forall|k: int| 0 <= k < i - 1 implies (#[trigger] rest[k]).key != email by {
            assert(rest[k] == patterns[k + 1]);
        }
        lemma_first_named(rest, email, i - 1);
    }
}

/// A lookup changes no answer: keeping what it found gives every email, the
/// one that was looked up too, the route that it had before.
pub proof fn lookup_changes_no_answer(
    routes: Map<Seq<char>, RouteView>,
    patterns: Seq<PatternView>,
    email: Seq<char>,
    other: Seq<char>,
)
    requires
        resolve(routes, patterns, email) is Some,
    ensures
        resolve(
            routes.insert(email, resolve(routes, patterns, email)->0),
            patterns,
            other,
        ) == resolve(routes, patterns, other),
{
}

/// A registered route is the one that is found, and no other email is touched.
pub proof fn registered_route_is_found(
    routes: Map<Seq<char>, RouteView>,
    patterns: Seq<PatternView>,
    email: Seq<char>,
    host_or_url: Seq<char>,
    port: u16,
    other: Seq<char>,
)
    ensures
        ({
            let after = routes.insert(email, registered_route(email, host_or_url, port));
            &&& resolve(after, patterns, email) == Some(registered_route(email, host_or_url, port))
            &&& other != email ==> resolve(after, patterns, other) == resolve(
                routes,
                patterns,
                other,
            )
        }),
{
}

/// A removed email is left to the patterns, and no other email is touched.
pub proof fn removed_route_is_gone(
    routes: Map<Seq<char>, RouteView>,
    patterns: Seq<PatternView>,
    email: Seq<char>,
    other: Seq<char>,
)
    ensures
        resolve(routes.remove(email), patterns, email) == resolve(Map::empty(), patterns, email),
        other != email ==> resolve(routes.remove(email), patterns, other) == resolve(
            routes,
            patterns,
            other,
        ),
{
}

/// Removing a route that was just registered for a new email undoes the registration.
pub proof fn removal_undoes_registration(
    routes: Map<Seq<char>, RouteView>,
    email: Seq<char>,
    host_or_url: Seq<char>,
    port: u16,
)
    requires
        !routes.contains_key(email),
    ensures
        routes.insert(email, registered_route(email, host_or_url, port)).remove(email) == routes,
{
    assert(routes.insert(email, registered_route(email, host_or_url, port)).remove(email)
        =~= routes);
}

/// The scheme of a URL and what follows it make up the URL again.
proof fn lemma_scheme(url: Seq<char>)
    requires
        crate::text::has_prefix(url, "http://"@) || crate::text::has_prefix(url, "https://"@),
    ensures
        url_scheme(url) + "://"@ + url_rest(url) == url,
{
    reveal_strlit("http://");
    reveal_strlit("https://");
    reveal_strlit("http");
    reveal_strlit("https");
    reveal_strlit("://");
    if crate::text::has_prefix(url, "https://"@) {
        assert(url.subrange(0, 8)[4] == 's');
        assert(crate::text::has_prefix(url, "http://"@) ==> url.subrange(0, 7)[4] == ':');
        assert("https"@ + "://"@ =~= "https://"@);
        assert(url =~= url.subrange(0, 8) + url.subrange(8, url.len() as int));
    } else {
        assert("http"@ + "://"@ =~= "http://"@);
        assert(url =~= url.subrange(0, 7) + url.subrange(7, url.len() as int));
    }
}

/// A URL that is put together from a scheme and the rest is taken apart the same way.
proof fn lemma_scheme_back(url: Seq<char>)
    ensures
        ({
            let whole = url_scheme(url) + "://"@ + url_rest(url);
            &&& url_scheme(whole) == url_scheme(url)
            &&& url_rest(whole) == url_rest(url)
            &&& whole[0] == 'h'
            &&& whole.contains('/')
            &&& url_rest(url).len() == 0 ==> whole.last() == '/'
            &&& url_rest(url).len() > 0 ==> whole.last() == url_rest(url).last()
        }),
{
    reveal_strlit("http://");
    reveal_strlit("https://");
    reveal_strlit("http");
    reveal_strlit("https");
    reveal_strlit("://");
    let rest = url_rest(url);
    let whole = url_scheme(url) + "://"@ + rest;
    let n = whole.len() as int;
    if crate::text::has_prefix(url, "https://"@) {
        assert(whole.subrange(0, 8) =~= "https://"@);
        assert(crate::text::has_prefix(whole, "http://"@) ==> whole.subrange(0, 7)[4] == ':');
        assert(whole[4] == 's');
        assert(whole.subrange(8, n) =~= rest);
        assert(whole[7] == '/');
    } else {
        assert(whole.subrange(0, 7) =~= "http://"@);
        assert(crate::text::has_prefix(whole, "https://"@) ==> whole.subrange(0, 8)[4] == 's');
        assert(whole[4] == ':');
        assert(whole.subrange(7, n) =~= rest);
        assert(whole[6] == '/');
    }
}

/// A route to a full URL delivers to that very URL, path and all.
pub proof fn full_url_is_kept(email: Seq<char>, url: Seq<char>)
    requires
        crate::text::has_prefix(crate::text::trimmed(url), "http://"@) || crate::text::has_prefix(
            crate::text::trimmed(url),
            "https://"@,
        ),
    ensures
        url_route(email, url).target_url == crate::text::trimmed(url),
{
    lemma_scheme(crate::text::trimmed(url));
}

/// What follows the scheme of a trimmed URL ends as the URL does.
proof fn lemma_rest_last(url: Seq<char>)
    requires
        url_rest(url).len() > 0,
    ensures
        url.len() > 0,
        url_rest(url).last() == url.last(),
{
    reveal_strlit("http://");
    reveal_strlit("https://");
}

/// A route to a full URL that is saved in full is read back as it was.
pub proof fn saved_url_is_read_back(email: Seq<char>, url: Seq<char>)
    requires
        saved_value(url_route(email, url)) == url_route(email, url).target_url,
    ensures
        entry_route(email, saved_value(url_route(email, url))) == Some(url_route(email, url)),
{
    let u = crate::text::trimmed(url);
    let r = url_route(email, url);
    lemma_scheme_back(u);
    crate::text::lemma_trimmed(url);
    if url_rest(u).len() > 0 {
        lemma_rest_last(u);
    }
    crate::text::lemma_already_trimmed(r.target_url);
}

/// A host that can stand before `:port` in the routes file: it has no slash,
/// does not begin with white space, and a bracket opens a bracketed address.
pub open spec fn is_savable_host(host: Seq<char>) -> bool {
    &&& !host.contains('/')
    &&& host.len() > 0 ==> !crate::text::is_white(host[0])
    &&& host.len() > 0 && host[0] == '[' ==> host.len() > 1 && host.last() == ']'
        && !crate::text::contains_text(host.subrange(1, host.len() - 1), "]:"@)
}

/// The default endpoint is saved as `host:port`.
proof fn lemma_saved_origin(email: Seq<char>, host: Seq<char>, port: u16)
    ensures
        saved_value(host_route(email, host, port)) == host + ":"@ + crate::text::decimal(
            port as nat,
        ),
{
}

/// `host:port` is taken apart at its last colon.
proof fn lemma_split_origin(host: Seq<char>, d: Seq<char>)
    requires
        crate::text::all_digits(d),
    ensures
        crate::text::split_last(host + ":"@ + d, ":"@) == Some((host, d)),
{
    reveal_strlit(":");
    assert(":"@ =~= seq![':']);
    let origin = host + ":"@ + d;
    let at = host.len() as int;
    crate::text::lemma_occurs_char(origin, ':', at);
    assert forall|j: int| at < j implies !#[trigger] crate::text::occurs_at(origin, ":"@, j) by {
        crate::text::lemma_occurs_char(origin, ':', j);
        if j < origin.len() {
            assert(origin[j] == d[j - at - 1]);
        }
    }
    crate::text::lemma_split_last(origin, ":"@, at);
    assert(origin.subrange(0, at) =~= host);
    assert(origin.subrange(at + 1, origin.len() as int) =~= d);
}

/// `inner]:port` is taken apart behind the bracket that closes the address.
proof fn lemma_split_bracketed(inner: Seq<char>, d: Seq<char>)
    requires
        !crate::text::contains_text(inner, "]:"@),
    ensures
        crate::text::split_first(inner + "]:"@ + d, "]:"@) == Some((inner, d)),
{
    reveal_strlit("]:");
    let rest = inner + "]:"@ + d;
    let at = inner.len() as int;
    assert(rest.subrange(at, at + 2) =~= "]:"@);
    assert forall|j: int| 0 <= j < at implies !#[trigger] crate::text::occurs_at(
        rest,
        "]:"@,
        j,
    ) by {
        if crate::text::occurs_at(rest, "]:"@, j) {
            assert(rest.subrange(j, j + 2)[0] == rest[j]);
            assert(rest.subrange(j, j + 2)[1] == rest[j + 1]);
            assert(inner.subrange(j, j + 2) =~= "]:"@);
            assert(crate::text::occurs_at(inner, "]:"@, j));
        }
    }
    crate::text::lemma_split_first(rest, "]:"@, at);
    assert(rest.subrange(0, at) =~= inner);
    assert(rest.subrange(at + 2, rest.len() as int) =~= d);
}

/// `host:port` neither begins nor ends with white space and has no slash.
proof fn lemma_origin_text(host: Seq<char>, d: Seq<char>)
    requires
        is_savable_host(host),
        d.len() > 0,
        crate::text::all_digits(d),
    ensures
        crate::text::trimmed(host + ":"@ + d) == host + ":"@ + d,
        !(host + ":"@ + d).contains('/'),
{
    reveal_strlit(":");
    let origin = host + ":"@ + d;
    assert(origin.last() == d.last());
    assert(crate::text::is_digit(d[d.len() - 1]));
    crate::text::lemma_already_trimmed(origin);
    assert forall|i: int| 0 <= i < origin.len() implies origin[i] != '/' by {
        if i < host.len() {
            assert(host[i] == origin[i]);
        } else if i > host.len() {
            assert(crate::text::is_digit(d[i - host.len() - 1]));
        }
    }
}

/// A route to the default endpoint of a host is read back as it was.
pub proof fn saved_host_is_read_back(email: Seq<char>, host: Seq<char>, port: u16)
    requires
        is_savable_host(host),
    ensures
        entry_route(email, saved_value(host_route(email, host, port))) == Some(
            host_route(email, host, port),
        ),
{
    let d = crate::text::decimal(port as nat);
    let origin = host + ":"@ + d;
    lemma_saved_origin(email, host, port);
    crate::text::lemma_decimal(port as nat);
    crate::text::lemma_number_of_decimal(port as nat, 0xffff);
    lemma_origin_text(host, d);
    assert(address(origin) == Some((host, port))) by {
        reveal_strlit(":");
        reveal_strlit("[");
        reveal_strlit("]");
        reveal_strlit("]:");
        if host.len() > 0 && host[0] == '[' {
            let inner = host.subrange(1, host.len() - 1);
            assert(origin.subrange(0, 1) =~= "["@);
            assert(origin.subrange(1, origin.len() as int) =~= inner + "]:"@ + d);
            lemma_split_bracketed(inner, d);
            assert("["@ + inner + "]"@ =~= host);
        } else {
            assert(origin.subrange(0, 1)[0] == origin[0]);
            assert(!crate::text::has_prefix(origin, "["@)) by {
                assert("["@[0] == '[');
            }
            lemma_split_origin(host, d);
        }
    }
}

/// A route that its saved value tells: it is saved in full, or its host can
/// stand before `:port`.
pub open spec fn is_told_by_saved_value(r: RouteView) -> bool {
    r.target_url == default_target(r.host, r.port) ==> is_savable_host(r.host)
}

/// A registered route is read back from the routes file as it was, whatever the
/// path of its URL.
pub proof fn saved_registration_is_read_back(email: Seq<char>, host_or_url: Seq<char>, port: u16)
    requires
        is_told_by_saved_value(registered_route(email, host_or_url, port)),
    ensures
        entry_route(email, saved_value(registered_route(email, host_or_url, port))) == Some(
            registered_route(email, host_or_url, port),
        ),
{
    let r = registered_route(email, host_or_url, port);
    if r.target_url == default_target(r.host, r.port) {
        assert(r == host_route(email, r.host, r.port));
        saved_host_is_read_back(email, r.host, r.port);
    } else {
        saved_url_is_read_back(email, host_or_url);
    }
}

/// An IPv6 address without brackets is registered whole, with the port beside
/// it, whatever stands behind its last colon.
pub proof fn bare_ipv6_host_is_kept(email: Seq<char>, host: Seq<char>, port: u16, i: int, j: int)
    requires
        !host.contains('/'),
        0 <= i < j < host.len(),
        host[i] == ':',
        host[j] == ':',
        !host.contains(']'),
    ensures
        registered_route(email, host, port) == host_route(email, host, port),
{
    reveal_strlit(":");
    reveal_strlit("]");
    assert(":"@ =~= seq![':']);
    crate::text::lemma_occurs_char(host, ':', j);
    crate::text::lemma_stands_last(host, ":"@, j);
    let k = choose|k: int| j <= k && #[trigger] crate::text::last_at(host, ":"@, k);
    crate::text::lemma_split_last(host, ":"@, k);
    let h = host.subrange(0, k);
    assert(h[i] == ':');
    if crate::text::has_suffix(h, "]"@) {
        assert(h.subrange(h.len() - 1, h.len() as int)[0] == ']');
        assert(host[k - 1] == ']');
    }
}

/// A route to a full URL with a path of its own is saved as that very URL.
pub proof fn custom_path_is_saved_in_full(email: Seq<char>, url: Seq<char>)
    requires
        crate::text::has_prefix(crate::text::trimmed(url), "http://"@) || crate::text::has_prefix(
            crate::text::trimmed(url),
            "https://"@,
        ),
        crate::text::trimmed(url) != default_target(
            url_route(email, url).host,
            url_route(email, url).port,
        ),
    ensures
        saved_value(url_route(email, url)) == crate::text::trimmed(url),
{
    full_url_is_kept(email, url);
}

/// Where neither a route nor a pattern is named as the email, the first pattern
/// of the file whose expression matches the email serves it, with its own
/// endpoint; only where none matches there is no route.
pub proof fn first_matching_pattern_serves(
    routes: Map<Seq<char>, RouteView>,
    patterns: Seq<PatternView>,
    email: Seq<char>,
    i: int,
)
    requires
        !routes.contains_key(email),
        forall|k: int| 0 <= k < patterns.len() ==> (#[trigger] patterns[k]).key != email,
        0 <= i < patterns.len(),
        patterns[i].language.contains(email),
        forall|k: int| 0 <= k < i ==> !(#[trigger] patterns[k]).language.contains(email),
    ensures
        resolve(routes, patterns, email) == Some(
            RouteView {
                email,
                host: patterns[i].host,
                port: patterns[i].port,
                target_url: patterns[i].target_url,
            },
        ),
{
    lemma_none_named(patterns, email);
    lemma_first_match(patterns, email, i);
}

/// There is no route exactly when the table has none, no pattern is named as the
/// email and none matches it.
pub proof fn no_route_means_no_match(
    routes: Map<Seq<char>, RouteView>,
    patterns: Seq<PatternView>,
    email: Seq<char>,
)
    ensures
        resolve(routes, patterns, email) is None <==> !routes.contains_key(email) && forall|k: int|
            0 <= k < patterns.len() ==> (#[trigger] patterns[k]).key != email
                && !patterns[k].language.contains(email),
{
    if forall|k: int| 0 <= k < patterns.len() ==> (#[trigger] patterns[k]).key != email {
        lemma_none_named(patterns, email);
        if exists|k: int| 0 <= k < patterns.len() && (#[trigger] patterns[k]).language.contains(email) {
            let k = choose|k: int|
                0 <= k < patterns.len() && (#[trigger] patterns[k]).language.contains(email);
            lemma_some_match(patterns, email, k);
        } else {
            lemma_none_match(patterns, email);
        }
    } else {
        let k = choose|k: int| 0 <= k < patterns.len() && (#[trigger] patterns[k]).key == email;
        lemma_some_named(patterns, email, k);
    }
}

/// Every answer comes from the table or from a pattern that is named as the
/// email or matches it, and is for that email.
pub proof fn answers_come_from_the_table_or_a_pattern(
    routes: Map<Seq<char>, RouteView>,
    patterns: Seq<PatternView>,
    email: Seq<char>,
)
    requires
        !routes.contains_key(email),
        resolve(routes, patterns, email) is Some,
    ensures
        exists|k: int|
            0 <= k < patterns.len() && ((#[trigger] patterns[k]).key == email
                || patterns[k].language.contains(email)) && resolve(routes, patterns, email)
                == Some(
                RouteView {
                    email,
                    host: patterns[k].host,
                    port: patterns[k].port,
                    target_url: patterns[k].target_url,
                },
            ),
{
    lemma_named_stands(patterns, email);
    lemma_match_stands(patterns, email);
}

proof fn lemma_none_named(patterns: Seq<PatternView>, email: Seq<char>)
    requires
        forall|k: int| 0 <= k < patterns.len() ==> (#[trigger] patterns[k]).key != email,
    ensures
        first_named(patterns, email) is None,
    decreases patterns.len(),
{
    if patterns.len() > 0 {
        let rest = patterns.subrange(1, patterns.len() as int);
        assert(patterns[0].key != email);
        assert forall|k: int| 0 <= k < rest.len() implies (#[trigger] rest[k]).key != email by {
            assert(rest[k] == patterns[k + 1]);
        }
        lemma_none_named(rest, email);
    }
}

proof fn lemma_some_named(patterns: Seq<PatternView>, email: Seq<char>, i: int)
    requires
        0 <= i < patterns.len(),
        patterns[i].key == email,
    ensures
        first_named(patterns, email) is Some,
    decreases patterns.len(),
{
    if patterns[0].key != email {
        lemma_some_named(patterns.subrange(1, patterns.len() as int), email, i - 1);
    }
}

proof fn lemma_named_stands(patterns: Seq<PatternView>, email: Seq<char>)
    ensures
        first_named(patterns, email) is Some ==> exists|k: int|
            0 <= k < patterns.len() && (#[trigger] patterns[k]).key == email && first_named(
                patterns,
                email,
            ) == Some(patterns[k]),
    decreases patterns.len(),
{
    if patterns.len() > 0 {
        if patterns[0].key != email {
            let rest = patterns.subrange(1, patterns.len() as int);
            lemma_named_stands(rest, email);
            if first_named(rest, email) is Some {
                let k = choose|k: int|
                    0 <= k < rest.len() && (#[trigger] rest[k]).key == email && first_named(
                        rest,
                        email,
                    ) == Some(rest[k]);
                assert(patterns[k + 1] == rest[k]);
            }
        }
    }
}

proof fn lemma_first_match(patterns: Seq<PatternView>, email: Seq<char>, i: int)
    requires
        0 <= i < patterns.len(),
        patterns[i].language.contains(email),
        forall|k: int| 0 <= k < i ==> !(#[trigger] patterns[k]).language.contains(email),
    ensures
        first_match(patterns, email) == Some(patterns[i]),
    decreases i,
{
    if i > 0 {
        let rest = patterns.subrange(1, patterns.len() as int);
        assert(!patterns[0].language.contains(email));
        assert forall|k: int| 0 <= k < i - 1 implies !(#[trigger] rest[k]).language.contains(
            email,
        ) by {
            assert(rest[k] == patterns[k + 1]);
        }
        lemma_first_match(rest, email, i - 1);
    }
}

proof fn lemma_none_match(patterns: Seq<PatternView>, email: Seq<char>)
    requires
        forall|k: int|
            0 <= k < patterns.len() ==> !(#[trigger] patterns[k]).language.contains(email),
    ensures
        first_match(patterns, email) is None,
    decreases patterns.len(),
{
    if patterns.len() > 0 {
        let rest = patterns.subrange(1, patterns.len() as int);
        assert(!patterns[0].language.contains(email));
        assert forall|k: int| 0 <= k < rest.len() implies !(#[trigger] rest[k]).language.contains(
            email,
        ) by {
            assert(rest[k] == patterns[k + 1]);
        }
        lemma_none_match(rest, email);
    }
}

proof fn lemma_some_match(patterns: Seq<PatternView>, email: Seq<char>, i: int)
    requires
        0 <= i < patterns.len(),
        patterns[i].language.contains(email),
    ensures
        first_match(patterns, email) is Some,
    decreases patterns.len(),
{
    if !patterns[0].language.contains(email) {
        lemma_some_match(patterns.subrange(1, patterns.len() as int), email, i - 1);
    }
}

proof fn lemma_match_stands(patterns: Seq<PatternView>, email: Seq<char>)
    ensures
        first_match(patterns, email) is Some ==> exists|k: int|
            0 <= k < patterns.len() && (#[trigger] patterns[k]).language.contains(email)
                && first_match(patterns, email) == Some(patterns[k]),
    decreases patterns.len(),
{
    if patterns.len() > 0 {
        if !patterns[0].language.contains(email) {
            let rest = patterns.subrange(1, patterns.len() as int);
            lemma_match_stands(rest, email);
            if first_match(rest, email) is Some {
                let k = choose|k: int|
                    0 <= k < rest.len() && (#[trigger] rest[k]).language.contains(email)
                        && first_match(rest, email) == Some(rest[k]);
                assert(patterns[k + 1] == rest[k]);
            }
        }
    }
}

/// A key is a pattern exactly when one of the characters that regular
/// expressions give a meaning, but the point, stands in it.
pub proof fn patterns_are_told_by_their_characters(key: Seq<char>)
    ensures
        is_pattern(key) <==> key.contains('*') || key.contains('+') || key.contains('?')
            || key.contains('[') || key.contains(']') || key.contains('(') || key.contains(')')
            || key.contains('^') || key.contains('$') || key.contains('|') || key.contains('\\'),
{
    if is_pattern(key) {
        let i = choose|i: int| 0 <= i < key.len() && is_meta(#[trigger] key[i]);
        assert(key.contains(key[i]));
    }
    if key.contains('*') {
        let i = choose|i: int| 0 <= i < key.len() && key[i] == '*';
        assert(is_meta(key[i]));
    }
    if key.contains('+') {
        let i = choose|i: int| 0 <= i < key.len() && key[i] == '+';
        assert(is_meta(key[i]));
    }
    if key.contains('?') {
        let i = choose|i: int| 0 <= i < key.len() && key[i] == '?';
        assert(is_meta(key[i]));
    }
    if key.contains('[') {
        let i = choose|i: int| 0 <= i < key.len() && key[i] == '[';
        assert(is_meta(key[i]));
    }
    if key.contains(']') {
        let i = choose|i: int| 0 <= i < key.len() && key[i] == ']';
        assert(is_meta(key[i]));
    }
    if key.contains('(') {
        let i = choose|i: int| 0 <= i < key.len() && key[i] == '(';
        assert(is_meta(key[i]));
    }
    if key.contains(')') {
        let i = choose|i: int| 0 <= i < key.len() && key[i] == ')';
        assert(is_meta(key[i]));
    }
    if key.contains('^') {
        let i = choose|i: int| 0 <= i < key.len() && key[i] == '^';
        assert(is_meta(key[i]));
    }
    if key.contains('$') {
        let i = choose|i: int| 0 <= i < key.len() && key[i] == '$';
        assert(is_meta(key[i]));
    }
    if key.contains('|') {
        let i = choose|i: int| 0 <= i < key.len() && key[i] == '|';
        assert(is_meta(key[i]));
    }
    if key.contains('\\') {
        let i = choose|i: int| 0 <= i < key.len() && key[i] == '\\';
        assert(is_meta(key[i]));
    }
}

/// The entries of a file are taken one after the other: those of a later part
/// win over those of an earlier one, and its patterns come behind.
pub proof fn later_entries_win(a: Seq<EntryView>, b: Seq<EntryView>)
    ensures
        exact_routes(a + b) == exact_routes(a).union_prefer_right(exact_routes(b)),
        pattern_routes(a + b) == pattern_routes(a) + pattern_routes(b),
    decreases b.len(),
{
    if b.len() == 0 {
        assert(a + b =~= a);
        assert(exact_routes(a).union_prefer_right(exact_routes(b)) =~= exact_routes(a));
        assert(pattern_routes(a) + pattern_routes(b) =~= pattern_routes(a));
    } else {
        let front = b.drop_last();
        later_entries_win(a, front);
        assert((a + b).drop_last() =~= a + front);
        assert((a + b).last() == b.last());
        assert(exact_routes(a + b) =~= exact_routes(a).union_prefer_right(exact_routes(b)));
        assert(pattern_routes(a + b) =~= pattern_routes(a) + pattern_routes(b));
    }
}

/// One entry of a file gives its email a route of its own or, if its key is a
/// pattern, a pattern with the same endpoint; one without a usable address gives
/// nothing.
pub proof fn one_entry_gives_one_route(key: Seq<char>, value: Seq<char>)
    ensures
        ({
            let e = seq![(key, value)];
            match entry_route(key, value) {
                Some(r) => if is_pattern(key) {
                    exact_routes(e) == Map::<Seq<char>, RouteView>::empty() && pattern_routes(e)
                        == match pattern_language(key) {
                        Some(language) => seq![
                            PatternView {
                                language,
                                key,
                                host: r.host,
                                port: r.port,
                                target_url: r.target_url,
                            },
                        ],
                        None => Seq::empty(),
                    }
                } else {
                    exact_routes(e) == Map::<Seq<char>, RouteView>::empty().insert(key, r)
                        && pattern_routes(e) == Seq::<PatternView>::empty()
                },
                None => exact_routes(e) == Map::<Seq<char>, RouteView>::empty() && pattern_routes(
                    e,
                ) == Seq::<PatternView>::empty(),
            }
        }),
{
    let e = seq![(key, value)];
    assert(e.drop_last() =~= Seq::<EntryView>::empty());
    assert(exact_routes(e.drop_last()) == Map::<Seq<char>, RouteView>::empty());
    assert(pattern_routes(e.drop_last()) == Seq::<PatternView>::empty());
    if let (Some(r), Some(language)) = (entry_route(key, value), pattern_language(key)) {
        let p = PatternView { language, key, host: r.host, port: r.port, target_url: r.target_url };
        assert(Seq::<PatternView>::empty().push(p) =~= seq![p]);
    }
}

/// A URL is a scheme, an authority up to the first slash and a path.
pub proof fn lemma_url_parts(scheme: Seq<char>, authority: Seq<char>, path: Seq<char>)
    requires
        scheme == "http://"@ || scheme == "https://"@,
        !authority.contains('/'),
        path.len() > 0 ==> path[0] == '/',
    ensures
        ({
            let url = scheme + authority + path;
            &&& url_rest(url) == authority + path
            &&& url_authority(authority + path) == authority
            &&& crate::text::has_prefix(url, "https://"@) <==> scheme == "https://"@
            &&& url_scheme(url) + "://"@ + url_rest(url) == url
        }),
{
    reveal_strlit("http://");
    reveal_strlit("https://");
    reveal_strlit("/");
    let url = scheme + authority + path;
    assert(url =~= scheme + (authority + path));
    crate::text::ends_are_told(authority + path, scheme);
    assert("http://"@[4] == ':' && "https://"@[4] == 's');
    assert(url[4] == scheme[4]);
    assert(crate::text::has_prefix(url, "http://"@) ==> url.subrange(0, 7)[4] == ':');
    assert(crate::text::has_prefix(url, "https://"@) ==> url.subrange(0, 8)[4] == 's');
    lemma_scheme(url);
    assert("/"@ =~= seq!['/']);
    if path.len() > 0 {
        let rest = path.subrange(1, path.len() as int);
        assert(authority + path =~= authority + seq!['/'] + rest);
        crate::text::split_at_a_character(authority, '/', rest);
    } else {
        assert(authority + path =~= authority);
        crate::text::split_at_no_character(authority, '/');
    }
}

/// Nothing is trimmed off a URL that does not end with white space.
proof fn lemma_authority(scheme: Seq<char>, authority: Seq<char>, path: Seq<char>)
    requires
        scheme == "http://"@ || scheme == "https://"@,
        !authority.contains('/'),
        authority.len() > 0,
        !crate::text::is_white(authority.last()),
        path.len() > 0 ==> path[0] == '/' && !crate::text::is_white(path.last()),
    ensures
        ({
            let url = scheme + authority + path;
            &&& crate::text::trimmed(url) == url
            &&& url_rest(url) == authority + path
            &&& url_authority(authority + path) == authority
            &&& url_scheme(url) + "://"@ + url_rest(url) == url
        }),
{
    reveal_strlit("http://");
    reveal_strlit("https://");
    let url = scheme + authority + path;
    assert(url[0] == 'h');
    if path.len() > 0 {
        assert(url.last() == path.last());
    } else {
        assert(url.last() == authority.last());
    }
    crate::text::lemma_already_trimmed(url);
    lemma_url_parts(scheme, authority, path);
}

/// A bracketed authority is taken apart behind its opening bracket.
pub proof fn lemma_bracketed_authority(inner: Seq<char>, d: Seq<char>)
    requires
        !inner.contains('/'),
        !inner.contains(']'),
        !d.contains('/'),
    ensures
        ({
            let with = "["@ + inner + "]:"@ + d;
            let bare = "["@ + inner + "]"@;
            &&& !with.contains('/')
            &&& !bare.contains('/')
            &&& crate::text::after_prefix(with, "["@) == Some(inner + "]:"@ + d)
            &&& crate::text::after_prefix(bare, "["@) == Some(inner + "]"@)
            &&& crate::text::split_first(inner + "]:"@ + d, "]:"@) == Some((inner, d))
            &&& crate::text::split_first(inner + "]"@, "]:"@) is None
            &&& crate::text::without_trailing(inner + "]"@, ']') == inner
        }),
{
    reveal_strlit("[");
    reveal_strlit("]");
    reveal_strlit("]:");
    let with = "["@ + inner + "]:"@ + d;
    let bare = "["@ + inner + "]"@;
    assert forall|i: int| 0 <= i < with.len() implies with[i] != '/' by {
        if 1 <= i < 1 + inner.len() {
            assert(with[i] == inner[i - 1]);
        } else if i >= inner.len() + 3 {
            assert(with[i] == d[i - inner.len() - 3]);
        }
    }
    assert forall|i: int| 0 <= i < bare.len() implies bare[i] != '/' by {
        if 1 <= i < 1 + inner.len() {
            assert(bare[i] == inner[i - 1]);
        }
    }
    assert(with =~= "["@ + (inner + "]:"@ + d));
    crate::text::ends_are_told(inner + "]:"@ + d, "["@);
    assert(bare =~= "["@ + (inner + "]"@));
    crate::text::ends_are_told(inner + "]"@, "["@);
    lemma_no_bracket(inner);
    lemma_split_bracketed(inner, d);
    let b = inner + "]"@;
    if crate::text::contains_text(b, "]:"@) {
        let k = choose|k: int| #[trigger] crate::text::occurs_at(b, "]:"@, k);
        assert(b.subrange(k, k + 2)[0] == b[k]);
        assert("]:"@[0] == ']');
        assert(b[k] == inner[k]);
    }
    assert("]"@ =~= Seq::new(1, |i: int| ']'));
    if inner.len() > 0 {
        assert(inner[inner.len() - 1] != ']');
    }
    crate::text::rows_at_the_ends_go(1, ']', inner);
}

/// The digits of a port are neither colons nor slashes nor white space.
pub proof fn lemma_port_text(port: u16)
    ensures
        ({
            let d = crate::text::decimal(port as nat);
            &&& d.len() > 0
            &&& !d.contains(':')
            &&& !d.contains('/')
            &&& !d.contains('[')
            &&& !d.contains(']')
            &&& !crate::text::is_white(d.last())
            &&& !crate::text::is_white(d[0])
            &&& crate::text::number(d, 0xffff) == Some(port as nat)
        }),
{
    let d = crate::text::decimal(port as nat);
    crate::text::lemma_decimal(port as nat);
    crate::text::lemma_number_of_decimal(port as nat, 0xffff);
    crate::text::spelling_is_short(port as nat);
    assert('0' <= d[0] <= '9');
    assert('0' <= d[d.len() - 1] <= '9');
}

/// A URL leads to the host and the port that it spells, and deliveries go to the
/// URL as it is, whatever its path. Without a port the port is 80.
pub proof fn url_leads_where_it_says(
    email: Seq<char>,
    scheme: Seq<char>,
    host: Seq<char>,
    port: u16,
    path: Seq<char>,
)
    requires
        scheme == "http://"@ || scheme == "https://"@,
        host.len() > 0,
        !host.contains('/'),
        host[0] != '[',
        !crate::text::is_white(host.last()),
        path.len() > 0 ==> path[0] == '/' && !crate::text::is_white(path.last()),
    ensures
        url_route(email, scheme + (host + ":"@ + crate::text::decimal(port as nat)) + path) == (
        RouteView {
            email,
            host,
            port,
            target_url: scheme + (host + ":"@ + crate::text::decimal(port as nat)) + path,
        }),
        !host.contains(':') ==> url_route(email, scheme + host + path) == (RouteView {
            email,
            host,
            port: 80,
            target_url: scheme + host + path,
        }),
{
    reveal_strlit(":");
    reveal_strlit("[");
    assert(":"@ =~= seq![':']);
    let d = crate::text::decimal(port as nat);
    lemma_port_text(port);
    let authority = host + ":"@ + d;
    assert(authority.last() == d.last());
    assert forall|i: int| 0 <= i < authority.len() implies authority[i] != '/' by {
        if i < host.len() {
            assert(authority[i] == host[i]);
        } else if i > host.len() {
            assert(authority[i] == d[i - host.len() - 1]);
        }
    }
    lemma_authority(scheme, authority, path);
    lemma_authority(scheme, host, path);
    assert(!crate::text::has_prefix(host, "["@)) by {
        assert(host.subrange(0, 1)[0] == host[0]);
        assert("["@[0] == '[');
    }
    assert(!crate::text::has_prefix(authority, "["@)) by {
        assert(authority.subrange(0, 1)[0] == host[0]);
        assert("["@[0] == '[');
    }
    crate::text::split_at_a_character(host, ':', d);
    crate::text::split_at_no_character(host, ':');
}

/// A URL of a bracketed address leads to that address, brackets and all, and to
/// the port behind them or else to port 80.
pub proof fn bracketed_url_leads_where_it_says(
    email: Seq<char>,
    scheme: Seq<char>,
    inner: Seq<char>,
    port: u16,
    path: Seq<char>,
)
    requires
        scheme == "http://"@ || scheme == "https://"@,
        !inner.contains('/'),
        !inner.contains(']'),
        path.len() > 0 ==> path[0] == '/' && !crate::text::is_white(path.last()),
    ensures
        url_route(
            email,
            scheme + ("["@ + inner + "]:"@ + crate::text::decimal(port as nat)) + path,
        ) == (RouteView {
            email,
            host: "["@ + inner + "]"@,
            port,
            target_url: scheme + ("["@ + inner + "]:"@ + crate::text::decimal(port as nat)) + path,
        }),
        url_route(email, scheme + ("["@ + inner + "]"@) + path) == (RouteView {
            email,
            host: "["@ + inner + "]"@,
            port: 80,
            target_url: scheme + ("["@ + inner + "]"@) + path,
        }),
{
    reveal_strlit("]");
    let d = crate::text::decimal(port as nat);
    lemma_port_text(port);
    lemma_bracketed_authority(inner, d);
    let with = "["@ + inner + "]:"@ + d;
    let bare = "["@ + inner + "]"@;
    assert(with.last() == d.last());
    assert(bare.last() == ']');
    lemma_authority(scheme, with, path);
    lemma_authority(scheme, bare, path);
}

/// An entry `host:port` leads to the default endpoint of that host and port.
pub proof fn host_and_port_entry_leads_there(key: Seq<char>, host: Seq<char>, port: u16)
    requires
        !host.contains('/'),
        host.len() > 0 ==> host[0] != '[' && !crate::text::is_white(host[0]),
    ensures
        entry_route(key, host + ":"@ + crate::text::decimal(port as nat)) == Some(
            RouteView {
                email: key,
                host,
                port,
                target_url: "http://"@ + host + ":"@ + crate::text::decimal(port as nat)
                    + "/webhooks/amail-inbound"@,
            },
        ),
        address(host + ":"@ + crate::text::decimal(port as nat)) == Some((host, port)),
{
    saved_host_is_read_back(key, host, port);
    let d = crate::text::decimal(port as nat);
    lemma_port_text(port);
    crate::text::lemma_decimal(port as nat);
    lemma_origin_text(host, d);
    assert(entry_route(key, host + ":"@ + d) == Some(host_route(key, host, port)));
}

/// An entry `[address]:port` leads to the default endpoint of that address; a
/// bracket without a port behind it leads nowhere.
pub proof fn bracketed_entry_leads_there(key: Seq<char>, inner: Seq<char>, port: u16)
    requires
        !inner.contains('/'),
        !inner.contains(']'),
    ensures
        entry_route(key, "["@ + inner + "]:"@ + crate::text::decimal(port as nat)) == Some(
            RouteView {
                email: key,
                host: "["@ + inner + "]"@,
                port,
                target_url: "http://"@ + ("["@ + inner + "]"@) + ":"@ + crate::text::decimal(
                    port as nat,
                ) + "/webhooks/amail-inbound"@,
            },
        ),
        entry_route(key, "["@ + inner + "]"@) is None,
{
    lemma_bracketed_host(inner);
    saved_host_is_read_back(key, "["@ + inner + "]"@, port);
    lemma_bracketed_origin(inner, crate::text::decimal(port as nat));
    lemma_open_bracket(inner);
}

/// A bracketed address can stand before `:port`, and nothing is trimmed off it.
proof fn lemma_bracketed_host(inner: Seq<char>)
    requires
        !inner.contains('/'),
        !inner.contains(']'),
    ensures
        is_savable_host("["@ + inner + "]"@),
        crate::text::trimmed("["@ + inner + "]"@) == "["@ + inner + "]"@,
{
    reveal_strlit("[");
    reveal_strlit("]");
    let host = "["@ + inner + "]"@;
    assert forall|i: int| 0 <= i < host.len() implies host[i] != '/' by {
        if 1 <= i < 1 + inner.len() {
            assert(host[i] == inner[i - 1]);
        }
    }
    assert(host.subrange(1, host.len() - 1) =~= inner);
    lemma_no_bracket(inner);
    crate::text::lemma_already_trimmed(host);
}

/// `[address]` and `:port` make up `[address]:port`.
proof fn lemma_bracketed_origin(inner: Seq<char>, d: Seq<char>)
    ensures
        "["@ + inner + "]"@ + ":"@ + d == "["@ + inner + "]:"@ + d,
{
    reveal_strlit("]");
    reveal_strlit(":");
    reveal_strlit("]:");
    assert("["@ + inner + "]"@ + ":"@ + d =~= "["@ + inner + "]:"@ + d);
}

/// Where no bracket closes, none with a colon behind it does.
proof fn lemma_no_bracket(inner: Seq<char>)
    requires
        !inner.contains(']'),
    ensures
        !crate::text::contains_text(inner, "]:"@),
{
    reveal_strlit("]:");
    if crate::text::contains_text(inner, "]:"@) {
        let k = choose|k: int| #[trigger] crate::text::occurs_at(inner, "]:"@, k);
        assert(inner.subrange(k, k + 2)[0] == inner[k]);
        assert("]:"@[0] == ']');
    }
}

/// A bracketed address without a port is no address of an entry.
proof fn lemma_open_bracket(inner: Seq<char>)
    requires
        !inner.contains(']'),
    ensures
        ({
            let host = "["@ + inner + "]"@;
            crate::text::trimmed(host) == host ==> address(host) is None
        }),
{
    reveal_strlit("[");
    reveal_strlit("]");
    reveal_strlit("]:");
    let host = "["@ + inner + "]"@;
    let b = inner + "]"@;
    assert(host =~= "["@ + b);
    crate::text::ends_are_told(b, "["@);
    if crate::text::contains_text(b, "]:"@) {
        let k = choose|k: int| #[trigger] crate::text::occurs_at(b, "]:"@, k);
        assert(b.subrange(k, k + 2)[0] == b[k]);
        assert("]:"@[0] == ']');
        assert(b[k] == inner[k]);
    }
}

/// A bare port leads to this machine, and a bare host to port 8645; an empty
/// entry leads nowhere.
pub proof fn bare_entries_lead_there(key: Seq<char>, port: u16, host: Seq<char>, i: int)
    requires
        !host.contains('/'),
        !host.contains(':'),
        0 <= i < host.len(),
        !('0' <= host[i] <= '9') && host[i] != '+',
        host[0] != '[',
        !crate::text::is_white(host[0]),
        !crate::text::is_white(host.last()),
    ensures
        entry_route(key, crate::text::decimal(port as nat)) == Some(
            RouteView {
                email: key,
                host: "127.0.0.1"@,
                port,
                target_url: "http://"@ + "127.0.0.1"@ + ":"@ + crate::text::decimal(port as nat)
                    + "/webhooks/amail-inbound"@,
            },
        ),
        entry_route(key, host) == Some(
            RouteView {
                email: key,
                host,
                port: 8645,
                target_url: "http://"@ + host + ":"@ + crate::text::decimal(8645)
                    + "/webhooks/amail-inbound"@,
            },
        ),
        entry_route(key, Seq::empty()) is None,
{
    reveal_strlit(":");
    reveal_strlit("[");
    assert(":"@ =~= seq![':']);
    let d = crate::text::decimal(port as nat);
    lemma_port_text(port);
    crate::text::lemma_already_trimmed(d);
    crate::text::lemma_already_trimmed(host);
    crate::text::lemma_already_trimmed(Seq::empty());
    crate::text::split_at_no_character(d, ':');
    crate::text::split_at_no_character(host, ':');
    crate::text::other_texts_are_no_numbers(host, 0xffff, i);
    assert(!crate::text::has_prefix(host, "["@)) by {
        assert(host.subrange(0, 1)[0] == host[0]);
        assert("["@[0] == '[');
    }
    assert(!crate::text::has_prefix(d, "["@)) by {
        assert(d.subrange(0, 1)[0] == d[0]);
        assert("["@[0] == '[');
    }
}

/// An entry with a slash in it is a URL, and white space around an entry counts
/// for nothing.
pub proof fn entries_with_slashes_are_urls(key: Seq<char>, value: Seq<char>)
    ensures
        value.contains('/') && (!crate::text::is_white(value[0]) && !crate::text::is_white(
            value.last(),
        )) ==> entry_route(key, value) == Some(url_route(key, value)),
        entry_route(key, crate::text::trimmed(value)) == entry_route(key, value),
{
    crate::text::lemma_trimmed(value);
    crate::text::lemma_already_trimmed(crate::text::trimmed(value));
    if value.len() > 0 && !crate::text::is_white(value[0]) && !crate::text::is_white(value.last()) {
        crate::text::lemma_already_trimmed(value);
    }
}

/// A host is registered with the port beside it, or with the one behind it, at
/// its default endpoint; a text with a slash is registered as a URL.
pub proof fn registrations_lead_where_they_say(
    email: Seq<char>,
    host: Seq<char>,
    behind: u16,
    port: u16,
    url: Seq<char>,
)
    requires
        !host.contains('/'),
        !host.contains(':'),
        url.contains('/'),
    ensures
        registered_route(email, host, port) == (RouteView {
            email,
            host,
            port,
            target_url: "http://"@ + host + ":"@ + crate::text::decimal(port as nat)
                + "/webhooks/amail-inbound"@,
        }),
        registered_route(email, host + ":"@ + crate::text::decimal(behind as nat), port) == (
        RouteView {
            email,
            host,
            port: behind,
            target_url: "http://"@ + host + ":"@ + crate::text::decimal(behind as nat)
                + "/webhooks/amail-inbound"@,
        }),
        registered_route(email, url, port) == url_route(email, url),
{
    reveal_strlit(":");
    assert(":"@ =~= seq![':']);
    let d = crate::text::decimal(behind as nat);
    lemma_port_text(behind);
    crate::text::split_at_no_character(host, ':');
    crate::text::split_at_a_character(host, ':', d);
    let t = host + ":"@ + d;
    assert forall|i: int| 0 <= i < t.len() implies t[i] != '/' by {
        if i < host.len() {
            assert(t[i] == host[i]);
        } else if i > host.len() {
            assert(t[i] == d[i - host.len() - 1]);
        }
    }
}

/// The saved file is the two comment lines and then one line for each route, in
/// the order of the listing: the email and what it leads to, in quotes.
pub proof fn saved_file_has_a_line_for_each_route(s: Seq<RouteView>, r: RouteView)
    ensures
        file_text(Seq::empty())
            == "# Auto-generated by amail-bridge.\n# File changes take effect immediately.\n"@,
        file_text(s.push(r)) == file_text(s) + "\""@ + r.email + "\" = \""@ + saved_value(r)
            + "\"\n"@,
        r.target_url == "http://"@ + r.host + ":"@ + crate::text::decimal(r.port as nat)
            + "/webhooks/amail-inbound"@ ==> saved_value(r) == r.host + ":"@
            + crate::text::decimal(r.port as nat),
        r.target_url != "http://"@ + r.host + ":"@ + crate::text::decimal(r.port as nat)
            + "/webhooks/amail-inbound"@ ==> saved_value(r) == r.target_url,
{
    assert(saved_entries(Seq::<RouteView>::empty()) =~= Seq::<EntryView>::empty());
    let e = saved_entries(s.push(r));
    assert(e.drop_last() =~= saved_entries(s));
    assert(e.last() == (r.email, saved_value(r)));
    assert(file_text(s.push(r)) =~= file_text(s) + "\""@ + r.email + "\" = \""@ + saved_value(r)
        + "\"\n"@);
}

/// A text without a scheme that is taken as a URL leads to the host and the port
/// that it begins with, over HTTP.
pub proof fn url_without_scheme_is_http(
    email: Seq<char>,
    host: Seq<char>,
    port: u16,
    path: Seq<char>,
)
    requires
        host.len() > 0,
        !host.contains('/'),
        !host.contains(':'),
        host[0] != '[',
        !crate::text::is_white(host[0]),
        path.len() > 0,
        path[0] == '/',
        !crate::text::is_white(path.last()),
    ensures
        url_route(email, host + ":"@ + crate::text::decimal(port as nat) + path) == (RouteView {
            email,
            host,
            port,
            target_url: "http://"@ + (host + ":"@ + crate::text::decimal(port as nat) + path),
        }),
        url_route(email, host + path) == (RouteView {
            email,
            host,
            port: 80,
            target_url: "http://"@ + (host + path),
        }),
{
    reveal_strlit(":");
    assert(":"@ =~= seq![':']);
    let d = crate::text::decimal(port as nat);
    lemma_port_text(port);
    let authority = host + ":"@ + d;
    assert forall|i: int| 0 <= i < authority.len() implies authority[i] != '/' by {
        if i < host.len() {
            assert(authority[i] == host[i]);
        } else if i > host.len() {
            assert(authority[i] == d[i - host.len() - 1]);
        }
    }
    lemma_no_scheme(authority, path, host.len() as int);
    lemma_no_scheme(host, path, host.len() as int);
    crate::text::split_at_a_character(host, ':', d);
    crate::text::split_at_no_character(host, ':');
    lemma_no_open_bracket(host);
    lemma_no_open_bracket(authority);
}

/// A text that does not begin with a bracket has none there.
proof fn lemma_no_open_bracket(t: Seq<char>)
    requires
        t.len() > 0,
        t[0] != '[',
    ensures
        crate::text::after_prefix(t, "["@) is None,
{
    reveal_strlit("[");
    if crate::text::has_prefix(t, "["@) {
        assert(t.subrange(0, 1)[0] == t[0]);
        assert("["@[0] == '[');
    }
}

/// An authority without a slash behind its first colon has no scheme before it.
proof fn lemma_no_scheme(authority: Seq<char>, path: Seq<char>, colon: int)
    requires
        authority.len() > 0,
        !authority.contains('/'),
        !crate::text::is_white(authority[0]),
        path.len() > 0,
        path[0] == '/',
        !crate::text::is_white(path.last()),
        0 <= colon <= authority.len(),
        forall|i: int| 0 <= i < colon ==> authority[i] != ':',
        colon < authority.len() ==> colon + 1 < authority.len() && authority[colon] == ':',
    ensures
        ({
            let url = authority + path;
            &&& crate::text::trimmed(url) == url
            &&& url_rest(url) == url
            &&& url_scheme(url) == "http"@
            &&& url_authority(url) == authority
            &&& "http"@ + "://"@ + url == "http://"@ + url
        }),
{
    reveal_strlit("http://");
    reveal_strlit("https://");
    reveal_strlit("http");
    reveal_strlit("://");
    reveal_strlit("/");
    let url = authority + path;
    assert(url[0] == authority[0]);
    assert(url.last() == path.last());
    crate::text::lemma_already_trimmed(url);
    assert("/"@ =~= seq!['/']);
    let rest = path.subrange(1, path.len() as int);
    assert(url =~= authority + seq!['/'] + rest);
    crate::text::split_at_a_character(authority, '/', rest);
    assert("http"@ + "://"@ =~= "http://"@);
    assert("http"@ + "://"@ + url =~= "http://"@ + url);
    if crate::text::has_prefix(url, "http://"@) {
        assert forall|i: int| 0 <= i < 7 implies url[i] == "http://"@[i] by {
            assert(url.subrange(0, 7)[i] == url[i]);
        }
        lemma_scheme_slash(authority, path, colon, 4);
    }
    if crate::text::has_prefix(url, "https://"@) {
        assert forall|i: int| 0 <= i < 8 implies url[i] == "https://"@[i] by {
            assert(url.subrange(0, 8)[i] == url[i]);
        }
        lemma_scheme_slash(authority, path, colon, 5);
    }
}

/// Where the first colon stands in the authority no slash follows it, and where
/// it stands behind the authority a slash stands before it.
proof fn lemma_scheme_slash(authority: Seq<char>, path: Seq<char>, colon: int, at: int)
    requires
        !authority.contains('/'),
        path.len() > 0,
        path[0] == '/',
        0 <= colon <= authority.len(),
        forall|i: int| 0 <= i < colon ==> authority[i] != ':',
        colon < authority.len() ==> colon + 1 < authority.len() && authority[colon] == ':',
        0 <= at,
        at + 1 < authority.len() + path.len(),
        forall|i: int| 0 <= i < at ==> (authority + path)[i] != '/' && (authority + path)[i] != ':',
    ensures
        (authority + path)[at] == ':' ==> (authority + path)[at + 1] != '/',
{
    let url = authority + path;
    if url[at] != ':' {
    } else if at < authority.len() {
        assert(url[at] == authority[at]);
        if colon < at {
            assert(url[colon] == authority[colon]);
        }
        assert(colon == at);
        assert(url[at + 1] == authority[at + 1]);
        assert(authority.contains(authority[at + 1]));
    } else {
        assert(url[authority.len() as int] == path[0]);
        if at > authority.len() {
            assert(url[authority.len() as int] != '/');
        }
    }
}

/// A URL whose port cannot be read leads to port 80 of its host.
pub proof fn unreadable_port_is_eighty(
    email: Seq<char>,
    scheme: Seq<char>,
    host: Seq<char>,
    port: Seq<char>,
    path: Seq<char>,
)
    requires
        scheme == "http://"@ || scheme == "https://"@,
        host.len() > 0,
        !host.contains('/'),
        host[0] != '[',
        port.len() > 0,
        !port.contains('/'),
        !port.contains(':'),
        crate::text::number(port, 65535) is None,
        !crate::text::is_white(port.last()),
        path.len() > 0 ==> path[0] == '/' && !crate::text::is_white(path.last()),
    ensures
        url_route(email, scheme + (host + ":"@ + port) + path) == (RouteView {
            email,
            host,
            port: 80,
            target_url: scheme + (host + ":"@ + port) + path,
        }),
{
    reveal_strlit(":");
    assert(":"@ =~= seq![':']);
    let authority = host + ":"@ + port;
    assert(authority.last() == port.last());
    assert forall|i: int| 0 <= i < authority.len() implies authority[i] != '/' by {
        if i < host.len() {
            assert(authority[i] == host[i]);
        } else if i > host.len() {
            assert(authority[i] == port[i - host.len() - 1]);
        }
    }
    lemma_authority(scheme, authority, path);
    lemma_no_open_bracket(authority);
    crate::text::split_at_a_character(host, ':', port);
}

/// A file that cannot be read, or that is no table of texts, has no entries; any
/// other has those that it says.
pub proof fn unreadable_files_have_no_entries(content: &str)
    ensures
        loaded_entries(None).len() == 0,
        toml_entries(content@) is None ==> loaded_entries(Some(content)).len() == 0,
        toml_entries(content@) is Some ==> Some(loaded_entries(Some(content))) == toml_entries(
            content@,
        ),
{
}

/// The table holds the routes of the listing under their emails, and nothing
/// else.
pub proof fn table_holds_the_listing(s: Seq<RouteView>, email: Seq<char>)
    requires
        forall|i: int, j: int|
            0 <= i < j < s.len() ==> crate::text::before(
                (#[trigger] s[i]).email,
                (#[trigger] s[j]).email,
            ),
    ensures
        table(s).contains_key(email) <==> exists|i: int|
            0 <= i < s.len() && (#[trigger] s[i]).email == email,
        forall|i: int|
            0 <= i < s.len() ==> table(s).contains_key((#[trigger] s[i]).email)
                && table(s)[s[i].email] == s[i],
{
    assert(ascending(s));
    assert forall|i: int| 0 <= i < s.len() implies table(s).contains_key((#[trigger] s[i]).email)
        && table(s)[s[i].email] == s[i] by {
        lemma_table_at(s, i);
    }
}


/// The route to the default endpoint of a host is restored from a saved file if
/// its texts are printable, its host can stand before a port and its email is no
/// broken pattern.
pub proof fn ordinary_hosts_are_restorable(email: Seq<char>, host: Seq<char>, port: u16)
    requires
        forall|i: int|
            0 <= i < email.len() ==> 0x20 <= (#[trigger] email[i]) as int <= 0x7e && email[i] != '"'
                && email[i] != '\\',
        forall|i: int|
            0 <= i < host.len() ==> 0x20 <= (#[trigger] host[i]) as int <= 0x7e && host[i] != '"'
                && host[i] != '\\',
        !host.contains('/'),
        host.len() > 0 ==> host[0] != '[' && host[0] != ' ',
        !is_pattern(email) || pattern_language(email) is Some,
    ensures
        is_restorable(
            RouteView {
                email,
                host,
                port,
                target_url: "http://"@ + host + ":"@ + crate::text::decimal(port as nat)
                    + "/webhooks/amail-inbound"@,
            },
        ),
{
    reveal_strlit(":");
    let d = crate::text::decimal(port as nat);
    if host.len() > 0 {
        crate::text::ascii_white_space(host[0]);
    }
    saved_host_is_read_back(email, host, port);
    lemma_saved_origin(email, host, port);
    crate::text::spelling_is_short(port as nat);
    let origin = host + ":"@ + d;
    assert forall|i: int| 0 <= i < origin.len() implies (#[trigger] origin[i]) != '"' && origin[i]
        != '\\' && origin[i] as int != 0x7f && (origin[i] == '\t' || 0x20 <= origin[i] as int) by {
        if i < host.len() {
            assert(origin[i] == host[i]);
        } else if i > host.len() {
            assert(origin[i] == d[i - host.len() - 1]);
        }
    }
    assert(is_plain(email));
}

/// A route to a URL with a path of its own is restored from a saved file if its
/// texts are printable and its email is no broken pattern.
pub proof fn ordinary_urls_are_restorable(email: Seq<char>, url: Seq<char>)
    requires
        forall|i: int|
            0 <= i < email.len() ==> 0x20 <= (#[trigger] email[i]) as int <= 0x7e && email[i] != '"'
                && email[i] != '\\',
        forall|i: int|
            0 <= i < url.len() ==> 0x21 <= (#[trigger] url[i]) as int <= 0x7e && url[i] != '"'
                && url[i] != '\\',
        crate::text::has_prefix(url, "http://"@) || crate::text::has_prefix(url, "https://"@),
        !is_pattern(email) || pattern_language(email) is Some,
        url != "http://"@ + url_route(email, url).host + ":"@ + crate::text::decimal(
            url_route(email, url).port as nat,
        ) + "/webhooks/amail-inbound"@,
    ensures
        is_restorable(url_route(email, url)),
        url_route(email, url).target_url == url,
{
    reveal_strlit("http://");
    reveal_strlit("https://");
    assert(0x21 <= url[0] as int <= 0x7e);
    assert(0x21 <= url[url.len() - 1] as int <= 0x7e);
    crate::text::ascii_white_space(url[0]);
    crate::text::ascii_white_space(url.last());
    crate::text::lemma_already_trimmed(url);
    full_url_is_kept(email, url);
    saved_url_is_read_back(email, url);
    assert forall|i: int| 0 <= i < url.len() implies (#[trigger] url[i]) != '"' && url[i] != '\\'
        && url[i] as int != 0x7f && (url[i] == '\t' || 0x20 <= url[i] as int) by {
        assert(0x21 <= url[i] as int <= 0x7e);
    }
    assert(is_plain(email));
}

/// A listing whose routes can all be restored, each under an email of its own, is
/// answered from its saved file as it is.
pub proof fn restored_tables_answer_alike(s: Seq<RouteView>, i: int)
    requires
        forall|i: int, j: int|
            0 <= i < j < s.len() ==> crate::text::before(
                (#[trigger] s[i]).email,
                (#[trigger] s[j]).email,
            ),
        forall|i: int| 0 <= i < s.len() ==> is_restorable(#[trigger] s[i]),
        0 <= i < s.len(),
    ensures
        are_restorable(s),
        resolve(exact_routes(saved_entries(s)), pattern_routes(saved_entries(s)), s[i].email)
            == Some(s[i]),
{
    assert(are_restorable(s));
    lemma_answers_as(s);
    assert(s[i] == s[i]);
}

/// A bracketed address is registered whole, with the port behind it or else with
/// the one beside it.
pub proof fn bracketed_registrations_lead_where_they_say(
    email: Seq<char>,
    inner: Seq<char>,
    behind: u16,
    port: u16,
)
    requires
        !inner.contains('/'),
        !inner.contains(']'),
    ensures
        registered_route(email, "["@ + inner + "]:"@ + crate::text::decimal(behind as nat), port)
            == (RouteView {
            email,
            host: "["@ + inner + "]"@,
            port: behind,
            target_url: "http://"@ + ("["@ + inner + "]"@) + ":"@ + crate::text::decimal(
                behind as nat,
            ) + "/webhooks/amail-inbound"@,
        }),
        registered_route(email, "["@ + inner + "]"@, port) == (RouteView {
            email,
            host: "["@ + inner + "]"@,
            port,
            target_url: "http://"@ + ("["@ + inner + "]"@) + ":"@ + crate::text::decimal(
                port as nat,
            ) + "/webhooks/amail-inbound"@,
        }),
{
    let d = crate::text::decimal(behind as nat);
    let host = "["@ + inner + "]"@;
    lemma_port_text(behind);
    lemma_bracketed_authority(inner, d);
    lemma_bracketed_origin(inner, d);
    lemma_no_bare_port(inner);
    lemma_split_bracketed_port(host, d);
}

/// The port stands behind the last colon.
proof fn lemma_split_bracketed_port(host: Seq<char>, d: Seq<char>)
    requires
        host.len() > 0,
        host.last() == ']',
        !d.contains(':'),
    ensures
        crate::text::split_last(host + ":"@ + d, ":"@) == Some((host, d)),
        crate::text::has_suffix(host, "]"@),
{
    reveal_strlit(":");
    reveal_strlit("]");
    assert(":"@ =~= seq![':']);
    crate::text::split_at_a_character(host, ':', d);
    assert(host.subrange(host.len() - 1, host.len() as int) =~= "]"@);
}

/// What stands behind the last colon of a bracketed address is no port.
proof fn lemma_no_bare_port(inner: Seq<char>)
    ensures
        split_port("["@ + inner + "]"@) is None,
        ("["@ + inner + "]"@).len() > 0,
        ("["@ + inner + "]"@).last() == ']',
{
    reveal_strlit(":");
    reveal_strlit("[");
    reveal_strlit("]");
    assert(":"@ =~= seq![':']);
    let host = "["@ + inner + "]"@;
    crate::text::split_at_no_character(host, ':');
    if host.contains(':') {
        let at = choose|at: int| 0 <= at < host.len() && host[at] == ':';
        crate::text::lemma_occurs_char(host, ':', at);
        crate::text::lemma_stands_last(host, ":"@, at);
        let l = choose|l: int| at <= l && #[trigger] crate::text::last_at(host, ":"@, l);
        crate::text::lemma_split_last(host, ":"@, l);
        crate::text::lemma_occurs_char(host, ':', l);
        let p = host.subrange(l + 1, host.len() as int);
        assert(p.last() == ']');
        crate::text::other_texts_are_no_numbers(p, 0xffff, p.len() - 1);
    }
}

/// What is said of routes, patterns and entries is what they hold.
pub proof fn routes_say_what_they_hold(
    r: ProfileRoute,
    p: PatternRoute,
    routes: Seq<ProfileRoute>,
    entries: Seq<(String, String)>,
    i: int,
)
    ensures
        r@ == (RouteView {
            email: r.email@,
            host: r.host@,
            port: r.port,
            target_url: r.target_url@,
        }),
        p@.language == regex_language(p.regex),
        p@.key == p.key@ && p@.host == p.host@ && p@.port == p.port && p@.target_url
            == p.target_url@,
        route_views(routes).len() == routes.len(),
        0 <= i < routes.len() ==> route_views(routes)[i] == routes[i]@,
        entry_views(entries).len() == entries.len(),
        0 <= i < entries.len() ==> entry_views(entries)[i] == (entries[i].0@, entries[i].1@),
{
}

/// A port that can be read is a row of digits, with or without a plus sign.
pub proof fn lemma_port_spelling(d: Seq<char>)
    requires
        crate::text::number(d, 65535) is Some,
    ensures
        d.len() > 0,
        !d.contains(':'),
        !d.contains('/'),
        !crate::text::is_white(d.last()),
{
    if d.contains(':') {
        let i = choose|i: int| 0 <= i < d.len() && d[i] == ':';
        crate::text::other_texts_are_no_numbers(d, 65535, i);
    }
    if d.contains('/') {
        let i = choose|i: int| 0 <= i < d.len() && d[i] == '/';
        crate::text::other_texts_are_no_numbers(d, 65535, i);
    }
    if d.len() == 0 {
        assert(d =~= Seq::<char>::empty());
    }
    crate::text::other_texts_are_no_numbers(d, 65535, d.len() - 1);
}

/// A port behind a host counts however it is spelled: in an entry, in a URL and
/// in a registration.
pub proof fn ports_count_however_spelled(
    key: Seq<char>,
    host: Seq<char>,
    d: Seq<char>,
    scheme: Seq<char>,
    path: Seq<char>,
    beside: u16,
)
    requires
        host.len() > 0,
        !host.contains('/'),
        !host.contains(':'),
        host[0] != '[',
        !crate::text::is_white(host[0]),
        crate::text::number(d, 65535) is Some,
        scheme == "http://"@ || scheme == "https://"@,
        path.len() > 0 ==> path[0] == '/' && !crate::text::is_white(path.last()),
    ensures
        ({
            let port = crate::text::number(d, 65535)->0 as u16;
            let r = RouteView {
                email: key,
                host,
                port,
                target_url: "http://"@ + host + ":"@ + crate::text::decimal(port as nat)
                    + "/webhooks/amail-inbound"@,
            };
            &&& entry_route(key, host + ":"@ + d) == Some(r)
            &&& registered_route(key, host + ":"@ + d, beside) == r
            &&& url_route(key, scheme + (host + ":"@ + d) + path).host == host
            &&& url_route(key, scheme + (host + ":"@ + d) + path).port == port
            &&& url_route(key, scheme + (host + ":"@ + d) + path).target_url == scheme + (host
                + ":"@ + d) + path
        }),
{
    reveal_strlit(":");
    assert(":"@ =~= seq![':']);
    lemma_port_spelling(d);
    let t = host + ":"@ + d;
    assert(t.last() == d.last());
    assert(t[0] == host[0]);
    assert forall|i: int| 0 <= i < t.len() implies t[i] != '/' by {
        if i < host.len() {
            assert(t[i] == host[i]);
        } else if i > host.len() {
            assert(t[i] == d[i - host.len() - 1]);
        }
    }
    crate::text::lemma_already_trimmed(t);
    crate::text::split_at_a_character(host, ':', d);
    lemma_no_open_bracket(t);
    lemma_authority(scheme, t, path);
}

} // verus!
