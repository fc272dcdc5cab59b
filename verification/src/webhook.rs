//! What becomes of a posted webhook.
//!
//! A plan says what to answer or what to send where. Carrying a plan out is
//! left to the server around this library.

use axum::http::{HeaderMap, HeaderValue};
use serde_json::Value;
use vstd::prelude::*;

use crate::headers::{
    clone_value, get_header, get_text, insert_header, new_headers, read_header_name, text_of_name,
};
use crate::json::{as_array, as_str, copy, get, parse, remove, to_bytes, Json};
use crate::router::{PatternView, ProfileRoute, ProfileRouter, RouteView};
use crate::text::{decimal_text, same_text};

verus! {

broadcast use vstd::seq::group_seq_axioms;

// ── Answers ────────────────────────────────────────────────────────

/// An answer in plain text.
#[derive(Debug)]
pub struct Reply {
    pub status: u16,
    pub body: String,
}

/// What an answer says.
#[verifier::ext_equal]
pub struct ReplyView {
    pub status: u16,
    pub body: Seq<char>,
}

impl View for Reply {
    type V = ReplyView;

    open spec fn view(&self) -> ReplyView {
        ReplyView { status: self.status, body: self.body@ }
    }
}

/// The answer with these words.
fn reply(status: u16, first: &str, second: &str) -> (r: Reply)
    ensures
        r@ == (ReplyView { status, body: first@ + second@ }),
{
    let mut body = String::from_str(first);
    body.append(second);
    Reply { status, body }
}

/// The answer to a post that does not say which agent it is for.
pub open spec fn missing_email_view() -> ReplyView {
    ReplyView { status: 400, body: "Missing X-Amail-Email header"@ }
}

/// The answer to a post for an agent without a route.
pub open spec fn no_route_view(email: Seq<char>) -> ReplyView {
    ReplyView { status: 502, body: "No route for "@ + email }
}

/// The answer when the agent could not be reached, and why.
pub fn forward_failed(error: &str) -> (r: Reply)
    ensures
        r@ == (ReplyView { status: 502, body: "Forward failed: "@ + error@ }),
{
    reply(502, "Forward failed: ", error)
}

/// The answer to a post for several agents, of which some were reached.
pub open spec fn batch_reply_view(delivered: nat, total: nat) -> ReplyView {
    ReplyView {
        status: if delivered == total {
            200
        } else {
            207
        },
        body: crate::text::decimal(delivered) + "/"@ + crate::text::decimal(total)
            + " delivered"@,
    }
}

/// The answer to a post for several agents.
pub fn batch_reply(delivered: usize, total: usize) -> (r: Reply)
    ensures
        r@ == batch_reply_view(delivered as nat, total as nat),
{
    let mut body = decimal_text(delivered as u64);
    body.append("/");
    body.append(decimal_text(total as u64).as_str());
    body.append(" delivered");
    let status: u16 = if delivered == total {
        200
    } else {
        207
    };
    Reply { status, body }
}

/// An agent that answers with this status has taken what was posted.
pub open spec fn is_success_status(status: u16) -> bool {
    200 <= status < 300
}

/// Whether an agent that answers with this status has taken what was posted.
pub fn is_success(status: u16) -> (r: bool)
    ensures
        r == is_success_status(status),
{
    200 <= status && status < 300
}

/// The number of posts that were taken; a post without an answer has no status.
pub open spec fn taken_count(statuses: Seq<Option<u16>>) -> nat
    decreases statuses.len(),
{
    if statuses.len() == 0 {
        0
    } else {
        taken_count(statuses.drop_last()) + if statuses.last() is Some && is_success_status(
            statuses.last()->0,
        ) {
            1nat
        } else {
            0nat
        }
    }
}

/// The answer to a post for `total` agents after it was sent on, with the
/// statuses that came back; a post without an answer has none.
pub fn settle_batch(statuses: &Vec<Option<u16>>, total: usize) -> (r: Reply)
    ensures
        r@ == batch_reply_view(taken_count(statuses@), total as nat),
{
    let mut delivered: usize = 0;
    let mut i: usize = 0;
    assert(statuses@.take(0) =~= Seq::<Option<u16>>::empty());
    while i < statuses.len()
        invariant
            i <= statuses@.len(),
            delivered <= i,
            delivered == taken_count(statuses@.take(i as int)),
        decreases statuses@.len() - i,
    {
        assert(statuses@.take(i + 1).drop_last() =~= statuses@.take(i as int));
        if let Some(status) = statuses[i] {
            if is_success(status) {
                delivered += 1;
            }
        }
        i += 1;
    }
    assert(statuses@.take(i as int) =~= statuses@);
    batch_reply(delivered, total)
}

// ── Headers that are passed on ─────────────────────────────────────

/// The header names that texts spell, in small letters; texts that spell none
/// are left out.
pub open spec fn header_names(raw: Seq<Seq<char>>) -> Seq<Seq<char>>
    decreases raw.len(),
{
    if raw.len() == 0 {
        Seq::empty()
    } else {
        let front = header_names(raw.drop_last());
        if crate::headers::is_header_name(raw.last()) {
            front.push(crate::text::lower(raw.last()))
        } else {
            front
        }
    }
}

/// A header name in small letters.
pub open spec fn is_small_name(s: Seq<char>) -> bool {
    crate::headers::is_header_name(s) && crate::text::lower(s) == s
}

/// Making the letters of a header name small leaves a header name.
proof fn lemma_small_name(s: Seq<char>)
    requires
        crate::headers::is_header_name(s),
    ensures
        is_small_name(crate::text::lower(s)),
{
    let t = crate::text::lower(s);
    assert forall|i: int| 0 <= i < t.len() implies crate::headers::is_name_char(#[trigger] t[i])
        && crate::text::lower_char(t[i]) == t[i] by {
        assert(crate::headers::is_name_char(s[i]));
    }
    assert(crate::text::lower(t) =~= t);
}

/// The headers that are passed on to the agents.
pub struct ForwardHeaders {
    names: Vec<String>,
}

impl ForwardHeaders {
    #[verifier::type_invariant]
    spec fn inv(self) -> bool {
        &&& self.names@.len() <= crate::headers::MAX_NAMES
        &&& forall|i: int| 0 <= i < self.names@.len() ==> is_small_name(#[trigger] self.names@[i]@)
    }

    /// The names, in small letters.
    pub closed spec fn names(&self) -> Seq<Seq<char>> {
        crate::text::texts(self.names@)
    }

    /// The header names of the configuration. What is no header name is left out.
    pub fn from_config(raw: &[String]) -> (r: Self)
        requires
            raw@.len() <= crate::headers::MAX_NAMES,
        ensures
            r.names() == header_names(crate::text::texts(raw@)),
    {
        let ghost t = crate::text::texts(raw@);
        let mut names: Vec<String> = Vec::new();
        let mut i: usize = 0;
        assert(t.take(0) =~= Seq::<Seq<char>>::empty());
        assert(crate::text::texts(names@) =~= Seq::<Seq<char>>::empty());
        while i < raw.len()
            invariant
                i <= raw@.len() <= crate::headers::MAX_NAMES,
                names@.len() <= i,
                t == crate::text::texts(raw@),
                crate::text::texts(names@) == header_names(t.take(i as int)),
                forall|k: int| 0 <= k < names@.len() ==> is_small_name(#[trigger] names@[k]@),
            decreases raw@.len() - i,
        {
            assert(t.take(i + 1).drop_last() =~= t.take(i as int));
            assert(t.take(i + 1).last() == raw@[i as int]@);
            if let Some(n) = read_header_name(raw[i].as_str()) {
                let ghost before = names@;
                let name = String::from_str(text_of_name(&n));
                proof {
                    lemma_small_name(raw@[i as int]@);
                }
                names.push(name);
                assert(crate::text::texts(names@) =~= crate::text::texts(before).push(name@));
            }
            i += 1;
        }
        assert(t.take(i as int) =~= t);
        ForwardHeaders { names }
    }
}

/// The headers of a post that are passed on: the configured names that it has,
/// each with its first value.
pub open spec fn forwarded(
    names: Seq<Seq<char>>,
    contents: Map<Seq<char>, Seq<Seq<u8>>>,
) -> Map<Seq<char>, Seq<Seq<u8>>> {
    Map::new(
        |k: Seq<char>| names.contains(k) && contents.contains_key(k),
        |k: Seq<char>| seq![contents[k][0]],
    )
}

/// The headers of a post that are passed on.
pub fn select_headers(forward: &ForwardHeaders, headers: &HeaderMap<HeaderValue>) -> (r: HeaderMap<
    HeaderValue,
>)
    ensures
        crate::headers::header_contents(r) == forwarded(
            forward.names(),
            crate::headers::header_contents(*headers),
        ),
{
    proof {
        use_type_invariant(forward);
    }
    let ghost names = forward.names();
    let ghost contents = crate::headers::header_contents(*headers);
    let mut out = new_headers();
    let mut i: usize = 0;
    assert(crate::headers::header_contents(out) =~= forwarded(names.take(0), contents));
    assert(crate::headers::header_contents(out).dom() =~= Set::empty());
    while i < forward.names.len()
        invariant
            i <= forward.names@.len() <= crate::headers::MAX_NAMES,
            names == crate::text::texts(forward.names@),
            contents == crate::headers::header_contents(*headers),
            forall|k: int|
                0 <= k < forward.names@.len() ==> is_small_name(#[trigger] forward.names@[k]@),
            crate::headers::header_contents(out) == forwarded(names.take(i as int), contents),
            crate::headers::header_contents(out).dom().finite(),
            crate::headers::header_contents(out).dom().len() <= i,
        decreases forward.names@.len() - i,
    {
        let name = forward.names[i].as_str();
        let ghost before = names.take(i as int);
        let ghost next = names.take(i + 1);
        assert(is_small_name(forward.names@[i as int]@));
        assert(next =~= before.push(name@));
        assert forall|k: Seq<char>| next.contains(k) <==> before.contains(k) || k == name@ by {
            if before.contains(k) {
                let j = choose|j: int| 0 <= j < before.len() && before[j] == k;
                assert(next[j] == k);
            }
            assert(next[i as int] == name@);
        }
        if let Some(value) = get_header(headers, name) {
            if let Some(n) = read_header_name(name) {
                insert_header(&mut out, &n, clone_value(value));
                assert(crate::headers::header_contents(out) =~= forwarded(next, contents));
            }
        } else {
            assert(forwarded(before, contents) =~= forwarded(next, contents));
        }
        i += 1;
    }
    assert(names.take(i as int) =~= names);
    out
}

// ── One agent ──────────────────────────────────────────────────────

/// The routes after a lookup of `email`.
pub open spec fn learned(
    routes: Map<Seq<char>, RouteView>,
    patterns: Seq<PatternView>,
    email: Seq<char>,
) -> Map<Seq<char>, RouteView> {
    match crate::router::resolve(routes, patterns, email) {
        Some(v) => routes.insert(email, v),
        None => routes,
    }
}

/// The route of a post for one agent, or the answer if there is none.
pub open spec fn webhook_route(
    routes: Map<Seq<char>, RouteView>,
    patterns: Seq<PatternView>,
    email: Option<Seq<char>>,
) -> Result<RouteView, ReplyView> {
    match email {
        Some(m) => match crate::router::resolve(routes, patterns, m) {
            Some(v) => Ok(v),
            None => Err(no_route_view(m)),
        },
        None => Err(missing_email_view()),
    }
}

/// The route of a post for the agent with this email, if the post names one.
pub fn route_webhook(router: &mut ProfileRouter, email: Option<&str>) -> (r: Result<
    ProfileRoute,
    Reply,
>)
    requires
        old(router).wf(),
    ensures
        final(router).wf(),
        final(router).patterns() == old(router).patterns(),
        final(router).file() == old(router).file(),
        final(router).writing() == old(router).writing(),
        final(router).routes() == match email {
            Some(m) => learned(old(router).routes(), old(router).patterns(), m@),
            None => old(router).routes(),
        },
        ({
            let m = match email {
                Some(m) => Some(m@),
                None => None,
            };
            match (r, webhook_route(old(router).routes(), old(router).patterns(), m)) {
                (Ok(route), Ok(v)) => route@ == v,
                (Err(reply), Err(v)) => reply@ == v,
                _ => false,
            }
        }),
{
    match email {
        Some(m) => match router.lookup(m) {
            Some(route) => Ok(route),
            None => Err(reply(502, "No route for ", m)),
        },
        None => {
            Err(Reply { status: 400, body: String::from_str("Missing X-Amail-Email header") })
        },
    }
}

// ── Several agents ─────────────────────────────────────────────────

/// What a post for several agents says of one of them.
#[derive(Debug)]
pub struct Signature {
    pub email: Option<String>,
    pub signature: String,
    pub timestamp: String,
}

/// What an entry of the list of signatures says.
#[verifier::ext_equal]
pub struct SignatureView {
    pub email: Option<Seq<char>>,
    pub signature: Seq<char>,
    pub timestamp: Seq<char>,
}

impl View for Signature {
    type V = SignatureView;

    open spec fn view(&self) -> SignatureView {
        SignatureView {
            email: match self.email {
                Some(m) => Some(m@),
                None => None,
            },
            signature: self.signature@,
            timestamp: self.timestamp@,
        }
    }
}

/// What the entries say.
pub open spec fn signature_views(v: Seq<Signature>) -> Seq<SignatureView> {
    v.map_values(|e: Signature| e@)
}

/// The text under `key`, if there is one.
pub open spec fn text_member(j: Json, key: Seq<char>) -> Option<Seq<char>> {
    match crate::json::member(j, key) {
        Some(x) => crate::json::text(x),
        None => None,
    }
}

/// `t`, or an empty text.
pub open spec fn or_empty(t: Option<Seq<char>>) -> Seq<char> {
    match t {
        Some(s) => s,
        None => Seq::empty(),
    }
}

/// What an element of the list of signatures says. A missing signature or
/// timestamp is empty.
pub open spec fn signature_of(j: Json) -> SignatureView {
    SignatureView {
        email: text_member(j, "email"@),
        signature: or_empty(text_member(j, "signature"@)),
        timestamp: or_empty(text_member(j, "timestamp"@)),
    }
}

/// The list of signatures of a post, if it has one.
pub open spec fn signatures_of(j: Json) -> Option<Seq<SignatureView>> {
    match crate::json::member(j, "signatures"@) {
        Some(x) => match crate::json::elements(x) {
            Some(a) => Some(a.map_values(|e: Json| signature_of(e))),
            None => None,
        },
        None => None,
    }
}

/// The text under `key`, if there is one.
fn member_text<'a>(v: &'a Value, key: &str) -> (r: Option<&'a str>)
    ensures
        match r {
            Some(t) => text_member(crate::json::json_of(*v), key@) == Some(t@),
            None => text_member(crate::json::json_of(*v), key@) is None,
        },
{
    match get(v, key) {
        Some(x) => as_str(x),
        None => None,
    }
}

/// `t`, or an empty text.
fn text_or_empty(t: Option<&str>) -> (r: String)
    ensures
        r@ == or_empty(
            match t {
                Some(s) => Some(s@),
                None => None,
            },
        ),
{
    match t {
        Some(s) => String::from_str(s),
        None => {
            let r = String::new();
            assert(r@ =~= Seq::<char>::empty());
            r
        },
    }
}

/// The list of signatures of a post, if it has one.
pub fn read_signatures(batch: &Value) -> (r: Option<Vec<Signature>>)
    ensures
        match r {
            Some(v) => signatures_of(crate::json::json_of(*batch)) == Some(signature_views(v@)),
            None => signatures_of(crate::json::json_of(*batch)) is None,
        },
{
    let list = match get(batch, "signatures") {
        Some(x) => match as_array(x) {
            Some(a) => a,
            None => {
                return None;
            },
        },
        None => {
            return None;
        },
    };
    let ghost all = crate::json::jsons(list@).map_values(|e: Json| signature_of(e));
    let mut out: Vec<Signature> = Vec::new();
    let mut i: usize = 0;
    assert(signature_views(out@) =~= all.take(0));
    while i < list.len()
        invariant
            i <= list@.len(),
            all == crate::json::jsons(list@).map_values(|e: Json| signature_of(e)),
            signature_views(out@) == all.take(i as int),
        decreases list@.len() - i,
    {
        let entry = &list[i];
        let email = match member_text(entry, "email") {
            Some(m) => Some(String::from_str(m)),
            None => None,
        };
        let signature = text_or_empty(member_text(entry, "signature"));
        let timestamp = text_or_empty(member_text(entry, "timestamp"));
        let ghost before = out@;
        let e = Signature { email, signature, timestamp };
        out.push(e);
        assert(e@ == signature_of(crate::json::json_of(list@[i as int])));
        assert(all[i as int] == e@);
        assert(signature_views(out@) =~= signature_views(before).push(e@));
        assert(all.take(i + 1) =~= all.take(i as int).push(e@));
        i += 1;
    }
    assert(all.take(i as int) =~= all);
    Some(out)
}

/// The header of a delivery that stands for a configured name; other names
/// stand for none.
pub open spec fn batch_header(
    name: Seq<char>,
    email: Seq<char>,
    signature: Seq<char>,
    timestamp: Seq<char>,
) -> Option<(Seq<char>, Seq<char>)> {
    if name == "x-amail-email"@ {
        Some((name, email))
    } else if name == "x-webhook-signature"@ {
        Some((name, signature))
    } else if name == "x-mailrelay-timestamp"@ {
        Some((name, timestamp))
    } else if name == "content-type"@ {
        Some((name, "application/json"@))
    } else {
        None
    }
}

/// The header of a delivery that stands for a configured name.
pub fn batch_header_value(name: &str, email: &str, sig: &str, ts: &str) -> (r: Option<
    (&'static str, String),
>)
    ensures
        match r {
            Some((n, v)) => batch_header(name@, email@, sig@, ts@) == Some((n@, v@)),
            None => batch_header(name@, email@, sig@, ts@) is None,
        },
{
    if same_text(name, "x-amail-email") {
        Some(("x-amail-email", String::from_str(email)))
    } else if same_text(name, "x-webhook-signature") {
        Some(("x-webhook-signature", String::from_str(sig)))
    } else if same_text(name, "x-mailrelay-timestamp") {
        Some(("x-mailrelay-timestamp", String::from_str(ts)))
    } else if same_text(name, "content-type") {
        Some(("content-type", String::from_str("application/json")))
    } else {
        None
    }
}

/// The headers of a delivery, in the order of the configured names.
pub open spec fn batch_headers(
    names: Seq<Seq<char>>,
    email: Seq<char>,
    signature: Seq<char>,
    timestamp: Seq<char>,
) -> Seq<(Seq<char>, Seq<char>)>
    decreases names.len(),
{
    if names.len() == 0 {
        Seq::empty()
    } else {
        let front = batch_headers(names.drop_last(), email, signature, timestamp);
        match batch_header(names.last(), email, signature, timestamp) {
            Some(h) => front.push(h),
            None => front,
        }
    }
}

/// One post to one agent.
#[derive(Debug)]
pub struct Delivery {
    pub email: String,
    pub target: String,
    pub headers: Vec<(String, String)>,
}

/// What a post to an agent says.
#[verifier::ext_equal]
pub struct DeliveryView {
    pub email: Seq<char>,
    pub target: Seq<char>,
    pub headers: Seq<(Seq<char>, Seq<char>)>,
}

impl View for Delivery {
    type V = DeliveryView;

    open spec fn view(&self) -> DeliveryView {
        DeliveryView {
            email: self.email@,
            target: self.target@,
            headers: crate::json::pair_views(self.headers@),
        }
    }
}

/// What the posts say.
pub open spec fn delivery_views(v: Seq<Delivery>) -> Seq<DeliveryView> {
    v.map_values(|d: Delivery| d@)
}

/// The post that an entry asks for: none without an email or a route.
pub open spec fn delivery_of(
    routes: Map<Seq<char>, RouteView>,
    patterns: Seq<PatternView>,
    names: Seq<Seq<char>>,
    e: SignatureView,
) -> Option<DeliveryView> {
    match e.email {
        Some(email) => match crate::router::resolve(routes, patterns, email) {
            Some(v) => Some(
                DeliveryView {
                    email,
                    target: v.target_url,
                    headers: batch_headers(names, email, e.signature, e.timestamp),
                },
            ),
            None => None,
        },
        None => None,
    }
}

/// The posts that the entries ask for, in their order.
pub open spec fn deliveries_of(
    routes: Map<Seq<char>, RouteView>,
    patterns: Seq<PatternView>,
    names: Seq<Seq<char>>,
    entries: Seq<SignatureView>,
) -> Seq<DeliveryView>
    decreases entries.len(),
{
    if entries.len() == 0 {
        Seq::empty()
    } else {
        let front = deliveries_of(routes, patterns, names, entries.drop_last());
        match delivery_of(routes, patterns, names, entries.last()) {
            Some(d) => front.push(d),
            None => front,
        }
    }
}

/// The routes after the emails of the entries were looked up.
pub open spec fn learned_all(
    routes: Map<Seq<char>, RouteView>,
    patterns: Seq<PatternView>,
    entries: Seq<SignatureView>,
) -> Map<Seq<char>, RouteView>
    decreases entries.len(),
{
    if entries.len() == 0 {
        routes
    } else {
        let front = learned_all(routes, patterns, entries.drop_last());
        match entries.last().email {
            Some(email) => learned(front, patterns, email),
            None => front,
        }
    }
}

/// Looking emails up changes no answer.
pub proof fn lookups_change_no_answer(
    routes: Map<Seq<char>, RouteView>,
    patterns: Seq<PatternView>,
    entries: Seq<SignatureView>,
    other: Seq<char>,
)
    ensures
        crate::router::resolve(learned_all(routes, patterns, entries), patterns, other)
            == crate::router::resolve(routes, patterns, other),
    decreases entries.len(),
{
    if entries.len() > 0 {
        lookups_change_no_answer(routes, patterns, entries.drop_last(), other);
        let front = learned_all(routes, patterns, entries.drop_last());
        if let Some(email) = entries.last().email {
            if crate::router::resolve(front, patterns, email) is Some {
                crate::router::lookup_changes_no_answer(front, patterns, email, other);
            }
        }
    }
}

/// The headers of a delivery.
fn delivery_headers(forward: &ForwardHeaders, email: &str, sig: &str, ts: &str) -> (r: Vec<
    (String, String),
>)
    ensures
        crate::json::pair_views(r@) == batch_headers(forward.names(), email@, sig@, ts@),
{
    let ghost names = forward.names();
    let mut out: Vec<(String, String)> = Vec::new();
    let mut i: usize = 0;
    assert(names.take(0) =~= Seq::<Seq<char>>::empty());
    assert(crate::json::pair_views(out@) =~= Seq::<(Seq<char>, Seq<char>)>::empty());
    while i < forward.names.len()
        invariant
            i <= forward.names@.len(),
            names == crate::text::texts(forward.names@),
            crate::json::pair_views(out@) == batch_headers(
                names.take(i as int),
                email@,
                sig@,
                ts@,
            ),
        decreases forward.names@.len() - i,
    {
        assert(names.take(i + 1).drop_last() =~= names.take(i as int));
        assert(names.take(i + 1).last() == forward.names@[i as int]@);
        if let Some((n, v)) = batch_header_value(forward.names[i].as_str(), email, sig, ts) {
            let ghost before = out@;
            let h = (String::from_str(n), v);
            out.push(h);
            assert(crate::json::pair_views(out@) =~= crate::json::pair_views(before).push(
                (h.0@, h.1@),
            ));
        }
        i += 1;
    }
    assert(names.take(i as int) =~= names);
    out
}

/// The posts that the entries ask for.
pub fn fan_out(
    router: &mut ProfileRouter,
    forward: &ForwardHeaders,
    entries: &Vec<Signature>,
) -> (r: Vec<Delivery>)
    requires
        old(router).wf(),
    ensures
        final(router).wf(),
        final(router).patterns() == old(router).patterns(),
        final(router).file() == old(router).file(),
        final(router).writing() == old(router).writing(),
        final(router).routes() == learned_all(
            old(router).routes(),
            old(router).patterns(),
            signature_views(entries@),
        ),
        delivery_views(r@) == deliveries_of(
            old(router).routes(),
            old(router).patterns(),
            forward.names(),
            signature_views(entries@),
        ),
{
    let ghost routes = router.routes();
    let ghost patterns = router.patterns();
    let ghost all = signature_views(entries@);
    let mut out: Vec<Delivery> = Vec::new();
    let mut i: usize = 0;
    assert(all.take(0) =~= Seq::<SignatureView>::empty());
    assert(delivery_views(out@) =~= Seq::<DeliveryView>::empty());
    while i < entries.len()
        invariant
            i <= entries@.len(),
            all == signature_views(entries@),
            routes == old(router).routes(),
            patterns == old(router).patterns(),
            router.wf(),
            router.patterns() == patterns,
            router.file() == old(router).file(),
            router.writing() == old(router).writing(),
            router.routes() == learned_all(routes, patterns, all.take(i as int)),
            delivery_views(out@) == deliveries_of(
                routes,
                patterns,
                forward.names(),
                all.take(i as int),
            ),
        decreases entries@.len() - i,
    {
        let ghost next = all.take(i + 1);
        assert(next.drop_last() =~= all.take(i as int));
        assert(next.last() == entries@[i as int]@);
        let e = &entries[i];
        if let Some(email) = &e.email {
            proof {
                lookups_change_no_answer(routes, patterns, all.take(i as int), email@);
            }
            if let Some(route) = router.lookup(email.as_str()) {
                let headers = delivery_headers(
                    forward,
                    email.as_str(),
                    e.signature.as_str(),
                    e.timestamp.as_str(),
                );
                let ghost before = out@;
                let d = Delivery { email: email.clone(), target: route.target_url, headers };
                out.push(d);
                assert(delivery_of(routes, patterns, forward.names(), next.last()) == Some(d@));
                assert(delivery_views(out@) =~= delivery_views(before).push(d@));
            }
        }
        i += 1;
    }
    assert(all.take(i as int) =~= all);
    out
}

// ── Plans ──────────────────────────────────────────────────────────

/// What is to be done with a post.
pub enum Plan {
    /// Answer at once.
    Answer(Reply),
    /// Send the body on to one agent.
    Forward { email: String, target: String, headers: HeaderMap<HeaderValue> },
    /// Send this body on to several agents. `total` is the number of agents
    /// that the post was for.
    FanOut { deliveries: Vec<Delivery>, body: Vec<u8>, total: usize },
}

/// What a plan says.
pub enum PlanView {
    Answer(ReplyView),
    Forward { email: Seq<char>, target: Seq<char>, headers: Map<Seq<char>, Seq<Seq<u8>>> },
    FanOut { deliveries: Seq<DeliveryView>, body: Seq<u8>, total: nat },
}

impl View for Plan {
    type V = PlanView;

    open spec fn view(&self) -> PlanView {
        match *self {
            Plan::Answer(reply) => PlanView::Answer(reply@),
            Plan::Forward { email, target, headers } => PlanView::Forward {
                email: email@,
                target: target@,
                headers: crate::headers::header_contents(headers),
            },
            Plan::FanOut { deliveries, body, total } => PlanView::FanOut {
                deliveries: delivery_views(deliveries@),
                body: body@,
                total: total as nat,
            },
        }
    }
}

/// What is to be done with a post for several agents, once it is read. The
/// agents get what was posted without the list of signatures.
pub open spec fn batch_plan(
    routes: Map<Seq<char>, RouteView>,
    patterns: Seq<PatternView>,
    names: Seq<Seq<char>>,
    batch: Result<Json, Seq<char>>,
) -> PlanView {
    match batch {
        Ok(j) => match signatures_of(j) {
            Some(entries) => PlanView::FanOut {
                deliveries: deliveries_of(routes, patterns, names, entries),
                body: crate::json::json_bytes(crate::json::without_member(j, "signatures"@)),
                total: entries.len(),
            },
            None => PlanView::Answer(
                ReplyView { status: 400, body: "Missing 'signatures' array"@ },
            ),
        },
        Err(e) => PlanView::Answer(
            ReplyView { status: 400, body: "Invalid batch JSON: "@ + e },
        ),
    }
}

/// The routes after a post for several agents.
pub open spec fn batch_learned(
    routes: Map<Seq<char>, RouteView>,
    patterns: Seq<PatternView>,
    batch: Result<Json, Seq<char>>,
) -> Map<Seq<char>, RouteView> {
    match batch {
        Ok(j) => match signatures_of(j) {
            Some(entries) => learned_all(routes, patterns, entries),
            None => routes,
        },
        Err(_) => routes,
    }
}

/// What is to be done with a post for one agent.
pub open spec fn single_plan(
    routes: Map<Seq<char>, RouteView>,
    patterns: Seq<PatternView>,
    names: Seq<Seq<char>>,
    contents: Map<Seq<char>, Seq<Seq<u8>>>,
) -> PlanView {
    let email = crate::headers::header_text(contents, "x-amail-email"@);
    match webhook_route(routes, patterns, email) {
        Ok(v) => PlanView::Forward {
            email: email->0,
            target: v.target_url,
            headers: forwarded(names, contents),
        },
        Err(reply) => PlanView::Answer(reply),
    }
}

/// The routes after a post for one agent.
pub open spec fn single_learned(
    routes: Map<Seq<char>, RouteView>,
    patterns: Seq<PatternView>,
    contents: Map<Seq<char>, Seq<Seq<u8>>>,
) -> Map<Seq<char>, RouteView> {
    match crate::headers::header_text(contents, "x-amail-email"@) {
        Some(email) => learned(routes, patterns, email),
        None => routes,
    }
}

/// The bytes begin as a post for several agents does.
pub open spec fn begins_like_batch(body: Seq<u8>) -> bool {
    let p = vstd::utf8::encode_utf8("{\"signatures\":"@);
    p.len() <= body.len() && body.subrange(0, p.len() as int) == p
}

/// A post for several agents: it begins like one, it is JSON, and its list of
/// signatures is not empty.
pub open spec fn is_batch(body: Seq<u8>, parsed: Result<Json, Seq<char>>) -> bool {
    &&& begins_like_batch(body)
    &&& parsed is Ok
    &&& signatures_of(parsed->Ok_0) is Some
    &&& signatures_of(parsed->Ok_0)->0.len() > 0
}

/// What is to be done with a post.
pub open spec fn webhook_plan(
    routes: Map<Seq<char>, RouteView>,
    patterns: Seq<PatternView>,
    names: Seq<Seq<char>>,
    contents: Map<Seq<char>, Seq<Seq<u8>>>,
    body: Seq<u8>,
) -> PlanView {
    let parsed = crate::json::json_parse(body);
    if is_batch(body, parsed) {
        batch_plan(routes, patterns, names, parsed)
    } else {
        single_plan(routes, patterns, names, contents)
    }
}

/// Whether the bytes begin as a post for several agents does.
pub fn looks_like_batch(body: &[u8]) -> (r: bool)
    ensures
        r == begins_like_batch(body@),
{
    let p = "{\"signatures\":".as_bytes();
    if body.len() < p.len() {
        return false;
    }
    let mut i: usize = 0;
    while i < p.len()
        invariant
            p@ == vstd::utf8::encode_utf8("{\"signatures\":"@),
            i <= p@.len() <= body@.len(),
            forall|k: int| 0 <= k < i ==> body@[k] == p@[k],
        decreases p@.len() - i,
    {
        if body[i] != p[i] {
            assert(body@.subrange(0, p@.len() as int)[i as int] == body@[i as int]);
            return false;
        }
        i += 1;
    }
    assert(body@.subrange(0, p@.len() as int) =~= p@);
    true
}

/// The body that each agent gets of a post for several agents.
pub fn shared_body(batch: &Value) -> (r: Option<Vec<u8>>)
    ensures
        r is Some && r->0@ == crate::json::json_bytes(
            crate::json::without_member(crate::json::json_of(*batch), "signatures"@),
        ),
{
    let mut shared = copy(batch);
    remove(&mut shared, "signatures");
    to_bytes(&shared)
}

/// What is to be done with a post for several agents.
pub fn plan_batch(router: &mut ProfileRouter, forward: &ForwardHeaders, body: &[u8]) -> (r: Plan)
    requires
        old(router).wf(),
    ensures
        final(router).wf(),
        final(router).patterns() == old(router).patterns(),
        final(router).file() == old(router).file(),
        final(router).writing() == old(router).writing(),
        final(router).routes() == batch_learned(
            old(router).routes(),
            old(router).patterns(),
            crate::json::json_parse(body@),
        ),
        r@ == batch_plan(
            old(router).routes(),
            old(router).patterns(),
            forward.names(),
            crate::json::json_parse(body@),
        ),
{
    let batch = match parse(body) {
        Ok(v) => v,
        Err(e) => {
            return Plan::Answer(reply(400, "Invalid batch JSON: ", e.as_str()));
        },
    };
    let entries = match read_signatures(&batch) {
        Some(entries) => entries,
        None => {
            return Plan::Answer(
                Reply { status: 400, body: String::from_str("Missing 'signatures' array") },
            );
        },
    };
    let body = match shared_body(&batch) {
        Some(b) => b,
        None => {
            return Plan::Answer(
                Reply { status: 500, body: String::from_str("Batch body serialization failed") },
            );
        },
    };
    let total: usize = entries.len();
    let deliveries = fan_out(router, forward, &entries);
    Plan::FanOut { deliveries, body, total }
}

/// Whether a post is one for several agents.
fn is_batch_post(body: &[u8]) -> (r: bool)
    ensures
        r == is_batch(body@, crate::json::json_parse(body@)),
{
    if !looks_like_batch(body) {
        return false;
    }
    match parse(body) {
        Ok(v) => match read_signatures(&v) {
            Some(entries) => {
                assert(signature_views(entries@).len() == entries@.len());
                entries.len() > 0
            },
            None => false,
        },
        Err(_) => false,
    }
}

/// What is to be done with a post.
pub fn plan_webhook(
    router: &mut ProfileRouter,
    forward: &ForwardHeaders,
    headers: &HeaderMap<HeaderValue>,
    body: &[u8],
) -> (r: Plan)
    requires
        old(router).wf(),
    ensures
        final(router).wf(),
        final(router).patterns() == old(router).patterns(),
        final(router).file() == old(router).file(),
        final(router).writing() == old(router).writing(),
        final(router).routes() == if is_batch(body@, crate::json::json_parse(body@)) {
            batch_learned(
                old(router).routes(),
                old(router).patterns(),
                crate::json::json_parse(body@),
            )
        } else {
            single_learned(
                old(router).routes(),
                old(router).patterns(),
                crate::headers::header_contents(*headers),
            )
        },
        r@ == webhook_plan(
            old(router).routes(),
            old(router).patterns(),
            forward.names(),
            crate::headers::header_contents(*headers),
            body@,
        ),
        r@ == if is_batch(body@, crate::json::json_parse(body@)) {
            batch_plan(
                old(router).routes(),
                old(router).patterns(),
                forward.names(),
                crate::json::json_parse(body@),
            )
        } else {
            single_plan(
                old(router).routes(),
                old(router).patterns(),
                forward.names(),
                crate::headers::header_contents(*headers),
            )
        },
{
    if is_batch_post(body) {
        return plan_batch(router, forward, body);
    }
    proof {
        lemma_email_header();
    }
    let email = get_text(headers, "x-amail-email");
    match route_webhook(router, email) {
        Ok(route) => match email {
            Some(m) => Plan::Forward {
                email: String::from_str(m),
                target: route.target_url,
                headers: select_headers(forward, headers),
            },
            None => Plan::Answer(
                Reply { status: 400, body: String::from_str("Missing X-Amail-Email header") },
            ),
        },
        Err(reply) => Plan::Answer(reply),
    }
}

/// The header that names the agent is a header name in small letters.
proof fn lemma_email_header()
    ensures
        is_small_name("x-amail-email"@),
{
    reveal_strlit("x-amail-email");
    assert(crate::text::lower("x-amail-email"@) =~= "x-amail-email"@);
}

// ── Laws ───────────────────────────────────────────────────────────

/// No header passes but the configured ones that the post has.
pub proof fn only_configured_headers_pass(
    names: Seq<Seq<char>>,
    contents: Map<Seq<char>, Seq<Seq<u8>>>,
    name: Seq<char>,
)
    ensures
        forwarded(names, contents).contains_key(name) <==> names.contains(name)
            && contents.contains_key(name),
        forwarded(names, contents).contains_key(name) ==> forwarded(names, contents)[name]
            == seq![contents[name][0]],
{
}

/// A delivery of a fan-out has no header but configured ones.
pub proof fn only_configured_headers_are_sent(
    names: Seq<Seq<char>>,
    email: Seq<char>,
    signature: Seq<char>,
    timestamp: Seq<char>,
    i: int,
)
    requires
        0 <= i < batch_headers(names, email, signature, timestamp).len(),
    ensures
        names.contains(batch_headers(names, email, signature, timestamp)[i].0),
    decreases names.len(),
{
    let front = batch_headers(names.drop_last(), email, signature, timestamp);
    if i < front.len() {
        only_configured_headers_are_sent(names.drop_last(), email, signature, timestamp, i);
        let name = front[i].0;
        let k = choose|k: int| 0 <= k < names.len() - 1 && names.drop_last()[k] == name;
        assert(names[k] == name);
    } else {
        assert(names[names.len() - 1] == names.last());
    }
}

/// A fan-out posts to no more agents than the list of signatures names.
pub proof fn no_more_posts_than_agents(
    routes: Map<Seq<char>, RouteView>,
    patterns: Seq<PatternView>,
    names: Seq<Seq<char>>,
    entries: Seq<SignatureView>,
)
    ensures
        deliveries_of(routes, patterns, names, entries).len() <= entries.len(),
    decreases entries.len(),
{
    if entries.len() > 0 {
        no_more_posts_than_agents(routes, patterns, names, entries.drop_last());
    }
}

/// A fan-out posts to every agent of the list that has a route.
pub proof fn every_routed_agent_is_posted_to(
    routes: Map<Seq<char>, RouteView>,
    patterns: Seq<PatternView>,
    names: Seq<Seq<char>>,
    entries: Seq<SignatureView>,
    i: int,
)
    requires
        0 <= i < entries.len(),
        delivery_of(routes, patterns, names, entries[i]) is Some,
    ensures
        deliveries_of(routes, patterns, names, entries).contains(
            delivery_of(routes, patterns, names, entries[i])->0,
        ),
    decreases entries.len(),
{
    let all = deliveries_of(routes, patterns, names, entries);
    let front = deliveries_of(routes, patterns, names, entries.drop_last());
    let d = delivery_of(routes, patterns, names, entries[i])->0;
    if i < entries.len() - 1 {
        every_routed_agent_is_posted_to(routes, patterns, names, entries.drop_last(), i);
        let k = choose|k: int| 0 <= k < front.len() && front[k] == d;
        assert(all[k] == d);
    } else {
        assert(all[all.len() - 1] == d);
    }
}

/// No more posts are taken than are sent, and as many only if each is taken.
proof fn lemma_taken_count(statuses: Seq<Option<u16>>)
    ensures
        taken_count(statuses) <= statuses.len(),
        taken_count(statuses) == statuses.len() <==> forall|i: int|
            0 <= i < statuses.len() ==> (#[trigger] statuses[i]) is Some && is_success_status(
                statuses[i]->0,
            ),
    decreases statuses.len(),
{
    if statuses.len() > 0 {
        let front = statuses.drop_last();
        lemma_taken_count(front);
        assert(forall|i: int| 0 <= i < front.len() ==> front[i] == #[trigger] statuses[i]);
        if taken_count(statuses) == statuses.len() {
            assert forall|i: int| 0 <= i < statuses.len() implies (#[trigger] statuses[i]) is Some
                && is_success_status(statuses[i]->0) by {
                if i < front.len() {
                    assert(front[i] is Some && is_success_status(front[i]->0));
                }
            }
        }
        if forall|i: int|
            0 <= i < statuses.len() ==> (#[trigger] statuses[i]) is Some && is_success_status(
                statuses[i]->0,
            ) {
            assert(statuses[statuses.len() - 1] is Some);
            assert forall|i: int| 0 <= i < front.len() implies (#[trigger] front[i]) is Some
                && is_success_status(front[i]->0) by {
                assert(front[i] == statuses[i]);
            }
        }
    }
}

/// A post for several agents is answered with full success exactly when each of
/// them has a route and takes it.
pub proof fn full_success_means_all_took(
    routes: Map<Seq<char>, RouteView>,
    patterns: Seq<PatternView>,
    names: Seq<Seq<char>>,
    entries: Seq<SignatureView>,
    statuses: Seq<Option<u16>>,
)
    requires
        statuses.len() == deliveries_of(routes, patterns, names, entries).len(),
    ensures
        batch_reply_view(taken_count(statuses), entries.len()).status == 200 <==> statuses.len()
            == entries.len() && forall|i: int|
            0 <= i < statuses.len() ==> (#[trigger] statuses[i]) is Some && is_success_status(
                statuses[i]->0,
            ),
{
    no_more_posts_than_agents(routes, patterns, names, entries);
    lemma_taken_count(statuses);
}

/// A post whose body begins with `{"signatures":` and holds a list of signatures
/// with at least one entry is sent on to several agents: to as many as the list
/// has entries, and without the list.
pub proof fn signed_list_is_fanned_out(
    routes: Map<Seq<char>, RouteView>,
    patterns: Seq<PatternView>,
    names: Seq<Seq<char>>,
    contents: Map<Seq<char>, Seq<Seq<u8>>>,
    body: Seq<u8>,
    m: Map<Seq<char>, Json>,
    list: Seq<Json>,
)
    requires
        body.len() >= 14,
        body.subrange(0, 14) == seq![
            123u8,
            34,
            115,
            105,
            103,
            110,
            97,
            116,
            117,
            114,
            101,
            115,
            34,
            58,
        ],
        crate::json::json_parse(body) == Ok::<Json, Seq<char>>(Json::Object(m)),
        m.contains_key("signatures"@),
        m["signatures"@] == Json::Array(list),
        list.len() >= 1,
    ensures
        webhook_plan(routes, patterns, names, contents, body) matches PlanView::FanOut {
            deliveries,
            body: shared,
            total,
        } && total == list.len() && shared == crate::json::json_bytes(
            Json::Object(m.remove("signatures"@)),
        ) && deliveries.len() <= total,
{
    lemma_batch_bytes();
    let entries = list.map_values(|e: Json| signature_of(e));
    assert(signatures_of(Json::Object(m)) == Some(entries));
    no_more_posts_than_agents(routes, patterns, names, entries);
}

/// The bytes that a post for several agents begins with.
proof fn lemma_batch_bytes()
    ensures
        vstd::utf8::encode_utf8("{\"signatures\":"@) == seq![
            123u8,
            34,
            115,
            105,
            103,
            110,
            97,
            116,
            117,
            114,
            101,
            115,
            34,
            58,
        ],
{
    reveal_strlit("{\"signatures\":");
    let t = "{\"signatures\":"@;
    assert(vstd::utf8::is_ascii_chars(t));
    vstd::utf8::is_ascii_chars_encode_utf8(t);
    let b = vstd::utf8::encode_utf8(t);
    assert(t.len() == 14);
    assert(b[0] == t[0] as u8 && b[1] == t[1] as u8 && b[2] == t[2] as u8 && b[3] == t[3] as u8
        && b[4] == t[4] as u8 && b[5] == t[5] as u8 && b[6] == t[6] as u8 && b[7] == t[7] as u8
        && b[8] == t[8] as u8 && b[9] == t[9] as u8 && b[10] == t[10] as u8 && b[11] == t[11] as u8
        && b[12] == t[12] as u8 && b[13] == t[13] as u8);
    assert(b =~= seq![123u8, 34, 115, 105, 103, 110, 97, 116, 117, 114, 101, 115, 34, 58]);
}

/// Any other post is for the one agent that its header names, whatever its body:
/// one that begins otherwise, that is no JSON, or that has no list of signatures
/// with an entry in it.
pub proof fn other_posts_are_for_one_agent(
    routes: Map<Seq<char>, RouteView>,
    patterns: Seq<PatternView>,
    names: Seq<Seq<char>>,
    contents: Map<Seq<char>, Seq<Seq<u8>>>,
    body: Seq<u8>,
)
    requires
        ({
            ||| body.len() < 14
            ||| body.subrange(0, 14) != seq![
                123u8,
                34,
                115,
                105,
                103,
                110,
                97,
                116,
                117,
                114,
                101,
                115,
                34,
                58,
            ]
            ||| crate::json::json_parse(body) is Err
            ||| !(crate::json::json_parse(body)->Ok_0 is Object)
            ||| !crate::json::json_parse(body)->Ok_0->Object_0.contains_key("signatures"@)
            ||| !(crate::json::json_parse(body)->Ok_0->Object_0["signatures"@] is Array)
            ||| crate::json::json_parse(body)->Ok_0->Object_0["signatures"@]->Array_0.len() == 0
        }),
    ensures
        !(webhook_plan(routes, patterns, names, contents, body) is FanOut),
        webhook_plan(routes, patterns, names, contents, body) == webhook_plan(
            routes,
            patterns,
            names,
            contents,
            Seq::empty(),
        ),
{
    lemma_batch_bytes();
    if begins_like_batch(body) {
        assert(body.subrange(0, 14) == vstd::utf8::encode_utf8("{\"signatures\":"@));
    }
    assert(!is_batch(body, crate::json::json_parse(body)));
    assert(!begins_like_batch(Seq::<u8>::empty()));
}

/// A post for one agent goes to the target of the route of the agent that the
/// header `x-amail-email` names, with the configured headers that it has; without
/// a route, and without such a header in plain text, it is refused.
pub proof fn single_post_goes_to_its_agent(
    routes: Map<Seq<char>, RouteView>,
    patterns: Seq<PatternView>,
    names: Seq<Seq<char>>,
    contents: Map<Seq<char>, Seq<Seq<u8>>>,
    email: Seq<char>,
)
    requires
        contents.contains_key("x-amail-email"@),
        contents["x-amail-email"@][0].len() == email.len(),
        forall|i: int|
            0 <= i < email.len() ==> ((#[trigger] email[i]) == '\t' || 0x20 <= email[i] as int
                <= 0x7e) && contents["x-amail-email"@][0][i] as int == email[i] as int,
    ensures
        crate::router::resolve(routes, patterns, email) matches Some(v) ==> webhook_plan(
            routes,
            patterns,
            names,
            contents,
            Seq::empty(),
        ) == (PlanView::Forward {
            email,
            target: v.target_url,
            headers: Map::new(
                |k: Seq<char>| names.contains(k) && contents.contains_key(k),
                |k: Seq<char>| seq![contents[k][0]],
            ),
        }),
        crate::router::resolve(routes, patterns, email) is None ==> webhook_plan(
            routes,
            patterns,
            names,
            contents,
            Seq::empty(),
        ) == PlanView::Answer(ReplyView { status: 502, body: "No route for "@ + email }),
{
    lemma_batch_bytes();
    assert(!begins_like_batch(Seq::<u8>::empty()));
    let b = contents["x-amail-email"@][0];
    assert forall|i: int| 0 <= i < b.len() implies (#[trigger] b[i]) == 9 || 0x20 <= b[i] < 0x7f by {
        assert(email[i] == '\t' || 0x20 <= email[i] as int <= 0x7e);
    }
    assert(crate::headers::ascii_text(b) =~= email) by {
        assert forall|i: int| 0 <= i < b.len() implies crate::headers::ascii_text(b)[i]
            == #[trigger] email[i] by {
            assert(b[i] as int == email[i] as int);
        }
    }
    assert(crate::headers::header_text(contents, "x-amail-email"@) == Some(email));
}

/// A post for one agent that names none in plain text is refused.
pub proof fn post_without_an_agent_is_refused(
    routes: Map<Seq<char>, RouteView>,
    patterns: Seq<PatternView>,
    names: Seq<Seq<char>>,
    contents: Map<Seq<char>, Seq<Seq<u8>>>,
    i: int,
)
    requires
        contents.contains_key("x-amail-email"@) ==> 0 <= i < contents["x-amail-email"@][0].len()
            && contents["x-amail-email"@][0][i] != 9 && !(0x20
            <= contents["x-amail-email"@][0][i] <= 0x7e),
    ensures
        webhook_plan(routes, patterns, names, contents, Seq::empty()) == PlanView::Answer(
            ReplyView { status: 400, body: "Missing X-Amail-Email header"@ },
        ),
{
    lemma_batch_bytes();
    assert(!begins_like_batch(Seq::<u8>::empty()));
    if contents.contains_key("x-amail-email"@) {
        let b = contents["x-amail-email"@][0];
        assert(!(b[i] == 9 || 0x20 <= b[i] < 0x7f));
    }
}

/// The entries of a list of signatures are read one by one: the email, the
/// signature and the timestamp under those names, where they are texts. Without
/// an email there is none; a missing signature or timestamp is empty.
pub proof fn entries_of_the_list_are_read(m: Map<Seq<char>, Json>, list: Seq<Json>, i: int)
    requires
        m.contains_key("signatures"@),
        m["signatures"@] == Json::Array(list),
        0 <= i < list.len(),
    ensures
        signatures_of(Json::Object(m)) is Some,
        signatures_of(Json::Object(m))->0.len() == list.len(),
        ({
            let s = signatures_of(Json::Object(m))->0[i];
            match list[i] {
                Json::Object(e) => {
                    &&& s.email == if e.contains_key("email"@) && e["email"@] is Text {
                        Some(e["email"@]->Text_0)
                    } else {
                        None
                    }
                    &&& s.signature == if e.contains_key("signature"@) && e["signature"@] is Text {
                        e["signature"@]->Text_0
                    } else {
                        Seq::empty()
                    }
                    &&& s.timestamp == if e.contains_key("timestamp"@) && e["timestamp"@] is Text {
                        e["timestamp"@]->Text_0
                    } else {
                        Seq::empty()
                    }
                },
                _ => s.email is None && s.signature.len() == 0 && s.timestamp.len() == 0,
            }
        }),
{
}

/// The entries of a list are taken one after the other: the posts for a later
/// part come behind those for an earlier one.
pub proof fn posts_come_in_the_order_of_the_list(
    routes: Map<Seq<char>, RouteView>,
    patterns: Seq<PatternView>,
    names: Seq<Seq<char>>,
    a: Seq<SignatureView>,
    b: Seq<SignatureView>,
)
    ensures
        deliveries_of(routes, patterns, names, a + b) == deliveries_of(routes, patterns, names, a)
            + deliveries_of(routes, patterns, names, b),
    decreases b.len(),
{
    let x = deliveries_of(routes, patterns, names, a);
    if b.len() == 0 {
        assert(a + b =~= a);
        assert(x + deliveries_of(routes, patterns, names, b) =~= x);
    } else {
        posts_come_in_the_order_of_the_list(routes, patterns, names, a, b.drop_last());
        assert((a + b).drop_last() =~= a + b.drop_last());
        assert((a + b).last() == b.last());
        assert(deliveries_of(routes, patterns, names, a + b) =~= x + deliveries_of(
            routes,
            patterns,
            names,
            b,
        ));
    }
}

/// An entry of a list gives one post, to the target of the route of its agent,
/// if it names an agent with a route, and none otherwise.
pub proof fn one_entry_gives_one_post(
    routes: Map<Seq<char>, RouteView>,
    patterns: Seq<PatternView>,
    names: Seq<Seq<char>>,
    email: Option<Seq<char>>,
    signature: Seq<char>,
    timestamp: Seq<char>,
)
    ensures
        ({
            let d = deliveries_of(
                routes,
                patterns,
                names,
                seq![SignatureView { email, signature, timestamp }],
            );
            match email {
                Some(m) => match crate::router::resolve(routes, patterns, m) {
                    Some(v) => d.len() == 1 && d[0].email == m && d[0].target == v.target_url
                        && d[0].headers == batch_headers(names, m, signature, timestamp),
                    None => d.len() == 0,
                },
                None => d.len() == 0,
            }
        }),
{
    let all = seq![SignatureView { email, signature, timestamp }];
    assert(all.drop_last() =~= Seq::<SignatureView>::empty());
    assert(deliveries_of(routes, patterns, names, all.drop_last()).len() == 0);
}

/// The headers of a post of a fan-out come in the order of the configured names.
pub proof fn headers_come_in_the_order_of_the_names(
    a: Seq<Seq<char>>,
    b: Seq<Seq<char>>,
    email: Seq<char>,
    signature: Seq<char>,
    timestamp: Seq<char>,
)
    ensures
        batch_headers(a + b, email, signature, timestamp) == batch_headers(
            a,
            email,
            signature,
            timestamp,
        ) + batch_headers(b, email, signature, timestamp),
    decreases b.len(),
{
    let x = batch_headers(a, email, signature, timestamp);
    if b.len() == 0 {
        assert(a + b =~= a);
        assert(x + batch_headers(b, email, signature, timestamp) =~= x);
    } else {
        headers_come_in_the_order_of_the_names(a, b.drop_last(), email, signature, timestamp);
        assert((a + b).drop_last() =~= a + b.drop_last());
        assert((a + b).last() == b.last());
        assert(batch_headers(a + b, email, signature, timestamp) =~= x + batch_headers(
            b,
            email,
            signature,
            timestamp,
        ));
    }
}

/// The four names that a post of a fan-out knows carry the email, the signature
/// and the timestamp of its entry and the type of the body; other names carry
/// nothing.
pub proof fn known_names_carry_the_entry(
    name: Seq<char>,
    email: Seq<char>,
    signature: Seq<char>,
    timestamp: Seq<char>,
)
    ensures
        batch_headers(seq!["x-amail-email"@], email, signature, timestamp) == seq![
            ("x-amail-email"@, email),
        ],
        batch_headers(seq!["x-webhook-signature"@], email, signature, timestamp) == seq![
            ("x-webhook-signature"@, signature),
        ],
        batch_headers(seq!["x-mailrelay-timestamp"@], email, signature, timestamp) == seq![
            ("x-mailrelay-timestamp"@, timestamp),
        ],
        batch_headers(seq!["content-type"@], email, signature, timestamp) == seq![
            ("content-type"@, "application/json"@),
        ],
        name != "x-amail-email"@ && name != "x-webhook-signature"@ && name
            != "x-mailrelay-timestamp"@ && name != "content-type"@ ==> batch_headers(
            seq![name],
            email,
            signature,
            timestamp,
        ).len() == 0,
{
    reveal_strlit("x-amail-email");
    reveal_strlit("x-webhook-signature");
    reveal_strlit("x-mailrelay-timestamp");
    reveal_strlit("content-type");
    assert("x-amail-email"@.len() == 13);
    assert("x-webhook-signature"@.len() == 19);
    assert("x-mailrelay-timestamp"@.len() == 21);
    assert("content-type"@.len() == 12);
    lemma_one_header("x-amail-email"@, email, signature, timestamp);
    lemma_one_header("x-webhook-signature"@, email, signature, timestamp);
    lemma_one_header("x-mailrelay-timestamp"@, email, signature, timestamp);
    lemma_one_header("content-type"@, email, signature, timestamp);
    lemma_one_header(name, email, signature, timestamp);
}

/// One name carries what stands for it.
proof fn lemma_one_header(
    name: Seq<char>,
    email: Seq<char>,
    signature: Seq<char>,
    timestamp: Seq<char>,
)
    ensures
        batch_headers(seq![name], email, signature, timestamp) == match batch_header(
            name,
            email,
            signature,
            timestamp,
        ) {
            Some(h) => seq![h],
            None => Seq::empty(),
        },
{
    let one = seq![name];
    assert(one.drop_last() =~= Seq::<Seq<char>>::empty());
    assert(batch_headers(one.drop_last(), email, signature, timestamp) =~= Seq::<
        (Seq<char>, Seq<char>),
    >::empty());
    if let Some(h) = batch_header(name, email, signature, timestamp) {
        assert(batch_headers(one, email, signature, timestamp) =~= seq![h]);
    }
}

/// The configured names are taken one after the other, in small letters; what is
/// no header name is left out.
pub proof fn configured_names_are_taken(a: Seq<Seq<char>>, b: Seq<Seq<char>>, name: Seq<char>)
    ensures
        header_names(a + b) == header_names(a) + header_names(b),
        crate::headers::is_header_name(name) ==> header_names(seq![name]) == seq![
            crate::text::lower(name),
        ],
        !crate::headers::is_header_name(name) ==> header_names(seq![name]).len() == 0,
    decreases b.len(),
{
    let one = seq![name];
    assert(one.drop_last() =~= Seq::<Seq<char>>::empty());
    assert(header_names(one.drop_last()) =~= Seq::<Seq<char>>::empty());
    if crate::headers::is_header_name(name) {
        assert(header_names(one) =~= seq![crate::text::lower(name)]);
    }
    if b.len() == 0 {
        assert(a + b =~= a);
        assert(header_names(a) + header_names(b) =~= header_names(a));
    } else {
        configured_names_are_taken(a, b.drop_last(), name);
        assert((a + b).drop_last() =~= a + b.drop_last());
        assert((a + b).last() == b.last());
        assert(header_names(a + b) =~= header_names(a) + header_names(b));
    }
}

/// A body that is no JSON, and one without a list of signatures, is no post for
/// several agents.
pub proof fn unreadable_batches_are_refused(
    routes: Map<Seq<char>, RouteView>,
    patterns: Seq<PatternView>,
    names: Seq<Seq<char>>,
    error: Seq<char>,
    j: Json,
)
    requires
        !(j is Object) || !j->Object_0.contains_key("signatures"@) || !(j->Object_0["signatures"@]
            is Array),
    ensures
        batch_plan(routes, patterns, names, Err(error)) == PlanView::Answer(
            ReplyView { status: 400, body: "Invalid batch JSON: "@ + error },
        ),
        batch_plan(routes, patterns, names, Ok(j)) == PlanView::Answer(
            ReplyView { status: 400, body: "Missing 'signatures' array"@ },
        ),
{
}

/// The posts that were taken are those that were answered with a status from 200
/// to 299; they are counted, and the count and the number of agents stand in the
/// answer. It is 200 where they are as many, and 207 otherwise.
pub proof fn taken_posts_are_counted(statuses: Seq<Option<u16>>, total: nat)
    ensures
        ({
            let taken = statuses.filter(|s: Option<u16>| s matches Some(n) && 200 <= n <= 299).len();
            let r = batch_reply_view(taken_count(statuses), total);
            &&& r.status == if taken == total {
                200u16
            } else {
                207
            }
            &&& r.body == crate::text::decimal(taken) + "/"@ + crate::text::decimal(total)
                + " delivered"@
        }),
    decreases statuses.len(),
{
    lemma_taken_is_filter(statuses);
}

/// Counting what was taken is counting what passes the filter.
proof fn lemma_taken_is_filter(statuses: Seq<Option<u16>>)
    ensures
        taken_count(statuses) == statuses.filter(
            |s: Option<u16>| s matches Some(n) && 200 <= n <= 299,
        ).len(),
    decreases statuses.len(),
{
    reveal(Seq::filter);
    if statuses.len() > 0 {
        lemma_taken_is_filter(statuses.drop_last());
    }
}

/// A post is taken exactly when it is answered with a status from 200 to 299.
pub proof fn success_is_two_hundred_something(status: u16)
    ensures
        is_success_status(status) <==> status / 100 == 2,
{
}

/// What a lookup finds is kept under the email, and nothing else changes.
pub proof fn found_routes_are_kept(
    routes: Map<Seq<char>, RouteView>,
    patterns: Seq<PatternView>,
    email: Seq<char>,
    other: Seq<char>,
)
    ensures
        ({
            let after = learned(routes, patterns, email);
            &&& crate::router::resolve(routes, patterns, email) matches Some(v)
                ==> after.contains_key(email) && after[email] == v
            &&& crate::router::resolve(routes, patterns, email) is None ==> !after.contains_key(
                email,
            )
            &&& other != email ==> after.contains_key(other) == routes.contains_key(other) && (
            after.contains_key(other) ==> after[other] == routes[other])
        }),
{
}

/// A post for several agents keeps what its lookups find: afterwards each agent
/// of the list that has a route has one of its own.
pub proof fn routes_of_the_list_are_kept(
    routes: Map<Seq<char>, RouteView>,
    patterns: Seq<PatternView>,
    entries: Seq<SignatureView>,
    email: Seq<char>,
)
    ensures
        ({
            let after = learned_all(routes, patterns, entries);
            &&& after.contains_key(email) <==> routes.contains_key(email) || (
            crate::router::resolve(routes, patterns, email) is Some && exists|i: int|
                0 <= i < entries.len() && (#[trigger] entries[i]).email == Some(email))
            &&& after.contains_key(email) ==> Some(after[email]) == crate::router::resolve(
                routes,
                patterns,
                email,
            )
        }),
    decreases entries.len(),
{
    if entries.len() > 0 {
        let front = entries.drop_last();
        let before = learned_all(routes, patterns, front);
        routes_of_the_list_are_kept(routes, patterns, front, email);
        lookups_change_no_answer(routes, patterns, front, email);
        if entries.last().email == Some(email) {
            assert(entries[entries.len() - 1].email == Some(email));
        }
        if exists|i: int| 0 <= i < front.len() && (#[trigger] front[i]).email == Some(email) {
            let i = choose|i: int| 0 <= i < front.len() && (#[trigger] front[i]).email == Some(email);
            assert(entries[i] == front[i]);
        }
        if exists|i: int| 0 <= i < entries.len() && (#[trigger] entries[i]).email == Some(email) {
            let i = choose|i: int|
                0 <= i < entries.len() && (#[trigger] entries[i]).email == Some(email);
            if i < front.len() {
                assert(front[i] == entries[i]);
            }
        }
        if let Some(m) = entries.last().email {
            lookups_change_no_answer(routes, patterns, front, m);
        }
    }
}

/// After a post for several agents each agent of its list that has a route has
/// one of its own, and no other email is touched; a post that cannot be read
/// touches none.
pub proof fn batch_keeps_what_its_lookups_find(
    routes: Map<Seq<char>, RouteView>,
    patterns: Seq<PatternView>,
    m: Map<Seq<char>, Json>,
    list: Seq<Json>,
    i: int,
    e: Map<Seq<char>, Json>,
    email: Seq<char>,
    error: Seq<char>,
)
    requires
        m.contains_key("signatures"@),
        m["signatures"@] == Json::Array(list),
        0 <= i < list.len(),
        list[i] == Json::Object(e),
        e.contains_key("email"@),
        e["email"@] == Json::Text(email),
    ensures
        ({
            let after = batch_learned(routes, patterns, Ok(Json::Object(m)));
            &&& crate::router::resolve(routes, patterns, email) matches Some(v)
                ==> after.contains_key(email) && after[email] == v
            &&& crate::router::resolve(routes, patterns, email) is None ==> !after.contains_key(
                email,
            )
            &&& forall|other: Seq<char>| #[trigger]
                routes.contains_key(other) ==> after.contains_key(other) && after[other]
                    == routes[other]
            &&& batch_learned(routes, patterns, Err(error)) == routes
            &&& batch_learned(routes, patterns, Ok(Json::Object(m.remove("signatures"@)))) == routes
        }),
{
    let entries = list.map_values(|x: Json| signature_of(x));
    assert(signatures_of(Json::Object(m)) == Some(entries));
    assert(entries[i].email == Some(email));
    routes_of_the_list_are_kept(routes, patterns, entries, email);
    let after = learned_all(routes, patterns, entries);
    assert forall|other: Seq<char>| #[trigger]
        routes.contains_key(other) implies after.contains_key(other) && after[other]
        == routes[other] by {
        routes_of_the_list_are_kept(routes, patterns, entries, other);
    }
}

/// After a post for one agent that agent has a route of its own if it has one at
/// all, and no other email is touched.
pub proof fn single_post_keeps_what_its_lookup_finds(
    routes: Map<Seq<char>, RouteView>,
    patterns: Seq<PatternView>,
    contents: Map<Seq<char>, Seq<Seq<u8>>>,
    email: Seq<char>,
    other: Seq<char>,
)
    requires
        other != email,
    ensures
        ({
            let after = single_learned(routes, patterns, contents);
            &&& crate::headers::header_text(contents, "x-amail-email"@) == Some(email) ==> (
            crate::router::resolve(routes, patterns, email) matches Some(v) ==> after.contains_key(
                email,
            ) && after[email] == v) && after.contains_key(other) == routes.contains_key(other) && (
            after.contains_key(other) ==> after[other] == routes[other])
            &&& crate::headers::header_text(contents, "x-amail-email"@) is None ==> after == routes
        }),
{
}

/// What is said of answers, entries, posts and plans is what they hold.
pub proof fn plans_say_what_they_hold(reply: Reply, s: Signature, d: Delivery, plan: Plan, i: int)
    ensures
        reply@.status == reply.status && reply@.body == reply.body@,
        s@.email is Some <==> s.email is Some,
        s.email is Some ==> s@.email == Some(s.email->0@),
        s@.signature == s.signature@ && s@.timestamp == s.timestamp@,
        d@.email == d.email@ && d@.target == d.target@,
        d@.headers.len() == d.headers@.len(),
        0 <= i < d.headers@.len() ==> d@.headers[i] == (d.headers@[i].0@, d.headers@[i].1@),
        match (plan, plan@) {
            (Plan::Answer(r), PlanView::Answer(v)) => v == r@,
            (
                Plan::Forward { email, target, headers },
                PlanView::Forward { email: m, target: t, headers: h },
            ) => m == email@ && t == target@ && h == crate::headers::header_contents(headers),
            (
                Plan::FanOut { deliveries, body, total },
                PlanView::FanOut { deliveries: posts, body: bytes, total: n },
            ) => posts.len() == deliveries@.len() && bytes == body@ && n == total && (0 <= i
                < deliveries@.len() ==> posts[i] == deliveries@[i]@),
            _ => false,
        },
{
}

} // verus!
