//! Pull mode: poll the relay, forward what is pending, acknowledge it.
//!
//! The requests themselves are left to the client around this library. What to
//! ask for, what a reply says, where each delivery goes, what is acknowledged
//! and how long to wait is decided here.

use serde_json::Value;
use std::collections::HashMap;
use vstd::prelude::*;

use crate::json::{as_array, as_i64, as_str, as_u64, copy, get, text_members, to_bytes, Json};
use crate::router::{PatternView, ProfileRouter, RouteView};
use crate::text::{rsplit_once, same_text, trim_trailing};
use crate::webhook::is_success;

verus! {

broadcast use {vstd::seq::group_seq_axioms, vstd::std_specs::hash::group_hash_axioms};

// ── What is pending ────────────────────────────────────────────────

/// A pending delivery.
#[derive(Debug)]
pub struct BatchDelivery {
    pub id: i64,
    pub email: String,
    pub headers: Value,
}

/// What a pending delivery says.
#[verifier::ext_equal]
pub struct PendingView {
    pub id: i64,
    pub email: Seq<char>,
    pub headers: Json,
}

impl View for BatchDelivery {
    type V = PendingView;

    open spec fn view(&self) -> PendingView {
        PendingView {
            id: self.id,
            email: self.email@,
            headers: crate::json::json_of(self.headers),
        }
    }
}

/// Deliveries that share a body.
#[derive(Debug)]
pub struct PendingBatch {
    pub body: Value,
    pub deliveries: Vec<BatchDelivery>,
}

/// What a batch says.
#[verifier::ext_equal]
pub struct BatchView {
    pub body: Json,
    pub deliveries: Seq<PendingView>,
}

/// What deliveries say.
pub open spec fn pending_views(v: Seq<BatchDelivery>) -> Seq<PendingView> {
    v.map_values(|d: BatchDelivery| d@)
}

impl View for PendingBatch {
    type V = BatchView;

    open spec fn view(&self) -> BatchView {
        BatchView {
            body: crate::json::json_of(self.body),
            deliveries: pending_views(self.deliveries@),
        }
    }
}

/// What batches say.
pub open spec fn batch_views(v: Seq<PendingBatch>) -> Seq<BatchView> {
    v.map_values(|b: PendingBatch| b@)
}

/// The field of a record: a member of an object, or the element at its place
/// in an array that has one element for each field.
pub open spec fn field(j: Json, name: Seq<char>, place: int, count: nat) -> Option<Json> {
    match j {
        Json::Array(a) => if a.len() == count {
            Some(a[place])
        } else {
            None
        },
        _ => crate::json::member(j, name),
    }
}

/// The delivery that a record stands for.
pub open spec fn delivery_of(j: Json) -> Option<PendingView> {
    match (field(j, "id"@, 0, 3), field(j, "email"@, 1, 3), field(j, "headers"@, 2, 3)) {
        (Some(id), Some(email), Some(headers)) => match (
            crate::json::integer_between(id, i64::MIN as int, i64::MAX as int),
            crate::json::text(email),
        ) {
            (Some(n), Some(t)) => Some(PendingView { id: n as i64, email: t, headers }),
            _ => None,
        },
        _ => None,
    }
}

/// The deliveries that records stand for, if each of them is one.
pub open spec fn all_deliveries(s: Seq<Json>) -> Option<Seq<PendingView>>
    decreases s.len(),
{
    if s.len() == 0 {
        Some(Seq::empty())
    } else {
        match (all_deliveries(s.drop_last()), delivery_of(s.last())) {
            (Some(front), Some(d)) => Some(front.push(d)),
            _ => None,
        }
    }
}

/// The batch that a record stands for.
pub open spec fn batch_of(j: Json) -> Option<BatchView> {
    match (field(j, "body"@, 0, 2), field(j, "deliveries"@, 1, 2)) {
        (Some(body), Some(list)) => match crate::json::elements(list) {
            Some(s) => match all_deliveries(s) {
                Some(deliveries) => Some(BatchView { body, deliveries }),
                None => None,
            },
            None => None,
        },
        _ => None,
    }
}

/// The batches that records stand for, if each of them is one.
pub open spec fn all_batches(s: Seq<Json>) -> Option<Seq<BatchView>>
    decreases s.len(),
{
    if s.len() == 0 {
        Some(Seq::empty())
    } else {
        match (all_batches(s.drop_last()), batch_of(s.last())) {
            (Some(front), Some(b)) => Some(front.push(b)),
            _ => None,
        }
    }
}

/// The batches of a reply. A reply without a proper list has none.
pub open spec fn batches_of(reply: Json) -> Seq<BatchView> {
    match crate::json::member(reply, "batches"@) {
        Some(list) => match crate::json::elements(list) {
            Some(s) => match all_batches(s) {
                Some(b) => b,
                None => Seq::empty(),
            },
            None => Seq::empty(),
        },
        None => Seq::empty(),
    }
}

/// A record that is no delivery spoils the list.
proof fn lemma_deliveries_fail(s: Seq<Json>, i: int)
    requires
        0 <= i < s.len(),
        delivery_of(s[i]) is None,
    ensures
        all_deliveries(s) is None,
    decreases s.len(),
{
    if i < s.len() - 1 {
        lemma_deliveries_fail(s.drop_last(), i);
    }
}

/// A record that is no batch spoils the list.
proof fn lemma_batches_fail(s: Seq<Json>, i: int)
    requires
        0 <= i < s.len(),
        batch_of(s[i]) is None,
    ensures
        all_batches(s) is None,
    decreases s.len(),
{
    if i < s.len() - 1 {
        lemma_batches_fail(s.drop_last(), i);
    }
}

/// The field of a record.
fn get_field<'a>(v: &'a Value, name: &str, place: usize, count: usize) -> (r: Option<&'a Value>)
    requires
        place < count,
    ensures
        match r {
            Some(x) => field(crate::json::json_of(*v), name@, place as int, count as nat) == Some(
                crate::json::json_of(*x),
            ),
            None => field(crate::json::json_of(*v), name@, place as int, count as nat) is None,
        },
{
    match as_array(v) {
        Some(a) => {
            assert(crate::json::jsons(a@).len() == a@.len());
            if a.len() == count {
                assert(crate::json::jsons(a@)[place as int] == crate::json::json_of(
                    a@[place as int],
                ));
                Some(&a[place])
            } else {
                None
            }
        },
        None => get(v, name),
    }
}

impl BatchDelivery {
    /// The delivery that a record stands for.
    pub fn from_json(v: &Value) -> (r: Option<Self>)
        ensures
            match r {
                Some(d) => delivery_of(crate::json::json_of(*v)) == Some(d@),
                None => delivery_of(crate::json::json_of(*v)) is None,
            },
    {
        match (
            get_field(v, "id", 0, 3),
            get_field(v, "email", 1, 3),
            get_field(v, "headers", 2, 3),
        ) {
            (Some(id), Some(email), Some(headers)) => match (as_i64(id), as_str(email)) {
                (Some(n), Some(t)) => Some(
                    BatchDelivery {
                        id: n,
                        email: String::from_str(t),
                        headers: copy(headers),
                    },
                ),
                _ => None,
            },
            _ => None,
        }
    }
}

impl PendingBatch {
    /// The batch that a record stands for.
    pub fn from_json(v: &Value) -> (r: Option<Self>)
        ensures
            match r {
                Some(b) => batch_of(crate::json::json_of(*v)) == Some(b@),
                None => batch_of(crate::json::json_of(*v)) is None,
            },
    {
        let (body, list) = match (
            get_field(v, "body", 0, 2),
            get_field(v, "deliveries", 1, 2),
        ) {
            (Some(body), Some(list)) => match as_array(list) {
                Some(a) => (body, a),
                None => {
                    return None;
                },
            },
            _ => {
                return None;
            },
        };
        let ghost s = crate::json::jsons(list@);
        let mut deliveries: Vec<BatchDelivery> = Vec::new();
        let mut i: usize = 0;
        assert(s.take(0) =~= Seq::<Json>::empty());
        assert(pending_views(deliveries@) =~= Seq::<PendingView>::empty());
        while i < list.len()
            invariant
                i <= list@.len(),
                s == crate::json::jsons(list@),
                all_deliveries(s.take(i as int)) == Some(pending_views(deliveries@)),
                batch_of(crate::json::json_of(*v)) is Some ==> all_deliveries(s) is Some,
            decreases list@.len() - i,
        {
            assert(s[i as int] == crate::json::json_of(list@[i as int]));
            assert(s.take(i + 1).drop_last() =~= s.take(i as int));
            match BatchDelivery::from_json(&list[i]) {
                Some(d) => {
                    let ghost before = deliveries@;
                    deliveries.push(d);
                    assert(pending_views(deliveries@) =~= pending_views(before).push(d@));
                },
                None => {
                    proof {
                        lemma_deliveries_fail(s, i as int);
                    }
                    return None;
                },
            }
            i += 1;
        }
        assert(s.take(i as int) =~= s);
        Some(PendingBatch { body: copy(body), deliveries })
    }

    /// The body that all deliveries of the batch share.
    pub fn body_bytes(&self) -> (r: Option<Vec<u8>>)
        ensures
            r is Some && r->0@ == crate::json::json_bytes(self@.body),
    {
        to_bytes(&self.body)
    }
}

/// The batches of a reply.
pub fn read_batches(reply: &Value) -> (r: Vec<PendingBatch>)
    ensures
        batch_views(r@) == batches_of(crate::json::json_of(*reply)),
{
    let none: Vec<PendingBatch> = Vec::new();
    assert(batch_views(none@) =~= Seq::<BatchView>::empty());
    let list = match get(reply, "batches") {
        Some(x) => match as_array(x) {
            Some(a) => a,
            None => {
                return none;
            },
        },
        None => {
            return none;
        },
    };
    let ghost s = crate::json::jsons(list@);
    let mut out: Vec<PendingBatch> = Vec::new();
    let mut i: usize = 0;
    assert(s.take(0) =~= Seq::<Json>::empty());
    assert(batch_views(out@) =~= Seq::<BatchView>::empty());
    while i < list.len()
        invariant
            i <= list@.len(),
            s == crate::json::jsons(list@),
            batch_views(none@) == Seq::<BatchView>::empty(),
            all_batches(s.take(i as int)) == Some(batch_views(out@)),
            all_batches(s) is None ==> batches_of(crate::json::json_of(*reply)) == Seq::<
                BatchView,
            >::empty(),
        decreases list@.len() - i,
    {
        assert(s[i as int] == crate::json::json_of(list@[i as int]));
        assert(s.take(i + 1).drop_last() =~= s.take(i as int));
        match PendingBatch::from_json(&list[i]) {
            Some(b) => {
                let ghost before = out@;
                out.push(b);
                assert(batch_views(out@) =~= batch_views(before).push(b@));
            },
            None => {
                proof {
                    lemma_batches_fail(s, i as int);
                }
                return none;
            },
        }
        i += 1;
    }
    assert(s.take(i as int) =~= s);
    out
}

/// How many deliveries the relay says it has taken as done, if it says so.
pub fn read_acked(reply: &Value) -> (r: Option<u64>)
    ensures
        ({
            let acked = match crate::json::member(crate::json::json_of(*reply), "acked"@) {
                Some(x) => crate::json::integer_between(x, 0, u64::MAX as int),
                None => None,
            };
            match r {
                Some(n) => acked == Some(n as int),
                None => acked is None,
            }
        }),
{
    match get(reply, "acked") {
        Some(x) => as_u64(x),
        None => None,
    }
}

// ── What to ask for ────────────────────────────────────────────────

/// The URL that pending deliveries are asked for at.
pub open spec fn pending_url_of(amail_url: Seq<char>) -> Seq<char> {
    crate::text::without_trailing(amail_url, '/') + "/api/v1/admin/pending"@
}

/// The URL that deliveries are acknowledged at.
pub open spec fn ack_url_of(amail_url: Seq<char>) -> Seq<char> {
    crate::text::without_trailing(amail_url, '/') + "/api/v1/admin/pending/ack"@
}

/// The URL that pending deliveries are asked for at.
pub fn pending_url(amail_url: &str) -> (r: String)
    ensures
        r@ == pending_url_of(amail_url@),
{
    let mut url = String::from_str(trim_trailing(amail_url, '/'));
    url.append("/api/v1/admin/pending");
    url
}

/// The URL that deliveries are acknowledged at.
pub fn ack_url(amail_url: &str) -> (r: String)
    ensures
        r@ == ack_url_of(amail_url@),
{
    let mut url = String::from_str(trim_trailing(amail_url, '/'));
    url.append("/api/v1/admin/pending/ack");
    url
}

/// The domain of an email: what stands behind the last at sign.
pub open spec fn domain_of(email: Seq<char>) -> Seq<char> {
    match crate::text::split_last(email, "@"@) {
        Some((_, d)) => d,
        None => email,
    }
}

/// The domains of the emails, each once, in the order in which they come up.
pub open spec fn domains_of(emails: Seq<Seq<char>>) -> Seq<Seq<char>>
    decreases emails.len(),
{
    if emails.len() == 0 {
        Seq::empty()
    } else {
        let front = domains_of(emails.drop_last());
        let d = domain_of(emails.last());
        if front.contains(d) {
            front
        } else {
            front.push(d)
        }
    }
}

/// The texts that are in a list.
fn has_text(list: &Vec<String>, t: &str) -> (r: bool)
    ensures
        r == crate::text::texts(list@).contains(t@),
{
    let ghost all = crate::text::texts(list@);
    let mut i: usize = 0;
    while i < list.len()
        invariant
            i <= list@.len(),
            all == crate::text::texts(list@),
            forall|k: int| 0 <= k < i ==> (#[trigger] all[k]) != t@,
        decreases list@.len() - i,
    {
        assert(all[i as int] == list@[i as int]@);
        if same_text(list[i].as_str(), t) {
            return true;
        }
        i += 1;
    }
    false
}

/// The domains of the emails, each once.
pub fn domains(emails: &Vec<String>) -> (r: Vec<String>)
    ensures
        crate::text::texts(r@) == domains_of(crate::text::texts(emails@)),
{
    let ghost t = crate::text::texts(emails@);
    let mut out: Vec<String> = Vec::new();
    let mut i: usize = 0;
    assert(t.take(0) =~= Seq::<Seq<char>>::empty());
    assert(crate::text::texts(out@) =~= Seq::<Seq<char>>::empty());
    while i < emails.len()
        invariant
            i <= emails@.len(),
            t == crate::text::texts(emails@),
            crate::text::texts(out@) == domains_of(t.take(i as int)),
        decreases emails@.len() - i,
    {
        assert(t.take(i + 1).drop_last() =~= t.take(i as int));
        assert(t.take(i + 1).last() == emails@[i as int]@);
        let email = emails[i].as_str();
        let domain = match rsplit_once(email, "@") {
            Some((_user, d)) => d,
            None => email,
        };
        if !has_text(&out, domain) {
            let ghost before = out@;
            let d = String::from_str(domain);
            out.push(d);
            assert(crate::text::texts(out@) =~= crate::text::texts(before).push(d@));
        }
        i += 1;
    }
    assert(t.take(i as int) =~= t);
    out
}

/// A request for pending deliveries.
#[derive(Debug)]
pub struct PendingQuery {
    pub url: String,
    pub limit: u32,
    pub filter: Vec<String>,
}

/// The request for what is pending for the known agents; none as long as no
/// agent is known.
pub fn pending_query(router: &ProfileRouter, amail_url: &str) -> (r: Option<PendingQuery>)
    ensures
        ({
            let emails = router.listing().map_values(|v: RouteView| v.email);
            match r {
                Some(q) => emails.len() > 0 && q.url@ == pending_url_of(amail_url@) && q.limit == 50
                    && crate::text::texts(q.filter@) == domains_of(emails),
                None => emails.len() == 0,
            }
        }),
{
    let emails = router.list_emails();
    assert(crate::text::texts(emails@).len() == emails@.len());
    if emails.len() == 0 {
        return None;
    }
    Some(PendingQuery { url: pending_url(amail_url), limit: 50, filter: domains(&emails) })
}

// ── What was forwarded ─────────────────────────────────────────────

/// How long a forwarded delivery is remembered: two hours, in nanoseconds.
pub const SEEN_TTL: u64 = 7_200_000_000_000;

/// What was forwarded at `t` is still remembered at `now`.
pub open spec fn is_live(t: u64, now: u64) -> bool {
    now - t < SEEN_TTL
}

/// The deliveries that are still remembered.
pub open spec fn remembered(seen: Map<i64, u64>, now: u64) -> Map<i64, u64> {
    Map::new(|id: i64| seen.contains_key(id) && is_live(seen[id], now), |id: i64| seen[id])
}

/// The delivery was forwarded and is still remembered.
pub open spec fn was_forwarded(seen: Map<i64, u64>, id: i64, now: u64) -> bool {
    seen.contains_key(id) && is_live(seen[id], now)
}

/// The deliveries that were forwarded, and when.
pub struct DedupCache {
    seen: HashMap<i64, u64>,
}

impl View for DedupCache {
    type V = Map<i64, u64>;

    closed spec fn view(&self) -> Map<i64, u64> {
        self.seen@
    }
}

impl DedupCache {
    /// A cache that remembers nothing.
    pub fn new() -> (r: Self)
        ensures
            r@ == Map::<i64, u64>::empty(),
    {
        DedupCache { seen: HashMap::new() }
    }

    /// The number of deliveries that the cache holds.
    pub fn len(&self) -> (r: usize)
        ensures
            r == self@.len(),
    {
        self.seen.len()
    }

    /// Whether a delivery was forwarded and is still remembered.
    pub fn contains(&self, id: i64, now: u64) -> (r: bool)
        ensures
            r == was_forwarded(self@, id, now),
    {
        match self.seen.get(&id) {
            Some(t) => now < *t || now - *t < SEEN_TTL,
            None => false,
        }
    }

    /// Notes that a delivery was forwarded now.
    pub fn insert(&mut self, id: i64, now: u64)
        ensures
            final(self)@ == old(self)@.insert(id, now),
    {
        self.seen.insert(id, now);
    }

    /// Drops what is no longer remembered.
    pub fn cleanup(&mut self, now: u64)
        ensures
            final(self)@ == remembered(old(self)@, now),
    {
        let ghost all = self.seen@;
        let mut kept: HashMap<i64, u64> = HashMap::new();
        for (id, t) in it: self.seen.iter()
            invariant
                all == self.seen@,
                forall|id: i64| #[trigger]
                    kept@.contains_key(id) ==> all.contains_key(id) && is_live(all[id], now)
                        && kept@[id] == all[id],
                forall|k: int|
                    0 <= k < it.index() && is_live(*it.seq()[k].1, now) ==> kept@.contains_key(
                        *(#[trigger] it.seq()[k]).0,
                    ),
        {
            if now < *t || now - *t < SEEN_TTL {
                kept.insert(*id, *t);
            }
        }
        proof {
            assert(kept@ =~= remembered(all, now));
        }
        self.seen = kept;
    }
}

// ── Where a delivery goes ──────────────────────────────────────────

/// What is to be done with a pending delivery.
#[derive(Debug)]
pub enum Triage {
    /// It was forwarded before: acknowledge it.
    AckOnly,
    /// Its agent has no route: leave it pending.
    NoRoute,
    /// Its headers are no texts: leave it pending.
    BadHeaders,
    /// Post it with these headers.
    Forward { target: String, headers: Vec<(String, String)> },
}

/// What a decision on a pending delivery says.
pub enum TriageView {
    AckOnly,
    NoRoute,
    BadHeaders,
    Forward { target: Seq<char>, headers: Seq<(Seq<char>, Seq<char>)> },
}

impl View for Triage {
    type V = TriageView;

    open spec fn view(&self) -> TriageView {
        match *self {
            Triage::AckOnly => TriageView::AckOnly,
            Triage::NoRoute => TriageView::NoRoute,
            Triage::BadHeaders => TriageView::BadHeaders,
            Triage::Forward { target, headers } => TriageView::Forward {
                target: target@,
                headers: crate::json::pair_views(headers@),
            },
        }
    }
}

/// What is to be done with a delivery: one that was forwarded is acknowledged;
/// any other is posted to its agent, if that has a route, with its own headers
/// and the type of the body.
pub open spec fn decision(
    seen: Map<i64, u64>,
    routes: Map<Seq<char>, RouteView>,
    patterns: Seq<PatternView>,
    id: i64,
    email: Seq<char>,
    headers: Option<Seq<(Seq<char>, Seq<char>)>>,
    now: u64,
) -> TriageView {
    if was_forwarded(seen, id, now) {
        TriageView::AckOnly
    } else {
        match crate::router::resolve(routes, patterns, email) {
            Some(v) => match headers {
                Some(h) => TriageView::Forward {
                    target: v.target_url,
                    headers: h.push(("content-type"@, "application/json"@)),
                },
                None => TriageView::BadHeaders,
            },
            None => TriageView::NoRoute,
        }
    }
}

/// What is to be done with a delivery as the relay gave it.
pub open spec fn triage_of(
    seen: Map<i64, u64>,
    routes: Map<Seq<char>, RouteView>,
    patterns: Seq<PatternView>,
    d: PendingView,
    now: u64,
) -> TriageView {
    decision(
        seen,
        routes,
        patterns,
        d.id,
        d.email,
        crate::json::text_entries(d.headers),
        now,
    )
}

/// What is known of deliveries, and which are to be acknowledged, after an agent
/// took one.
pub open spec fn after_forwarded(
    seen: Map<i64, u64>,
    acks: Seq<i64>,
    id: i64,
    now: u64,
) -> (Map<i64, u64>, Seq<i64>) {
    (seen.insert(id, now), acks.push(id))
}

/// What happens to one delivery of a poll: it is considered at some time, with
/// the routes of that time, and an agent may take it, some time after that.
pub struct PollStep {
    pub d: PendingView,
    pub routes: Map<Seq<char>, RouteView>,
    pub patterns: Seq<PatternView>,
    pub considered_at: u64,
    /// When a post of it was answered with success.
    pub taken_at: Option<u64>,
}

/// What is to be done with the delivery of a step.
pub open spec fn step_triage(seen: Map<i64, u64>, step: PollStep) -> TriageView {
    triage_of(seen, step.routes, step.patterns, step.d, step.considered_at)
}

/// What is known of deliveries, and which are to be acknowledged, after a step.
pub open spec fn poll_step(seen: Map<i64, u64>, acks: Seq<i64>, step: PollStep) -> (
    Map<i64, u64>,
    Seq<i64>,
) {
    match (step_triage(seen, step), step.taken_at) {
        (TriageView::AckOnly, _) => (seen, acks.push(step.d.id)),
        (TriageView::Forward { .. }, Some(t)) => after_forwarded(seen, acks, step.d.id, t),
        _ => (seen, acks),
    }
}

/// What is known of deliveries, and which are to be acknowledged, after the steps
/// of a poll.
pub open spec fn poll_run(seen: Map<i64, u64>, steps: Seq<PollStep>) -> (Map<i64, u64>, Seq<i64>)
    decreases steps.len(),
{
    if steps.len() == 0 {
        (seen, Seq::empty())
    } else {
        let (known, acks) = poll_run(seen, steps.drop_last());
        poll_step(known, acks, steps.last())
    }
}

// ── How long to wait ───────────────────────────────────────────────

/// The longest wait after failures, in seconds.
pub const MAX_BACKOFF: u64 = 300;

/// The wait after so many failures in a row: the interval, doubled for each of
/// the first six failures, but no more than five minutes.
pub open spec fn backoff(poll_interval: nat, failures: nat) -> nat {
    let doublings = if failures < 6 {
        failures
    } else {
        6
    };
    let wait = poll_interval * vstd::arithmetic::power2::pow2(doublings);
    if wait < MAX_BACKOFF {
        wait
    } else {
        MAX_BACKOFF as nat
    }
}

/// The wait after a poll: the interval after a success, and more after failures.
pub open spec fn wait_after(poll_interval: nat, failures: nat) -> nat {
    if failures == 0 {
        poll_interval
    } else {
        backoff(poll_interval, failures)
    }
}

/// The failures in a row at the end of these polls, of which `true` is one that
/// succeeded.
pub open spec fn failures_in_a_row(polls: Seq<bool>) -> nat
    decreases polls.len(),
{
    if polls.len() == 0 || polls.last() {
        0
    } else {
        failures_in_a_row(polls.drop_last()) + 1
    }
}

/// The wait after so many failures in a row, in seconds.
pub fn backoff_secs(poll_interval: u64, failures: u32) -> (r: u64)
    ensures
        r == backoff(poll_interval as nat, failures as nat),
{
    let doublings: u32 = if failures < 6 {
        failures
    } else {
        6
    };
    let factor: u64 = if doublings == 0 {
        1
    } else if doublings == 1 {
        2
    } else if doublings == 2 {
        4
    } else if doublings == 3 {
        8
    } else if doublings == 4 {
        16
    } else if doublings == 5 {
        32
    } else {
        64
    };
    proof {
        vstd::arithmetic::power2::lemma2_to64();
        assert(factor == vstd::arithmetic::power2::pow2(doublings as nat));
    }
    if poll_interval >= MAX_BACKOFF {
        assert(poll_interval * factor >= MAX_BACKOFF) by (nonlinear_arith)
            requires
                poll_interval >= MAX_BACKOFF,
                factor >= 1,
        ;
        MAX_BACKOFF
    } else {
        assert(poll_interval * factor <= 300 * 64) by (nonlinear_arith)
            requires
                poll_interval < 300,
                1 <= factor <= 64,
        ;
        let wait: u64 = poll_interval * factor;
        if wait < MAX_BACKOFF {
            wait
        } else {
            MAX_BACKOFF
        }
    }
}

// ── The session ────────────────────────────────────────────────────

/// The cycles between two warnings about acknowledgements that fail.
pub const ACK_FAIL_WARN_THRESHOLD: u32 = 10;

/// A request that acknowledges deliveries.
#[derive(Debug)]
pub struct AckRequest {
    pub url: String,
    pub ids: Vec<i64>,
}

/// What the pull loop keeps from one step to the next.
pub struct PullSession {
    seen: DedupCache,
    ack_ids: Vec<i64>,
    emails: Vec<String>,
    failures: u32,
    ack_failures: u32,
}

impl PullSession {
    /// What is acknowledged was forwarded.
    pub open spec fn wf(&self) -> bool {
        forall|i: int|
            0 <= i < self.acks().len() ==> self.seen().contains_key(#[trigger] self.acks()[i])
    }

    /// The deliveries that were forwarded, and when.
    pub closed spec fn seen(&self) -> Map<i64, u64> {
        self.seen@
    }

    /// The deliveries to acknowledge at the end of the cycle.
    pub closed spec fn acks(&self) -> Seq<i64> {
        self.ack_ids@
    }

    /// The agents that those deliveries are for.
    pub closed spec fn acked_emails(&self) -> Seq<Seq<char>> {
        crate::text::texts(self.emails@)
    }

    /// How often in a row the relay could not be asked.
    pub closed spec fn fetch_failures(&self) -> u32 {
        self.failures
    }

    /// How often in a row acknowledging failed.
    pub closed spec fn ack_failures(&self) -> u32 {
        self.ack_failures
    }

    /// The counts of failures are as in `other`.
    pub open spec fn same_counts(&self, other: &Self) -> bool {
        &&& self.fetch_failures() == other.fetch_failures()
        &&& self.ack_failures() == other.ack_failures()
    }

    /// The deliveries are as in `other`.
    pub open spec fn same_deliveries(&self, other: &Self) -> bool {
        &&& self.seen() == other.seen()
        &&& self.acks() == other.acks()
        &&& self.acked_emails() == other.acked_emails()
    }

    /// A session at its start.
    pub fn new() -> (r: Self)
        ensures
            r.wf(),
            r.seen() == Map::<i64, u64>::empty(),
            r.acks() == Seq::<i64>::empty(),
            r.acked_emails() == Seq::<Seq<char>>::empty(),
            r.fetch_failures() == 0,
            r.ack_failures() == 0,
    {
        let r = PullSession {
            seen: DedupCache::new(),
            ack_ids: Vec::new(),
            emails: Vec::new(),
            failures: 0,
            ack_failures: 0,
        };
        assert(r.acked_emails() =~= Seq::<Seq<char>>::empty());
        r
    }

    /// Begins a cycle: what is no longer remembered is dropped.
    pub fn begin_cycle(&mut self, now: u64)
        ensures
            final(self).wf(),
            final(self).seen() == remembered(old(self).seen(), now),
            final(self).acks() == Seq::<i64>::empty(),
            final(self).acked_emails() == Seq::<Seq<char>>::empty(),
            final(self).same_counts(old(self)),
    {
        self.seen.cleanup(now);
        self.ack_ids = Vec::new();
        self.emails = Vec::new();
        assert(self.acked_emails() =~= Seq::<Seq<char>>::empty());
    }

    /// The relay answered.
    pub fn fetched(&mut self)
        ensures
            final(self).fetch_failures() == 0,
            final(self).ack_failures() == old(self).ack_failures(),
            final(self).same_deliveries(old(self)),
    {
        self.failures = 0;
    }

    /// The relay could not be asked. Gives the seconds to wait.
    pub fn fetch_failed(&mut self, poll_interval: u64) -> (r: u64)
        requires
            old(self).fetch_failures() < u32::MAX,
        ensures
            final(self).fetch_failures() == old(self).fetch_failures() + 1,
            r == backoff(poll_interval as nat, final(self).fetch_failures() as nat),
            final(self).ack_failures() == old(self).ack_failures(),
            final(self).same_deliveries(old(self)),
    {
        self.failures = self.failures + 1;
        backoff_secs(poll_interval, self.failures)
    }

    /// The seconds to wait before the relay is asked again.
    pub fn next_wait(&self, poll_interval: u64) -> (r: u64)
        ensures
            r == wait_after(poll_interval as nat, self.fetch_failures() as nat),
    {
        if self.failures == 0 {
            poll_interval
        } else {
            backoff_secs(poll_interval, self.failures)
        }
    }

    /// Notes a delivery to acknowledge.
    fn acknowledge(&mut self, id: i64, email: &str)
        requires
            old(self).wf(),
            old(self).seen().contains_key(id),
        ensures
            final(self).wf(),
            final(self).seen() == old(self).seen(),
            final(self).acks() == old(self).acks().push(id),
            final(self).acked_emails() == old(self).acked_emails().push(email@),
            final(self).same_counts(old(self)),
    {
        let ghost before = self.emails@;
        let e = String::from_str(email);
        self.ack_ids.push(id);
        self.emails.push(e);
        assert(crate::text::texts(self.emails@) =~= crate::text::texts(before).push(e@));
        assert forall|i: int| 0 <= i < self.acks().len() implies self.seen().contains_key(
            #[trigger] self.acks()[i],
        ) by {
            if i < old(self).acks().len() {
                assert(self.acks()[i] == old(self).acks()[i]);
            }
        }
    }

    /// What is to be done with the delivery `id` for the agent `email`, whose
    /// headers are `None` where they are no texts. One that was forwarded before
    /// is noted for acknowledgement right away.
    pub fn decide(
        &mut self,
        router: &mut ProfileRouter,
        id: i64,
        email: &str,
        headers: Option<Vec<(String, String)>>,
        now: u64,
    ) -> (r: Triage)
        requires
            old(self).wf(),
            old(router).wf(),
        ensures
            final(self).wf(),
            final(self).seen() == old(self).seen(),
            final(self).same_counts(old(self)),
            r@ == decision(
                old(self).seen(),
                old(router).routes(),
                old(router).patterns(),
                id,
                email@,
                match headers {
                    Some(h) => Some(crate::json::pair_views(h@)),
                    None => None,
                },
                now,
            ),
            r is AckOnly ==> final(self).acks() == old(self).acks().push(id)
                && final(self).acked_emails() == old(self).acked_emails().push(email@),
            !(r is AckOnly) ==> final(self).same_deliveries(old(self)),
            final(router).wf(),
            final(router).patterns() == old(router).patterns(),
            final(router).file() == old(router).file(),
            final(router).writing() == old(router).writing(),
            final(router).routes() == if was_forwarded(old(self).seen(), id, now) {
                old(router).routes()
            } else {
                crate::webhook::learned(old(router).routes(), old(router).patterns(), email@)
            },
    {
        if self.seen.contains(id, now) {
            self.acknowledge(id, email);
            return Triage::AckOnly;
        }
        let route = match router.lookup(email) {
            Some(route) => route,
            None => {
                return Triage::NoRoute;
            },
        };
        match headers {
            Some(h) => {
                let mut headers = h;
                let ghost front = crate::json::pair_views(headers@);
                let last = (
                    String::from_str("content-type"),
                    String::from_str("application/json"),
                );
                headers.push(last);
                assert(crate::json::pair_views(headers@) =~= front.push((last.0@, last.1@)));
                Triage::Forward { target: route.target_url, headers }
            },
            None => Triage::BadHeaders,
        }
    }

    /// What is to be done with a delivery.
    pub fn consider(&mut self, router: &mut ProfileRouter, d: &BatchDelivery, now: u64) -> (r: Triage)
        requires
            old(self).wf(),
            old(router).wf(),
        ensures
            final(self).wf(),
            final(self).seen() == old(self).seen(),
            final(self).same_counts(old(self)),
            r@ == triage_of(
                old(self).seen(),
                old(router).routes(),
                old(router).patterns(),
                d@,
                now,
            ),
            (final(self).seen(), final(self).acks()) == poll_step(
                old(self).seen(),
                old(self).acks(),
                (PollStep {
                    d: d@,
                    routes: old(router).routes(),
                    patterns: old(router).patterns(),
                    considered_at: now,
                    taken_at: None,
                }),
            ),
            r is AckOnly ==> final(self).acks() == old(self).acks().push(d@.id)
                && final(self).acked_emails() == old(self).acked_emails().push(d@.email),
            !(r is AckOnly) ==> final(self).same_deliveries(old(self)),
            final(router).wf(),
            final(router).patterns() == old(router).patterns(),
            final(router).file() == old(router).file(),
            final(router).writing() == old(router).writing(),
            final(router).routes() == if was_forwarded(old(self).seen(), d@.id, now) {
                old(router).routes()
            } else {
                crate::webhook::learned(old(router).routes(), old(router).patterns(), d@.email)
            },
    {
        let headers = text_members(copy(&d.headers));
        proof {
            if headers is Some {
                crate::json::lemma_lists_once(crate::json::pair_views(headers->0@), d@.headers);
            }
        }
        self.decide(router, d.id, d.email.as_str(), headers, now)
    }

    /// The agent took a delivery.
    pub fn forwarded(&mut self, d: &BatchDelivery, now: u64)
        requires
            old(self).wf(),
        ensures
            final(self).wf(),
            (final(self).seen(), final(self).acks()) == after_forwarded(
                old(self).seen(),
                old(self).acks(),
                d@.id,
                now,
            ),
            final(self).acked_emails() == old(self).acked_emails().push(d@.email),
            final(self).same_counts(old(self)),
    {
        self.seen.insert(d.id, now);
        assert(self.acks() == old(self).acks());
        assert forall|i: int| 0 <= i < self.acks().len() implies self.seen().contains_key(
            #[trigger] self.acks()[i],
        ) by {
            assert(old(self).seen().contains_key(old(self).acks()[i]));
        }
        self.acknowledge(d.id, d.email.as_str());
    }

    /// A post of the delivery was answered with this status. Gives whether the
    /// agent took it; if not, it stays pending.
    pub fn answered(&mut self, d: &BatchDelivery, status: u16, now: u64) -> (r: bool)
        requires
            old(self).wf(),
        ensures
            final(self).wf(),
            final(self).same_counts(old(self)),
            r == crate::webhook::is_success_status(status),
            r ==> (final(self).seen(), final(self).acks()) == after_forwarded(
                old(self).seen(),
                old(self).acks(),
                d@.id,
                now,
            ) && final(self).acked_emails() == old(self).acked_emails().push(d@.email),
            !r ==> final(self).same_deliveries(old(self)),
    {
        if is_success(status) {
            self.forwarded(d, now);
            true
        } else {
            false
        }
    }

    /// The deliveries to acknowledge at the end of the cycle. Each of them was
    /// forwarded.
    pub fn ack_ids(&self) -> (r: &Vec<i64>)
        requires
            self.wf(),
        ensures
            r@ == self.acks(),
            forall|i: int| 0 <= i < r@.len() ==> self.seen().contains_key(#[trigger] r@[i]),
    {
        assert forall|i: int| 0 <= i < self.ack_ids@.len() implies self.seen().contains_key(
            #[trigger] self.ack_ids@[i],
        ) by {
            assert(self.seen().contains_key(self.acks()[i]));
        }
        &self.ack_ids
    }

    /// The request that acknowledges what the poll forwarded; none if that is
    /// nothing.
    pub fn ack_request(&self, amail_url: &str) -> (r: Option<AckRequest>)
        ensures
            match r {
                Some(q) => self.acks().len() > 0 && q.url@ == ack_url_of(amail_url@) && q.ids@
                    == self.acks(),
                None => self.acks().len() == 0,
            },
    {
        if self.ack_ids.len() == 0 {
            return None;
        }
        let ids = self.ack_ids.clone();
        assert(ids@ =~= self.ack_ids@);
        Some(AckRequest { url: ack_url(amail_url), ids })
    }

    /// The agents that those deliveries are for.
    pub fn ack_emails(&self) -> (r: &Vec<String>)
        ensures
            crate::text::texts(r@) == self.acked_emails(),
    {
        &self.emails
    }

    /// The relay took the acknowledgement.
    pub fn ack_succeeded(&mut self)
        ensures
            final(self).ack_failures() == 0,
            final(self).fetch_failures() == old(self).fetch_failures(),
            final(self).same_deliveries(old(self)),
    {
        self.ack_failures = 0;
    }

    /// The relay did not take the acknowledgement. Gives the number of failures
    /// in a row if it is time to warn about them.
    pub fn ack_failed(&mut self) -> (r: Option<u32>)
        requires
            old(self).ack_failures() < u32::MAX,
        ensures
            final(self).ack_failures() == old(self).ack_failures() + 1,
            r == if final(self).ack_failures() % ACK_FAIL_WARN_THRESHOLD == 0 {
                Some(final(self).ack_failures())
            } else {
                None
            },
            final(self).fetch_failures() == old(self).fetch_failures(),
            final(self).same_deliveries(old(self)),
    {
        self.ack_failures = self.ack_failures + 1;
        if self.ack_failures >= ACK_FAIL_WARN_THRESHOLD && self.ack_failures
            % ACK_FAIL_WARN_THRESHOLD == 0 {
            Some(self.ack_failures)
        } else {
            None
        }
    }

    /// How often in a row the relay could not be asked.
    pub fn fetch_failure_count(&self) -> (r: u32)
        ensures
            r == self.fetch_failures(),
    {
        self.failures
    }

    /// How often in a row acknowledging failed.
    pub fn ack_failure_count(&self) -> (r: u32)
        ensures
            r == self.ack_failures(),
    {
        self.ack_failures
    }
}

// ── Laws ───────────────────────────────────────────────────────────

/// What was forwarded is not posted again for two hours, but acknowledged, no
/// matter how often the cache is cleaned up meanwhile.
pub proof fn forwarded_is_not_posted_again(
    seen: Map<i64, u64>,
    routes: Map<Seq<char>, RouteView>,
    patterns: Seq<PatternView>,
    d: PendingView,
    forwarded_at: u64,
    cleaned_at: u64,
    now: u64,
)
    requires
        cleaned_at <= now,
        now - forwarded_at < SEEN_TTL,
    ensures
        triage_of(
            remembered(seen.insert(d.id, forwarded_at), cleaned_at),
            routes,
            patterns,
            d,
            now,
        ) == TriageView::AckOnly,
        remembered(seen.insert(d.id, forwarded_at), cleaned_at)[d.id] == forwarded_at,
{
}

/// Cleaning up forgets nothing that is still remembered, so it changes no decision.
pub proof fn cleanup_changes_no_decision(
    seen: Map<i64, u64>,
    routes: Map<Seq<char>, RouteView>,
    patterns: Seq<PatternView>,
    d: PendingView,
    cleaned_at: u64,
    now: u64,
)
    requires
        cleaned_at <= now,
    ensures
        triage_of(remembered(seen, cleaned_at), routes, patterns, d, now) == triage_of(
            seen,
            routes,
            patterns,
            d,
            now,
        ),
{
}

/// A delivery that was not forwarded is never acknowledged: it is posted, or it
/// stays pending.
pub proof fn unforwarded_is_not_acknowledged(
    seen: Map<i64, u64>,
    routes: Map<Seq<char>, RouteView>,
    patterns: Seq<PatternView>,
    d: PendingView,
    now: u64,
)
    requires
        !seen.contains_key(d.id),
    ensures
        !(triage_of(seen, routes, patterns, d, now) is AckOnly),
        crate::router::resolve(routes, patterns, d.email) is None ==> triage_of(
            seen,
            routes,
            patterns,
            d,
            now,
        ) == TriageView::NoRoute,
{
}

/// A delivery that is to be posted is done with when the agent has taken it.
pub proof fn taking_completes_the_step(
    seen: Map<i64, u64>,
    acks: Seq<i64>,
    step: PollStep,
    taken_at: u64,
)
    requires
        step_triage(seen, step) is Forward,
        step.taken_at is None,
    ensures
        poll_step(seen, acks, step) == (seen, acks),
        poll_step(seen, acks, (PollStep { taken_at: Some(taken_at), ..step })) == after_forwarded(
            seen,
            acks,
            step.d.id,
            taken_at,
        ),
{
}

/// The clock does not go back: what is known is from before the poll, and each
/// step from after the one before it.
pub open spec fn in_time(seen: Map<i64, u64>, steps: Seq<PollStep>) -> bool {
    &&& forall|id: i64, k: int|
        #![trigger seen.contains_key(id), steps[k]]
        seen.contains_key(id) && 0 <= k < steps.len() ==> seen[id] <= steps[k].considered_at
    &&& forall|k: int|
        0 <= k < steps.len() && (#[trigger] steps[k]).taken_at is Some ==> steps[k].considered_at
            <= steps[k].taken_at->0
    &&& forall|j: int, k: int|
        0 <= j < k < steps.len() ==> (#[trigger] steps[j]).considered_at <= (
        #[trigger] steps[k]).considered_at && (steps[j].taken_at is Some ==> steps[j].taken_at->0
            <= steps[k].considered_at)
}

/// The delivery of the `k`th step is posted in this poll, and the agent takes it.
pub open spec fn is_taken(seen: Map<i64, u64>, steps: Seq<PollStep>, k: int) -> bool {
    &&& step_triage(poll_run(seen, steps.take(k)).0, steps[k]) is Forward
    &&& steps[k].taken_at is Some
}

/// The delivery was taken less than two hours before `now`: before the poll, or
/// in one of its first `n` steps.
pub open spec fn was_taken(
    seen: Map<i64, u64>,
    steps: Seq<PollStep>,
    n: int,
    id: i64,
    now: u64,
) -> bool {
    ||| was_forwarded(seen, id, now)
    ||| exists|j: int|
        0 <= j < n && is_taken(seen, steps, j) && (#[trigger] steps[j]).d.id == id && is_live(
            steps[j].taken_at->0,
            now,
        )
}

/// The delivery of the `k`th step is taken in it, or was less than two hours ago.
pub open spec fn is_delivered(seen: Map<i64, u64>, steps: Seq<PollStep>, k: int) -> bool {
    ||| is_taken(seen, steps, k)
    ||| was_taken(seen, steps, k, steps[k].d.id, steps[k].considered_at)
}

/// The deliveries of the first `n` steps that are taken or were less than two
/// hours ago, in their order.
pub open spec fn delivered_ids(seen: Map<i64, u64>, steps: Seq<PollStep>, n: nat) -> Seq<i64>
    decreases n,
{
    if n == 0 {
        Seq::empty()
    } else {
        let front = delivered_ids(seen, steps, (n - 1) as nat);
        if is_delivered(seen, steps, n - 1) {
            front.push(steps[n - 1].d.id)
        } else {
            front
        }
    }
}

/// What is remembered after the first `n` steps is what was taken before the poll
/// or in one of them.
proof fn lemma_poll_seen(seen: Map<i64, u64>, steps: Seq<PollStep>, n: int, id: i64, now: u64)
    requires
        in_time(seen, steps),
        0 <= n <= steps.len(),
    ensures
        was_forwarded(poll_run(seen, steps.take(n)).0, id, now) == was_taken(
            seen,
            steps,
            n,
            id,
            now,
        ),
    decreases n,
{
    if n == 0 {
        assert(steps.take(0) =~= Seq::<PollStep>::empty());
    } else {
        let m = n - 1;
        lemma_poll_seen(seen, steps, m, id, now);
        assert(steps.take(n).drop_last() =~= steps.take(m));
        assert(steps.take(n).last() == steps[m]);
        let before = poll_run(seen, steps.take(m)).0;
        let known = poll_run(seen, steps.take(n)).0;
        if is_taken(seen, steps, m) && steps[m].d.id == id {
            let t = steps[m].taken_at->0;
            assert(known[id] == t);
            if was_taken(seen, steps, n, id, now) {
                if was_forwarded(seen, id, now) {
                    assert(seen.contains_key(id));
                    assert(seen[id] <= steps[m].considered_at);
                } else {
                    let j = choose|j: int|
                        0 <= j < n && is_taken(seen, steps, j) && (#[trigger] steps[j]).d.id == id
                            && is_live(steps[j].taken_at->0, now);
                    if j < m {
                        assert(steps[j].taken_at->0 <= steps[m].considered_at);
                    }
                }
                assert(is_live(t, now));
            }
            if is_live(t, now) {
                assert(was_taken(seen, steps, n, id, now));
            }
        } else {
            assert(known.contains_key(id) == before.contains_key(id));
            assert(before.contains_key(id) ==> known[id] == before[id]);
            if was_taken(seen, steps, n, id, now) && !was_forwarded(seen, id, now) {
                let j = choose|j: int|
                    0 <= j < n && is_taken(seen, steps, j) && (#[trigger] steps[j]).d.id == id
                        && is_live(steps[j].taken_at->0, now);
                assert(j < m);
                assert(was_taken(seen, steps, m, id, now));
            }
            if was_taken(seen, steps, m, id, now) && !was_forwarded(seen, id, now) {
                let j = choose|j: int|
                    0 <= j < m && is_taken(seen, steps, j) && (#[trigger] steps[j]).d.id == id
                        && is_live(steps[j].taken_at->0, now);
                assert(was_taken(seen, steps, n, id, now));
            }
        }
    }
}

/// After the first `n` steps of a poll, what is to be acknowledged is what they
/// delivered.
proof fn lemma_poll_acks(seen: Map<i64, u64>, steps: Seq<PollStep>, n: nat)
    requires
        in_time(seen, steps),
        n <= steps.len(),
    ensures
        poll_run(seen, steps.take(n as int)).1 == delivered_ids(seen, steps, n),
    decreases n,
{
    if n == 0 {
        assert(steps.take(0) =~= Seq::<PollStep>::empty());
    } else {
        let m = (n - 1) as nat;
        lemma_poll_acks(seen, steps, m);
        assert(steps.take(n as int).drop_last() =~= steps.take(m as int));
        assert(steps.take(n as int).last() == steps[m as int]);
        lemma_poll_seen(
            seen,
            steps,
            m as int,
            steps[m as int].d.id,
            steps[m as int].considered_at,
        );
    }
}

/// A poll acknowledges, in their order, exactly the deliveries that an agent
/// takes in it or took less than two hours before.
pub proof fn poll_acknowledges_what_was_taken(seen: Map<i64, u64>, steps: Seq<PollStep>)
    requires
        in_time(seen, steps),
    ensures
        poll_run(seen, steps).1 == delivered_ids(seen, steps, steps.len()),
{
    lemma_poll_acks(seen, steps, steps.len());
    assert(steps.take(steps.len() as int) =~= steps);
}

/// A delivery that nobody took before is left pending, if its agent has no route,
/// if its headers are no texts, or if it is not taken.
pub proof fn undelivered_stays_pending(seen: Map<i64, u64>, steps: Seq<PollStep>, k: int)
    requires
        0 <= k < steps.len(),
        !was_taken(seen, steps, k, steps[k].d.id, steps[k].considered_at),
        crate::router::resolve(steps[k].routes, steps[k].patterns, steps[k].d.email) is None
            || !crate::json::is_text_map(steps[k].d.headers) || steps[k].taken_at is None,
    ensures
        !is_delivered(seen, steps, k),
{
}

/// After failures the wait is no longer than five minutes and grows with them,
/// and one success restores the interval.
pub proof fn wait_follows_the_failures(poll_interval: nat, polls: Seq<bool>, more: nat)
    ensures
        polls.len() > 0 && polls.last() ==> wait_after(poll_interval, failures_in_a_row(polls))
            == poll_interval,
        failures_in_a_row(polls) > 0 ==> wait_after(poll_interval, failures_in_a_row(polls))
            <= MAX_BACKOFF,
        0 < failures_in_a_row(polls) <= more ==> wait_after(
            poll_interval,
            failures_in_a_row(polls),
        ) <= wait_after(poll_interval, more),
{
    if 0 < failures_in_a_row(polls) <= more {
        backoff_grows(poll_interval, failures_in_a_row(polls), more);
    }
}

/// The wait never exceeds five minutes, and is never shorter than the interval
/// unless that is longer.
pub proof fn backoff_is_bounded(poll_interval: nat, failures: nat)
    ensures
        backoff(poll_interval, failures) <= MAX_BACKOFF,
        poll_interval <= MAX_BACKOFF ==> poll_interval <= backoff(poll_interval, failures),
        backoff(poll_interval, 0) == if poll_interval < MAX_BACKOFF {
            poll_interval
        } else {
            MAX_BACKOFF as nat
        },
{
    let doublings = if failures < 6 {
        failures
    } else {
        6
    };
    vstd::arithmetic::power2::lemma2_to64();
    vstd::arithmetic::power2::lemma_pow2_pos(doublings);
    let p = vstd::arithmetic::power2::pow2(doublings);
    assert(poll_interval <= poll_interval * p) by (nonlinear_arith)
        requires
            p >= 1,
    ;
    let one = vstd::arithmetic::power2::pow2(0);
    assert(poll_interval * one == poll_interval) by (nonlinear_arith)
        requires
            one == 1,
    ;
}

/// More failures never make the wait shorter.
pub proof fn backoff_grows(poll_interval: nat, fewer: nat, more: nat)
    requires
        fewer <= more,
    ensures
        backoff(poll_interval, fewer) <= backoff(poll_interval, more),
{
    let a = if fewer < 6 {
        fewer
    } else {
        6
    };
    let b = if more < 6 {
        more
    } else {
        6
    };
    if a < b {
        vstd::arithmetic::power2::lemma_pow2_strictly_increases(a, b);
    }
    let p = vstd::arithmetic::power2::pow2(a);
    let q = vstd::arithmetic::power2::pow2(b);
    assert(poll_interval * p <= poll_interval * q) by (nonlinear_arith)
        requires
            p <= q,
    ;
}

/// The filter names the domain of every email, and none twice.
pub proof fn filter_names_every_domain(emails: Seq<Seq<char>>)
    ensures
        domains_of(emails).no_duplicates(),
        forall|i: int|
            0 <= i < emails.len() ==> domains_of(emails).contains(domain_of(#[trigger] emails[i])),
        forall|k: int|
            0 <= k < domains_of(emails).len() ==> exists|i: int|
                0 <= i < emails.len() && domain_of(#[trigger] emails[i]) == (
                #[trigger] domains_of(emails)[k]),
    decreases emails.len(),
{
    if emails.len() > 0 {
        let short = emails.drop_last();
        let front = domains_of(short);
        let all = domains_of(emails);
        filter_names_every_domain(short);
        assert forall|i: int| 0 <= i < emails.len() implies all.contains(
            domain_of(#[trigger] emails[i]),
        ) by {
            let d = domain_of(emails[i]);
            if i < emails.len() - 1 {
                assert(short[i] == emails[i]);
                let k = choose|k: int| 0 <= k < front.len() && front[k] == d;
                assert(all[k] == d);
            } else if !front.contains(d) {
                assert(all[all.len() - 1] == d);
            }
        }
        assert forall|k: int| 0 <= k < all.len() implies exists|i: int|
            0 <= i < emails.len() && domain_of(#[trigger] emails[i]) == (#[trigger] all[k]) by {
            if k < front.len() {
                let i = choose|i: int|
                    0 <= i < short.len() && domain_of(#[trigger] short[i]) == front[k];
                assert(emails[i] == short[i]);
                assert(domain_of(emails[i]) == all[k]);
            } else {
                assert(domain_of(emails[emails.len() - 1]) == all[k]);
            }
        }
    }
}

/// The domain of an email is all that stands behind its last at sign; a text
/// without one is its own domain.
pub proof fn domain_stands_behind_the_last_at_sign(user: Seq<char>, domain: Seq<char>)
    requires
        !domain.contains('@'),
    ensures
        domain_of(user + "@"@ + domain) == domain,
        domain_of(domain) == domain,
{
    reveal_strlit("@");
    assert("@"@ =~= seq!['@']);
    crate::text::split_at_a_character(user, '@', domain);
    crate::text::split_at_no_character(domain, '@');
}

/// The filter holds, for every agent, all that stands behind the last at sign of
/// its email.
pub proof fn filter_asks_for_every_agent(
    emails: Seq<Seq<char>>,
    i: int,
    user: Seq<char>,
    domain: Seq<char>,
)
    requires
        0 <= i < emails.len(),
        !domain.contains('@'),
        emails[i] == user + "@"@ + domain || emails[i] == domain,
    ensures
        domains_of(emails).contains(domain),
{
    domain_stands_behind_the_last_at_sign(user, domain);
    filter_names_every_domain(emails);
    assert(domains_of(emails).contains(domain_of(emails[i])));
}

/// The filter holds nothing but what stands behind the last at sign of an email,
/// and emails without one.
pub proof fn filter_asks_for_nothing_else(emails: Seq<Seq<char>>, k: int)
    requires
        0 <= k < domains_of(emails).len(),
    ensures
        !domains_of(emails)[k].contains('@'),
        exists|i: int, user: Seq<char>|
            0 <= i < emails.len() && (emails[i] == #[trigger] (user + "@"@ + domains_of(emails)[k])
                || (#[trigger] emails[i]) == domains_of(emails)[k]),
{
    reveal_strlit("@");
    assert("@"@ =~= seq!['@']);
    filter_names_every_domain(emails);
    let d = domains_of(emails)[k];
    let i = choose|i: int| 0 <= i < emails.len() && domain_of(#[trigger] emails[i]) == d;
    let e = emails[i];
    crate::text::split_at_no_character(e, '@');
    if e.contains('@') {
        let at = choose|at: int| 0 <= at < e.len() && e[at] == '@';
        crate::text::lemma_occurs_char(e, '@', at);
        crate::text::lemma_stands_last(e, "@"@, at);
        let l = choose|l: int| at <= l && #[trigger] crate::text::last_at(e, "@"@, l);
        crate::text::lemma_split_last(e, "@"@, l);
        crate::text::lemma_occurs_char(e, '@', l);
        let user = e.subrange(0, l);
        assert(e =~= user + "@"@ + d);
        assert forall|j: int| 0 <= j < d.len() implies d[j] != '@' by {
            crate::text::lemma_occurs_char(e, '@', l + 1 + j);
            assert(d[j] == e[l + 1 + j]);
        }
        assert(emails[i] == user + "@"@ + d);
    } else {
        let user = Seq::<char>::empty();
        assert((user + "@"@ + d).len() >= 0);
    }
}

/// The filter asks for the domains in the order in which they first come.
pub proof fn filter_keeps_the_order(a: Seq<Seq<char>>, b: Seq<Seq<char>>)
    ensures
        domains_of(a + b).len() >= domains_of(a).len(),
        domains_of(a + b).take(domains_of(a).len() as int) == domains_of(a),
    decreases b.len(),
{
    let x = domains_of(a);
    if b.len() == 0 {
        assert(a + b =~= a);
        assert(x.take(x.len() as int) =~= x);
    } else {
        filter_keeps_the_order(a, b.drop_last());
        assert((a + b).drop_last() =~= a + b.drop_last());
        let y = domains_of(a + b.drop_last());
        let z = domains_of(a + b);
        assert(z.take(x.len() as int) =~= y.take(x.len() as int));
    }
}

/// The relay is asked and told below its URL, however many slashes that ends
/// with.
pub proof fn relay_is_asked_below_its_url(url: Seq<char>, n: nat)
    requires
        url.len() > 0 ==> url.last() != '/',
    ensures
        pending_url_of(url + Seq::new(n, |i: int| '/')) == url + "/api/v1/admin/pending"@,
        ack_url_of(url + Seq::new(n, |i: int| '/')) == url + "/api/v1/admin/pending/ack"@,
{
    crate::text::rows_at_the_ends_go(n, '/', url);
}

/// The integer of a row of digits, with or without a minus sign.
proof fn lemma_integer(n: nat)
    ensures
        crate::json::integer(crate::text::decimal(n)) == Some(n as int),
        crate::json::integer(seq!['-'] + crate::text::decimal(n)) == Some(-(n as int)),
{
    let d = crate::text::decimal(n);
    crate::text::lemma_decimal(n);
    crate::text::spelling_is_short(n);
    assert('0' <= d[0] <= '9');
    let m = seq!['-'] + d;
    assert(m.subrange(1, m.len() as int) =~= d);
}

/// A pending delivery is read from an object with its id, its email and its
/// headers.
pub proof fn pending_delivery_is_read(m: Map<Seq<char>, Json>, n: nat, email: Seq<char>)
    requires
        m.contains_key("id"@),
        m.contains_key("email"@),
        m.contains_key("headers"@),
        m["email"@] == Json::Text(email),
    ensures
        m["id"@] == Json::Number(crate::text::decimal(n)) && n <= 0x7fff_ffff_ffff_ffff
            ==> delivery_of(Json::Object(m)) == Some(
            PendingView { id: n as i64, email, headers: m["headers"@] },
        ),
        m["id"@] == Json::Number(seq!['-'] + crate::text::decimal(n)) && n <= 0x8000_0000_0000_0000
            ==> delivery_of(Json::Object(m)) == Some(
            PendingView { id: (-(n as int)) as i64, email, headers: m["headers"@] },
        ),
        m["id"@] == Json::Number(crate::text::decimal(n)) && n > 0x7fff_ffff_ffff_ffff
            ==> delivery_of(Json::Object(m)) is None,
        !(m["id"@] is Number) ==> delivery_of(Json::Object(m)) is None,
{
    lemma_integer(n);
}

/// An object without an id, an email in text or headers is no delivery.
pub proof fn other_objects_are_no_delivery(m: Map<Seq<char>, Json>)
    requires
        !m.contains_key("id"@) || !m.contains_key("email"@) || !m.contains_key("headers"@) || !(
        m["email"@] is Text),
    ensures
        delivery_of(Json::Object(m)) is None,
{
}

/// A record may also be an array of its fields, in their order.
pub proof fn records_may_be_arrays(a: Seq<Json>, m: Map<Seq<char>, Json>)
    ensures
        a.len() == 3 && m.contains_key("id"@) && m.contains_key("email"@) && m.contains_key(
            "headers"@,
        ) && m["id"@] == a[0] && m["email"@] == a[1] && m["headers"@] == a[2] ==> delivery_of(
            Json::Array(a),
        ) == delivery_of(Json::Object(m)),
        a.len() != 3 ==> delivery_of(Json::Array(a)) is None,
        a.len() == 2 && m.contains_key("body"@) && m.contains_key("deliveries"@) && m["body"@]
            == a[0] && m["deliveries"@] == a[1] ==> batch_of(Json::Array(a)) == batch_of(
            Json::Object(m),
        ),
        a.len() != 2 ==> batch_of(Json::Array(a)) is None,
{
}

/// A list of deliveries is read if each of them can be read, one by one.
pub proof fn deliveries_are_read_one_by_one(s: Seq<Json>)
    ensures
        all_deliveries(s) is Some <==> forall|i: int|
            0 <= i < s.len() ==> delivery_of(#[trigger] s[i]) is Some,
        all_deliveries(s) matches Some(v) ==> v.len() == s.len() && forall|i: int|
            0 <= i < s.len() ==> delivery_of(s[i]) == Some(#[trigger] v[i]),
    decreases s.len(),
{
    if s.len() > 0 {
        let front = s.drop_last();
        deliveries_are_read_one_by_one(front);
        assert(forall|i: int| 0 <= i < front.len() ==> front[i] == #[trigger] s[i]);
        if all_deliveries(s) is Some {
            assert forall|i: int| 0 <= i < s.len() implies delivery_of(#[trigger] s[i]) is Some by {
                if i < front.len() {
                    assert(delivery_of(front[i]) is Some);
                }
            }
            let v = all_deliveries(s)->0;
            assert forall|i: int| 0 <= i < s.len() implies delivery_of(s[i]) == Some(
                #[trigger] v[i],
            ) by {
                if i < front.len() {
                    assert(delivery_of(front[i]) == Some(all_deliveries(front)->0[i]));
                }
            }
        } else if all_deliveries(front) is Some {
            assert(delivery_of(s[s.len() - 1]) is None);
        } else {
            let i = choose|i: int| 0 <= i < front.len() && delivery_of(#[trigger] front[i]) is None;
            assert(delivery_of(s[i]) is None);
        }
    }
}

/// A batch is an object with a body and a list of deliveries that can all be
/// read.
pub proof fn batch_is_a_body_and_its_deliveries(m: Map<Seq<char>, Json>)
    ensures
        batch_of(Json::Object(m)) is Some <==> m.contains_key("body"@) && m.contains_key(
            "deliveries"@,
        ) && m["deliveries"@] is Array && all_deliveries(m["deliveries"@]->Array_0) is Some,
        batch_of(Json::Object(m)) matches Some(b) ==> b.body == m["body"@] && Some(b.deliveries)
            == all_deliveries(m["deliveries"@]->Array_0),
{
}

/// The batches of a reply are read one by one; a reply in which one cannot be
/// read has none.
pub proof fn batches_are_read_one_by_one(m: Map<Seq<char>, Json>, s: Seq<Json>)
    requires
        m.contains_key("batches"@),
        m["batches"@] == Json::Array(s),
    ensures
        (forall|i: int| 0 <= i < s.len() ==> batch_of(#[trigger] s[i]) is Some) ==> batches_of(
            Json::Object(m),
        ).len() == s.len() && forall|i: int|
            0 <= i < s.len() ==> batch_of(s[i]) == Some(#[trigger] batches_of(Json::Object(m))[i]),
        (exists|i: int| 0 <= i < s.len() && batch_of(#[trigger] s[i]) is None) ==> batches_of(
            Json::Object(m),
        ).len() == 0,
{
    lemma_all_batches(s);
}

proof fn lemma_all_batches(s: Seq<Json>)
    ensures
        all_batches(s) is Some <==> forall|i: int|
            0 <= i < s.len() ==> batch_of(#[trigger] s[i]) is Some,
        all_batches(s) matches Some(v) ==> v.len() == s.len() && forall|i: int|
            0 <= i < s.len() ==> batch_of(s[i]) == Some(#[trigger] v[i]),
    decreases s.len(),
{
    if s.len() > 0 {
        let front = s.drop_last();
        lemma_all_batches(front);
        assert(forall|i: int| 0 <= i < front.len() ==> front[i] == #[trigger] s[i]);
        if all_batches(s) is Some {
            assert forall|i: int| 0 <= i < s.len() implies batch_of(#[trigger] s[i]) is Some by {
                if i < front.len() {
                    assert(batch_of(front[i]) is Some);
                }
            }
            let v = all_batches(s)->0;
            assert forall|i: int| 0 <= i < s.len() implies batch_of(s[i]) == Some(
                #[trigger] v[i],
            ) by {
                if i < front.len() {
                    assert(batch_of(front[i]) == Some(all_batches(front)->0[i]));
                }
            }
        } else if all_batches(front) is Some {
            assert(batch_of(s[s.len() - 1]) is None);
        } else {
            let i = choose|i: int| 0 <= i < front.len() && batch_of(#[trigger] front[i]) is None;
            assert(batch_of(s[i]) is None);
        }
    }
}

/// A reply without a list of batches has none.
pub proof fn other_replies_have_no_batches(reply: Json)
    requires
        !(reply is Object) || !reply->Object_0.contains_key("batches"@) || !(
        reply->Object_0["batches"@] is Array),
    ensures
        batches_of(reply).len() == 0,
{
}

/// What is done about a pending delivery: one that was forwarded less than two
/// hours ago is acknowledged; else one without a route, or whose headers are no
/// texts, is left pending; else it is posted to the target of its route, with
/// its headers and, behind them, the type of the body.
pub proof fn pending_deliveries_are_triaged(
    seen: Map<i64, u64>,
    routes: Map<Seq<char>, RouteView>,
    patterns: Seq<PatternView>,
    d: PendingView,
    now: u64,
    headers: Seq<(Seq<char>, Seq<char>)>,
)
    ensures
        ({
            let t = triage_of(seen, routes, patterns, d, now);
            let known = seen.contains_key(d.id) && now - seen[d.id] < 2 * 3600 * 1_000_000_000;
            &&& t is AckOnly <==> known
            &&& t is NoRoute <==> !known && crate::router::resolve(routes, patterns, d.email)
                is None
            &&& t is BadHeaders <==> !known && crate::router::resolve(routes, patterns, d.email)
                is Some && (!(d.headers is Object) || exists|k: Seq<char>|
                #[trigger] d.headers->Object_0.contains_key(k) && !(d.headers->Object_0[k]
                    is Text))
            &&& t matches TriageView::Forward { target, headers: sent } ==> {
                &&& target == crate::router::resolve(routes, patterns, d.email)->0.target_url
                &&& crate::json::lists(headers, d.headers) ==> sent == headers.push(
                    ("content-type"@, "application/json"@),
                )
            }
        }),
{
    if crate::json::is_text_map(d.headers) && crate::json::lists(headers, d.headers) {
        crate::json::lemma_lists_once(headers, d.headers);
    }
    if d.headers is Object && !crate::json::is_text_map(d.headers) {
        let m = d.headers->Object_0;
        let k = choose|k: Seq<char>| #[trigger] m.contains_key(k) && !(m[k] is Text);
        assert(m.contains_key(k));
    }
}

/// What was forwarded is remembered for two hours, each with its own time.
pub proof fn forwarded_is_remembered_for_two_hours(seen: Map<i64, u64>, id: i64, now: u64)
    ensures
        remembered(seen, now).contains_key(id) <==> seen.contains_key(id) && now - seen[id] < 2
            * 3600 * 1_000_000_000,
        remembered(seen, now).contains_key(id) ==> remembered(seen, now)[id] == seen[id],
        was_forwarded(seen, id, now) <==> remembered(seen, now).contains_key(id),
{
}

/// One delivery of a poll is acknowledged if it was forwarded less than two hours
/// ago or is taken now; only the latter is remembered.
pub proof fn one_step_acknowledges_what_is_taken(
    seen: Map<i64, u64>,
    acks: Seq<i64>,
    step: PollStep,
)
    ensures
        ({
            let id = step.d.id;
            let (after, now_acks) = poll_step(seen, acks, step);
            let known = seen.contains_key(id) && step.considered_at - seen[id] < 2 * 3600
                * 1_000_000_000;
            let taken = !known && crate::router::resolve(step.routes, step.patterns, step.d.email)
                is Some && step.d.headers is Object && (forall|k: Seq<char>|
                #[trigger] step.d.headers->Object_0.contains_key(k)
                    ==> step.d.headers->Object_0[k] is Text) && step.taken_at is Some;
            &&& known || taken ==> now_acks == acks.push(id)
            &&& !known && !taken ==> now_acks == acks
            &&& taken ==> after == seen.insert(id, step.taken_at->0)
            &&& !taken ==> after == seen
        }),
{
}

/// A poll that starts with nothing remembered acknowledges no delivery but those
/// that an agent took in it.
pub proof fn acknowledged_means_taken(steps: Seq<PollStep>, id: i64)
    ensures
        poll_run(Map::empty(), steps).1.contains(id) || poll_run(
            Map::empty(),
            steps,
        ).0.contains_key(id) ==> exists|k: int|
            0 <= k < steps.len() && (#[trigger] steps[k]).d.id == id && steps[k].taken_at is Some
                && crate::router::resolve(
                steps[k].routes,
                steps[k].patterns,
                steps[k].d.email,
            ) is Some,
    decreases steps.len(),
{
    if steps.len() > 0 {
        let front = steps.drop_last();
        let last = steps.last();
        let (known, acks) = poll_run(Map::empty(), front);
        acknowledged_means_taken(front, id);
        acknowledged_means_taken(front, last.d.id);
        let (after, now_acks) = poll_step(known, acks, last);
        assert forall|x: i64| acks.contains(x) implies acks.push(last.d.id).contains(x) by {
            let i = choose|i: int| 0 <= i < acks.len() && acks[i] == x;
            assert(acks.push(last.d.id)[i] == x);
        }
        if now_acks.contains(id) || after.contains_key(id) {
            if acks.contains(id) || known.contains_key(id) {
                let k = choose|k: int|
                    0 <= k < front.len() && (#[trigger] front[k]).d.id == id && front[k].taken_at
                        is Some && crate::router::resolve(
                        front[k].routes,
                        front[k].patterns,
                        front[k].d.email,
                    ) is Some;
                assert(steps[k] == front[k]);
            } else {
                assert(last.d.id == id) by {
                    if now_acks.contains(id) {
                        let i = choose|i: int| 0 <= i < now_acks.len() && now_acks[i] == id;
                        if i < acks.len() {
                            assert(acks[i] == id);
                        }
                    }
                }
                assert(steps[steps.len() - 1] == last);
            }
        }
    }
}

/// Each failure doubles the wait, up to six times and up to five minutes.
pub proof fn each_failure_doubles_the_wait(poll_interval: nat, failures: nat)
    ensures
        backoff(poll_interval, 0) == if poll_interval < 300 {
            poll_interval
        } else {
            300
        },
        failures < 6 ==> backoff(poll_interval, failures + 1) == if 2 * backoff(
            poll_interval,
            failures,
        ) < 300 {
            2 * backoff(poll_interval, failures)
        } else {
            300
        },
        failures >= 6 ==> backoff(poll_interval, failures) == backoff(poll_interval, 6),
        wait_after(poll_interval, 0) == poll_interval,
        failures > 0 ==> wait_after(poll_interval, failures) == backoff(poll_interval, failures),
{
    backoff_is_bounded(poll_interval, 0);
    if failures < 6 {
        vstd::arithmetic::power2::lemma_pow2_unfold((failures + 1) as nat);
        let p = vstd::arithmetic::power2::pow2(failures);
        assert(poll_interval * (2 * p) == 2 * (poll_interval * p)) by (nonlinear_arith);
    }
}

/// The failures in a row are those since the last success.
pub proof fn failures_count_since_the_last_success(before: Seq<bool>, n: nat)
    ensures
        failures_in_a_row(before.push(true) + Seq::new(n, |i: int| false)) == n,
        failures_in_a_row(Seq::new(n, |i: int| false)) == n,
    decreases n,
{
    let row = Seq::new(n, |i: int| false);
    let s = before.push(true) + row;
    if n == 0 {
        assert(s =~= before.push(true));
        assert(s.last());
    } else {
        let m = (n - 1) as nat;
        let less = Seq::new(m, |i: int| false);
        failures_count_since_the_last_success(before, m);
        assert(s.drop_last() =~= before.push(true) + less);
        assert(row.drop_last() =~= less);
        assert(!s.last());
        assert(!row.last());
    }
}

/// Failed acknowledgements are warned about at each tenth in a row.
pub proof fn each_tenth_failure_is_warned_about()
    ensures
        ACK_FAIL_WARN_THRESHOLD == 10,
        MAX_BACKOFF == 5 * 60,
        SEEN_TTL == 2 * 3600 * 1_000_000_000,
{
}

/// What is said of deliveries, batches and decisions is what they hold.
pub proof fn deliveries_say_what_they_hold(
    d: BatchDelivery,
    b: PendingBatch,
    batches: Seq<PendingBatch>,
    triage: Triage,
    i: int,
)
    ensures
        d@.id == d.id && d@.email == d.email@ && d@.headers == crate::json::json_of(d.headers),
        b@.body == crate::json::json_of(b.body) && b@.deliveries.len() == b.deliveries@.len(),
        0 <= i < b.deliveries@.len() ==> b@.deliveries[i] == b.deliveries@[i]@,
        batch_views(batches).len() == batches.len(),
        0 <= i < batches.len() ==> batch_views(batches)[i] == batches[i]@,
        match (triage, triage@) {
            (Triage::AckOnly, TriageView::AckOnly) => true,
            (Triage::NoRoute, TriageView::NoRoute) => true,
            (Triage::BadHeaders, TriageView::BadHeaders) => true,
            (
                Triage::Forward { target, headers },
                TriageView::Forward { target: t, headers: h },
            ) => t == target@ && h.len() == headers@.len() && (0 <= i < headers@.len() ==> h[i] == (
                headers@[i].0@,
                headers@[i].1@,
            )),
            _ => false,
        },
{
}

/// What is decided about a delivery with these headers, or with none that can be
/// sent: a known one is acknowledged; an unknown one is posted to the target of
/// its route, with those headers and the type of the body behind them.
pub proof fn decisions_follow_what_is_known(
    seen: Map<i64, u64>,
    routes: Map<Seq<char>, RouteView>,
    patterns: Seq<PatternView>,
    id: i64,
    email: Seq<char>,
    headers: Seq<(Seq<char>, Seq<char>)>,
    now: u64,
)
    ensures
        ({
            let known = seen.contains_key(id) && now - seen[id] < 2 * 3600 * 1_000_000_000;
            let with = decision(seen, routes, patterns, id, email, Some(headers), now);
            let without = decision(seen, routes, patterns, id, email, None, now);
            &&& known ==> with is AckOnly && without is AckOnly
            &&& !known && crate::router::resolve(routes, patterns, email) is None ==> with
                is NoRoute && without is NoRoute
            &&& !known && crate::router::resolve(routes, patterns, email) is Some ==> without
                is BadHeaders && with is Forward && with->target == crate::router::resolve(
                routes,
                patterns,
                email,
            )->0.target_url && with->headers == headers.push(
                ("content-type"@, "application/json"@),
            )
        }),
{
}

/// Two sessions with the same counts have the same failures in a row, and two
/// with the same deliveries remember and acknowledge the same.
pub proof fn same_sessions_agree(a: PullSession, b: PullSession)
    ensures
        a.same_counts(&b) <==> a.fetch_failures() == b.fetch_failures() && a.ack_failures()
            == b.ack_failures(),
        a.same_deliveries(&b) <==> a.seen() == b.seen() && a.acks() == b.acks() && a.acked_emails()
            == b.acked_emails(),
{
}

} // verus!
