//! TLS certificates: where they come from, when they are renewed, and how
//! challenges are answered.
//!
//! Talking to the certificate authority is left to the program around this
//! library. Ages are in nanoseconds.

use vstd::hash_map::StringHashMap;
use vstd::prelude::*;

use crate::config::{join_path, BridgeConfig};
use crate::text::{contains, decimal_text, strip_prefix};

verus! {

broadcast use vstd::seq::group_seq_axioms;

// ── Files ──────────────────────────────────────────────────────────

/// The files of a certificate and of its private key.
#[derive(Debug)]
pub struct AcmeCertPaths {
    pub cert: String,
    pub key: String,
}

/// The file of the certificate of a domain.
pub open spec fn cert_file(domain: Seq<char>, cache_dir: Seq<char>) -> Seq<char> {
    crate::config::path_in(cache_dir, domain + ".cert.pem"@)
}

/// The file of the private key of a domain.
pub open spec fn key_file(domain: Seq<char>, cache_dir: Seq<char>) -> Seq<char> {
    crate::config::path_in(cache_dir, domain + ".key.pem"@)
}

/// The files for a domain.
pub fn cert_paths(domain: &str, cache_dir: &str) -> (r: AcmeCertPaths)
    ensures
        r.cert@ == cert_file(domain@, cache_dir@),
        r.key@ == key_file(domain@, cache_dir@),
{
    let mut cert = String::from_str(domain);
    cert.append(".cert.pem");
    let mut key = String::from_str(domain);
    key.append(".key.pem");
    AcmeCertPaths {
        cert: join_path(cache_dir, cert.as_str()),
        key: join_path(cache_dir, key.as_str()),
    }
}

/// The file of the account with the certificate authority.
pub fn account_path(cache_dir: &str) -> (r: String)
    ensures
        r@ == crate::config::path_in(cache_dir@, "account.json"@),
{
    join_path(cache_dir, "account.json")
}

// ── Freshness ──────────────────────────────────────────────────────

/// The age up to which a certificate is used: sixty days. They are valid for
/// ninety.
pub const MAX_AGE: u128 = 5_184_000_000_000_000;

/// A certificate of an age that is not known, or that is too high.
pub open spec fn is_stale(age: Option<u128>) -> bool {
    age is None || age->0 > MAX_AGE
}

/// Whether a certificate has to be renewed. The age is `None` where the file is
/// missing or its age is not known.
pub fn needs_renewal(cert_age: Option<u128>) -> (r: bool)
    ensures
        r == is_stale(cert_age),
{
    match cert_age {
        Some(age) => age > MAX_AGE,
        None => true,
    }
}

/// The files of a certificate that was acquired before and can be used still:
/// both are there, and the certificate is no older than sixty days.
pub fn check_existing_cert(
    domain: &str,
    cache_dir: &str,
    cert_exists: bool,
    key_exists: bool,
    cert_age: Option<u128>,
) -> (r: Option<AcmeCertPaths>)
    ensures
        r is Some <==> cert_exists && key_exists && !is_stale(cert_age),
        r is Some ==> r->0.cert@ == cert_file(domain@, cache_dir@) && r->0.key@ == key_file(
            domain@,
            cache_dir@,
        ),
{
    if !cert_exists || !key_exists || needs_renewal(cert_age) {
        return None;
    }
    Some(cert_paths(domain, cache_dir))
}

// ── Renewal ────────────────────────────────────────────────────────

/// The waits between two looks at the certificate: twelve hours, ten seconds each.
pub const WAITS_PER_LOOK: u32 = 4320;

/// What the renewal task does next.
#[derive(Debug, Clone, Copy, PartialEq, Eq, Structural)]
pub enum RenewStep {
    /// Exit.
    Stop,
    /// Wait ten seconds.
    Wait,
    /// Look at the certificate, and renew it if it has to be.
    Look,
}

/// What the renewal task does next after so many waits, and the waits after that.
pub open spec fn renew_step(waits: u32, stop: bool) -> (RenewStep, u32) {
    if stop {
        (RenewStep::Stop, waits)
    } else if waits < WAITS_PER_LOOK {
        (RenewStep::Wait, (waits + 1) as u32)
    } else {
        (RenewStep::Look, 0)
    }
}

/// The state of the renewal task.
pub struct RenewTimer {
    waits: u32,
}

impl RenewTimer {
    /// The waits since the last look.
    pub closed spec fn waits(&self) -> u32 {
        self.waits
    }

    /// A task that has just looked.
    pub fn new() -> (r: Self)
        ensures
            r.waits() == 0,
    {
        RenewTimer { waits: 0 }
    }

    /// What the task does next. `stop` says whether it was told to stop.
    pub fn step(&mut self, stop: bool) -> (r: RenewStep)
        ensures
            (r, final(self).waits()) == renew_step(old(self).waits(), stop),
    {
        if stop {
            RenewStep::Stop
        } else if self.waits < WAITS_PER_LOOK {
            self.waits = self.waits + 1;
            RenewStep::Wait
        } else {
            self.waits = 0;
            RenewStep::Look
        }
    }
}

/// The contact of an account.
pub fn account_contact(acme_email: Option<&str>) -> (r: String)
    ensures
        r@ == "mailto:"@ + match acme_email {
            Some(e) => e@,
            None => "acme@agent-mail-relay.local"@,
        },
{
    let mut r = String::from_str("mailto:");
    match acme_email {
        Some(e) => {
            r.append(e);
        },
        None => {
            r.append("acme@agent-mail-relay.local");
        },
    }
    r
}

// ── Orders ─────────────────────────────────────────────────────────

/// What the certificate authority says of the authorization for a domain.
#[derive(Debug, Clone, Copy, PartialEq, Eq, Structural)]
pub enum AuthorizationStatus {
    Pending,
    Valid,
    Invalid,
    Revoked,
    Expired,
    Deactivated,
}

/// What is done about an authorization.
#[derive(Debug)]
pub enum AuthorizationStep {
    /// Answer its challenge.
    Answer,
    /// Nothing: it is given already.
    Skip,
    /// Give the order up, for this reason.
    Fail(String),
}

/// The name of an authorization status.
pub open spec fn authorization_name(status: AuthorizationStatus) -> Seq<char> {
    match status {
        AuthorizationStatus::Pending => "Pending"@,
        AuthorizationStatus::Valid => "Valid"@,
        AuthorizationStatus::Invalid => "Invalid"@,
        AuthorizationStatus::Revoked => "Revoked"@,
        AuthorizationStatus::Expired => "Expired"@,
        AuthorizationStatus::Deactivated => "Deactivated"@,
    }
}

/// What is done about an authorization with this status: a pending one is
/// answered, a valid one is skipped, and with any other the order fails.
pub fn plan_authorization(status: AuthorizationStatus) -> (r: AuthorizationStep)
    ensures
        match r {
            AuthorizationStep::Answer => status == AuthorizationStatus::Pending,
            AuthorizationStep::Skip => status == AuthorizationStatus::Valid,
            AuthorizationStep::Fail(e) => status != AuthorizationStatus::Pending && status
                != AuthorizationStatus::Valid && e@ == "unexpected authorization status: "@
                + authorization_name(status),
        },
{
    let name = match status {
        AuthorizationStatus::Pending => {
            return AuthorizationStep::Answer;
        },
        AuthorizationStatus::Valid => {
            return AuthorizationStep::Skip;
        },
        AuthorizationStatus::Invalid => "Invalid",
        AuthorizationStatus::Revoked => "Revoked",
        AuthorizationStatus::Expired => "Expired",
        AuthorizationStatus::Deactivated => "Deactivated",
    };
    let mut e = String::from_str("unexpected authorization status: ");
    e.append(name);
    AuthorizationStep::Fail(e)
}

/// What the certificate authority says of an order.
#[derive(Debug, Clone, Copy, PartialEq, Eq, Structural)]
pub enum OrderStatus {
    Pending,
    Ready,
    Processing,
    Valid,
    Invalid,
}

/// The name of an order status.
pub open spec fn order_name(status: OrderStatus) -> Seq<char> {
    match status {
        OrderStatus::Pending => "Pending"@,
        OrderStatus::Ready => "Ready"@,
        OrderStatus::Processing => "Processing"@,
        OrderStatus::Valid => "Valid"@,
        OrderStatus::Invalid => "Invalid"@,
    }
}

/// Whether an order whose challenges were answered can be finalized: only one
/// that is ready. Gives the reason otherwise.
pub fn check_order(status: OrderStatus) -> (r: Result<(), String>)
    ensures
        match r {
            Ok(_) => status == OrderStatus::Ready,
            Err(e) => status != OrderStatus::Ready && e@ == "unexpected order status: "@
                + order_name(status),
        },
{
    let name = match status {
        OrderStatus::Ready => {
            return Ok(());
        },
        OrderStatus::Pending => "Pending",
        OrderStatus::Processing => "Processing",
        OrderStatus::Valid => "Valid",
        OrderStatus::Invalid => "Invalid",
    };
    let mut e = String::from_str("unexpected order status: ");
    e.append(name);
    Err(e)
}

// ── Challenges ─────────────────────────────────────────────────────

/// The proofs of the challenges that the bridge answers itself, by token.
pub struct ChallengeRegistry {
    proofs: StringHashMap<String>,
}

impl ChallengeRegistry {
    /// The proofs by token.
    pub closed spec fn proofs(&self) -> Map<Seq<char>, String> {
        self.proofs@
    }

    /// A registry without challenges.
    pub fn new() -> (r: Self)
        ensures
            r.proofs() == Map::<Seq<char>, String>::empty(),
    {
        ChallengeRegistry { proofs: StringHashMap::new() }
    }

    /// Registers the proof of a challenge.
    pub fn insert(&mut self, token: String, proof: String)
        ensures
            final(self).proofs() == old(self).proofs().insert(token@, proof),
    {
        self.proofs.insert(token, proof);
    }

    /// The proof of a challenge.
    pub fn get(&self, token: &str) -> (r: Option<&str>)
        ensures
            match r {
                Some(p) => self.proofs().contains_key(token@) && p@ == self.proofs()[token@]@,
                None => !self.proofs().contains_key(token@),
            },
    {
        match self.proofs.get(token) {
            Some(p) => Some(p.as_str()),
            None => None,
        }
    }
}

/// How a challenge is answered.
#[derive(Debug)]
pub enum ChallengePlan {
    /// By the bridge itself, out of the registry.
    Register,
    /// By an HTTP server beside, out of this file in this directory.
    WriteFile { dir: String, path: String },
    /// By a listener on port 80, for the time being.
    Listen,
}

/// The directory of challenges below the one that is configured.
pub open spec fn challenge_dir(dir: Seq<char>) -> Seq<char> {
    crate::config::path_in(crate::config::path_in(dir, ".well-known"@), "acme-challenge"@)
}

/// How a challenge is answered: out of the registry if there is one, by a file
/// if a directory is configured, and else by a listener.
pub fn plan_challenge(token: &str, challenge_path: Option<&str>, has_registry: bool) -> (r:
    ChallengePlan)
    ensures
        match r {
            ChallengePlan::Register => has_registry,
            ChallengePlan::WriteFile { dir, path } => !has_registry && challenge_path is Some
                && dir@ == challenge_dir(challenge_path->0@) && path@ == crate::config::path_in(
                challenge_dir(challenge_path->0@),
                token@,
            ),
            ChallengePlan::Listen => !has_registry && challenge_path is None,
        },
{
    if has_registry {
        return ChallengePlan::Register;
    }
    match challenge_path {
        Some(d) => {
            let dir = join_path(join_path(d, ".well-known").as_str(), "acme-challenge");
            let path = join_path(dir.as_str(), token);
            ChallengePlan::WriteFile { dir, path }
        },
        None => ChallengePlan::Listen,
    }
}

/// The path at which the proof for a token is asked for.
pub open spec fn challenge_request(token: Seq<char>) -> Seq<char> {
    "/.well-known/acme-challenge/"@ + token
}

/// The answer with a proof.
pub open spec fn proof_answer(proof: Seq<char>) -> Seq<char> {
    "HTTP/1.1 200 OK\r\nContent-Length: "@ + crate::text::decimal(
        vstd::utf8::encode_utf8(proof).len(),
    ) + "\r\nConnection: close\r\n\r\n"@ + proof
}

/// The answer of the listener to a request that begins with this line; none if
/// it does not ask for the proof.
pub fn challenge_answer(line: &str, token: &str, proof: &str) -> (r: Option<String>)
    ensures
        match r {
            Some(a) => crate::text::contains_text(line@, challenge_request(token@)) && a@
                == proof_answer(proof@),
            None => !crate::text::contains_text(line@, challenge_request(token@)),
        },
{
    let mut expected = String::from_str("/.well-known/acme-challenge/");
    expected.append(token);
    if !contains(line, expected.as_str()) {
        return None;
    }
    let mut a = String::from_str("HTTP/1.1 200 OK\r\nContent-Length: ");
    a.append(decimal_text(proof.as_bytes().len() as u64).as_str());
    a.append("\r\nConnection: close\r\n\r\n");
    a.append(proof);
    Some(a)
}

/// How long the listener on port 80 is open at most, in nanoseconds.
pub const LISTEN_NANOS: u64 = 30_000_000_000;

/// How long the listener waits where nobody connects, in milliseconds.
pub const LISTEN_WAIT_MILLIS: u64 = 100;

/// What the listener on port 80 meets.
#[derive(Debug)]
pub enum ListenEvent {
    /// Nobody connects.
    Quiet,
    /// A request that begins with this line.
    Request(String),
    /// No connection can be taken any more.
    Failed,
}

/// What the listener meets, with the line as a plain text.
#[verifier::ext_equal]
pub enum ListenEventView {
    Quiet,
    Request(Seq<char>),
    Failed,
}

impl View for ListenEvent {
    type V = ListenEventView;

    open spec fn view(&self) -> ListenEventView {
        match self {
            ListenEvent::Quiet => ListenEventView::Quiet,
            ListenEvent::Request(line) => ListenEventView::Request(line@),
            ListenEvent::Failed => ListenEventView::Failed,
        }
    }
}

/// What the listener on port 80 does next.
#[derive(Debug)]
pub enum ListenStep {
    /// Stay open, and take the next connection after so many milliseconds.
    Keep { wait_millis: u64 },
    /// Give this answer, and close.
    AnswerAndClose(String),
    /// Close.
    Close,
}

/// What the listener does next, with the answer as a plain text.
#[verifier::ext_equal]
pub enum ListenStepView {
    Keep { wait_millis: u64 },
    AnswerAndClose(Seq<char>),
    Close,
}

impl View for ListenStep {
    type V = ListenStepView;

    open spec fn view(&self) -> ListenStepView {
        match self {
            ListenStep::Keep { wait_millis } => ListenStepView::Keep { wait_millis: *wait_millis },
            ListenStep::AnswerAndClose(answer) => ListenStepView::AnswerAndClose(answer@),
            ListenStep::Close => ListenStepView::Close,
        }
    }
}

/// A request for the proof.
pub open spec fn asks_for_proof(event: ListenEventView, token: Seq<char>) -> bool {
    event is Request && crate::text::contains_text(event->Request_0, challenge_request(token))
}

/// What the listener does next, so long after it was opened, and whether it is
/// still open then.
pub open spec fn listen_step(
    open: bool,
    token: Seq<char>,
    proof: Seq<char>,
    event: ListenEventView,
    elapsed: u64,
) -> (ListenStepView, bool) {
    if !open || elapsed >= LISTEN_NANOS || event is Failed {
        (ListenStepView::Close, false)
    } else if asks_for_proof(event, token) {
        (ListenStepView::AnswerAndClose(proof_answer(proof)), false)
    } else if event is Quiet {
        (ListenStepView::Keep { wait_millis: LISTEN_WAIT_MILLIS }, true)
    } else {
        (ListenStepView::Keep { wait_millis: 0 }, true)
    }
}

/// The listener on port 80 that answers one challenge.
pub struct ChallengeListener {
    token: String,
    proof: String,
    open: bool,
}

impl ChallengeListener {
    /// The token of the challenge.
    pub closed spec fn token(&self) -> Seq<char> {
        self.token@
    }

    /// The proof that is asked for.
    pub closed spec fn owed_proof(&self) -> Seq<char> {
        self.proof@
    }

    /// Whether connections are taken.
    pub closed spec fn is_open(&self) -> bool {
        self.open
    }

    /// A listener that was just opened.
    pub fn new(token: String, proof: String) -> (r: Self)
        ensures
            r.token() == token@,
            r.owed_proof() == proof@,
            r.is_open(),
    {
        ChallengeListener { token, proof, open: true }
    }

    /// What the listener does next. It closes after its first answer, half a
    /// minute after it was opened, and where no connection can be taken. The
    /// nanoseconds since it was opened are those before `event`.
    pub fn step(&mut self, event: &ListenEvent, elapsed: u64) -> (r: ListenStep)
        ensures
            final(self).token() == old(self).token(),
            final(self).owed_proof() == old(self).owed_proof(),
            (r@, final(self).is_open()) == listen_step(
                old(self).is_open(),
                old(self).token(),
                old(self).owed_proof(),
                event@,
                elapsed,
            ),
    {
        if !self.open || elapsed >= LISTEN_NANOS {
            self.open = false;
            return ListenStep::Close;
        }
        match event {
            ListenEvent::Quiet => ListenStep::Keep { wait_millis: LISTEN_WAIT_MILLIS },
            ListenEvent::Failed => {
                self.open = false;
                ListenStep::Close
            },
            ListenEvent::Request(line) => {
                match challenge_answer(line.as_str(), self.token.as_str(), self.proof.as_str()) {
                    Some(answer) => {
                        self.open = false;
                        ListenStep::AnswerAndClose(answer)
                    },
                    None => ListenStep::Keep { wait_millis: 0 },
                }
            },
        }
    }
}

/// Whether a listener is still open after these events, each with the
/// nanoseconds that the listener was open before it.
pub open spec fn is_still_open(
    token: Seq<char>,
    proof: Seq<char>,
    events: Seq<(ListenEventView, u64)>,
) -> bool
    decreases events.len(),
{
    if events.len() == 0 {
        true
    } else {
        listen_step(
            is_still_open(token, proof, events.drop_last()),
            token,
            proof,
            events.last().0,
            events.last().1,
        ).1
    }
}

/// What a listener does at the event at `n`.
pub open spec fn step_at(
    token: Seq<char>,
    proof: Seq<char>,
    events: Seq<(ListenEventView, u64)>,
    n: int,
) -> ListenStepView {
    listen_step(
        is_still_open(token, proof, events.take(n)),
        token,
        proof,
        events[n].0,
        events[n].1,
    ).0
}

/// A listener that does not stay open at an event takes no connection later.
pub proof fn closed_listener_stays_closed(
    token: Seq<char>,
    proof: Seq<char>,
    events: Seq<(ListenEventView, u64)>,
    m: int,
    n: int,
)
    requires
        0 <= m < n < events.len(),
        !(step_at(token, proof, events, m) is Keep),
    ensures
        step_at(token, proof, events, n) is Close,
{
    lemma_closed(token, proof, events, m, n);
}

/// The listener is not open any more once it has closed.
proof fn lemma_closed(
    token: Seq<char>,
    proof: Seq<char>,
    events: Seq<(ListenEventView, u64)>,
    m: int,
    n: int,
)
    requires
        0 <= m < n <= events.len(),
        !(step_at(token, proof, events, m) is Keep),
    ensures
        !is_still_open(token, proof, events.take(n)),
    decreases n,
{
    assert(events.take(n).drop_last() =~= events.take(n - 1));
    assert(events.take(n).last() == events[n - 1]);
    if m < n - 1 {
        lemma_closed(token, proof, events, m, n - 1);
    }
}

/// The first request for the proof is answered with it, if it comes within half
/// a minute; whatever comes later is not answered.
pub proof fn first_request_is_answered(
    token: Seq<char>,
    proof: Seq<char>,
    events: Seq<(ListenEventView, u64)>,
    n: int,
)
    requires
        0 <= n < events.len(),
        asks_for_proof(events[n].0, token),
        forall|i: int| 0 <= i <= n ==> (#[trigger] events[i]).1 < LISTEN_NANOS,
        forall|i: int|
            0 <= i < n ==> !((#[trigger] events[i]).0 is Failed) && !asks_for_proof(
                events[i].0,
                token,
            ),
    ensures
        step_at(token, proof, events, n) == ListenStepView::AnswerAndClose(proof_answer(proof)),
        forall|i: int|
            n < i < events.len() ==> #[trigger] step_at(token, proof, events, i) is Close,
{
    lemma_open(token, proof, events, n);
    assert forall|i: int| n < i < events.len() implies #[trigger] step_at(
        token,
        proof,
        events,
        i,
    ) is Close by {
        closed_listener_stays_closed(token, proof, events, n, i);
    }
}

/// The listener stays open until it is asked, half a minute is over or it fails.
proof fn lemma_open(
    token: Seq<char>,
    proof: Seq<char>,
    events: Seq<(ListenEventView, u64)>,
    n: int,
)
    requires
        0 <= n <= events.len(),
        forall|i: int|
            0 <= i < n ==> (#[trigger] events[i]).1 < LISTEN_NANOS && !(events[i].0 is Failed)
                && !asks_for_proof(events[i].0, token),
    ensures
        is_still_open(token, proof, events.take(n)),
    decreases n,
{
    if n > 0 {
        assert(events.take(n).drop_last() =~= events.take(n - 1));
        assert(events.take(n).last() == events[n - 1]);
        lemma_open(token, proof, events, n - 1);
    }
}

/// Half a minute after it was opened the listener closes, whatever it met before
/// and meets then.
pub proof fn listener_closes_in_time(
    token: Seq<char>,
    proof: Seq<char>,
    events: Seq<(ListenEventView, u64)>,
    n: int,
)
    requires
        0 <= n < events.len(),
        events[n].1 >= LISTEN_NANOS,
    ensures
        step_at(token, proof, events, n) is Close,
        !is_still_open(token, proof, events.take(n + 1)),
{
    lemma_closed(token, proof, events, n, n + 1);
}

/// What port 80 does beside port 443.
#[derive(Debug)]
pub enum Port80Plan {
    /// Answer with the proof of a challenge.
    Proof(String),
    /// Redirect to port 443.
    Redirect(String),
}

/// The token that a path asks the proof for.
pub open spec fn requested_token(path: Seq<char>) -> Option<Seq<char>> {
    crate::text::after_prefix(path, "/.well-known/acme-challenge/"@)
}

/// What port 80 does beside port 443: it answers registered challenges and
/// redirects everything else.
pub fn plan_port_80(
    registry: &ChallengeRegistry,
    hostname: &str,
    path: &str,
    path_and_query: &str,
) -> (r: Port80Plan)
    ensures
        match r {
            Port80Plan::Proof(p) => requested_token(path@) is Some
                && registry.proofs().contains_key(requested_token(path@)->0) && p@
                == registry.proofs()[requested_token(path@)->0]@,
            Port80Plan::Redirect(url) => (requested_token(path@) is None
                || !registry.proofs().contains_key(requested_token(path@)->0)) && url@
                == "https://"@ + hostname@ + path_and_query@,
        },
{
    if let Some(token) = strip_prefix(path, "/.well-known/acme-challenge/") {
        if let Some(p) = registry.get(token) {
            return Port80Plan::Proof(String::from_str(p));
        }
    }
    let mut url = String::from_str("https://");
    url.append(hostname);
    url.append(path_and_query);
    Port80Plan::Redirect(url)
}

// ── Source of the certificate ──────────────────────────────────────

/// Where the certificate comes from.
#[derive(Debug)]
pub enum TlsSource {
    /// There is none: plain HTTP.
    Plain,
    /// From files.
    Files { cert: String, key: String },
    /// From the certificate authority, for this domain, kept in this directory.
    Acme { domain: String, cache_dir: String },
}

/// Where the certificate comes from: files that are configured win over the
/// certificate authority, and neither is used without a domain.
pub fn plan_tls(config: &BridgeConfig, home: Option<&str>) -> (r: TlsSource)
    ensures
        match r {
            TlsSource::Plain => !config.wants_tls(),
            TlsSource::Files { cert, key } => config.wants_tls() && config.tls_cert is Some
                && config.tls_key is Some && cert@ == config.tls_cert->0@ && key@
                == config.tls_key->0@,
            TlsSource::Acme { domain, cache_dir } => config.wants_tls() && !(config.tls_cert is Some
                && config.tls_key is Some) && domain@ == config.hostname->0@ && cache_dir@
                == match config.acme_cache {
                Some(d) => d@,
                None => crate::config::path_in(
                    match home {
                        Some(h) => h@,
                        None => ""@,
                    },
                    ".acme_cache"@,
                ),
            },
        },
{
    if !config.has_tls() {
        return TlsSource::Plain;
    }
    if let (Some(cert), Some(key)) = (&config.tls_cert, &config.tls_key) {
        return TlsSource::Files { cert: cert.clone(), key: key.clone() };
    }
    match &config.hostname {
        Some(h) => {
            let cache_dir = match &config.acme_cache {
                Some(d) => d.clone(),
                None => match home {
                    Some(d) => join_path(d, ".acme_cache"),
                    None => join_path("", ".acme_cache"),
                },
            };
            TlsSource::Acme { domain: h.clone(), cache_dir }
        },
        None => TlsSource::Plain,
    }
}

/// How the application is served.
#[derive(Debug)]
pub enum Serving {
    /// Over plain HTTP.
    Http { port: u16 },
    /// Over TLS, with these files.
    Tls { cert: String, key: String, port: u16 },
}

/// Both files of a certificate are configured.
pub open spec fn has_cert_files(config: BridgeConfig) -> bool {
    config.tls_cert is Some && config.tls_key is Some
}

/// How the application is served. `acquired` are the files that the certificate
/// authority gave, if it was asked and gave some. Without a certificate it is
/// plain HTTP at the listen port. Beside a port 80 that redirects, TLS is at
/// port 443.
pub fn plan_serving(config: &BridgeConfig, acquired: Option<AcmeCertPaths>) -> (r: Serving)
    ensures
        match r {
            Serving::Http { port } => (!config.wants_tls() || (!has_cert_files(*config)
                && acquired is None)) && port == crate::config::listen_address(config.addr@).1,
            Serving::Tls { cert, key, port } => {
                &&& config.wants_tls()
                &&& if has_cert_files(*config) {
                    cert@ == config.tls_cert->0@ && key@ == config.tls_key->0@
                } else {
                    acquired is Some && cert@ == acquired->0.cert@ && key@ == acquired->0.key@
                }
                &&& port == if crate::config::listen_address(config.addr@).1 == 80 {
                    443
                } else {
                    crate::config::listen_address(config.addr@).1
                }
            },
        },
{
    let (_host, listen) = config.parsed_addr();
    if !config.has_tls() {
        return Serving::Http { port: listen };
    }
    let port: u16 = if config.is_dual_port() {
        443
    } else {
        listen
    };
    if let (Some(cert), Some(key)) = (&config.tls_cert, &config.tls_key) {
        return Serving::Tls { cert: cert.clone(), key: key.clone(), port };
    }
    match acquired {
        Some(paths) => Serving::Tls { cert: paths.cert, key: paths.key, port },
        None => Serving::Http { port: listen },
    }
}

/// The URL that agents are told to have webhooks posted to.
pub fn bridge_url(hostname: Option<&str>) -> (r: String)
    ensures
        r@ == "https://"@ + (match hostname {
            Some(h) => h@,
            None => ""@,
        }) + "/webhooks/amail-inbound"@,
{
    let mut url = String::from_str("https://");
    match hostname {
        Some(h) => {
            url.append(h);
        },
        None => {
            url.append("");
        },
    }
    url.append("/webhooks/amail-inbound");
    url
}

// ── Laws ───────────────────────────────────────────────────────────

/// A certificate does not get fresh again by getting older.
pub proof fn staleness_lasts(age: u128, later: u128)
    requires
        age <= later,
        is_stale(Some(age)),
    ensures
        is_stale(Some(later)),
{
}

/// The waits after `n` steps of a task that is not told to stop.
pub open spec fn waits_after(n: nat) -> u32
    decreases n,
{
    if n == 0 {
        0
    } else {
        renew_step(waits_after((n - 1) as nat), false).1
    }
}

/// The certificate is looked at once in twelve hours: after as many waits as
/// make them up, and not before.
pub proof fn looks_come_every_twelve_hours(n: nat)
    requires
        n <= WAITS_PER_LOOK,
    ensures
        waits_after(n) == n,
        renew_step(waits_after(n), false).0 == if n < WAITS_PER_LOOK {
            RenewStep::Wait
        } else {
            RenewStep::Look
        },
        n == WAITS_PER_LOOK ==> waits_after(n + 1) == 0,
    decreases n,
{
    if n > 0 {
        looks_come_every_twelve_hours((n - 1) as nat);
    }
}

/// A task that is told to stop stops.
pub proof fn stop_stops(waits: u32)
    ensures
        renew_step(waits, true) == (RenewStep::Stop, waits),
{
}

/// A registered proof is the one that is found, and others are as before.
pub proof fn registered_proof_is_found(
    proofs: Map<Seq<char>, String>,
    token: Seq<char>,
    proof: String,
    other: Seq<char>,
)
    ensures
        proofs.insert(token, proof).contains_key(token),
        proofs.insert(token, proof)[token] == proof,
        other != token ==> proofs.insert(token, proof).contains_key(other) == proofs.contains_key(
            other,
        ),
{
}

/// The request for a proof is recognised for every token.
pub proof fn challenge_is_recognised(token: Seq<char>, before: Seq<char>, after: Seq<char>)
    ensures
        crate::text::contains_text(
            before + challenge_request(token) + after,
            challenge_request(token),
        ),
        requested_token(challenge_request(token)) == Some(token),
{
    let p = challenge_request(token);
    let line = before + p + after;
    let at = before.len() as int;
    assert(line.subrange(at, at + p.len()) =~= p);
    assert(crate::text::occurs_at(line, p, at));
    let prefix = "/.well-known/acme-challenge/"@;
    assert(p.subrange(0, prefix.len() as int) =~= prefix);
    assert(p.subrange(prefix.len() as int, p.len() as int) =~= token);
}

/// A certificate is used for sixty days; one whose age is not known is not.
pub proof fn certificates_are_used_for_sixty_days(age: u128)
    ensures
        is_stale(Some(age)) <==> age > 60 * 24 * 3600 * 1_000_000_000,
        is_stale(None),
{
}

/// Waits of ten seconds make up twelve hours between two looks, and the listener
/// is open for half a minute, in steps of a tenth of a second.
pub proof fn waits_make_up_their_times()
    ensures
        WAITS_PER_LOOK * 10 == 12 * 3600,
        LISTEN_NANOS == 30 * 1_000_000_000,
        LISTEN_WAIT_MILLIS * 10 == 1000,
{
}

/// A task that is not told to stop waits until twelve hours are over, then looks
/// and begins again.
pub proof fn task_looks_when_the_time_is_over(waits: u32)
    ensures
        waits < 4320 ==> renew_step(waits, false) == (RenewStep::Wait, (waits + 1) as u32),
        waits >= 4320 ==> renew_step(waits, false) == (RenewStep::Look, 0u32),
{
}

/// The certificate and the key of a domain stand in the directory, under the
/// name of the domain.
pub proof fn files_are_named_after_the_domain(domain: Seq<char>, dir: Seq<char>)
    requires
        dir.len() > 0,
        dir.last() != '/',
        domain.len() > 0,
        domain[0] != '/',
    ensures
        cert_file(domain, dir) == dir + seq!['/'] + (domain + ".cert.pem"@),
        key_file(domain, dir) == dir + seq!['/'] + (domain + ".key.pem"@),
{
    crate::config::names_stand_below_directories(dir, domain + ".cert.pem"@);
    crate::config::names_stand_below_directories(dir, domain + ".key.pem"@);
}

/// Challenges are put below the directory that is configured.
pub proof fn challenges_stand_below_their_directory(dir: Seq<char>)
    requires
        dir.len() > 0,
        dir.last() != '/',
    ensures
        challenge_dir(dir) == dir + "/.well-known/acme-challenge"@,
{
    reveal_strlit(".well-known");
    reveal_strlit("acme-challenge");
    reveal_strlit("/.well-known/acme-challenge");
    crate::config::names_stand_below_directories(dir, ".well-known"@);
    let inner = dir + seq!['/'] + ".well-known"@;
    assert(inner.last() == 'n');
    crate::config::names_stand_below_directories(inner, "acme-challenge"@);
    assert(seq!['/'] + ".well-known"@ + seq!['/'] + "acme-challenge"@
        =~= "/.well-known/acme-challenge"@);
    assert(inner + seq!['/'] + "acme-challenge"@ =~= dir + "/.well-known/acme-challenge"@);
}

/// The answer with a proof says how many bytes the proof has, closes the
/// connection and ends with the proof. In plain text these are its characters.
pub proof fn answer_holds_the_proof(proof: Seq<char>)
    ensures
        proof_answer(proof) == "HTTP/1.1 200 OK\r\nContent-Length: "@ + crate::text::decimal(
            vstd::utf8::encode_utf8(proof).len(),
        ) + "\r\nConnection: close\r\n\r\n"@ + proof,
        (forall|i: int| 0 <= i < proof.len() ==> '\0' <= (#[trigger] proof[i]) <= '\u{7f}')
            ==> proof_answer(proof) == "HTTP/1.1 200 OK\r\nContent-Length: "@ + crate::text::decimal(
            proof.len(),
        ) + "\r\nConnection: close\r\n\r\n"@ + proof,
{
    if forall|i: int| 0 <= i < proof.len() ==> '\0' <= (#[trigger] proof[i]) <= '\u{7f}' {
        assert(vstd::utf8::is_ascii_chars(proof));
        vstd::utf8::is_ascii_chars_encode_utf8(proof);
    }
}

/// A request asks for the proof exactly when the path of its token stands in its
/// first line.
pub proof fn proof_is_asked_for_by_its_path(
    before: Seq<char>,
    token: Seq<char>,
    after: Seq<char>,
    line: Seq<char>,
)
    ensures
        asks_for_proof(
            ListenEventView::Request(before + ("/.well-known/acme-challenge/"@ + token) + after),
            token,
        ),
        asks_for_proof(ListenEventView::Request(line), token) ==> exists|a: Seq<char>, b: Seq<char>|
            line == #[trigger] (a + ("/.well-known/acme-challenge/"@ + token) + b),
        !asks_for_proof(ListenEventView::Quiet, token),
        !asks_for_proof(ListenEventView::Failed, token),
{
    let p = "/.well-known/acme-challenge/"@ + token;
    crate::text::contained_text_stands_somewhere(before + p + after, p);
    crate::text::contained_text_stands_somewhere(line, p);
}

/// Port 80 is asked for the proof of a token by its path, and by no other.
pub proof fn token_stands_behind_the_path(token: Seq<char>, path: Seq<char>)
    ensures
        requested_token("/.well-known/acme-challenge/"@ + token) == Some(token),
        requested_token(path) matches Some(t) ==> path == "/.well-known/acme-challenge/"@ + t,
{
    let p = "/.well-known/acme-challenge/"@;
    crate::text::ends_are_told(token, p);
    crate::text::ends_are_told(path, p);
}

/// What the listener does at each event: it closes once it is closed, after half
/// a minute and where no connection can be taken; it gives the proof to who asks
/// for it, and closes; else it stays open.
pub proof fn listener_does_one_thing_at_a_time(
    token: Seq<char>,
    proof: Seq<char>,
    event: ListenEventView,
    elapsed: u64,
)
    ensures
        listen_step(false, token, proof, event, elapsed) == (ListenStepView::Close, false),
        elapsed >= 30_000_000_000 ==> listen_step(true, token, proof, event, elapsed) == (
            ListenStepView::Close,
            false,
        ),
        listen_step(true, token, proof, ListenEventView::Failed, elapsed) == (
            ListenStepView::Close,
            false,
        ),
        elapsed < 30_000_000_000 ==> listen_step(
            true,
            token,
            proof,
            ListenEventView::Quiet,
            elapsed,
        ) == (ListenStepView::Keep { wait_millis: 100 }, true),
        elapsed < 30_000_000_000 && asks_for_proof(event, token) ==> listen_step(
            true,
            token,
            proof,
            event,
            elapsed,
        ) == (ListenStepView::AnswerAndClose(proof_answer(proof)), false),
        elapsed < 30_000_000_000 && event is Request && !asks_for_proof(event, token)
            ==> listen_step(true, token, proof, event, elapsed) == (
            ListenStepView::Keep { wait_millis: 0 },
            true,
        ),
{
}

/// The statuses are called by their names.
pub proof fn statuses_have_their_names()
    ensures
        authorization_name(AuthorizationStatus::Invalid) == "Invalid"@,
        authorization_name(AuthorizationStatus::Revoked) == "Revoked"@,
        authorization_name(AuthorizationStatus::Expired) == "Expired"@,
        authorization_name(AuthorizationStatus::Deactivated) == "Deactivated"@,
        order_name(OrderStatus::Pending) == "Pending"@,
        order_name(OrderStatus::Processing) == "Processing"@,
        order_name(OrderStatus::Valid) == "Valid"@,
        order_name(OrderStatus::Invalid) == "Invalid"@,
{
}

/// Certificate files are configured only in pairs.
pub proof fn files_are_configured_in_pairs(c: BridgeConfig)
    ensures
        has_cert_files(c) <==> !(c.tls_cert is None) && !(c.tls_key is None),
        c.wants_tls() <==> c.hostname is Some && !crate::config::is_ip_host(c.hostname->0@),
{
}

/// What is said of events and steps of the listener is what they hold.
pub proof fn events_say_what_they_hold(event: ListenEvent, step: ListenStep)
    ensures
        match (event, event@) {
            (ListenEvent::Quiet, ListenEventView::Quiet) => true,
            (ListenEvent::Request(s), ListenEventView::Request(t)) => t == s@,
            (ListenEvent::Failed, ListenEventView::Failed) => true,
            _ => false,
        },
        match (step, step@) {
            (ListenStep::Keep { wait_millis }, ListenStepView::Keep { wait_millis: n }) => n
                == wait_millis,
            (ListenStep::AnswerAndClose(s), ListenStepView::AnswerAndClose(t)) => t == s@,
            (ListenStep::Close, ListenStepView::Close) => true,
            _ => false,
        },
{
}

} // verus!
