//! Bridge configuration: what `amail_bridge.toml` can say, what holds where it
//! says nothing, and what the environment overrides.
//!
//! Reading the file and the environment is left to the program around this
//! library. Paths are plain texts.

use vstd::prelude::*;

use crate::ip::parse_ip;
use crate::text::{
    contains, ends_with, parse_number, parse_port, rsplit_once, same_text, split_all, split_once,
    starts_with, strip_prefix, trim,
};

verus! {

broadcast use vstd::seq::group_seq_axioms;

// ── Sections ───────────────────────────────────────────────────────

/// A virtual host site: exactly one of `root`, `proxy` and `redirect` is set.
#[derive(Debug, Clone)]
pub struct VhostSiteConfig {
    pub domain: String,
    pub root: Option<String>,
    pub proxy: Option<String>,
    pub redirect: Option<String>,
}

/// Push mode.
#[derive(Debug, Clone)]
pub struct PushConfig {
    /// IP/CIDR allowlist for webhook posts. Empty allows all.
    pub allowed_ips: Vec<String>,
    /// IP/CIDR blacklist for webhook posts. Empty blocks none.
    pub blacklist_ips: Vec<String>,
    /// Requests per second and source IP; 0 is no limit.
    pub rate_limit: u32,
    /// The largest request body, in megabytes.
    pub body_limit_mb: u32,
    /// Virtual host sites.
    pub sites: Vec<VhostSiteConfig>,
}

/// One system that is pulled from.
#[derive(Debug)]
pub struct PullSystemConfig {
    pub amail_url: String,
    pub admin_key: String,
    pub api_key: String,
    pub poll_interval_sec: u64,
    pub system_id: String,
}

/// Pull mode. The systems to pull from are listed, or else the one that the
/// other fields describe.
#[derive(Debug, Clone)]
pub struct PullConfig {
    pub amail_url: String,
    pub admin_key: String,
    pub api_key: String,
    pub poll_interval_sec: u64,
    pub system_id: String,
    pub systems: Vec<PullSystemConfig>,
}

/// Logging.
#[derive(Debug, Clone)]
pub struct LoggingConfig {
    pub level: String,
    /// The log file; standard output if there is none.
    pub file: Option<String>,
}

/// Route health checks.
#[derive(Debug, Clone)]
pub struct HealthConfig {
    /// The seconds between two rounds of probes.
    pub check_interval_sec: u64,
    /// The failures in a row after which the routes to a target are removed.
    pub fail_threshold: u32,
    /// The seconds that a probe waits for a connection.
    pub connect_timeout_sec: u64,
}

/// The whole configuration.
#[derive(Debug, Clone)]
pub struct BridgeConfig {
    /// `push` or `pull`.
    pub mode: String,
    /// The listen address, `host:port`.
    pub addr: String,
    /// The public name that is announced. A domain enables TLS, an IP does not.
    pub hostname: Option<String>,
    /// A TLS certificate file.
    pub tls_cert: Option<String>,
    /// The private key file that goes with it.
    pub tls_key: Option<String>,
    /// Where acquired certificates are kept.
    pub acme_cache: Option<String>,
    /// The contact address for certificate accounts.
    pub acme_email: Option<String>,
    /// Where challenge proofs are put for an HTTP server that runs beside.
    pub acme_challenge_path: Option<String>,
    /// IP/CIDR allowlist of the admin API.
    pub admin_allowed_ips: Vec<String>,
    /// The headers that are passed on to the agents.
    pub forward_headers: Vec<String>,
    pub push: PushConfig,
    pub pull: PullConfig,
    /// The Hermes home directory.
    pub hermes_home: Option<String>,
    /// The Hermes default profile, found at startup.
    pub default_profile_dir: String,
    /// Where the routes are saved, found at startup.
    pub routes_file: String,
    pub logging: LoggingConfig,
    pub health: HealthConfig,
}

// ── Defaults ───────────────────────────────────────────────────────

/// The mode where none is set.
pub fn default_mode() -> (r: String)
    ensures
        r@ == "push"@,
{
    String::from_str("push")
}

/// The listen address where none is set.
pub fn default_listen_addr() -> (r: String)
    ensures
        r@ == "0.0.0.0:38080"@,
{
    String::from_str("0.0.0.0:38080")
}

/// The seconds between two polls where nothing is set.
pub fn default_poll_interval() -> (r: u64)
    ensures
        r == 10,
{
    10
}

/// The log level where none is set.
pub fn default_log_level() -> (r: String)
    ensures
        r@ == "info"@,
{
    String::from_str("info")
}

/// The requests per second and source IP where nothing is set.
pub fn default_rate_limit() -> (r: u32)
    ensures
        r == 30,
{
    30
}

/// The largest request body where nothing is set, in megabytes.
pub fn default_body_limit() -> (r: u32)
    ensures
        r == 20,
{
    20
}

/// The seconds between two rounds of probes where nothing is set.
pub fn default_health_check_interval() -> (r: u64)
    ensures
        r == 60,
{
    60
}

/// The failures in a row that make a target dead where nothing is set.
pub fn default_health_fail_threshold() -> (r: u32)
    ensures
        r == 3,
{
    3
}

/// The seconds that a probe waits for a connection where nothing is set.
pub fn default_health_connect_timeout() -> (r: u64)
    ensures
        r == 3,
{
    3
}

/// The admin API is for this machine alone where nothing is set.
pub open spec fn localhost_only() -> Seq<Seq<char>> {
    seq!["127.0.0.1"@, "::1"@]
}

/// The admin allowlist where none is set.
pub fn default_admin_allowed_ips() -> (r: Vec<String>)
    ensures
        crate::text::texts(r@) == localhost_only(),
{
    let mut r: Vec<String> = Vec::new();
    r.push(String::from_str("127.0.0.1"));
    r.push(String::from_str("::1"));
    assert(crate::text::texts(r@) =~= localhost_only());
    r
}

/// The headers that are passed on where nothing is set.
pub open spec fn relay_headers() -> Seq<Seq<char>> {
    seq!["X-Amail-Email"@, "X-Webhook-Signature"@, "X-Mailrelay-Timestamp"@, "content-type"@]
}

/// The headers that are passed on where nothing is set.
pub fn default_forward_headers() -> (r: Vec<String>)
    ensures
        crate::text::texts(r@) == relay_headers(),
{
    let mut r: Vec<String> = Vec::new();
    r.push(String::from_str("X-Amail-Email"));
    r.push(String::from_str("X-Webhook-Signature"));
    r.push(String::from_str("X-Mailrelay-Timestamp"));
    r.push(String::from_str("content-type"));
    assert(crate::text::texts(r@) =~= relay_headers());
    r
}

impl Default for PushConfig {
    fn default() -> (r: Self)
        ensures
            r.allowed_ips@.len() == 0,
            r.blacklist_ips@.len() == 0,
            r.rate_limit == 30,
            r.body_limit_mb == 20,
            r.sites@.len() == 0,
    {
        PushConfig {
            allowed_ips: Vec::new(),
            blacklist_ips: Vec::new(),
            rate_limit: default_rate_limit(),
            body_limit_mb: default_body_limit(),
            sites: Vec::new(),
        }
    }
}

impl PushConfig {
    /// The largest request body, in bytes.
    pub fn body_limit_bytes(&self) -> (r: u64)
        ensures
            r == self.body_limit_mb * 1024 * 1024,
    {
        self.body_limit_mb as u64 * 1024 * 1024
    }
}

impl Default for PullConfig {
    fn default() -> (r: Self)
        ensures
            r.amail_url@.len() == 0,
            r.admin_key@.len() == 0,
            r.api_key@.len() == 0,
            r.poll_interval_sec == 10,
            r.system_id@ == "admin"@,
            r.systems@.len() == 0,
    {
        PullConfig {
            amail_url: String::new(),
            admin_key: String::new(),
            api_key: String::new(),
            poll_interval_sec: default_poll_interval(),
            system_id: String::from_str("admin"),
            systems: Vec::new(),
        }
    }
}

impl Default for LoggingConfig {
    fn default() -> (r: Self)
        ensures
            r.level@ == "info"@,
            r.file is None,
    {
        LoggingConfig { level: default_log_level(), file: None }
    }
}

impl Default for HealthConfig {
    fn default() -> (r: Self)
        ensures
            r.check_interval_sec == 60,
            r.fail_threshold == 3,
            r.connect_timeout_sec == 3,
    {
        HealthConfig {
            check_interval_sec: default_health_check_interval(),
            fail_threshold: default_health_fail_threshold(),
            connect_timeout_sec: default_health_connect_timeout(),
        }
    }
}

impl Default for BridgeConfig {
    fn default() -> (r: Self)
        ensures
            r.mode@ == "push"@,
            r.addr@ == "0.0.0.0:38080"@,
            r.hostname is None,
            r.tls_cert is None,
            r.tls_key is None,
            r.acme_cache is None,
            r.acme_email is None,
            r.acme_challenge_path is None,
            crate::text::texts(r.admin_allowed_ips@) == localhost_only(),
            crate::text::texts(r.forward_headers@) == relay_headers(),
            r.push.allowed_ips@.len() == 0,
            r.push.blacklist_ips@.len() == 0,
            r.push.rate_limit == 30,
            r.push.body_limit_mb == 20,
            r.push.sites@.len() == 0,
            r.pull.amail_url@.len() == 0,
            r.pull.admin_key@.len() == 0,
            r.pull.api_key@.len() == 0,
            r.pull.poll_interval_sec == 10,
            r.pull.system_id@ == "admin"@,
            r.pull.systems@.len() == 0,
            r.hermes_home is None,
            r.default_profile_dir@.len() == 0,
            r.routes_file@.len() == 0,
            r.logging.level@ == "info"@,
            r.logging.file is None,
            r.health.check_interval_sec == 60,
            r.health.fail_threshold == 3,
            r.health.connect_timeout_sec == 3,
    {
        BridgeConfig {
            mode: default_mode(),
            addr: default_listen_addr(),
            hostname: None,
            tls_cert: None,
            tls_key: None,
            acme_cache: None,
            acme_email: None,
            acme_challenge_path: None,
            admin_allowed_ips: default_admin_allowed_ips(),
            forward_headers: default_forward_headers(),
            push: PushConfig::default(),
            pull: PullConfig::default(),
            hermes_home: None,
            default_profile_dir: String::new(),
            routes_file: String::new(),
            logging: LoggingConfig::default(),
            health: HealthConfig::default(),
        }
    }
}

// ── Systems to pull from ───────────────────────────────────────────

/// What is known of a system to pull from.
#[verifier::ext_equal]
pub struct SystemView {
    pub amail_url: Seq<char>,
    pub admin_key: Seq<char>,
    pub api_key: Seq<char>,
    pub poll_interval_sec: u64,
    pub system_id: Seq<char>,
}

impl View for PullSystemConfig {
    type V = SystemView;

    open spec fn view(&self) -> SystemView {
        SystemView {
            amail_url: self.amail_url@,
            admin_key: self.admin_key@,
            api_key: self.api_key@,
            poll_interval_sec: self.poll_interval_sec,
            system_id: self.system_id@,
        }
    }
}

impl Clone for PullSystemConfig {
    fn clone(&self) -> (r: Self)
        ensures
            r@ == self@,
    {
        PullSystemConfig {
            amail_url: self.amail_url.clone(),
            admin_key: self.admin_key.clone(),
            api_key: self.api_key.clone(),
            poll_interval_sec: self.poll_interval_sec,
            system_id: self.system_id.clone(),
        }
    }
}

/// What is known of systems.
pub open spec fn system_views(v: Seq<PullSystemConfig>) -> Seq<SystemView> {
    v.map_values(|s: PullSystemConfig| s@)
}

/// The key to use: the API key, or else the admin key.
pub open spec fn key_of(api_key: Seq<char>, admin_key: Seq<char>) -> Seq<char> {
    if api_key.len() > 0 {
        api_key
    } else {
        admin_key
    }
}

impl PullSystemConfig {
    /// The key to use: the API key, or else the admin key.
    pub fn effective_key(&self) -> (r: &str)
        ensures
            r@ == key_of(self.api_key@, self.admin_key@),
    {
        if !self.api_key.as_str().is_empty() {
            self.api_key.as_str()
        } else {
            self.admin_key.as_str()
        }
    }
}

impl PullConfig {
    /// The systems to pull from.
    pub open spec fn system_list(&self) -> Seq<SystemView> {
        if self.systems@.len() > 0 {
            system_views(self.systems@)
        } else {
            seq![
                SystemView {
                    amail_url: self.amail_url@,
                    admin_key: self.admin_key@,
                    api_key: self.api_key@,
                    poll_interval_sec: self.poll_interval_sec,
                    system_id: self.system_id@,
                },
            ]
        }
    }

    /// The key to use: the API key, or else the admin key.
    pub fn effective_key(&self) -> (r: &str)
        ensures
            r@ == key_of(self.api_key@, self.admin_key@),
    {
        if !self.api_key.as_str().is_empty() {
            self.api_key.as_str()
        } else {
            self.admin_key.as_str()
        }
    }

    /// The systems to pull from: those that are listed, or else the one that
    /// the other fields describe.
    pub fn resolved_systems(&self) -> (r: Vec<PullSystemConfig>)
        ensures
            system_views(r@) == self.system_list(),
    {
        let mut out: Vec<PullSystemConfig> = Vec::new();
        if self.systems.len() == 0 {
            out.push(
                PullSystemConfig {
                    amail_url: self.amail_url.clone(),
                    admin_key: self.admin_key.clone(),
                    api_key: self.api_key.clone(),
                    poll_interval_sec: self.poll_interval_sec,
                    system_id: self.system_id.clone(),
                },
            );
            assert(system_views(out@) =~= self.system_list());
            return out;
        }
        let ghost all = system_views(self.systems@);
        let mut i: usize = 0;
        assert(system_views(out@) =~= all.take(0));
        while i < self.systems.len()
            invariant
                i <= self.systems@.len(),
                all == system_views(self.systems@),
                system_views(out@) == all.take(i as int),
            decreases self.systems@.len() - i,
        {
            let ghost before = out@;
            let s = self.systems[i].clone();
            out.push(s);
            assert(system_views(out@) =~= system_views(before).push(s@));
            assert(all[i as int] == s@);
            assert(all.take(i + 1) =~= all.take(i as int).push(s@));
            i += 1;
        }
        assert(all.take(i as int) =~= all);
        out
    }
}

// ── Addresses ──────────────────────────────────────────────────────

/// The text inside the brackets that `h` begins with, if it does.
pub open spec fn bracketed_part(h: Seq<char>) -> Option<Seq<char>> {
    match crate::text::after_prefix(h, "["@) {
        Some(b) => match crate::text::split_first(b, "]"@) {
            Some((inner, _)) => Some(inner),
            None => None,
        },
        None => None,
    }
}

/// What stands before the first colon.
pub open spec fn before_colon(h: Seq<char>) -> Seq<char> {
    match crate::text::split_first(h, ":"@) {
        Some((a, _)) => a,
        None => h,
    }
}

/// A host that is an IP address, alone or with a port behind it.
pub open spec fn is_ip_host(h: Seq<char>) -> bool {
    ||| crate::ip::ip_address(h) is Some
    ||| crate::ip::ip_address(before_colon(h)) is Some
    ||| bracketed_part(h) is Some && crate::ip::ip_address(bracketed_part(h)->0) is Some
}

/// Whether a host is an IP address, alone or with a port behind it.
pub fn is_ip_address(host: &str) -> (r: bool)
    ensures
        r == is_ip_host(host@),
{
    if parse_ip(host).is_some() {
        return true;
    }
    let first = match split_once(host, ":") {
        Some((a, _port)) => a,
        None => host,
    };
    if parse_ip(first).is_some() {
        return true;
    }
    match strip_prefix(host, "[") {
        Some(b) => match split_once(b, "]") {
            Some((inner, _port)) => parse_ip(inner).is_some(),
            None => false,
        },
        None => false,
    }
}

/// The host and the port of a listen address; port 80 where there is none.
pub open spec fn listen_address(addr: Seq<char>) -> (Seq<char>, u16) {
    match crate::router::split_port(addr) {
        Some(hp) => hp,
        None => (addr, 80),
    }
}

impl BridgeConfig {
    /// TLS is asked for: the public name is a domain.
    pub open spec fn wants_tls(&self) -> bool {
        self.hostname is Some && !is_ip_host(self.hostname->0@)
    }

    /// The host and the port to listen at.
    pub fn parsed_addr(&self) -> (r: (&str, u16))
        ensures
            (r.0@, r.1) == listen_address(self.addr@),
    {
        if let Some((host, p)) = rsplit_once(self.addr.as_str(), ":") {
            if let Some(port) = parse_port(p) {
                return (host, port);
            }
        }
        (self.addr.as_str(), 80)
    }

    /// Whether TLS is asked for: the public name is a domain.
    pub fn has_tls(&self) -> (r: bool)
        ensures
            r == self.wants_tls(),
    {
        match &self.hostname {
            Some(h) => !is_ip_address(h.as_str()),
            None => false,
        }
    }

    /// Whether port 80 redirects to port 443: the listen port is 80 and the
    /// public name is a domain.
    pub fn is_dual_port(&self) -> (r: bool)
        ensures
            r == (listen_address(self.addr@).1 == 80 && self.wants_tls()),
    {
        let (_host, port) = self.parsed_addr();
        port == 80 && self.has_tls()
    }
}

// ── Validation ─────────────────────────────────────────────────────

/// Something to tell whoever runs the bridge. The number is that of a system
/// to pull from.
#[derive(Debug, Clone, Copy, PartialEq, Eq, Structural)]
pub enum Notice {
    /// The system has no URL: pulling will fail.
    EmptyUrl(usize),
    /// The system has no key: authentication will fail.
    NoKey(usize),
    /// The system has no id: the query will fail.
    EmptySystemId(usize),
    /// A public name without certificate files: a certificate will be acquired.
    AcmeAttempt,
    /// Port 80 redirects to port 443.
    DualPort,
}

/// What there is to say about the first `n` systems.
pub open spec fn system_notices(systems: Seq<SystemView>, n: nat) -> Seq<Notice>
    decreases n,
{
    if n == 0 {
        Seq::empty()
    } else {
        let i = (n - 1) as usize;
        let s = systems[n - 1];
        system_notices(systems, (n - 1) as nat) + (if s.amail_url.len() == 0 {
            seq![Notice::EmptyUrl(i)]
        } else {
            Seq::empty()
        }) + (if s.admin_key.len() == 0 && s.api_key.len() == 0 {
            seq![Notice::NoKey(i)]
        } else {
            Seq::empty()
        }) + (if s.system_id.len() == 0 {
            seq![Notice::EmptySystemId(i)]
        } else {
            Seq::empty()
        })
    }
}

impl BridgeConfig {
    /// What there is to say about the configuration.
    pub open spec fn notices(&self) -> Seq<Notice> {
        let systems = self.pull.system_list();
        (if self.mode@ == "pull"@ {
            system_notices(systems, systems.len())
        } else {
            Seq::empty()
        }) + (if self.hostname is Some && self.tls_cert is None && self.tls_key is None {
            seq![Notice::AcmeAttempt]
        } else {
            Seq::empty()
        }) + (if listen_address(self.addr@).1 == 80 && self.wants_tls() {
            seq![Notice::DualPort]
        } else {
            Seq::empty()
        })
    }

    /// What there is to say about the configuration, in order.
    pub fn validate(&self) -> (r: Vec<Notice>)
        ensures
            r@ == self.notices(),
    {
        let mut out: Vec<Notice> = Vec::new();
        let ghost mut said: Seq<Notice> = Seq::empty();
        if same_text(self.mode.as_str(), "pull") {
            let systems = self.pull.resolved_systems();
            let ghost all = self.pull.system_list();
            let mut i: usize = 0;
            while i < systems.len()
                invariant
                    i <= systems@.len(),
                    all == system_views(systems@),
                    out@ == system_notices(all, i as nat),
                decreases systems@.len() - i,
            {
                assert(all[i as int] == systems@[i as int]@);
                let s = &systems[i];
                if s.amail_url.as_str().is_empty() {
                    out.push(Notice::EmptyUrl(i));
                }
                if s.admin_key.as_str().is_empty() && s.api_key.as_str().is_empty() {
                    out.push(Notice::NoKey(i));
                }
                if s.system_id.as_str().is_empty() {
                    out.push(Notice::EmptySystemId(i));
                }
                assert(out@ =~= system_notices(all, (i + 1) as nat));
                i += 1;
            }
            proof {
                said = system_notices(all, all.len());
            }
        }
        assert(out@ =~= said);
        if self.hostname.is_some() && self.tls_cert.is_none() && self.tls_key.is_none() {
            out.push(Notice::AcmeAttempt);
        }
        if self.is_dual_port() {
            out.push(Notice::DualPort);
        }
        assert(out@ =~= self.notices());
        out
    }
}

// ── Loading ────────────────────────────────────────────────────────

/// What the environment sets.
#[derive(Debug, Default)]
pub struct EnvOverrides {
    /// `AMAIL_BRIDGE_MODE`
    pub mode: Option<String>,
    /// `AMAIL_BRIDGE_HOSTNAME`
    pub hostname: Option<String>,
    /// `AMAIL_GATEWAY_URL`
    pub gateway_url: Option<String>,
    /// `AMAIL_BRIDGE_ADMIN_KEY`
    pub admin_key: Option<String>,
    /// `AMAIL_BRIDGE_SYSTEM_ID`
    pub system_id: Option<String>,
    /// `AMAIL_BRIDGE_POLL_SECS`
    pub poll_secs: Option<String>,
    /// `AMAIL_BRIDGE_ALLOWED_IPS`
    pub allowed_ips: Option<String>,
    /// `HERMES_HOME`
    pub hermes_home: Option<String>,
}

/// The value that is set, or else the one that was there.
pub open spec fn overridden<T>(set: Option<T>, before: T) -> T {
    match set {
        Some(v) => v,
        None => before,
    }
}

/// The pieces between the commas, without white space around them.
pub open spec fn comma_list(s: Seq<char>) -> Seq<Seq<char>> {
    crate::text::pieces(s, ',').map_values(|p: Seq<char>| crate::text::trimmed(p))
}

/// The seconds that a text spells; 10 where it spells no number.
pub open spec fn seconds(s: Seq<char>) -> u64 {
    match crate::text::number(s, u64::MAX as nat) {
        Some(n) => n as u64,
        None => 10,
    }
}

/// The file `name` in the directory `dir`. An absolute name stands for itself.
pub open spec fn path_in(dir: Seq<char>, name: Seq<char>) -> Seq<char> {
    if crate::text::has_prefix(name, "/"@) {
        name
    } else if dir.len() == 0 || crate::text::has_suffix(dir, "/"@) {
        dir + name
    } else {
        dir + "/"@ + name
    }
}

/// A URL with `http://` in front, if it has no scheme and is not empty.
pub open spec fn with_scheme(url: Seq<char>) -> Seq<char> {
    if url.len() > 0 && !crate::text::contains_text(url, "://"@) {
        "http://"@ + url
    } else {
        url
    }
}

/// The file `name` in the directory `dir`. An absolute name stands for itself.
pub fn join_path(dir: &str, name: &str) -> (r: String)
    ensures
        r@ == path_in(dir@, name@),
{
    if starts_with(name, "/") {
        return String::from_str(name);
    }
    let mut out = String::from_str(dir);
    if !dir.is_empty() && !ends_with(dir, "/") {
        out.append("/");
    }
    out.append(name);
    assert(out@ =~= path_in(dir@, name@));
    out
}

/// The pieces between the commas, without white space around them.
fn read_comma_list(s: &str) -> (r: Vec<String>)
    ensures
        crate::text::texts(r@) == comma_list(s@),
{
    let p = split_all(s, ',');
    let ghost all = comma_list(s@);
    let mut out: Vec<String> = Vec::new();
    let mut i: usize = 0;
    assert(crate::text::texts(out@) =~= all.take(0));
    while i < p.len()
        invariant
            i <= p@.len(),
            all == crate::text::views(p@).map_values(|t: Seq<char>| crate::text::trimmed(t)),
            crate::text::texts(out@) == all.take(i as int),
        decreases p@.len() - i,
    {
        let ghost before = out@;
        let t = String::from_str(trim(p[i]));
        out.push(t);
        assert(crate::text::views(p@)[i as int] == p@[i as int]@);
        assert(all[i as int] == t@);
        assert(crate::text::texts(out@) =~= crate::text::texts(before).push(t@));
        assert(all.take(i + 1) =~= all.take(i as int).push(t@));
        i += 1;
    }
    assert(all.take(i as int) =~= all);
    out
}

impl BridgeConfig {
    /// Takes over what the environment sets. An empty public name sets nothing.
    pub fn apply_env(&mut self, env: EnvOverrides)
        ensures
            final(self).mode == overridden(env.mode, old(self).mode),
            final(self).hostname == if env.hostname is Some && env.hostname->0@.len() > 0 {
                env.hostname
            } else {
                old(self).hostname
            },
            final(self).pull.amail_url == overridden(env.gateway_url, old(self).pull.amail_url),
            final(self).pull.admin_key == overridden(env.admin_key, old(self).pull.admin_key),
            final(self).pull.system_id == overridden(env.system_id, old(self).pull.system_id),
            final(self).pull.poll_interval_sec == match env.poll_secs {
                Some(v) => seconds(v@),
                None => old(self).pull.poll_interval_sec,
            },
            match env.allowed_ips {
                Some(v) => crate::text::texts(final(self).push.allowed_ips@) == comma_list(v@),
                None => final(self).push.allowed_ips == old(self).push.allowed_ips,
            },
            final(self).hermes_home == if env.hermes_home is Some {
                env.hermes_home
            } else {
                old(self).hermes_home
            },
            final(self).addr == old(self).addr,
            final(self).tls_cert == old(self).tls_cert,
            final(self).tls_key == old(self).tls_key,
            final(self).acme_cache == old(self).acme_cache,
            final(self).acme_email == old(self).acme_email,
            final(self).acme_challenge_path == old(self).acme_challenge_path,
            final(self).admin_allowed_ips == old(self).admin_allowed_ips,
            final(self).forward_headers == old(self).forward_headers,
            final(self).push.blacklist_ips == old(self).push.blacklist_ips,
            final(self).push.rate_limit == old(self).push.rate_limit,
            final(self).push.body_limit_mb == old(self).push.body_limit_mb,
            final(self).push.sites == old(self).push.sites,
            final(self).pull.api_key == old(self).pull.api_key,
            final(self).pull.systems == old(self).pull.systems,
            final(self).default_profile_dir == old(self).default_profile_dir,
            final(self).routes_file == old(self).routes_file,
            final(self).logging == old(self).logging,
            final(self).health == old(self).health,
    {
        if let Some(v) = env.mode {
            self.mode = v;
        }
        if let Some(v) = env.hostname {
            if !v.as_str().is_empty() {
                self.hostname = Some(v);
            }
        }
        if let Some(v) = env.gateway_url {
            self.pull.amail_url = v;
        }
        if let Some(v) = env.admin_key {
            self.pull.admin_key = v;
        }
        if let Some(v) = env.system_id {
            self.pull.system_id = v;
        }
        if let Some(v) = env.poll_secs {
            self.pull.poll_interval_sec = match parse_number(v.as_str(), u64::MAX) {
                Some(n) => n,
                None => 10,
            };
        }
        if let Some(v) = env.allowed_ips {
            self.push.allowed_ips = read_comma_list(v.as_str());
        }
        if let Some(v) = env.hermes_home {
            self.hermes_home = Some(v);
        }
    }

    /// Fills in what depends on the machine and on the place of the file, and
    /// puts the rest in order: the Hermes directory, the routes file beside the
    /// configuration, the scheme of the relay's URL, and an admin API that is
    /// for this machine alone unless addresses are listed.
    pub fn finish_load(&mut self, home: Option<String>, config_dir: &str)
        ensures
            final(self).default_profile_dir@ == match old(self).hermes_home {
                Some(h) => h@,
                None => path_in(
                    match home {
                        Some(d) => d@,
                        None => "/tmp"@,
                    },
                    ".hermes"@,
                ),
            },
            final(self).routes_file@ == path_in(config_dir@, "amail_routes.toml"@),
            final(self).pull.amail_url@ == with_scheme(old(self).pull.amail_url@),
            crate::text::texts(final(self).admin_allowed_ips@) == if old(
                self,
            ).admin_allowed_ips@.len() > 0 {
                crate::text::texts(old(self).admin_allowed_ips@)
            } else {
                localhost_only()
            },
            final(self).mode == old(self).mode,
            final(self).addr == old(self).addr,
            final(self).hostname == old(self).hostname,
            final(self).tls_cert == old(self).tls_cert,
            final(self).tls_key == old(self).tls_key,
            final(self).acme_cache == old(self).acme_cache,
            final(self).acme_email == old(self).acme_email,
            final(self).acme_challenge_path == old(self).acme_challenge_path,
            final(self).forward_headers == old(self).forward_headers,
            final(self).push == old(self).push,
            final(self).pull.admin_key == old(self).pull.admin_key,
            final(self).pull.api_key == old(self).pull.api_key,
            final(self).pull.poll_interval_sec == old(self).pull.poll_interval_sec,
            final(self).pull.system_id == old(self).pull.system_id,
            final(self).pull.systems == old(self).pull.systems,
            final(self).hermes_home == old(self).hermes_home,
            final(self).logging == old(self).logging,
            final(self).health == old(self).health,
    {
        self.default_profile_dir = match &self.hermes_home {
            Some(h) => h.clone(),
            None => match home {
                Some(d) => join_path(d.as_str(), ".hermes"),
                None => join_path("/tmp", ".hermes"),
            },
        };
        self.routes_file = join_path(config_dir, "amail_routes.toml");
        if !self.pull.amail_url.as_str().is_empty() && !contains(
            self.pull.amail_url.as_str(),
            "://",
        ) {
            let mut url = String::from_str("http://");
            url.append(self.pull.amail_url.as_str());
            self.pull.amail_url = url;
        }
        if self.admin_allowed_ips.len() == 0 {
            self.admin_allowed_ips = default_admin_allowed_ips();
        }
    }
}

// ── Laws ───────────────────────────────────────────────────────────

/// There is always a system to pull from.
pub proof fn some_system_is_pulled_from(c: PullConfig)
    ensures
        c.system_list().len() > 0,
{
}

/// A scheme is put in front of a URL once and for all.
pub proof fn scheme_is_put_once(url: Seq<char>)
    ensures
        with_scheme(with_scheme(url)) == with_scheme(url),
        url.len() > 0 ==> crate::text::contains_text(with_scheme(url), "://"@),
{
    if url.len() > 0 && !crate::text::contains_text(url, "://"@) {
        reveal_strlit("http://");
        reveal_strlit("://");
        let whole = "http://"@ + url;
        assert(whole.subrange(4, 7) =~= "://"@);
        assert(crate::text::occurs_at(whole, "://"@, 4));
    }
}

/// Redirecting port 80 to port 443 goes with TLS, which no IP address has.
pub proof fn dual_port_needs_a_domain(c: BridgeConfig)
    ensures
        c.notices().contains(Notice::DualPort) ==> c.wants_tls(),
        c.hostname is Some && is_ip_host(c.hostname->0@) ==> !c.wants_tls(),
{
    let systems = c.pull.system_list();
    lemma_system_notices(systems, systems.len());
}

/// What is said about systems is about systems.
proof fn lemma_system_notices(systems: Seq<SystemView>, n: nat)
    ensures
        !system_notices(systems, n).contains(Notice::DualPort),
    decreases n,
{
    if n > 0 {
        lemma_system_notices(systems, (n - 1) as nat);
        let front = system_notices(systems, (n - 1) as nat);
        let all = system_notices(systems, n);
        assert forall|i: int| 0 <= i < all.len() implies all[i] != Notice::DualPort by {
            if i < front.len() {
                assert(all[i] == front[i]);
            }
        }
    }
}

/// A name stands below a directory behind one slash; an absolute name stands for
/// itself, and so does a name without a directory.
pub proof fn names_stand_below_directories(dir: Seq<char>, name: Seq<char>)
    requires
        dir.len() > 0,
        dir.last() != '/',
        name.len() > 0 ==> name[0] != '/',
    ensures
        path_in(dir, name) == dir + seq!['/'] + name,
        path_in(dir + seq!['/'], name) == dir + seq!['/'] + name,
        path_in(dir, seq!['/'] + name) == seq!['/'] + name,
        path_in(Seq::empty(), name) == name,
{
    reveal_strlit("/");
    assert("/"@ =~= seq!['/']);
    crate::text::ends_are_told(dir, "/"@);
    crate::text::ends_are_told(name, "/"@);
    if crate::text::has_prefix(name, "/"@) {
        assert(name.subrange(0, 1)[0] == name[0]);
    }
    if crate::text::has_suffix(dir, "/"@) {
        assert(dir.subrange(dir.len() - 1, dir.len() as int)[0] == dir.last());
    }
    assert(Seq::<char>::empty() + name =~= name);
}

/// An address is no domain, alone, with a port behind it or in brackets.
pub proof fn addresses_are_no_domains(text: Seq<char>, behind: Seq<char>)
    requires
        crate::ip::ip_address(text) is Some,
    ensures
        is_ip_host(text),
        !text.contains(':') ==> is_ip_host(text + ":"@ + behind),
        !text.contains(']') ==> is_ip_host("["@ + text + "]"@ + behind),
{
    reveal_strlit(":");
    reveal_strlit("[");
    reveal_strlit("]");
    assert(":"@ =~= seq![':']);
    assert("]"@ =~= seq![']']);
    crate::text::split_at_a_character(text, ':', behind);
    crate::text::split_at_a_character(text, ']', behind);
    let h = "["@ + text + "]"@ + behind;
    assert(h =~= "["@ + (text + "]"@ + behind));
    crate::text::ends_are_told(text + "]"@ + behind, "["@);
}

/// A name is a domain, with or without a port behind it, unless it is an address
/// or the whole is one.
pub proof fn other_names_are_domains(name: Seq<char>, behind: Seq<char>)
    requires
        !name.contains(':'),
        name.len() > 0,
        name[0] != '[',
    ensures
        is_ip_host(name) <==> crate::ip::ip_address(name) is Some,
        is_ip_host(name + ":"@ + behind) <==> crate::ip::ip_address(name) is Some
            || crate::ip::ip_address(name + ":"@ + behind) is Some,
{
    reveal_strlit(":");
    reveal_strlit("[");
    assert(":"@ =~= seq![':']);
    crate::text::split_at_a_character(name, ':', behind);
    crate::text::split_at_no_character(name, ':');
    let h = name + ":"@ + behind;
    assert(!crate::text::has_prefix(name, "["@)) by {
        assert(name.subrange(0, 1)[0] == name[0]);
        assert("["@[0] == '[');
    }
    assert(!crate::text::has_prefix(h, "["@)) by {
        assert(h.subrange(0, 1)[0] == name[0]);
        assert("["@[0] == '[');
    }
}

/// The listen address is taken apart before the port; without one the port is 80.
pub proof fn listen_port_stands_behind_the_colon(host: Seq<char>, port: u16, other: Seq<char>)
    ensures
        listen_address(host + ":"@ + crate::text::decimal(port as nat)) == (host, port),
        !host.contains(':') ==> listen_address(host) == (host, 80u16),
        !other.contains(':') && crate::text::number(other, 65535) is None ==> listen_address(
            host + ":"@ + other,
        ) == (host + ":"@ + other, 80u16),
{
    reveal_strlit(":");
    assert(":"@ =~= seq![':']);
    let d = crate::text::decimal(port as nat);
    crate::text::lemma_number_of_decimal(port as nat, 0xffff);
    crate::text::spelling_is_short(port as nat);
    assert(!d.contains(':'));
    crate::text::split_at_a_character(host, ':', d);
    crate::text::split_at_a_character(host, ':', other);
    crate::text::split_at_no_character(host, ':');
}

/// All listed systems are pulled from, in their order; where none is listed, the
/// one that the settings beside the list describe is.
pub proof fn listed_systems_are_pulled_from(c: PullConfig, i: int)
    ensures
        c.systems@.len() > 0 ==> c.system_list().len() == c.systems@.len(),
        0 <= i < c.systems@.len() ==> c.system_list()[i] == (SystemView {
            amail_url: c.systems@[i].amail_url@,
            admin_key: c.systems@[i].admin_key@,
            api_key: c.systems@[i].api_key@,
            poll_interval_sec: c.systems@[i].poll_interval_sec,
            system_id: c.systems@[i].system_id@,
        }),
        c.systems@.len() == 0 ==> c.system_list().len() == 1 && c.system_list()[0] == (SystemView {
            amail_url: c.amail_url@,
            admin_key: c.admin_key@,
            api_key: c.api_key@,
            poll_interval_sec: c.poll_interval_sec,
            system_id: c.system_id@,
        }),
{
}

/// The API key is used where there is one, and the admin key otherwise.
pub proof fn api_key_wins(api_key: Seq<char>, admin_key: Seq<char>)
    ensures
        api_key.len() > 0 ==> key_of(api_key, admin_key) == api_key,
        key_of(Seq::empty(), admin_key) == admin_key,
{
}

/// The notices on the systems are exactly those on empty URLs, missing keys and
/// empty ids.
proof fn lemma_notices_of_systems(systems: Seq<SystemView>, n: nat, i: usize)
    requires
        n <= systems.len() <= usize::MAX,
    ensures
        system_notices(systems, n).contains(Notice::EmptyUrl(i)) <==> i < n
            && systems[i as int].amail_url.len() == 0,
        system_notices(systems, n).contains(Notice::NoKey(i)) <==> i < n
            && systems[i as int].admin_key.len() == 0 && systems[i as int].api_key.len() == 0,
        system_notices(systems, n).contains(Notice::EmptySystemId(i)) <==> i < n
            && systems[i as int].system_id.len() == 0,
        !system_notices(systems, n).contains(Notice::AcmeAttempt),
        !system_notices(systems, n).contains(Notice::DualPort),
    decreases n,
{
    if n > 0 {
        let m = (n - 1) as nat;
        lemma_notices_of_systems(systems, m, i);
        let front = system_notices(systems, m);
        let s = systems[n - 1];
        let at = (n - 1) as usize;
        let a = if s.amail_url.len() == 0 {
            seq![Notice::EmptyUrl(at)]
        } else {
            Seq::empty()
        };
        let b = if s.admin_key.len() == 0 && s.api_key.len() == 0 {
            seq![Notice::NoKey(at)]
        } else {
            Seq::empty()
        };
        let c = if s.system_id.len() == 0 {
            seq![Notice::EmptySystemId(at)]
        } else {
            Seq::empty()
        };
        assert(system_notices(systems, n) == front + a + b + c);
        lemma_sum_holds(front, a, b, c, Notice::EmptyUrl(i));
        lemma_sum_holds(front, a, b, c, Notice::NoKey(i));
        lemma_sum_holds(front, a, b, c, Notice::EmptySystemId(i));
        lemma_sum_holds(front, a, b, c, Notice::AcmeAttempt);
        lemma_sum_holds(front, a, b, c, Notice::DualPort);
        lemma_at_most_one(a, Notice::EmptyUrl(at));
        lemma_at_most_one(b, Notice::NoKey(at));
        lemma_at_most_one(c, Notice::EmptySystemId(at));
    }
}

/// What stands in a list of lists stands in one of them.
proof fn lemma_sum_holds(a: Seq<Notice>, b: Seq<Notice>, c: Seq<Notice>, d: Seq<Notice>, x: Notice)
    ensures
        (a + b + c + d).contains(x) <==> a.contains(x) || b.contains(x) || c.contains(x)
            || d.contains(x),
{
    let all = a + b + c + d;
    if a.contains(x) {
        let i = choose|i: int| 0 <= i < a.len() && a[i] == x;
        assert(all[i] == x);
    }
    if b.contains(x) {
        let i = choose|i: int| 0 <= i < b.len() && b[i] == x;
        assert(all[a.len() + i] == x);
    }
    if c.contains(x) {
        let i = choose|i: int| 0 <= i < c.len() && c[i] == x;
        assert(all[a.len() + b.len() + i] == x);
    }
    if d.contains(x) {
        let i = choose|i: int| 0 <= i < d.len() && d[i] == x;
        assert(all[a.len() + b.len() + c.len() + i] == x);
    }
    if all.contains(x) {
        let i = choose|i: int| 0 <= i < all.len() && all[i] == x;
        if i < a.len() {
            assert(a[i] == x);
        } else if i < a.len() + b.len() {
            assert(b[i - a.len()] == x);
        } else if i < a.len() + b.len() + c.len() {
            assert(c[i - a.len() - b.len()] == x);
        } else {
            assert(d[i - a.len() - b.len() - c.len()] == x);
        }
    }
}

/// A list of one holds that one.
proof fn lemma_at_most_one(a: Seq<Notice>, x: Notice)
    requires
        a.len() == 0 || a == seq![x],
    ensures
        a.contains(x) <==> a.len() > 0,
        forall|y: Notice| a.contains(y) ==> y == x,
{
    if a.len() > 0 {
        assert(a[0] == x);
    }
}

/// What is noticed of a configuration: in pull mode each system without a URL,
/// without any key and without an id; a name without certificate files; and a
/// domain at port 80.
pub proof fn notices_say_what_is_missing(c: BridgeConfig, i: usize)
    requires
        c.pull.system_list().len() <= usize::MAX,
    ensures
        ({
            let s = c.pull.system_list();
            &&& c.notices().contains(Notice::EmptyUrl(i)) <==> c.mode@ == "pull"@ && i < s.len()
                && s[i as int].amail_url.len() == 0
            &&& c.notices().contains(Notice::NoKey(i)) <==> c.mode@ == "pull"@ && i < s.len()
                && s[i as int].admin_key.len() == 0 && s[i as int].api_key.len() == 0
            &&& c.notices().contains(Notice::EmptySystemId(i)) <==> c.mode@ == "pull"@ && i
                < s.len() && s[i as int].system_id.len() == 0
            &&& c.notices().contains(Notice::AcmeAttempt) <==> c.hostname is Some && c.tls_cert
                is None && c.tls_key is None
            &&& c.notices().contains(Notice::DualPort) <==> listen_address(c.addr@).1 == 80
                && c.hostname is Some && !is_ip_host(c.hostname->0@)
        }),
{
    let s = c.pull.system_list();
    lemma_notices_of_systems(s, s.len(), i);
    let a = if c.mode@ == "pull"@ {
        system_notices(s, s.len())
    } else {
        Seq::empty()
    };
    let b = if c.hostname is Some && c.tls_cert is None && c.tls_key is None {
        seq![Notice::AcmeAttempt]
    } else {
        Seq::empty()
    };
    let d = if listen_address(c.addr@).1 == 80 && c.wants_tls() {
        seq![Notice::DualPort]
    } else {
        Seq::empty()
    };
    let none = Seq::<Notice>::empty();
    assert(c.notices() =~= a + b + d + none);
    lemma_sum_holds(a, b, d, none, Notice::EmptyUrl(i));
    lemma_sum_holds(a, b, d, none, Notice::NoKey(i));
    lemma_sum_holds(a, b, d, none, Notice::EmptySystemId(i));
    lemma_sum_holds(a, b, d, none, Notice::AcmeAttempt);
    lemma_sum_holds(a, b, d, none, Notice::DualPort);
    lemma_at_most_one(b, Notice::AcmeAttempt);
    lemma_at_most_one(d, Notice::DualPort);
}

/// A list is cut at its commas, and white space around its parts counts for
/// nothing.
pub proof fn lists_are_cut_at_commas(a: Seq<char>, b: Seq<char>)
    requires
        !b.contains(','),
    ensures
        comma_list(b) == seq![crate::text::trimmed(b)],
        comma_list(a + seq![','] + b) == comma_list(a).push(crate::text::trimmed(b)),
{
    crate::text::pieces_end_at_separators(a, ',', b);
    assert(comma_list(b) =~= seq![crate::text::trimmed(b)]);
    assert(comma_list(a + seq![','] + b) =~= comma_list(a).push(crate::text::trimmed(b)));
}

/// A number of seconds is taken as it is spelled; anything else is ten seconds.
pub proof fn seconds_are_read(n: u64, s: Seq<char>)
    ensures
        seconds(crate::text::decimal(n as nat)) == n,
        crate::text::number(s, 0xffff_ffff_ffff_ffff) is None ==> seconds(s) == 10,
{
    crate::text::lemma_number_of_decimal(n as nat, 0xffff_ffff_ffff_ffff);
}

/// A URL without a scheme gets `http://` before it; one with a scheme, and one
/// that is empty, stays as it is.
pub proof fn scheme_is_put_where_there_is_none(url: Seq<char>, a: Seq<char>, b: Seq<char>)
    ensures
        with_scheme(Seq::empty()).len() == 0,
        url.len() > 0 && (forall|i: int|
            0 <= i <= url.len() - 3 ==> #[trigger] url.subrange(i, i + 3) != seq![':', '/', '/'])
            ==> with_scheme(url) == "http://"@ + url,
        with_scheme(a + seq![':', '/', '/'] + b) == a + seq![':', '/', '/'] + b,
{
    reveal_strlit("://");
    assert("://"@ =~= seq![':', '/', '/']);
    crate::text::split_nowhere(url, "://"@);
    crate::text::contained_text_stands_somewhere(a + seq![':', '/', '/'] + b, "://"@);
    if url.len() > 0 && (forall|i: int|
        0 <= i <= url.len() - 3 ==> #[trigger] url.subrange(i, i + 3) != seq![':', '/', '/']) {
        assert forall|i: int| 0 <= i <= url.len() - "://"@.len() implies #[trigger] url.subrange(
            i,
            i + "://"@.len(),
        ) != "://"@ by {
            assert(url.subrange(i, i + 3) != seq![':', '/', '/']);
        }
    }
}

/// What the environment sets wins over what was set before.
pub proof fn environment_wins<T>(set: T, before: T)
    ensures
        overridden(Some(set), before) == set,
        overridden(None, before) == before,
{
}

/// The admin API is for this machine alone by default, and the headers of the
/// relay are passed on.
pub proof fn defaults_are_for_the_relay_on_this_machine()
    ensures
        localhost_only() == seq!["127.0.0.1"@, "::1"@],
        relay_headers() == seq![
            "X-Amail-Email"@,
            "X-Webhook-Signature"@,
            "X-Mailrelay-Timestamp"@,
            "content-type"@,
        ],
{
}

/// The listen port and a number of seconds count however they are spelled.
pub proof fn numbers_count_however_spelled(host: Seq<char>, d: Seq<char>)
    ensures
        crate::text::number(d, 65535) matches Some(n) ==> listen_address(host + ":"@ + d) == (
            host,
            n as u16,
        ),
        crate::text::number(d, 0xffff_ffff_ffff_ffff) matches Some(n) ==> seconds(d) == n,
{
    reveal_strlit(":");
    assert(":"@ =~= seq![':']);
    if crate::text::number(d, 65535) is Some {
        crate::router::lemma_port_spelling(d);
        crate::text::split_at_a_character(host, ':', d);
    }
}

/// A system is said to be what it is.
pub proof fn systems_say_what_they_hold(s: PullSystemConfig)
    ensures
        s@.amail_url == s.amail_url@ && s@.admin_key == s.admin_key@ && s@.api_key == s.api_key@
            && s@.poll_interval_sec == s.poll_interval_sec && s@.system_id == s.system_id@,
{
}

/// A directory that ends with a slash has names right behind it, the root too;
/// an absolute name stands for itself in every directory.
pub proof fn names_stand_behind_a_slash(dir: Seq<char>, name: Seq<char>)
    ensures
        name.len() == 0 || name[0] != '/' ==> path_in(dir + seq!['/'], name) == dir + seq!['/']
            + name,
        name.len() > 0 && name[0] == '/' ==> path_in(dir, name) == name,
{
    reveal_strlit("/");
    assert("/"@ =~= seq!['/']);
    crate::text::ends_are_told(dir, "/"@);
    if name.len() > 0 {
        assert(name.subrange(0, 1) =~= seq![name[0]]);
        if name[0] != '/' {
            assert(seq![name[0]][0] != seq!['/'][0]);
        }
    }
}

} // verus!
