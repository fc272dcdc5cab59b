//! Push mode: who may post a webhook, and where it goes.
//!
//! The relay posts to a single stable endpoint. The agent is found by the
//! `X-Amail-Email` header, and the body goes on, as it is, with the configured
//! headers. One post can also carry a body for several agents, with a list of
//! signatures; it is then fanned out.

use vstd::prelude::*;

use crate::ip::IpAddr;
use crate::security::{is_listed, parse_ip_list};

verus! {

broadcast use vstd::seq::group_seq_axioms;

// ── Source addresses ───────────────────────────────────────────────

/// IP/CIDR allowlist. An empty one allows all.
pub struct IpAllowlist {
    entries: Vec<(IpAddr, u8)>,
}

impl IpAllowlist {
    #[verifier::type_invariant]
    spec fn inv(self) -> bool {
        crate::security::are_networks(self.entries@)
    }

    /// The networks of the list.
    pub closed spec fn entries(&self) -> Seq<(IpAddr, u8)> {
        self.entries@
    }

    /// `ip` may come in.
    pub open spec fn admits(&self, ip: IpAddr) -> bool {
        self.entries().len() == 0 || crate::security::listed(self.entries(), ip)
    }

    /// The list that texts such as `192.168.1.1` and `10.0.0.0/8` spell. Texts
    /// that spell no network are left out.
    pub fn from_config(raw: &[String]) -> (r: Self)
        ensures
            r.entries() == crate::security::networks(crate::text::texts(raw@)),
    {
        IpAllowlist { entries: parse_ip_list(raw) }
    }

    /// Whether an address may come in.
    pub fn allows(&self, ip: IpAddr) -> (r: bool)
        ensures
            r == self.admits(ip),
    {
        proof {
            use_type_invariant(&*self);
        }
        self.entries.len() == 0 || is_listed(&self.entries, ip)
    }
}

/// IP/CIDR blacklist. An empty one blocks none.
pub struct IpBlacklist {
    entries: Vec<(IpAddr, u8)>,
}

impl IpBlacklist {
    #[verifier::type_invariant]
    spec fn inv(self) -> bool {
        crate::security::are_networks(self.entries@)
    }

    /// The networks of the list.
    pub closed spec fn entries(&self) -> Seq<(IpAddr, u8)> {
        self.entries@
    }

    /// The list that texts such as `192.168.1.1` and `10.0.0.0/8` spell. Texts
    /// that spell no network are left out.
    pub fn from_config(raw: &[String]) -> (r: Self)
        ensures
            r.entries() == crate::security::networks(crate::text::texts(raw@)),
    {
        IpBlacklist { entries: parse_ip_list(raw) }
    }

    /// Whether an address is shut out.
    pub fn blocks(&self, ip: IpAddr) -> (r: bool)
        ensures
            r == crate::security::listed(self.entries(), ip),
    {
        proof {
            use_type_invariant(&*self);
        }
        is_listed(&self.entries, ip)
    }
}

// ── Rate limiting ──────────────────────────────────────────────────

/// The whole milliseconds from `start` to `now`, both in nanoseconds.
pub open spec fn elapsed_ms(now: u64, start: u64) -> int {
    if now >= start {
        (now - start) / 1_000_000
    } else {
        0
    }
}

/// Those of the times that lie within the second before `now`.
pub open spec fn within(times: Seq<u64>, now: u64) -> Seq<u64>
    decreases times.len(),
{
    if times.len() == 0 {
        Seq::empty()
    } else {
        let front = within(times.drop_last(), now);
        if elapsed_ms(now, times.last()) <= 1000 {
            front.push(times.last())
        } else {
            front
        }
    }
}

/// Some of the times is no older than two seconds.
pub open spec fn is_fresh(times: Seq<u64>, now: u64) -> bool {
    exists|i: int| 0 <= i < times.len() && elapsed_ms(now, #[trigger] times[i]) <= 2000
}

/// The windows that are no older than two seconds.
pub open spec fn recent(windows: Map<IpAddr, Seq<u64>>, now: u64) -> Map<IpAddr, Seq<u64>> {
    Map::new(
        |ip: IpAddr| windows.contains_key(ip) && is_fresh(windows[ip], now),
        |ip: IpAddr| windows[ip],
    )
}

/// The window of `ip` that ends now: when its requests of the last second were
/// allowed.
pub open spec fn window_of(windows: Map<IpAddr, Seq<u64>>, ip: IpAddr, now: u64) -> Seq<u64> {
    if windows.contains_key(ip) {
        within(windows[ip], now)
    } else {
        Seq::empty()
    }
}

/// The answer to a request, of which at most `max` are allowed in the second
/// that ends with it, and the windows after it.
pub open spec fn limit_step(
    windows: Map<IpAddr, Seq<u64>>,
    max: u32,
    ip: IpAddr,
    now: u64,
) -> (bool, Map<IpAddr, Seq<u64>>) {
    let window = window_of(windows, ip, now);
    if max == 0 {
        (true, windows)
    } else if window.len() >= max {
        (false, recent(windows, now).insert(ip, window))
    } else {
        (true, recent(windows, now).insert(ip, window.push(now)))
    }
}

/// When the requests of an address were allowed.
struct SourceWindow {
    ip: IpAddr,
    times: Vec<u64>,
}

/// The windows that a list stands for.
spec fn window_map(s: Seq<SourceWindow>) -> Map<IpAddr, Seq<u64>>
    decreases s.len(),
{
    if s.len() == 0 {
        Map::empty()
    } else {
        window_map(s.drop_last()).insert(s.last().ip, s.last().times@)
    }
}

/// No address has two windows.
spec fn once_each(s: Seq<SourceWindow>) -> bool
    decreases s.len(),
{
    s.len() > 0 ==> once_each(s.drop_last()) && !window_map(s.drop_last()).contains_key(s.last().ip)
}

/// What holds of a list holds of its beginnings.
proof fn lemma_once_each(s: Seq<SourceWindow>, i: int)
    requires
        once_each(s),
        0 <= i <= s.len(),
    ensures
        once_each(s.take(i)),
    decreases s.len() - i,
{
    if i < s.len() {
        lemma_once_each(s, i + 1);
        assert(s.take(i + 1).drop_last() =~= s.take(i));
    } else {
        assert(s.take(i) =~= s);
    }
}

/// The windows of a beginning of a list are windows of the list.
proof fn lemma_window_part(s: Seq<SourceWindow>, i: int, ip: IpAddr)
    requires
        once_each(s),
        0 <= i <= s.len(),
        window_map(s.take(i)).contains_key(ip),
    ensures
        window_map(s).contains_key(ip),
        window_map(s)[ip] == window_map(s.take(i))[ip],
    decreases s.len() - i,
{
    if i < s.len() {
        lemma_once_each(s, i + 1);
        assert(s.take(i + 1).drop_last() =~= s.take(i));
        lemma_window_part(s, i + 1, ip);
    } else {
        assert(s.take(i) =~= s);
    }
}

/// A list has as many entries as addresses.
proof fn lemma_window_count(s: Seq<SourceWindow>)
    requires
        once_each(s),
    ensures
        window_map(s).dom().finite(),
        window_map(s).dom().len() == s.len(),
    decreases s.len(),
{
    if s.len() > 0 {
        lemma_window_count(s.drop_last());
    }
}

/// The windows of other addresses that are kept of those behind a beginning of
/// the list.
spec fn kept_of(
    all: Map<IpAddr, Seq<u64>>,
    left: Map<IpAddr, Seq<u64>>,
    ip: IpAddr,
    now: u64,
) -> Map<IpAddr, Seq<u64>> {
    Map::new(
        |other: IpAddr|
            all.contains_key(other) && !left.contains_key(other) && other != ip && is_fresh(
                all[other],
                now,
            ),
        |other: IpAddr| all[other],
    )
}

/// No more than so many milliseconds lie between the two times.
fn is_within(now: u64, start: u64, ms: u64) -> (r: bool)
    ensures
        r == (elapsed_ms(now, start) <= ms),
{
    now < start || (now - start) / 1_000_000 <= ms
}

/// Those of the times that lie within the second before `now`.
fn times_within(times: &Vec<u64>, now: u64) -> (r: Vec<u64>)
    ensures
        r@ == within(times@, now),
{
    let mut out: Vec<u64> = Vec::new();
    let mut i: usize = 0;
    assert(times@.take(0) =~= Seq::<u64>::empty());
    while i < times.len()
        invariant
            i <= times@.len(),
            out@ == within(times@.take(i as int), now),
        decreases times@.len() - i,
    {
        assert(times@.take(i + 1).drop_last() =~= times@.take(i as int));
        if is_within(now, times[i], 1000) {
            out.push(times[i]);
        }
        i += 1;
    }
    assert(times@.take(i as int) =~= times@);
    out
}

/// Whether some of the times is no older than two seconds.
fn has_fresh(times: &Vec<u64>, now: u64) -> (r: bool)
    ensures
        r == is_fresh(times@, now),
{
    let mut i: usize = times.len();
    while i > 0
        invariant
            i <= times@.len(),
            forall|k: int| i <= k < times@.len() ==> elapsed_ms(now, #[trigger] times@[k]) > 2000,
        decreases i,
    {
        i -= 1;
        if is_within(now, times[i], 2000) {
            assert(elapsed_ms(now, times@[i as int]) <= 2000);
            return true;
        }
    }
    false
}

/// Per-IP rate limiter with a sliding window: so many requests per address in
/// any second.
pub struct IpRateLimiter {
    window: Vec<SourceWindow>,
    max_per_sec: u32,
}

impl IpRateLimiter {
    #[verifier::type_invariant]
    spec fn inv(self) -> bool {
        once_each(self.window@)
    }

    /// When the requests of each address were allowed, as far as it is kept.
    pub closed spec fn windows(&self) -> Map<IpAddr, Seq<u64>> {
        window_map(self.window@)
    }

    /// How many requests are allowed in a second; 0 is no limit.
    pub closed spec fn max(&self) -> u32 {
        self.max_per_sec
    }

    /// A limiter that has seen no request.
    pub fn new(max_per_sec: u32) -> (r: Self)
        ensures
            r.max() == max_per_sec,
            r.windows() == Map::<IpAddr, Seq<u64>>::empty(),
    {
        IpRateLimiter { window: Vec::new(), max_per_sec }
    }

    /// Whether a request that comes now is allowed. `now` is in nanoseconds.
    pub fn check(&mut self, ip: IpAddr, now: u64) -> (r: bool)
        ensures
            final(self).max() == old(self).max(),
            (r, final(self).windows()) == limit_step(
                old(self).windows(),
                old(self).max(),
                ip,
                now,
            ),
    {
        if self.max_per_sec == 0 {
            return true;
        }
        proof {
            use_type_invariant(&*self);
        }
        let ghost s = self.window@;
        let ghost all = window_map(s);
        let mut left: Vec<SourceWindow> = Vec::new();
        std::mem::swap(&mut left, &mut self.window);
        let mut kept: Vec<SourceWindow> = Vec::new();
        let mut mine: Vec<u64> = Vec::new();
        assert(s.take(s.len() as int) =~= s);
        assert(window_map(kept@) =~= kept_of(all, all, ip, now));
        while left.len() > 0
            invariant
                once_each(s),
                all == window_map(s),
                left@.len() <= s.len(),
                left@ == s.take(left@.len() as int),
                once_each(kept@),
                window_map(kept@) == kept_of(all, window_map(left@), ip, now),
                mine@ == if window_map(left@).contains_key(ip) {
                    Seq::empty()
                } else {
                    window_of(all, ip, now)
                },
            decreases left@.len(),
        {
            let ghost n = left@.len() as int;
            let ghost before = left@;
            let ghost so_far = kept@;
            if let Some(e) = left.pop() {
                let ghost front = window_map(left@);
                proof {
                    lemma_once_each(s, n);
                    assert(left@ =~= before.drop_last());
                    assert(left@ =~= s.take(n - 1));
                    assert(window_map(before) == front.insert(e.ip, e.times@));
                    assert(!front.contains_key(e.ip));
                    lemma_window_part(s, n, e.ip);
                }
                if e.ip == ip {
                    mine = times_within(&e.times, now);
                    assert(kept_of(all, front, ip, now) =~= kept_of(
                        all,
                        window_map(before),
                        ip,
                        now,
                    ));
                } else if has_fresh(&e.times, now) {
                    assert(kept_of(all, front, ip, now) =~= kept_of(
                        all,
                        window_map(before),
                        ip,
                        now,
                    ).insert(e.ip, e.times@));
                    kept.push(e);
                    assert(kept@.drop_last() =~= so_far);
                } else {
                    assert(kept_of(all, front, ip, now) =~= kept_of(
                        all,
                        window_map(before),
                        ip,
                        now,
                    ));
                }
            }
        }
        assert(mine@ == window_of(all, ip, now));
        assert(window_map(kept@) =~= recent(all, now).remove(ip));
        let allowed = mine.len() < self.max_per_sec as usize;
        if allowed {
            mine.push(now);
        }
        let ghost before = kept@;
        let ghost times = mine@;
        kept.push(SourceWindow { ip, times: mine });
        proof {
            assert(kept@.drop_last() =~= before);
            assert(recent(all, now).remove(ip).insert(ip, times) =~= recent(all, now).insert(
                ip,
                times,
            ));
        }
        self.window = kept;
        allowed
    }

    /// Whether an address has a window.
    pub fn has_window(&self, ip: IpAddr) -> (r: bool)
        ensures
            r == self.windows().contains_key(ip),
    {
        let ghost s = self.window@;
        let mut i: usize = 0;
        assert(s.take(0) =~= Seq::<SourceWindow>::empty());
        while i < self.window.len()
            invariant
                s == self.window@,
                i <= s.len(),
                !window_map(s.take(i as int)).contains_key(ip),
            decreases s.len() - i,
        {
            assert(s.take(i + 1).drop_last() =~= s.take(i as int));
            if self.window[i].ip == ip {
                proof {
                    lemma_has_window(s, i as int);
                }
                return true;
            }
            i += 1;
        }
        assert(s.take(i as int) =~= s);
        false
    }

    /// The number of addresses with a window.
    pub fn window_count(&self) -> (r: usize)
        ensures
            self.windows().dom().finite(),
            r == self.windows().dom().len(),
    {
        proof {
            use_type_invariant(&*self);
            lemma_window_count(self.window@);
        }
        self.window.len()
    }
}

/// An entry gives its address a window.
proof fn lemma_has_window(s: Seq<SourceWindow>, i: int)
    requires
        0 <= i < s.len(),
    ensures
        window_map(s).contains_key(s[i].ip),
    decreases s.len(),
{
    if i < s.len() - 1 {
        lemma_has_window(s.drop_last(), i);
    }
}

/// Without a limit every request is allowed.
pub proof fn no_limit_allows_all(windows: Map<IpAddr, Seq<u64>>, ip: IpAddr, now: u64)
    ensures
        limit_step(windows, 0, ip, now) == (true, windows),
{
}

/// A request is refused exactly when as many of its address were allowed in the
/// last second as the limit says.
pub proof fn refusal_means_window_used_up(
    windows: Map<IpAddr, Seq<u64>>,
    max: u32,
    ip: IpAddr,
    now: u64,
)
    ensures
        !limit_step(windows, max, ip, now).0 <==> max > 0 && window_of(windows, ip, now).len()
            >= max,
{
}

/// Nothing that is not fresh lies within the last second.
proof fn lemma_stale(times: Seq<u64>, now: u64)
    requires
        !is_fresh(times, now),
    ensures
        within(times, now).len() == 0,
    decreases times.len(),
{
    if times.len() > 0 {
        let front = times.drop_last();
        if is_fresh(front, now) {
            let i = choose|i: int|
                0 <= i < front.len() && elapsed_ms(now, #[trigger] front[i]) <= 2000;
            assert(elapsed_ms(now, times[i]) <= 2000);
        }
        lemma_stale(front, now);
        assert(elapsed_ms(now, times[times.len() - 1]) > 2000);
    }
}

/// A request of one address changes no window of another.
pub proof fn others_keep_their_windows(
    windows: Map<IpAddr, Seq<u64>>,
    max: u32,
    ip: IpAddr,
    other: IpAddr,
    now: u64,
)
    requires
        other != ip,
    ensures
        window_of(limit_step(windows, max, ip, now).1, other, now) == window_of(
            windows,
            other,
            now,
        ),
{
    if windows.contains_key(other) && !is_fresh(windows[other], now) {
        lemma_stale(windows[other], now);
        assert(within(windows[other], now) =~= Seq::<u64>::empty());
    }
}

/// When the requests of `ip` were allowed among these requests, each of which is
/// an address and a time, and the windows after them.
pub open spec fn limit_run(
    windows: Map<IpAddr, Seq<u64>>,
    max: u32,
    requests: Seq<(IpAddr, u64)>,
    ip: IpAddr,
) -> (Seq<u64>, Map<IpAddr, Seq<u64>>)
    decreases requests.len(),
{
    if requests.len() == 0 {
        (Seq::empty(), windows)
    } else {
        let (times, before) = limit_run(windows, max, requests.drop_last(), ip);
        let (source, now) = requests.last();
        let (allowed, after) = limit_step(before, max, source, now);
        (if allowed && source == ip {
            times.push(now)
        } else {
            times
        }, after)
    }
}

/// The requests come in the order of their times.
pub open spec fn in_order(requests: Seq<(IpAddr, u64)>) -> bool {
    forall|i: int, j: int|
        0 <= i <= j < requests.len() ==> (#[trigger] requests[i]).1 <= (#[trigger] requests[j]).1
}

/// The times stand in their order.
pub open spec fn are_sorted(times: Seq<u64>) -> bool {
    forall|i: int, j: int|
        0 <= i <= j < times.len() ==> (#[trigger] times[i]) <= (#[trigger] times[j])
}

/// The number of times in the span of a second that begins at `from`.
pub open spec fn count_in_second(times: Seq<u64>, from: u64) -> nat
    decreases times.len(),
{
    if times.len() == 0 {
        0
    } else {
        count_in_second(times.drop_last(), from) + if from <= times.last() && times.last() - from
            <= 1_000_000_000 {
            1nat
        } else {
            0nat
        }
    }
}

/// Of any `max + 1` times in a row the last comes more than a second after the first.
spec fn are_spread(times: Seq<u64>, max: nat) -> bool {
    forall|i: int, j: int|
        0 <= i < j < times.len() && j - i >= max ==> elapsed_ms(
            #[trigger] times[j],
            #[trigger] times[i],
        ) > 1000
}

/// Looking a second back later forgets no more than looking back twice does.
proof fn lemma_within_twice(times: Seq<u64>, now: u64, later: u64)
    requires
        now <= later,
    ensures
        within(within(times, now), later) == within(times, later),
    decreases times.len(),
{
    if times.len() > 0 {
        let front = times.drop_last();
        lemma_within_twice(front, now, later);
        if elapsed_ms(now, times.last()) <= 1000 {
            assert(within(front, now).push(times.last()).drop_last() =~= within(front, now));
        }
    }
}

/// What lies within the last second is as many as the last ones that do, at least.
proof fn lemma_within_tail(times: Seq<u64>, now: u64, i: int)
    requires
        0 <= i <= times.len(),
        forall|k: int| i <= k < times.len() ==> elapsed_ms(now, #[trigger] times[k]) <= 1000,
    ensures
        within(times, now).len() >= times.len() - i,
    decreases times.len(),
{
    if i < times.len() {
        let front = times.drop_last();
        assert forall|k: int| i <= k < front.len() implies elapsed_ms(now, #[trigger] front[k])
            <= 1000 by {
            assert(front[k] == times[k]);
        }
        lemma_within_tail(front, now, i);
        assert(elapsed_ms(now, times[times.len() - 1]) <= 1000);
    }
}

/// The window that is kept tells of every second from `t` on which requests were
/// allowed in it.
spec fn tells(times: Seq<u64>, kept: Seq<u64>, t: u64) -> bool {
    forall|later: u64| t <= later ==> #[trigger] within(times, later) == within(kept, later)
}

/// The window that is kept of an address.
spec fn kept_window(windows: Map<IpAddr, Seq<u64>>, ip: IpAddr) -> Seq<u64> {
    if windows.contains_key(ip) {
        windows[ip]
    } else {
        Seq::empty()
    }
}

/// What is true of the times at which requests of `ip` were allowed.
proof fn lemma_run(max: u32, requests: Seq<(IpAddr, u64)>, ip: IpAddr)
    requires
        max > 0,
        in_order(requests),
    ensures
        ({
            let (times, after) = limit_run(Map::empty(), max, requests, ip);
            &&& are_sorted(times)
            &&& are_spread(times, max as nat)
            &&& times.len() > 0 ==> requests.len() > 0 && times.last() <= requests.last().1
            &&& tells(
                times,
                kept_window(after, ip),
                if requests.len() > 0 {
                    requests.last().1
                } else {
                    0
                },
            )
        }),
    decreases requests.len(),
{
    if requests.len() > 0 {
        let short = requests.drop_last();
        assert(in_order(short)) by {
            assert forall|i: int, j: int| 0 <= i <= j < short.len() implies (
            #[trigger] short[i]).1 <= (#[trigger] short[j]).1 by {
                assert(requests[i].1 <= requests[j].1);
            }
        }
        lemma_run(max, short, ip);
        let (times, before) = limit_run(Map::empty(), max, short, ip);
        let (source, now) = requests.last();
        let (allowed, after) = limit_step(before, max, source, now);
        let old_kept = kept_window(before, ip);
        let new_kept = kept_window(after, ip);
        if short.len() > 0 {
            assert(requests[short.len() - 1].1 <= requests[requests.len() - 1].1);
        }
        assert(within(times, now) == within(old_kept, now));
        if source == ip {
            let w = within(old_kept, now);
            assert(window_of(before, ip, now) == w) by {
                if !before.contains_key(ip) {
                    assert(w =~= Seq::<u64>::empty());
                }
            }
            if allowed {
                let grown = times.push(now);
                lemma_grown(times, max as nat, now);
                assert forall|later: u64| now <= later implies #[trigger] within(grown, later)
                    == within(new_kept, later) by {
                    assert(grown.drop_last() =~= times);
                    assert(w.push(now).drop_last() =~= w);
                    lemma_within_twice(old_kept, now, later);
                    assert(within(times, later) == within(old_kept, later));
                }
            } else {
                assert forall|later: u64| now <= later implies #[trigger] within(times, later)
                    == within(new_kept, later) by {
                    lemma_within_twice(old_kept, now, later);
                    assert(within(times, later) == within(old_kept, later));
                }
            }
        } else {
            assert forall|later: u64| now <= later implies #[trigger] within(times, later)
                == within(new_kept, later) by {
                assert(within(times, later) == within(old_kept, later));
                if before.contains_key(ip) && !is_fresh(before[ip], now) {
                    lemma_stale(before[ip], now);
                    lemma_within_twice(before[ip], now, later);
                    assert(within(before[ip], now) =~= Seq::<u64>::empty());
                }
            }
        }
    }
}

/// One more allowed time keeps the times in order and apart, if fewer than `max`
/// lie in the second before it.
proof fn lemma_grown(times: Seq<u64>, max: nat, now: u64)
    requires
        are_sorted(times),
        are_spread(times, max),
        times.len() > 0 ==> times.last() <= now,
        within(times, now).len() < max,
    ensures
        are_sorted(times.push(now)),
        are_spread(times.push(now), max),
{
    let g = times.push(now);
    let n = times.len() as int;
    assert forall|i: int, j: int| 0 <= i <= j < g.len() implies (#[trigger] g[i]) <= (
    #[trigger] g[j]) by {
        if i < n {
            assert(times[i] <= times[n - 1]);
            if j < n {
                assert(times[i] <= times[j]);
            }
        }
    }
    assert forall|i: int, j: int| 0 <= i < j < g.len() && j - i >= max implies elapsed_ms(
        #[trigger] g[j],
        #[trigger] g[i],
    ) > 1000 by {
        if j < n {
            assert(elapsed_ms(times[j], times[i]) > 1000);
        } else if elapsed_ms(now, times[i]) <= 1000 {
            assert forall|k: int| i <= k < n implies elapsed_ms(now, #[trigger] times[k])
                <= 1000 by {
                assert(times[i] <= times[k]);
            }
            lemma_within_tail(times, now, i);
        }
    }
}

/// Times of which none before the `k`th lies in the second are counted at most
/// from there on.
proof fn lemma_count_tail(times: Seq<u64>, from: u64, k: int)
    requires
        0 <= k <= times.len(),
        forall|i: int|
            0 <= i < k ==> !(from <= (#[trigger] times[i]) && times[i] - from <= 1_000_000_000),
    ensures
        count_in_second(times, from) <= times.len() - k,
    decreases times.len(),
{
    if times.len() > 0 {
        let front = times.drop_last();
        let m = if k < times.len() {
            k
        } else {
            k - 1
        };
        assert forall|i: int| 0 <= i < m implies !(from <= (#[trigger] front[i]) && front[i] - from
            <= 1_000_000_000) by {
            assert(front[i] == times[i]);
        }
        lemma_count_tail(front, from, m);
        if k == times.len() {
            assert(!(from <= times[k - 1] && times[k - 1] - from <= 1_000_000_000));
        }
    }
}

/// Times that are spread so that `max + 1` of them take more than a second have
/// no more than `max` in any second.
proof fn lemma_count_spread(times: Seq<u64>, max: nat, from: u64)
    requires
        max > 0,
        are_spread(times, max),
    ensures
        count_in_second(times, from) <= max,
    decreases times.len(),
{
    if times.len() > 0 {
        let front = times.drop_last();
        let last = times.last();
        if from <= last && last - from <= 1_000_000_000 {
            if times.len() > max {
                assert forall|i: int| 0 <= i < times.len() - max implies !(from <= (
                #[trigger] times[i]) && times[i] - from <= 1_000_000_000) by {
                    assert(elapsed_ms(times[times.len() - 1], times[i]) > 1000);
                }
                lemma_count_tail(times, from, times.len() - max);
            } else {
                lemma_count_tail(times, from, 0);
            }
        } else {
            assert(are_spread(front, max)) by {
                assert forall|i: int, j: int|
                    0 <= i < j < front.len() && j - i >= max implies elapsed_ms(
                    #[trigger] front[j],
                    #[trigger] front[i],
                ) > 1000 by {
                    assert(elapsed_ms(times[j], times[i]) > 1000);
                }
            }
            lemma_count_spread(front, max, from);
        }
    }
}

/// The window slides: in no second, wherever it begins, more requests of an
/// address are allowed than the limit says, whoever else sends requests.
pub proof fn no_second_exceeds_the_limit(
    max: u32,
    requests: Seq<(IpAddr, u64)>,
    ip: IpAddr,
    from: u64,
)
    requires
        max > 0,
        in_order(requests),
    ensures
        count_in_second(limit_run(Map::empty(), max, requests, ip).0, from) <= max,
{
    lemma_run(max, requests, ip);
    lemma_count_spread(limit_run(Map::empty(), max, requests, ip).0, max as nat, from);
}

/// Times that all lie within the last second are all found there.
proof fn lemma_all_within(times: Seq<u64>, now: u64)
    requires
        forall|k: int| 0 <= k < times.len() ==> elapsed_ms(now, #[trigger] times[k]) <= 1000,
    ensures
        within(times, now) == times,
    decreases times.len(),
{
    if times.len() > 0 {
        let front = times.drop_last();
        assert forall|k: int| 0 <= k < front.len() implies elapsed_ms(now, #[trigger] front[k])
            <= 1000 by {
            assert(front[k] == times[k]);
        }
        lemma_all_within(front, now);
        assert(elapsed_ms(now, times[times.len() - 1]) <= 1000);
        assert(front.push(times.last()) =~= times);
    }
}

/// Of the requests of an address within a second of its first one, as many are
/// allowed as the limit says: the first ones.
pub proof fn limit_is_used_up(
    windows: Map<IpAddr, Seq<u64>>,
    max: u32,
    requests: Seq<(IpAddr, u64)>,
    ip: IpAddr,
)
    requires
        max > 0,
        requests.len() > 0,
        in_order(requests),
        window_of(windows, ip, requests[0].1).len() == 0,
        forall|i: int| 0 <= i < requests.len() ==> (#[trigger] requests[i]).0 == ip,
        elapsed_ms(requests.last().1, requests[0].1) <= 1000,
    ensures
        ({
            let (times, after) = limit_run(windows, max, requests, ip);
            &&& times.len() == if requests.len() < max {
                requests.len()
            } else {
                max as nat
            }
            &&& forall|i: int| 0 <= i < times.len() ==> (#[trigger] times[i]) == requests[i].1
            &&& after.contains_key(ip)
            &&& after[ip] == times
        }),
    decreases requests.len(),
{
    let short = requests.drop_last();
    let (source, now) = requests.last();
    assert(requests[requests.len() - 1].0 == ip);
    if short.len() > 0 {
        assert forall|i: int| 0 <= i < short.len() implies (#[trigger] short[i]).0 == ip by {
            assert(short[i] == requests[i]);
        }
        assert(in_order(short)) by {
            assert forall|i: int, j: int| 0 <= i <= j < short.len() implies (
            #[trigger] short[i]).1 <= (#[trigger] short[j]).1 by {
                assert(requests[i].1 <= requests[j].1);
            }
        }
        assert(requests[short.len() - 1].1 <= requests[requests.len() - 1].1);
        assert(requests[0].1 <= requests[short.len() - 1].1);
        limit_is_used_up(windows, max, short, ip);
        let (times, before) = limit_run(windows, max, short, ip);
        assert forall|k: int| 0 <= k < times.len() implies elapsed_ms(now, #[trigger] times[k])
            <= 1000 by {
            assert(times[k] == short[k].1);
            assert(short[k] == requests[k]);
            assert(requests[0].1 <= requests[k].1);
        }
        lemma_all_within(times, now);
        let (all, after) = limit_run(windows, max, requests, ip);
        assert forall|i: int| 0 <= i < all.len() implies (#[trigger] all[i]) == requests[i].1 by {
            if i < times.len() {
                assert(all[i] == times[i]);
                assert(short[i] == requests[i]);
            }
        }
    } else {
        assert(limit_run(windows, max, short, ip) == (Seq::<u64>::empty(), windows));
        let w = window_of(windows, ip, now);
        assert(w =~= Seq::<u64>::empty());
        assert(w.push(now) =~= Seq::<u64>::empty().push(now));
    }
}

// ── Admission ──────────────────────────────────────────────────────

/// What becomes of a request before it is looked at.
#[derive(Debug, Clone, Copy, PartialEq, Eq, Structural)]
pub enum Admission {
    Pass,
    TooManyRequests,
    Forbidden,
}

impl Admission {
    /// The HTTP status that a refused request is answered with.
    pub fn status(&self) -> (r: u16)
        ensures
            r == match *self {
                Admission::Pass => 200u16,
                Admission::TooManyRequests => 429u16,
                Admission::Forbidden => 403u16,
            },
    {
        match *self {
            Admission::Pass => 200,
            Admission::TooManyRequests => 429,
            Admission::Forbidden => 403,
        }
    }
}

/// What the source lists say of an address: the blacklist first.
pub open spec fn source_admission(
    allowed: Seq<(IpAddr, u8)>,
    blocked: Seq<(IpAddr, u8)>,
    ip: IpAddr,
) -> Admission {
    if crate::security::listed(blocked, ip) {
        Admission::Forbidden
    } else if allowed.len() == 0 || crate::security::listed(allowed, ip) {
        Admission::Pass
    } else {
        Admission::Forbidden
    }
}

/// The guard in front of the webhook endpoint: the rate limit, then the source lists.
pub struct PushGuard {
    pub allowlist: IpAllowlist,
    pub blacklist: IpBlacklist,
    pub limiter: IpRateLimiter,
}

impl PushGuard {
    /// The guard that the configuration asks for.
    pub fn new(allowed_ips: &[String], blacklist_ips: &[String], rate_limit: u32) -> (r: Self)
        ensures
            r.allowlist.entries() == crate::security::networks(crate::text::texts(allowed_ips@)),
            r.blacklist.entries() == crate::security::networks(crate::text::texts(blacklist_ips@)),
            r.limiter.max() == rate_limit,
            r.limiter.windows() == Map::<IpAddr, Seq<u64>>::empty(),
    {
        PushGuard {
            allowlist: IpAllowlist::from_config(allowed_ips),
            blacklist: IpBlacklist::from_config(blacklist_ips),
            limiter: IpRateLimiter::new(rate_limit),
        }
    }

    /// Whether a request that comes now may pass. A request that the source
    /// lists refuse counts for the rate limit all the same.
    pub fn check(&mut self, ip: IpAddr, now: u64) -> (r: Admission)
        ensures
            ({
                let (allowed, windows) = limit_step(
                    old(self).limiter.windows(),
                    old(self).limiter.max(),
                    ip,
                    now,
                );
                &&& final(self).limiter.windows() == windows
                &&& r == if allowed {
                    source_admission(
                        old(self).allowlist.entries(),
                        old(self).blacklist.entries(),
                        ip,
                    )
                } else {
                    Admission::TooManyRequests
                }
            }),
            final(self).limiter.max() == old(self).limiter.max(),
            final(self).allowlist == old(self).allowlist,
            final(self).blacklist == old(self).blacklist,
    {
        if !self.limiter.check(ip, now) {
            return Admission::TooManyRequests;
        }
        if self.blacklist.blocks(ip) {
            return Admission::Forbidden;
        }
        if self.allowlist.allows(ip) {
            Admission::Pass
        } else {
            Admission::Forbidden
        }
    }
}

/// A blacklisted address never passes, whatever the allowlist says, and nobody
/// outside an allowlist does.
pub proof fn lists_shut_out(
    allowed: Seq<(IpAddr, u8)>,
    blocked: Seq<(IpAddr, u8)>,
    ip: IpAddr,
)
    ensures
        crate::security::listed(blocked, ip) ==> source_admission(allowed, blocked, ip)
            == Admission::Forbidden,
        allowed.len() > 0 && !crate::security::listed(allowed, ip) ==> source_admission(
            allowed,
            blocked,
            ip,
        ) == Admission::Forbidden,
        source_admission(Seq::empty(), Seq::empty(), ip) == Admission::Pass,
{
}

/// A source passes exactly when no entry of the blacklist holds it and the
/// allowlist spells no network at all or has an entry that holds it; else it is
/// forbidden.
pub proof fn source_passes_by_its_lists(
    allowed: Seq<Seq<char>>,
    blocked: Seq<Seq<char>>,
    ip: IpAddr,
)
    ensures
        ({
            let r = source_admission(
                crate::security::networks(allowed),
                crate::security::networks(blocked),
                ip,
            );
            &&& r == Admission::Pass || r == Admission::Forbidden
            &&& r == Admission::Pass <==> (forall|i: int|
                0 <= i < blocked.len() ==> (crate::security::cidr(#[trigger] blocked[i]) matches Some(
                    (net, p),
                ) ==> !crate::security::in_network(ip, net, p))) && ((forall|i: int|
                0 <= i < allowed.len() ==> crate::security::cidr(#[trigger] allowed[i]) is None)
                || exists|i: int|
                0 <= i < allowed.len() && (crate::security::cidr(#[trigger] allowed[i]) matches Some(
                    (net, p),
                ) && crate::security::in_network(ip, net, p)))
        }),
{
    crate::security::list_holds_what_its_texts_hold(allowed, ip);
    crate::security::list_holds_what_its_texts_hold(blocked, ip);
}

/// The times of a window are those of the last second, to the millisecond, in
/// their order.
proof fn lemma_within_is_filter(times: Seq<u64>, now: u64)
    ensures
        within(times, now) == times.filter(|t: u64| now - t < 1_001_000_000),
    decreases times.len(),
{
    reveal(Seq::filter);
    if times.len() > 0 {
        lemma_within_is_filter(times.drop_last(), now);
    }
}

/// With a limit a request is allowed exactly when fewer requests of its source
/// than the limit were allowed within the last second, to the millisecond. An
/// allowed one is then remembered behind those; a refused one is not.
pub proof fn requests_of_the_last_second_count(
    windows: Map<IpAddr, Seq<u64>>,
    max: u32,
    ip: IpAddr,
    now: u64,
)
    requires
        max > 0,
    ensures
        ({
            let times = if windows.contains_key(ip) {
                windows[ip].filter(|t: u64| now - t < 1_001_000_000)
            } else {
                Seq::empty()
            };
            let (allowed, after) = limit_step(windows, max, ip, now);
            &&& allowed <==> times.len() < max
            &&& after.contains_key(ip)
            &&& allowed ==> after[ip] == times.push(now)
            &&& !allowed ==> after[ip] == times
        }),
{
    if windows.contains_key(ip) {
        lemma_within_is_filter(windows[ip], now);
    }
}

/// The window of another source stays as it is if one of its requests is no
/// older than two seconds, and is forgotten otherwise.
pub proof fn old_windows_are_forgotten(
    windows: Map<IpAddr, Seq<u64>>,
    max: u32,
    ip: IpAddr,
    other: IpAddr,
    now: u64,
)
    requires
        max > 0,
        other != ip,
    ensures
        ({
            let after = limit_step(windows, max, ip, now).1;
            &&& after.contains_key(other) <==> windows.contains_key(other) && exists|i: int|
                0 <= i < windows[other].len() && now - (#[trigger] windows[other][i])
                    < 2_001_000_000
            &&& after.contains_key(other) ==> after[other] == windows[other]
        }),
{
    if windows.contains_key(other) {
        let times = windows[other];
        if is_fresh(times, now) {
            let i = choose|i: int| 0 <= i < times.len() && elapsed_ms(now, #[trigger] times[i]) <= 2000;
            assert(now - times[i] < 2_001_000_000);
        }
        if exists|i: int| 0 <= i < times.len() && now - (#[trigger] times[i]) < 2_001_000_000 {
            let i = choose|i: int| 0 <= i < times.len() && now - (#[trigger] times[i]) < 2_001_000_000;
            assert(elapsed_ms(now, times[i]) <= 2000);
        }
    }
}

/// An allowlist admits everybody where none of its texts spells a network, and
/// else whoever is in a network that one of them spells.
pub proof fn allowlist_admits_what_its_texts_hold(
    list: IpAllowlist,
    raw: Seq<Seq<char>>,
    ip: IpAddr,
)
    requires
        list.entries() == crate::security::networks(raw),
    ensures
        list.admits(ip) <==> (forall|i: int|
            0 <= i < raw.len() ==> crate::security::cidr(#[trigger] raw[i]) is None) || exists|
            i: int,
        |
            0 <= i < raw.len() && (crate::security::cidr(#[trigger] raw[i]) matches Some((net, p))
                && crate::security::in_network(ip, net, p)),
{
    crate::security::list_holds_what_its_texts_hold(raw, ip);
}

} // verus!
