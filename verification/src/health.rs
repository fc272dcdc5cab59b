//! Route health: which targets are dead, and which routes go with them.
//!
//! Every round, each target of the route table is probed once. A target that
//! fails so many times in a row is dead, and all routes to it are removed. The
//! probing itself is left to the program around this library.

use vstd::hash_map::StringHashMap;
use vstd::prelude::*;

use crate::router::{
    authority_of, bracketed, read_split_port, rest_of, ProfileRoute, ProfileRouter, RouteView,
};
use crate::text::{
    decimal_text, parse_port, same_text, split_once, starts_with, strip_prefix, trim_trailing,
};

verus! {

broadcast use vstd::seq::group_seq_axioms;

// ── Targets ────────────────────────────────────────────────────────

/// `host:port`.
pub open spec fn endpoint(host: Seq<char>, port: nat) -> Seq<char> {
    host + ":"@ + crate::text::decimal(port)
}

/// The port of a URL that spells none: 443 for https and 80 for the rest.
pub open spec fn default_port(url: Seq<char>) -> nat {
    if crate::text::has_prefix(url, "https://"@) {
        443
    } else {
        80
    }
}

/// The `host:port` of a URL.
pub open spec fn target_of(url: Seq<char>) -> Seq<char> {
    let authority = crate::router::url_authority(crate::router::url_rest(url));
    match crate::text::after_prefix(authority, "["@) {
        Some(b) => match bracketed_port(b) {
            Some((h, port)) => endpoint("["@ + h + "]"@, port),
            None => endpoint(
                "["@ + crate::text::without_trailing(b, ']') + "]"@,
                default_port(url),
            ),
        },
        None => match crate::router::split_port(authority) {
            Some((h, port)) => endpoint(h, port as nat),
            None => endpoint(authority, default_port(url)),
        },
    }
}

/// The address and the port of `address]:port`.
pub open spec fn bracketed_port(b: Seq<char>) -> Option<(Seq<char>, nat)> {
    match crate::text::split_first(b, "]:"@) {
        Some((h, p)) => match crate::text::number(p, 0xffff) {
            Some(n) => Some((h, n)),
            None => None,
        },
        None => None,
    }
}

/// `host:port`.
fn endpoint_text(host: &str, port: u16) -> (r: String)
    ensures
        r@ == endpoint(host@, port as nat),
{
    let mut out = String::from_str(host);
    out.append(":");
    out.append(decimal_text(port as u64).as_str());
    out
}

/// The `host:port` that a route leads to.
pub fn route_target_key(r: &ProfileRoute) -> (key: String)
    ensures
        key@ == target_of(r@.target_url),
{
    let url = r.target_url();
    let authority = authority_of(rest_of(url));
    let absent: u16 = if starts_with(url, "https://") {
        443
    } else {
        80
    };
    if let Some(b) = strip_prefix(authority, "[") {
        if let Some((h, p)) = split_once(b, "]:") {
            if let Some(port) = parse_port(p) {
                return endpoint_text(bracketed(h).as_str(), port);
            }
        }
        return endpoint_text(bracketed(trim_trailing(b, ']')).as_str(), absent);
    }
    match read_split_port(authority) {
        Some((h, port)) => endpoint_text(h, port),
        None => endpoint_text(authority, absent),
    }
}

// ── Groups ─────────────────────────────────────────────────────────

/// A target with the agents whose routes lead to it.
#[derive(Debug)]
pub struct TargetGroup {
    pub target: String,
    pub emails: Vec<String>,
}

/// What a group says.
#[verifier::ext_equal]
pub struct GroupView {
    pub target: Seq<char>,
    pub emails: Seq<Seq<char>>,
}

impl View for TargetGroup {
    type V = GroupView;

    open spec fn view(&self) -> GroupView {
        GroupView { target: self.target@, emails: crate::text::texts(self.emails@) }
    }
}

/// What groups say.
pub open spec fn group_views(v: Seq<TargetGroup>) -> Seq<GroupView> {
    v.map_values(|g: TargetGroup| g@)
}

/// The groups with `email` put to `target`.
pub open spec fn grouped(groups: Seq<GroupView>, target: Seq<char>, email: Seq<char>) -> Seq<
    GroupView,
>
    decreases groups.len(),
{
    if groups.len() == 0 {
        seq![GroupView { target, emails: seq![email] }]
    } else if groups[0].target == target {
        groups.update(0, GroupView { target, emails: groups[0].emails.push(email) })
    } else {
        seq![groups[0]] + grouped(groups.subrange(1, groups.len() as int), target, email)
    }
}

/// The routes by their targets, in the order in which the targets come up.
pub open spec fn groups_of(routes: Seq<RouteView>) -> Seq<GroupView>
    decreases routes.len(),
{
    if routes.len() == 0 {
        Seq::empty()
    } else {
        grouped(
            groups_of(routes.drop_last()),
            target_of(routes.last().target_url),
            routes.last().email,
        )
    }
}

/// Putting an email to a group skips the groups of other targets.
proof fn lemma_grouped_skips(groups: Seq<GroupView>, target: Seq<char>, email: Seq<char>, i: int)
    requires
        0 <= i <= groups.len(),
        forall|k: int| 0 <= k < i ==> (#[trigger] groups[k]).target != target,
    ensures
        grouped(groups, target, email) == groups.subrange(0, i) + grouped(
            groups.subrange(i, groups.len() as int),
            target,
            email,
        ),
    decreases i,
{
    if i > 0 {
        let rest = groups.subrange(1, groups.len() as int);
        assert(groups[0].target != target);
        assert forall|k: int| 0 <= k < i - 1 implies (#[trigger] rest[k]).target != target by {
            assert(rest[k] == groups[k + 1]);
        }
        lemma_grouped_skips(rest, target, email, i - 1);
        assert(rest.subrange(i - 1, rest.len() as int) =~= groups.subrange(
            i,
            groups.len() as int,
        ));
        assert(seq![groups[0]] + rest.subrange(0, i - 1) =~= groups.subrange(0, i));
    } else {
        assert(groups.subrange(0, groups.len() as int) =~= groups);
        assert(groups.subrange(0, 0) + grouped(groups, target, email) =~= grouped(
            groups,
            target,
            email,
        ));
    }
}

/// Puts an email to its target.
fn add_to_group(groups: &mut Vec<TargetGroup>, target: String, email: String)
    ensures
        group_views(final(groups)@) == grouped(group_views(old(groups)@), target@, email@),
{
    let ghost before = group_views(groups@);
    let ghost n = before.len() as int;
    let ghost key = target@;
    let ghost who = email@;
    let mut i: usize = 0;
    while i < groups.len()
        invariant
            *groups == *old(groups),
            before == group_views(groups@),
            n == before.len(),
            key == target@,
            who == email@,
            i <= groups@.len(),
            forall|k: int| 0 <= k < i ==> (#[trigger] before[k]).target != key,
        decreases groups@.len() - i,
    {
        assert(before[i as int] == groups@[i as int]@);
        if same_text(groups[i].target.as_str(), target.as_str()) {
            let ghost old_emails = groups@[i as int].emails@;
            let mut group = groups.remove(i);
            group.emails.push(email);
            assert(crate::text::texts(group.emails@) =~= crate::text::texts(old_emails).push(who));
            let ghost view = group@;
            groups.insert(i, group);
            proof {
                lemma_grouped_skips(before, key, who, i as int);
                let rest = before.subrange(i as int, n);
                assert(grouped(rest, key, who) == rest.update(0, view));
                assert(group_views(groups@) =~= before.subrange(0, i as int) + rest.update(
                    0,
                    view,
                ));
            }
            return;
        }
        i += 1;
    }
    let mut emails: Vec<String> = Vec::new();
    emails.push(email);
    assert(crate::text::texts(emails@) =~= seq![who]);
    let group = TargetGroup { target, emails };
    let ghost view = group@;
    groups.push(group);
    proof {
        lemma_grouped_skips(before, key, who, n);
        assert(before.subrange(0, n) =~= before);
        assert(before.subrange(n, n) =~= Seq::<GroupView>::empty());
        assert(group_views(groups@) =~= before + seq![view]);
    }
}

/// The routes of the table by their targets.
pub fn target_groups(router: &ProfileRouter) -> (r: Vec<TargetGroup>)
    ensures
        group_views(r@) == groups_of(router.listing()),
{
    let routes = router.list_routes();
    let ghost all = router.listing();
    let mut out: Vec<TargetGroup> = Vec::new();
    let mut i: usize = 0;
    assert(all.take(0) =~= Seq::<RouteView>::empty());
    assert(group_views(out@) =~= Seq::<GroupView>::empty());
    while i < routes.len()
        invariant
            i <= routes@.len(),
            all == crate::router::route_views(routes@),
            group_views(out@) == groups_of(all.take(i as int)),
        decreases routes@.len() - i,
    {
        assert(all.take(i + 1).drop_last() =~= all.take(i as int));
        assert(all.take(i + 1).last() == routes@[i as int]@);
        let target = route_target_key(&routes[i]);
        let email = routes[i].email.clone();
        add_to_group(&mut out, target, email);
        i += 1;
    }
    assert(all.take(i as int) =~= all);
    out
}

// ── Failures ───────────────────────────────────────────────────────

/// How often in a row the target failed so far.
pub open spec fn failures_of(failures: Map<Seq<char>, u32>, target: Seq<char>) -> int {
    if failures.contains_key(target) {
        failures[target] as int
    } else {
        0
    }
}

/// The failed target has failed so often that it is dead.
pub open spec fn dies(failures: Map<Seq<char>, u32>, threshold: u32, target: Seq<char>) -> bool {
    failures_of(failures, target) + 1 >= threshold
}

/// The counts after a probe of one target: an answer clears its count, a
/// failure adds to it, and the count of a dead target is forgotten.
pub open spec fn after_probe(
    failures: Map<Seq<char>, u32>,
    threshold: u32,
    target: Seq<char>,
    up: bool,
) -> Map<Seq<char>, u32> {
    if up || dies(failures, threshold, target) {
        failures.remove(target)
    } else {
        failures.insert(target, (failures_of(failures, target) + 1) as u32)
    }
}

/// The counts after the first `n` targets of a round were probed.
pub open spec fn after_probes(
    failures: Map<Seq<char>, u32>,
    threshold: u32,
    groups: Seq<GroupView>,
    up: Seq<bool>,
    n: nat,
) -> Map<Seq<char>, u32>
    decreases n,
{
    if n == 0 {
        failures
    } else {
        after_probe(
            after_probes(failures, threshold, groups, up, (n - 1) as nat),
            threshold,
            groups[n - 1].target,
            up[n - 1],
        )
    }
}

/// The targets among the first `n` that a round finds dead.
pub open spec fn dead_targets(
    failures: Map<Seq<char>, u32>,
    threshold: u32,
    groups: Seq<GroupView>,
    up: Seq<bool>,
    n: nat,
) -> Seq<Seq<char>>
    decreases n,
{
    if n == 0 {
        Seq::empty()
    } else {
        let k = (n - 1) as nat;
        let front = dead_targets(failures, threshold, groups, up, k);
        let before = after_probes(failures, threshold, groups, up, k);
        if !up[k as int] && dies(before, threshold, groups[k as int].target) {
            front.push(groups[k as int].target)
        } else {
            front
        }
    }
}

/// The routes without those of the emails.
pub open spec fn without_emails(
    routes: Map<Seq<char>, RouteView>,
    emails: Seq<Seq<char>>,
) -> Map<Seq<char>, RouteView>
    decreases emails.len(),
{
    if emails.len() == 0 {
        routes
    } else {
        without_emails(routes, emails.drop_last()).remove(emails.last())
    }
}

/// The routes without those to the targets that a round finds dead.
pub open spec fn surviving_routes(
    routes: Map<Seq<char>, RouteView>,
    failures: Map<Seq<char>, u32>,
    threshold: u32,
    groups: Seq<GroupView>,
    up: Seq<bool>,
    n: nat,
) -> Map<Seq<char>, RouteView>
    decreases n,
{
    if n == 0 {
        routes
    } else {
        let k = (n - 1) as nat;
        let front = surviving_routes(routes, failures, threshold, groups, up, k);
        let before = after_probes(failures, threshold, groups, up, k);
        if !up[k as int] && dies(before, threshold, groups[k as int].target) {
            without_emails(front, groups[k as int].emails)
        } else {
            front
        }
    }
}

/// How often in a row each target failed.
pub struct HealthTracker {
    failures: StringHashMap<u32>,
    threshold: u32,
}

/// Each count is below the threshold.
pub open spec fn are_counts(failures: Map<Seq<char>, u32>, threshold: u32) -> bool {
    forall|t: Seq<char>| #[trigger] failures.contains_key(t) ==> failures[t] < threshold
}

impl HealthTracker {
    /// The counts of the targets that failed.
    pub closed spec fn failures(&self) -> Map<Seq<char>, u32> {
        self.failures@
    }

    /// The failures in a row that make a target dead.
    pub closed spec fn threshold(&self) -> u32 {
        self.threshold
    }

    /// No living target has failed often enough to be dead.
    pub open spec fn wf(&self) -> bool {
        are_counts(self.failures(), self.threshold())
    }

    /// A tracker that has seen no failure.
    pub fn new(fail_threshold: u32) -> (r: Self)
        ensures
            r.wf(),
            r.failures() == Map::<Seq<char>, u32>::empty(),
            r.threshold() == fail_threshold,
    {
        HealthTracker { failures: StringHashMap::new(), threshold: fail_threshold }
    }

    /// Counts a probe of one target. Gives whether the target is dead.
    fn count(&mut self, target: &str, up: bool) -> (r: bool)
        requires
            old(self).wf(),
        ensures
            final(self).wf(),
            final(self).threshold() == old(self).threshold(),
            final(self).failures() == after_probe(
                old(self).failures(),
                old(self).threshold(),
                target@,
                up,
            ),
            r == (!up && dies(old(self).failures(), old(self).threshold(), target@)),
    {
        if up {
            self.failures.remove(target);
            return false;
        }
        let so_far: u32 = match self.failures.get(target) {
            Some(n) => *n,
            None => 0,
        };
        if self.threshold == 0 || so_far >= self.threshold - 1 {
            self.failures.remove(target);
            true
        } else {
            self.failures.insert(String::from_str(target), so_far + 1);
            false
        }
    }

    /// Ends a round: counts the probes of all targets and removes the routes to
    /// those that are dead. Gives the dead targets.
    pub fn settle(
        &mut self,
        router: &mut ProfileRouter,
        groups: &Vec<TargetGroup>,
        up: &Vec<bool>,
    ) -> (r: Vec<String>)
        requires
            old(self).wf(),
            old(router).wf(),
            groups@.len() == up@.len(),
        ensures
            final(self).wf(),
            final(self).threshold() == old(self).threshold(),
            final(self).failures() == after_probes(
                old(self).failures(),
                old(self).threshold(),
                group_views(groups@),
                up@,
                groups@.len(),
            ),
            crate::text::texts(r@) == dead_targets(
                old(self).failures(),
                old(self).threshold(),
                group_views(groups@),
                up@,
                groups@.len(),
            ),
            final(router).wf(),
            final(router).patterns() == old(router).patterns(),
            final(router).file() == old(router).file(),
            final(router).writing() == old(router).writing(),
            final(router).routes() == surviving_routes(
                old(router).routes(),
                old(self).failures(),
                old(self).threshold(),
                group_views(groups@),
                up@,
                groups@.len(),
            ),
    {
        let ghost g = group_views(groups@);
        let ghost f = self.failures();
        let ghost th = self.threshold();
        let ghost routes = router.routes();
        let mut dead: Vec<String> = Vec::new();
        let mut i: usize = 0;
        assert(crate::text::texts(dead@) =~= Seq::<Seq<char>>::empty());
        while i < groups.len()
            invariant
                i <= groups@.len(),
                groups@.len() == up@.len(),
                g == group_views(groups@),
                f == old(self).failures(),
                th == old(self).threshold(),
                routes == old(router).routes(),
                self.wf(),
                self.threshold() == th,
                self.failures() == after_probes(f, th, g, up@, i as nat),
                crate::text::texts(dead@) == dead_targets(f, th, g, up@, i as nat),
                router.wf(),
                router.patterns() == old(router).patterns(),
                router.file() == old(router).file(),
                router.writing() == old(router).writing(),
                router.routes() == surviving_routes(routes, f, th, g, up@, i as nat),
            decreases groups@.len() - i,
        {
            assert(g[i as int] == groups@[i as int]@);
            if self.count(groups[i].target.as_str(), up[i]) {
                remove_all(router, &groups[i].emails);
                let ghost before = dead@;
                let target = groups[i].target.clone();
                dead.push(target);
                assert(crate::text::texts(dead@) =~= crate::text::texts(before).push(target@));
            }
            i += 1;
        }
        dead
    }
}

/// Removes the routes of the emails.
fn remove_all(router: &mut ProfileRouter, emails: &Vec<String>)
    requires
        old(router).wf(),
    ensures
        final(router).wf(),
        final(router).patterns() == old(router).patterns(),
        final(router).file() == old(router).file(),
        final(router).writing() == old(router).writing(),
        final(router).routes() == without_emails(
            old(router).routes(),
            crate::text::texts(emails@),
        ),
{
    let ghost all = crate::text::texts(emails@);
    let mut i: usize = 0;
    assert(all.take(0) =~= Seq::<Seq<char>>::empty());
    while i < emails.len()
        invariant
            i <= emails@.len(),
            all == crate::text::texts(emails@),
            router.wf(),
            router.patterns() == old(router).patterns(),
            router.file() == old(router).file(),
            router.writing() == old(router).writing(),
            router.routes() == without_emails(old(router).routes(), all.take(i as int)),
        decreases emails@.len() - i,
    {
        assert(all.take(i + 1).drop_last() =~= all.take(i as int));
        assert(all.take(i + 1).last() == emails@[i as int]@);
        router.remove_route(emails[i].as_str());
        i += 1;
    }
    assert(all.take(i as int) =~= all);
}

// ── Laws ───────────────────────────────────────────────────────────

/// An answer clears the count of a target.
pub proof fn answer_clears_count(
    failures: Map<Seq<char>, u32>,
    threshold: u32,
    target: Seq<char>,
)
    ensures
        failures_of(after_probe(failures, threshold, target, true), target) == 0,
{
}

/// The probe of one target changes no count of another.
pub proof fn other_counts_are_kept(
    failures: Map<Seq<char>, u32>,
    threshold: u32,
    target: Seq<char>,
    other: Seq<char>,
    up: bool,
)
    requires
        other != target,
    ensures
        failures_of(after_probe(failures, threshold, target, up), other) == failures_of(
            failures,
            other,
        ),
{
}

/// The counts after a target failed `n` times in a row.
pub open spec fn after_failures(
    failures: Map<Seq<char>, u32>,
    threshold: u32,
    target: Seq<char>,
    n: nat,
) -> Map<Seq<char>, u32>
    decreases n,
{
    if n == 0 {
        failures
    } else {
        after_probe(
            after_failures(failures, threshold, target, (n - 1) as nat),
            threshold,
            target,
            false,
        )
    }
}

/// A target that answered last is alive through fewer failures in a row than
/// the threshold says.
pub proof fn target_lives_below_threshold(
    failures: Map<Seq<char>, u32>,
    threshold: u32,
    target: Seq<char>,
    n: nat,
)
    requires
        !failures.contains_key(target),
        n < threshold,
    ensures
        failures_of(after_failures(failures, threshold, target, n), target) == n,
        dies(after_failures(failures, threshold, target, n), threshold, target) == (n + 1
            == threshold),
    decreases n,
{
    if n > 0 {
        target_lives_below_threshold(failures, threshold, target, (n - 1) as nat);
    }
}

/// A target that answered last dies of exactly as many failures in a row as the
/// threshold says, and its count starts afresh.
pub proof fn target_dies_at_threshold(
    failures: Map<Seq<char>, u32>,
    threshold: u32,
    target: Seq<char>,
)
    requires
        !failures.contains_key(target),
        threshold > 0,
    ensures
        dies(
            after_failures(failures, threshold, target, (threshold - 1) as nat),
            threshold,
            target,
        ),
        failures_of(after_failures(failures, threshold, target, threshold as nat), target) == 0,
{
    target_lives_below_threshold(failures, threshold, target, (threshold - 1) as nat);
}

/// Removing routes leaves those of all other emails.
proof fn lemma_without_emails(
    routes: Map<Seq<char>, RouteView>,
    emails: Seq<Seq<char>>,
    email: Seq<char>,
)
    ensures
        without_emails(routes, emails).contains_key(email) <==> routes.contains_key(email)
            && !emails.contains(email),
        without_emails(routes, emails).contains_key(email) ==> without_emails(routes, emails)[email]
            == routes[email],
    decreases emails.len(),
{
    if emails.len() > 0 {
        let front = emails.drop_last();
        lemma_without_emails(routes, front, email);
        if emails.contains(email) && email != emails.last() {
            let k = choose|k: int| 0 <= k < emails.len() && emails[k] == email;
            assert(front[k] == email);
        }
        if front.contains(email) {
            let k = choose|k: int| 0 <= k < front.len() && front[k] == email;
            assert(emails[k] == email);
        }
        if email == emails.last() {
            assert(emails[emails.len() - 1] == email);
        }
    }
}

/// The `i`th target of the round is found dead.
pub open spec fn is_dead(
    failures: Map<Seq<char>, u32>,
    threshold: u32,
    groups: Seq<GroupView>,
    up: Seq<bool>,
    i: int,
) -> bool {
    !up[i] && dies(
        after_probes(failures, threshold, groups, up, i as nat),
        threshold,
        groups[i].target,
    )
}

/// A round removes the routes of the agents of dead targets, and no others, and
/// changes none that stays.
pub proof fn only_routes_to_dead_targets_go(
    routes: Map<Seq<char>, RouteView>,
    failures: Map<Seq<char>, u32>,
    threshold: u32,
    groups: Seq<GroupView>,
    up: Seq<bool>,
    n: nat,
    email: Seq<char>,
)
    requires
        n <= groups.len(),
        groups.len() == up.len(),
    ensures
        surviving_routes(routes, failures, threshold, groups, up, n).contains_key(email)
            <==> routes.contains_key(email) && forall|i: int|
            0 <= i < n && is_dead(failures, threshold, groups, up, i) ==> !(
            #[trigger] groups[i]).emails.contains(email),
        surviving_routes(routes, failures, threshold, groups, up, n).contains_key(email)
            ==> surviving_routes(routes, failures, threshold, groups, up, n)[email]
            == routes[email],
    decreases n,
{
    if n > 0 {
        let k = (n - 1) as nat;
        only_routes_to_dead_targets_go(routes, failures, threshold, groups, up, k, email);
        let front = surviving_routes(routes, failures, threshold, groups, up, k);
        if is_dead(failures, threshold, groups, up, k as int) {
            lemma_without_emails(front, groups[k as int].emails, email);
        }
    }
}

/// A group for the target holds the email.
pub open spec fn groups_hold(groups: Seq<GroupView>, target: Seq<char>, email: Seq<char>) -> bool {
    exists|k: int|
        0 <= k < groups.len() && (#[trigger] groups[k]).target == target
            && groups[k].emails.contains(email)
}

/// Putting an email to its target adds it there and moves no other.
proof fn lemma_grouped_holds(
    groups: Seq<GroupView>,
    target: Seq<char>,
    email: Seq<char>,
    t: Seq<char>,
    e: Seq<char>,
)
    ensures
        groups_hold(groups, t, e) ==> groups_hold(grouped(groups, target, email), t, e),
        groups_hold(grouped(groups, target, email), target, email),
    decreases groups.len(),
{
    let all = grouped(groups, target, email);
    if groups.len() == 0 {
        assert(all[0].emails[0] == email);
    } else if groups[0].target == target {
        let grown = groups[0].emails.push(email);
        assert(all[0].emails == grown);
        assert(grown[grown.len() - 1] == email);
        if groups_hold(groups, t, e) {
            let k = choose|k: int|
                0 <= k < groups.len() && (#[trigger] groups[k]).target == t
                    && groups[k].emails.contains(e);
            if k == 0 {
                let m = choose|m: int|
                    0 <= m < groups[0].emails.len() && groups[0].emails[m] == e;
                assert(grown[m] == e);
                assert(all[0].emails.contains(e));
            } else {
                assert(all[k] == groups[k]);
            }
        }
    } else {
        let rest = groups.subrange(1, groups.len() as int);
        lemma_grouped_holds(rest, target, email, t, e);
        let after = grouped(rest, target, email);
        let j = choose|j: int|
            0 <= j < after.len() && (#[trigger] after[j]).target == target
                && after[j].emails.contains(email);
        assert(all[j + 1] == after[j]);
        if groups_hold(groups, t, e) {
            let k = choose|k: int|
                0 <= k < groups.len() && (#[trigger] groups[k]).target == t
                    && groups[k].emails.contains(e);
            if k == 0 {
                assert(all[0] == groups[0]);
            } else {
                assert(rest[k - 1] == groups[k]);
                assert(groups_hold(rest, t, e));
                let m = choose|m: int|
                    0 <= m < after.len() && (#[trigger] after[m]).target == t
                        && after[m].emails.contains(e);
                assert(all[m + 1] == after[m]);
            }
        }
    }
}

/// Every route is probed: its email stands in the group of its target.
pub proof fn every_route_is_probed(routes: Seq<RouteView>, i: int)
    requires
        0 <= i < routes.len(),
    ensures
        groups_hold(groups_of(routes), target_of(routes[i].target_url), routes[i].email),
    decreases routes.len(),
{
    let front = groups_of(routes.drop_last());
    let last = routes.last();
    if i < routes.len() - 1 {
        every_route_is_probed(routes.drop_last(), i);
    }
    lemma_grouped_holds(
        front,
        target_of(last.target_url),
        last.email,
        target_of(routes[i].target_url),
        routes[i].email,
    );
}

/// Putting an email to a target keeps the targets apart.
proof fn lemma_grouped_apart(groups: Seq<GroupView>, target: Seq<char>, email: Seq<char>)
    requires
        targets_differ(groups),
    ensures
        targets_differ(grouped(groups, target, email)),
        forall|k: int|
            0 <= k < grouped(groups, target, email).len() ==> (#[trigger] grouped(
                groups,
                target,
                email,
            )[k]).target == target || exists|m: int|
                0 <= m < groups.len() && (#[trigger] groups[m]).target == grouped(
                    groups,
                    target,
                    email,
                )[k].target,
    decreases groups.len(),
{
    let all = grouped(groups, target, email);
    if groups.len() > 0 {
        if groups[0].target == target {
            assert forall|k: int| 0 <= k < all.len() implies (#[trigger] all[k]).target
                == groups[k].target by {}
            assert forall|k: int, m: int| 0 <= k < m < all.len() implies (#[trigger] all[k]).target
                != (#[trigger] all[m]).target by {
                assert(groups[k].target != groups[m].target);
            }
        } else {
            let rest = groups.subrange(1, groups.len() as int);
            assert forall|k: int, m: int| 0 <= k < m < rest.len() implies (
            #[trigger] rest[k]).target != (#[trigger] rest[m]).target by {
                assert(groups[k + 1].target != groups[m + 1].target);
            }
            lemma_grouped_apart(rest, target, email);
            let after = grouped(rest, target, email);
            assert forall|k: int| 0 <= k < all.len() implies (#[trigger] all[k]).target == target
                || exists|m: int|
                0 <= m < groups.len() && (#[trigger] groups[m]).target == all[k].target by {
                if k == 0 {
                    assert(groups[0].target == all[0].target);
                } else {
                    assert(all[k] == after[k - 1]);
                    if after[k - 1].target != target {
                        let m = choose|m: int|
                            0 <= m < rest.len() && (#[trigger] rest[m]).target == after[k
                                - 1].target;
                        assert(groups[m + 1].target == all[k].target);
                    }
                }
            }
            assert forall|k: int, m: int| 0 <= k < m < all.len() implies (#[trigger] all[k]).target
                != (#[trigger] all[m]).target by {
                assert(all[m] == after[m - 1]);
                if k > 0 {
                    assert(all[k] == after[k - 1]);
                } else if after[m - 1].target != target {
                    let x = choose|x: int|
                        0 <= x < rest.len() && (#[trigger] rest[x]).target == after[m - 1].target;
                    assert(groups[0].target != groups[x + 1].target);
                }
            }
        }
    }
}

/// No two groups are of the same target.
pub open spec fn targets_differ(groups: Seq<GroupView>) -> bool {
    forall|k: int, m: int|
        0 <= k < m < groups.len() ==> (#[trigger] groups[k]).target != (#[trigger] groups[m]).target
}

/// No target is probed twice in a round.
pub proof fn targets_are_probed_once(routes: Seq<RouteView>)
    ensures
        targets_differ(groups_of(routes)),
    decreases routes.len(),
{
    if routes.len() > 0 {
        targets_are_probed_once(routes.drop_last());
        lemma_grouped_apart(
            groups_of(routes.drop_last()),
            target_of(routes.last().target_url),
            routes.last().email,
        );
    }
}

/// Putting an email to a target puts it nowhere else.
proof fn lemma_grouped_only(
    groups: Seq<GroupView>,
    target: Seq<char>,
    email: Seq<char>,
    k: int,
    e: Seq<char>,
)
    requires
        0 <= k < grouped(groups, target, email).len(),
        grouped(groups, target, email)[k].emails.contains(e),
    ensures
        ({
            let t = grouped(groups, target, email)[k].target;
            groups_hold(groups, t, e) || (t == target && e == email)
        }),
    decreases groups.len(),
{
    let all = grouped(groups, target, email);
    let m = choose|m: int| 0 <= m < all[k].emails.len() && all[k].emails[m] == e;
    if groups.len() > 0 {
        if groups[0].target == target {
            if k > 0 {
                assert(all[k] == groups[k]);
                assert(groups_hold(groups, all[k].target, e));
            } else if m < groups[0].emails.len() {
                assert(groups[0].emails[m] == e);
                assert(groups[0].emails.contains(e));
                assert(groups_hold(groups, target, e));
            }
        } else if k == 0 {
            assert(all[0] == groups[0]);
            assert(groups_hold(groups, all[0].target, e));
        } else {
            let rest = groups.subrange(1, groups.len() as int);
            assert(all[k] == grouped(rest, target, email)[k - 1]);
            lemma_grouped_only(rest, target, email, k - 1, e);
            let t = all[k].target;
            if groups_hold(rest, t, e) {
                let x = choose|x: int|
                    0 <= x < rest.len() && (#[trigger] rest[x]).target == t
                        && rest[x].emails.contains(e);
                assert(groups[x + 1] == rest[x]);
            }
        }
    }
}

/// What stands in a group is an agent with a route to its target.
proof fn lemma_group_members(routes: Seq<RouteView>, k: int, e: Seq<char>)
    requires
        0 <= k < groups_of(routes).len(),
        groups_of(routes)[k].emails.contains(e),
    ensures
        exists|i: int|
            0 <= i < routes.len() && (#[trigger] routes[i]).email == e && target_of(
                routes[i].target_url,
            ) == groups_of(routes)[k].target,
    decreases routes.len(),
{
    if routes.len() > 0 {
        let short = routes.drop_last();
        let front = groups_of(short);
        let last = routes.last();
        let t = groups_of(routes)[k].target;
        lemma_grouped_only(front, target_of(last.target_url), last.email, k, e);
        if groups_hold(front, t, e) {
            let x = choose|x: int|
                0 <= x < front.len() && (#[trigger] front[x]).target == t
                    && front[x].emails.contains(e);
            lemma_group_members(short, x, e);
            let i = choose|i: int|
                0 <= i < short.len() && (#[trigger] short[i]).email == e && target_of(
                    short[i].target_url,
                ) == t;
            assert(routes[i] == short[i]);
        } else {
            assert(routes[routes.len() - 1].email == e);
        }
    }
}

/// An agent stands in no group but that of the target that its route leads to.
pub proof fn agents_stand_in_one_group(routes: Seq<RouteView>, i: int, k: int)
    requires
        crate::router::ascending(routes),
        0 <= i < routes.len(),
        0 <= k < groups_of(routes).len(),
    ensures
        groups_of(routes)[k].emails.contains(routes[i].email) <==> groups_of(routes)[k].target
            == target_of(routes[i].target_url),
{
    let groups = groups_of(routes);
    let email = routes[i].email;
    let target = target_of(routes[i].target_url);
    if groups[k].emails.contains(email) {
        lemma_group_members(routes, k, email);
        let j = choose|j: int|
            0 <= j < routes.len() && (#[trigger] routes[j]).email == email && target_of(
                routes[j].target_url,
            ) == groups[k].target;
        crate::router::lemma_table_at(routes, i);
        crate::router::lemma_table_at(routes, j);
    }
    if groups[k].target == target {
        every_route_is_probed(routes, i);
        targets_are_probed_once(routes);
        let x = choose|x: int|
            0 <= x < groups.len() && (#[trigger] groups[x]).target == target
                && groups[x].emails.contains(email);
        if x < k {
            assert(groups[x].target != groups[k].target);
        }
        if k < x {
            assert(groups[k].target != groups[x].target);
        }
    }
}

/// A round over a table removes a route exactly when the target that it leads to
/// is found dead.
pub proof fn routes_go_with_their_targets(
    routes: Seq<RouteView>,
    failures: Map<Seq<char>, u32>,
    threshold: u32,
    up: Seq<bool>,
    i: int,
)
    requires
        crate::router::ascending(routes),
        groups_of(routes).len() == up.len(),
        0 <= i < routes.len(),
    ensures
        ({
            let groups = groups_of(routes);
            surviving_routes(
                crate::router::table(routes),
                failures,
                threshold,
                groups,
                up,
                groups.len(),
            ).contains_key(routes[i].email) <==> forall|k: int|
                0 <= k < groups.len() && (#[trigger] groups[k]).target == target_of(
                    routes[i].target_url,
                ) ==> !is_dead(failures, threshold, groups, up, k)
        }),
{
    let groups = groups_of(routes);
    let email = routes[i].email;
    let target = target_of(routes[i].target_url);
    crate::router::lemma_table_at(routes, i);
    only_routes_to_dead_targets_go(
        crate::router::table(routes),
        failures,
        threshold,
        groups,
        up,
        groups.len(),
        email,
    );
    assert forall|k: int| 0 <= k < groups.len() implies (#[trigger] groups[k]).emails.contains(
        email,
    ) == (groups[k].target == target) by {
        agents_stand_in_one_group(routes, i, k);
    }
}

/// The target of a URL is its host and its port; without a port it is the one of
/// its scheme.
pub proof fn target_is_the_endpoint_of_the_url(host: Seq<char>, port: u16, path: Seq<char>)
    requires
        host.len() > 0,
        !host.contains('/'),
        host[0] != '[',
        path.len() > 0 ==> path[0] == '/',
    ensures
        target_of("http://"@ + (host + ":"@ + crate::text::decimal(port as nat)) + path) == host
            + ":"@ + crate::text::decimal(port as nat),
        target_of("https://"@ + (host + ":"@ + crate::text::decimal(port as nat)) + path) == host
            + ":"@ + crate::text::decimal(port as nat),
        !host.contains(':') ==> target_of("http://"@ + host + path) == host + ":"@
            + crate::text::decimal(80),
        !host.contains(':') ==> target_of("https://"@ + host + path) == host + ":"@
            + crate::text::decimal(443),
{
    reveal_strlit("http://");
    reveal_strlit("https://");
    assert("http://"@.len() == 7 && "https://"@.len() == 8);
    reveal_strlit(":");
    reveal_strlit("[");
    assert(":"@ =~= seq![':']);
    let d = crate::text::decimal(port as nat);
    crate::router::lemma_port_text(port);
    let authority = host + ":"@ + d;
    assert forall|i: int| 0 <= i < authority.len() implies authority[i] != '/' by {
        if i < host.len() {
            assert(authority[i] == host[i]);
        } else if i > host.len() {
            assert(authority[i] == d[i - host.len() - 1]);
        }
    }
    crate::router::lemma_url_parts("http://"@, authority, path);
    crate::router::lemma_url_parts("https://"@, authority, path);
    crate::router::lemma_url_parts("http://"@, host, path);
    crate::router::lemma_url_parts("https://"@, host, path);
    assert(!crate::text::has_prefix(host, "["@)) by {
        assert(host.subrange(0, 1)[0] == host[0]);
        assert("["@[0] == '[');
    }
    assert(!crate::text::has_prefix(authority, "["@)) by {
        assert(authority.subrange(0, 1)[0] == host[0]);
        assert("["@[0] == '[');
    }
    crate::text::split_at_a_character(host, ':', d);
    crate::text::split_at_no_character(host, ':');
}

/// The target of a URL with a bracketed address is that address, brackets and
/// all, with its port or the one of the scheme.
pub proof fn target_is_the_bracketed_endpoint(inner: Seq<char>, port: u16, path: Seq<char>)
    requires
        !inner.contains('/'),
        !inner.contains(']'),
        path.len() > 0 ==> path[0] == '/',
    ensures
        target_of("http://"@ + ("["@ + inner + "]:"@ + crate::text::decimal(port as nat)) + path)
            == "["@ + inner + "]"@ + ":"@ + crate::text::decimal(port as nat),
        target_of("https://"@ + ("["@ + inner + "]:"@ + crate::text::decimal(port as nat)) + path)
            == "["@ + inner + "]"@ + ":"@ + crate::text::decimal(port as nat),
        target_of("http://"@ + ("["@ + inner + "]"@) + path) == "["@ + inner + "]"@ + ":"@
            + crate::text::decimal(80),
        target_of("https://"@ + ("["@ + inner + "]"@) + path) == "["@ + inner + "]"@ + ":"@
            + crate::text::decimal(443),
{
    reveal_strlit("http://");
    reveal_strlit("https://");
    assert("http://"@.len() == 7 && "https://"@.len() == 8);
    let d = crate::text::decimal(port as nat);
    crate::router::lemma_port_text(port);
    crate::router::lemma_bracketed_authority(inner, d);
    let with = "["@ + inner + "]:"@ + d;
    let bare = "["@ + inner + "]"@;
    crate::router::lemma_url_parts("http://"@, with, path);
    crate::router::lemma_url_parts("https://"@, with, path);
    crate::router::lemma_url_parts("http://"@, bare, path);
    crate::router::lemma_url_parts("https://"@, bare, path);
}

/// A target that is not probed keeps its count.
proof fn lemma_unprobed(
    failures: Map<Seq<char>, u32>,
    threshold: u32,
    groups: Seq<GroupView>,
    up: Seq<bool>,
    n: nat,
    target: Seq<char>,
)
    requires
        n <= groups.len(),
        forall|i: int| 0 <= i < n ==> (#[trigger] groups[i]).target != target,
    ensures
        ({
            let after = after_probes(failures, threshold, groups, up, n);
            &&& after.contains_key(target) == failures.contains_key(target)
            &&& after.contains_key(target) ==> after[target] == failures[target]
        }),
    decreases n,
{
    if n > 0 {
        lemma_unprobed(failures, threshold, groups, up, (n - 1) as nat, target);
        assert(groups[n - 1].target != target);
    }
}

/// The count of a target that is probed stands as before the round.
proof fn lemma_own_count(
    failures: Map<Seq<char>, u32>,
    threshold: u32,
    groups: Seq<GroupView>,
    up: Seq<bool>,
    i: int,
)
    requires
        0 <= i < groups.len(),
        forall|k: int, m: int|
            0 <= k < m < groups.len() ==> (#[trigger] groups[k]).target != (
            #[trigger] groups[m]).target,
    ensures
        ({
            let before = after_probes(failures, threshold, groups, up, i as nat);
            let t = groups[i].target;
            &&& before.contains_key(t) == failures.contains_key(t)
            &&& before.contains_key(t) ==> before[t] == failures[t]
        }),
{
    assert forall|k: int| 0 <= k < i implies (#[trigger] groups[k]).target != groups[i].target by {}
    lemma_unprobed(failures, threshold, groups, up, i as nat, groups[i].target);
}

/// A round finds a target dead exactly when it does not answer and that is its
/// failure number `threshold` in a row.
pub proof fn target_dies_of_its_own_failures(
    failures: Map<Seq<char>, u32>,
    threshold: u32,
    groups: Seq<GroupView>,
    up: Seq<bool>,
    n: nat,
    target: Seq<char>,
)
    requires
        n <= groups.len(),
        groups.len() == up.len(),
        forall|k: int, m: int|
            0 <= k < m < groups.len() ==> (#[trigger] groups[k]).target != (
            #[trigger] groups[m]).target,
    ensures
        dead_targets(failures, threshold, groups, up, n).contains(target) <==> exists|i: int|
            0 <= i < n && (#[trigger] groups[i]).target == target && !up[i] && (
            if failures.contains_key(target) {
                failures[target] as int
            } else {
                0
            }) + 1 >= threshold,
        dead_targets(failures, threshold, groups, up, n).len() <= n,
    decreases n,
{
    if n > 0 {
        let m = (n - 1) as nat;
        target_dies_of_its_own_failures(failures, threshold, groups, up, m, target);
        lemma_own_count(failures, threshold, groups, up, m as int);
        let front = dead_targets(failures, threshold, groups, up, m);
        let all = dead_targets(failures, threshold, groups, up, n);
        if front.contains(target) {
            let k = choose|k: int| 0 <= k < front.len() && front[k] == target;
            assert(all[k] == target);
        }
        if all.contains(target) {
            let k = choose|k: int| 0 <= k < all.len() && all[k] == target;
            if k < front.len() {
                assert(front[k] == target);
            } else {
                assert(groups[m as int].target == target);
            }
        }
        if exists|i: int|
            0 <= i < n && (#[trigger] groups[i]).target == target && !up[i] && (
            if failures.contains_key(target) {
                failures[target] as int
            } else {
                0
            }) + 1 >= threshold {
            let i = choose|i: int|
                0 <= i < n && (#[trigger] groups[i]).target == target && !up[i] && (
                if failures.contains_key(target) {
                    failures[target] as int
                } else {
                    0
                }) + 1 >= threshold;
            if i == m {
                assert(all[all.len() - 1] == target);
            }
        }
    }
}

/// After a round a target that answered, and one that was found dead, has no
/// count; one that did not answer has one more than before; one that was not
/// probed has the count that it had.
pub proof fn counts_follow_the_answers(
    failures: Map<Seq<char>, u32>,
    threshold: u32,
    groups: Seq<GroupView>,
    up: Seq<bool>,
    i: int,
    other: Seq<char>,
)
    requires
        0 <= i < groups.len(),
        groups.len() == up.len(),
        forall|k: int, m: int|
            0 <= k < m < groups.len() ==> (#[trigger] groups[k]).target != (
            #[trigger] groups[m]).target,
        forall|k: int| 0 <= k < groups.len() ==> (#[trigger] groups[k]).target != other,
    ensures
        ({
            let after = after_probes(failures, threshold, groups, up, groups.len());
            let t = groups[i].target;
            let count = if failures.contains_key(t) {
                failures[t] as int
            } else {
                0
            };
            &&& up[i] || count + 1 >= threshold ==> !after.contains_key(t)
            &&& !up[i] && count + 1 < threshold ==> after.contains_key(t) && after[t] == count + 1
            &&& after.contains_key(other) == failures.contains_key(other)
            &&& after.contains_key(other) ==> after[other] == failures[other]
        }),
{
    lemma_unprobed(failures, threshold, groups, up, groups.len(), other);
    lemma_own_count(failures, threshold, groups, up, i);
    lemma_later_probes(failures, threshold, groups, up, i, groups.len());
}

/// Later probes of a round are of other targets.
proof fn lemma_later_probes(
    failures: Map<Seq<char>, u32>,
    threshold: u32,
    groups: Seq<GroupView>,
    up: Seq<bool>,
    i: int,
    n: nat,
)
    requires
        0 <= i < n <= groups.len(),
        forall|k: int, m: int|
            0 <= k < m < groups.len() ==> (#[trigger] groups[k]).target != (
            #[trigger] groups[m]).target,
    ensures
        ({
            let a = after_probes(failures, threshold, groups, up, (i + 1) as nat);
            let b = after_probes(failures, threshold, groups, up, n);
            let t = groups[i].target;
            &&& a.contains_key(t) == b.contains_key(t)
            &&& a.contains_key(t) ==> a[t] == b[t]
        }),
    decreases n,
{
    if n > i + 1 {
        lemma_later_probes(failures, threshold, groups, up, i, (n - 1) as nat);
        assert(groups[i].target != groups[n - 1].target);
    }
}

/// A round removes the routes of the agents behind a dead target, and no others;
/// those that stay stay as they are.
pub proof fn round_removes_the_routes_to_dead_targets(
    routes: Map<Seq<char>, RouteView>,
    failures: Map<Seq<char>, u32>,
    threshold: u32,
    groups: Seq<GroupView>,
    up: Seq<bool>,
    email: Seq<char>,
)
    requires
        groups.len() == up.len(),
        forall|k: int, m: int|
            0 <= k < m < groups.len() ==> (#[trigger] groups[k]).target != (
            #[trigger] groups[m]).target,
    ensures
        ({
            let after = surviving_routes(routes, failures, threshold, groups, up, groups.len());
            &&& after.contains_key(email) <==> routes.contains_key(email) && forall|i: int|
                0 <= i < groups.len() && !up[i] && (if failures.contains_key(
                    (#[trigger] groups[i]).target,
                ) {
                    failures[groups[i].target] as int
                } else {
                    0
                }) + 1 >= threshold ==> !groups[i].emails.contains(email)
            &&& after.contains_key(email) ==> after[email] == routes[email]
        }),
{
    only_routes_to_dead_targets_go(routes, failures, threshold, groups, up, groups.len(), email);
    assert forall|i: int| 0 <= i < groups.len() implies (is_dead(
        failures,
        threshold,
        groups,
        up,
        i,
    ) <==> !up[i] && (if failures.contains_key((#[trigger] groups[i]).target) {
        failures[groups[i].target] as int
    } else {
        0
    }) + 1 >= threshold) by {
        lemma_own_count(failures, threshold, groups, up, i);
    }
}

/// What is said of groups is what they hold.
pub proof fn groups_say_what_they_hold(groups: Seq<TargetGroup>, i: int, k: int)
    ensures
        group_views(groups).len() == groups.len(),
        0 <= i < groups.len() ==> group_views(groups)[i].target == groups[i].target@
            && group_views(groups)[i].emails.len() == groups[i].emails@.len(),
        0 <= i < groups.len() && 0 <= k < groups[i].emails@.len() ==> group_views(
            groups,
        )[i].emails[k] == groups[i].emails@[k]@,
{
}

/// The target of a URL has its port spelled shortly, however the URL spells it; a
/// port that cannot be read is part of the host, and the one of the scheme is
/// put behind it.
pub proof fn target_spells_its_port_shortly(host: Seq<char>, d: Seq<char>, path: Seq<char>)
    requires
        host.len() > 0,
        !host.contains('/'),
        host[0] != '[',
        !d.contains(':'),
        !d.contains('/'),
        path.len() > 0 ==> path[0] == '/',
    ensures
        crate::text::number(d, 65535) matches Some(n) ==> target_of(
            "http://"@ + (host + ":"@ + d) + path,
        ) == host + ":"@ + crate::text::decimal(n) && target_of(
            "https://"@ + (host + ":"@ + d) + path,
        ) == host + ":"@ + crate::text::decimal(n),
        crate::text::number(d, 65535) is None ==> target_of("http://"@ + (host + ":"@ + d) + path)
            == host + ":"@ + d + ":"@ + crate::text::decimal(80) && target_of(
            "https://"@ + (host + ":"@ + d) + path,
        ) == host + ":"@ + d + ":"@ + crate::text::decimal(443),
{
    reveal_strlit("http://");
    reveal_strlit("https://");
    assert("http://"@.len() == 7 && "https://"@.len() == 8);
    reveal_strlit(":");
    reveal_strlit("[");
    assert(":"@ =~= seq![':']);
    let t = host + ":"@ + d;
    assert forall|i: int| 0 <= i < t.len() implies t[i] != '/' by {
        if i < host.len() {
            assert(t[i] == host[i]);
        } else if i > host.len() {
            assert(t[i] == d[i - host.len() - 1]);
        }
    }
    assert(!crate::text::has_prefix(t, "["@)) by {
        assert(t.subrange(0, 1)[0] == host[0]);
        assert("["@[0] == '[');
    }
    crate::text::split_at_a_character(host, ':', d);
    crate::router::lemma_url_parts("http://"@, t, path);
    crate::router::lemma_url_parts("https://"@, t, path);
}

} // verus!
