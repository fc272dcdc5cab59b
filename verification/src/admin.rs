//! Admin API: who may use it, and how routes are managed.

use vstd::prelude::*;

use crate::ip::IpAddr;
use crate::push::IpAllowlist;
use crate::router::ProfileRouter;
use crate::webhook::{Reply, ReplyView};

verus! {

broadcast use vstd::seq::group_seq_axioms;

/// The address that a request comes from; all zeros where it is not known.
pub open spec fn source_of(ip: Option<IpAddr>) -> IpAddr {
    match ip {
        Some(a) => a,
        None => IpAddr::V4(0),
    }
}

/// Whether a request may use the admin API.
pub fn check_admin_ip(allowed: &IpAllowlist, ip: Option<IpAddr>) -> (r: bool)
    ensures
        r == allowed.admits(source_of(ip)),
{
    let addr = match ip {
        Some(a) => a,
        None => IpAddr::V4(0),
    };
    allowed.allows(addr)
}

/// A route as the admin API lists it.
#[derive(Debug)]
pub struct RouteEntry {
    pub email: String,
    pub host: String,
    pub port: u16,
}

/// What a listed route says.
#[verifier::ext_equal]
pub struct EntryView {
    pub email: Seq<char>,
    pub host: Seq<char>,
    pub port: u16,
}

impl View for RouteEntry {
    type V = EntryView;

    open spec fn view(&self) -> EntryView {
        EntryView { email: self.email@, host: self.host@, port: self.port }
    }
}

/// What listed routes say.
pub open spec fn listed_views(v: Seq<RouteEntry>) -> Seq<EntryView> {
    v.map_values(|e: RouteEntry| e@)
}

/// The route as it is listed.
pub open spec fn listed(r: crate::router::RouteView) -> EntryView {
    EntryView { email: r.email, host: r.host, port: r.port }
}

/// All routes, as the admin API lists them.
pub fn list_routes(router: &ProfileRouter) -> (r: Vec<RouteEntry>)
    ensures
        listed_views(r@) == router.listing().map_values(|v: crate::router::RouteView| listed(v)),
{
    let routes = router.list_routes();
    let ghost all = router.listing().map_values(|v: crate::router::RouteView| listed(v));
    let mut out: Vec<RouteEntry> = Vec::new();
    let mut i: usize = 0;
    assert(listed_views(out@) =~= all.take(0));
    while i < routes.len()
        invariant
            i <= routes@.len(),
            all == crate::router::route_views(routes@).map_values(
                |v: crate::router::RouteView| listed(v),
            ),
            listed_views(out@) == all.take(i as int),
        decreases routes@.len() - i,
    {
        let ghost before = out@;
        let route = &routes[i];
        let e = RouteEntry { email: route.email.clone(), host: route.host.clone(), port: route.port };
        out.push(e);
        assert(crate::router::route_views(routes@)[i as int] == routes@[i as int]@);
        assert(all[i as int] == e@);
        assert(listed_views(out@) =~= listed_views(before).push(e@));
        assert(all.take(i + 1) =~= all.take(i as int).push(e@));
        i += 1;
    }
    assert(all.take(i as int) =~= all);
    out
}

/// A request that says all that a route needs.
pub open spec fn is_complete(email: Seq<char>, host: Seq<char>, port: u16) -> bool {
    email.len() > 0 && host.len() > 0 && port != 0
}

/// Registers a route, if the request says all that it needs.
pub fn create_route(router: &mut ProfileRouter, email: &str, host: &str, port: u16) -> (r: Reply)
    requires
        old(router).wf(),
    ensures
        final(router).wf(),
        final(router).patterns() == old(router).patterns(),
        final(router).file() == old(router).file(),
        final(router).writing() == old(router).writing(),
        is_complete(email@, host@, port) ==> r@ == (ReplyView { status: 200, body: "ok"@ })
            && final(router).routes() == old(router).routes().insert(
            email@,
            crate::router::registered_route(email@, host@, port),
        ),
        !is_complete(email@, host@, port) ==> r@ == (ReplyView {
            status: 400,
            body: "email, host, and port are required"@,
        }) && final(router).routes() == old(router).routes(),
{
    if email.is_empty() || host.is_empty() || port == 0 {
        return Reply {
            status: 400,
            body: String::from_str("email, host, and port are required"),
        };
    }
    router.update_route(email, host, port);
    Reply { status: 200, body: String::from_str("ok") }
}

/// Removes the route of an agent, if there is one.
pub fn delete_route(router: &mut ProfileRouter, email: &str) -> (r: Reply)
    requires
        old(router).wf(),
    ensures
        final(router).wf(),
        final(router).patterns() == old(router).patterns(),
        final(router).file() == old(router).file(),
        final(router).writing() == old(router).writing(),
        final(router).routes() == old(router).routes().remove(email@),
        r@ == (ReplyView { status: 200, body: "ok"@ }),
{
    router.remove_route(email);
    Reply { status: 200, body: String::from_str("ok") }
}

// ── Laws ───────────────────────────────────────────────────────────

/// A registration needs an email, a host and a port.
pub proof fn registrations_need_three_things(email: Seq<char>, host: Seq<char>, port: u16)
    ensures
        is_complete(email, host, port) <==> email != Seq::<char>::empty() && host != Seq::<
            char,
        >::empty() && port > 0,
{
    assert(email.len() == 0 ==> email =~= Seq::empty());
    assert(host.len() == 0 ==> host =~= Seq::empty());
}

/// A route is listed with its own email, host and port, and a request whose
/// source is not known comes from the address of zeros.
pub proof fn routes_are_listed_as_they_are(r: crate::router::RouteView, ip: IpAddr)
    ensures
        listed(r).email == r.email,
        listed(r).host == r.host,
        listed(r).port == r.port,
        source_of(Some(ip)) == ip,
        source_of(None) == IpAddr::V4(0),
{
}

/// What is said of listed routes is what they hold.
pub proof fn listed_routes_say_what_they_hold(v: Seq<RouteEntry>, i: int)
    ensures
        listed_views(v).len() == v.len(),
        0 <= i < v.len() ==> listed_views(v)[i].email == v[i].email@ && listed_views(v)[i].host
            == v[i].host@ && listed_views(v)[i].port == v[i].port,
{
}

} // verus!
