//! Security hardening: networks of source addresses, and headers of answers.

use axum::http::{HeaderMap, HeaderValue};
use vstd::prelude::*;

use crate::headers::{remove_header, set_text};
use crate::ip::{parse_ip, IpAddr};
use crate::text::{parse_number, split_once};

verus! {

broadcast use vstd::seq::group_seq_axioms;

// ── Networks ───────────────────────────────────────────────────────

/// The first `p` of 32 bits of `a` and `b` agree.
pub open spec fn agree32(a: u32, b: u32, p: u8) -> bool {
    p == 0 || a >> ((32 - p) as u32) == b >> ((32 - p) as u32)
}

/// The first `p` of 128 bits of `a` and `b` agree.
pub open spec fn agree128(a: u128, b: u128, p: u8) -> bool {
    p == 0 || a >> ((128 - p) as u128) == b >> ((128 - p) as u128)
}

/// `ip` is of the family of `network`, and agrees with it in the first `prefix` bits.
pub open spec fn in_network(ip: IpAddr, network: IpAddr, prefix: u8) -> bool {
    match (ip, network) {
        (IpAddr::V4(a), IpAddr::V4(b)) => agree32(a, b, prefix),
        (IpAddr::V6(a), IpAddr::V6(b)) => agree128(a, b, prefix),
        _ => false,
    }
}

/// The number of bits of an address.
pub open spec fn width(ip: IpAddr) -> u8 {
    match ip {
        IpAddr::V4(_) => 32,
        IpAddr::V6(_) => 128,
    }
}

proof fn lemma_mask32(a: u32, b: u32, s: u32)
    requires
        s < 32,
    ensures
        (a & (0xffff_ffffu32 << s) == b & (0xffff_ffffu32 << s)) == (a >> s == b >> s),
{
    assert((a & (0xffff_ffffu32 << s) == b & (0xffff_ffffu32 << s)) == (a >> s == b >> s))
        by (bit_vector)
        requires
            s < 32,
    ;
}

/// Clearing the lowest `s` bits is shifting them out and back.
proof fn lemma_clear128(a: u128, s: u128)
    requires
        s < 128,
    ensures
        a & (0xffff_ffff_ffff_ffff_ffff_ffff_ffff_ffffu128 << s) == (a >> s) << s,
        ((a >> s) << s) >> s == a >> s,
{
    assert(a & (0xffff_ffff_ffff_ffff_ffff_ffff_ffff_ffffu128 << s) == (a >> s) << s)
        by (bit_vector)
        requires
            s < 128,
    ;
    assert(((a >> s) << s) >> s == a >> s) by (bit_vector)
        requires
            s < 128,
    ;
}

proof fn lemma_mask128(a: u128, b: u128, s: u128)
    requires
        s < 128,
    ensures
        (a & (0xffff_ffff_ffff_ffff_ffff_ffff_ffff_ffffu128 << s) == b & (
        0xffff_ffff_ffff_ffff_ffff_ffff_ffff_ffffu128 << s)) == (a >> s == b >> s),
{
    lemma_clear128(a, s);
    lemma_clear128(b, s);
}

/// What agrees after a shift agrees after a longer one.
proof fn lemma_shift128(a: u128, b: u128, l: u128, s: u128)
    requires
        l <= s < 128,
        a >> l == b >> l,
    ensures
        a >> s == b >> s,
    decreases s - l,
{
    if l < s {
        let t = (s - 1) as u128;
        lemma_shift128(a, b, l, t);
        assert(a >> s == (a >> t) >> 1u128) by (bit_vector)
            requires
                s < 128,
                t == s - 1,
        ;
        assert(b >> s == (b >> t) >> 1u128) by (bit_vector)
            requires
                s < 128,
                t == s - 1,
        ;
    }
}

/// Whether an address is in a network.
pub fn ip_matches(ip: IpAddr, network: IpAddr, prefix: u8) -> (r: bool)
    requires
        ip is V4 && network is V4 ==> prefix <= 32,
        ip is V6 && network is V6 ==> prefix <= 128,
    ensures
        r == in_network(ip, network, prefix),
{
    match (ip, network) {
        (IpAddr::V4(a), IpAddr::V4(b)) => {
            if prefix == 0 {
                true
            } else {
                let s: u32 = (32 - prefix) as u32;
                let mask: u32 = 0xffff_ffffu32 << s;
                proof {
                    lemma_mask32(a, b, s);
                }
                a & mask == b & mask
            }
        },
        (IpAddr::V6(a), IpAddr::V6(b)) => {
            if prefix == 0 {
                true
            } else {
                let s: u128 = (128 - prefix) as u128;
                let mask: u128 = 0xffff_ffff_ffff_ffff_ffff_ffff_ffff_ffffu128 << s;
                proof {
                    lemma_mask128(a, b, s);
                }
                a & mask == b & mask
            }
        },
        _ => false,
    }
}

/// The network that a text spells: an address, or an address with the number
/// of its leading bits that count behind a slash.
pub open spec fn cidr(s: Seq<char>) -> Option<(IpAddr, u8)> {
    match crate::text::split_first(s, "/"@) {
        Some((a, p)) => match (crate::ip::ip_address(a), crate::text::number(p, 255)) {
            (Some(ip), Some(n)) => if n <= width(ip) {
                Some((ip, n as u8))
            } else {
                None
            },
            _ => None,
        },
        None => match crate::ip::ip_address(s) {
            Some(ip) => Some((ip, width(ip))),
            None => None,
        },
    }
}

/// The network that a text spells.
pub fn parse_cidr(s: &str) -> (r: Option<(IpAddr, u8)>)
    ensures
        r == cidr(s@),
{
    match split_once(s, "/") {
        Some((a, p)) => match (parse_ip(a), parse_number(p, 255)) {
            (Some(ip), Some(n)) => {
                let max: u64 = match ip {
                    IpAddr::V4(_) => 32,
                    IpAddr::V6(_) => 128,
                };
                if n <= max {
                    Some((ip, n as u8))
                } else {
                    None
                }
            },
            _ => None,
        },
        None => match parse_ip(s) {
            Some(IpAddr::V4(n)) => Some((IpAddr::V4(n), 32)),
            Some(IpAddr::V6(n)) => Some((IpAddr::V6(n), 128)),
            None => None,
        },
    }
}

/// The networks that the texts spell, in their order; texts that spell none
/// are left out.
pub open spec fn networks(raw: Seq<Seq<char>>) -> Seq<(IpAddr, u8)>
    decreases raw.len(),
{
    if raw.len() == 0 {
        Seq::empty()
    } else {
        let front = networks(raw.drop_last());
        match cidr(raw.last()) {
            Some(e) => front.push(e),
            None => front,
        }
    }
}

/// No network has more bits than its addresses.
pub open spec fn are_networks(entries: Seq<(IpAddr, u8)>) -> bool {
    forall|i: int| 0 <= i < entries.len() ==> (#[trigger] entries[i]).1 <= width(entries[i].0)
}

/// `ip` is in one of the networks.
pub open spec fn listed(entries: Seq<(IpAddr, u8)>, ip: IpAddr) -> bool {
    exists|i: int|
        0 <= i < entries.len() && in_network(ip, (#[trigger] entries[i]).0, entries[i].1)
}

/// The networks that a list of texts spells. Texts that spell none are left out.
pub fn parse_ip_list(raw: &[String]) -> (r: Vec<(IpAddr, u8)>)
    ensures
        r@ == networks(crate::text::texts(raw@)),
        are_networks(r@),
{
    let ghost t = crate::text::texts(raw@);
    let mut out: Vec<(IpAddr, u8)> = Vec::new();
    let mut i: usize = 0;
    assert(t.take(0) =~= Seq::<Seq<char>>::empty());
    while i < raw.len()
        invariant
            i <= raw@.len(),
            t == crate::text::texts(raw@),
            out@ == networks(t.take(i as int)),
            are_networks(out@),
        decreases raw@.len() - i,
    {
        assert(t.take(i + 1).drop_last() =~= t.take(i as int));
        assert(t.take(i + 1).last() == raw@[i as int]@);
        if let Some(e) = parse_cidr(raw[i].as_str()) {
            out.push(e);
        }
        i += 1;
    }
    assert(t.take(i as int) =~= t);
    out
}

/// Whether an address is in one of the networks.
pub(crate) fn is_listed(entries: &Vec<(IpAddr, u8)>, ip: IpAddr) -> (r: bool)
    requires
        are_networks(entries@),
    ensures
        r == listed(entries@, ip),
{
    let mut i: usize = 0;
    while i < entries.len()
        invariant
            i <= entries@.len(),
            are_networks(entries@),
            forall|j: int|
                0 <= j < i ==> !in_network(ip, (#[trigger] entries@[j]).0, entries@[j].1),
        decreases entries@.len() - i,
    {
        let (network, prefix) = entries[i];
        assert(entries@[i as int].1 <= width(entries@[i as int].0));
        if ip_matches(ip, network, prefix) {
            return true;
        }
        i += 1;
    }
    false
}

// ── Headers of answers ─────────────────────────────────────────────

/// The contents of a header map with a text as the only value under a name.
pub open spec fn with_header(
    contents: Map<Seq<char>, Seq<Seq<u8>>>,
    name: Seq<char>,
    value: Seq<char>,
) -> Map<Seq<char>, Seq<Seq<u8>>> {
    contents.insert(name, seq![vstd::utf8::encode_utf8(value)])
}

/// The contents of the headers of an answer that tell browsers to be careful.
/// That the host is to be asked over TLS alone, for a year, is said over TLS and
/// nowhere else.
pub open spec fn secured(contents: Map<Seq<char>, Seq<Seq<u8>>>, tls: bool) -> Map<
    Seq<char>,
    Seq<Seq<u8>>,
> {
    let careful = with_header(
        with_header(
            with_header(contents, "x-content-type-options"@, "nosniff"@),
            "x-frame-options"@,
            "DENY"@,
        ),
        "referrer-policy"@,
        "strict-origin-when-cross-origin"@,
    );
    if tls {
        with_header(careful, "strict-transport-security"@, "max-age=31536000"@)
    } else {
        careful.remove("strict-transport-security"@)
    }
}

/// Tells browsers not to guess types, not to show the answer in a frame, to
/// keep referrers to themselves and, over TLS, to come back over TLS. `tls` says
/// whether the connection is one.
pub fn add_security_headers(headers: &mut HeaderMap<HeaderValue>, tls: bool)
    requires
        crate::headers::has_room_for(*old(headers), 4),
    ensures
        crate::headers::header_contents(*final(headers)) == secured(
            crate::headers::header_contents(*old(headers)),
            tls,
        ),
{
    proof {
        reveal_strlit("x-content-type-options");
        reveal_strlit("x-frame-options");
        reveal_strlit("referrer-policy");
        reveal_strlit("strict-transport-security");
        reveal_strlit("nosniff");
        reveal_strlit("DENY");
        reveal_strlit("strict-origin-when-cross-origin");
        reveal_strlit("max-age=31536000");
        assert(crate::text::lower("x-content-type-options"@) =~= "x-content-type-options"@);
        assert(crate::text::lower("x-frame-options"@) =~= "x-frame-options"@);
        assert(crate::text::lower("referrer-policy"@) =~= "referrer-policy"@);
        assert(crate::text::lower("strict-transport-security"@) =~= "strict-transport-security"@);
        assert(crate::headers::has_room_for(*headers, 3 + 1));
    }
    set_text(headers, "x-content-type-options", "nosniff");
    assert(crate::headers::has_room_for(*headers, 3));
    assert(crate::headers::has_room_for(*headers, 2 + 1));
    set_text(headers, "x-frame-options", "DENY");
    assert(crate::headers::has_room_for(*headers, 2));
    assert(crate::headers::has_room_for(*headers, 1 + 1));
    set_text(headers, "referrer-policy", "strict-origin-when-cross-origin");
    assert(crate::headers::has_room_for(*headers, 1));
    if tls {
        set_text(headers, "strict-transport-security", "max-age=31536000");
    } else {
        remove_header(headers, "strict-transport-security");
    }
}

// ── Laws ───────────────────────────────────────────────────────────

/// A network of no leading bits holds all addresses of its family.
pub proof fn empty_prefix_holds_family(ip: IpAddr, network: IpAddr)
    ensures
        in_network(ip, network, 0) == (ip is V4 == network is V4),
{
}

/// A network of all bits holds its own address alone.
pub proof fn full_prefix_holds_one(ip: IpAddr, network: IpAddr)
    ensures
        in_network(ip, network, width(network)) == (ip == network),
{
    match (ip, network) {
        (IpAddr::V4(a), IpAddr::V4(b)) => {
            assert((a >> 0u32 == b >> 0u32) == (a == b)) by (bit_vector);
        },
        (IpAddr::V6(a), IpAddr::V6(b)) => {
            assert((a >> 0u128 == b >> 0u128) == (a == b)) by (bit_vector);
        },
        _ => {},
    }
}

/// An address is in the network of another exactly when the other is in its own.
pub proof fn networks_are_mutual(a: IpAddr, b: IpAddr, prefix: u8)
    ensures
        in_network(a, b, prefix) == in_network(b, a, prefix),
{
}

/// A network with fewer leading bits holds what one with more holds.
pub proof fn shorter_prefix_holds_more(ip: IpAddr, network: IpAddr, short: u8, long: u8)
    requires
        short <= long <= width(network),
        in_network(ip, network, long),
    ensures
        in_network(ip, network, short),
{
    if short > 0 {
        match (ip, network) {
            (IpAddr::V4(a), IpAddr::V4(b)) => {
                let s = (32 - short) as u32;
                let l = (32 - long) as u32;
                assert(a >> s == b >> s) by (bit_vector)
                    requires
                        l <= s,
                        s < 32,
                        a >> l == b >> l,
                ;
            },
            (IpAddr::V6(a), IpAddr::V6(b)) => {
                let s = (128 - short) as u128;
                let l = (128 - long) as u128;
                lemma_shift128(a, b, l, s);
            },
            _ => {},
        }
    }
}

/// The networks that texts spell have no more bits than their addresses.
pub proof fn spelled_networks_are_networks(raw: Seq<Seq<char>>)
    ensures
        are_networks(networks(raw)),
    decreases raw.len(),
{
    if raw.len() > 0 {
        spelled_networks_are_networks(raw.drop_last());
    }
}

/// Over TLS an answer says that the host is to be asked over TLS alone, and over
/// plain HTTP none does.
pub proof fn strict_transport_goes_with_tls(contents: Map<Seq<char>, Seq<Seq<u8>>>, tls: bool)
    ensures
        secured(contents, tls).contains_key("strict-transport-security"@) == tls,
{
}

/// Headers of an answer other than those that are set stay as they are.
pub proof fn other_headers_stay(
    contents: Map<Seq<char>, Seq<Seq<u8>>>,
    tls: bool,
    name: Seq<char>,
)
    requires
        name != "x-content-type-options"@,
        name != "x-frame-options"@,
        name != "referrer-policy"@,
        name != "strict-transport-security"@,
    ensures
        secured(contents, tls).contains_key(name) == contents.contains_key(name),
        contents.contains_key(name) ==> secured(contents, tls)[name] == contents[name],
{
}

/// An address is in a network exactly when the two are equal once the bits
/// behind the leading ones are divided away; addresses of different families
/// share no network.
pub proof fn network_is_told_by_division(a: u32, b: u32, x: u128, y: u128, p: u8, q: u8)
    requires
        p <= 32,
        q <= 128,
    ensures
        in_network(IpAddr::V4(a), IpAddr::V4(b), p) <==> a as nat
            / vstd::arithmetic::power2::pow2((32 - p) as nat) == b as nat
            / vstd::arithmetic::power2::pow2((32 - p) as nat),
        in_network(IpAddr::V6(x), IpAddr::V6(y), q) <==> x as nat
            / vstd::arithmetic::power2::pow2((128 - q) as nat) == y as nat
            / vstd::arithmetic::power2::pow2((128 - q) as nat),
        !in_network(IpAddr::V4(a), IpAddr::V6(y), q),
        !in_network(IpAddr::V6(x), IpAddr::V4(b), p),
{
    if p > 0 {
        vstd::bits::lemma_u32_shr_is_div(a, (32 - p) as u32);
        vstd::bits::lemma_u32_shr_is_div(b, (32 - p) as u32);
    } else {
        vstd::arithmetic::power2::lemma2_to64();
        vstd::arithmetic::div_mod::lemma_basic_div(a as int, 0x100000000);
        vstd::arithmetic::div_mod::lemma_basic_div(b as int, 0x100000000);
    }
    if q > 0 {
        vstd::bits::lemma_u128_shr_is_div(x, (128 - q) as u128);
        vstd::bits::lemma_u128_shr_is_div(y, (128 - q) as u128);
    } else {
        let all = vstd::arithmetic::power2::pow2(128);
        vstd::arithmetic::power2::lemma2_to64();
        vstd::arithmetic::power2::lemma_pow2_adds(64, 64);
        assert(all == 0x10000000000000000nat * 0x10000000000000000nat);
        vstd::arithmetic::div_mod::lemma_basic_div(x as int, all as int);
        vstd::arithmetic::div_mod::lemma_basic_div(y as int, all as int);
    }
}

/// An address, with or without the number of its leading bits behind a slash,
/// spells the network of that address; a number beyond its bits spells none.
pub proof fn spelled_network_is_read(text: Seq<char>, ip: IpAddr, n: nat)
    requires
        crate::ip::ip_address(text) == Some(ip),
        !text.contains('/'),
    ensures
        ip is V4 ==> cidr(text) == Some((ip, 32u8)),
        ip is V6 ==> cidr(text) == Some((ip, 128u8)),
        ip is V4 && n <= 32 || ip is V6 && n <= 128 ==> cidr(
            text + "/"@ + crate::text::decimal(n),
        ) == Some((ip, n as u8)),
        ip is V4 && n > 32 || n > 128 ==> cidr(text + "/"@ + crate::text::decimal(n)) is None,
{
    reveal_strlit("/");
    assert("/"@ =~= seq!['/']);
    crate::text::split_at_no_character(text, '/');
    crate::text::split_at_a_character(text, '/', crate::text::decimal(n));
    crate::text::lemma_decimal(n);
    crate::text::spelling_is_short(n);
    crate::text::numbers_are_rows_of_digits(crate::text::decimal(n), 255);
}

/// What is no address, or has no number behind the slash, spells no network.
pub proof fn other_texts_spell_no_network(text: Seq<char>, bits: Seq<char>)
    requires
        !text.contains('/'),
    ensures
        crate::ip::ip_address(text) is None ==> cidr(text) is None && cidr(text + "/"@ + bits)
            is None,
        crate::text::number(bits, 255) is None ==> cidr(text + "/"@ + bits) is None,
{
    reveal_strlit("/");
    assert("/"@ =~= seq!['/']);
    crate::text::split_at_no_character(text, '/');
    crate::text::split_at_a_character(text, '/', bits);
}

/// What a text of a list spells stands among its networks.
proof fn lemma_spelled_is_listed(raw: Seq<Seq<char>>, i: int)
    requires
        0 <= i < raw.len(),
        cidr(raw[i]) is Some,
    ensures
        networks(raw).contains(cidr(raw[i])->0),
    decreases raw.len(),
{
    let front = raw.drop_last();
    if i < front.len() {
        lemma_spelled_is_listed(front, i);
        let e = cidr(raw[i])->0;
        let k = choose|k: int| 0 <= k < networks(front).len() && networks(front)[k] == e;
        assert(networks(raw)[k] == e);
    } else {
        let all = networks(raw);
        assert(all[all.len() - 1] == cidr(raw[i])->0);
    }
}

/// What stands among the networks of a list is spelled by one of its texts.
proof fn lemma_listed_is_spelled(raw: Seq<Seq<char>>, k: int) -> (i: int)
    requires
        0 <= k < networks(raw).len(),
    ensures
        0 <= i < raw.len(),
        cidr(raw[i]) == Some(networks(raw)[k]),
    decreases raw.len(),
{
    let front = raw.drop_last();
    if k < networks(front).len() {
        lemma_listed_is_spelled(front, k)
    } else {
        raw.len() - 1
    }
}

/// A list of texts holds an address exactly when one of them spells a network
/// that the address is in.
pub proof fn list_holds_what_its_texts_hold(raw: Seq<Seq<char>>, ip: IpAddr)
    ensures
        listed(networks(raw), ip) <==> exists|i: int|
            0 <= i < raw.len() && (cidr(#[trigger] raw[i]) matches Some((net, p)) && in_network(
                ip,
                net,
                p,
            )),
        networks(raw).len() == 0 <==> forall|i: int|
            0 <= i < raw.len() ==> cidr(#[trigger] raw[i]) is None,
{
    let all = networks(raw);
    if listed(all, ip) {
        let k = choose|k: int| 0 <= k < all.len() && in_network(ip, (#[trigger] all[k]).0, all[k].1);
        let i = lemma_listed_is_spelled(raw, k);
        assert(cidr(raw[i]) == Some(all[k]));
    }
    if exists|i: int|
        0 <= i < raw.len() && (cidr(#[trigger] raw[i]) matches Some((net, p)) && in_network(
            ip,
            net,
            p,
        )) {
        let i = choose|i: int|
            0 <= i < raw.len() && (cidr(#[trigger] raw[i]) matches Some((net, p)) && in_network(
                ip,
                net,
                p,
            ));
        lemma_spelled_is_listed(raw, i);
        let k = choose|k: int| 0 <= k < all.len() && all[k] == cidr(raw[i])->0;
        assert(in_network(ip, all[k].0, all[k].1));
    }
    if all.len() > 0 {
        let i = lemma_listed_is_spelled(raw, 0);
        assert(cidr(raw[i]) is Some);
    }
    if exists|i: int| 0 <= i < raw.len() && cidr(#[trigger] raw[i]) is Some {
        let i = choose|i: int| 0 <= i < raw.len() && cidr(#[trigger] raw[i]) is Some;
        lemma_spelled_is_listed(raw, i);
    }
}

/// The networks of a list come in the order of its texts.
pub proof fn networks_come_in_order(a: Seq<Seq<char>>, b: Seq<Seq<char>>)
    ensures
        networks(a + b) == networks(a) + networks(b),
        a.len() == 1 && cidr(a[0]) is Some ==> networks(a) == seq![cidr(a[0])->0],
    decreases b.len(),
{
    if b.len() == 0 {
        assert(a + b =~= a);
        assert(networks(a) + networks(b) =~= networks(a));
    } else {
        networks_come_in_order(a, b.drop_last());
        assert((a + b).drop_last() =~= a + b.drop_last());
        assert((a + b).last() == b.last());
        assert(networks(a + b) =~= networks(a) + networks(b));
    }
    if a.len() == 1 {
        assert(a.drop_last().len() == 0);
        assert(networks(a.drop_last()) =~= Seq::<(IpAddr, u8)>::empty());
        if cidr(a[0]) is Some {
            assert(networks(a) =~= seq![cidr(a[0])->0]);
        }
    }
}

/// Every answer says that types are not to be guessed, that it is not to be
/// shown in a frame and that referrers are to be kept, whatever it said before.
pub proof fn answers_are_careful(contents: Map<Seq<char>, Seq<Seq<u8>>>, tls: bool)
    ensures
        ({
            let s = secured(contents, tls);
            &&& s.contains_key("x-content-type-options"@)
            &&& s["x-content-type-options"@] == seq![vstd::utf8::encode_utf8("nosniff"@)]
            &&& s.contains_key("x-frame-options"@)
            &&& s["x-frame-options"@] == seq![vstd::utf8::encode_utf8("DENY"@)]
            &&& s.contains_key("referrer-policy"@)
            &&& s["referrer-policy"@] == seq![
                vstd::utf8::encode_utf8("strict-origin-when-cross-origin"@),
            ]
            &&& tls ==> s.contains_key("strict-transport-security"@)
                && s["strict-transport-security"@] == seq![
                vstd::utf8::encode_utf8("max-age=31536000"@),
            ]
            &&& !tls ==> !s.contains_key("strict-transport-security"@)
        }),
{
    reveal_strlit("x-content-type-options");
    reveal_strlit("x-frame-options");
    reveal_strlit("referrer-policy");
    reveal_strlit("strict-transport-security");
    assert("x-content-type-options"@.len() == 22);
    assert("x-frame-options"@.len() == 15);
    assert("referrer-policy"@[0] == 'r');
    assert("x-frame-options"@[0] == 'x');
    assert("strict-transport-security"@.len() == 25);
}

/// The number of leading bits counts however it is spelled, and anything else
/// behind the slash spells no network.
pub proof fn leading_bits_count_however_spelled(text: Seq<char>, ip: IpAddr, bits: Seq<char>)
    requires
        crate::ip::ip_address(text) == Some(ip),
        !text.contains('/'),
    ensures
        cidr(text + "/"@ + bits) == match crate::text::number(bits, 255) {
            Some(n) => if ip is V4 && n <= 32 || ip is V6 && n <= 128 {
                Some((ip, n as u8))
            } else {
                None
            },
            None => None,
        },
{
    reveal_strlit("/");
    assert("/"@ =~= seq!['/']);
    crate::text::split_at_a_character(text, '/', bits);
}

} // verus!
