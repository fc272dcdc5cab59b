//! IP addresses and the texts that spell them.

use vstd::prelude::*;

use crate::text::{chars_of, split_all, split_once};

verus! {

broadcast use vstd::seq::group_seq_axioms;

/// An IP address: its 32 or 128 bits, the first bit being the highest.
#[derive(Debug, Clone, Copy, PartialEq, Eq, Structural)]
pub enum IpAddr {
    V4(u32),
    V6(u128),
}

// ── Dotted quads ───────────────────────────────────────────────────

/// The number below 256 that up to three digits spell, without leading zeros.
pub open spec fn octet(t: Seq<char>) -> Option<nat> {
    if 1 <= t.len() <= 3 && crate::text::all_digits(t) && (t.len() == 1 || t[0] != '0')
        && crate::text::digits_value(t) <= 255 {
        Some(crate::text::digits_value(t))
    } else {
        None
    }
}

/// The address that a dotted quad spells.
pub open spec fn ipv4(s: Seq<char>) -> Option<u32> {
    let p = crate::text::pieces(s, '.');
    if p.len() == 4 {
        match (octet(p[0]), octet(p[1]), octet(p[2]), octet(p[3])) {
            (Some(a), Some(b), Some(c), Some(d)) => Some(
                (a * 0x1000000 + b * 0x10000 + c * 0x100 + d) as u32,
            ),
            _ => None,
        }
    } else {
        None
    }
}

/// The number below 256 that `t` spells.
fn read_octet(t: &str) -> (r: Option<u32>)
    ensures
        match r {
            Some(n) => n <= 255 && octet(t@) == Some(n as nat),
            None => octet(t@) is None,
        },
{
    let x = chars_of(t);
    if x.len() == 0 || x.len() > 3 || (x.len() > 1 && x[0] == '0') {
        return None;
    }
    let mut value: u32 = 0;
    let mut i: usize = 0;
    assert(t@.take(0) =~= Seq::<char>::empty());
    while i < x.len()
        invariant
            x@ == t@,
            i <= x.len() <= 3,
            value == crate::text::digits_value(t@.take(i as int)),
            i == 0 ==> value == 0,
            i == 1 ==> value <= 9,
            i == 2 ==> value <= 99,
            i == 3 ==> value <= 999,
            forall|k: int| 0 <= k < i ==> crate::text::is_digit(#[trigger] t@[k]),
        decreases x.len() - i,
    {
        let c = x[i];
        if c < '0' || c > '9' {
            assert(!crate::text::is_digit(t@[i as int]));
            return None;
        }
        assert(t@.take(i + 1).drop_last() =~= t@.take(i as int));
        value = value * 10 + (c as u32 - '0' as u32);
        i += 1;
    }
    assert(t@.take(i as int) =~= t@);
    if value <= 255 {
        Some(value)
    } else {
        None
    }
}

/// The address that a dotted quad spells.
fn read_ipv4(s: &str) -> (r: Option<u32>)
    ensures
        r == ipv4(s@),
{
    let p = split_all(s, '.');
    assert(p@.len() == crate::text::views(p@).len());
    if p.len() != 4 {
        return None;
    }
    let ghost v = crate::text::views(p@);
    assert(v[0] == p@[0]@ && v[1] == p@[1]@ && v[2] == p@[2]@ && v[3] == p@[3]@);
    match (read_octet(p[0]), read_octet(p[1]), read_octet(p[2]), read_octet(p[3])) {
        (Some(a), Some(b), Some(c), Some(d)) => Some(
            a * 0x1000000 + b * 0x10000 + c * 0x100 + d,
        ),
        _ => None,
    }
}

// ── Groups of hexadecimal digits ───────────────────────────────────

/// The value of a hexadecimal digit.
pub open spec fn hex_digit(c: char) -> Option<nat> {
    if '0' <= c <= '9' {
        Some((c as int - '0' as int) as nat)
    } else if 'a' <= c <= 'f' {
        Some((c as int - 'a' as int + 10) as nat)
    } else if 'A' <= c <= 'F' {
        Some((c as int - 'A' as int + 10) as nat)
    } else {
        None
    }
}

/// The number that a row of hexadecimal digits spells.
pub open spec fn hex_value(t: Seq<char>) -> Option<nat>
    decreases t.len(),
{
    if t.len() == 0 {
        Some(0)
    } else {
        match (hex_value(t.drop_last()), hex_digit(t.last())) {
            (Some(n), Some(d)) => Some(n * 16 + d),
            _ => None,
        }
    }
}

/// The sixteen bits that one to four hexadecimal digits spell.
pub open spec fn hex_group(t: Seq<char>) -> Option<u16> {
    if 1 <= t.len() <= 4 {
        match hex_value(t) {
            Some(n) => Some(n as u16),
            None => None,
        }
    } else {
        None
    }
}

/// The groups that the pieces spell.
pub open spec fn hex_groups(p: Seq<Seq<char>>) -> Option<Seq<u16>>
    decreases p.len(),
{
    if p.len() == 0 {
        Some(Seq::empty())
    } else {
        match (hex_groups(p.drop_last()), hex_group(p.last())) {
            (Some(g), Some(n)) => Some(g.push(n)),
            _ => None,
        }
    }
}

/// The groups that the pieces spell, where the last piece may be a dotted
/// quad, which stands for two groups.
pub open spec fn tail_groups(p: Seq<Seq<char>>) -> Option<Seq<u16>> {
    match hex_groups(p) {
        Some(g) => Some(g),
        None => if p.len() > 0 {
            match (hex_groups(p.drop_last()), ipv4(p.last())) {
                (Some(g), Some(n)) => Some(
                    g.push((n / 0x10000) as u16).push((n % 0x10000) as u16),
                ),
                _ => None,
            }
        } else {
            None
        },
    }
}

/// The pieces between the colons; an empty text has none.
pub open spec fn colon_pieces(s: Seq<char>) -> Seq<Seq<char>> {
    if s.len() == 0 {
        Seq::empty()
    } else {
        crate::text::pieces(s, ':')
    }
}

/// The number that groups of sixteen bits make up, the first being the highest.
pub open spec fn groups_value(g: Seq<u16>) -> nat
    decreases g.len(),
{
    if g.len() == 0 {
        0
    } else {
        groups_value(g.drop_last()) * 0x10000 + g.last() as nat
    }
}

/// `n` groups of zeros.
pub open spec fn zero_groups(n: nat) -> Seq<u16> {
    Seq::new(n, |i: int| 0u16)
}

/// The address that eight groups spell, of which `::` may stand for a run of
/// at least one group of zeros.
pub open spec fn ipv6(s: Seq<char>) -> Option<u128> {
    match crate::text::split_first(s, "::"@) {
        Some((h, t)) => match (hex_groups(colon_pieces(h)), tail_groups(colon_pieces(t))) {
            (Some(a), Some(b)) => if a.len() + b.len() <= 7 {
                Some(
                    groups_value(a + zero_groups((8 - a.len() - b.len()) as nat) + b) as u128,
                )
            } else {
                None
            },
            _ => None,
        },
        None => match tail_groups(colon_pieces(s)) {
            Some(g) => if g.len() == 8 {
                Some(groups_value(g) as u128)
            } else {
                None
            },
            None => None,
        },
    }
}

/// The address that a text spells: a dotted quad, or groups of hexadecimal digits.
pub open spec fn ip_address(s: Seq<char>) -> Option<IpAddr> {
    match ipv4(s) {
        Some(n) => Some(IpAddr::V4(n)),
        None => match ipv6(s) {
            Some(n) => Some(IpAddr::V6(n)),
            None => None,
        },
    }
}

/// The value of a hexadecimal digit.
fn read_hex_digit(c: char) -> (r: Option<u32>)
    ensures
        match r {
            Some(d) => d < 16 && hex_digit(c) == Some(d as nat),
            None => hex_digit(c) is None,
        },
{
    if '0' <= c && c <= '9' {
        Some(c as u32 - '0' as u32)
    } else if 'a' <= c && c <= 'f' {
        Some(c as u32 - 'a' as u32 + 10)
    } else if 'A' <= c && c <= 'F' {
        Some(c as u32 - 'A' as u32 + 10)
    } else {
        None
    }
}

/// A text that holds a digit which is none spells no number.
proof fn lemma_hex_fails(t: Seq<char>, i: int)
    requires
        0 <= i < t.len(),
        hex_digit(t[i]) is None,
    ensures
        hex_value(t) is None,
    decreases t.len(),
{
    if i < t.len() - 1 {
        lemma_hex_fails(t.drop_last(), i);
    }
}

/// The sixteen bits that `t` spells.
fn read_hex_group(t: &str) -> (r: Option<u16>)
    ensures
        r == hex_group(t@),
{
    let x = chars_of(t);
    if x.len() == 0 || x.len() > 4 {
        return None;
    }
    let mut value: u32 = 0;
    let mut i: usize = 0;
    assert(t@.take(0) =~= Seq::<char>::empty());
    while i < x.len()
        invariant
            x@ == t@,
            i <= x.len() <= 4,
            hex_value(t@.take(i as int)) == Some(value as nat),
            i == 0 ==> value == 0,
            i == 1 ==> value <= 0xf,
            i == 2 ==> value <= 0xff,
            i == 3 ==> value <= 0xfff,
            i == 4 ==> value <= 0xffff,
        decreases x.len() - i,
    {
        match read_hex_digit(x[i]) {
            Some(d) => {
                assert(t@.take(i + 1).drop_last() =~= t@.take(i as int));
                value = value * 16 + d;
            },
            None => {
                proof {
                    lemma_hex_fails(t@, i as int);
                }
                return None;
            },
        }
        i += 1;
    }
    assert(t@.take(i as int) =~= t@);
    Some(value as u16)
}

/// A piece that is no group spoils the row.
proof fn lemma_groups_fail(p: Seq<Seq<char>>, i: int)
    requires
        0 <= i < p.len(),
        hex_group(p[i]) is None,
    ensures
        hex_groups(p) is None,
    decreases p.len(),
{
    if i < p.len() - 1 {
        lemma_groups_fail(p.drop_last(), i);
    }
}

/// The groups that the first `n` pieces spell.
fn read_hex_groups(p: &Vec<&str>, n: usize) -> (r: Option<Vec<u16>>)
    requires
        n <= p@.len(),
    ensures
        match r {
            Some(g) => hex_groups(crate::text::views(p@).take(n as int)) == Some(g@) && g@.len()
                == n,
            None => hex_groups(crate::text::views(p@).take(n as int)) is None,
        },
{
    let ghost v = crate::text::views(p@);
    let mut out: Vec<u16> = Vec::new();
    let mut i: usize = 0;
    assert(v.take(0) =~= Seq::<Seq<char>>::empty());
    while i < n
        invariant
            i <= n <= p@.len(),
            v == crate::text::views(p@),
            hex_groups(v.take(i as int)) == Some(out@),
            out@.len() == i,
        decreases n - i,
    {
        assert(v[i as int] == p@[i as int]@);
        match read_hex_group(p[i]) {
            Some(g) => {
                assert(v.take(i + 1).drop_last() =~= v.take(i as int));
                out.push(g);
            },
            None => {
                proof {
                    lemma_groups_fail(v.take(n as int), i as int);
                }
                return None;
            },
        }
        i += 1;
    }
    Some(out)
}

/// The pieces between the colons.
fn split_colons<'a>(s: &'a str) -> (r: Vec<&'a str>)
    ensures
        crate::text::views(r@) == colon_pieces(s@),
{
    if s.is_empty() {
        let r: Vec<&'a str> = Vec::new();
        assert(crate::text::views(r@) =~= Seq::<Seq<char>>::empty());
        r
    } else {
        split_all(s, ':')
    }
}

/// The groups that the pieces spell, the last of which may be a dotted quad.
fn read_tail_groups(p: &Vec<&str>) -> (r: Option<Vec<u16>>)
    ensures
        match r {
            Some(g) => tail_groups(crate::text::views(p@)) == Some(g@),
            None => tail_groups(crate::text::views(p@)) is None,
        },
{
    let ghost v = crate::text::views(p@);
    assert(v.take(p@.len() as int) =~= v);
    if let Some(g) = read_hex_groups(p, p.len()) {
        return Some(g);
    }
    if p.len() == 0 {
        return None;
    }
    let last = p.len() - 1;
    assert(v.take(last as int) =~= v.drop_last());
    assert(v.last() == p@[last as int]@);
    match (read_hex_groups(p, last), read_ipv4(p[last])) {
        (Some(mut g), Some(n)) => {
            g.push((n / 0x10000) as u16);
            g.push((n % 0x10000) as u16);
            Some(g)
        },
        _ => None,
    }
}

/// One more than the largest number that `n` groups make up.
spec fn group_bound(n: nat) -> nat
    decreases n,
{
    if n == 0 {
        1
    } else {
        0x10000 * group_bound((n - 1) as nat)
    }
}

proof fn lemma_groups_value_bound(g: Seq<u16>)
    ensures
        groups_value(g) < group_bound(g.len()),
    decreases g.len(),
{
    if g.len() > 0 {
        lemma_groups_value_bound(g.drop_last());
    }
}

/// The number that eight groups make up.
fn compose(g: &Vec<u16>) -> (r: u128)
    requires
        g@.len() == 8,
    ensures
        r == groups_value(g@),
{
    let mut value: u128 = 0;
    let mut i: usize = 0;
    assert(g@.take(0) =~= Seq::<u16>::empty());
    while i < 8
        invariant
            i <= 8,
            g@.len() == 8,
            value == groups_value(g@.take(i as int)),
        decreases 8 - i,
    {
        let ghost next = g@.take(i + 1);
        assert(next.drop_last() =~= g@.take(i as int));
        assert(next.last() == g@[i as int]);
        proof {
            lemma_groups_value_bound(next);
            reveal_with_fuel(group_bound, 9);
            assert(group_bound(1) <= u128::MAX && group_bound(2) <= u128::MAX && group_bound(3)
                <= u128::MAX && group_bound(4) <= u128::MAX && group_bound(5) <= u128::MAX
                && group_bound(6) <= u128::MAX && group_bound(7) <= u128::MAX && group_bound(8)
                <= u128::MAX + 1);
        }
        assert(groups_value(next) == value * 0x10000 + g@[i as int]);
        value = value * 0x10000 + g[i] as u128;
        i += 1;
    }
    assert(g@.take(8) =~= g@);
    value
}

/// The address that groups of hexadecimal digits spell.
fn read_ipv6(s: &str) -> (r: Option<u128>)
    ensures
        r == ipv6(s@),
{
    match split_once(s, "::") {
        Some((h, t)) => {
            let hp = split_colons(h);
            let ghost hv = crate::text::views(hp@);
            assert(hv.take(hp@.len() as int) =~= hv);
            let mut g = match read_hex_groups(&hp, hp.len()) {
                Some(g) => g,
                None => {
                    return None;
                },
            };
            let b = match read_tail_groups(&split_colons(t)) {
                Some(b) => b,
                None => {
                    return None;
                },
            };
            if g.len() > 7 || b.len() > 7 - g.len() {
                return None;
            }
            let ghost a = g@;
            let ghost gap = 8 - a.len() - b@.len();
            let mut i: usize = g.len();
            while i < 8 - b.len()
                invariant
                    a.len() <= i <= 8 - b@.len(),
                    b@.len() <= 7,
                    g@ == a + zero_groups((i - a.len()) as nat),
                decreases 8 - b@.len() - i,
            {
                let ghost before = g@;
                g.push(0);
                assert(g@ =~= a + zero_groups((i + 1 - a.len()) as nat));
                i += 1;
            }
            let mut j: usize = 0;
            let ghost front = g@;
            assert(b@.take(0) =~= Seq::<u16>::empty());
            while j < b.len()
                invariant
                    j <= b@.len(),
                    g@ == front + b@.take(j as int),
                decreases b@.len() - j,
            {
                g.push(b[j]);
                assert(g@ =~= front + b@.take(j + 1));
                j += 1;
            }
            assert(b@.take(j as int) =~= b@);
            assert(g@ == a + zero_groups(gap as nat) + b@);
            Some(compose(&g))
        },
        None => match read_tail_groups(&split_colons(s)) {
            Some(g) => if g.len() == 8 {
                Some(compose(&g))
            } else {
                None
            },
            None => None,
        },
    }
}

/// The address that a text spells.
pub fn parse_ip(s: &str) -> (r: Option<IpAddr>)
    ensures
        r == ip_address(s@),
{
    match read_ipv4(s) {
        Some(n) => Some(IpAddr::V4(n)),
        None => match read_ipv6(s) {
            Some(n) => Some(IpAddr::V6(n)),
            None => None,
        },
    }
}

// ── Laws ───────────────────────────────────────────────────────────

/// Digits that do not begin with a zero spell their value as it is spelled.
proof fn lemma_spelled(t: Seq<char>)
    requires
        t.len() > 0,
        crate::text::all_digits(t),
        t.len() == 1 || t[0] != '0',
    ensures
        crate::text::decimal(crate::text::digits_value(t)) == t,
        t[0] != '0' ==> crate::text::digits_value(t) > 0,
    decreases t.len(),
{
    let front = t.drop_last();
    let d = (t.last() as int - '0' as int) as nat;
    assert(crate::text::is_digit(t[t.len() - 1]));
    assert(crate::text::digit_char(d) == t.last());
    if front.len() == 0 {
        assert(crate::text::digits_value(front) == 0);
        assert(t =~= seq![t.last()]);
    } else {
        assert forall|i: int| 0 <= i < front.len() implies crate::text::is_digit(
            #[trigger] front[i],
        ) by {
            assert(front[i] == t[i]);
        }
        lemma_spelled(front);
        let v = crate::text::digits_value(front);
        assert((v * 10 + d) / 10 == v);
        assert((v * 10 + d) % 10 == d);
        assert(t =~= front.push(t.last()));
    }
}

/// The spelling of a number up to 255 is an octet with that value.
proof fn lemma_octet(n: nat)
    requires
        n <= 255,
    ensures
        octet(crate::text::decimal(n)) == Some(n),
        !crate::text::decimal(n).contains('.'),
{
    crate::text::lemma_decimal(n);
    crate::text::spelling_is_short(n);
}

/// Four numbers up to 255 with points between them spell an IPv4 address, the
/// first one as its highest byte.
pub proof fn dotted_numbers_are_an_address(a: nat, b: nat, c: nat, d: nat)
    requires
        a <= 255,
        b <= 255,
        c <= 255,
        d <= 255,
    ensures
        ip_address(
            crate::text::decimal(a) + "."@ + crate::text::decimal(b) + "."@ + crate::text::decimal(
                c,
            ) + "."@ + crate::text::decimal(d),
        ) == Some(IpAddr::V4((a * 16777216 + b * 65536 + c * 256 + d) as u32)),
{
    reveal_strlit(".");
    assert("."@ =~= seq!['.']);
    let (p, q, r, s) = (
        crate::text::decimal(a),
        crate::text::decimal(b),
        crate::text::decimal(c),
        crate::text::decimal(d),
    );
    lemma_octet(a);
    lemma_octet(b);
    lemma_octet(c);
    lemma_octet(d);
    crate::text::pieces_end_at_separators(Seq::empty(), '.', p);
    crate::text::pieces_end_at_separators(p, '.', q);
    crate::text::pieces_end_at_separators(p + "."@ + q, '.', r);
    crate::text::pieces_end_at_separators(p + "."@ + q + "."@ + r, '.', s);
}

/// Nothing else spells an IPv4 address: a text that does is those four numbers.
pub proof fn address_is_dotted_numbers(s: Seq<char>, n: u32)
    requires
        ip_address(s) == Some(IpAddr::V4(n)),
    ensures
        s == crate::text::decimal((n / 16777216) as nat) + "."@ + crate::text::decimal(
            (n / 65536 % 256) as nat,
        ) + "."@ + crate::text::decimal((n / 256 % 256) as nat) + "."@ + crate::text::decimal(
            (n % 256) as nat,
        ),
{
    reveal_strlit(".");
    assert("."@ =~= seq!['.']);
    let p = crate::text::pieces(s, '.');
    crate::text::pieces_make_up_the_text(s, '.');
    let (a, b, c, d) = (octet(p[0])->0, octet(p[1])->0, octet(p[2])->0, octet(p[3])->0);
    lemma_spelled(p[0]);
    lemma_spelled(p[1]);
    lemma_spelled(p[2]);
    lemma_spelled(p[3]);
    let three = p.drop_last();
    let two = three.drop_last();
    let one = two.drop_last();
    assert(one.len() == 1 && one[0] == p[0] && two.last() == p[1] && three.last() == p[2]
        && p.last() == p[3]);
    assert(crate::text::joined(one, '.') == p[0]);
    assert(crate::text::joined(two, '.') == p[0] + seq!['.'] + p[1]);
    assert(crate::text::joined(three, '.') == p[0] + seq!['.'] + p[1] + seq!['.'] + p[2]);
    assert(crate::text::joined(p, '.') == p[0] + seq!['.'] + p[1] + seq!['.'] + p[2] + seq!['.']
        + p[3]);
    assert(n == a * 16777216 + b * 65536 + c * 256 + d);
    assert(n / 16777216 == a && n / 65536 % 256 == b && n / 256 % 256 == c && n % 256 == d) by {
        let m = n as nat;
        assert(m % 256 == d);
        assert(m / 256 == a * 65536 + b * 256 + c);
        assert(m / 65536 == a * 256 + b);
    }
}

/// The sixteen digits of hexadecimal numbers, in small letters and in capitals.
pub proof fn hex_digits_count_to_fifteen(c: char)
    ensures
        hex_digit(c) == if 48 <= c as int <= 57 {
            Some((c as int - 48) as nat)
        } else if 97 <= c as int <= 102 {
            Some((c as int - 87) as nat)
        } else if 65 <= c as int <= 70 {
            Some((c as int - 55) as nat)
        } else {
            None
        },
{
}

/// Hexadecimal digits count by their places: those before others stand for as
/// many sixteens.
pub proof fn hex_digits_count_by_their_places(a: Seq<char>, b: Seq<char>, c: char)
    ensures
        hex_value(seq![c]) == hex_digit(c),
        hex_value(a) is Some && hex_value(b) is Some ==> hex_value(a + b) == Some(
            (hex_value(a)->0 * vstd::arithmetic::power::pow(16, b.len()) + hex_value(b)->0) as nat,
        ),
        hex_value(a) is None || hex_value(b) is None ==> hex_value(a + b) is None,
    decreases b.len(),
{
    let one = seq![c];
    assert(one.drop_last() =~= Seq::<char>::empty());
    assert(hex_value(one.drop_last()) == Some(0nat));
    if b.len() == 0 {
        assert(a + b =~= a);
        vstd::arithmetic::power::lemma_pow0(16);
    } else {
        let front = b.drop_last();
        hex_digits_count_by_their_places(a, front, c);
        assert((a + b).drop_last() =~= a + front);
        assert((a + b).last() == b.last());
        if hex_value(a) is Some && hex_value(b) is Some {
            let p = vstd::arithmetic::power::pow(16, front.len());
            reveal(vstd::arithmetic::power::pow);
            assert(vstd::arithmetic::power::pow(16, b.len()) == 16 * p);
            vstd::arithmetic::power::lemma_pow_positive(16, front.len());
            let v = hex_value(a)->0 as int;
            assert((v * p) * 16 == v * (16 * p)) by (nonlinear_arith);
            assert(v * p >= 0) by (nonlinear_arith)
                requires
                    v >= 0,
                    p > 0,
            ;
        }
    }
}

/// A group of an IPv6 address is one to four hexadecimal digits.
pub proof fn groups_have_up_to_four_digits(t: Seq<char>)
    ensures
        hex_group(t) is Some <==> 1 <= t.len() <= 4 && hex_value(t) is Some,
        hex_group(t) is Some ==> hex_group(t)->0 == hex_value(t)->0,
{
    if 1 <= t.len() <= 4 && hex_value(t) is Some {
        reveal_with_fuel(hex_value, 5);
        let n = hex_value(t)->0;
        assert(n < 65536);
    }
}

/// The characters of a group are no colons and no points.
proof fn lemma_group_chars(t: Seq<char>, i: int)
    requires
        hex_value(t) is Some,
        0 <= i < t.len(),
    ensures
        hex_digit(t[i]) is Some,
        t[i] != ':',
        t[i] != '.',
    decreases t.len(),
{
    if i < t.len() - 1 {
        lemma_group_chars(t.drop_last(), i);
    }
}

/// Groups that are joined by colons are taken apart into the groups again.
proof fn lemma_pieces_of_joined(p: Seq<Seq<char>>, c: char)
    requires
        p.len() > 0,
        forall|i: int| 0 <= i < p.len() ==> !(#[trigger] p[i]).contains(c),
    ensures
        crate::text::pieces(crate::text::joined(p, c), c) == p,
    decreases p.len(),
{
    if p.len() == 1 {
        crate::text::pieces_end_at_separators(Seq::empty(), c, p[0]);
        assert(p =~= seq![p[0]]);
    } else {
        let front = p.drop_last();
        assert forall|i: int| 0 <= i < front.len() implies !(#[trigger] front[i]).contains(c) by {
            assert(front[i] == p[i]);
        }
        lemma_pieces_of_joined(front, c);
        assert(!p[p.len() - 1].contains(c));
        crate::text::pieces_end_at_separators(crate::text::joined(front, c), c, p.last());
        assert(p =~= front.push(p.last()));
    }
}

/// All texts are groups of an IPv6 address.
spec fn are_groups(p: Seq<Seq<char>>) -> bool {
    forall|i: int| 0 <= i < p.len() ==> hex_group(#[trigger] p[i]) is Some
}

/// The values of groups.
spec fn values(p: Seq<Seq<char>>) -> Seq<u16> {
    p.map_values(|t: Seq<char>| hex_group(t)->0)
}

/// Groups are read one by one.
proof fn lemma_groups_are_read(p: Seq<Seq<char>>)
    requires
        are_groups(p),
    ensures
        hex_groups(p) == Some(values(p)),
    decreases p.len(),
{
    if p.len() == 0 {
        assert(values(p) =~= Seq::<u16>::empty());
    } else {
        let front = p.drop_last();
        assert forall|i: int| 0 <= i < front.len() implies hex_group(
            #[trigger] front[i],
        ) is Some by {
            assert(front[i] == p[i]);
        }
        lemma_groups_are_read(front);
        assert(hex_group(p[p.len() - 1]) is Some);
        assert(values(p) =~= values(front).push(hex_group(p.last())->0));
    }
}

/// Between groups there is one colon, and none at the ends; nor is there a point.
proof fn lemma_joined_chars(p: Seq<Seq<char>>, i: int)
    requires
        are_groups(p),
        0 <= i < crate::text::joined(p, ':').len(),
    ensures
        ({
            let s = crate::text::joined(p, ':');
            &&& s[i] != '.'
            &&& s[i] == ':' ==> 0 < i && i + 1 < s.len() && s[i + 1] != ':'
        }),
    decreases p.len(),
{
    if p.len() > 0 {
        let s = crate::text::joined(p, ':');
        let last = p[p.len() - 1];
        assert(hex_group(last) is Some);
        if p.len() == 1 {
            lemma_group_chars(last, i);
        } else {
            let front = p.drop_last();
            assert forall|k: int| 0 <= k < front.len() implies hex_group(
                #[trigger] front[k],
            ) is Some by {
                assert(front[k] == p[k]);
            }
            let f = crate::text::joined(front, ':');
            lemma_joined_len(front);
            assert(s == f + seq![':'] + last);
            if i < f.len() {
                lemma_joined_chars(front, i);
                assert(s[i] == f[i]);
            } else if i == f.len() {
                lemma_group_chars(last, 0);
                assert(s[i + 1] == last[0]);
            } else {
                lemma_group_chars(last, i - f.len() - 1);
                assert(s[i] == last[i - f.len() - 1]);
            }
        }
    }
}

/// Groups that are joined are some text.
proof fn lemma_joined_len(p: Seq<Seq<char>>)
    requires
        are_groups(p),
    ensures
        crate::text::joined(p, ':').len() > 0 <==> p.len() > 0,
{
    if p.len() > 0 {
        assert(hex_group(p[p.len() - 1]) is Some);
    }
}

/// Groups are free of colons.
proof fn lemma_groups_are_pieces(p: Seq<Seq<char>>)
    requires
        are_groups(p),
    ensures
        colon_pieces(crate::text::joined(p, ':')) == p,
{
    lemma_joined_len(p);
    if p.len() > 0 {
        assert forall|i: int| 0 <= i < p.len() implies !(#[trigger] p[i]).contains(':') by {
            assert(hex_group(p[i]) is Some);
            if p[i].contains(':') {
                let k = choose|k: int| 0 <= k < p[i].len() && p[i][k] == ':';
                lemma_group_chars(p[i], k);
            }
        }
        lemma_pieces_of_joined(p, ':');
    } else {
        assert(p =~= Seq::<Seq<char>>::empty());
    }
}

/// A text without points is no IPv4 address.
proof fn lemma_no_points(s: Seq<char>)
    requires
        !s.contains('.'),
    ensures
        ipv4(s) is None,
{
    crate::text::pieces_end_at_separators(Seq::empty(), '.', s);
}

/// Eight groups with colons between them spell an IPv6 address, the first one as
/// its highest sixteen bits.
pub proof fn eight_groups_are_an_address(p: Seq<Seq<char>>)
    requires
        p.len() == 8,
        forall|i: int| 0 <= i < p.len() ==> hex_group(#[trigger] p[i]) is Some,
    ensures
        ip_address(crate::text::joined(p, ':')) == Some(
            IpAddr::V6(
                (((((((hex_group(p[0])->0 * 65536 + hex_group(p[1])->0) * 65536 + hex_group(
                    p[2],
                )->0) * 65536 + hex_group(p[3])->0) * 65536 + hex_group(p[4])->0) * 65536
                    + hex_group(p[5])->0) * 65536 + hex_group(p[6])->0) * 65536 + hex_group(
                    p[7],
                )->0) as u128,
            ),
        ),
{
    reveal_strlit("::");
    let s = crate::text::joined(p, ':');
    assert(are_groups(p));
    assert forall|i: int| 0 <= i < s.len() implies s[i] != '.' by {
        lemma_joined_chars(p, i);
    }
    lemma_no_points(s);
    assert forall|i: int| 0 <= i <= s.len() - 2 implies #[trigger] s.subrange(i, i + "::"@.len())
        != "::"@ by {
        lemma_joined_chars(p, i);
        assert(s.subrange(i, i + 2)[0] == s[i]);
        assert(s.subrange(i, i + 2)[1] == s[i + 1]);
        assert("::"@[0] == ':' && "::"@[1] == ':');
    }
    crate::text::split_nowhere(s, "::"@);
    lemma_groups_are_pieces(p);
    lemma_groups_are_read(p);
    let g = values(p);
    reveal_with_fuel(groups_value, 9);
    assert(groups_value(g) == (((((((g[0] * 65536 + g[1]) * 65536 + g[2]) * 65536 + g[3]) * 65536
        + g[4]) * 65536 + g[5]) * 65536 + g[6]) * 65536 + g[7]));
}

/// A double colon stands for as many groups of zeros as are missing.
pub proof fn double_colon_stands_for_zeros(h: Seq<Seq<char>>, t: Seq<Seq<char>>)
    requires
        h.len() + t.len() <= 7,
        forall|i: int| 0 <= i < h.len() ==> hex_group(#[trigger] h[i]) is Some,
        forall|i: int| 0 <= i < t.len() ==> hex_group(#[trigger] t[i]) is Some,
    ensures
        ip_address(crate::text::joined(h, ':') + "::"@ + crate::text::joined(t, ':'))
            == ip_address(
            crate::text::joined(
                h + Seq::new((8 - h.len() - t.len()) as nat, |i: int| "0"@) + t,
                ':',
            ),
        ),
{
    reveal_strlit("::");
    reveal_strlit("0");
    assert(are_groups(h));
    assert(are_groups(t));
    let zeros = Seq::new((8 - h.len() - t.len()) as nat, |i: int| "0"@);
    let p = h + zeros + t;
    assert("0"@ =~= seq!['0']);
    hex_digits_count_by_their_places(Seq::empty(), Seq::empty(), '0');
    assert(hex_group("0"@) == Some(0u16));
    assert forall|i: int| 0 <= i < p.len() implies hex_group(#[trigger] p[i]) is Some by {
        if i < h.len() {
            assert(p[i] == h[i]);
        } else if i >= h.len() + zeros.len() {
            assert(p[i] == t[i - h.len() - zeros.len()]);
        }
    }
    eight_groups_are_an_address(p);
    let (x, y) = (crate::text::joined(h, ':'), crate::text::joined(t, ':'));
    let s = x + "::"@ + y;
    assert forall|i: int| 0 <= i < s.len() implies s[i] != '.' by {
        if i < x.len() {
            lemma_joined_chars(h, i);
        } else if i >= x.len() + 2 {
            lemma_joined_chars(t, i - x.len() - 2);
        }
    }
    lemma_no_points(s);
    assert forall|j: int| 0 <= j < x.len() implies #[trigger] s.subrange(j, j + "::"@.len())
        != "::"@ by {
        lemma_joined_chars(h, j);
        assert(s.subrange(j, j + 2)[0] == s[j]);
        assert(s.subrange(j, j + 2)[1] == s[j + 1]);
        assert("::"@[0] == ':' && "::"@[1] == ':');
    }
    crate::text::split_at_the_first_mark(x, "::"@, y);
    lemma_groups_are_pieces(h);
    lemma_groups_are_pieces(t);
    lemma_groups_are_read(h);
    lemma_groups_are_read(t);
    lemma_groups_are_pieces(p);
    lemma_groups_are_read(p);
    assert(values(p) =~= values(h) + zero_groups((8 - h.len() - t.len()) as nat) + values(t));
    let q = crate::text::joined(p, ':');
    assert forall|i: int| 0 <= i < q.len() implies q[i] != '.' by {
        lemma_joined_chars(p, i);
    }
    lemma_no_points(q);
    assert forall|i: int| 0 <= i <= q.len() - 2 implies #[trigger] q.subrange(i, i + "::"@.len())
        != "::"@ by {
        lemma_joined_chars(p, i);
        assert(q.subrange(i, i + 2)[0] == q[i]);
        assert(q.subrange(i, i + 2)[1] == q[i + 1]);
        assert("::"@[0] == ':' && "::"@[1] == ':');
    }
    crate::text::split_nowhere(q, "::"@);
}

/// Without a double colon there are eight groups, and beside one there are no
/// more than seven: other numbers of groups are no address.
pub proof fn other_numbers_of_groups_are_no_address(h: Seq<Seq<char>>, t: Seq<Seq<char>>)
    requires
        forall|i: int| 0 <= i < h.len() ==> hex_group(#[trigger] h[i]) is Some,
        forall|i: int| 0 <= i < t.len() ==> hex_group(#[trigger] t[i]) is Some,
    ensures
        h.len() != 8 ==> ip_address(crate::text::joined(h, ':')) is None,
        h.len() + t.len() > 7 ==> ip_address(
            crate::text::joined(h, ':') + "::"@ + crate::text::joined(t, ':'),
        ) is None,
{
    reveal_strlit("::");
    assert(are_groups(h));
    assert(are_groups(t));
    let (x, y) = (crate::text::joined(h, ':'), crate::text::joined(t, ':'));
    let s = x + "::"@ + y;
    assert forall|i: int| 0 <= i < x.len() implies x[i] != '.' by {
        lemma_joined_chars(h, i);
    }
    lemma_no_points(x);
    assert forall|i: int| 0 <= i < s.len() implies s[i] != '.' by {
        if i < x.len() {
            lemma_joined_chars(h, i);
        } else if i >= x.len() + 2 {
            lemma_joined_chars(t, i - x.len() - 2);
        }
    }
    lemma_no_points(s);
    assert("::"@[0] == ':' && "::"@[1] == ':');
    assert forall|i: int| 0 <= i <= x.len() - 2 implies #[trigger] x.subrange(i, i + "::"@.len())
        != "::"@ by {
        lemma_joined_chars(h, i);
        assert(x.subrange(i, i + 2)[0] == x[i]);
        assert(x.subrange(i, i + 2)[1] == x[i + 1]);
    }
    assert forall|j: int| 0 <= j < x.len() implies #[trigger] s.subrange(j, j + "::"@.len())
        != "::"@ by {
        lemma_joined_chars(h, j);
        assert(s.subrange(j, j + 2)[0] == s[j]);
        assert(s.subrange(j, j + 2)[1] == s[j + 1]);
    }
    crate::text::split_nowhere(x, "::"@);
    crate::text::split_at_the_first_mark(x, "::"@, y);
    lemma_groups_are_pieces(h);
    lemma_groups_are_pieces(t);
    lemma_groups_are_read(h);
    lemma_groups_are_read(t);
}

/// What stands between the colons of an IPv6 address is a group or nothing, and
/// only at its end an IPv4 address.
pub proof fn strange_groups_are_no_address(s: Seq<char>, i: int)
    requires
        0 <= i < crate::text::pieces(s, ':').len(),
        crate::text::pieces(s, ':')[i].len() > 0,
        hex_group(crate::text::pieces(s, ':')[i]) is None,
        i < crate::text::pieces(s, ':').len() - 1 || ipv4(crate::text::pieces(s, ':')[i]) is None,
    ensures
        !(ip_address(s) matches Some(ip) && ip is V6),
{
    reveal_strlit("::");
    let p = crate::text::pieces(s, ':');
    assert("::"@ =~= seq![':'] + seq![':']);
    match crate::text::split_first(s, "::"@) {
        Some((h, t)) => {
            let k = choose|k: int| #[trigger] crate::text::occurs_at(s, "::"@, k);
            lemma_first_exists(s, "::"@, k);
            let f = choose|f: int| #[trigger] crate::text::first_at(s, "::"@, f);
            crate::text::lemma_split_first(s, "::"@, f);
            assert(s =~= h + "::"@ + t);
            assert(s =~= h + seq![':'] + (Seq::<char>::empty() + seq![':'] + t));
            crate::text::pieces_of_two_parts(h, ':', Seq::<char>::empty() + seq![':'] + t);
            crate::text::pieces_of_two_parts(Seq::empty(), ':', t);
            let (a, b) = (crate::text::pieces(h, ':'), crate::text::pieces(t, ':'));
            let gap = crate::text::pieces(Seq::<char>::empty(), ':');
            assert(gap =~= seq![Seq::<char>::empty()]);
            assert(p =~= a + (gap + b));
            if i < a.len() {
                assert(a[i] == p[i]);
                if h.len() == 0 {
                    assert(h =~= Seq::<char>::empty());
                }
                lemma_groups_fail(a, i);
            } else if i > a.len() {
                let k = i - a.len() - 1;
                assert(b[k] == p[i]);
                if t.len() == 0 {
                    assert(t =~= Seq::<char>::empty());
                }
                lemma_tail_fails(b, k);
            } else {
                assert(p[i] == gap[0]);
            }
        },
        None => {
            if s.len() == 0 {
                assert(s =~= Seq::<char>::empty());
            }
            lemma_tail_fails(p, i);
        },
    }
}

/// Where a text stands somewhere, it stands somewhere first.
proof fn lemma_first_exists(s: Seq<char>, p: Seq<char>, i: int)
    requires
        crate::text::occurs_at(s, p, i),
    ensures
        exists|k: int| #[trigger] crate::text::first_at(s, p, k),
    decreases i,
{
    if exists|j: int| 0 <= j < i && #[trigger] crate::text::occurs_at(s, p, j) {
        let j = choose|j: int| 0 <= j < i && #[trigger] crate::text::occurs_at(s, p, j);
        lemma_first_exists(s, p, j);
    } else {
        assert(crate::text::first_at(s, p, i));
    }
}

/// A strange piece spoils the tail of an address.
proof fn lemma_tail_fails(p: Seq<Seq<char>>, i: int)
    requires
        0 <= i < p.len(),
        hex_group(p[i]) is None,
        i < p.len() - 1 || ipv4(p[i]) is None,
    ensures
        tail_groups(p) is None,
{
    lemma_groups_fail(p, i);
    if i < p.len() - 1 {
        assert(p.drop_last()[i] == p[i]);
        lemma_groups_fail(p.drop_last(), i);
    }
}

/// An IPv4 address at the end of an IPv6 address stands for the two groups that
/// have its upper and its lower sixteen bits.
pub proof fn dotted_end_stands_for_two_groups(
    h: Seq<Seq<char>>,
    t: Seq<Seq<char>>,
    dotted: Seq<char>,
    n: u32,
    high: Seq<char>,
    low: Seq<char>,
)
    requires
        h.len() + t.len() <= 5,
        forall|i: int| 0 <= i < h.len() ==> hex_group(#[trigger] h[i]) is Some,
        forall|i: int| 0 <= i < t.len() ==> hex_group(#[trigger] t[i]) is Some,
        ipv4(dotted) == Some(n),
        !dotted.contains(':'),
        hex_group(high) is Some,
        hex_group(high)->0 == n / 65536,
        hex_group(low) is Some,
        hex_group(low)->0 == n % 65536,
    ensures
        ipv6(crate::text::joined(h, ':') + "::"@ + crate::text::joined(t.push(dotted), ':')) == ipv6(
            crate::text::joined(h, ':') + "::"@ + crate::text::joined(t.push(high).push(low), ':'),
        ),
        ipv6(crate::text::joined(h, ':') + "::"@ + crate::text::joined(t.push(dotted), ':')) is Some,
{
    reveal_strlit("::");
    assert("::"@[0] == ':' && "::"@[1] == ':');
    assert(are_groups(h));
    let p = t.push(dotted);
    let q = t.push(high).push(low);
    assert forall|i: int| 0 <= i < q.len() implies hex_group(#[trigger] q[i]) is Some by {
        if i < t.len() {
            assert(q[i] == t[i]);
        }
    }
    let x = crate::text::joined(h, ':');
    lemma_split_double(h, crate::text::joined(p, ':'));
    lemma_split_double(h, crate::text::joined(q, ':'));
    lemma_groups_are_pieces(h);
    lemma_groups_are_read(h);
    lemma_groups_are_pieces(q);
    lemma_groups_are_read(q);
    assert forall|i: int| 0 <= i < p.len() implies !(#[trigger] p[i]).contains(':') by {
        if i < t.len() {
            assert(hex_group(t[i]) is Some);
            if p[i].contains(':') {
                let k = choose|k: int| 0 <= k < p[i].len() && p[i][k] == ':';
                lemma_group_chars(p[i], k);
            }
        }
    }
    lemma_pieces_of_joined(p, ':');
    let d = crate::text::joined(p, ':');
    if dotted.len() == 0 {
        crate::text::pieces_end_at_separators(Seq::empty(), '.', dotted);
    }
    assert(d.len() > 0) by {
        if p.len() == 1 {
            assert(d == dotted);
        }
    }
    if hex_group(dotted) is Some {
        assert forall|k: int| 0 <= k < dotted.len() implies dotted[k] != '.' by {
            lemma_group_chars(dotted, k);
        }
        lemma_no_points(dotted);
    }
    assert(p[p.len() - 1] == dotted);
    lemma_groups_fail(p, p.len() - 1);
    assert(p.drop_last() =~= t);
    assert(are_groups(t));
    lemma_groups_are_read(t);
    assert(values(q) =~= values(t).push((n / 0x10000) as u16).push((n % 0x10000) as u16));
}

/// The double colon behind groups is the first one.
proof fn lemma_split_double(h: Seq<Seq<char>>, y: Seq<char>)
    requires
        are_groups(h),
    ensures
        crate::text::split_first(crate::text::joined(h, ':') + "::"@ + y, "::"@) == Some(
            (crate::text::joined(h, ':'), y),
        ),
{
    reveal_strlit("::");
    assert("::"@[0] == ':' && "::"@[1] == ':');
    let x = crate::text::joined(h, ':');
    let s = x + "::"@ + y;
    assert forall|j: int| 0 <= j < x.len() implies #[trigger] s.subrange(j, j + "::"@.len())
        != "::"@ by {
        lemma_joined_chars(h, j);
        assert(s.subrange(j, j + 2)[0] == s[j]);
        assert(s.subrange(j, j + 2)[1] == s[j + 1]);
    }
    crate::text::split_at_the_first_mark(x, "::"@, y);
}

} // verus!
