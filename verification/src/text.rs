//! Text primitives.
//!
//! Each operation on `&str` is stated over the sequence of characters that the
//! text holds. The spec functions are what the rest of the crate speaks of.

use vstd::prelude::*;

verus! {

broadcast use vstd::seq::group_seq_axioms;

// ── Searching ──────────────────────────────────────────────────────

/// `p` stands in `s` at position `i`.
pub open spec fn occurs_at(s: Seq<char>, p: Seq<char>, i: int) -> bool {
    &&& 0 <= i
    &&& i + p.len() <= s.len()
    &&& s.subrange(i, i + p.len()) == p
}

/// `i` is the first position at which `p` stands in `s`.
pub open spec fn first_at(s: Seq<char>, p: Seq<char>, i: int) -> bool {
    &&& occurs_at(s, p, i)
    &&& forall|j: int| 0 <= j < i ==> !#[trigger] occurs_at(s, p, j)
}

/// `i` is the last position at which `p` stands in `s`.
pub open spec fn last_at(s: Seq<char>, p: Seq<char>, i: int) -> bool {
    &&& occurs_at(s, p, i)
    &&& forall|j: int| i < j ==> !#[trigger] occurs_at(s, p, j)
}

/// `p` stands somewhere in `s`.
pub open spec fn contains_text(s: Seq<char>, p: Seq<char>) -> bool {
    exists|i: int| #[trigger] occurs_at(s, p, i)
}

/// The text before and after the first `p`, if there is one.
pub open spec fn split_first(s: Seq<char>, p: Seq<char>) -> Option<(Seq<char>, Seq<char>)> {
    if contains_text(s, p) {
        let i = choose|i: int| first_at(s, p, i);
        Some((s.subrange(0, i), s.subrange(i + p.len(), s.len() as int)))
    } else {
        None
    }
}

/// The text before and after the last `p`, if there is one.
pub open spec fn split_last(s: Seq<char>, p: Seq<char>) -> Option<(Seq<char>, Seq<char>)> {
    if contains_text(s, p) {
        let i = choose|i: int| last_at(s, p, i);
        Some((s.subrange(0, i), s.subrange(i + p.len(), s.len() as int)))
    } else {
        None
    }
}

/// `s` begins with `p`.
pub open spec fn has_prefix(s: Seq<char>, p: Seq<char>) -> bool {
    p.len() <= s.len() && s.subrange(0, p.len() as int) == p
}

/// `s` ends with `p`.
pub open spec fn has_suffix(s: Seq<char>, p: Seq<char>) -> bool {
    p.len() <= s.len() && s.subrange(s.len() - p.len(), s.len() as int) == p
}

/// What follows the prefix `p`, if `s` begins with it.
pub open spec fn after_prefix(s: Seq<char>, p: Seq<char>) -> Option<Seq<char>> {
    if has_prefix(s, p) {
        Some(s.subrange(p.len() as int, s.len() as int))
    } else {
        None
    }
}

/// A first occurrence fixes the result of `split_first`.
pub proof fn lemma_split_first(s: Seq<char>, p: Seq<char>, i: int)
    requires
        first_at(s, p, i),
    ensures
        split_first(s, p) == Some(
            (s.subrange(0, i), s.subrange(i + p.len(), s.len() as int)),
        ),
{
    let k = choose|k: int| first_at(s, p, k);
    assert(first_at(s, p, k));
    if k < i {
        assert(!occurs_at(s, p, k));
    }
    if i < k {
        assert(!occurs_at(s, p, i));
    }
}

/// Where a text stands somewhere, it stands somewhere last.
pub proof fn lemma_stands_last(s: Seq<char>, p: Seq<char>, i: int)
    requires
        occurs_at(s, p, i),
    ensures
        exists|k: int| i <= k && #[trigger] last_at(s, p, k),
    decreases s.len() - i,
{
    if exists|j: int| i < j && #[trigger] occurs_at(s, p, j) {
        let j = choose|j: int| i < j && #[trigger] occurs_at(s, p, j);
        lemma_stands_last(s, p, j);
        let k = choose|k: int| j <= k && #[trigger] last_at(s, p, k);
        assert(last_at(s, p, k));
    } else {
        assert(last_at(s, p, i));
    }
}

/// A last occurrence fixes the result of `split_last`.
pub proof fn lemma_split_last(s: Seq<char>, p: Seq<char>, i: int)
    requires
        last_at(s, p, i),
    ensures
        split_last(s, p) == Some(
            (s.subrange(0, i), s.subrange(i + p.len(), s.len() as int)),
        ),
{
    let k = choose|k: int| last_at(s, p, k);
    assert(last_at(s, p, k));
    if k < i {
        assert(!occurs_at(s, p, i));
    }
    if i < k {
        assert(!occurs_at(s, p, k));
    }
}

/// Where a text of one character stands is where the character stands.
pub proof fn lemma_occurs_char(s: Seq<char>, c: char, i: int)
    ensures
        occurs_at(s, seq![c], i) <==> 0 <= i < s.len() && s[i] == c,
{
    if 0 <= i < s.len() {
        if s[i] == c {
            assert(s.subrange(i, i + 1) =~= seq![c]);
        }
        if occurs_at(s, seq![c], i) {
            assert(s.subrange(i, i + 1)[0] == s[i]);
        }
    }
}

/// The characters of `s`.
pub(crate) fn chars_of(s: &str) -> (r: Vec<char>)
    ensures
        r@ == s@,
{
    let mut out: Vec<char> = Vec::new();
    for c in it: s.chars()
        invariant
            it.seq() == s@,
            out@ == s@.take(it.index() as int),
    {
        out.push(c);
        assert(s@.take(it.index() as int).push(c) =~= s@.take(it.index() as int + 1));
    }
    assert(s@.take(s@.len() as int) =~= s@);
    out
}

/// `p` stands in `s` at `i`.
fn chars_at(s: &Vec<char>, p: &Vec<char>, i: usize) -> (r: bool)
    ensures
        r == occurs_at(s@, p@, i as int),
{
    if s.len() < p.len() || i > s.len() - p.len() {
        return false;
    }
    let mut k: usize = 0;
    while k < p.len()
        invariant
            k <= p.len(),
            i + p.len() <= s.len(),
            forall|j: int| 0 <= j < k ==> s@[i + j] == p@[j],
        decreases p.len() - k,
    {
        if s[i + k] != p[k] {
            assert(s@.subrange(i as int, i + p@.len())[k as int] == s@[i + k]);
            return false;
        }
        k += 1;
    }
    assert(s@.subrange(i as int, i + p@.len()) =~= p@);
    true
}

/// The first position at which `p` stands in `s`.
fn first_position(s: &Vec<char>, p: &Vec<char>) -> (r: Option<usize>)
    ensures
        match r {
            Some(i) => first_at(s@, p@, i as int),
            None => !contains_text(s@, p@),
        },
{
    let mut i: usize = 0;
    while i < s.len()
        invariant
            i <= s.len(),
            forall|j: int| 0 <= j < i ==> !#[trigger] occurs_at(s@, p@, j),
        decreases s.len() - i,
    {
        if chars_at(s, p, i) {
            return Some(i);
        }
        i += 1;
    }
    if chars_at(s, p, i) {
        return Some(i);
    }
    assert forall|j: int| !#[trigger] occurs_at(s@, p@, j) by {
        if j > s.len() {
            assert(j + p@.len() > s@.len());
        }
    }
    None
}

/// The last position at which `p` stands in `s`.
fn last_position(s: &Vec<char>, p: &Vec<char>) -> (r: Option<usize>)
    ensures
        match r {
            Some(i) => last_at(s@, p@, i as int),
            None => !contains_text(s@, p@),
        },
{
    if chars_at(s, p, s.len()) {
        assert forall|j: int| s.len() < j implies !#[trigger] occurs_at(s@, p@, j) by {
            assert(j + p@.len() > s@.len());
        }
        return Some(s.len());
    }
    let mut i: usize = s.len();
    assert forall|j: int| i <= j implies !#[trigger] occurs_at(s@, p@, j) by {
        if j > s.len() {
            assert(j + p@.len() > s@.len());
        }
    }
    while i > 0
        invariant
            i <= s.len(),
            forall|j: int| i <= j ==> !#[trigger] occurs_at(s@, p@, j),
        decreases i,
    {
        i -= 1;
        if chars_at(s, p, i) {
            return Some(i);
        }
    }
    None
}

/// `a` and `b` hold the same text.
pub(crate) fn same_text(a: &str, b: &str) -> (r: bool)
    ensures
        r == (a@ == b@),
{
    let x = chars_of(a);
    let y = chars_of(b);
    if x.len() != y.len() {
        return false;
    }
    let mut i: usize = 0;
    while i < x.len()
        invariant
            x@ == a@,
            y@ == b@,
            x.len() == y.len(),
            i <= x.len(),
            forall|j: int| 0 <= j < i ==> x@[j] == y@[j],
        decreases x.len() - i,
    {
        if x[i] != y[i] {
            return false;
        }
        i += 1;
    }
    assert(x@ =~= y@);
    true
}

/// `p` stands somewhere in `s`.
pub(crate) fn contains(s: &str, p: &str) -> (r: bool)
    ensures
        r == contains_text(s@, p@),
{
    let x = chars_of(s);
    let y = chars_of(p);
    match first_position(&x, &y) {
        Some(i) => true,
        None => false,
    }
}

/// One of the characters of `s` is `c`.
pub(crate) fn contains_char(s: &str, c: char) -> (r: bool)
    ensures
        r == s@.contains(c),
{
    let x = chars_of(s);
    let mut i: usize = 0;
    while i < x.len()
        invariant
            x@ == s@,
            i <= x.len(),
            forall|j: int| 0 <= j < i ==> x@[j] != c,
        decreases x.len() - i,
    {
        if x[i] == c {
            return true;
        }
        i += 1;
    }
    false
}

/// `s` begins with `p`.
pub(crate) fn starts_with(s: &str, p: &str) -> (r: bool)
    ensures
        r == has_prefix(s@, p@),
{
    let x = chars_of(s);
    let y = chars_of(p);
    chars_at(&x, &y, 0)
}

/// `s` ends with `p`.
pub(crate) fn ends_with(s: &str, p: &str) -> (r: bool)
    ensures
        r == has_suffix(s@, p@),
{
    let x = chars_of(s);
    let y = chars_of(p);
    if x.len() < y.len() {
        return false;
    }
    chars_at(&x, &y, x.len() - y.len())
}

/// What follows the prefix `p`, if `s` begins with it.
pub(crate) fn strip_prefix<'a>(s: &'a str, p: &str) -> (r: Option<&'a str>)
    ensures
        match r {
            Some(t) => after_prefix(s@, p@) == Some(t@),
            None => after_prefix(s@, p@) is None,
        },
{
    let x = chars_of(s);
    let y = chars_of(p);
    if chars_at(&x, &y, 0) {
        Some(s.substring_char(y.len(), x.len()))
    } else {
        None
    }
}

/// The text before and after the first `p`, if there is one.
pub(crate) fn split_once<'a>(s: &'a str, p: &str) -> (r: Option<(&'a str, &'a str)>)
    ensures
        match r {
            Some((a, b)) => split_first(s@, p@) == Some((a@, b@)),
            None => split_first(s@, p@) is None,
        },
{
    let x = chars_of(s);
    let y = chars_of(p);
    match first_position(&x, &y) {
        Some(i) => {
            proof {
                lemma_split_first(s@, p@, i as int);
            }
            assert(i + y.len() <= x.len());
            Some((s.substring_char(0, i), s.substring_char(i + y.len(), x.len())))
        },
        None => None,
    }
}

/// The text before and after the last `p`, if there is one.
pub(crate) fn rsplit_once<'a>(s: &'a str, p: &str) -> (r: Option<(&'a str, &'a str)>)
    ensures
        match r {
            Some((a, b)) => split_last(s@, p@) == Some((a@, b@)),
            None => split_last(s@, p@) is None,
        },
{
    let x = chars_of(s);
    let y = chars_of(p);
    match last_position(&x, &y) {
        Some(i) => {
            proof {
                lemma_split_last(s@, p@, i as int);
            }
            assert(i + y.len() <= x.len());
            Some((s.substring_char(0, i), s.substring_char(i + y.len(), x.len())))
        },
        None => None,
    }
}

// ── Trimming ───────────────────────────────────────────────────────

/// The characters with the Unicode property `White_Space`.
pub open spec fn is_white(c: char) -> bool {
    ||| 0x9 <= c as int <= 0xd
    ||| c as int == 0x20
    ||| c as int == 0x85
    ||| c as int == 0xa0
    ||| c as int == 0x1680
    ||| 0x2000 <= c as int <= 0x200a
    ||| c as int == 0x2028
    ||| c as int == 0x2029
    ||| c as int == 0x202f
    ||| c as int == 0x205f
    ||| c as int == 0x3000
}

/// `s` without the longest run of white space at its start.
pub open spec fn trimmed_start(s: Seq<char>) -> Seq<char>
    decreases s.len(),
{
    if s.len() > 0 && is_white(s[0]) {
        trimmed_start(s.subrange(1, s.len() as int))
    } else {
        s
    }
}

/// `s` without the longest run of white space at its end.
pub open spec fn trimmed_end(s: Seq<char>) -> Seq<char>
    decreases s.len(),
{
    if s.len() > 0 && is_white(s.last()) {
        trimmed_end(s.drop_last())
    } else {
        s
    }
}

/// `s` without white space at either end.
pub open spec fn trimmed(s: Seq<char>) -> Seq<char> {
    trimmed_end(trimmed_start(s))
}

/// `s` without the longest run of `c` at its start.
pub open spec fn without_leading(s: Seq<char>, c: char) -> Seq<char>
    decreases s.len(),
{
    if s.len() > 0 && s[0] == c {
        without_leading(s.subrange(1, s.len() as int), c)
    } else {
        s
    }
}

/// `s` without the longest run of `c` at its end.
pub open spec fn without_trailing(s: Seq<char>, c: char) -> Seq<char>
    decreases s.len(),
{
    if s.len() > 0 && s.last() == c {
        without_trailing(s.drop_last(), c)
    } else {
        s
    }
}

/// What is left at the start is no white space.
proof fn lemma_trimmed_start(s: Seq<char>)
    ensures
        trimmed_start(s).len() > 0 ==> !is_white(trimmed_start(s)[0]),
        s.len() > 0 && !is_white(s[0]) ==> trimmed_start(s) == s,
    decreases s.len(),
{
    if s.len() > 0 && is_white(s[0]) {
        lemma_trimmed_start(s.subrange(1, s.len() as int));
    }
}

/// What is left at the end is no white space, and the start is as it was.
proof fn lemma_trimmed_end(s: Seq<char>)
    ensures
        trimmed_end(s).len() > 0 ==> !is_white(trimmed_end(s).last()) && trimmed_end(s)[0] == s[0],
        trimmed_end(s).len() <= s.len(),
        s.len() > 0 && !is_white(s.last()) ==> trimmed_end(s) == s,
    decreases s.len(),
{
    if s.len() > 0 && is_white(s.last()) {
        lemma_trimmed_end(s.drop_last());
    }
}

/// A trimmed text neither begins nor ends with white space.
pub proof fn lemma_trimmed(s: Seq<char>)
    ensures
        trimmed(s).len() > 0 ==> !is_white(trimmed(s)[0]) && !is_white(trimmed(s).last()),
{
    lemma_trimmed_start(s);
    lemma_trimmed_end(trimmed_start(s));
}

/// A text that neither begins nor ends with white space is trimmed.
pub proof fn lemma_already_trimmed(s: Seq<char>)
    requires
        s.len() > 0 ==> !is_white(s[0]) && !is_white(s.last()),
    ensures
        trimmed(s) == s,
{
    lemma_trimmed_start(s);
    lemma_trimmed_end(s);
}

/// `c` has the Unicode property `White_Space`.
pub(crate) fn is_white_space(c: char) -> (r: bool)
    ensures
        r == is_white(c),
{
    let n: u32 = c as u32;
    (0x9 <= n && n <= 0xd) || n == 0x20 || n == 0x85 || n == 0xa0 || n == 0x1680 || (0x2000 <= n
        && n <= 0x200a) || n == 0x2028 || n == 0x2029 || n == 0x202f || n == 0x205f || n == 0x3000
}

/// `s` without white space at either end.
pub(crate) fn trim<'a>(s: &'a str) -> (r: &'a str)
    ensures
        r@ == trimmed(s@),
{
    let x = chars_of(s);
    let mut i: usize = 0;
    let ghost n = x@.len() as int;
    assert(x@.subrange(0, n) =~= s@);
    while i < x.len() && is_white_space(x[i])
        invariant
            x@ == s@,
            n == x@.len(),
            i <= x.len(),
            trimmed_start(x@.subrange(i as int, n)) == trimmed_start(s@),
        decreases x.len() - i,
    {
        assert(x@.subrange(i as int, n).subrange(1, n - i) =~= x@.subrange(i + 1, n));
        i += 1;
    }
    assert(trimmed_start(s@) == x@.subrange(i as int, n));
    let mut j: usize = x.len();
    while j > i && is_white_space(x[j - 1])
        invariant
            x@ == s@,
            n == x@.len(),
            i <= j <= x.len(),
            trimmed_end(x@.subrange(i as int, j as int)) == trimmed(s@),
        decreases j,
    {
        assert(x@.subrange(i as int, j as int).drop_last() =~= x@.subrange(i as int, j - 1));
        j -= 1;
    }
    s.substring_char(i, j)
}

/// `s` without the longest run of `c` at its start.
pub(crate) fn trim_leading<'a>(s: &'a str, c: char) -> (r: &'a str)
    ensures
        r@ == without_leading(s@, c),
{
    let x = chars_of(s);
    let mut i: usize = 0;
    let ghost n = x@.len() as int;
    assert(x@.subrange(0, n) =~= s@);
    while i < x.len() && x[i] == c
        invariant
            x@ == s@,
            n == x@.len(),
            i <= x.len(),
            without_leading(x@.subrange(i as int, n), c) == without_leading(s@, c),
        decreases x.len() - i,
    {
        assert(x@.subrange(i as int, n).subrange(1, n - i) =~= x@.subrange(i + 1, n));
        i += 1;
    }
    s.substring_char(i, x.len())
}

/// `s` without the longest run of `c` at its end.
pub(crate) fn trim_trailing<'a>(s: &'a str, c: char) -> (r: &'a str)
    ensures
        r@ == without_trailing(s@, c),
{
    let x = chars_of(s);
    let mut j: usize = x.len();
    assert(x@.subrange(0, j as int) =~= s@);
    while j > 0 && x[j - 1] == c
        invariant
            x@ == s@,
            j <= x.len(),
            without_trailing(x@.subrange(0, j as int), c) == without_trailing(s@, c),
        decreases j,
    {
        assert(x@.subrange(0, j as int).drop_last() =~= x@.subrange(0, j - 1));
        j -= 1;
    }
    s.substring_char(0, j)
}

// ── Splitting at every separator ───────────────────────────────────

/// The texts that lists of borrowed texts hold.
pub open spec fn views(v: Seq<&str>) -> Seq<Seq<char>> {
    v.map_values(|t: &str| t@)
}

/// The texts that lists of owned texts hold.
pub open spec fn texts(v: Seq<String>) -> Seq<Seq<char>> {
    v.map_values(|t: String| t@)
}

/// The pieces of `s` between the separators `c`: one more than there are separators.
pub open spec fn pieces(s: Seq<char>, c: char) -> Seq<Seq<char>>
    decreases s.len(),
{
    if s.len() == 0 {
        seq![Seq::empty()]
    } else {
        let front = pieces(s.drop_last(), c);
        if s.last() == c {
            front.push(Seq::empty())
        } else {
            front.drop_last().push(front.last().push(s.last()))
        }
    }
}

/// The pieces put together again, with `c` between them.
pub open spec fn joined(p: Seq<Seq<char>>, c: char) -> Seq<char>
    decreases p.len(),
{
    if p.len() == 0 {
        Seq::empty()
    } else if p.len() == 1 {
        p[0]
    } else {
        joined(p.drop_last(), c) + seq![c] + p.last()
    }
}

/// The pieces are free of the separator and make up the text again.
pub proof fn pieces_make_up_the_text(s: Seq<char>, c: char)
    ensures
        pieces(s, c).len() >= 1,
        joined(pieces(s, c), c) == s,
        forall|i: int| 0 <= i < pieces(s, c).len() ==> !(#[trigger] pieces(s, c)[i]).contains(c),
    decreases s.len(),
{
    if s.len() > 0 {
        let front = pieces(s.drop_last(), c);
        let all = pieces(s, c);
        pieces_make_up_the_text(s.drop_last(), c);
        if s.last() == c {
            assert(all.drop_last() =~= front);
            assert(joined(all, c) =~= s.drop_last() + seq![c] + Seq::empty());
            assert(joined(all, c) =~= s);
        } else {
            let grown = front.last().push(s.last());
            assert(all.drop_last() =~= front.drop_last());
            assert(all.last() == grown);
            assert forall|i: int| 0 <= i < all.len() implies !(#[trigger] all[i]).contains(c) by {
                if i < all.len() - 1 {
                    assert(all[i] == front[i]);
                } else {
                    assert(!front[front.len() - 1].contains(c));
                    assert forall|j: int| 0 <= j < grown.len() implies grown[j] != c by {
                        if j < front.last().len() {
                            assert(front.last()[j] == grown[j]);
                        }
                    }
                }
            }
            if all.len() == 1 {
                assert(joined(all, c) =~= s);
            } else {
                assert(joined(front, c) == joined(front.drop_last(), c) + seq![c] + front.last());
                assert(joined(all, c) =~= joined(front, c).push(s.last()));
                assert(joined(all, c) =~= s);
            }
        }
    } else {
        assert(pieces(s, c) =~= seq![Seq::<char>::empty()]);
    }
}

/// The pieces of `s` between the separators `c`.
pub(crate) fn split_all<'a>(s: &'a str, c: char) -> (r: Vec<&'a str>)
    ensures
        views(r@) == pieces(s@, c),
{
    let x = chars_of(s);
    let mut out: Vec<&'a str> = Vec::new();
    let mut start: usize = 0;
    let mut i: usize = 0;
    assert(pieces(s@.take(0), c) =~= seq![Seq::<char>::empty()]);
    assert(s@.subrange(0, 0) =~= Seq::<char>::empty());
    assert(views(out@).push(s@.subrange(0, 0)) =~= pieces(s@.take(0), c));
    while i < x.len()
        invariant
            x@ == s@,
            start <= i <= x.len(),
            views(out@).push(s@.subrange(start as int, i as int)) == pieces(s@.take(i as int), c),
        decreases x.len() - i,
    {
        let ghost before = views(out@);
        let ghost next = s@.take(i + 1);
        assert(next.drop_last() =~= s@.take(i as int));
        assert(next.last() == s@[i as int]);
        if x[i] == c {
            out.push(s.substring_char(start, i));
            assert(views(out@) =~= before.push(s@.subrange(start as int, i as int)));
            start = i + 1;
            assert(s@.subrange(start as int, i + 1) =~= Seq::<char>::empty());
        } else {
            let ghost front = pieces(s@.take(i as int), c);
            assert(front.drop_last() =~= before);
            assert(front.last().push(s@[i as int]) =~= s@.subrange(start as int, i + 1));
        }
        i += 1;
    }
    assert(s@.take(x.len() as int) =~= s@);
    let ghost before = views(out@);
    out.push(s.substring_char(start, x.len()));
    assert(views(out@) =~= before.push(s@.subrange(start as int, x.len() as int)));
    out
}

// ── Decimal numbers ────────────────────────────────────────────────

/// The decimal digits.
pub open spec fn is_digit(c: char) -> bool {
    '0' <= c <= '9'
}

/// Every character of `s` is a decimal digit.
pub open spec fn all_digits(s: Seq<char>) -> bool {
    forall|i: int| 0 <= i < s.len() ==> is_digit(#[trigger] s[i])
}

/// The number that a row of decimal digits stands for.
pub open spec fn digits_value(s: Seq<char>) -> nat
    decreases s.len(),
{
    if s.len() == 0 {
        0
    } else {
        digits_value(s.drop_last()) * 10 + (s.last() as int - '0' as int) as nat
    }
}

/// The digits that follow an optional plus sign.
pub open spec fn unsigned_digits(s: Seq<char>) -> Seq<char> {
    if s.len() > 0 && s[0] == '+' {
        s.subrange(1, s.len() as int)
    } else {
        s
    }
}

/// The number that `s` spells: an optional plus sign and at least one digit,
/// with a value of at most `max`.
pub open spec fn number(s: Seq<char>, max: nat) -> Option<nat> {
    let d = unsigned_digits(s);
    if d.len() > 0 && all_digits(d) && digits_value(d) <= max {
        Some(digits_value(d))
    } else {
        None
    }
}

/// The decimal digit of a number below ten.
pub open spec fn digit_char(n: nat) -> char {
    ('0' as int + n) as char
}

/// The decimal spelling of `n`, without leading zeros.
pub open spec fn decimal(n: nat) -> Seq<char>
    decreases n,
{
    if n < 10 {
        seq![digit_char(n)]
    } else {
        decimal(n / 10).push(digit_char(n % 10))
    }
}

/// More digits never make a number smaller.
proof fn lemma_value_grows(s: Seq<char>, i: int)
    requires
        0 <= i <= s.len(),
        all_digits(s),
    ensures
        digits_value(s.take(i)) <= digits_value(s),
    decreases s.len() - i,
{
    if i < s.len() {
        let t = s.take(i + 1);
        assert(t.drop_last() =~= s.take(i));
        lemma_value_grows(s, i + 1);
    } else {
        assert(s.take(i) =~= s);
    }
}

/// The spelling of a number is a row of digits with that value.
pub proof fn lemma_decimal(n: nat)
    ensures
        decimal(n).len() > 0,
        all_digits(decimal(n)),
        digits_value(decimal(n)) == n,
    decreases n,
{
    if n < 10 {
        let d = decimal(n);
        assert(d.drop_last() =~= Seq::<char>::empty());
        assert(digits_value(d.drop_last()) == 0);
    } else {
        lemma_decimal(n / 10);
        let d = decimal(n);
        assert(d.drop_last() =~= decimal(n / 10));
        assert forall|i: int| 0 <= i < d.len() implies is_digit(#[trigger] d[i]) by {
            if i < d.len() - 1 {
                assert(d[i] == decimal(n / 10)[i]);
            }
        }
    }
}

/// Reading the spelling of a number gives the number back.
pub proof fn lemma_number_of_decimal(n: nat, max: nat)
    requires
        n <= max,
    ensures
        number(decimal(n), max) == Some(n),
{
    lemma_decimal(n);
    assert(is_digit(decimal(n)[0]));
}

/// The number that `s` spells, if it is at most `max`.
pub(crate) fn parse_number(s: &str, max: u64) -> (r: Option<u64>)
    ensures
        match r {
            Some(n) => number(s@, max as nat) == Some(n as nat),
            None => number(s@, max as nat) is None,
        },
{
    let x = chars_of(s);
    let start: usize = if x.len() > 0 && x[0] == '+' {
        1
    } else {
        0
    };
    let ghost d = unsigned_digits(s@);
    assert(d =~= s@.subrange(start as int, s@.len() as int));
    if start == x.len() {
        return None;
    }
    let mut value: u64 = 0;
    let mut i: usize = start;
    assert(d.take(0) =~= Seq::<char>::empty());
    while i < x.len()
        invariant
            x@ == s@,
            start <= i <= x.len(),
            d == unsigned_digits(s@),
            d == s@.subrange(start as int, s@.len() as int),
            value <= max,
            value == digits_value(d.take(i - start)),
            forall|k: int| 0 <= k < i - start ==> is_digit(#[trigger] d[k]),
        decreases x.len() - i,
    {
        let c = x[i];
        assert(d[i - start] == c);
        if c < '0' || c > '9' {
            return None;
        }
        let next: u128 = (value as u128) * 10 + (c as u32 - '0' as u32) as u128;
        let ghost t = d.take(i - start + 1);
        assert(t.drop_last() =~= d.take(i - start));
        assert(next == digits_value(t));
        if next > max as u128 {
            proof {
                if all_digits(d) {
                    lemma_value_grows(d, i - start + 1);
                }
            }
            return None;
        }
        value = next as u64;
        i += 1;
    }
    assert(d.take(d.len() as int) =~= d);
    Some(value)
}

/// The port that `s` spells.
pub(crate) fn parse_port(s: &str) -> (r: Option<u16>)
    ensures
        match r {
            Some(n) => number(s@, 0xffff) == Some(n as nat),
            None => number(s@, 0xffff) is None,
        },
{
    match parse_number(s, 0xffff) {
        Some(n) => Some(n as u16),
        None => None,
    }
}

/// The decimal digit of a number below ten, as a text.
fn digit_text(n: u64) -> (r: &'static str)
    requires
        n < 10,
    ensures
        r@ == seq![digit_char(n as nat)],
{
    proof {
        reveal_strlit("0");
        reveal_strlit("1");
        reveal_strlit("2");
        reveal_strlit("3");
        reveal_strlit("4");
        reveal_strlit("5");
        reveal_strlit("6");
        reveal_strlit("7");
        reveal_strlit("8");
        reveal_strlit("9");
    }
    let r = if n == 0 {
        "0"
    } else if n == 1 {
        "1"
    } else if n == 2 {
        "2"
    } else if n == 3 {
        "3"
    } else if n == 4 {
        "4"
    } else if n == 5 {
        "5"
    } else if n == 6 {
        "6"
    } else if n == 7 {
        "7"
    } else if n == 8 {
        "8"
    } else {
        "9"
    };
    assert(r@ =~= seq![digit_char(n as nat)]);
    r
}

/// The decimal spelling of `n`.
pub(crate) fn decimal_text(n: u64) -> (r: String)
    ensures
        r@ == decimal(n as nat),
    decreases n,
{
    if n < 10 {
        String::from_str(digit_text(n))
    } else {
        let mut front = decimal_text(n / 10);
        front.append(digit_text(n % 10));
        assert(front@ =~= decimal(n as nat));
        front
    }
}

// ── Letter case ────────────────────────────────────────────────────

/// `c` with an ASCII capital letter made small.
pub open spec fn lower_char(c: char) -> char {
    if 'A' <= c <= 'Z' {
        (c as int + 32) as char
    } else {
        c
    }
}

/// `s` with its ASCII capital letters made small.
pub open spec fn lower(s: Seq<char>) -> Seq<char> {
    s.map_values(|c: char| lower_char(c))
}

/// `c` with an ASCII capital letter made small, as a number.
fn lower_code(c: char) -> (r: u32)
    ensures
        r == lower_char(c) as u32,
{
    if 'A' <= c && c <= 'Z' {
        c as u32 + 32
    } else {
        c as u32
    }
}

/// `a` and `b` are the same but for the case of ASCII letters.
pub(crate) fn same_ignoring_case(a: &str, b: &str) -> (r: bool)
    ensures
        r == (lower(a@) == lower(b@)),
{
    let x = chars_of(a);
    let y = chars_of(b);
    if x.len() != y.len() {
        assert(lower(a@).len() == a@.len());
        assert(lower(b@).len() == b@.len());
        return false;
    }
    let mut i: usize = 0;
    while i < x.len()
        invariant
            x@ == a@,
            y@ == b@,
            x.len() == y.len(),
            i <= x.len(),
            forall|j: int| 0 <= j < i ==> lower(a@)[j] == lower(b@)[j],
        decreases x.len() - i,
    {
        assert(lower(a@)[i as int] == lower_char(x@[i as int]));
        assert(lower(b@)[i as int] == lower_char(y@[i as int]));
        if lower_code(x[i]) != lower_code(y[i]) {
            return false;
        }
        i += 1;
    }
    assert(lower(a@) =~= lower(b@));
    true
}

// ── Order ──────────────────────────────────────────────────────────

/// `a` comes before `b`, character by character.
pub open spec fn before(a: Seq<char>, b: Seq<char>) -> bool
    decreases a.len(),
{
    if b.len() == 0 {
        false
    } else if a.len() == 0 {
        true
    } else if a[0] != b[0] {
        a[0] < b[0]
    } else {
        before(a.subrange(1, a.len() as int), b.subrange(1, b.len() as int))
    }
}

/// Of two different texts one comes before the other, and no text before itself.
pub proof fn lemma_before_total(a: Seq<char>, b: Seq<char>)
    ensures
        a == b ==> !before(a, b),
        a != b ==> before(a, b) != before(b, a),
    decreases a.len(),
{
    if a.len() > 0 && b.len() > 0 && a[0] == b[0] {
        let x = a.subrange(1, a.len() as int);
        let y = b.subrange(1, b.len() as int);
        lemma_before_total(x, y);
        if x == y {
            assert(a =~= seq![a[0]] + x);
            assert(b =~= seq![b[0]] + y);
        }
    } else if a.len() == 0 && b.len() == 0 {
        assert(a =~= b);
    }
}

/// The order is transitive.
pub proof fn lemma_before_transitive(a: Seq<char>, b: Seq<char>, c: Seq<char>)
    requires
        before(a, b),
        before(b, c),
    ensures
        before(a, c),
    decreases a.len(),
{
    if a.len() > 0 && b.len() > 0 && c.len() > 0 && a[0] == b[0] && b[0] == c[0] {
        lemma_before_transitive(
            a.subrange(1, a.len() as int),
            b.subrange(1, b.len() as int),
            c.subrange(1, c.len() as int),
        );
    }
}

/// `a` comes before `b`.
pub(crate) fn comes_before(a: &str, b: &str) -> (r: bool)
    ensures
        r == before(a@, b@),
{
    let x = chars_of(a);
    let y = chars_of(b);
    let mut i: usize = 0;
    assert(a@.subrange(0, a@.len() as int) =~= a@);
    assert(b@.subrange(0, b@.len() as int) =~= b@);
    while i < x.len() && i < y.len()
        invariant
            x@ == a@,
            y@ == b@,
            i <= x.len(),
            i <= y.len(),
            before(a@, b@) == before(
                a@.subrange(i as int, a@.len() as int),
                b@.subrange(i as int, b@.len() as int),
            ),
        decreases x.len() - i,
    {
        let ghost p = a@.subrange(i as int, a@.len() as int);
        let ghost q = b@.subrange(i as int, b@.len() as int);
        assert(p[0] == a@[i as int] && q[0] == b@[i as int]);
        if x[i] != y[i] {
            return x[i] < y[i];
        }
        assert(p.subrange(1, p.len() as int) =~= a@.subrange(i + 1, a@.len() as int));
        assert(q.subrange(1, q.len() as int) =~= b@.subrange(i + 1, b@.len() as int));
        i += 1;
    }
    i < y.len()
}

// ── Laws ───────────────────────────────────────────────────────────

/// A text is split at the first mark: what stands before it and what stands
/// behind it, if the mark stands nowhere earlier.
pub proof fn split_at_the_first_mark(a: Seq<char>, mark: Seq<char>, b: Seq<char>)
    requires
        forall|j: int|
            0 <= j < a.len() ==> #[trigger] (a + mark + b).subrange(j, j + mark.len()) != mark,
    ensures
        split_first(a + mark + b, mark) == Some((a, b)),
{
    let s = a + mark + b;
    let at = a.len() as int;
    assert(s.subrange(at, at + mark.len()) =~= mark);
    assert forall|j: int| 0 <= j < at implies !#[trigger] occurs_at(s, mark, j) by {
        assert(s.subrange(j, j + mark.len()) != mark);
    }
    lemma_split_first(s, mark, at);
    assert(s.subrange(0, at) =~= a);
    assert(s.subrange(at + mark.len(), s.len() as int) =~= b);
}

/// A text is split at the last mark: what stands before it and what stands
/// behind it, if the mark stands nowhere later.
pub proof fn split_at_the_last_mark(a: Seq<char>, mark: Seq<char>, b: Seq<char>)
    requires
        forall|j: int|
            a.len() < j <= a.len() + b.len() ==> #[trigger] (a + mark + b).subrange(
                j,
                j + mark.len(),
            ) != mark,
    ensures
        split_last(a + mark + b, mark) == Some((a, b)),
{
    let s = a + mark + b;
    let at = a.len() as int;
    assert(s.subrange(at, at + mark.len()) =~= mark);
    assert forall|j: int| at < j implies !#[trigger] occurs_at(s, mark, j) by {
        if j + mark.len() <= s.len() {
            assert(s.subrange(j, j + mark.len()) != mark);
        }
    }
    lemma_split_last(s, mark, at);
    assert(s.subrange(0, at) =~= a);
    assert(s.subrange(at + mark.len(), s.len() as int) =~= b);
}

/// A text is split at a mark of one character if the character stands in it: at
/// the first place where nothing before holds it, at the last place where
/// nothing behind does.
pub proof fn split_at_a_character(a: Seq<char>, c: char, b: Seq<char>)
    ensures
        !a.contains(c) ==> split_first(a + seq![c] + b, seq![c]) == Some((a, b)),
        !b.contains(c) ==> split_last(a + seq![c] + b, seq![c]) == Some((a, b)),
{
    let mark = seq![c];
    let s = a + mark + b;
    if !a.contains(c) {
        assert forall|j: int| 0 <= j < a.len() implies #[trigger] s.subrange(j, j + mark.len())
            != mark by {
            assert(a[j] != c);
            assert(s.subrange(j, j + 1)[0] == a[j]);
        }
        split_at_the_first_mark(a, mark, b);
    }
    if !b.contains(c) {
        assert forall|j: int| a.len() < j <= a.len() + b.len() implies #[trigger] s.subrange(
            j,
            j + mark.len(),
        ) != mark by {
            assert(b[j - a.len() - 1] != c);
            assert(s.subrange(j, j + 1)[0] == b[j - a.len() - 1]);
        }
        split_at_the_last_mark(a, mark, b);
    }
}

/// A text is left whole exactly when the mark stands nowhere in it.
pub proof fn split_nowhere(s: Seq<char>, mark: Seq<char>)
    ensures
        split_first(s, mark) is None <==> forall|i: int|
            0 <= i <= s.len() - mark.len() ==> #[trigger] s.subrange(i, i + mark.len()) != mark,
        split_last(s, mark) is None <==> split_first(s, mark) is None,
        contains_text(s, mark) <==> split_first(s, mark) is Some,
{
    if contains_text(s, mark) {
        let i = choose|i: int| #[trigger] occurs_at(s, mark, i);
        assert(s.subrange(i, i + mark.len()) == mark);
    } else {
        assert forall|i: int| 0 <= i <= s.len() - mark.len() implies #[trigger] s.subrange(
            i,
            i + mark.len(),
        ) != mark by {
            assert(!occurs_at(s, mark, i));
        }
    }
}

/// A text without a character is not split at it.
pub proof fn split_at_no_character(s: Seq<char>, c: char)
    ensures
        split_first(s, seq![c]) is None <==> !s.contains(c),
        split_last(s, seq![c]) is None <==> !s.contains(c),
        contains_text(s, seq![c]) <==> s.contains(c),
{
    if contains_text(s, seq![c]) {
        let i = choose|i: int| #[trigger] occurs_at(s, seq![c], i);
        lemma_occurs_char(s, c, i);
    }
    if s.contains(c) {
        let i = choose|i: int| 0 <= i < s.len() && s[i] == c;
        lemma_occurs_char(s, c, i);
    }
}

/// A text stands in another exactly when the other is made of something, the
/// text and something.
pub proof fn contained_text_stands_somewhere(s: Seq<char>, p: Seq<char>)
    ensures
        forall|a: Seq<char>, b: Seq<char>| s == #[trigger] (a + p + b) ==> contains_text(s, p),
        contains_text(s, p) ==> exists|a: Seq<char>, b: Seq<char>| s == #[trigger] (a + p + b),
{
    assert forall|a: Seq<char>, b: Seq<char>| s == #[trigger] (a + p + b) implies contains_text(
        s,
        p,
    ) by {
        let at = a.len() as int;
        assert(s.subrange(at, at + p.len()) =~= p);
        assert(occurs_at(s, p, at));
    }
    if contains_text(s, p) {
        let i = choose|i: int| #[trigger] occurs_at(s, p, i);
        let a = s.subrange(0, i);
        let b = s.subrange(i + p.len(), s.len() as int);
        assert(s =~= a + p + b);
    }
}

/// A text begins with a prefix exactly when it is the prefix and something
/// behind it, and ends with a suffix exactly when it is something and the suffix.
pub proof fn ends_are_told(s: Seq<char>, p: Seq<char>)
    ensures
        has_prefix(p + s, p),
        after_prefix(p + s, p) == Some(s),
        has_suffix(s + p, p),
        has_prefix(s, p) ==> s == p + s.subrange(p.len() as int, s.len() as int),
        has_suffix(s, p) ==> s == s.subrange(0, s.len() - p.len()) + p,
        after_prefix(s, p) is Some <==> has_prefix(s, p),
{
    assert((p + s).subrange(0, p.len() as int) =~= p);
    assert((p + s).subrange(p.len() as int, (p + s).len() as int) =~= s);
    assert((s + p).subrange(s.len() as int, (s + p).len() as int) =~= p);
    if has_prefix(s, p) {
        assert(s =~= s.subrange(0, p.len() as int) + s.subrange(p.len() as int, s.len() as int));
    }
    if has_suffix(s, p) {
        let n = s.len() - p.len();
        assert(s =~= s.subrange(0, n) + s.subrange(n, s.len() as int));
    }
}

/// White space around a text is trimmed away, and nothing else.
pub proof fn white_space_around_is_trimmed(front: Seq<char>, t: Seq<char>, back: Seq<char>)
    requires
        forall|i: int| 0 <= i < front.len() ==> is_white(#[trigger] front[i]),
        forall|i: int| 0 <= i < back.len() ==> is_white(#[trigger] back[i]),
        t.len() > 0 ==> !is_white(t[0]) && !is_white(t.last()),
    ensures
        trimmed(front + t + back) == t,
    decreases front.len() + back.len(),
{
    let s = front + t + back;
    if front.len() > 0 {
        assert(is_white(front[0]));
        let rest = front.subrange(1, front.len() as int);
        assert(s.subrange(1, s.len() as int) =~= rest + t + back);
        assert forall|i: int| 0 <= i < rest.len() implies is_white(#[trigger] rest[i]) by {
            assert(rest[i] == front[i + 1]);
        }
        white_space_around_is_trimmed(rest, t, back);
    } else if t.len() == 0 {
        assert(s =~= back);
        if back.len() > 0 {
            assert(is_white(back[0]));
            let rest = back.subrange(1, back.len() as int);
            assert forall|i: int| 0 <= i < rest.len() implies is_white(#[trigger] rest[i]) by {
                assert(rest[i] == back[i + 1]);
            }
            assert(s.subrange(1, s.len() as int) =~= front + t + rest);
            white_space_around_is_trimmed(front, t, rest);
        } else {
            assert(s =~= t);
        }
    } else {
        assert(s =~= t + back);
        assert(s[0] == t[0]);
        assert(trimmed_start(s) == s);
        if back.len() > 0 {
            assert(is_white(back[back.len() - 1]));
            let rest = back.drop_last();
            assert(s.drop_last() =~= front + t + rest);
            assert forall|i: int| 0 <= i < rest.len() implies is_white(#[trigger] rest[i]) by {
                assert(rest[i] == back[i]);
            }
            white_space_around_is_trimmed(front, t, rest);
            assert(s.drop_last()[0] == t[0]);
            assert(trimmed_start(s.drop_last()) == s.drop_last());
        } else {
            assert(s =~= t);
            lemma_already_trimmed(t);
        }
    }
}

/// Spaces, tabs and line ends are white space; other characters of ASCII are
/// none.
pub proof fn ascii_white_space(c: char)
    requires
        (c as int) < 128,
    ensures
        is_white(c) <==> c == ' ' || c == '\t' || c == '\n' || c == '\r' || c as int == 11
            || c as int == 12,
{
}

/// Beyond ASCII the spaces and the line ends of Unicode are white space, and
/// nothing else is.
pub proof fn other_white_space(c: char)
    requires
        (c as int) >= 128,
    ensures
        is_white(c) <==> seq![
            0x85int,
            0xa0,
            0x1680,
            0x2000,
            0x2001,
            0x2002,
            0x2003,
            0x2004,
            0x2005,
            0x2006,
            0x2007,
            0x2008,
            0x2009,
            0x200a,
            0x2028,
            0x2029,
            0x202f,
            0x205f,
            0x3000,
        ].contains(c as int),
{
    let all = seq![
        0x85int,
        0xa0,
        0x1680,
        0x2000,
        0x2001,
        0x2002,
        0x2003,
        0x2004,
        0x2005,
        0x2006,
        0x2007,
        0x2008,
        0x2009,
        0x200a,
        0x2028,
        0x2029,
        0x202f,
        0x205f,
        0x3000,
    ];
    if is_white(c) {
        let n = c as int;
        if 0x2000 <= n <= 0x200a {
            assert(all[n - 0x2000 + 3] == n);
        } else {
            assert(all[0] == 0x85 && all[1] == 0xa0 && all[2] == 0x1680 && all[14] == 0x2028
                && all[15] == 0x2029 && all[16] == 0x202f && all[17] == 0x205f && all[18]
                == 0x3000);
        }
    }
}

/// A row of one character before or behind a text is taken away whole, and
/// nothing else is.
pub proof fn rows_at_the_ends_go(n: nat, c: char, t: Seq<char>)
    ensures
        t.len() == 0 || t[0] != c ==> without_leading(Seq::new(n, |i: int| c) + t, c) == t,
        t.len() == 0 || t.last() != c ==> without_trailing(t + Seq::new(n, |i: int| c), c) == t,
    decreases n,
{
    let row = Seq::new(n, |i: int| c);
    if n > 0 {
        let m = (n - 1) as nat;
        let less = Seq::new(m, |i: int| c);
        rows_at_the_ends_go(m, c, t);
        assert((row + t).subrange(1, (row + t).len() as int) =~= less + t);
        assert((t + row).drop_last() =~= t + less);
    } else {
        assert(row + t =~= t);
        assert(t + row =~= t);
    }
}

/// A text is cut at every separator: what stands behind the last one is a piece
/// of its own, and so is a text without any.
pub proof fn pieces_end_at_separators(a: Seq<char>, c: char, b: Seq<char>)
    requires
        !b.contains(c),
    ensures
        pieces(b, c) == seq![b],
        pieces(a + seq![c] + b, c) == pieces(a, c).push(b),
    decreases b.len(),
{
    if b.len() == 0 {
        assert(b =~= Seq::<char>::empty());
        assert(pieces(b, c) =~= seq![b]);
        let s = a + seq![c] + b;
        assert(s.drop_last() =~= a);
        assert(s.last() == c);
        assert(pieces(s, c) =~= pieces(a, c).push(b));
    } else {
        let front = b.drop_last();
        assert(b[b.len() - 1] != c);
        assert forall|i: int| 0 <= i < front.len() implies front[i] != c by {
            assert(front[i] == b[i]);
        }
        pieces_end_at_separators(a, c, front);
        assert(b =~= front.push(b.last()));
        assert(seq![front].drop_last().push(front.push(b.last())) =~= seq![b]);
        let s = a + seq![c] + b;
        assert(s.drop_last() =~= a + seq![c] + front);
        assert(s.last() == b.last());
        let p = pieces(a, c).push(front);
        assert(p.drop_last() =~= pieces(a, c));
        assert(pieces(s, c) =~= pieces(a, c).push(b));
    }
}

/// Digits count by their places: a digit stands for its own value, and those
/// before others for as many tens.
pub proof fn digits_count_by_their_places(a: Seq<char>, b: Seq<char>, c: char)
    requires
        all_digits(b),
        '0' <= c <= '9',
    ensures
        digits_value(Seq::empty()) == 0,
        digits_value(seq![c]) == c as int - 48,
        digits_value(a + b) == digits_value(a) * vstd::arithmetic::power::pow(10, b.len())
            + digits_value(b),
    decreases b.len(),
{
    let one = seq![c];
    assert(one.drop_last() =~= Seq::<char>::empty());
    assert(digits_value(one.drop_last()) == 0);
    if b.len() == 0 {
        assert(a + b =~= a);
        vstd::arithmetic::power::lemma_pow0(10);
    } else {
        let front = b.drop_last();
        assert forall|i: int| 0 <= i < front.len() implies is_digit(#[trigger] front[i]) by {
            assert(front[i] == b[i]);
        }
        digits_count_by_their_places(a, front, c);
        assert((a + b).drop_last() =~= a + front);
        assert((a + b).last() == b.last());
        let p = vstd::arithmetic::power::pow(10, front.len());
        reveal(vstd::arithmetic::power::pow);
        assert(vstd::arithmetic::power::pow(10, b.len()) == 10 * p);
        let v = digits_value(a);
        assert((v * p) * 10 == v * (10 * p)) by (nonlinear_arith);
    }
}

/// A number is a row of digits, with or without a plus sign before it, and is
/// read up to the largest one that is allowed.
pub proof fn numbers_are_rows_of_digits(d: Seq<char>, max: nat)
    requires
        d.len() > 0,
        forall|i: int| 0 <= i < d.len() ==> '0' <= (#[trigger] d[i]) <= '9',
    ensures
        number(d, max) == if digits_value(d) <= max {
            Some(digits_value(d))
        } else {
            None
        },
        number(seq!['+'] + d, max) == number(d, max),
{
    assert forall|i: int| 0 <= i < d.len() implies is_digit(#[trigger] d[i]) by {}
    assert((seq!['+'] + d).subrange(1, (d.len() + 1) as int) =~= d);
    assert(d[0] != '+');
}

/// What is no row of digits is no number.
pub proof fn other_texts_are_no_numbers(s: Seq<char>, max: nat, i: int)
    ensures
        number(Seq::empty(), max) is None,
        number(seq!['+'], max) is None,
        0 <= i < s.len() && !('0' <= s[i] <= '9') && !(i == 0 && s[i] == '+') ==> number(s, max)
            is None,
{
    assert(seq!['+'].subrange(1, 1) =~= Seq::<char>::empty());
    if 0 <= i < s.len() && !('0' <= s[i] <= '9') && !(i == 0 && s[i] == '+') {
        let d = unsigned_digits(s);
        if s[0] == '+' {
            assert(d[i - 1] == s[i]);
            assert(!is_digit(d[i - 1]));
        } else {
            assert(!is_digit(d[i]));
        }
    }
}

/// The spelling of a number has no zeros before it and no more digits than the
/// number needs.
pub proof fn spelling_is_short(n: nat)
    ensures
        n > 0 ==> decimal(n)[0] != '0',
        n < 10 ==> decimal(n).len() == 1,
        10 <= n < 100 ==> decimal(n).len() == 2,
        100 <= n < 1000 ==> decimal(n).len() == 3,
        decimal(n * 10).len() == if n == 0 {
            1
        } else {
            decimal(n).len() + 1
        },
        forall|i: int| 0 <= i < decimal(n).len() ==> '0' <= (#[trigger] decimal(n)[i]) <= '9',
    decreases n,
{
    lemma_decimal(n);
    assert forall|i: int| 0 <= i < decimal(n).len() implies '0' <= (#[trigger] decimal(n)[i])
        <= '9' by {
        assert(is_digit(decimal(n)[i]));
    }
    reveal_with_fuel(decimal, 4);
    if n >= 10 {
        spelling_is_short(n / 10);
        lemma_decimal(n / 10);
        assert(decimal(n)[0] == decimal(n / 10)[0]);
    }
    assert((n * 10) / 10 == n);
}

/// Only the capital letters of ASCII are made small: each becomes the letter
/// thirty-two places on.
pub proof fn capitals_are_made_small(s: Seq<char>, i: int)
    ensures
        lower(s).len() == s.len(),
        0 <= i < s.len() && 65 <= s[i] as int <= 90 ==> lower(s)[i] as int == s[i] as int + 32,
        0 <= i < s.len() && !(65 <= s[i] as int <= 90) ==> lower(s)[i] == s[i],
{
}

/// Texts are ordered by the first character in which they differ, and a text
/// comes before what begins with it.
pub proof fn order_goes_by_the_first_difference(
    p: Seq<char>,
    x: char,
    a: Seq<char>,
    y: char,
    b: Seq<char>,
)
    ensures
        x < y ==> before(p + seq![x] + a, p + seq![y] + b),
        x < y ==> !before(p + seq![y] + b, p + seq![x] + a),
        before(p, p + seq![x] + a),
        !before(p + seq![x] + a, p),
        !before(p, p),
    decreases p.len(),
{
    let l = p + seq![x] + a;
    let r = p + seq![y] + b;
    lemma_before_total(p, p);
    if p.len() > 0 {
        let q = p.subrange(1, p.len() as int);
        assert(l.subrange(1, l.len() as int) =~= q + seq![x] + a);
        assert(r.subrange(1, r.len() as int) =~= q + seq![y] + b);
        order_goes_by_the_first_difference(q, x, a, y, b);
    }
}

/// The texts of a list are the texts of its entries, in their order.
pub proof fn texts_are_those_of_the_list(v: Seq<String>, i: int)
    ensures
        texts(v).len() == v.len(),
        0 <= i < v.len() ==> texts(v)[i] == v[i]@,
{
}

/// The pieces of two parts with a separator between them are those of the one
/// and those of the other.
pub proof fn pieces_of_two_parts(a: Seq<char>, c: char, b: Seq<char>)
    ensures
        pieces(a + seq![c] + b, c) == pieces(a, c) + pieces(b, c),
        pieces(b, c).len() >= 1,
    decreases b.len(),
{
    let s = a + seq![c] + b;
    if b.len() == 0 {
        pieces_end_at_separators(a, c, b);
        assert(pieces(s, c) =~= pieces(a, c) + pieces(b, c));
    } else {
        let front = b.drop_last();
        pieces_of_two_parts(a, c, front);
        assert(s.drop_last() =~= a + seq![c] + front);
        assert(s.last() == b.last());
        assert(pieces(s, c) =~= pieces(a, c) + pieces(b, c));
    }
}

} // verus!
