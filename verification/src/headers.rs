//! HTTP header fields.
//!
//! The header maps are those of the `http` crate, which `axum` hands out. A map
//! is spoken of by what it holds: the values of each name, in their order, with
//! the names in small letters.

use axum::http::{HeaderMap, HeaderName, HeaderValue};
use vstd::prelude::*;

verus! {

broadcast use vstd::seq::group_seq_axioms;

/// A header map of the `http` crate.
#[verifier::external_type_specification]
#[verifier::external_body]
#[verifier::reject_recursive_types(T)]
pub struct ExHeaderMap<T>(HeaderMap<T>);

/// A header name of the `http` crate.
#[verifier::external_type_specification]
#[verifier::external_body]
pub struct ExHeaderName(HeaderName);

/// A header value of the `http` crate.
#[verifier::external_type_specification]
#[verifier::external_body]
pub struct ExHeaderValue(HeaderValue);

/// The values that a header map holds under each name.
pub uninterp spec fn header_contents(m: HeaderMap<HeaderValue>) -> Map<Seq<char>, Seq<Seq<u8>>>;

/// The text of a header name.
pub uninterp spec fn name_text(n: HeaderName) -> Seq<char>;

/// The bytes of a header value.
pub uninterp spec fn value_bytes(v: HeaderValue) -> Seq<u8>;

/// The characters of which header names are made.
pub open spec fn is_name_char(c: char) -> bool {
    ||| 'a' <= c <= 'z'
    ||| 'A' <= c <= 'Z'
    ||| '0' <= c <= '9'
    ||| c == '!' || c == '#' || c == '$' || c == '%' || c == '&' || c == '\'' || c == '*'
    ||| c == '+' || c == '-' || c == '.' || c == '^' || c == '_' || c == '`' || c == '|'
    ||| c == '~'
}

/// A text that can name a header.
pub open spec fn is_header_name(s: Seq<char>) -> bool {
    &&& 0 < s.len() <= 0xffff
    &&& forall|i: int| 0 <= i < s.len() ==> is_name_char(#[trigger] s[i])
}

/// A text that can stand in a header value: no control characters but the tab.
pub open spec fn is_header_text(s: Seq<char>) -> bool {
    forall|i: int|
        0 <= i < s.len() ==> (#[trigger] s[i]) == '\t' || (0x20 <= s[i] as int && s[i] as int
            != 0x7f)
}

/// Bytes that are visible ASCII characters, spaces or tabs.
pub open spec fn is_visible(b: Seq<u8>) -> bool {
    forall|i: int| 0 <= i < b.len() ==> (#[trigger] b[i]) == 9 || 0x20 <= b[i] < 0x7f
}

/// The text that ASCII bytes spell.
pub open spec fn ascii_text(b: Seq<u8>) -> Seq<char> {
    b.map_values(|x: u8| x as char)
}

/// The contents of a map without names.
pub open spec fn no_headers() -> Map<Seq<char>, Seq<Seq<u8>>> {
    Map::empty()
}

/// The number of names up to which a `HeaderMap` can always grow. One more may
/// be refused if the names collide: the map then doubles its table of at most
/// 32768 places as soon as a fifth of them is taken.
pub const MAX_NAMES: usize = 6554;

/// A map with room for `n` more names.
pub open spec fn has_room_for(m: HeaderMap<HeaderValue>, n: nat) -> bool {
    header_contents(m).dom().finite() && header_contents(m).dom().len() + n <= MAX_NAMES
}

/// The text of the first value under `name`, if it is visible ASCII.
pub open spec fn header_text(m: Map<Seq<char>, Seq<Seq<u8>>>, name: Seq<char>) -> Option<Seq<char>> {
    if m.contains_key(name) && is_visible(m[name][0]) {
        Some(ascii_text(m[name][0]))
    } else {
        None
    }
}

/// `HeaderMap::new`: the map without names.
#[verifier::external_body]
pub(crate) fn new_headers() -> (r: HeaderMap<HeaderValue>)
    ensures
        header_contents(r) == no_headers(),
{
    HeaderMap::new()
}

/// `HeaderMap::get`: the first value under a name, whatever the case of its
/// letters.
#[verifier::external_body]
pub(crate) fn get_header<'a>(m: &'a HeaderMap<HeaderValue>, name: &str) -> (r: Option<
    &'a HeaderValue,
>)
    requires
        is_header_name(name@),
    ensures
        match r {
            Some(v) => header_contents(*m).contains_key(crate::text::lower(name@))
                && header_contents(*m)[crate::text::lower(name@)].len() > 0 && value_bytes(*v)
                == header_contents(*m)[crate::text::lower(name@)][0],
            None => !header_contents(*m).contains_key(crate::text::lower(name@)),
        },
{
    m.get(name)
}

/// `HeaderMap::insert`: the value becomes the only one under the name. It
/// panics where the map cannot grow any more, which a map of so few names can.
#[verifier::external_body]
pub(crate) fn insert_header(m: &mut HeaderMap<HeaderValue>, name: &HeaderName, value: HeaderValue)
    requires
        has_room_for(*old(m), 1),
    ensures
        header_contents(*final(m)) == header_contents(*old(m)).insert(
            name_text(*name),
            seq![value_bytes(value)],
        ),
{
    let _ = m.insert(name, value);
}

/// `HeaderMap::remove`: all values under a name leave, whatever the case of
/// its letters.
#[verifier::external_body]
pub(crate) fn remove_header(m: &mut HeaderMap<HeaderValue>, name: &str)
    requires
        is_header_name(name@),
    ensures
        header_contents(*final(m)) == header_contents(*old(m)).remove(crate::text::lower(name@)),
{
    let _ = m.remove(name);
}

/// `HeaderName::from_str`: the name that a text spells, in small letters.
#[verifier::external_body]
pub(crate) fn read_header_name(s: &str) -> (r: Option<HeaderName>)
    ensures
        match r {
            Some(n) => is_header_name(s@) && name_text(n) == crate::text::lower(s@),
            None => !is_header_name(s@),
        },
{
    match s.parse::<HeaderName>() {
        Ok(n) => Some(n),
        Err(_) => None,
    }
}

/// `HeaderName::as_str`: the text of a name.
#[verifier::external_body]
pub(crate) fn text_of_name(n: &HeaderName) -> (r: &str)
    ensures
        r@ == name_text(*n),
{
    n.as_str()
}

/// `HeaderValue::to_str`: the text of a value, if it is visible ASCII.
#[verifier::external_body]
pub(crate) fn text_of_value(v: &HeaderValue) -> (r: Option<&str>)
    ensures
        match r {
            Some(t) => is_visible(value_bytes(*v)) && t@ == ascii_text(value_bytes(*v)),
            None => !is_visible(value_bytes(*v)),
        },
{
    match v.to_str() {
        Ok(t) => Some(t),
        Err(_) => None,
    }
}

/// `HeaderValue::from_str`: the value with the bytes of a text, if no control
/// character but the tab stands in it.
#[verifier::external_body]
pub(crate) fn value_of_text(s: &str) -> (r: Option<HeaderValue>)
    ensures
        match r {
            Some(v) => is_header_text(s@) && value_bytes(v) == vstd::utf8::encode_utf8(s@),
            None => !is_header_text(s@),
        },
{
    match HeaderValue::from_str(s) {
        Ok(v) => Some(v),
        Err(_) => None,
    }
}

/// `HeaderValue::clone`: a value with the same bytes.
#[verifier::external_body]
pub(crate) fn clone_value(v: &HeaderValue) -> (r: HeaderValue)
    ensures
        value_bytes(r) == value_bytes(*v),
{
    v.clone()
}

/// The text of the first value under `name`, if it is visible ASCII.
pub(crate) fn get_text<'a>(m: &'a HeaderMap<HeaderValue>, name: &str) -> (r: Option<&'a str>)
    requires
        is_header_name(name@),
    ensures
        match r {
            Some(t) => header_text(header_contents(*m), crate::text::lower(name@)) == Some(t@),
            None => header_text(header_contents(*m), crate::text::lower(name@)) is None,
        },
{
    match get_header(m, name) {
        Some(v) => text_of_value(v),
        None => None,
    }
}

/// Whether a text can stand in a header value.
pub(crate) fn can_stand_in_header(s: &str) -> (r: bool)
    ensures
        r == is_header_text(s@),
{
    value_of_text(s).is_some()
}

/// The text becomes the only value under the name.
pub(crate) fn set_text(m: &mut HeaderMap<HeaderValue>, name: &str, value: &str)
    requires
        has_room_for(*old(m), 1),
        is_header_name(name@),
        is_header_text(value@),
    ensures
        header_contents(*final(m)) == header_contents(*old(m)).insert(
            crate::text::lower(name@),
            seq![vstd::utf8::encode_utf8(value@)],
        ),
        forall|n: nat|
            has_room_for(*old(m), n + 1) ==> #[trigger] has_room_for(*final(m), n),
{
    if let Some(n) = read_header_name(name) {
        if let Some(v) = value_of_text(value) {
            insert_header(m, &n, v);
        }
    }
}

// ── Laws ───────────────────────────────────────────────────────────

/// The text of a header is that of its first value, if all its bytes are visible
/// characters, spaces or tabs of ASCII.
pub proof fn text_is_that_of_the_first_value(
    m: Map<Seq<char>, Seq<Seq<u8>>>,
    name: Seq<char>,
    text: Seq<char>,
)
    requires
        m.contains_key(name),
        m[name][0].len() == text.len(),
        forall|i: int|
            0 <= i < text.len() ==> (#[trigger] text[i]) as int <= 255 && m[name][0][i] as int
                == text[i] as int,
    ensures
        (forall|i: int|
            0 <= i < text.len() ==> (#[trigger] text[i]) == '\t' || 32 <= text[i] as int <= 126)
            ==> header_text(m, name) == Some(text),
        (exists|i: int|
            0 <= i < text.len() && (#[trigger] text[i]) != '\t' && !(32 <= text[i] as int <= 126))
            ==> header_text(m, name) is None,
{
    let b = m[name][0];
    if forall|i: int|
        0 <= i < text.len() ==> (#[trigger] text[i]) == '\t' || 32 <= text[i] as int <= 126 {
        assert forall|i: int| 0 <= i < b.len() implies (#[trigger] b[i]) == 9 || 0x20 <= b[i]
            < 0x7f by {
            assert(text[i] == '\t' || 32 <= text[i] as int <= 126);
        }
        assert forall|i: int| 0 <= i < b.len() implies ascii_text(b)[i] == #[trigger] text[i] by {
            assert(b[i] as int == text[i] as int);
        }
        assert(ascii_text(b) =~= text);
    }
    if exists|i: int|
        0 <= i < text.len() && (#[trigger] text[i]) != '\t' && !(32 <= text[i] as int <= 126) {
        let i = choose|i: int|
            0 <= i < text.len() && (#[trigger] text[i]) != '\t' && !(32 <= text[i] as int <= 126);
        assert(!(b[i] == 9 || 0x20 <= b[i] < 0x7f));
    }
}

/// A header that is missing has no text.
pub proof fn missing_header_has_no_text(m: Map<Seq<char>, Seq<Seq<u8>>>, name: Seq<char>)
    requires
        !m.contains_key(name),
    ensures
        header_text(m, name) is None,
{
}

} // verus!
