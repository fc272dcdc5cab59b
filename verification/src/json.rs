//! JSON values.
//!
//! The values are those of the `serde_json` crate. A value is spoken of by the
//! tree that it holds.

use serde_json::Value;
use vstd::prelude::*;

verus! {

broadcast use vstd::seq::group_seq_axioms;

/// A value of the `serde_json` crate.
#[verifier::external_type_specification]
#[verifier::external_body]
pub struct ExValue(Value);

/// What a JSON value holds. A number is taken as it is written out.
pub enum Json {
    Null,
    Bool(bool),
    Number(Seq<char>),
    Text(Seq<char>),
    Array(Seq<Json>),
    Object(Map<Seq<char>, Json>),
}

/// What a value holds.
pub uninterp spec fn json_of(v: Value) -> Json;

/// What bytes say as JSON, or else why they are none.
pub uninterp spec fn json_parse(bytes: Seq<u8>) -> Result<Json, Seq<char>>;

/// The bytes that a tree is written as.
pub uninterp spec fn json_bytes(j: Json) -> Seq<u8>;

/// What a list of values holds.
pub open spec fn jsons(v: Seq<Value>) -> Seq<Json> {
    v.map_values(|x: Value| json_of(x))
}

/// What stands under `key` in an object.
pub open spec fn member(j: Json, key: Seq<char>) -> Option<Json> {
    match j {
        Json::Object(m) => if m.contains_key(key) {
            Some(m[key])
        } else {
            None
        },
        _ => None,
    }
}

/// The elements of an array.
pub open spec fn elements(j: Json) -> Option<Seq<Json>> {
    match j {
        Json::Array(a) => Some(a),
        _ => None,
    }
}

/// The text of a string.
pub open spec fn text(j: Json) -> Option<Seq<char>> {
    match j {
        Json::Text(t) => Some(t),
        _ => None,
    }
}

/// The integer that a row of digits with an optional minus sign spells.
pub open spec fn integer(t: Seq<char>) -> Option<int> {
    let negative = t.len() > 0 && t[0] == '-';
    let d = if negative {
        t.subrange(1, t.len() as int)
    } else {
        t
    };
    if d.len() > 0 && crate::text::all_digits(d) {
        if negative {
            Some(-(crate::text::digits_value(d) as int))
        } else {
            Some(crate::text::digits_value(d) as int)
        }
    } else {
        None
    }
}

/// The integer of a number that is one and that lies between the bounds.
pub open spec fn integer_between(j: Json, low: int, high: int) -> Option<int> {
    match j {
        Json::Number(t) => match integer(t) {
            Some(n) => if low <= n <= high {
                Some(n)
            } else {
                None
            },
            None => None,
        },
        _ => None,
    }
}

/// `j` without what stands under `key`, if it is an object.
pub open spec fn without_member(j: Json, key: Seq<char>) -> Json {
    match j {
        Json::Object(m) => Json::Object(m.remove(key)),
        _ => j,
    }
}

/// An object of strings.
pub open spec fn is_text_map(j: Json) -> bool {
    match j {
        Json::Object(m) => forall|k: Seq<char>| #[trigger] m.contains_key(k) ==> m[k] is Text,
        _ => false,
    }
}

/// The texts that entries hold.
pub open spec fn pair_views(v: Seq<(String, String)>) -> Seq<(Seq<char>, Seq<char>)> {
    v.map_values(|e: (String, String)| (e.0@, e.1@))
}

/// Some entry has the key `k`.
pub open spec fn has_key(e: Seq<(Seq<char>, Seq<char>)>, k: Seq<char>) -> bool {
    exists|i: int| 0 <= i < e.len() && (#[trigger] e[i]).0 == k
}

/// The entries list an object of strings, in ascending order of the keys.
pub open spec fn lists(e: Seq<(Seq<char>, Seq<char>)>, j: Json) -> bool {
    match j {
        Json::Object(m) => {
            &&& forall|k: Seq<char>| #[trigger] m.contains_key(k) <==> has_key(e, k)
            &&& forall|i: int|
                0 <= i < e.len() ==> m[(#[trigger] e[i]).0] == Json::Text(e[i].1)
            &&& forall|i: int, k: int|
                0 <= i < k < e.len() ==> crate::text::before(
                    (#[trigger] e[i]).0,
                    (#[trigger] e[k]).0,
                )
        },
        _ => false,
    }
}

/// The members of an object of strings, in ascending order of the keys.
pub open spec fn text_entries(j: Json) -> Option<Seq<(Seq<char>, Seq<char>)>> {
    if is_text_map(j) {
        Some(choose|e: Seq<(Seq<char>, Seq<char>)>| lists(e, j))
    } else {
        None
    }
}

/// Two lists of the same members agree at each place.
proof fn lemma_lists_agree(
    a: Seq<(Seq<char>, Seq<char>)>,
    b: Seq<(Seq<char>, Seq<char>)>,
    j: Json,
    i: int,
)
    requires
        lists(a, j),
        lists(b, j),
        0 <= i < a.len(),
    ensures
        i < b.len(),
        a[i] == b[i],
    decreases i,
{
    assert forall|k: int| 0 <= k < i implies k < b.len() && #[trigger] a[k] == b[k] by {
        lemma_lists_agree(a, b, j, k);
    }
    let m = j->Object_0;
    let key = a[i].0;
    assert(has_key(a, key));
    assert(m.contains_key(key));
    let p = choose|p: int| 0 <= p < b.len() && (#[trigger] b[p]).0 == key;
    crate::text::lemma_before_total(key, key);
    if p < i {
        assert(crate::text::before(a[p].0, a[i].0));
    }
    let other = b[i].0;
    assert(has_key(b, other));
    assert(m.contains_key(other));
    let q = choose|q: int| 0 <= q < a.len() && (#[trigger] a[q]).0 == other;
    if q < i {
        assert(a[q] == b[q]);
        assert(crate::text::before(b[q].0, b[i].0));
        crate::text::lemma_before_total(other, other);
    }
    if i < p {
        assert(crate::text::before(b[i].0, b[p].0));
        crate::text::lemma_before_total(other, key);
        if i < q {
            assert(crate::text::before(a[i].0, a[q].0));
        }
    }
}

/// There is one list of the members of an object of strings.
pub proof fn lemma_lists_once(e: Seq<(Seq<char>, Seq<char>)>, j: Json)
    requires
        is_text_map(j),
        lists(e, j),
    ensures
        text_entries(j) == Some(e),
{
    let c = choose|c: Seq<(Seq<char>, Seq<char>)>| lists(c, j);
    assert forall|i: int| 0 <= i < e.len() implies i < c.len() && #[trigger] e[i] == c[i] by {
        lemma_lists_agree(e, c, j, i);
    }
    if e.len() < c.len() {
        lemma_lists_agree(c, e, j, e.len() as int);
    }
    if e.len() > c.len() {
        lemma_lists_agree(e, c, j, c.len() as int);
    }
    assert(e =~= c);
}

/// `serde_json::from_slice` into a value. What it gives, and the text of the
/// error where it gives none, depends on the bytes alone.
#[verifier::external_body]
pub(crate) fn parse(bytes: &[u8]) -> (r: Result<Value, String>)
    ensures
        match r {
            Ok(v) => json_parse(bytes@) == Ok::<Json, Seq<char>>(json_of(v)),
            Err(e) => json_parse(bytes@) == Err::<Json, Seq<char>>(e@),
        },
{
    match serde_json::from_slice(bytes) {
        Ok(v) => Ok(v),
        Err(e) => Err(e.to_string()),
    }
}

/// `serde_json::to_vec`: the bytes that a value is written as, which depend on
/// what it holds alone. A value has text keys and finite numbers only, so it
/// can always be written.
#[verifier::external_body]
pub(crate) fn to_bytes(v: &Value) -> (r: Option<Vec<u8>>)
    ensures
        r is Some && r->0@ == json_bytes(json_of(*v)),
{
    match serde_json::to_vec(v) {
        Ok(b) => Some(b),
        Err(_) => None,
    }
}

/// `Value::get`: what stands under a key, if the value is an object that has it.
#[verifier::external_body]
pub(crate) fn get<'a>(v: &'a Value, key: &str) -> (r: Option<&'a Value>)
    ensures
        match r {
            Some(x) => member(json_of(*v), key@) == Some(json_of(*x)),
            None => member(json_of(*v), key@) is None,
        },
{
    v.get(key)
}

/// `Value::as_array`: the elements, if the value is an array.
#[verifier::external_body]
pub(crate) fn as_array(v: &Value) -> (r: Option<&Vec<Value>>)
    ensures
        match r {
            Some(a) => elements(json_of(*v)) == Some(jsons(a@)),
            None => elements(json_of(*v)) is None,
        },
{
    v.as_array()
}

/// `Value::as_str`: the text, if the value is a string.
#[verifier::external_body]
pub(crate) fn as_str(v: &Value) -> (r: Option<&str>)
    ensures
        match r {
            Some(t) => text(json_of(*v)) == Some(t@),
            None => text(json_of(*v)) is None,
        },
{
    v.as_str()
}

/// `Value::as_i64`: the integer, if the value is a number written as one that
/// fits.
#[verifier::external_body]
pub(crate) fn as_i64(v: &Value) -> (r: Option<i64>)
    ensures
        match r {
            Some(n) => integer_between(json_of(*v), i64::MIN as int, i64::MAX as int) == Some(
                n as int,
            ),
            None => integer_between(json_of(*v), i64::MIN as int, i64::MAX as int) is None,
        },
{
    v.as_i64()
}

/// `Value::as_u64`: the integer, if the value is a number written as one that
/// fits.
#[verifier::external_body]
pub(crate) fn as_u64(v: &Value) -> (r: Option<u64>)
    ensures
        match r {
            Some(n) => integer_between(json_of(*v), 0, u64::MAX as int) == Some(n as int),
            None => integer_between(json_of(*v), 0, u64::MAX as int) is None,
        },
{
    v.as_u64()
}

/// `Value::clone`: a value that holds the same.
#[verifier::external_body]
pub(crate) fn copy(v: &Value) -> (r: Value)
    ensures
        json_of(r) == json_of(*v),
{
    v.clone()
}

/// `serde_json::Map::remove` on the value's object: what stands under a key
/// leaves. A value that is no object is left as it is.
#[verifier::external_body]
pub(crate) fn remove(v: &mut Value, key: &str)
    ensures
        json_of(*final(v)) == without_member(json_of(*old(v)), key@),
{
    match v.as_object_mut() {
        Some(m) => {
            let _ = m.remove(key);
        },
        None => {},
    }
}

/// `serde_json::from_value` into an ordered map of strings: the members of an
/// object of strings.
#[verifier::external_body]
pub(crate) fn text_members(v: Value) -> (r: Option<Vec<(String, String)>>)
    ensures
        match r {
            Some(e) => is_text_map(json_of(v)) && lists(pair_views(e@), json_of(v)),
            None => !is_text_map(json_of(v)),
        },
{
    match serde_json::from_value::<std::collections::BTreeMap<String, String>>(v) {
        Ok(m) => Some(m.into_iter().collect()),
        Err(_) => None,
    }
}

} // verus!
