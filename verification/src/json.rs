//! JSON values, as `serde_json` reads them.
use serde_json::Value;
use vstd::prelude::*;
use vstd::utf8::{decode_utf8, encode_utf8, valid_utf8};

use crate::text::utf8_text;

verus! {

/// A value of `serde_json`, of which only what the functions below say is known.
#[verifier::external_type_specification]
#[verifier::external_body]
pub struct ExValue(serde_json::Value);

/// Why `serde_json` refuses a text, of which nothing is known.
#[verifier::external_type_specification]
#[verifier::external_body]
pub struct ExJsonError(serde_json::Error);

/// What a JSON value holds. The members of an object stand in the order in which they are walked;
/// a number that is no integer stands as the bits of its double.
pub ghost enum Json {
    Null,
    Bool(bool),
    Unsigned(u64),
    Negative(i64),
    Float(u64),
    Text(Seq<char>),
    Array(Seq<Json>),
    Object(Seq<(Seq<char>, Json)>),
}

/// What a value of `serde_json` holds.
pub uninterp spec fn json_of(v: serde_json::Value) -> Json;

/// What a text holds that is JSON, as [`parse`] reads it.
pub uninterp spec fn parsed(text: Seq<char>) -> Option<Json>;

/// The whole part of the number that is nearest to `n` among the doubles, as [`whole`] gives it.
pub uninterp spec fn rounded(n: u64) -> u64;

/// The whole part of the double with these bits, as [`whole`] gives it.
pub uninterp spec fn truncated(bits: u64) -> u64;

/// The largest integer up to which each integer is a double.
pub const EXACT_LIMIT: u64 = 0x20_0000_0000_0000;

/// Member `i` has this name.
pub open spec fn is_named(members: Seq<(Seq<char>, Json)>, i: int, name: Seq<char>) -> bool {
    0 <= i < members.len() && members[i].0 == name
}

/// The member of an object with this name, `Null` where there is none.
pub open spec fn member_of(j: Json, name: Seq<char>) -> Json {
    match j {
        Json::Object(members) => {
            if exists|i: int| is_named(members, i, name) {
                members[choose|i: int| is_named(members, i, name)].1
            } else {
                Json::Null
            }
        },
        _ => Json::Null,
    }
}

/// A number as an integer: cut to its whole part, and to the range of the type.
pub open spec fn whole_of(j: Json) -> Option<u64> {
    match j {
        Json::Unsigned(n) => Some(
            if n <= EXACT_LIMIT {
                n
            } else {
                rounded(n)
            },
        ),
        Json::Negative(_) => Some(0),
        Json::Float(bits) => Some(truncated(bits)),
        _ => None,
    }
}

/// The values of `serde_json` hold these.
pub open spec fn holds_items(values: Seq<Value>, items: Seq<Json>) -> bool {
    &&& values.len() == items.len()
    &&& forall|i: int| 0 <= i < items.len() ==> json_of(#[trigger] values[i]) == items[i]
}

/// `a` stands before `b` by the bytes: where they first differ it has the lesser one, or it ends
/// there.
pub open spec fn bytes_before(a: Seq<u8>, b: Seq<u8>) -> bool {
    exists|k: int| #[trigger] parts_at(a, b, k)
}

/// Up to `k` the two are the same, and there `a` has the lesser byte or ends.
pub open spec fn parts_at(a: Seq<u8>, b: Seq<u8>, k: int) -> bool {
    &&& 0 <= k <= a.len()
    &&& k < b.len()
    &&& a.take(k) == b.take(k)
    &&& k == a.len() || a[k] < b[k]
}

/// `a` stands before `b` in the order of strings, which is that of their bytes.
pub open spec fn name_before(a: Seq<char>, b: Seq<char>) -> bool {
    bytes_before(encode_utf8(a), encode_utf8(b))
}

/// The entries of a map of `serde_json` are these members, whose names differ and rise.
pub open spec fn holds_members(
    entries: Seq<(&String, &Value)>,
    members: Seq<(Seq<char>, Json)>,
) -> bool {
    &&& entries.len() == members.len()
    &&& forall|i: int|
        0 <= i < members.len() ==> {
            &&& (#[trigger] entries[i]).0@ == members[i].0
            &&& json_of(*entries[i].1) == members[i].1
        }
    &&& forall|i: int, j: int|
        0 <= i < j < members.len() ==> {
            &&& (#[trigger] members[i]).0 != (#[trigger] members[j]).0
            &&& name_before(members[i].0, members[j].0)
        }
}

/// `serde_json::from_str` is trusted to read a text to a value that depends on the text alone, or
/// to refuse it. Which texts are JSON, and what they hold, is left unsaid.
#[verifier::external_body]
pub(crate) fn parse(text: &str) -> (r: Result<Value, serde_json::Error>)
    ensures
        match r {
            Ok(v) => parsed(text@) == Some(json_of(v)),
            Err(_) => parsed(text@) is None,
        },
{
    serde_json::from_str(text)
}

/// Indexing a `serde_json::Value` by a name is trusted to give the member with that name, and
/// `Null` where there is no such member or no object.
#[verifier::external_body]
pub(crate) fn member<'a>(v: &'a Value, name: &str) -> (r: &'a Value)
    ensures
        json_of(*r) == member_of(json_of(*v), name@),
{
    &v[name]
}

/// `serde_json::Value::as_array` is trusted to give the items of an array, and nothing else.
#[verifier::external_body]
pub(crate) fn items<'a>(v: &'a Value) -> (r: Option<&'a Vec<Value>>)
    ensures
        match r {
            Some(values) => json_of(*v) is Array && holds_items(values@, json_of(*v)->Array_0),
            None => !(json_of(*v) is Array),
        },
{
    v.as_array()
}

/// `serde_json::Value::as_object` and `Map::iter` are trusted to give the members of an object, in
/// the order in which it is walked, no two with one name, and nothing else. The map is a `BTreeMap`
/// with strings for keys, so the names rise in the order of strings.
#[verifier::external_body]
pub(crate) fn members<'a>(v: &'a Value) -> (r: Option<Vec<(&'a String, &'a Value)>>)
    ensures
        match r {
            Some(entries) => json_of(*v) is Object && holds_members(
                entries@,
                json_of(*v)->Object_0,
            ),
            None => !(json_of(*v) is Object),
        },
{
    v.as_object().map(|map| map.iter().collect())
}

/// `serde_json::Value::as_str` is trusted to give the characters of a string, and nothing else.
#[verifier::external_body]
pub(crate) fn text_of<'a>(v: &'a Value) -> (r: Option<&'a str>)
    ensures
        match r {
            Some(text) => json_of(*v) == Json::Text(text@),
            None => !(json_of(*v) is Text),
        },
{
    v.as_str()
}

/// `serde_json::Value::as_u64` is trusted to give a number that is an integer and not negative,
/// and nothing else.
#[verifier::external_body]
pub(crate) fn unsigned(v: &Value) -> (r: Option<u64>)
    ensures
        match r {
            Some(n) => json_of(*v) == Json::Unsigned(n),
            None => !(json_of(*v) is Unsigned),
        },
{
    v.as_u64()
}

/// `serde_json::Value::as_f64` is trusted to give each number as a double, and the cast to cut
/// that to its whole part and to the range of the integer type. An integer up to
/// [`EXACT_LIMIT`] comes back unchanged and a negative one as zero; a greater one is rounded, but
/// not to less than the limit. How it is rounded, and what the bits of a double stand for, is left
/// unsaid.
#[verifier::external_body]
pub(crate) fn whole(v: &Value) -> (r: Option<u64>)
    ensures
        r == match json_of(*v) {
            Json::Unsigned(n) => Some(
                if n <= EXACT_LIMIT {
                    n
                } else {
                    rounded(n)
                },
            ),
            Json::Negative(_) => Some(0),
            Json::Float(bits) => Some(truncated(bits)),
            _ => None,
        },
        match r {
            Some(n) => json_of(*v) is Unsigned && json_of(*v)->Unsigned_0 > EXACT_LIMIT ==> n
                >= EXACT_LIMIT,
            None => true,
        },
{
    v.as_f64().map(|number| number as u64)
}

/// What is said of bytes that are no text.
pub open spec fn not_text() -> Seq<char> {
    "json cannot convert to string."@
}

/// What is said of a text that is no JSON.
pub open spec fn not_json() -> Seq<char> {
    "json String cannot convert to json format."@
}

/// Reads bytes as JSON.
pub fn raw_to_json(raw: &[u8]) -> (r: Result<Value, String>)
    ensures
        match r {
            Ok(v) => valid_utf8(raw@) && parsed(decode_utf8(raw@)) == Some(json_of(v)),
            Err(e) => if valid_utf8(raw@) {
                parsed(decode_utf8(raw@)) is None && e@ == not_json()
            } else {
                e@ == not_text()
            },
        },
{
    match utf8_text(raw) {
        Ok(text) => {
            proof {
                vstd::utf8::encode_utf8_decode_utf8(text@);
            }
            match parse(text) {
                Ok(v) => Ok(v),
                Err(_) => Err("json String cannot convert to json format.".to_owned()),
            }
        },
        Err(_) => Err("json cannot convert to string.".to_owned()),
    }
}

/// A number of a JSON value as a `u32`, cut to its whole part and to the range of the type.
pub open spec fn whole_u32(j: Json) -> Option<u32> {
    match whole_of(j) {
        Some(n) => Some(
            if n <= u32::MAX {
                n as u32
            } else {
                u32::MAX
            },
        ),
        None => None,
    }
}

pub(crate) fn as_u32(v: &Value) -> (r: Option<u32>)
    ensures
        r == whole_u32(json_of(*v)),
{
    match whole(v) {
        Some(n) => {
            if n <= u32::MAX as u64 {
                Some(n as u32)
            } else {
                Some(u32::MAX)
            }
        },
        None => None,
    }
}

/// A number of a JSON value as a `usize`, cut to its whole part and to the range of the type.
pub open spec fn whole_usize(j: Json) -> Option<usize> {
    match whole_of(j) {
        Some(n) => Some(
            if n <= usize::MAX {
                n as usize
            } else {
                usize::MAX
            },
        ),
        None => None,
    }
}

pub(crate) fn as_usize(v: &Value) -> (r: Option<usize>)
    ensures
        r == whole_usize(json_of(*v)),
{
    match whole(v) {
        Some(n) => {
            if n <= usize::MAX as u64 {
                Some(n as usize)
            } else {
                Some(usize::MAX)
            }
        },
        None => None,
    }
}

} // verus!
