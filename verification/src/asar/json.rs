//! The JSON directory tree of an asar header, as the library holds it.
//!
//! Objects keep their members in the order in which they were read; keys are
//! unique within an object.

use vstd::prelude::*;

use crate::text::str_eq;

verus! {

/// A JSON number: a non-negative integer, a negative integer, or any other
/// number kept as its decimal text.
#[derive(Debug, Clone)]
pub enum JsonNumber {
    Unsigned(u64),
    Negative(i64),
    Float(String),
}

/// A JSON value.
#[derive(Debug)]
pub enum JsonValue {
    Null,
    Bool(bool),
    Number(JsonNumber),
    Str(String),
    Array(Vec<JsonValue>),
    Object(Vec<(String, JsonValue)>),
}

/// The value stored under `key` in the members `m` (the first one, should a
/// key occur twice).
pub open spec fn member(m: Seq<(String, JsonValue)>, key: Seq<char>) -> Option<JsonValue>
    decreases m.len(),
{
    if m.len() == 0 {
        None
    } else if m[0].0@ == key {
        Some(m[0].1)
    } else {
        member(m.drop_first(), key)
    }
}

/// Index of the first member of `m` whose key is `key`.
pub open spec fn member_index(m: Seq<(String, JsonValue)>, key: Seq<char>) -> Option<int>
    decreases m.len(),
{
    if m.len() == 0 {
        None
    } else if m[0].0@ == key {
        Some(0)
    } else {
        match member_index(m.drop_first(), key) {
            Some(i) => Some(i + 1),
            None => None,
        }
    }
}

/// Keys of an object, in order.
pub open spec fn keys(m: Seq<(String, JsonValue)>) -> Seq<Seq<char>> {
    m.map_values(|e: (String, JsonValue)| e.0@)
}

/// No key occurs twice in `m`.
pub open spec fn keys_unique(m: Seq<(String, JsonValue)>) -> bool {
    forall|i: int, j: int| 0 <= i < j < m.len() ==> m[i].0@ != m[j].0@
}

pub proof fn lemma_member_index(m: Seq<(String, JsonValue)>, key: Seq<char>)
    ensures
        member_index(m, key) matches Some(i) ==> 0 <= i < m.len() && m[i].0@ == key && member(
            m,
            key,
        ) == Some(m[i].1) && forall|j: int| 0 <= j < i ==> m[j].0@ != key,
        member_index(m, key) is None ==> member(m, key) is None && forall|j: int|
            0 <= j < m.len() ==> m[j].0@ != key,
    decreases m.len(),
{
    if m.len() > 0 && m[0].0@ != key {
        lemma_member_index(m.drop_first(), key);
        assert forall|j: int| 1 <= j < m.len() implies m[j] == m.drop_first()[j - 1] by {}
    }
}

/// Position of the member `key` in `m`.
pub fn find_member(m: &Vec<(String, JsonValue)>, key: &str) -> (r: Option<usize>)
    ensures
        r matches Some(i) ==> member_index(m@, key@) == Some(i as int),
        r is None ==> member_index(m@, key@) is None,
{
    let mut i: usize = 0;
    while i < m.len()
        invariant
            i <= m.len(),
            forall|j: int| 0 <= j < i ==> m@[j].0@ != key@,
        decreases m.len() - i,
    {
        if str_eq(m[i].0.as_str(), key) {
            proof {
                lemma_member_index(m@, key@);
            }
            return Some(i);
        }
        i += 1;
    }
    proof {
        lemma_member_index(m@, key@);
    }
    None
}

/// The value stored under `key` in `m`.
pub fn get_member<'a>(m: &'a Vec<(String, JsonValue)>, key: &str) -> (r: Option<&'a JsonValue>)
    ensures
        match member(m@, key@) {
            Some(v) => r matches Some(w) && *w == v,
            None => r is None,
        },
{
    proof {
        lemma_member_index(m@, key@);
    }
    match find_member(m, key) {
        Some(i) => Some(&m[i].1),
        None => None,
    }
}

/// The mathematical value of a JSON tree.
pub enum Json {
    Null,
    Bool(bool),
    Unsigned(u64),
    Negative(i64),
    Float(Seq<char>),
    Str(Seq<char>),
    Array(Seq<Json>),
    Object(Seq<(Seq<char>, Json)>),
}

pub open spec fn jview(v: JsonValue) -> Json
    decreases v,
{
    match v {
        JsonValue::Null => Json::Null,
        JsonValue::Bool(b) => Json::Bool(b),
        JsonValue::Number(JsonNumber::Unsigned(n)) => Json::Unsigned(n),
        JsonValue::Number(JsonNumber::Negative(n)) => Json::Negative(n),
        JsonValue::Number(JsonNumber::Float(s)) => Json::Float(s@),
        JsonValue::Str(s) => Json::Str(s@),
        JsonValue::Array(items) => Json::Array(aview(items@)),
        JsonValue::Object(m) => Json::Object(mview(m@)),
    }
}

/// The view of the items of an array.
pub open spec fn aview(items: Seq<JsonValue>) -> Seq<Json>
    decreases items,
{
    Seq::new(
        items.len(),
        |i: int|
            if 0 <= i < items.len() {
                jview(items[i])
            } else {
                Json::Null
            },
    )
}

/// The view of the members of an object.
pub open spec fn mview(m: Seq<(String, JsonValue)>) -> Seq<(Seq<char>, Json)>
    decreases m,
{
    Seq::new(
        m.len(),
        |i: int|
            if 0 <= i < m.len() {
                (m[i].0@, jview(m[i].1))
            } else {
                (Seq::empty(), Json::Null)
            },
    )
}

} // verus!
