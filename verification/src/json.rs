//! JSON documents as plain values, as far as the search reads them.

use vstd::prelude::*;
use crate::text::str_eq;

verus! {

/// A JSON value. A number is kept as the `u64` it writes, where it writes
/// one (a non-negative integer that fits); an object keeps its members in
/// order, each key once.
#[derive(Debug, PartialEq)]
pub enum Json {
    Null,
    Bool(bool),
    Number(Option<u64>),
    Str(String),
    Array(Vec<Json>),
    Object(Vec<(String, Json)>),
}

/// What `serde_json::from_str::<serde_json::Value>` reads from a text,
/// as a `Json`; `None` where the text is no JSON document.
pub uninterp spec fn json_of(text: Seq<char>) -> Option<Json>;

#[verifier::external_type_specification]
#[verifier::external_body]
pub struct ExJsonError(serde_json::Error);

#[verifier::external_type_specification]
#[verifier::external_body]
pub struct ExJsonValue(serde_json::Value);

/// Carries a `serde_json::Value` over into a `Json`, variant by variant;
/// a number becomes what `serde_json::Number::as_u64` gives for it.
/// Only `parse_json` calls it, and its result is what `json_of` names.
#[verifier::external_body]
fn json_from_value(v: serde_json::Value) -> Json {
    match v {
        serde_json::Value::Null => Json::Null,
        serde_json::Value::Bool(b) => Json::Bool(b),
        serde_json::Value::Number(n) => Json::Number(n.as_u64()),
        serde_json::Value::String(s) => Json::Str(s),
        serde_json::Value::Array(a) => Json::Array(a.into_iter().map(json_from_value).collect()),
        serde_json::Value::Object(m) => Json::Object(m.into_iter().map(|(k, x)| (k, json_from_value(x))).collect()),
    }
}

/// Calls `serde_json::from_str` to read a `serde_json::Value` and carries
/// it over into a `Json`. Claimed: the result is `Ok` exactly where the text
/// is a JSON document, and then is the value that `json_of` names; which
/// error comes otherwise is not stated.
#[verifier::external_body]
pub fn parse_json(text: &str) -> (r: Result<Json, serde_json::Error>)
    ensures
        match r {
            Ok(j) => json_of(text@) == Some(j),
            Err(_) => json_of(text@) is None,
        },
{
    match serde_json::from_str::<serde_json::Value>(text) {
        Ok(v) => Ok(json_from_value(v)),
        Err(e) => Err(e),
    }
}

/// The value of the first member named `key` among `members`.
pub open spec fn first_member(members: Seq<(String, Json)>, key: Seq<char>) -> Option<Json>
    decreases members.len(),
{
    if members.len() == 0 {
        None
    } else if members[0].0@ == key {
        Some(members[0].1)
    } else {
        first_member(members.drop_first(), key)
    }
}

/// The member `key` of an object; `None` for a value that is no object or
/// has no such member.
pub open spec fn member_of(j: Json, key: Seq<char>) -> Option<Json> {
    match j {
        Json::Object(members) => first_member(members@, key),
        _ => None,
    }
}

proof fn lemma_first_member_skip(members: Seq<(String, Json)>, key: Seq<char>, i: int)
    requires
        0 <= i <= members.len(),
        forall|j: int| 0 <= j < i ==> (#[trigger] members[j]).0@ != key,
    ensures
        first_member(members, key) == first_member(members.skip(i), key),
    decreases i,
{
    if i > 0 {
        assert(members.drop_first().skip(i - 1) =~= members.skip(i));
        assert forall|j: int| 0 <= j < i - 1 implies (#[trigger] members.drop_first()[j]).0@ != key by {
            assert(members.drop_first()[j] == members[j + 1]);
        }
        lemma_first_member_skip(members.drop_first(), key, i - 1);
    } else {
        assert(members.skip(0) =~= members);
    }
}

/// The member `key` of a JSON object.
pub fn member<'a>(j: &'a Json, key: &str) -> (r: Option<&'a Json>)
    ensures
        match r {
            Some(v) => member_of(*j, key@) == Some(*v),
            None => member_of(*j, key@) is None,
        },
{
    match j {
        Json::Object(members) => {
            let mut i: usize = 0;
            assert(member_of(*j, key@) == first_member(members@, key@));
            while i < members.len()
                invariant
                    member_of(*j, key@) == first_member(members@, key@),
                    i <= members@.len(),
                    forall|k: int| 0 <= k < i ==> (#[trigger] members@[k]).0@ != key@,
                decreases members.len() - i,
            {
                if str_eq(members[i].0.as_str(), key) {
                    proof {
                        lemma_first_member_skip(members@, key@, i as int);
                        let rest = members@.skip(i as int);
                        assert(rest[0] == members@[i as int]);
                        assert(rest[0].0@ == key@);
                        assert(first_member(rest, key@) == Some(rest[0].1));
                    }
                    return Some(&members[i].1);
                }
                i = i + 1;
            }
            proof {
                lemma_first_member_skip(members@, key@, i as int);
            }
            None
        },
        _ => None,
    }
}

} // verus!
