//! A parsed JSON document as plain values, and lookups on its objects.
use vstd::prelude::*;
use crate::config::ParseError;
use crate::text::str_eq;

verus! {

/// A JSON value. A number is kept as the unsigned integer it denotes, or
/// `None` when it denotes none (negative, fractional or too large).
pub enum Json {
    Null,
    Bool(bool),
    Number(Option<u64>),
    Text(String),
    Array(Vec<Json>),
    Object(Vec<(String, Json)>),
}

/// The index of the first member of `members` named `key`.
pub open spec fn member_index(members: Seq<(String, Json)>, key: Seq<char>) -> Option<nat>
    decreases members.len(),
{
    if members.len() == 0 {
        None
    } else if members[0].0@ == key {
        Some(0)
    } else {
        match member_index(members.drop_first(), key) {
            Some(j) => Some(j + 1),
            None => None,
        }
    }
}

proof fn lemma_member_index(members: Seq<(String, Json)>, key: Seq<char>)
    ensures
        member_index(members, key) matches Some(j) ==> j < members.len() && members[j as int].0@
            == key && forall|k: int| 0 <= k < j ==> members[k].0@ != key,
        member_index(members, key) is None ==> forall|k: int|
            0 <= k < members.len() ==> members[k].0@ != key,
    decreases members.len(),
{
    if members.len() > 0 {
        lemma_member_index(members.drop_first(), key);
        if members[0].0@ != key {
            assert forall|k: int| 1 <= k < members.len() implies members[k] == members.drop_first()[k
                - 1] by {}
        }
    }
}

/// Where the first member named `key` is, and that no earlier one has that name.
pub proof fn lemma_member_index_pub(members: Seq<(String, Json)>, key: Seq<char>)
    ensures
        member_index(members, key) matches Some(j) ==> j < members.len() && members[j as int].0@
            == key,
{
    lemma_member_index(members, key);
}

/// The value of the member named `key`.
pub fn get<'a>(members: &'a Vec<(String, Json)>, key: &str) -> (r: Option<&'a Json>)
    ensures
        r is Some == member_index(members@, key@) is Some,
        r matches Some(v) ==> *v == members@[member_index(members@, key@)->0 as int].1,
{
    proof {
        lemma_member_index(members@, key@);
    }
    let mut i: usize = 0;
    while i < members.len()
        invariant
            i <= members@.len(),
            forall|k: int| 0 <= k < i ==> members@[k].0@ != key@,
        decreases members.len() - i,
    {
        if str_eq(members[i].0.as_str(), key) {
            proof {
                lemma_member_index(members@, key@);
                match member_index(members@, key@) {
                    Some(j) => {
                        if j < i {
                            assert(members@[j as int].0@ != key@);
                        }
                        if j > i {
                            assert(members@[i as int].0@ != key@);
                        }
                    },
                    None => {
                        assert(members@[i as int].0@ != key@);
                    },
                }
            }
            return Some(&members[i].1);
        }
        i = i + 1;
    }
    proof {
        lemma_member_index(members@, key@);
        match member_index(members@, key@) {
            Some(j) => {
                assert(members@[j as int].0@ != key@);
            },
            None => {},
        }
    }
    None
}

/// The value of member `key`, as [`get`] finds it.
pub open spec fn get_spec(members: Seq<(String, Json)>, key: Seq<char>) -> Option<Json> {
    match member_index(members, key) {
        Some(j) => Some(members[j as int].1),
        None => None,
    }
}

/// The value of member `key` of `m`, looked up in a way that shows it is a
/// part of `m`.
pub open spec fn member_value(m: Vec<(String, Json)>, key: Seq<char>) -> Option<Json> {
    match member_index(m@, key) {
        Some(j) => if j < m@.len() {
            Some(m@[j as int].1)
        } else {
            None
        },
        None => None,
    }
}

/// The value of `key` if it is a string; where it is absent, `default`.
pub open spec fn text_prop(members: Seq<(String, Json)>, key: Seq<char>, default: Option<
    Seq<char>,
>) -> Option<Option<Seq<char>>> {
    match member_index(members, key) {
        Some(j) => match members[j as int].1 {
            Json::Text(s) => Some(Some(s@)),
            _ => None,
        },
        None => Some(default),
    }
}

/// The value of `key` if it is an unsigned integer; where it is absent, `default`.
pub open spec fn uint_prop(members: Seq<(String, Json)>, key: Seq<char>, default: Option<u64>) -> Option<
    Option<u64>,
> {
    match member_index(members, key) {
        Some(j) => match members[j as int].1 {
            Json::Number(Some(n)) => Some(Some(n)),
            _ => None,
        },
        None => Some(default),
    }
}

/// The string member `prop`, which must be present.
pub fn str_from_json_prop<'a>(members: &'a Vec<(String, Json)>, prop: &'static str) -> (r: Result<
    &'a String,
    ParseError,
>)
    ensures
        r matches Ok(s) ==> text_prop(members@, prop@, None) == Some(Some(s@)),
        r matches Ok(s) ==> get_spec(members@, prop@) == Some(Json::Text(*s)),
        r matches Err(e) ==> (member_index(members@, prop@) is None && e == ParseError::RequiredPropMissing(prop))
            || (member_index(members@, prop@) is Some && text_prop(members@, prop@, None) is None
            && e == ParseError::NotAString(prop)),
        r is Err == (text_prop(members@, prop@, None) is None || text_prop(
            members@,
            prop@,
            None,
        ) == Some(None::<Seq<char>>)),
{
    match get(members, prop) {
        None => Err(ParseError::RequiredPropMissing(prop)),
        Some(Json::Text(s)) => Ok(s),
        Some(_) => Err(ParseError::NotAString(prop)),
    }
}

/// The string member `prop`, or `default` where it is absent.
pub fn str_from_opt_json_prop(members: &Vec<(String, Json)>, prop: &'static str, default: &str) -> (r: Result<
    String,
    ParseError,
>)
    ensures
        r matches Ok(s) ==> text_prop(members@, prop@, Some(default@)) == Some(Some(s@)),
        r matches Err(e) ==> text_prop(members@, prop@, Some(default@)) is None && e
            == ParseError::NotAString(prop),
        r is Err == text_prop(members@, prop@, Some(default@)) is None,
{
    match get(members, prop) {
        None => Ok(default.to_string()),
        Some(Json::Text(s)) => Ok(s.clone()),
        Some(_) => Err(ParseError::NotAString(prop)),
    }
}

/// The unsigned integer member `prop`, which must be present.
pub fn uint_from_json_prop(members: &Vec<(String, Json)>, prop: &'static str) -> (r: Result<
    u64,
    ParseError,
>)
    ensures
        r matches Ok(n) ==> uint_prop(members@, prop@, None) == Some(Some(n)),
        r matches Err(e) ==> (member_index(members@, prop@) is None && e == ParseError::RequiredPropMissing(prop))
            || (member_index(members@, prop@) is Some && uint_prop(members@, prop@, None) is None
            && e == ParseError::NotAnUnsignedInt(prop)),
        r is Err == (uint_prop(members@, prop@, None) is None || uint_prop(members@, prop@, None)
            == Some(None::<u64>)),
{
    match get(members, prop) {
        None => Err(ParseError::RequiredPropMissing(prop)),
        Some(Json::Number(Some(n))) => Ok(*n),
        Some(_) => Err(ParseError::NotAnUnsignedInt(prop)),
    }
}

/// The unsigned integer member `prop`, or `default` where it is absent.
pub fn uint_from_opt_json_prop(members: &Vec<(String, Json)>, prop: &'static str, default: u64) -> (r: Result<
    u64,
    ParseError,
>)
    ensures
        r matches Ok(n) ==> uint_prop(members@, prop@, Some(default)) == Some(Some(n)),
        r matches Err(e) ==> uint_prop(members@, prop@, Some(default)) is None && e
            == ParseError::NotAnUnsignedInt(prop),
        r is Err == uint_prop(members@, prop@, Some(default)) is None,
{
    match get(members, prop) {
        None => Ok(default),
        Some(Json::Number(Some(n))) => Ok(*n),
        Some(_) => Err(ParseError::NotAnUnsignedInt(prop)),
    }
}

} // verus!
