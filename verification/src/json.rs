//! JSON values, and the reading of a text as one.

use vstd::prelude::*;
use crate::float::Float;

verus! {

/// A JSON number: as an unsigned integer where it is one that fits 64 bits,
/// and as a binary64 number where it has one.
#[derive(Clone, Copy, Debug)]
pub struct Number {
    pub integer: Option<u64>,
    pub value: Option<Float>,
}

/// A JSON value. The members of an object stand in a list; where a name
/// occurs twice in it, the later member counts.
#[derive(Debug)]
pub enum Json {
    Null,
    Bool(bool),
    Number(Number),
    Text(String),
    Array(Vec<Json>),
    Object(Vec<(String, Json)>),
}

/// A JSON value as a mathematical tree.
pub enum JsonValue {
    Null,
    Bool(bool),
    Number(Number),
    Text(Seq<char>),
    Array(Seq<JsonValue>),
    Object(Seq<(Seq<char>, JsonValue)>),
}

/// A JSON value as a mathematical tree.
pub open spec fn value_of(j: Json) -> JsonValue
    decreases j,
{
    match j {
        Json::Null => JsonValue::Null,
        Json::Bool(b) => JsonValue::Bool(b),
        Json::Number(n) => JsonValue::Number(n),
        Json::Text(s) => JsonValue::Text(s@),
        Json::Array(items) => JsonValue::Array(
            Seq::new(
                items@.len(),
                |i: int|
                    if 0 <= i < items@.len() {
                        value_of(items@[i])
                    } else {
                        JsonValue::Null
                    },
            ),
        ),
        Json::Object(members) => JsonValue::Object(
            Seq::new(
                members@.len(),
                |i: int|
                    if 0 <= i < members@.len() {
                        (members@[i].0@, value_of(members@[i].1))
                    } else {
                        (Seq::<char>::empty(), JsonValue::Null)
                    },
            ),
        ),
    }
}

impl View for Json {
    type V = JsonValue;

    open spec fn view(&self) -> JsonValue {
        value_of(*self)
    }
}

/// What the last member named `key` holds.
pub open spec fn lookup(members: Seq<(Seq<char>, JsonValue)>, key: Seq<char>) -> Option<
    JsonValue,
>
    decreases members.len(),
{
    if members.len() == 0 {
        None
    } else if members.last().0 == key {
        Some(members.last().1)
    } else {
        lookup(members.drop_last(), key)
    }
}

impl JsonValue {
    /// What the member `key` of an object holds.
    pub open spec fn member(self, key: Seq<char>) -> Option<JsonValue> {
        match self {
            JsonValue::Object(members) => lookup(members, key),
            _ => None,
        }
    }

    /// The characters of a string.
    pub open spec fn text(self) -> Option<Seq<char>> {
        match self {
            JsonValue::Text(s) => Some(s),
            _ => None,
        }
    }

    /// A number that is an unsigned integer of 64 bits.
    pub open spec fn unsigned(self) -> Option<u64> {
        match self {
            JsonValue::Number(n) => n.integer,
            _ => None,
        }
    }

    /// A number as a binary64 number.
    pub open spec fn number(self) -> Option<Float> {
        match self {
            JsonValue::Number(n) => n.value,
            _ => None,
        }
    }

    /// The items of an array.
    pub open spec fn items(self) -> Option<Seq<JsonValue>> {
        match self {
            JsonValue::Array(items) => Some(items),
            _ => None,
        }
    }

    /// The members of an object.
    pub open spec fn members(self) -> Option<Seq<(Seq<char>, JsonValue)>> {
        match self {
            JsonValue::Object(members) => Some(members),
            _ => None,
        }
    }
}

/// The view of an array, and of an object, item by item.
pub proof fn lemma_view(j: Json)
    ensures
        match j {
            Json::Array(items) => j@ is Array && j@->Array_0.len() == items@.len() && (forall|
                i: int,
            |
                0 <= i < items@.len() ==> (#[trigger] j@->Array_0[i]) == items@[i]@),
            Json::Object(members) => j@ is Object && j@->Object_0.len() == members@.len()
                && (forall|i: int|
                0 <= i < members@.len() ==> (#[trigger] j@->Object_0[i]) == (
                    members@[i].0@,
                    members@[i].1@,
                )),
            _ => true,
        },
{
    reveal_with_fuel(value_of, 2);
}

impl Json {
    /// What the member `key` of an object holds.
    pub fn get(&self, key: &str) -> (r: Option<&Json>)
        ensures
            match r {
                Some(j) => self@.member(key@) == Some(j@),
                None => self@.member(key@) is None,
            },
    {
        match self {
            Json::Object(members) => {
                let owned: String = key.to_owned();
                let ghost all = self@->Object_0;
                let mut i: usize = members.len();
                proof {
                    lemma_view(*self);
                }
                assert(all.take(i as int) =~= all);
                while i > 0
                    invariant
                        i <= members@.len(),
                        all.len() == members@.len(),
                        self@ == JsonValue::Object(all),
                        *self == Json::Object(*members),
                        owned@ == key@,
                        lookup(all, key@) == lookup(all.take(i as int), key@),
                    decreases i,
                {
                    i = i - 1;
                    proof {
                        lemma_view(*self);
                        let before = all.take(i + 1);
                        assert(before.last() == all[i as int]);
                        assert(before.drop_last() =~= all.take(i as int));
                        assert(all[i as int] == (members@[i as int].0@, members@[i as int].1@));
                    }
                    if members[i].0 == owned {
                        return Some(&members[i].1);
                    }
                }
                None
            },
            _ => None,
        }
    }

    /// The string, where the value is one.
    pub fn as_text(&self) -> (r: Option<&String>)
        ensures
            match r {
                Some(s) => self@.text() == Some(s@),
                None => self@.text() is None,
            },
    {
        match self {
            Json::Text(s) => Some(s),
            _ => None,
        }
    }

    /// The number, where the value is an unsigned integer of 64 bits.
    pub fn as_u64(&self) -> (r: Option<u64>)
        ensures
            r == self@.unsigned(),
    {
        match self {
            Json::Number(n) => n.integer,
            _ => None,
        }
    }

    /// The number as a binary64 number, where the value is a number.
    pub fn as_number(&self) -> (r: Option<Float>)
        ensures
            r == self@.number(),
    {
        match self {
            Json::Number(n) => n.value,
            _ => None,
        }
    }

    /// The items, where the value is an array.
    pub fn as_array(&self) -> (r: Option<&Vec<Json>>)
        ensures
            match r {
                Some(items) => self@.items() == Some(items@.map_values(|j: Json| j@)),
                None => self@.items() is None,
            },
    {
        match self {
            Json::Array(items) => {
                proof {
                    lemma_view(*self);
                }
                assert(self@->Array_0 =~= items@.map_values(|j: Json| j@));
                Some(items)
            },
            _ => None,
        }
    }

    /// The members, where the value is an object.
    pub fn as_object(&self) -> (r: Option<&Vec<(String, Json)>>)
        ensures
            match r {
                Some(members) => self@.members() == Some(
                    members@.map_values(|m: (String, Json)| (m.0@, m.1@)),
                ),
                None => self@.members() is None,
            },
    {
        match self {
            Json::Object(members) => {
                proof {
                    lemma_view(*self);
                }
                assert(self@->Object_0 =~= members@.map_values(|m: (String, Json)| (m.0@, m.1@)));
                Some(members)
            },
            _ => None,
        }
    }
}

/// The value that a text is read as: `None` where the text is no JSON.
pub uninterp spec fn json_of_text(text: Seq<char>) -> Option<JsonValue>;

/// `serde_json::Value`, of which nothing is known here.
#[verifier::external_type_specification]
#[verifier::external_body]
pub struct ExValue(serde_json::Value);

/// `serde_json::Error`, of which nothing is known here.
#[verifier::external_type_specification]
#[verifier::external_body]
pub struct ExError(serde_json::Error);

/// `serde_json::Value` as a `Json`, variant by variant. A number is held by
/// what `Number::as_u64` and `Number::as_f64` return of it, the members of
/// an object in the order in which `Map::iter` hands them out.
#[verifier::external_body]
fn json_from_value(value: &serde_json::Value) -> (r: Json) {
    match value {
        serde_json::Value::Null => Json::Null,
        serde_json::Value::Bool(b) => Json::Bool(*b),
        serde_json::Value::Number(n) => Json::Number(
            Number { integer: n.as_u64(), value: n.as_f64().map(|x| Float { bits: x.to_bits() }) },
        ),
        serde_json::Value::String(s) => Json::Text(s.clone()),
        serde_json::Value::Array(a) => Json::Array(a.iter().map(json_from_value).collect()),
        serde_json::Value::Object(o) => Json::Object(
            o.iter().map(|(k, v)| (k.clone(), json_from_value(v))).collect(),
        ),
    }
}

/// `serde_json::from_str` for a `serde_json::Value`, the value then taken
/// variant by variant as a `Json`. The text alone decides the result, and
/// `json_of_text` names it; an error comes exactly where the text is no JSON.
#[verifier::external_body]
pub(crate) fn json_from_text(text: &str) -> (r: Result<Json, serde_json::Error>)
    ensures
        match r {
            Ok(j) => json_of_text(text@) == Some(j@),
            Err(_) => (json_of_text(text@) is None),
        },
{
    let value = serde_json::from_str::<serde_json::Value>(text)?;
    Ok(json_from_value(&value))
}

} // verus!
