//! JSON documents as the library reads them: a value tree parsed by
//! serde_json, and the lookups the provider answers are read with (a missing
//! key or index reads as null, as in serde_json's indexing).
use crate::text::compare_text;
use vstd::prelude::*;

verus! {

/// serde_json's `Value`, known to Verus only as an opaque value; it is
/// converted into `JsonValue` as soon as it is parsed.
#[verifier::external_type_specification]
#[verifier::external_body]
pub struct ExSerdeJsonValue(serde_json::Value);

/// A JSON value; numbers keep their text, objects their entries in the order
/// serde_json gives them.
#[derive(Debug)]
pub enum JsonValue {
    Null,
    Bool(bool),
    Number(String),
    Text(String),
    Array(Vec<JsonValue>),
    Object(Vec<(String, JsonValue)>),
}

/// What serde_json makes of a document: its value, or the text of its error.
pub uninterp spec fn json_parse(raw: Seq<char>) -> Result<JsonValue, Seq<char>>;

/// Calls `serde_json::from_str::<serde_json::Value>` and converts the value
/// (or the error's text); the result depends on the text alone.
#[verifier::external_body]
pub(crate) fn parse_json(raw: &str) -> (r: Result<JsonValue, String>)
    ensures
        match r {
            Ok(v) => json_parse(raw@) == Ok::<JsonValue, Seq<char>>(v),
            Err(m) => json_parse(raw@) == Err::<JsonValue, Seq<char>>(m@),
        },
{
    match serde_json::from_str::<serde_json::Value>(raw) {
        Ok(value) => Ok(from_serde(value)),
        Err(error) => Err(error.to_string()),
    }
}

/// Converts a serde_json value variant by variant (numbers by their text).
#[verifier::external_body]
fn from_serde(value: serde_json::Value) -> JsonValue {
    match value {
        serde_json::Value::Null => JsonValue::Null,
        serde_json::Value::Bool(b) => JsonValue::Bool(b),
        serde_json::Value::Number(n) => JsonValue::Number(n.to_string()),
        serde_json::Value::String(s) => JsonValue::Text(s),
        serde_json::Value::Array(items) => JsonValue::Array(items.into_iter().map(from_serde).collect()),
        serde_json::Value::Object(map) => JsonValue::Object(
            map.into_iter().map(|(k, v)| (k, from_serde(v))).collect(),
        ),
    }
}

/// The entry for `key` among an object's entries, if any.
pub open spec fn entry_for(entries: Seq<(String, JsonValue)>, key: Seq<char>) -> Option<JsonValue>
    decreases entries.len(),
{
    if entries.len() == 0 {
        None
    } else if entries[0].0@ == key {
        Some(entries[0].1)
    } else {
        entry_for(entries.drop_first(), key)
    }
}

/// `value[key]`: the member of an object, else null.
pub open spec fn member(value: JsonValue, key: Seq<char>) -> JsonValue {
    match value {
        JsonValue::Object(entries) => match entry_for(entries@, key) {
            Some(v) => v,
            None => JsonValue::Null,
        },
        _ => JsonValue::Null,
    }
}

/// `value[index]`: the element of an array, else null.
pub open spec fn element(value: JsonValue, index: int) -> JsonValue {
    match value {
        JsonValue::Array(items) => if 0 <= index < items@.len() {
            items@[index]
        } else {
            JsonValue::Null
        },
        _ => JsonValue::Null,
    }
}

/// The text of a string value.
pub open spec fn text_of(value: JsonValue) -> Option<Seq<char>> {
    match value {
        JsonValue::Text(s) => Some(s@),
        _ => None,
    }
}

/// The items of an array value.
pub open spec fn items_of(value: JsonValue) -> Option<Seq<JsonValue>> {
    match value {
        JsonValue::Array(items) => Some(items@),
        _ => None,
    }
}

impl JsonValue {
    /// `self[key]`.
    pub fn get(&self, key: &str) -> (r: &JsonValue)
        ensures
            *r == member(*self, key@),
    {
        match self {
            JsonValue::Object(entries) => {
                let mut i: usize = 0;
                assert(entries@.skip(0) == entries@);
                while i < entries.len()
                    invariant
                        i <= entries@.len(),
                        member(*self, key@) == match entry_for(entries@, key@) {
                            Some(v) => v,
                            None => JsonValue::Null,
                        },
                        entry_for(entries@, key@) == entry_for(entries@.skip(i as int), key@),
                    decreases entries.len() - i,
                {
                    assert(entries@.skip(i as int).drop_first() == entries@.skip(i + 1));
                    assert(entries@.skip(i as int)[0] == entries@[i as int]);
                    if compare_text(entries[i].0.as_str(), key) == 0 {
                        return &entries[i].1;
                    }
                    i = i + 1;
                }
                &JsonValue::Null
            },
            _ => &JsonValue::Null,
        }
    }

    /// `self[index]`.
    pub fn at(&self, index: usize) -> (r: &JsonValue)
        ensures
            *r == element(*self, index as int),
    {
        match self {
            JsonValue::Array(items) => if index < items.len() {
                &items[index]
            } else {
                &JsonValue::Null
            },
            _ => &JsonValue::Null,
        }
    }

    /// The text of a string value.
    pub fn as_text(&self) -> (r: Option<&String>)
        ensures
            match r {
                Some(s) => text_of(*self) == Some(s@),
                None => text_of(*self) is None,
            },
    {
        match self {
            JsonValue::Text(s) => Some(s),
            _ => None,
        }
    }

    /// The items of an array value.
    pub fn as_items(&self) -> (r: Option<&Vec<JsonValue>>)
        ensures
            match r {
                Some(v) => items_of(*self) == Some(v@),
                None => items_of(*self) is None,
            },
    {
        match self {
            JsonValue::Array(items) => Some(items),
            _ => None,
        }
    }
}

} // verus!
