use serde_json::Value;
use vstd::prelude::*;

verus! {

#[verifier::external_type_specification]
#[verifier::external_body]
pub struct ExValue(Value);

#[verifier::external_type_specification]
#[verifier::external_body]
pub struct ExJsonError(serde_json::Error);

/// What a JSON value holds.
pub enum Json {
    Null,
    Bool(bool),
    /// A number: as it is written, and, where it is a whole number from 0
    /// up that fits 64 bits, that number.
    Number { written: Seq<char>, unsigned: Option<u64> },
    Text(Seq<char>),
    Array(Seq<Json>),
    /// An object: its keys with their values, in the order in which the
    /// object hands them out. No key comes twice.
    Object(Seq<(Seq<char>, Json)>),
}

/// What the value holds.
pub uninterp spec fn json_of(value: Value) -> Json;

/// What the text holds, read as JSON; nothing where it is not JSON.
pub uninterp spec fn json_parsed(text: Seq<char>) -> Option<Json>;

/// The text that a value is written as, without blanks between its parts.
pub uninterp spec fn json_written(json: Json) -> Seq<char>;

/// The value under the key in the entries of an object.
pub open spec fn entry_of(entries: Seq<(Seq<char>, Json)>, key: Seq<char>) -> Option<Json>
    decreases entries.len(),
{
    if entries.len() == 0 {
        None
    } else if entries[0].0 == key {
        Some(entries[0].1)
    } else {
        entry_of(entries.skip(1), key)
    }
}

/// The value under the key, where the value is an object that has the key.
pub open spec fn member(json: Json, key: Seq<char>) -> Option<Json> {
    match json {
        Json::Object(entries) => entry_of(entries, key),
        _ => None,
    }
}

/// The value under the key, or null.
pub open spec fn member_or_null(json: Json, key: Seq<char>) -> Json {
    match member(json, key) {
        Some(inner) => inner,
        None => Json::Null,
    }
}

/// The text of the value, where it is a text.
pub open spec fn text_of(json: Json) -> Option<Seq<char>> {
    match json {
        Json::Text(text) => Some(text),
        _ => None,
    }
}

/// The number that the digit stands for.
pub open spec fn digit_value(c: char) -> nat {
    (c as u32 - '0' as u32) as nat
}

/// The character is a decimal digit.
pub open spec fn is_digit(c: char) -> bool {
    '0' as u32 <= c as u32 <= '9' as u32
}

/// The number that the digits stand for; nothing where there is none or one
/// of them is no digit.
pub open spec fn digits_value(text: Seq<char>) -> Option<nat>
    decreases text.len(),
{
    if text.len() == 0 || !is_digit(text.last()) {
        None
    } else if text.len() == 1 {
        Some(digit_value(text.last()))
    } else {
        match digits_value(text.drop_last()) {
            Some(n) => Some(n * 10 + digit_value(text.last())),
            None => None,
        }
    }
}

/// The number that the text stands for: decimal digits, with a plus sign
/// before them or without.
pub open spec fn number_of(text: Seq<char>) -> Option<nat> {
    if text.len() > 0 && text[0] == '+' {
        digits_value(text.skip(1))
    } else {
        digits_value(text)
    }
}

/// `serde_json::from_str`.
#[verifier::external_body]
pub(crate) fn json_parse(text: &str) -> (parsed: Result<Value, serde_json::Error>)
    ensures
        parsed is Ok <==> json_parsed(text@) is Some,
        parsed matches Ok(value) ==> Some(json_of(value)) == json_parsed(text@),
{
    serde_json::from_str(text)
}

/// `Value::get` with a key: the value under the key, where the value is an
/// object that has the key.
#[verifier::external_body]
pub(crate) fn json_get<'a>(value: &'a Value, key: &str) -> (inner: Option<&'a Value>)
    ensures
        inner is Some <==> member(json_of(*value), key@) is Some,
        inner matches Some(found) ==> Some(json_of(*found)) == member(json_of(*value), key@),
{
    value.get(key)
}

/// Indexing a value with a key: the value under the key, or null where the
/// value is no object or has no such key.
#[verifier::external_body]
pub(crate) fn json_index<'a>(value: &'a Value, key: &str) -> (inner: &'a Value)
    ensures
        json_of(*inner) == member_or_null(json_of(*value), key@),
{
    &value[key]
}

/// `Value::as_str`: the text, where the value is a text.
#[verifier::external_body]
pub(crate) fn json_as_str<'a>(value: &'a Value) -> (text: Option<&'a str>)
    ensures
        text is Some <==> json_of(*value) is Text,
        text matches Some(inner) ==> json_of(*value) == Json::Text(inner@),
{
    value.as_str()
}

/// `Value::is_object`.
#[verifier::external_body]
pub(crate) fn json_is_object(value: &Value) -> (is: bool)
    ensures
        is == json_of(*value) is Object,
{
    value.is_object()
}

/// `Value::as_u64`: the number, where the value is a whole number from 0 up
/// that fits 64 bits.
#[verifier::external_body]
pub(crate) fn json_as_u64(value: &Value) -> (number: Option<u64>)
    ensures
        number == match json_of(*value) {
            Json::Number { unsigned, .. } => unsigned,
            _ => None,
        },
{
    value.as_u64()
}

/// `Value::as_array`: the items, where the value is an array.
#[verifier::external_body]
pub(crate) fn json_items<'a>(value: &'a Value) -> (items: Option<Vec<&'a Value>>)
    ensures
        items is Some <==> json_of(*value) is Array,
        items matches Some(list) ==> json_of(*value) == Json::Array(
            Seq::new(list@.len(), |i: int| json_of(*list@[i])),
        ),
{
    value.as_array().map(|items| items.iter().collect())
}

/// `Value::as_object`: the keys with their values, where the value is an
/// object, in the order in which the object hands them out.
#[verifier::external_body]
pub(crate) fn json_entries<'a>(value: &'a Value) -> (entries: Option<Vec<(&'a String, &'a Value)>>)
    ensures
        entries is Some <==> json_of(*value) is Object,
        entries matches Some(list) ==> json_of(*value) == Json::Object(
            Seq::new(list@.len(), |i: int| (list@[i].0@, json_of(*list@[i].1))),
        ),
{
    value.as_object().map(|entries| entries.iter().collect())
}

/// `Value::to_string`: the value written as JSON, without blanks between
/// its parts.
#[verifier::external_body]
pub(crate) fn json_to_text(value: &Value) -> (text: String)
    ensures
        text@ == json_written(json_of(*value)),
{
    value.to_string()
}

/// `str::eq`: two texts are the same where they hold the same characters.
#[verifier::external_body]
pub(crate) fn same_text(a: &str, b: &str) -> (same: bool)
    ensures
        same == (a@ == b@),
{
    a == b
}

/// `str::parse` to `u64`: the number that the text stands for, in decimal
/// digits with a plus sign before them or without, where it fits 64 bits.
#[verifier::external_body]
pub(crate) fn text_to_u64(text: &str) -> (number: Option<u64>)
    ensures
        number == match number_of(text@) {
            Some(n) => if n <= u64::MAX {
                Some(n as u64)
            } else {
                None
            },
            None => None,
        },
{
    text.parse::<u64>().ok()
}

/// `str::parse` to `u32`: the number that the text stands for, in decimal
/// digits with a plus sign before them or without, where it fits 32 bits.
#[verifier::external_body]
pub(crate) fn text_to_u32(text: &str) -> (number: Option<u32>)
    ensures
        number == match number_of(text@) {
            Some(n) => if n <= u32::MAX {
                Some(n as u32)
            } else {
                None
            },
            None => None,
        },
{
    text.parse::<u32>().ok()
}

} // verus!
