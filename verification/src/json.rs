//! Reading and building JSON values of the bridge.
use vstd::prelude::*;
use serde_json::Value;
use crate::double::Double;

verus! {

/// `serde_json::Value`: a JSON value, carried as it came from the bridge.
#[verifier::external_type_specification]
#[verifier::external_body]
pub struct ExValue(Value);

/// `serde_json::Map`: the fields of a JSON object.
#[verifier::external_type_specification]
#[verifier::external_body]
#[verifier::reject_recursive_types(K)]
#[verifier::reject_recursive_types(V)]
pub struct ExFields<K, V>(serde_json::Map<K, V>);

/// What an object's fields hold, by name.
pub uninterp spec fn fields(object: serde_json::Map<String, Value>) -> Map<Seq<char>, Value>;

/// What `serde_json::Value::get` gives for a field name: the field's value in an object that
/// has one, and nothing else.
pub uninterp spec fn member(value: Value, key: Seq<char>) -> Option<Value>;

/// What `serde_json::Value::as_str` gives: the characters of a string.
pub uninterp spec fn text_of(value: Value) -> Option<Seq<char>>;

/// What `serde_json::Value::as_f64` gives, by its bits: the binary64 value of a number.
pub uninterp spec fn number_of(value: Value) -> Option<u64>;

/// What `serde_json::Value::as_u64` gives: a number that is a whole one and fits.
pub uninterp spec fn count_of(value: Value) -> Option<u64>;

/// The field of a map, if it has it.
pub open spec fn lookup(object: Map<Seq<char>, Value>, key: Seq<char>) -> Option<Value> {
    if object.contains_key(key) {
        Some(object[key])
    } else {
        None
    }
}

/// The string in a field.
pub open spec fn text_in(value: Value, key: Seq<char>) -> Option<Seq<char>> {
    match member(value, key) {
        Some(field) => text_of(field),
        None => None,
    }
}

/// The number in a field.
pub open spec fn number_in(value: Value, key: Seq<char>) -> Option<Double> {
    match member(value, key) {
        Some(field) => match number_of(field) {
            Some(bits) => Some(Double { bits }),
            None => None,
        },
        None => None,
    }
}

/// The whole number in a field.
pub open spec fn count_in(value: Value, key: Seq<char>) -> Option<u64> {
    match member(value, key) {
        Some(field) => count_of(field),
        None => None,
    }
}

/// `serde_json::Value::get` with a field name. Claimed is that the result is a function of
/// the value and the name.
#[verifier::external_body]
pub(crate) fn get<'a>(value: &'a Value, key: &str) -> (r: Option<&'a Value>)
    ensures
        member(*value, key@) == match r {
            Some(field) => Some(*field),
            None => None::<Value>,
        },
{
    value.get(key)
}

/// `serde_json::Value::as_str`. Claimed is that the result is a function of the value.
#[verifier::external_body]
fn as_text<'a>(value: &'a Value) -> (r: Option<&'a str>)
    ensures
        text_of(*value) == match r {
            Some(text) => Some(text@),
            None => None::<Seq<char>>,
        },
{
    value.as_str()
}

/// `serde_json::Value::as_f64`, by its bits. Claimed is that the result is a function of the
/// value.
#[verifier::external_body]
fn as_number(value: &Value) -> (r: Option<u64>)
    ensures
        r == number_of(*value),
{
    value.as_f64().map(|number| number.to_bits())
}

/// `serde_json::Value::as_u64`. Claimed is that the result is a function of the value.
#[verifier::external_body]
fn as_count(value: &Value) -> (r: Option<u64>)
    ensures
        r == count_of(*value),
{
    value.as_u64()
}

/// The variant `serde_json::Value::Object`, taken apart. Claimed is that an object's fields
/// are those that `get` finds, and that `get` finds none in any other value.
#[verifier::external_body]
pub(crate) fn into_object(value: Value) -> (r: Option<serde_json::Map<String, Value>>)
    ensures
        r is Some ==> forall|key: Seq<char>| #[trigger]
            member(value, key) == lookup(fields(r->0), key),
        r is None ==> forall|key: Seq<char>| #[trigger] member(value, key) is None,
{
    match value {
        Value::Object(object) => Some(object),
        _ => None,
    }
}

/// The variant `serde_json::Value::Object`, put together. Claimed is that `get` finds the
/// fields given.
#[verifier::external_body]
pub(crate) fn from_object(object: serde_json::Map<String, Value>) -> (r: Value)
    ensures
        forall|key: Seq<char>| #[trigger] member(r, key) == lookup(fields(object), key),
{
    Value::Object(object)
}

/// `serde_json::Map::new`: an object without fields.
#[verifier::external_body]
pub(crate) fn no_fields() -> (r: serde_json::Map<String, Value>)
    ensures
        forall|key: Seq<char>| !(#[trigger] fields(r).contains_key(key)),
{
    serde_json::Map::new()
}

/// `serde_json::Map::insert`: sets one field and leaves the others.
#[verifier::external_body]
pub(crate) fn set_field(object: &mut serde_json::Map<String, Value>, key: String, value: Value)
    ensures
        fields(*final(object)) == fields(*old(object)).insert(key@, value),
{
    object.insert(key, value);
}

/// The variant `serde_json::Value::String`. Claimed is that `as_str` gives the text back.
#[verifier::external_body]
pub(crate) fn from_text(text: String) -> (r: Value)
    ensures
        text_of(r) == Some(text@),
{
    Value::String(text)
}

/// The string in a field.
pub fn text_at(value: &Value, key: &str) -> (r: Option<String>)
    ensures
        text_in(*value, key@) == match r {
            Some(text) => Some(text@),
            None => None::<Seq<char>>,
        },
{
    match get(value, key) {
        Some(field) => match as_text(field) {
            Some(text) => Some(text.to_owned()),
            None => None,
        },
        None => None,
    }
}

/// The number in a field.
pub fn number_at(value: &Value, key: &str) -> (r: Option<Double>)
    ensures
        r == number_in(*value, key@),
{
    match get(value, key) {
        Some(field) => match as_number(field) {
            Some(bits) => Some(Double::from_bits(bits)),
            None => None,
        },
        None => None,
    }
}

/// The whole number in a field.
pub fn count_at(value: &Value, key: &str) -> (r: Option<u64>)
    ensures
        r == count_in(*value, key@),
{
    match get(value, key) {
        Some(field) => as_count(field),
        None => None,
    }
}

} // verus!
