//! JSON values, read and built through `serde_json`.
use vstd::prelude::*;

use crate::text::{signed_decimal, text_before};

verus! {

#[verifier::external_type_specification]
#[verifier::external_body]
pub struct ExJsonValue(serde_json::Value);

/// What a JSON value holds. A number is its JSON text; an object's members stand in key
/// order.
pub enum Shape {
    Null,
    Bool(bool),
    Number(Seq<char>),
    Text(Seq<char>),
    Array(Seq<Shape>),
    Object(Seq<(Seq<char>, Shape)>),
}

/// What a JSON value holds.
pub uninterp spec fn json_shape(value: &serde_json::Value) -> Shape;

/// What `serde_json::from_str` reads from a text; nothing where the text is not JSON.
pub uninterp spec fn json_parsed(text: Seq<char>) -> Option<Shape>;

/// The JSON text of a value: what `to_string` writes.
pub uninterp spec fn json_written(shape: Shape) -> Seq<char>;

/// What the values of a list hold.
pub open spec fn shapes(values: Seq<serde_json::Value>) -> Seq<Shape> {
    values.map_values(|value: serde_json::Value| json_shape(&value))
}

/// What the members of an object hold.
pub open spec fn members(entries: Seq<(String, serde_json::Value)>) -> Seq<(Seq<char>, Shape)> {
    entries.map_values(|entry: (String, serde_json::Value)| (entry.0@, json_shape(&entry.1)))
}

/// The members with `key` set to `value`, in its place by key.
pub open spec fn put(
    entries: Seq<(Seq<char>, Shape)>,
    key: Seq<char>,
    value: Shape,
) -> Seq<(Seq<char>, Shape)>
    decreases entries.len(),
{
    if entries.len() == 0 {
        seq![(key, value)]
    } else if entries[0].0 == key {
        seq![(key, value)] + entries.drop_first()
    } else if text_before(key, entries[0].0) {
        seq![(key, value)] + entries
    } else {
        seq![entries[0]] + put(entries.drop_first(), key, value)
    }
}

/// Members in key order, the last of each key.
pub open spec fn keyed(entries: Seq<(Seq<char>, Shape)>) -> Seq<(Seq<char>, Shape)>
    decreases entries.len(),
{
    if entries.len() == 0 {
        entries
    } else {
        put(keyed(entries.drop_last()), entries.last().0, entries.last().1)
    }
}

/// The outermost level of a JSON value, as field extraction reads it.
pub enum Node {
    Null,
    Text(String),
    Object(Vec<(String, serde_json::Value)>),
    /// A boolean, a number or an array, as it is.
    Whole(serde_json::Value),
}

impl Node {
    /// Whether this is the outermost level of a value that holds `shape`.
    pub open spec fn opens(self, shape: Shape) -> bool {
        match self {
            Node::Null => shape is Null,
            Node::Text(text) => shape == Shape::Text(text@),
            Node::Object(entries) => shape == Shape::Object(members(entries@)),
            Node::Whole(value) => (shape is Bool || shape is Number || shape is Array)
                && json_shape(&value) == shape,
        }
    }
}

// ---------------------------------------------------------------------------
// Reading
// ---------------------------------------------------------------------------

/// `serde_json::from_str::<Value>`: the value that `text` writes, if it writes one, as a
/// function of the text alone.
#[verifier::external_body]
pub(crate) fn parse_json(text: &str) -> (value: Option<serde_json::Value>)
    ensures
        json_parsed(text@) == (match value {
            Some(value) => Some(json_shape(&value)),
            None => None,
        }),
{
    serde_json::from_str::<serde_json::Value>(text).ok()
}

/// Tells the variants of a `serde_json::Value` apart: `null`, a string's text, an object's
/// members in the order in which its map holds them; a boolean, a number or an array is
/// handed back as it is.
#[verifier::external_body]
pub(crate) fn open_json(value: serde_json::Value) -> (node: Node)
    ensures
        node.opens(json_shape(&value)),
{
    match value {
        serde_json::Value::Null => Node::Null,
        serde_json::Value::String(text) => Node::Text(text),
        serde_json::Value::Object(map) => Node::Object(map.into_iter().collect()),
        serde_json::Value::Bool(flag) => Node::Whole(serde_json::Value::Bool(flag)),
        serde_json::Value::Number(number) => Node::Whole(serde_json::Value::Number(number)),
        serde_json::Value::Array(values) => Node::Whole(serde_json::Value::Array(values)),
    }
}

/// `Value::to_string`: the JSON text of a value, which depends on what it holds alone.
#[verifier::external_body]
pub(crate) fn json_to_text(value: &serde_json::Value) -> (text: String)
    ensures
        text@ == json_written(json_shape(value)),
{
    value.to_string()
}

/// `Value::clone`: a value that holds the same.
#[verifier::external_body]
pub(crate) fn json_copy(value: &serde_json::Value) -> (copy: serde_json::Value)
    ensures
        json_shape(&copy) == json_shape(value),
{
    value.clone()
}

// ---------------------------------------------------------------------------
// Building
// ---------------------------------------------------------------------------

/// `Value::Null`.
#[verifier::external_body]
pub(crate) fn json_null() -> (value: serde_json::Value)
    ensures
        json_shape(&value) == Shape::Null,
{
    serde_json::Value::Null
}

/// `Value::Bool`.
#[verifier::external_body]
pub(crate) fn json_bool(flag: bool) -> (value: serde_json::Value)
    ensures
        json_shape(&value) == Shape::Bool(flag),
{
    serde_json::Value::Bool(flag)
}

/// `Value::from` on an `i64`: the number, which JSON writes in decimal, with a minus in front
/// where it is negative.
#[verifier::external_body]
pub(crate) fn json_number(n: i64) -> (value: serde_json::Value)
    ensures
        json_shape(&value) == Shape::Number(signed_decimal(n as int)),
{
    serde_json::Value::from(n)
}

/// `Value::String`.
#[verifier::external_body]
pub(crate) fn json_string(text: String) -> (value: serde_json::Value)
    ensures
        json_shape(&value) == Shape::Text(text@),
{
    serde_json::Value::String(text)
}

/// `Value::Array`: the values in order.
#[verifier::external_body]
pub(crate) fn json_array(values: Vec<serde_json::Value>) -> (value: serde_json::Value)
    ensures
        json_shape(&value) == Shape::Array(shapes(values@)),
{
    serde_json::Value::Array(values)
}

/// `Value::Object` of a `serde_json::Map` collected from the entries: a map in key order
/// (the crate's `preserve_order` feature is off), in which the last entry of a key stays.
#[verifier::external_body]
pub(crate) fn json_object(entries: Vec<(String, serde_json::Value)>) -> (value: serde_json::Value)
    ensures
        json_shape(&value) == Shape::Object(keyed(members(entries@))),
{
    serde_json::Value::Object(entries.into_iter().collect())
}

/// `members` of a list with one more entry.
pub proof fn lemma_members_push(
    entries: Seq<(String, serde_json::Value)>,
    entry: (String, serde_json::Value),
)
    ensures
        members(entries.push(entry)) == members(entries).push((entry.0@, json_shape(&entry.1))),
{
    assert(members(entries.push(entry)) =~= members(entries).push(
        (entry.0@, json_shape(&entry.1)),
    ));
}

} // verus!
