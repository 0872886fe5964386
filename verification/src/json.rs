//! JSON values as `serde_json` holds them, with the tree that each one stands for.
use vstd::prelude::*;
use vstd::string::*;

use crate::string_map;

verus! {

/// A JSON value as a tree of plain values.
pub enum JsonTree {
    Null,
    Bool(bool),
    Number(serde_json::Number),
    Text(Seq<char>),
    Array(Seq<JsonTree>),
    Object(Map<Seq<char>, JsonTree>),
}

/// A JSON value of `serde_json`.
#[verifier::external_type_specification]
#[verifier::external_body]
pub struct ExJsonValue(serde_json::Value);

/// A JSON number of `serde_json`, which is carried through and never looked into.
#[verifier::external_type_specification]
#[verifier::external_body]
pub struct ExJsonNumber(serde_json::Number);

/// `serde_json::Number::clone`: the same number.
pub assume_specification[ <serde_json::Number as Clone>::clone ](n: &serde_json::Number) -> (r:
    serde_json::Number)
    ensures
        r == *n,
;

/// The collection of the fields of a JSON object of `serde_json`.
#[verifier::external_type_specification]
#[verifier::external_body]
#[verifier::reject_recursive_types(K)]
#[verifier::reject_recursive_types(V)]
pub struct ExJsonMap<K, V>(serde_json::Map<K, V>);

/// What a JSON value holds.
pub uninterp spec fn json_tree(value: serde_json::Value) -> JsonTree;

/// What a collection of fields holds.
pub uninterp spec fn object_fields(
    object: serde_json::Map<String, serde_json::Value>,
) -> Map<Seq<char>, JsonTree>;

/// The number that `serde_json::Number::from` makes of an integer.
pub uninterp spec fn integer_number(n: i64) -> serde_json::Number;

/// The compact notation that `serde_json` gives a value.
pub uninterp spec fn json_notation(tree: JsonTree) -> Seq<char>;

/// `serde_json::Value::Null`: the value that holds nothing.
#[verifier::external_body]
pub(crate) fn json_null() -> (r: serde_json::Value)
    ensures
        json_tree(r) == JsonTree::Null,
{
    serde_json::Value::Null
}

/// `serde_json::Value::Bool`: the value that holds a truth value.
#[verifier::external_body]
pub(crate) fn json_bool(b: bool) -> (r: serde_json::Value)
    ensures
        json_tree(r) == JsonTree::Bool(b),
{
    serde_json::Value::Bool(b)
}

/// `serde_json::Value::from` on an integer: the value that holds the number which
/// `serde_json::Number::from` makes of it.
#[verifier::external_body]
pub(crate) fn json_integer(n: i64) -> (r: serde_json::Value)
    ensures
        json_tree(r) == JsonTree::Number(integer_number(n)),
{
    serde_json::Value::from(n)
}

/// `serde_json::Value::Number`: the value that holds the given number.
#[verifier::external_body]
pub(crate) fn json_number(n: serde_json::Number) -> (r: serde_json::Value)
    ensures
        json_tree(r) == JsonTree::Number(n),
{
    serde_json::Value::Number(n)
}

/// `serde_json::Value::String`: the value that holds a text.
#[verifier::external_body]
pub(crate) fn json_string(s: String) -> (r: serde_json::Value)
    ensures
        json_tree(r) == JsonTree::Text(s@),
{
    serde_json::Value::String(s)
}

/// The trees of a list of values.
pub open spec fn json_trees(values: Seq<serde_json::Value>) -> Seq<JsonTree> {
    values.map_values(|v: serde_json::Value| json_tree(v))
}

/// `serde_json::Value::Array`: the value that holds the given values in their order.
#[verifier::external_body]
pub(crate) fn json_array(values: Vec<serde_json::Value>) -> (r: serde_json::Value)
    ensures
        json_tree(r) == JsonTree::Array(json_trees(values@)),
{
    serde_json::Value::Array(values)
}

/// `serde_json::Value::Object`: the value that holds the given fields.
#[verifier::external_body]
pub(crate) fn json_object(fields: serde_json::Map<String, serde_json::Value>) -> (r:
    serde_json::Value)
    ensures
        json_tree(r) == JsonTree::Object(object_fields(fields)),
{
    serde_json::Value::Object(fields)
}

/// `serde_json::Map::new`: the collection without fields.
pub assume_specification[ serde_json::Map::<String, serde_json::Value>::new ]() -> (r:
    serde_json::Map<String, serde_json::Value>)
    ensures
        (object_fields(r) == Map::<Seq<char>, JsonTree>::empty()),
;

/// `serde_json::Map::insert`: puts a value under a name and hands out what was there.
pub assume_specification[ serde_json::Map::<String, serde_json::Value>::insert ](
    object: &mut serde_json::Map<String, serde_json::Value>,
    k: String,
    v: serde_json::Value,
) -> (r: Option<serde_json::Value>)
    ensures
        object_fields(*final(object)) == object_fields(*old(object)).insert(k@, json_tree(v)),
        match r {
            Some(previous) => object_fields(*old(object)).contains_key(k@) && json_tree(previous)
                == object_fields(*old(object))[k@],
            None => !object_fields(*old(object)).contains_key(k@),
        },
;

/// The `Display` of `serde_json::Value`: its compact notation.
#[verifier::external_body]
pub(crate) fn json_display(value: &serde_json::Value) -> (r: String)
    ensures
        r@ == json_notation(json_tree(*value)),
{
    value.to_string()
}

/// `serde_json::Value::get` with a name: the field of that name, where the value is an object
/// that has one.
#[verifier::external_body]
pub(crate) fn json_field<'a>(value: &'a serde_json::Value, name: &str) -> (r: Option<
    &'a serde_json::Value,
>)
    ensures
        match r {
            Some(field) => json_tree(*value) is Object && json_tree(*value)->Object_0.contains_key(
                name@,
            ) && json_tree(*field) == json_tree(*value)->Object_0[name@],
            None => !(json_tree(*value) is Object && json_tree(
                *value,
            )->Object_0.contains_key(name@)),
        },
{
    value.get(name)
}

/// `serde_json::Value::as_str`: the text, where the value holds one.
#[verifier::external_body]
pub(crate) fn json_text(value: &serde_json::Value) -> (r: Option<&str>)
    ensures
        match r {
            Some(s) => json_tree(*value) == JsonTree::Text(s@),
            None => json_tree(*value) !is Text,
        },
{
    value.as_str()
}

/// An error of `serde_json`, which is carried through and never looked into.
#[verifier::external_type_specification]
#[verifier::external_body]
pub struct ExJsonError(serde_json::Error);

/// The views of lists of texts under a text.
pub open spec fn alias_views(pairs: Seq<(String, Vec<String>)>) -> Seq<(Seq<char>, Seq<Seq<char>>)> {
    pairs.map_values(|p: (String, Vec<String>)| (p.0@, string_map::strings(p.1@)))
}

/// What `serde_json::from_str` reads from a text as a map from text to lists of texts, in
/// ascending order of the keys, where it reads one.
pub uninterp spec fn alias_map(raw: Seq<char>) -> Option<Seq<(Seq<char>, Seq<Seq<char>>)>>;

/// `serde_json::from_str`, read as an ordered map from text to lists of texts: whether the
/// text is such a map, and its entries, depend on the text alone; the keys ascend.
#[verifier::external_body]
pub(crate) fn read_alias_map(raw: &str) -> (r: Result<Vec<(String, Vec<String>)>, serde_json::Error>)
    ensures
        match r {
            Ok(pairs) => {
                &&& alias_map(raw@) == Some(alias_views(pairs@))
                &&& string_map::ascending(string_map::entry_keys(alias_views(pairs@)))
            },
            Err(_) => alias_map(raw@) is None,
        },
{
    let map: std::collections::BTreeMap<String, Vec<String>> = serde_json::from_str(raw)?;
    Ok(map.into_iter().collect())
}

/// The contents of lists are those of their members, one for one.
pub proof fn lists_of_values_are_seen_whole(
    values: Seq<serde_json::Value>,
    pairs: Seq<(String, Vec<String>)>,
)
    ensures
        json_trees(values).len() == values.len(),
        forall|i: int| 0 <= i < values.len() ==> #[trigger] json_trees(values)[i] == json_tree(
            values[i],
        ),
        alias_views(pairs).len() == pairs.len(),
        forall|i: int|
            0 <= i < pairs.len() ==> {
                &&& (#[trigger] alias_views(pairs)[i]).0 == pairs[i].0@
                &&& alias_views(pairs)[i].1 == string_map::strings(pairs[i].1@)
            },
{
}

} // verus!
