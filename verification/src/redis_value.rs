//! Redis replies as plain values, and what the controller reads out of them.
use vstd::prelude::*;
use vstd::string::*;

use vstd::utf8::*;

use crate::json;
use crate::json::JsonTree;
use crate::numeric;
use crate::protocol;
use crate::string_map;
use crate::string_map::StringMap;
use crate::text;

verus! {

/// A Redis reply.
///
/// A floating point reply is kept as its decimal text and as the JSON number that stands
/// for it, which is missing where the value is not finite. Of an attribute only the data
/// that it belongs to is kept.
#[derive(Debug, PartialEq)]
pub enum RedisValue {
    Nil,
    Int(i64),
    BulkString(Vec<u8>),
    Array(Vec<RedisValue>),
    SimpleString(String),
    Okay,
    Pairs(Vec<(RedisValue, RedisValue)>),
    Attribute(Box<RedisValue>),
    Members(Vec<RedisValue>),
    Double { text: String, number: Option<serde_json::Number> },
    Boolean(bool),
    VerbatimString(String),
    BigNumber(Vec<u8>),
    Push(Vec<RedisValue>),
    ServerError(String),
    Other,
}

/// The JSON value that a reply is turned into.
pub open spec fn redis_json(value: RedisValue) -> JsonTree
    decreases value,
{
    match value {
        RedisValue::Nil => JsonTree::Null,
        RedisValue::Int(n) => JsonTree::Number(json::integer_number(n)),
        RedisValue::BulkString(bytes) => JsonTree::Text(text::lossy_text(bytes@)),
        RedisValue::Array(values) => JsonTree::Array(redis_json_list(values@)),
        RedisValue::SimpleString(s) => JsonTree::Text(s@),
        RedisValue::Okay => JsonTree::Text("OK"@),
        RedisValue::Pairs(entries) => JsonTree::Object(redis_json_fields(entries@)),
        RedisValue::Attribute(data) => redis_json(*data),
        RedisValue::Members(values) => JsonTree::Array(redis_json_list(values@)),
        RedisValue::Double { text: _, number } => match number {
            Some(n) => JsonTree::Number(n),
            None => JsonTree::Null,
        },
        RedisValue::Boolean(b) => JsonTree::Bool(b),
        RedisValue::VerbatimString(s) => JsonTree::Text(s@),
        RedisValue::BigNumber(bytes) => JsonTree::Array(
            bytes@.map_values(|b: u8| JsonTree::Number(json::integer_number(b as i64))),
        ),
        RedisValue::Push(values) => JsonTree::Array(redis_json_list(values@)),
        RedisValue::ServerError(s) => JsonTree::Object(map!["error"@ => JsonTree::Text(s@)]),
        RedisValue::Other => JsonTree::Null,
    }
}

/// The JSON values of a list of replies.
pub open spec fn redis_json_list(values: Seq<RedisValue>) -> Seq<JsonTree>
    decreases values,
{
    if values.len() == 0 {
        seq![]
    } else {
        redis_json_list(values.drop_last()).push(redis_json(values.last()))
    }
}

/// The JSON fields of a list of pairs: each is named by the notation of its key, and a
/// later pair takes the place of an earlier one of the same name.
pub open spec fn redis_json_fields(entries: Seq<(RedisValue, RedisValue)>) -> Map<
    Seq<char>,
    JsonTree,
>
    decreases entries,
{
    if entries.len() == 0 {
        Map::empty()
    } else {
        redis_json_fields(entries.drop_last()).insert(
            json::json_notation(redis_json(entries.last().0)),
            redis_json(entries.last().1),
        )
    }
}

/// Turns a Redis reply into a JSON value.
pub fn redis_value_to_json(value: &RedisValue) -> (r: serde_json::Value)
    ensures
        json::json_tree(r) == redis_json(*value),
    decreases value,
{
    match value {
        RedisValue::Nil => json::json_null(),
        RedisValue::Int(n) => json::json_integer(*n),
        RedisValue::BulkString(bytes) => json::json_string(text::decode_lossy(bytes.as_slice())),
        RedisValue::SimpleString(s) => json::json_string(s.clone()),
        RedisValue::Okay => json::json_string("OK".to_owned()),
        RedisValue::Array(values) => json::json_array(redis_values_to_json(values)),
        RedisValue::Pairs(entries) => {
            let mut object = serde_json::Map::new();
            let n: usize = entries.len();
            let mut i: usize = 0;
            assert(entries@.take(0) == Seq::<(RedisValue, RedisValue)>::empty());
            while i < n
                invariant
                    n == entries.len(),
                    i <= n,
                    decreases_to!(value => entries@),
                    json::object_fields(object) == redis_json_fields(entries@.take(i as int)),
                decreases n - i,
            {
                let entry = &entries[i];
                assert(decreases_to!(entries@ => entries@[i as int]));
                let key = redis_value_to_json(&entry.0);
                let field = redis_value_to_json(&entry.1);
                object.insert(json::json_display(&key), field);
                assert(entries@.take(i + 1).drop_last() == entries@.take(i as int));
                i = i + 1;
            }
            assert(entries@.take(n as int) == entries@);
            json::json_object(object)
        },
        RedisValue::Attribute(data) => redis_value_to_json(data),
        RedisValue::Members(values) => json::json_array(redis_values_to_json(values)),
        RedisValue::Double { text: _, number } => match number {
            Some(n) => json::json_number(n.clone()),
            None => json::json_null(),
        },
        RedisValue::Boolean(b) => json::json_bool(*b),
        RedisValue::VerbatimString(s) => json::json_string(s.clone()),
        RedisValue::BigNumber(bytes) => {
            let n: usize = bytes.len();
            let mut out: Vec<serde_json::Value> = Vec::new();
            let mut i: usize = 0;
            while i < n
                invariant
                    n == bytes.len(),
                    i <= n,
                    out.len() == i,
                    forall|k: int|
                        0 <= k < i ==> json::json_tree(#[trigger] out@[k]) == JsonTree::Number(
                            json::integer_number(bytes@[k] as i64),
                        ),
                decreases n - i,
            {
                out.push(json::json_integer(bytes[i] as i64));
                i = i + 1;
            }
            assert(json::json_trees(out@) == bytes@.map_values(
                |b: u8| JsonTree::Number(json::integer_number(b as i64)),
            ));
            json::json_array(out)
        },
        RedisValue::Push(values) => json::json_array(redis_values_to_json(values)),
        RedisValue::ServerError(s) => {
            let mut object = serde_json::Map::new();
            object.insert("error".to_owned(), json::json_string(s.clone()));
            assert(json::object_fields(object) == map!["error"@ => JsonTree::Text(s@)]);
            json::json_object(object)
        },
        RedisValue::Other => json::json_null(),
    }
}

/// Turns a list of Redis replies into JSON values.
fn redis_values_to_json(values: &Vec<RedisValue>) -> (r: Vec<serde_json::Value>)
    ensures
        json::json_trees(r@) == redis_json_list(values@),
    decreases values,
{
    let n: usize = values.len();
    let mut out: Vec<serde_json::Value> = Vec::new();
    let mut i: usize = 0;
    assert(values@.take(0) == Seq::<RedisValue>::empty());
    assert(json::json_trees(out@) == redis_json_list(values@.take(0)));
    while i < n
        invariant
            n == values.len(),
            i <= n,
            json::json_trees(out@) == redis_json_list(values@.take(i as int)),
        decreases n - i,
    {
        assert(decreases_to!(values@ => values@[i as int]));
        assert(decreases_to!(values => values@));
        let ghost before = json::json_trees(out@);
        let json = redis_value_to_json(&values[i]);
        out.push(json);
        assert(json::json_trees(out@) == before.push(json::json_tree(json)));
        assert(values@.take(i + 1).drop_last() == values@.take(i as int));
        i = i + 1;
    }
    assert(values@.take(n as int) == values@);
    out
}

impl View for RedisValue {
    type V = RedisValue;

    open spec fn view(&self) -> RedisValue {
        *self
    }
}

/// The text of a reply that holds one, not looking into an attribute.
pub open spec fn plain_text(value: RedisValue) -> Option<Seq<char>> {
    match value {
        RedisValue::BulkString(bytes) => if valid_utf8(bytes@) {
            Some(decode_utf8(bytes@))
        } else {
            None
        },
        RedisValue::Okay => Some("OK"@),
        RedisValue::SimpleString(s) => Some(s@),
        RedisValue::VerbatimString(s) => Some(s@),
        RedisValue::Double { text, number: _ } => Some(text@),
        RedisValue::Int(n) => Some(numeric::signed_decimal(n as int)),
        _ => None,
    }
}

/// The text of a reply that holds one; an attribute stands for its data.
pub open spec fn reply_text(value: RedisValue) -> Option<Seq<char>> {
    match value {
        RedisValue::Attribute(data) => plain_text(*data),
        _ => plain_text(value),
    }
}

/// Reads a reply as text.
pub fn redis_value_to_text(value: &RedisValue) -> (r: Option<String>)
    ensures
        match r {
            Some(s) => reply_text(*value) == Some(s@),
            None => reply_text(*value) is None,
        },
{
    let inner: &RedisValue = match value {
        RedisValue::Attribute(data) => data,
        _ => value,
    };
    match inner {
        RedisValue::BulkString(bytes) => text::decode_strict(bytes.as_slice()),
        RedisValue::Okay => Some("OK".to_owned()),
        RedisValue::SimpleString(s) => Some(s.clone()),
        RedisValue::VerbatimString(s) => Some(s.clone()),
        RedisValue::Double { text, number: _ } => Some(text.clone()),
        RedisValue::Int(n) => Some(numeric::signed_decimal_text(*n)),
        _ => None,
    }
}

/// A message of a Redis stream: its identifier and its named fields.
#[derive(Debug)]
pub struct StreamEntry {
    pub id: String,
    pub fields: StringMap<RedisValue>,
}

/// Where the JSON of a transcription segment is found in a stream message.
#[derive(Debug, PartialEq)]
pub enum SegmentSource {
    /// One field holds the JSON text of the whole segment.
    Field { key: String, raw: String },
    /// The fields of the message are the fields of the segment.
    Fields(serde_json::Value),
}

/// The text under `key`, where there is a field of that name that holds one.
pub open spec fn field_text(fields: Map<Seq<char>, RedisValue>, key: Seq<char>) -> Option<Seq<char>> {
    if fields.contains_key(key) {
        reply_text(fields[key])
    } else {
        None
    }
}

/// The name and the text of the field that holds a whole segment: the first of "segment",
/// "payload" and "json" that holds text.
pub open spec fn whole_segment_field(fields: Map<Seq<char>, RedisValue>) -> Option<
    (Seq<char>, Seq<char>),
> {
    if field_text(fields, "segment"@) is Some {
        Some(("segment"@, field_text(fields, "segment"@)->0))
    } else if field_text(fields, "payload"@) is Some {
        Some(("payload"@, field_text(fields, "payload"@)->0))
    } else if field_text(fields, "json"@) is Some {
        Some(("json"@, field_text(fields, "json"@)->0))
    } else {
        None
    }
}

fn read_field(fields: &StringMap<RedisValue>, key: &str) -> (r: Option<String>)
    ensures
        match r {
            Some(s) => field_text(fields@, key@) == Some(s@),
            None => field_text(fields@, key@) is None,
        },
{
    match fields.get(key) {
        Some(value) => redis_value_to_text(value),
        None => None,
    }
}

/// Finds the JSON of the transcription segment in a stream message.
pub fn decode_segment(entry: &StreamEntry) -> (r: SegmentSource)
    ensures
        match r {
            SegmentSource::Field { key, raw } => whole_segment_field(entry.fields@) == Some(
                (key@, raw@),
            ),
            SegmentSource::Fields(object) => {
                &&& whole_segment_field(entry.fields@) is None
                &&& json::json_tree(object) == JsonTree::Object(
                    entry.fields@.map_values(|v: RedisValue| redis_json(v)),
                )
            },
        },
{
    if let Some(raw) = read_field(&entry.fields, "segment") {
        return SegmentSource::Field { key: "segment".to_owned(), raw };
    }
    if let Some(raw) = read_field(&entry.fields, "payload") {
        return SegmentSource::Field { key: "payload".to_owned(), raw };
    }
    if let Some(raw) = read_field(&entry.fields, "json") {
        return SegmentSource::Field { key: "json".to_owned(), raw };
    }
    let mut object = serde_json::Map::new();
    let n: usize = entry.fields.len();
    let ghost all = entry.fields.in_order();
    let mut i: usize = 0;
    proof {
        string_map::lemma_map_of(all);
    }
    while i < n
        invariant
            n == all.len(),
            i <= n,
            all == entry.fields.in_order(),
            string_map::ascending(string_map::entry_keys(all)),
            forall|k: int|
                0 <= k < i ==> json::object_fields(object).contains_key((#[trigger] all[k]).0)
                    && json::object_fields(object)[all[k].0] == redis_json(all[k].1),
            forall|name: Seq<char>| #[trigger]
                json::object_fields(object).contains_key(name) ==> exists|k: int|
                    0 <= k < i && (#[trigger] all[k]).0 == name,
        decreases n - i,
    {
        let (name, value) = entry.fields.entry(i);
        let field = redis_value_to_json(value);
        let ghost before = json::object_fields(object);
        object.insert(name.clone(), field);
        proof {
            let keys = string_map::entry_keys(all);
            assert forall|k: int| 0 <= k < i implies (#[trigger] all[k]).0 != all[i as int].0 by {
                assert(string_map::text_less(keys[k], keys[i as int]));
                string_map::text_less_is_total(keys[k], keys[i as int]);
            }
            assert forall|other: Seq<char>| #[trigger]
                json::object_fields(object).contains_key(other) implies exists|k: int|
                0 <= k < i + 1 && (#[trigger] all[k]).0 == other by {
                if other == name@ {
                    assert(all[i as int].0 == other);
                } else {
                    assert(before.contains_key(other));
                }
            }
        }
        i = i + 1;
    }
    proof {
        let want = entry.fields@.map_values(|v: RedisValue| redis_json(v));
        assert forall|name: Seq<char>| #[trigger] want.contains_key(name) implies json::object_fields(
            object,
        ).contains_key(name) && json::object_fields(object)[name] == want[name] by {
            let k = choose|k: int| 0 <= k < all.len() && (#[trigger] all[k]).0 == name;
            assert(all[k].0 == name);
        }
        assert(json::object_fields(object) == want);
    }
    SegmentSource::Fields(json::json_object(object))
}

/// Finds the JSON of the transcription segment in a stream message, first of all in the field of
/// the given name.
pub fn decode_segment_from(entry: &StreamEntry, field: &str) -> (r: SegmentSource)
    ensures
        match r {
            SegmentSource::Field { key, raw } => if field_text(entry.fields@, field@) is Some {
                key@ == field@ && raw@ == field_text(entry.fields@, field@)->0
            } else {
                whole_segment_field(entry.fields@) == Some((key@, raw@))
            },
            SegmentSource::Fields(object) => {
                &&& field_text(entry.fields@, field@) is None
                &&& whole_segment_field(entry.fields@) is None
                &&& json::json_tree(object) == JsonTree::Object(
                    entry.fields@.map_values(|v: RedisValue| redis_json(v)),
                )
            },
        },
{
    if let Some(raw) = read_field(&entry.fields, field) {
        return SegmentSource::Field { key: field.to_owned(), raw };
    }
    decode_segment(entry)
}

/// A segment that was published as text in a field is found in that field, whatever else the
/// message holds.
pub proof fn published_segment_is_found(
    fields: Map<Seq<char>, RedisValue>,
    field: Seq<char>,
    json: Seq<char>,
    bytes: Vec<u8>,
)
    requires
        bytes@ == encode_utf8(json),
    ensures
        field_text(fields.insert(field, RedisValue::BulkString(bytes)), field) == Some(json),
{
    encode_utf8_decode_utf8(json);
    encode_utf8_valid_utf8(json);
}

/// The element that a pop from one of several queues took, out of a reply that names the queue
/// first.
pub open spec fn popped_element(reply: Option<Seq<Seq<char>>>) -> Option<Seq<char>> {
    match reply {
        Some(parts) => if parts.len() > 1 {
            Some(parts[1])
        } else {
            None
        },
        None => None,
    }
}

/// The view of an optional list of texts.
pub open spec fn opt_strings(list: Option<Vec<String>>) -> Option<Seq<Seq<char>>> {
    match list {
        Some(l) => Some(string_map::strings(l@)),
        None => None,
    }
}

/// The element that a pop took.
pub fn brpop_payload(reply: Option<Vec<String>>) -> (r: Option<String>)
    ensures
        protocol::opt_text(r) == popped_element(opt_strings(reply)),
{
    match reply {
        Some(parts) => if parts.len() > 1 {
            Some(parts[1].clone())
        } else {
            None
        },
        None => None,
    }
}

/// Lists of replies are turned one for one, however long they are and however deep they lie.
pub proof fn lists_are_turned_one_for_one(values: Seq<RedisValue>)
    ensures
        redis_json_list(values).len() == values.len(),
        forall|i: int| 0 <= i < values.len() ==> #[trigger] redis_json_list(values)[i]
            == redis_json(values[i]),
    decreases values.len(),
{
    if values.len() > 0 {
        let before = values.drop_last();
        lists_are_turned_one_for_one(before);
        assert forall|i: int| 0 <= i < values.len() implies #[trigger] redis_json_list(values)[i]
            == redis_json(values[i]) by {
            if i < before.len() {
                assert(redis_json_list(before)[i] == redis_json(before[i]));
            }
        }
    }
}

/// Pairs are turned into fields: the last pair whose key has a name gives the field of that name its
/// value, and there are no other fields.
pub proof fn last_pair_of_a_name_is_kept(
    entries: Seq<(RedisValue, RedisValue)>,
    at: int,
    name: Seq<char>,
)
    ensures
        0 <= at < entries.len() && json::json_notation(redis_json(entries[at].0)) == name && (
        forall|i: int|
            at < i < entries.len() ==> json::json_notation(redis_json((#[trigger] entries[i]).0))
                != name) ==> redis_json_fields(entries).contains_key(name) && redis_json_fields(
            entries,
        )[name] == redis_json(entries[at].1),
        redis_json_fields(entries).contains_key(name) ==> exists|i: int|
            0 <= i < entries.len() && json::json_notation(redis_json((#[trigger] entries[i]).0))
                == name,
    decreases entries.len(),
{
    if entries.len() > 0 {
        let before = entries.drop_last();
        last_pair_of_a_name_is_kept(before, at, name);
        assert(forall|i: int| 0 <= i < before.len() ==> before[i] == #[trigger] entries[i]);
        assert(entries[entries.len() - 1] == entries.last());
        if redis_json_fields(before).contains_key(name) {
            let i = choose|i: int|
                0 <= i < before.len() && json::json_notation(redis_json((#[trigger] before[i]).0))
                    == name;
            assert(json::json_notation(redis_json(entries[i].0)) == name);
        }
    }
}

/// Text that comes in any form is turned into that text and read as that text, whole.
pub proof fn text_is_kept_whole(bytes: Vec<u8>, s: String, t: Seq<char>)
    ensures
        bytes@ == encode_utf8(t) ==> {
            &&& redis_json(RedisValue::BulkString(bytes)) == JsonTree::Text(t)
            &&& reply_text(RedisValue::BulkString(bytes)) == Some(t)
        },
        !valid_utf8(bytes@) ==> reply_text(RedisValue::BulkString(bytes)) is None,
        s@ == t ==> {
            &&& redis_json(RedisValue::SimpleString(s)) == JsonTree::Text(t)
            &&& redis_json(RedisValue::VerbatimString(s)) == JsonTree::Text(t)
            &&& reply_text(RedisValue::SimpleString(s)) == Some(t)
            &&& reply_text(RedisValue::VerbatimString(s)) == Some(t)
        },
        redis_json(RedisValue::Okay) == JsonTree::Text("OK"@),
        reply_text(RedisValue::Okay) == Some("OK"@),
{
    encode_utf8_decode_utf8(t);
    encode_utf8_valid_utf8(t);
}

/// Numbers, truth values, lists, attributes and errors are turned into what they stand for.
pub proof fn other_replies_are_turned_whole(
    n: i64,
    number: serde_json::Number,
    b: bool,
    values: Vec<RedisValue>,
    bytes: Vec<u8>,
    data: Box<RedisValue>,
    s: String,
)
    ensures
        redis_json(RedisValue::Int(n)) == JsonTree::Number(json::integer_number(n)),
        redis_json(RedisValue::Boolean(b)) == JsonTree::Bool(b),
        redis_json(RedisValue::Nil) is Null,
        redis_json(RedisValue::Other) is Null,
        redis_json(RedisValue::Double { text: s, number: Some(number) }) == JsonTree::Number(
            number,
        ),
        redis_json(RedisValue::Double { text: s, number: None }) is Null,
        redis_json(RedisValue::Attribute(data)) == redis_json(*data),
        redis_json(RedisValue::Array(values)) == JsonTree::Array(redis_json_list(values@)),
        redis_json(RedisValue::Members(values)) == JsonTree::Array(redis_json_list(values@)),
        redis_json(RedisValue::Push(values)) == JsonTree::Array(redis_json_list(values@)),
        redis_json(RedisValue::BigNumber(bytes)) matches JsonTree::Array(list) && list.len()
            == bytes@.len() && forall|i: int|
            0 <= i < list.len() ==> #[trigger] list[i] == JsonTree::Number(
                json::integer_number(bytes@[i] as i64),
            ),
        redis_json(RedisValue::ServerError(s)) matches JsonTree::Object(fields) && fields.dom()
            == set!["error"@] && fields["error"@] == JsonTree::Text(s@),
{
    assert(redis_json(RedisValue::ServerError(s))->Object_0.dom() == set!["error"@]);
}

/// Numbers are read as their notation, an attribute as its data, and what is neither text nor a
/// number not at all.
pub proof fn other_replies_are_read(
    n: i64,
    data: Box<RedisValue>,
    s: String,
    number: Option<serde_json::Number>,
    b: bool,
    values: Vec<RedisValue>,
)
    ensures
        n >= 0 ==> reply_text(RedisValue::Int(n)) == Some(numeric::decimal(n as nat)),
        n < 0 ==> reply_text(RedisValue::Int(n)) == Some(seq!['-'] + numeric::decimal((-n) as nat)),
        reply_text(RedisValue::Double { text: s, number }) == Some(s@),
        !(*data is Attribute) ==> reply_text(RedisValue::Attribute(data)) == reply_text(*data),
        reply_text(RedisValue::Nil) is None,
        reply_text(RedisValue::Boolean(b)) is None,
        reply_text(RedisValue::Array(values)) is None,
        reply_text(RedisValue::Members(values)) is None,
        reply_text(RedisValue::Push(values)) is None,
        reply_text(RedisValue::ServerError(s)) is None,
{
    if n >= 0 {
        numeric::decimal_notation_is_by_tens(n as nat, 0);
    } else {
        numeric::decimal_notation_is_by_tens((-n) as nat, 0);
    }
}

/// A whole segment is found under the first of three names that holds text, whatever stands under
/// the others and whatever other fields there are.
pub proof fn whole_segment_is_found_by_name(
    fields: Map<Seq<char>, RedisValue>,
    value: RedisValue,
    t: Seq<char>,
)
    requires
        reply_text(value) == Some(t),
    ensures
        fields.contains_key("segment"@) && fields["segment"@] == value ==> whole_segment_field(
            fields,
        ) == Some(("segment"@, t)),
        !fields.contains_key("segment"@) && fields.contains_key("payload"@) && fields["payload"@]
            == value ==> whole_segment_field(fields) == Some(("payload"@, t)),
        !fields.contains_key("segment"@) && !fields.contains_key("payload"@)
            && fields.contains_key("json"@) && fields["json"@] == value ==> whole_segment_field(
            fields,
        ) == Some(("json"@, t)),
        !fields.contains_key("segment"@) && !fields.contains_key("payload"@)
            && !fields.contains_key("json"@) ==> whole_segment_field(fields) is None,
{
}

/// What does not hold text is passed over in favour of the next name.
pub proof fn field_without_text_is_passed_over(fields: Map<Seq<char>, RedisValue>, key: Seq<char>)
    requires
        key == "segment"@ || key == "payload"@ || key == "json"@,
        fields.contains_key(key),
        reply_text(fields[key]) is None,
    ensures
        whole_segment_field(fields) == whole_segment_field(fields.remove(key)),
{
    assert(forall|other: Seq<char>|
        other != key ==> field_text(fields.remove(key), other) == #[trigger] field_text(
            fields,
            other,
        ));
    assert(field_text(fields.remove(key), key) is None);
    assert(field_text(fields, key) is None);
    assert(field_text(fields.remove(key), "segment"@) == field_text(fields, "segment"@));
    assert(field_text(fields.remove(key), "payload"@) == field_text(fields, "payload"@));
    assert(field_text(fields.remove(key), "json"@) == field_text(fields, "json"@));
}

/// A pop gives the element that stands behind the name of the queue, whatever it is.
pub proof fn popped_element_is_given(queue: Seq<char>, element: Seq<char>, rest: Seq<Seq<char>>)
    ensures
        popped_element(Some(seq![queue, element] + rest)) == Some(element),
        popped_element(Some(seq![queue])) is None,
        popped_element(Some(seq![])) is None,
        popped_element(None) is None,
{
}

} // verus!
