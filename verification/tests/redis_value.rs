use redis::{from_redis_value, Value as Reply};
use serde_json::{Number, Value};
use tetoscribe::protocol::TranscriptionSegment;
use tetoscribe::redis_value::{
    brpop_payload, decode_segment, decode_segment_from, redis_value_to_json, redis_value_to_text,
    RedisValue, SegmentSource, StreamEntry,
};
use tetoscribe::string_map::StringMap;

fn entry(fields: Vec<(&str, RedisValue)>) -> StreamEntry {
    let mut map = StringMap::new();
    for (name, value) in fields {
        map.insert(name.to_owned(), value);
    }
    StreamEntry { id: "0-1".to_owned(), fields: map }
}

fn bulk(text: &str) -> RedisValue {
    RedisValue::BulkString(text.as_bytes().to_vec())
}

fn text(s: &str) -> Value {
    Value::String(s.to_owned())
}

fn whole(source: SegmentSource) -> (String, String) {
    match source {
        SegmentSource::Field { key, raw } => (key, raw),
        SegmentSource::Fields(object) => panic!("no whole field: {object}"),
    }
}

#[test]
fn redis_value_to_json_handles_common_values() {
    assert_eq!(
        redis_value_to_json(&RedisValue::BulkString(b"Mike".to_vec())),
        Value::String("Mike".to_owned())
    );
    assert_eq!(redis_value_to_json(&RedisValue::Int(42)), Value::from(42));
    assert_eq!(redis_value_to_json(&RedisValue::Boolean(true)), Value::Bool(true));
}

#[test]
fn decode_segment_accepts_segment_json_field() {
    let segment = TranscriptionSegment::new("session-1", "Speaker_1", "Hello Mike", 0, 1000);
    let mut fields = serde_json::Map::new();
    fields.insert("session_id".to_owned(), text(&segment.session_id));
    fields.insert("speaker_tag".to_owned(), text(&segment.speaker_tag));
    fields.insert("text".to_owned(), text(&segment.text));
    fields.insert("start_ms".to_owned(), Value::from(segment.start_ms));
    fields.insert("end_ms".to_owned(), Value::from(segment.end_ms));
    let json = Value::Object(fields.clone()).to_string();
    let stream_id = entry(vec![("segment", RedisValue::BulkString(json.into_bytes()))]);

    let (key, raw) = whole(decode_segment(&stream_id));

    assert_eq!(key, "segment");
    let decoded: Value = serde_json::from_str(&raw).unwrap();
    assert_eq!(decoded, Value::Object(fields));
}

#[test]
fn replies_become_json() {
    let half = Number::from_f64(0.5).unwrap();
    let list = vec![RedisValue::Int(1), RedisValue::Nil];
    assert_eq!(redis_value_to_json(&RedisValue::Nil), Value::Null);
    assert_eq!(redis_value_to_json(&RedisValue::Okay), text("OK"));
    assert_eq!(redis_value_to_json(&RedisValue::SimpleString("hi".to_owned())), text("hi"));
    assert_eq!(redis_value_to_json(&RedisValue::VerbatimString("v".to_owned())), text("v"));
    assert_eq!(
        redis_value_to_json(&RedisValue::BulkString(vec![b'a', 0xff])),
        text("a\u{fffd}")
    );
    assert_eq!(
        redis_value_to_json(&RedisValue::Double { text: "0.5".to_owned(), number: Some(half.clone()) }),
        Value::Number(half)
    );
    assert_eq!(
        redis_value_to_json(&RedisValue::Double { text: "inf".to_owned(), number: None }),
        Value::Null
    );
    assert_eq!(
        redis_value_to_json(&RedisValue::Array(list)),
        Value::Array(vec![Value::from(1), Value::Null])
    );
    assert_eq!(
        redis_value_to_json(&RedisValue::Members(vec![bulk("x")])),
        Value::Array(vec![text("x")])
    );
    assert_eq!(
        redis_value_to_json(&RedisValue::Push(vec![bulk("x")])),
        Value::Array(vec![text("x")])
    );
    assert_eq!(
        redis_value_to_json(&RedisValue::Attribute(Box::new(RedisValue::Int(3)))),
        Value::from(3)
    );
    assert_eq!(
        redis_value_to_json(&RedisValue::BigNumber(vec![49, 50])),
        Value::Array(vec![Value::from(49), Value::from(50)])
    );
    assert_eq!(redis_value_to_json(&RedisValue::Other), Value::Null);
    let mut error = serde_json::Map::new();
    error.insert("error".to_owned(), text("ERR bad"));
    assert_eq!(
        redis_value_to_json(&RedisValue::ServerError("ERR bad".to_owned())),
        Value::Object(error)
    );
}

#[test]
fn keys_of_pairs_are_written_as_json() {
    let pairs = RedisValue::Pairs(vec![
        (bulk("name"), bulk("first")),
        (RedisValue::Int(7), RedisValue::Boolean(false)),
        (bulk("name"), bulk("last")),
    ]);
    let mut object = serde_json::Map::new();
    object.insert("\"name\"".to_owned(), text("last"));
    object.insert("7".to_owned(), Value::Bool(false));
    assert_eq!(redis_value_to_json(&pairs), Value::Object(object));
}

#[test]
fn replies_are_read_as_text_as_redis_does() {
    let cases = vec![
        (bulk("hello"), Reply::BulkString(b"hello".to_vec())),
        (RedisValue::BulkString(vec![0xff]), Reply::BulkString(vec![0xff])),
        (RedisValue::Okay, Reply::Okay),
        (RedisValue::SimpleString("s".to_owned()), Reply::SimpleString("s".to_owned())),
        (RedisValue::Int(-5), Reply::Int(-5)),
        (RedisValue::Nil, Reply::Nil),
        (RedisValue::Boolean(true), Reply::Boolean(true)),
        (RedisValue::Array(vec![bulk("x")]), Reply::Array(vec![Reply::BulkString(b"x".to_vec())])),
        (
            RedisValue::Double { text: "1.5".to_owned(), number: None },
            Reply::Double(1.5),
        ),
        (
            RedisValue::Attribute(Box::new(bulk("x"))),
            Reply::Attribute { data: Box::new(Reply::BulkString(b"x".to_vec())), attributes: Vec::new() },
        ),
    ];
    for (ours, theirs) in cases {
        assert_eq!(redis_value_to_text(&ours), from_redis_value::<String>(theirs).ok());
    }
}

#[test]
fn whole_segments_are_looked_for_in_order() {
    let all = entry(vec![("json", bulk("j")), ("payload", bulk("p")), ("segment", bulk("s"))]);
    assert_eq!(whole(decode_segment(&all)), ("segment".to_owned(), "s".to_owned()));
    let two = entry(vec![
        ("json", bulk("j")),
        ("payload", bulk("p")),
        ("segment", RedisValue::BulkString(vec![0xff])),
    ]);
    assert_eq!(whole(decode_segment(&two)), ("payload".to_owned(), "p".to_owned()));
    let one = entry(vec![("json", bulk("j"))]);
    assert_eq!(whole(decode_segment(&one)), ("json".to_owned(), "j".to_owned()));
    let named = entry(vec![("line", bulk("l")), ("segment", bulk("s"))]);
    assert_eq!(
        whole(decode_segment_from(&named, "line")),
        ("line".to_owned(), "l".to_owned())
    );
    assert_eq!(
        whole(decode_segment_from(&all, "line")),
        ("segment".to_owned(), "s".to_owned())
    );
}

#[test]
fn fields_of_a_message_may_be_those_of_a_segment() {
    let message = entry(vec![("text", bulk("hi")), ("start_ms", RedisValue::Int(5))]);
    let mut object = serde_json::Map::new();
    object.insert("text".to_owned(), text("hi"));
    object.insert("start_ms".to_owned(), Value::from(5));
    for source in [decode_segment(&message), decode_segment_from(&message, "segment")] {
        assert_eq!(source, SegmentSource::Fields(Value::Object(object.clone())));
    }
}

#[test]
fn a_pop_names_the_queue_first() {
    let reply = |parts: &[&str]| Some(parts.iter().map(|p| p.to_string()).collect());
    assert_eq!(brpop_payload(reply(&["queue", "job", "more"])), Some("job".to_owned()));
    assert_eq!(brpop_payload(reply(&["queue"])), None);
    assert_eq!(brpop_payload(None), None);
}
