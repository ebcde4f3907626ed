use rospeek::cdr::{decode_topic, decode_topic_seq, CdrDecoder};
use rospeek::error::RosPeekError;
use rospeek::model::RawMessage;
use rospeek::resolver::{IdlEntry, SchemaResolver, SearchDir};
use rospeek::schema::{FieldType, MessageField, MessageSchema};
use rospeek::value::Value;

fn counter_schema() -> MessageSchema {
    MessageSchema {
        typename: "foo_msgs/msg/Counter".to_string(),
        fields: vec![MessageField {
            name: "n".to_string(),
            field_type: FieldType::Object("uint32".to_string()),
        }],
    }
}

fn counter_payload(n: u32, big: bool) -> Vec<u8> {
    let mut data = vec![0x00, if big { 0x00 } else { 0x01 }, 0x00, 0x00];
    if big {
        data.extend_from_slice(&n.to_be_bytes());
    } else {
        data.extend_from_slice(&n.to_le_bytes());
    }
    data
}

#[test]
fn parallel_decoding_matches_sequential_and_keeps_order() {
    let schema = counter_schema();
    let resolver = SchemaResolver::empty();
    let mut payloads = Vec::new();
    for i in 0..200u32 {
        // Mix byte orders to show each message's header is honored.
        let big = i % 3 == 0;
        payloads.push(RawMessage {
            timestamp: i as u64,
            topic_id: 7,
            data: counter_payload(i, big),
        });
    }
    let par = decode_topic(&schema, &resolver, &payloads).expect("parallel decode failed");
    let seq = decode_topic_seq(&schema, &resolver, &payloads).expect("sequential decode failed");
    assert_eq!(par.len(), 200);
    assert_eq!(par, seq);
    for (i, doc) in par.iter().enumerate() {
        assert_eq!(doc.get("n"), Some(&Value::UInt(i as u64)));
    }
}

#[test]
fn one_bad_payload_fails_the_whole_batch() {
    let schema = counter_schema();
    let resolver = SchemaResolver::empty();
    let mut payloads = Vec::new();
    for i in 0..5u32 {
        payloads.push(RawMessage {
            timestamp: i as u64,
            topic_id: 7,
            data: counter_payload(i, false),
        });
    }
    // Truncated payload in the middle.
    payloads[2].data.truncate(6);
    let err = decode_topic(&schema, &resolver, &payloads).unwrap_err();
    assert_eq!(err, RosPeekError::UnexpectedEndOfData);
    let err2 = decode_topic_seq(&schema, &resolver, &payloads).unwrap_err();
    assert_eq!(err2, RosPeekError::UnexpectedEndOfData);
}

#[test]
fn nested_types_resolve_through_the_searched_directories() {
    let resolver = SchemaResolver::new(vec![SearchDir {
        entries: vec![IdlEntry {
            package: "foo_msgs".to_string(),
            name: "Inner".to_string(),
            text: "uint8 a;\nuint8 b;\n".to_string(),
        }],
    }]);
    let outer = MessageSchema {
        typename: "foo_msgs/msg/Outer".to_string(),
        fields: vec![MessageField {
            name: "inner".to_string(),
            field_type: FieldType::Object("foo_msgs/msg/Inner".to_string()),
        }],
    };
    let data = [
        0x00, 0x01, 0x00, 0x00, // header
        0x05, 0x06,
    ];
    let mut decoder = CdrDecoder::from_schema(&outer);
    decoder.set_resolver(resolver);
    decoder.reset(&data);
    let result = decoder.decode(&outer).expect("decode failed");
    match result.get("inner") {
        Some(Value::Record(doc)) => {
            assert_eq!(doc.get("a"), Some(&Value::UInt(5)));
            assert_eq!(doc.get("b"), Some(&Value::UInt(6)));
        }
        other => panic!("expected a record, got {:?}", other),
    }
}

#[test]
fn a_decoder_is_reusable_across_messages_of_a_topic() {
    let schema = counter_schema();
    let a = counter_payload(1, false);
    let b = counter_payload(2, true);
    let mut decoder = CdrDecoder::from_schema(&schema);
    decoder.reset(&a);
    assert_eq!(
        decoder.decode(&schema).unwrap().get("n"),
        Some(&Value::UInt(1))
    );
    decoder.reset(&b);
    assert_eq!(
        decoder.decode(&schema).unwrap().get("n"),
        Some(&Value::UInt(2))
    );
}
