use rospeek::cdr::CdrDecoder;
use rospeek::error::RosPeekError;
use rospeek::schema::{FieldType, MessageField, MessageSchema};
use rospeek::value::Value;

fn time_like_schema(tn: &str) -> MessageSchema {
    MessageSchema {
        typename: tn.to_string(),
        fields: vec![
            MessageField {
                name: "sec".to_string(),
                field_type: FieldType::Object("int32".to_string()),
            },
            MessageField {
                name: "nanosec".to_string(),
                field_type: FieldType::Object("uint32".to_string()),
            },
        ],
    }
}

#[test]
fn test_decode_time() {
    let data = [
        0x00, 0x01, 0x00, 0x00, // CDR header
        0xD2, 0x02, 0x00, 0x00, // sec = 722
        0x88, 0x13, 0x00, 0x00, // nanosec = 5000
    ];

    let tn = String::from("builtin_interfaces/msg/Time");
    let schema = time_like_schema(&tn);

    let mut decoder = CdrDecoder::new(&data);
    let result = decoder
        .decode(&schema)
        .unwrap_or_else(|_| panic!("Failed to decode {}", tn));
    assert_eq!(result.get("sec"), Some(&Value::Int(722)));
    assert_eq!(result.get("nanosec"), Some(&Value::UInt(5000)));
}

#[test]
fn test_decode_duration() {
    let data = [
        0x00, 0x01, 0x00, 0x00, // CDR header
        0xD2, 0x02, 0x00, 0x00, // sec = 722
        0x88, 0x13, 0x00, 0x00, // nanosec = 5000
    ];

    let tn = String::from("builtin_interfaces/msg/Duration");
    let schema = time_like_schema(&tn);

    let mut decoder = CdrDecoder::new(&data);
    let result = decoder
        .decode(&schema)
        .unwrap_or_else(|_| panic!("Failed to decode {}", tn));
    assert_eq!(result.get("sec"), Some(&Value::Int(722)));
    assert_eq!(result.get("nanosec"), Some(&Value::UInt(5000)));
}

#[test]
fn builtin_time_decodes_as_record_without_lookup() {
    // The built-in time type is decoded as {sec, nanosec} even when it
    // appears as a field's type, with no schema resolution involved.
    let data = [
        0x00, 0x01, 0x00, 0x00, // header
        0xD2, 0x02, 0x00, 0x00, // sec = 722
        0x88, 0x13, 0x00, 0x00, // nanosec = 5000
    ];
    let schema = MessageSchema {
        typename: "foo_msgs/msg/Stamped".to_string(),
        fields: vec![MessageField {
            name: "stamp".to_string(),
            field_type: FieldType::Object("builtin_interfaces/msg/Time".to_string()),
        }],
    };
    let mut decoder = CdrDecoder::new(&data);
    let result = decoder.decode(&schema).expect("decode failed");
    match result.get("stamp") {
        Some(Value::Record(doc)) => {
            assert_eq!(doc.get("sec"), Some(&Value::Int(722)));
            assert_eq!(doc.get("nanosec"), Some(&Value::UInt(5000)));
        }
        other => panic!("expected a record, got {:?}", other),
    }
}

#[test]
fn endianness_comes_from_header_byte_one() {
    // 0x00 at offset 1 selects big-endian; anything else little-endian.
    let schema = MessageSchema {
        typename: "foo_msgs/msg/One".to_string(),
        fields: vec![MessageField {
            name: "x".to_string(),
            field_type: FieldType::Object("uint32".to_string()),
        }],
    };
    let big = [0x00, 0x00, 0x00, 0x00, 0x00, 0x00, 0x01, 0x02];
    let little = [0x00, 0x01, 0x00, 0x00, 0x02, 0x01, 0x00, 0x00];
    let exotic = [0x00, 0x7F, 0x00, 0x00, 0x02, 0x01, 0x00, 0x00];

    let mut decoder = CdrDecoder::new(&big);
    assert_eq!(
        decoder.decode(&schema).unwrap().get("x"),
        Some(&Value::UInt(0x0102))
    );
    decoder.reset(&little);
    assert_eq!(
        decoder.decode(&schema).unwrap().get("x"),
        Some(&Value::UInt(0x0102))
    );
    decoder.reset(&exotic);
    assert_eq!(
        decoder.decode(&schema).unwrap().get("x"),
        Some(&Value::UInt(0x0102))
    );
}

#[test]
fn boolean_then_int32_skips_three_padding_bytes() {
    let data = [
        0x00, 0x01, 0x00, 0x00, // header
        0x01, 0xEE, 0xEE, 0xEE, // bool = true, then 3 padding bytes
        0x2A, 0x00, 0x00, 0x00, // int32 = 42
    ];
    let schema = MessageSchema {
        typename: "foo_msgs/msg/Pair".to_string(),
        fields: vec![
            MessageField {
                name: "flag".to_string(),
                field_type: FieldType::Object("boolean".to_string()),
            },
            MessageField {
                name: "count".to_string(),
                field_type: FieldType::Object("int32".to_string()),
            },
        ],
    };
    let mut decoder = CdrDecoder::new(&data);
    let result = decoder.decode(&schema).expect("decode failed");
    assert_eq!(result.get("flag"), Some(&Value::Bool(true)));
    assert_eq!(result.get("count"), Some(&Value::Int(42)));
}

#[test]
fn array_has_no_length_prefix_sequence_does() {
    // Array(uint8, 3) consumes exactly 3 bytes, no prefix.
    let data = [
        0x00, 0x01, 0x00, 0x00, // header
        0x0A, 0x0B, 0x0C, 0x00, // three array bytes, one pad
    ];
    let schema = MessageSchema {
        typename: "foo_msgs/msg/Arr".to_string(),
        fields: vec![MessageField {
            name: "xs".to_string(),
            field_type: FieldType::Array("uint8".to_string(), 3),
        }],
    };
    let mut decoder = CdrDecoder::new(&data);
    let result = decoder.decode(&schema).expect("decode failed");
    assert_eq!(
        result.get("xs"),
        Some(&Value::List(vec![
            Value::UInt(0x0A),
            Value::UInt(0x0B),
            Value::UInt(0x0C)
        ]))
    );

    // Sequence(uint8) first reads a 4-byte length.
    let data2 = [
        0x00, 0x01, 0x00, 0x00, // header
        0x02, 0x00, 0x00, 0x00, // length = 2
        0x0A, 0x0B, // two elements
    ];
    let schema2 = MessageSchema {
        typename: "foo_msgs/msg/Dyn".to_string(),
        fields: vec![MessageField {
            name: "xs".to_string(),
            field_type: FieldType::Sequence("uint8".to_string()),
        }],
    };
    decoder.reset(&data2);
    let result2 = decoder.decode(&schema2).expect("decode failed");
    assert_eq!(
        result2.get("xs"),
        Some(&Value::List(vec![Value::UInt(0x0A), Value::UInt(0x0B)]))
    );
}

fn string_schema() -> MessageSchema {
    MessageSchema {
        typename: "foo_msgs/msg/Str".to_string(),
        fields: vec![MessageField {
            name: "s".to_string(),
            field_type: FieldType::Object("string".to_string()),
        }],
    }
}

#[test]
fn string_strips_exactly_one_trailing_nul() {
    // "hi\0": the single trailing NUL goes away.
    let data = [
        0x00, 0x01, 0x00, 0x00, // header
        0x03, 0x00, 0x00, 0x00, // length = 3
        b'h', b'i', 0x00,
    ];
    let mut decoder = CdrDecoder::new(&data);
    let result = decoder.decode(&string_schema()).expect("decode failed");
    assert_eq!(result.get("s"), Some(&Value::Text("hi".to_string())));

    // "hi\0\0": only the last NUL goes; the inner one stays.
    let data2 = [
        0x00, 0x01, 0x00, 0x00, // header
        0x04, 0x00, 0x00, 0x00, // length = 4
        b'h', b'i', 0x00, 0x00,
    ];
    decoder.reset(&data2);
    let result2 = decoder.decode(&string_schema()).expect("decode failed");
    assert_eq!(result2.get("s"), Some(&Value::Text("hi\u{0}".to_string())));

    // No terminator at all: the bytes stand as they are.
    let data3 = [
        0x00, 0x01, 0x00, 0x00, // header
        0x02, 0x00, 0x00, 0x00, // length = 2
        b'h', b'i',
    ];
    decoder.reset(&data3);
    let result3 = decoder.decode(&string_schema()).expect("decode failed");
    assert_eq!(result3.get("s"), Some(&Value::Text("hi".to_string())));
}

#[test]
fn invalid_utf8_is_an_error_not_a_repair() {
    let data = [
        0x00, 0x01, 0x00, 0x00, // header
        0x02, 0x00, 0x00, 0x00, // length = 2
        0xFF, 0xFE, // not UTF-8
    ];
    let mut decoder = CdrDecoder::new(&data);
    let err = decoder.decode(&string_schema()).unwrap_err();
    assert_eq!(err, RosPeekError::InvalidUtf8);
}

#[test]
fn sequence_of_strings_decodes_in_order() {
    let data = [
        0x00, 0x01, 0x00, 0x00, // header
        0x02, 0x00, 0x00, 0x00, // sequence length = 2
        0x06, 0x00, 0x00, 0x00, // string length = 6
        b'h', b'e', b'l', b'l', b'o', 0x00, // "hello\0"
        0xEE, 0xEE, // padding up to the next 4-byte boundary
        0x06, 0x00, 0x00, 0x00, // string length = 6
        b'w', b'o', b'r', b'l', b'd', 0x00, // "world\0"
    ];
    let schema = MessageSchema {
        typename: "foo_msgs/msg/StringArray".to_string(),
        fields: vec![MessageField {
            name: "values".to_string(),
            field_type: FieldType::Sequence("string".to_string()),
        }],
    };
    let mut decoder = CdrDecoder::new(&data);
    let result = decoder.decode(&schema).expect("decode failed");
    assert_eq!(
        result.get("values"),
        Some(&Value::List(vec![
            Value::Text("hello".to_string()),
            Value::Text("world".to_string())
        ]))
    );
}

#[test]
fn reading_past_the_end_is_an_error() {
    let data = [
        0x00, 0x01, 0x00, 0x00, // header
        0x2A, 0x00, // only two bytes where four are needed
    ];
    let schema = MessageSchema {
        typename: "foo_msgs/msg/One".to_string(),
        fields: vec![MessageField {
            name: "x".to_string(),
            field_type: FieldType::Object("uint32".to_string()),
        }],
    };
    let mut decoder = CdrDecoder::new(&data);
    let err = decoder.decode(&schema).unwrap_err();
    assert_eq!(err, RosPeekError::UnexpectedEndOfData);
}

#[test]
fn unknown_nested_type_reports_which_name_is_missing() {
    let data = [
        0x00, 0x01, 0x00, 0x00, // header
        0x01, 0x02, 0x03, 0x04,
    ];
    let schema = MessageSchema {
        typename: "foo_msgs/msg/Outer".to_string(),
        fields: vec![MessageField {
            name: "inner".to_string(),
            field_type: FieldType::Object("foo_msgs/msg/Inner".to_string()),
        }],
    };
    let mut decoder = CdrDecoder::new(&data);
    let err = decoder.decode(&schema).unwrap_err();
    assert_eq!(
        err,
        RosPeekError::IdlNotFound("foo_msgs/msg/Inner".to_string())
    );
}

#[test]
fn float_fields_carry_their_exact_bits() {
    let data = [
        0x00, 0x01, 0x00, 0x00, // header
        0x00, 0x00, 0xC0, 0x3F, // f32 1.5 little-endian
    ];
    let schema = MessageSchema {
        typename: "foo_msgs/msg/F".to_string(),
        fields: vec![MessageField {
            name: "v".to_string(),
            field_type: FieldType::Object("float".to_string()),
        }],
    };
    let mut decoder = CdrDecoder::new(&data);
    let result = decoder.decode(&schema).expect("decode failed");
    assert_eq!(result.get("v"), Some(&Value::F32Bits(0x3FC00000)));
    assert_eq!(f32::from_bits(0x3FC00000), 1.5f32);
}

#[test]
fn a_parsed_definition_drives_decoding_end_to_end() {
    let schema = rospeek::schema::parse_idl_to_schema(
        "boolean ready;\nuint16 code;\nstring tag;\n",
        "foo_msgs/msg/Status",
    );
    let data = [
        0x00, 0x01, 0x00, 0x00, // header
        0x01, 0xEE, // bool true, one pad byte to align the u16
        0x07, 0x00, // u16 = 7
        0x03, 0x00, 0x00, 0x00, // string length 3
        b'o', b'k', 0x00, // "ok\0"
    ];
    let mut decoder = CdrDecoder::new(&data);
    let result = decoder.decode(&schema).expect("decode failed");
    assert_eq!(result.get("ready"), Some(&Value::Bool(true)));
    assert_eq!(result.get("code"), Some(&Value::UInt(7)));
    assert_eq!(result.get("tag"), Some(&Value::Text("ok".to_string())));
}
