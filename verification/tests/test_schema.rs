use rospeek::error::RosPeekError;
use rospeek::resolver::{IdlEntry, SchemaResolver, SearchDir};
use rospeek::schema::{parse_idl_to_schema, to_field_type, FieldType};

#[test]
fn classify_plain_object() {
    assert_eq!(
        to_field_type("float64"),
        FieldType::Object("float64".to_string())
    );
}

#[test]
fn classify_normalizes_namespace_separators() {
    assert_eq!(
        to_field_type("std_msgs::msg::Header"),
        FieldType::Object("std_msgs/msg/Header".to_string())
    );
}

#[test]
fn classify_sequence() {
    assert_eq!(
        to_field_type("sequence<geometry_msgs::msg::Point>"),
        FieldType::Sequence("geometry_msgs/msg/Point".to_string())
    );
}

#[test]
fn classify_fixed_array_suffix() {
    assert_eq!(
        to_field_type("double__9"),
        FieldType::Array("double".to_string(), 9)
    );
    // The base may itself contain underscores; the digits after the last
    // double underscore are the length.
    assert_eq!(
        to_field_type("foo__bar__12"),
        FieldType::Array("foo__bar".to_string(), 12)
    );
}

#[test]
fn classify_needs_digits_after_the_underscores() {
    assert_eq!(
        to_field_type("foo__"),
        FieldType::Object("foo__".to_string())
    );
    assert_eq!(
        to_field_type("__12"),
        FieldType::Object("__12".to_string())
    );
}

#[test]
fn parse_keeps_declaration_order_and_skips_junk() {
    let text = "\n   int32 x;\nstring name;\nnot a statement\nbroken line no terminator\nfloat64 y z;\n  uint8 b;  \n";
    let schema = parse_idl_to_schema(text, "foo_msgs/msg/Mixed");
    assert_eq!(schema.typename, "foo_msgs/msg/Mixed".to_string());
    // "not a statement" has no terminator; "float64 y z;" has three words.
    assert_eq!(schema.fields.len(), 3);
    assert_eq!(schema.fields[0].name, "x".to_string());
    assert_eq!(
        schema.fields[0].field_type,
        FieldType::Object("int32".to_string())
    );
    assert_eq!(schema.fields[1].name, "name".to_string());
    assert_eq!(
        schema.fields[1].field_type,
        FieldType::Object("string".to_string())
    );
    assert_eq!(schema.fields[2].name, "b".to_string());
    assert_eq!(
        schema.fields[2].field_type,
        FieldType::Object("uint8".to_string())
    );
}

#[test]
fn parse_empty_definition_gives_empty_field_list() {
    let schema = parse_idl_to_schema("", "foo_msgs/msg/Empty");
    assert_eq!(schema.fields.len(), 0);
}

#[test]
fn parse_strips_repeated_statement_terminators() {
    let schema = parse_idl_to_schema("int32 x;;\n", "foo_msgs/msg/One");
    assert_eq!(schema.fields.len(), 1);
    assert_eq!(schema.fields[0].name, "x".to_string());
}

fn one_dir_resolver() -> SchemaResolver {
    SchemaResolver::new(vec![SearchDir {
        entries: vec![IdlEntry {
            package: "foo_msgs".to_string(),
            name: "Point".to_string(),
            text: "float64 x;\nfloat64 y;\n".to_string(),
        }],
    }])
}

#[test]
fn resolve_finds_a_definition_and_parses_it() {
    let r = one_dir_resolver();
    let schema = r.resolve("foo_msgs/msg/Point").expect("resolution failed");
    assert_eq!(schema.typename, "foo_msgs/msg/Point".to_string());
    assert_eq!(schema.fields.len(), 2);
    assert_eq!(schema.fields[0].name, "x".to_string());
}

#[test]
fn resolve_absent_definition_is_not_found_never_a_default() {
    let r = one_dir_resolver();
    let err = r.resolve("foo_msgs/msg/Missing").unwrap_err();
    assert_eq!(
        err,
        RosPeekError::IdlNotFound("foo_msgs/msg/Missing".to_string())
    );

    let empty = SchemaResolver::empty();
    let err2 = empty.resolve("foo_msgs/msg/Point").unwrap_err();
    assert_eq!(
        err2,
        RosPeekError::IdlNotFound("foo_msgs/msg/Point".to_string())
    );
}

#[test]
fn resolve_rejects_non_message_categories() {
    let r = SchemaResolver::new(vec![SearchDir {
        entries: vec![IdlEntry {
            package: "foo_msgs".to_string(),
            name: "Point".to_string(),
            text: "float64 x;\n".to_string(),
        }],
    }]);
    let err = r.resolve("foo_msgs/srv/Point").unwrap_err();
    assert_eq!(
        err,
        RosPeekError::IdlNotFound("foo_msgs/srv/Point".to_string())
    );
    // A bare name without the three components is rejected too.
    assert!(r.resolve("Point").is_err());
}

#[test]
fn resolve_prefers_the_first_directory() {
    let r = SchemaResolver::new(vec![
        SearchDir {
            entries: vec![IdlEntry {
                package: "foo_msgs".to_string(),
                name: "Point".to_string(),
                text: "int32 first;\n".to_string(),
            }],
        },
        SearchDir {
            entries: vec![IdlEntry {
                package: "foo_msgs".to_string(),
                name: "Point".to_string(),
                text: "int32 second;\n".to_string(),
            }],
        },
    ]);
    let schema = r.resolve("foo_msgs/msg/Point").expect("resolution failed");
    assert_eq!(schema.fields[0].name, "first".to_string());
}

#[test]
fn field_accessors_report_name_and_shape() {
    let ft = to_field_type("sequence<int32>");
    assert_eq!(ft.typename(), "int32");
    assert!(ft.is_iterable());
    let ft2 = to_field_type("int32");
    assert_eq!(ft2.typename(), "int32");
    assert!(!ft2.is_iterable());
}
