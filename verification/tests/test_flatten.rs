use rospeek::flatten::{dec_string, flatten_document, flatten_to_table};
use rospeek::value::{Document, Value};

fn doc_with_sequence(label: u64, xs: &[i64]) -> Document {
    Document {
        entries: vec![
            (
                "id".to_string(),
                Value::UInt(label),
            ),
            (
                "xs".to_string(),
                Value::List(xs.iter().map(|v| Value::Int(*v)).collect()),
            ),
        ],
    }
}

#[test]
fn flat_keys_join_nested_names_and_index_positions() {
    let doc = Document {
        entries: vec![
            (
                "pose".to_string(),
                Value::Record(Document {
                    entries: vec![
                        ("x".to_string(), Value::Int(1)),
                        ("y".to_string(), Value::Int(2)),
                    ],
                }),
            ),
            (
                "names".to_string(),
                Value::List(vec![
                    Value::Text("a".to_string()),
                    Value::Text("b".to_string()),
                ]),
            ),
        ],
    };
    let flat = flatten_document(&doc);
    let keys: Vec<&str> = flat.iter().map(|p| p.0.as_str()).collect();
    assert_eq!(keys, vec!["pose.x", "pose.y", "names.0", "names.1"]);
    assert_eq!(flat[0].1, Value::Int(1));
    assert_eq!(flat[3].1, Value::Text("b".to_string()));
}

#[test]
fn ragged_sequences_produce_the_union_of_columns() {
    // One row's sequence has two elements, the other three: the columns
    // are the union, and the shorter row's extra cell is empty.
    let docs = vec![
        doc_with_sequence(1, &[10, 11]),
        doc_with_sequence(2, &[20, 21, 22]),
    ];
    let (cols, rows) = flatten_to_table(&docs);
    let names: Vec<&str> = cols.iter().map(|c| c.as_str()).collect();
    assert_eq!(names, vec!["id", "xs.0", "xs.1", "xs.2"]);
    assert_eq!(rows.len(), 2);
    assert_eq!(
        rows[0],
        vec![
            Some(Value::UInt(1)),
            Some(Value::Int(10)),
            Some(Value::Int(11)),
            None,
        ]
    );
    assert_eq!(
        rows[1],
        vec![
            Some(Value::UInt(2)),
            Some(Value::Int(20)),
            Some(Value::Int(21)),
            Some(Value::Int(22)),
        ]
    );
}

#[test]
fn columns_come_out_sorted_without_duplicates() {
    let docs = vec![
        Document {
            entries: vec![
                ("b".to_string(), Value::Int(1)),
                ("a".to_string(), Value::Int(2)),
            ],
        },
        Document {
            entries: vec![
                ("c".to_string(), Value::Int(3)),
                ("a".to_string(), Value::Int(4)),
            ],
        },
    ];
    let (cols, rows) = flatten_to_table(&docs);
    let names: Vec<&str> = cols.iter().map(|c| c.as_str()).collect();
    assert_eq!(names, vec!["a", "b", "c"]);
    assert_eq!(
        rows[0],
        vec![Some(Value::Int(2)), Some(Value::Int(1)), None]
    );
    assert_eq!(
        rows[1],
        vec![Some(Value::Int(4)), None, Some(Value::Int(3))]
    );
}

#[test]
fn position_labels_render_in_decimal() {
    assert_eq!(dec_string(0), "0");
    assert_eq!(dec_string(7), "7");
    assert_eq!(dec_string(10), "10");
    assert_eq!(dec_string(12345), "12345");
}

#[test]
fn float_bits_pass_through_flattening_exactly() {
    let doc = Document {
        entries: vec![("f".to_string(), Value::F64Bits(4614256656552045848))],
    };
    let flat = flatten_document(&doc);
    assert_eq!(flat[0].1, Value::F64Bits(4614256656552045848));
    assert_eq!(f64::from_bits(4614256656552045848), 3.141592653589793);
}
