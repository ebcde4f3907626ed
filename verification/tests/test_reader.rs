use rospeek::error::RosPeekError;
use rospeek::model::{RawMessage, Topic};
use rospeek::reader::{
    filter_messages_between, filter_messages_since, filter_messages_until, find_topic, ns_to_iso,
};

fn msg(ts: u64) -> RawMessage {
    RawMessage {
        timestamp: ts,
        topic_id: 1,
        data: vec![0x00, 0x01, 0x00, 0x00],
    }
}

#[test]
fn timestamp_filters_keep_order_and_bounds_inclusively() {
    let ms = vec![msg(10), msg(20), msg(30), msg(40)];
    let since: Vec<u64> = filter_messages_since(&ms, 20)
        .iter()
        .map(|m| m.timestamp)
        .collect();
    assert_eq!(since, vec![20, 30, 40]);
    let until: Vec<u64> = filter_messages_until(&ms, 30)
        .iter()
        .map(|m| m.timestamp)
        .collect();
    assert_eq!(until, vec![10, 20, 30]);
    let between: Vec<u64> = filter_messages_between(&ms, 20, 30)
        .iter()
        .map(|m| m.timestamp)
        .collect();
    assert_eq!(between, vec![20, 30]);
    let empty: Vec<u64> = filter_messages_between(&ms, 31, 39)
        .iter()
        .map(|m| m.timestamp)
        .collect();
    assert_eq!(empty, Vec::<u64>::new());
}

fn topic(name: &str) -> Topic {
    Topic {
        id: 3,
        name: name.to_string(),
        typename: "foo_msgs/msg/Foo".to_string(),
        count: 1,
        serialization_format: "cdr".to_string(),
        offered_qos_profiles: None,
    }
}

#[test]
fn find_topic_picks_the_named_topic_or_reports_it_missing() {
    let topics = vec![topic("/tf"), topic("/odom")];
    let t = find_topic(&topics, "/odom").expect("lookup failed");
    assert_eq!(t.name, "/odom".to_string());
    let err = find_topic(&topics, "/missing").unwrap_err();
    assert_eq!(err, RosPeekError::TopicNotFound("/missing".to_string()));
}

#[test]
fn nanoseconds_render_as_calendar_time() {
    assert_eq!(ns_to_iso(1630456800000000000), "2021-09-01 00:40:00");
    assert_eq!(ns_to_iso(0), "1970-01-01 00:00:00");
}

#[test]
fn error_messages_name_their_cause() {
    assert_eq!(
        RosPeekError::IdlNotFound("foo_msgs/msg/Bar".to_string()).message(),
        "IDL path not found: foo_msgs/msg/Bar"
    );
    assert_eq!(
        RosPeekError::UnexpectedEndOfData.message(),
        "unexpected end of data"
    );
    assert_eq!(
        RosPeekError::TopicNotFound("/tf".to_string()).message(),
        "topic not found: /tf"
    );
}

use rospeek::hexdump::dump_bytes;
use rospeek::reader::{aggregate_topics, MessageMeta};

fn meta(topic: &str, id: u16) -> MessageMeta {
    MessageMeta {
        topic: topic.to_string(),
        channel_id: id,
        typename: "foo_msgs/msg/Foo".to_string(),
        encoding: "cdr".to_string(),
    }
}

#[test]
fn topics_aggregate_in_first_appearance_order_with_counts() {
    let metas = vec![
        meta("/tf", 1),
        meta("/odom", 2),
        meta("/tf", 1),
        meta("/tf", 1),
        meta("/scan", 3),
    ];
    let topics = aggregate_topics(&metas);
    assert_eq!(topics.len(), 3);
    assert_eq!(topics[0].name, "/tf");
    assert_eq!(topics[0].count, 3);
    assert_eq!(topics[0].id, 1);
    assert_eq!(topics[1].name, "/odom");
    assert_eq!(topics[1].count, 1);
    assert_eq!(topics[2].name, "/scan");
    assert_eq!(topics[2].count, 1);
    assert_eq!(topics[2].serialization_format, "cdr");
    assert!(topics[0].offered_qos_profiles.is_none());
}

#[test]
fn hex_dump_lays_out_offsets_cells_and_text() {
    let bytes: Vec<u8> = (0u8..20).map(|b| b + 0x40).collect();
    let out = dump_bytes(&bytes, 64);
    let expected = "00000000: 40 41 42 43 | 44 45 46 47 | 48 49 4a 4b | 4c 4d 4e 4f  @ABCDEFGHIJKLMNO\n\
                    00000010: 50 51 52 53 |             |             |              PQRS\n";
    assert_eq!(out, expected);
}

#[test]
fn hex_dump_ends_with_ellipsis_past_the_line_limit() {
    let bytes = vec![0u8; 48];
    let out = dump_bytes(&bytes, 2);
    assert!(out.ends_with("..."));
    assert_eq!(out.matches('\n').count(), 2);
}

#[test]
fn hex_dump_marks_non_graphic_bytes_with_dots() {
    let out = dump_bytes(&[0x00, 0x1F, 0x20, 0x7F], 64);
    // NUL, unit separator, space and DEL all render as dots.
    assert!(out.ends_with(" ....\n"));
}
