use vstd::prelude::*;

use crate::error::{RosPeekError, RosPeekResult};
use crate::model::{Topic, RawMessage};

verus! {

/// The storage backend of a recording container.
#[derive(Debug, Clone, Copy, PartialEq, Eq, Structural)]
pub enum StorageType {
    Sqlite3,
    Mcap,
}

/// The reading interface the viewer needs from a container backend.
/// Implementations wrap the container readers, which do I/O and live
/// outside this crate.
pub trait Backend: Send + Sync {
    fn open(path: &str) -> RosPeekResult<Self> where Self: core::marker::Sized;

    fn topics(&self) -> RosPeekResult<Vec<Topic>>;

    fn read_messages(&self, topic: &str, start_ns: Option<u64>, limit: usize) -> RosPeekResult<
        Vec<RawMessage>,
    >;
}

// --- Message filtering -------------------------------------------------------

/// The abstract form of one raw message.
pub open spec fn msg_view(m: RawMessage) -> (u64, u16, Seq<u8>) {
    (m.timestamp, m.topic_id, m.data@)
}

/// The abstract forms of a message list.
pub open spec fn msgs_view(ms: Seq<RawMessage>) -> Seq<(u64, u16, Seq<u8>)> {
    Seq::new(ms.len(), |i: int| msg_view(ms[i]))
}

/// The messages with `since <= timestamp <= until`, in their given order.
pub open spec fn in_window(
    ms: Seq<(u64, u16, Seq<u8>)>,
    since: u64,
    until: u64,
) -> Seq<(u64, u16, Seq<u8>)>
    decreases ms.len(),
{
    if ms.len() == 0 {
        Seq::empty()
    } else {
        in_window(ms.drop_last(), since, until) + (if since <= ms.last().0 <= until {
            seq![ms.last()]
        } else {
            Seq::empty()
        })
    }
}

/// A copy of one raw message, equal in the abstract.
pub fn clone_message(m: &RawMessage) -> (r: RawMessage)
    ensures
        msg_view(r) == msg_view(*m),
{
    RawMessage { timestamp: m.timestamp, topic_id: m.topic_id, data: m.data.clone() }
}

/// The messages whose timestamp lies in the inclusive window
/// `[since, until]`, keeping their order.
#[verifier::loop_isolation(false)]
pub fn filter_messages_between(ms: &Vec<RawMessage>, since: u64, until: u64) -> (r: Vec<
    RawMessage,
>)
    ensures
        msgs_view(r@) == in_window(msgs_view(ms@), since, until),
{
    let n = ms.len();
    let mut out: Vec<RawMessage> = Vec::new();
    proof {
        assert(msgs_view(ms@).take(0) =~= Seq::<(u64, u16, Seq<u8>)>::empty());
        assert(msgs_view(out@) =~= in_window(msgs_view(ms@).take(0), since, until));
    }
    for i in 0..n
        invariant
            n == ms.len(),
            msgs_view(out@) == in_window(msgs_view(ms@).take(i as int), since, until),
    {
        let ghost prefix = msgs_view(ms@).take(i as int);
        let ghost ext = msgs_view(ms@).take(i + 1);
        proof {
            assert(ext.drop_last() =~= prefix);
            assert(ext.last() == msg_view(ms@[i as int]));
        }
        let m = &ms[i];
        if since <= m.timestamp && m.timestamp <= until {
            let c = clone_message(m);
            proof {
                assert(msgs_view(out@.push(c)) =~= msgs_view(out@) + seq![msg_view(c)]);
            }
            out.push(c);
        } else {
            proof {
                assert(msgs_view(out@) + Seq::<(u64, u16, Seq<u8>)>::empty() =~= msgs_view(out@));
            }
        }
    }
    proof {
        assert(msgs_view(ms@).take(n as int) =~= msgs_view(ms@));
    }
    out
}

/// The messages with `timestamp >= since`, keeping their order.
pub fn filter_messages_since(ms: &Vec<RawMessage>, since: u64) -> (r: Vec<RawMessage>)
    ensures
        msgs_view(r@) == in_window(msgs_view(ms@), since, u64::MAX),
{
    filter_messages_between(ms, since, u64::MAX)
}

/// The messages with `timestamp <= until`, keeping their order.
pub fn filter_messages_until(ms: &Vec<RawMessage>, until: u64) -> (r: Vec<RawMessage>)
    ensures
        msgs_view(r@) == in_window(msgs_view(ms@), 0, until),
{
    filter_messages_between(ms, 0, until)
}

// --- Topic lookup ------------------------------------------------------------

/// First topic named `nm`, if any.
pub open spec fn topic_find(ts: Seq<Topic>, nm: Seq<char>) -> Option<Topic>
    decreases ts.len(),
{
    if ts.len() == 0 {
        None
    } else if ts[0].name@ == nm {
        Some(ts[0])
    } else {
        topic_find(ts.drop_first(), nm)
    }
}

/// The first topic named `name`, or `TopicNotFound`.
#[verifier::loop_isolation(false)]
pub fn find_topic<'t>(topics: &'t Vec<Topic>, name: &str) -> (r: Result<&'t Topic, RosPeekError>)
    ensures
        match r {
            Ok(t) => topic_find(topics@, name@) == Some(*t),
            Err(e) => topic_find(topics@, name@) is None && (e matches RosPeekError::TopicNotFound(
                m,
            ) && m@ == name@),
        },
{
    let n = topics.len();
    proof {
        assert(topics@.skip(0) =~= topics@);
    }
    for i in 0..n
        invariant
            n == topics.len(),
            topic_find(topics@, name@) == topic_find(topics@.skip(i as int), name@),
    {
        proof {
            assert(topics@.skip(i as int)[0] == topics@[i as int]);
            assert(topics@.skip(i as int).drop_first() =~= topics@.skip(i + 1));
        }
        if crate::text::str_eq(topics[i].name.as_str(), name) {
            return Ok(&topics[i]);
        }
    }
    proof {
        assert(topics@.skip(n as int) =~= Seq::<Topic>::empty());
    }
    Err(RosPeekError::TopicNotFound(name.to_owned()))
}

// --- Timestamp rendering -----------------------------------------------------

/// The calendar rendering of a UNIX timestamp, `YYYY-MM-DD hh:mm:ss`:
/// a function of the seconds and nanoseconds alone.
pub uninterp spec fn iso_of(secs: i64, nanos: u32) -> Seq<char>;

/// Relies on chrono's `DateTime::from_timestamp` and
/// `format("%Y-%m-%d %H:%M:%S")`: the rendering depends only on the two
/// arguments, and a non-negative timestamp of at most `u64::MAX`
/// nanoseconds-since-epoch seconds is always in chrono's range.
#[verifier::external_body]
fn format_timestamp(secs: i64, nanos: u32) -> (r: String)
    requires
        0 <= secs <= 18_446_744_073i64,
        nanos < 1_000_000_000,
    ensures
        r@ == iso_of(secs, nanos),
{
    let date = chrono::DateTime::from_timestamp(secs, nanos).unwrap();
    date.format("%Y-%m-%d %H:%M:%S").to_string()
}

/// Renders nanoseconds since the UNIX epoch as `YYYY-MM-DD hh:mm:ss`.
pub fn ns_to_iso(ns: u64) -> (r: String)
    ensures
        r@ == iso_of((ns / 1_000_000_000) as i64, (ns % 1_000_000_000) as u32),
{
    let secs = (ns / 1_000_000_000) as i64;
    let nsecs = (ns % 1_000_000_000) as u32;
    format_timestamp(secs, nsecs)
}


// --- Topic aggregation -------------------------------------------------------

/// Per-message metadata handed in by a container reader: enough to build
/// the topic list.
#[derive(Debug, Clone, PartialEq)]
pub struct MessageMeta {
    pub topic: String,
    pub channel_id: u16,
    pub typename: String,
    pub encoding: String,
}

/// The distinct topic names of `ms`, in first-appearance order.
pub open spec fn distinct_topics(ms: Seq<MessageMeta>) -> Seq<Seq<char>>
    decreases ms.len(),
{
    if ms.len() == 0 {
        Seq::empty()
    } else {
        let prev = distinct_topics(ms.drop_last());
        if crate::flatten::col_in(prev, ms.last().topic@) {
            prev
        } else {
            prev.push(ms.last().topic@)
        }
    }
}

/// How many messages of `ms` belong to topic `nm`.
pub open spec fn topic_count(ms: Seq<MessageMeta>, nm: Seq<char>) -> int
    decreases ms.len(),
{
    if ms.len() == 0 {
        0
    } else {
        topic_count(ms.drop_last(), nm) + (if ms.last().topic@ == nm {
            1int
        } else {
            0int
        })
    }
}

/// The first message of topic `nm`, if any.
pub open spec fn topic_first(ms: Seq<MessageMeta>, nm: Seq<char>) -> Option<MessageMeta>
    decreases ms.len(),
{
    if ms.len() == 0 {
        None
    } else {
        let prev = topic_first(ms.drop_last(), nm);
        if prev is Some {
            prev
        } else if ms.last().topic@ == nm {
            Some(ms.last())
        } else {
            None
        }
    }
}

/// A topic appears among the distinct names exactly when it has a first
/// message and a positive count, which never exceeds the message count.
proof fn lemma_topic_occurrence(ms: Seq<MessageMeta>, nm: Seq<char>)
    ensures
        crate::flatten::col_in(distinct_topics(ms), nm) <==> topic_first(ms, nm) is Some,
        (topic_first(ms, nm) is Some) <==> topic_count(ms, nm) > 0,
        0 <= topic_count(ms, nm) <= ms.len(),
    decreases ms.len(),
{
    if ms.len() > 0 {
        lemma_topic_occurrence(ms.drop_last(), nm);
        let prev = distinct_topics(ms.drop_last());
        if ms.last().topic@ == nm {
            if !crate::flatten::col_in(prev, nm) {
                assert(prev.push(nm)[prev.len() as int] == nm);
                assert(crate::flatten::col_in(prev.push(nm), nm));
            }
        } else {
            if crate::flatten::col_in(prev, nm) {
                assert(crate::flatten::col_in(distinct_topics(ms), nm)) by {
                    let q = choose|q: int| 0 <= q < prev.len() && prev[q] == nm;
                    if !crate::flatten::col_in(prev, ms.last().topic@) {
                        assert(prev.push(ms.last().topic@)[q] == nm);
                    }
                }
            } else {
                if crate::flatten::col_in(distinct_topics(ms), nm) {
                    let q = choose|q: int|
                        0 <= q < distinct_topics(ms).len() && distinct_topics(ms)[q] == nm;
                    if !crate::flatten::col_in(prev, ms.last().topic@) {
                        assert(q < prev.len() ==> prev[q] == nm);
                    }
                }
            }
        }
    }
}

/// The names of a topic list.
pub open spec fn topic_names(ts: Seq<Topic>) -> Seq<Seq<char>> {
    Seq::new(ts.len(), |i: int| ts[i].name@)
}

/// Builds the topic list of a message stream: one topic per distinct
/// name in first-appearance order, its identity taken from the topic's
/// first message and its count from the number of its messages.
#[verifier::loop_isolation(false)]
pub fn aggregate_topics(metas: &Vec<MessageMeta>) -> (r: Vec<Topic>)
    ensures
        topic_names(r@) == distinct_topics(metas@),
        forall|i: int|
            0 <= i < r@.len() ==> (#[trigger] r@[i]).count == topic_count(metas@, r@[i].name@)
                && (topic_first(metas@, r@[i].name@) matches Some(m) && m.channel_id == r@[i].id
                && m.typename@ == r@[i].typename@ && m.encoding@ == r@[i].serialization_format@)
                && r@[i].offered_qos_profiles is None,
{
    let n = metas.len();
    let mut out: Vec<Topic> = Vec::new();
    proof {
        assert(metas@.take(0) =~= Seq::<MessageMeta>::empty());
        assert(topic_names(out@) =~= distinct_topics(metas@.take(0)));
    }
    for i in 0..n
        invariant
            n == metas.len(),
            topic_names(out@) == distinct_topics(metas@.take(i as int)),
            forall|j: int, k: int|
                0 <= j < k < out@.len() ==> (#[trigger] out@[j]).name@ != (#[trigger] out@[k]).name@,
            forall|j: int|
                0 <= j < out@.len() ==> (#[trigger] out@[j]).count == topic_count(
                    metas@.take(i as int),
                    out@[j].name@,
                ) && (topic_first(metas@.take(i as int), out@[j].name@) matches Some(m)
                    && m.channel_id == out@[j].id && m.typename@ == out@[j].typename@
                    && m.encoding@ == out@[j].serialization_format@)
                    && out@[j].offered_qos_profiles is None,
    {
        let ghost prefix = metas@.take(i as int);
        let ghost ext = metas@.take(i + 1);
        proof {
            assert(ext.drop_last() =~= prefix);
            assert(ext.last() == metas@[i as int]);
        }
        let meta = &metas[i];
        let no = out.len();
        let mut found = no;
        for j in 0..no
            invariant
                no == out@.len(),
                found <= no,
                found == no ==> forall|k: int| 0 <= k < j ==> (#[trigger] out@[k]).name@
                    != meta.topic@,
                found < no ==> out@[found as int].name@ == meta.topic@,
            decreases no - j,
        {
            if found == no && crate::text::str_eq(out[j].name.as_str(), meta.topic.as_str()) {
                found = j;
            }
        }
        if found < no {
            proof {
                assert(topic_names(out@)[found as int] == meta.topic@);
                assert(crate::flatten::col_in(topic_names(out@), meta.topic@));
                assert(distinct_topics(ext) == distinct_topics(prefix));
                lemma_topic_occurrence(prefix, meta.topic@);
            }
            let ghost before = out@;
            let t = vstd::std_specs::vec::vec_index_mut(&mut out, found);
            t.count = t.count + 1;
            proof {
                assert(out@ =~= before.update(
                    found as int,
                    Topic { count: (before[found as int].count + 1) as u64, ..before[found as int] },
                ));
                assert(topic_names(out@) =~= topic_names(before));
            }
        } else {
            proof {
                assert(!crate::flatten::col_in(topic_names(out@), meta.topic@)) by {
                    if crate::flatten::col_in(topic_names(out@), meta.topic@) {
                        let q = choose|q: int|
                            0 <= q < out@.len() && topic_names(out@)[q] == meta.topic@;
                        assert(out@[q].name@ == meta.topic@);
                    }
                }
                lemma_topic_occurrence(prefix, meta.topic@);
            }
            let t = Topic {
                id: meta.channel_id,
                name: meta.topic.clone(),
                typename: meta.typename.clone(),
                count: 1,
                serialization_format: meta.encoding.clone(),
                offered_qos_profiles: None,
            };
            proof {
                assert(topic_names(out@.push(t)) =~= topic_names(out@).push(meta.topic@));
            }
            out.push(t);
        }
    }
    proof {
        assert(metas@.take(n as int) =~= metas@);
    }
    out
}

} // verus!
