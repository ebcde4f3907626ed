use vstd::prelude::*;

verus! {

/// One topic of a recording container: a named, typed message stream.
#[derive(Debug, Clone, PartialEq)]
pub struct Topic {
    pub id: u16,
    pub name: String,
    pub typename: String,
    pub count: u64,
    pub serialization_format: String,
    pub offered_qos_profiles: Option<String>,
}

/// One raw message as read from a container.
#[derive(Debug, Clone, PartialEq)]
pub struct RawMessage {
    /// UNIX epoch nanoseconds.
    pub timestamp: u64,
    /// Topic ID.
    pub topic_id: u16,
    /// The encoded message, header included.
    pub data: Vec<u8>,
}

} // verus!
