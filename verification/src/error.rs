use vstd::prelude::*;

verus! {

/// Errors reported by the decoding and schema-resolution core.
///
/// Every fallible function of this crate states in its contract exactly
/// which of these variants it can return, and on which inputs.
#[derive(Debug, Clone, PartialEq, Eq)]
pub enum RosPeekError {
    /// A read ran past the end of the message buffer.
    UnexpectedEndOfData,
    /// The bytes of a decoded string are not valid UTF-8.
    InvalidUtf8,
    /// No interface definition is known for the given type name.
    IdlNotFound(String),
    /// Nested message types exceed the decoder's recursion budget.
    RecursionLimit,
    /// The requested topic does not exist in the container.
    TopicNotFound(String),
    /// The container format is not one the readers understand.
    UnsupportedFormat(String),
    /// A failure reported by an outside reader or writer.
    Io(String),
    /// Any other failure, with a human-readable cause.
    Other(String),
}

pub type RosPeekResult<T> = Result<T, RosPeekError>;

/// The abstract form of a decode-time error, used by the specification
/// of the decoder: payloads are character sequences rather than `String`s.
pub enum DecodeErr {
    Eof,
    Utf8,
    NotFound(Seq<char>),
    Depth,
}

/// Relates an executable error value to its abstract form.
pub open spec fn err_matches(e: RosPeekError, d: DecodeErr) -> bool {
    match d {
        DecodeErr::Eof => e == RosPeekError::UnexpectedEndOfData,
        DecodeErr::Utf8 => e == RosPeekError::InvalidUtf8,
        DecodeErr::NotFound(tn) => e matches RosPeekError::IdlNotFound(s) && s@ == tn,
        DecodeErr::Depth => e == RosPeekError::RecursionLimit,
    }
}

/// What `message` returns for each error value.
pub open spec fn spec_message(e: RosPeekError) -> Seq<char> {
    match e {
        RosPeekError::UnexpectedEndOfData => "unexpected end of data"@,
        RosPeekError::InvalidUtf8 => "invalid UTF-8 data"@,
        RosPeekError::IdlNotFound(s) => "IDL path not found: "@ + s@,
        RosPeekError::RecursionLimit => "nested message types are too deep"@,
        RosPeekError::TopicNotFound(s) => "topic not found: "@ + s@,
        RosPeekError::UnsupportedFormat(s) => "unsupported format: "@ + s@,
        RosPeekError::Io(s) => "IO error: "@ + s@,
        RosPeekError::Other(s) => "other: "@ + s@,
    }
}

impl RosPeekError {
    /// A human-readable description of the error.
    pub fn message(&self) -> (r: String)
        ensures
            r@ == spec_message(*self),
    {
        match self {
            RosPeekError::UnexpectedEndOfData => "unexpected end of data".to_owned(),
            RosPeekError::InvalidUtf8 => "invalid UTF-8 data".to_owned(),
            RosPeekError::IdlNotFound(s) => {
                let mut m = "IDL path not found: ".to_owned();
                m.append(s.as_str());
                m
            },
            RosPeekError::RecursionLimit => "nested message types are too deep".to_owned(),
            RosPeekError::TopicNotFound(s) => {
                let mut m = "topic not found: ".to_owned();
                m.append(s.as_str());
                m
            },
            RosPeekError::UnsupportedFormat(s) => {
                let mut m = "unsupported format: ".to_owned();
                m.append(s.as_str());
                m
            },
            RosPeekError::Io(s) => {
                let mut m = "IO error: ".to_owned();
                m.append(s.as_str());
                m
            },
            RosPeekError::Other(s) => {
                let mut m = "other: ".to_owned();
                m.append(s.as_str());
                m
            },
        }
    }
}

} // verus!
