//! Decoding of recorded robot-sensor message logs: a schema model parsed
//! from interface-definition sources, a resolver that locates a type's
//! definition under configured search directories, a binary decoder that
//! walks an encoded payload by its schema — endianness, alignment,
//! primitives, nested types, fixed arrays and dynamic sequences — and a
//! parallel batch decoder with flattening into tabular form.
//!
//! Every function here carries a contract relating it to a mathematical
//! model of the wire format, and the decoder is proved to invert any
//! conforming encoder.

pub mod cdr;
pub mod error;
pub mod flatten;
pub mod hexdump;
pub mod model;
pub mod reader;
pub mod resolver;
pub mod roundtrip;
pub mod schema;
pub mod text;
pub mod value;
