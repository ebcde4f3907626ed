use vstd::prelude::*;

use crate::error::{RosPeekError, DecodeErr};
use crate::resolver::{SchemaResolver, SpecEntry, spec_resolve};
use crate::schema::{MessageSchema, MessageField, FieldType, SpecSchema, SpecField, fields_view};
use crate::value::{Value, Document, SpecValue, entries_view, values_view, lemma_values_view_push, lemma_entries_view_push, lemma_entries_view_props};
use crate::text::str_eq;
use crate::model::RawMessage;
use rayon::iter::{IntoParallelRefIterator, ParallelIterator};
use vstd::utf8::{valid_utf8, decode_utf8};

verus! {

/// The byte order of one encoded message, detected from its header.
#[derive(Debug, Clone, Copy, PartialEq, Eq, Structural)]
pub enum Endianness {
    Little,
    Big,
}

/// How deeply message types may nest before decoding gives up. Real
/// schemas are shallow; this bound only rules out cyclic definitions.
pub const MAX_NESTING: u32 = 64;

// --- Reading primitives, abstractly ----------------------------------------

/// Padding consumed to align position `p` to `align`.
pub open spec fn pad_for(align: int, p: int) -> int {
    (align - (p % align)) % align
}

/// The value of a little-endian byte sequence.
pub open spec fn le_val(b: Seq<u8>) -> int
    decreases b.len(),
{
    if b.len() == 0 {
        0
    } else {
        b[0] + 256 * le_val(b.drop_first())
    }
}

/// The value of a big-endian byte sequence.
pub open spec fn be_val(b: Seq<u8>) -> int
    decreases b.len(),
{
    if b.len() == 0 {
        0
    } else {
        b.last() + 256 * be_val(b.drop_last())
    }
}

/// Reads an unsigned integer of `size` bytes at position `p` of `b`:
/// alignment padding is consumed first, then `size` bytes in the given
/// byte order. Fails when the read would pass the end of the buffer.
pub open spec fn rd_uint(b: Seq<u8>, p: int, size: int, big: bool) -> Result<
    (int, int),
    DecodeErr,
> {
    let q = p + pad_for(size, p);
    if q + size <= b.len() {
        let bytes = b.subrange(q, q + size);
        Ok(((if big {
            be_val(bytes)
        } else {
            le_val(bytes)
        }), q + size))
    } else {
        Err(DecodeErr::Eof)
    }
}

/// Reads a string: a 4-byte aligned length prefix, then that many bytes.
/// A single trailing NUL byte, if present, is stripped; the remaining
/// bytes must be valid UTF-8.
pub open spec fn rd_string(b: Seq<u8>, p: int, big: bool) -> Result<(Seq<char>, int), DecodeErr> {
    match rd_uint(b, p, 4, big) {
        Ok((len, q)) => {
            if q + len <= b.len() {
                let raw = b.subrange(q, q + len);
                let stripped = if raw.len() > 0 && raw.last() == 0 {
                    raw.drop_last()
                } else {
                    raw
                };
                if valid_utf8(stripped) {
                    Ok((decode_utf8(stripped), q + len))
                } else {
                    Err(DecodeErr::Utf8)
                }
            } else {
                Err(DecodeErr::Eof)
            }
        },
        Err(e) => Err(e),
    }
}

// --- Decoding, abstractly ---------------------------------------------------

/// Decodes a single value of type `tn` at position `p`: a primitive for
/// the known keywords, the two built-in time types as `{sec, nanosec}`
/// records, and otherwise a nested message type looked up in `env`.
pub open spec fn sdec_single(
    env: Map<Seq<char>, SpecSchema>,
    b: Seq<u8>,
    p: int,
    big: bool,
    tn: Seq<char>,
    fuel: nat,
) -> Result<(SpecValue, int), DecodeErr>
    decreases fuel, 0nat, 0nat,
{
    if tn == "boolean"@ {
        match rd_uint(b, p, 1, big) {
            Ok((v, q)) => Ok((SpecValue::Bool(v != 0), q)),
            Err(e) => Err(e),
        }
    } else if tn == "octet"@ || tn == "uint8"@ {
        match rd_uint(b, p, 1, big) {
            Ok((v, q)) => Ok((SpecValue::UInt(v as u64), q)),
            Err(e) => Err(e),
        }
    } else if tn == "char"@ {
        match rd_uint(b, p, 1, big) {
            Ok((v, q)) => Ok((SpecValue::Char((v as u8) as char), q)),
            Err(e) => Err(e),
        }
    } else if tn == "int8"@ {
        match rd_uint(b, p, 1, big) {
            Ok((v, q)) => Ok((SpecValue::Int(((v as u8) as i8) as i64), q)),
            Err(e) => Err(e),
        }
    } else if tn == "uint16"@ {
        match rd_uint(b, p, 2, big) {
            Ok((v, q)) => Ok((SpecValue::UInt(v as u64), q)),
            Err(e) => Err(e),
        }
    } else if tn == "int16"@ {
        match rd_uint(b, p, 2, big) {
            Ok((v, q)) => Ok((SpecValue::Int(((v as u16) as i16) as i64), q)),
            Err(e) => Err(e),
        }
    } else if tn == "uint32"@ {
        match rd_uint(b, p, 4, big) {
            Ok((v, q)) => Ok((SpecValue::UInt(v as u64), q)),
            Err(e) => Err(e),
        }
    } else if tn == "int32"@ {
        match rd_uint(b, p, 4, big) {
            Ok((v, q)) => Ok((SpecValue::Int(((v as u32) as i32) as i64), q)),
            Err(e) => Err(e),
        }
    } else if tn == "uint64"@ {
        match rd_uint(b, p, 8, big) {
            Ok((v, q)) => Ok((SpecValue::UInt(v as u64), q)),
            Err(e) => Err(e),
        }
    } else if tn == "int64"@ {
        match rd_uint(b, p, 8, big) {
            Ok((v, q)) => Ok((SpecValue::Int((v as u64) as i64), q)),
            Err(e) => Err(e),
        }
    } else if tn == "float"@ {
        match rd_uint(b, p, 4, big) {
            Ok((v, q)) => Ok((SpecValue::F32Bits(v as u32), q)),
            Err(e) => Err(e),
        }
    } else if tn == "double"@ {
        match rd_uint(b, p, 8, big) {
            Ok((v, q)) => Ok((SpecValue::F64Bits(v as u64), q)),
            Err(e) => Err(e),
        }
    } else if tn == "string"@ {
        match rd_string(b, p, big) {
            Ok((s, q)) => Ok((SpecValue::Text(s), q)),
            Err(e) => Err(e),
        }
    } else if tn == "builtin_interfaces/msg/Time"@ || tn == "builtin_interfaces/msg/Duration"@ {
        match rd_uint(b, p, 4, big) {
            Ok((sec, q)) => match rd_uint(b, q, 4, big) {
                Ok((ns, r)) => Ok(
                    (
                        SpecValue::Record(
                            seq![
                                ("sec"@, SpecValue::Int((((sec as u32) as i32) as i64))),
                                ("nanosec"@, SpecValue::UInt(ns as u64)),
                            ],
                        ),
                        r,
                    ),
                ),
                Err(e) => Err(e),
            },
            Err(e) => Err(e),
        }
    } else {
        if fuel == 0 {
            Err(DecodeErr::Depth)
        } else if env.contains_key(tn) {
            match sdec_fields(env, b, p, big, env[tn].fields, (fuel - 1) as nat) {
                Ok((entries, q)) => Ok((SpecValue::Record(entries), q)),
                Err(e) => Err(e),
            }
        } else {
            Err(DecodeErr::NotFound(tn))
        }
    }
}

/// Decodes `count` consecutive values of element type `tn`.
pub open spec fn sdec_elems(
    env: Map<Seq<char>, SpecSchema>,
    b: Seq<u8>,
    p: int,
    big: bool,
    tn: Seq<char>,
    count: nat,
    fuel: nat,
) -> Result<(Seq<SpecValue>, int), DecodeErr>
    decreases fuel, 1nat, count,
{
    if count == 0 {
        Ok((Seq::empty(), p))
    } else {
        match sdec_single(env, b, p, big, tn, fuel) {
            Ok((v, q)) => match sdec_elems(env, b, q, big, tn, (count - 1) as nat, fuel) {
                Ok((vs, r)) => Ok((seq![v] + vs, r)),
                Err(e) => Err(e),
            },
            Err(e) => Err(e),
        }
    }
}

/// Decodes one declared field: a fixed array consumes exactly its declared
/// element count with no length prefix; a sequence first reads a 4-byte
/// aligned element count; anything else is a single value.
pub open spec fn sdec_field(
    env: Map<Seq<char>, SpecSchema>,
    b: Seq<u8>,
    p: int,
    big: bool,
    f: SpecField,
    fuel: nat,
) -> Result<(SpecValue, int), DecodeErr>
    decreases fuel, 2nat, 0nat,
{
    match f.ftype {
        crate::schema::SpecFieldType::Object(tn) => sdec_single(env, b, p, big, tn, fuel),
        crate::schema::SpecFieldType::Array(tn, l) => {
            match sdec_elems(env, b, p, big, tn, l as nat, fuel) {
                Ok((vs, q)) => Ok((SpecValue::List(vs), q)),
                Err(e) => Err(e),
            }
        },
        crate::schema::SpecFieldType::Sequence(tn) => {
            match rd_uint(b, p, 4, big) {
                Ok((l, q)) => match sdec_elems(env, b, q, big, tn, l as nat, fuel) {
                    Ok((vs, r)) => Ok((SpecValue::List(vs), r)),
                    Err(e) => Err(e),
                },
                Err(e) => Err(e),
            }
        },
    }
}

/// Decodes an ordered field list, accumulating `(name, value)` entries in
/// declaration order.
pub open spec fn sdec_fields(
    env: Map<Seq<char>, SpecSchema>,
    b: Seq<u8>,
    p: int,
    big: bool,
    fs: Seq<SpecField>,
    fuel: nat,
) -> Result<(Seq<(Seq<char>, SpecValue)>, int), DecodeErr>
    decreases fuel, 3nat, fs.len(),
{
    if fs.len() == 0 {
        Ok((Seq::empty(), p))
    } else {
        match sdec_field(env, b, p, big, fs[0], fuel) {
            Ok((v, q)) => match sdec_fields(env, b, q, big, fs.drop_first(), fuel) {
                Ok((es, r)) => Ok((seq![(fs[0].name, v)] + es, r)),
                Err(e) => Err(e),
            },
            Err(e) => Err(e),
        }
    }
}

/// Whether a message buffer selects big-endian decoding: header byte
/// offset 1 is zero. Any other value, or a missing byte, selects
/// little-endian.
pub open spec fn spec_big_endian(data: Seq<u8>) -> bool {
    data.len() >= 2 && data[1] == 0
}

/// What decoding one whole message yields: the buffer must hold the
/// 4-byte header; the body after it is decoded against the schema's
/// fields in the header-selected byte order.
pub open spec fn spec_decode_message(
    env: Map<Seq<char>, SpecSchema>,
    schema: SpecSchema,
    data: Seq<u8>,
) -> Result<Seq<(Seq<char>, SpecValue)>, DecodeErr> {
    if data.len() < 4 {
        Err(DecodeErr::Eof)
    } else {
        match sdec_fields(
            env,
            data.skip(4),
            0,
            spec_big_endian(data),
            schema.fields,
            MAX_NESTING as nat,
        ) {
            Ok((es, _)) => Ok(es),
            Err(e) => Err(e),
        }
    }
}

// --- The decoder ------------------------------------------------------------

/// Detects the byte order of an encoded message from header byte offset 1.
pub fn to_endianness(data: &[u8]) -> (r: Endianness)
    ensures
        r == (if spec_big_endian(data@) {
            Endianness::Big
        } else {
            Endianness::Little
        }),
{
    if data.len() >= 2 {
        let b = data[1];
        if b == 0x00 {
            Endianness::Big
        } else {
            Endianness::Little
        }
    } else {
        Endianness::Little
    }
}

/// A cursor over one encoded message body, together with the schema
/// sources used to resolve nested message types and a cache of the
/// schemas already resolved.
pub struct CdrDecoder<'a> {
    buf: &'a [u8],
    pos: usize,
    big: bool,
    resolver: SchemaResolver,
    cache: Vec<(String, MessageSchema)>,
}

/// First schema bound to `tn` in a cache, if any.
pub open spec fn cache_find(c: Seq<(Seq<char>, SpecSchema)>, tn: Seq<char>) -> Option<SpecSchema>
    decreases c.len(),
{
    if c.len() == 0 {
        None
    } else if c[0].0 == tn {
        Some(c[0].1)
    } else {
        cache_find(c.drop_first(), tn)
    }
}

/// The schema a decoder knows for `tn`: the cache is consulted first,
/// then the resolver's search directories.
pub open spec fn env_lookup(
    cache: Seq<(Seq<char>, SpecSchema)>,
    dirs: Seq<Seq<SpecEntry>>,
    tn: Seq<char>,
) -> Option<SpecSchema> {
    match cache_find(cache, tn) {
        Some(s) => Some(s),
        None => spec_resolve(dirs, tn),
    }
}

/// The schema environment as a map.
pub open spec fn env_from(
    cache: Seq<(Seq<char>, SpecSchema)>,
    dirs: Seq<Seq<SpecEntry>>,
) -> Map<Seq<char>, SpecSchema> {
    Map::new(|tn: Seq<char>| env_lookup(cache, dirs, tn) is Some, |tn: Seq<char>| env_lookup(cache, dirs, tn)->Some_0)
}

impl<'a> CdrDecoder<'a> {
    /// The message body this decoder reads: the bytes after the header.
    pub closed spec fn body(self) -> Seq<u8> {
        self.buf@
    }

    /// The cursor position within the body.
    pub closed spec fn cursor(self) -> int {
        self.pos as int
    }

    /// Whether multi-byte values are decoded big-endian.
    pub closed spec fn is_big(self) -> bool {
        self.big
    }

    /// The cached schemas, in insertion order.
    pub closed spec fn cached(self) -> Seq<(Seq<char>, SpecSchema)> {
        Seq::new(self.cache@.len(), |i: int| (self.cache@[i].0@, self.cache@[i].1@))
    }

    /// The resolver's search directories.
    pub closed spec fn dirs_view(self) -> Seq<Seq<SpecEntry>> {
        self.resolver@
    }

    /// The schema environment this decoder resolves nested types against.
    pub open spec fn schema_env(self) -> Map<Seq<char>, SpecSchema> {
        env_from(self.cached(), self.dirs_view())
    }

    /// The cursor never passes the end of the body.
    pub closed spec fn wf(self) -> bool {
        self.pos <= self.buf@.len()
    }

    /// Whether two decoder states read the same stream the same way.
    pub open spec fn same_stream(self, other: CdrDecoder<'a>) -> bool {
        other.body() == self.body() && other.is_big() == self.is_big() && other.schema_env()
            == self.schema_env()
    }

    /// A decoder over one encoded message, with no schema sources: only
    /// primitive fields and the built-in time types can be decoded.
    /// The endianness comes from header byte offset 1; the 4-byte header
    /// is then skipped.
    pub fn new(data: &'a [u8]) -> (r: CdrDecoder<'a>)
        requires
            data@.len() >= 4,
        ensures
            r.wf(),
            r.body() == data@.skip(4),
            r.cursor() == 0,
            r.is_big() == spec_big_endian(data@),
            r.cached() == Seq::<(Seq<char>, SpecSchema)>::empty(),
            r.dirs_view() == Seq::<Seq<SpecEntry>>::empty(),
    {
        let e = to_endianness(data);
        let body = vstd::slice::slice_subrange(data, 4, data.len());
        let r = CdrDecoder {
            buf: body,
            pos: 0,
            big: matches!(e, Endianness::Big),
            resolver: SchemaResolver::empty(),
            cache: Vec::new(),
        };
        proof {
            assert(r.cached() =~= Seq::<(Seq<char>, SpecSchema)>::empty());
        }
        r
    }

    /// A decoder seeded with one schema and not yet pointed at a message:
    /// `reset` must be called before decoding.
    pub fn from_schema(schema: &MessageSchema) -> (r: CdrDecoder<'a>)
        ensures
            r.wf(),
            r.body() == Seq::<u8>::empty(),
            r.cursor() == 0,
            r.is_big() == false,
            r.cached() == seq![(schema@.typename, schema@)],
            r.dirs_view() == Seq::<Seq<SpecEntry>>::empty(),
    {
        let mut cache: Vec<(String, MessageSchema)> = Vec::new();
        cache.push((schema.typename.clone(), clone_schema(schema)));
        let r = CdrDecoder {
            buf: empty_slice(),
            pos: 0,
            big: false,
            resolver: SchemaResolver::empty(),
            cache,
        };
        proof {
            assert(r.cached() =~= seq![(schema@.typename, schema@)]);
        }
        r
    }

    /// Replaces the schema sources used for nested type resolution.
    pub fn set_resolver(&mut self, resolver: SchemaResolver)
        ensures
            final(self).dirs_view() == resolver@,
            final(self).cached() == old(self).cached(),
            final(self).body() == old(self).body(),
            final(self).cursor() == old(self).cursor(),
            final(self).is_big() == old(self).is_big(),
            final(self).wf() == old(self).wf(),
    {
        self.resolver = resolver;
    }

    /// Points the decoder at a new message: the endianness is detected
    /// again and the 4-byte header skipped. The schema cache is kept.
    pub fn reset(&mut self, data: &'a [u8])
        requires
            data@.len() >= 4,
        ensures
            final(self).wf(),
            final(self).body() == data@.skip(4),
            final(self).cursor() == 0,
            final(self).is_big() == spec_big_endian(data@),
            final(self).cached() == old(self).cached(),
            final(self).dirs_view() == old(self).dirs_view(),
    {
        let e = to_endianness(data);
        self.big = matches!(e, Endianness::Big);
        self.buf = vstd::slice::slice_subrange(data, 4, data.len());
        self.pos = 0;
    }

    // --- Reading primitives ------------------------------------------------

    /// Consumes the padding that aligns the cursor to `align`.
    pub fn align_to(&mut self, align: usize) -> (r: Result<(), RosPeekError>)
        requires
            old(self).wf(),
            1 <= align,
        ensures
            final(self).wf(),
            old(self).same_stream(*final(self)),
            match r {
                Ok(()) => old(self).cursor() + pad_for(align as int, old(self).cursor())
                    <= old(self).body().len() && final(self).cursor() == old(self).cursor()
                    + pad_for(align as int, old(self).cursor()),
                Err(e) => old(self).cursor() + pad_for(align as int, old(self).cursor())
                    > old(self).body().len() && e == RosPeekError::UnexpectedEndOfData,
            },
    {
        let pad = (align - (self.pos % align)) % align;
        if pad <= self.buf.len() - self.pos {
            self.pos = self.pos + pad;
            Ok(())
        } else {
            Err(RosPeekError::UnexpectedEndOfData)
        }
    }

    /// Reads `n` raw bytes at the cursor, without alignment.
    pub fn decode_bytes(&mut self, n: usize) -> (r: Result<Vec<u8>, RosPeekError>)
        requires
            old(self).wf(),
        ensures
            final(self).wf(),
            old(self).same_stream(*final(self)),
            match r {
                Ok(v) => old(self).cursor() + n <= old(self).body().len() && v@ == old(self).body().subrange(
                    old(self).cursor(),
                    old(self).cursor() + n,
                ) && final(self).cursor() == old(self).cursor() + n,
                Err(e) => old(self).cursor() + n > old(self).body().len() && e
                    == RosPeekError::UnexpectedEndOfData,
            },
    {
        if n <= self.buf.len() - self.pos {
            let sl = vstd::slice::slice_subrange(self.buf, self.pos, self.pos + n);
            let v = vstd::slice::slice_to_vec(sl);
            self.pos = self.pos + n;
            Ok(v)
        } else {
            Err(RosPeekError::UnexpectedEndOfData)
        }
    }

    /// Reads one byte.
    pub fn decode_u8(&mut self) -> (r: Result<u8, RosPeekError>)
        requires
            old(self).wf(),
        ensures
            final(self).wf(),
            old(self).same_stream(*final(self)),
            match r {
                Ok(v) => rd_uint(old(self).body(), old(self).cursor(), 1, old(self).is_big())
                    == Ok::<_, DecodeErr>((v as int, final(self).cursor())),
                Err(e) => rd_uint(old(self).body(), old(self).cursor(), 1, old(self).is_big())
                    is Err && e == RosPeekError::UnexpectedEndOfData,
            },
    {
        proof {
            assert(pad_for(1, old(self).cursor()) == 0);
        }
        if self.pos < self.buf.len() {
            let b = self.buf[self.pos];
            let ghost p = self.pos as int;
            self.pos = self.pos + 1;
            proof {
                let bytes = old(self).body().subrange(p, p + 1);
                assert(bytes.len() == 1 && bytes[0] == b);
                assert(bytes.drop_first() =~= Seq::<u8>::empty());
                assert(bytes.drop_last() =~= Seq::<u8>::empty());
                assert(le_val(Seq::<u8>::empty()) == 0);
                assert(be_val(Seq::<u8>::empty()) == 0);
                assert(le_val(bytes) == b && be_val(bytes) == b);
            }
            Ok(b)
        } else {
            Err(RosPeekError::UnexpectedEndOfData)
        }
    }

    /// Reads a boolean: one byte, nonzero meaning true.
    pub fn decode_bool(&mut self) -> (r: Result<bool, RosPeekError>)
        requires
            old(self).wf(),
        ensures
            final(self).wf(),
            old(self).same_stream(*final(self)),
            match r {
                Ok(v) => rd_uint(old(self).body(), old(self).cursor(), 1, old(self).is_big())
                    matches Ok((u, q)) && v == (u != 0) && final(self).cursor() == q,
                Err(e) => rd_uint(old(self).body(), old(self).cursor(), 1, old(self).is_big())
                    is Err && e == RosPeekError::UnexpectedEndOfData,
            },
    {
        match self.decode_u8() {
            Ok(b) => Ok(b != 0),
            Err(e) => Err(e),
        }
    }

    /// Reads one byte reinterpreted as signed.
    pub fn decode_i8(&mut self) -> (r: Result<i8, RosPeekError>)
        requires
            old(self).wf(),
        ensures
            final(self).wf(),
            old(self).same_stream(*final(self)),
            match r {
                Ok(v) => rd_uint(old(self).body(), old(self).cursor(), 1, old(self).is_big())
                    matches Ok((u, q)) && v == (u as u8) as i8 && final(self).cursor() == q,
                Err(e) => rd_uint(old(self).body(), old(self).cursor(), 1, old(self).is_big())
                    is Err && e == RosPeekError::UnexpectedEndOfData,
            },
    {
        match self.decode_u8() {
            Ok(b) => Ok(b as i8),
            Err(e) => Err(e),
        }
    }

    /// Reads one byte as an ASCII code point.
    pub fn decode_char(&mut self) -> (r: Result<char, RosPeekError>)
        requires
            old(self).wf(),
        ensures
            final(self).wf(),
            old(self).same_stream(*final(self)),
            match r {
                Ok(v) => rd_uint(old(self).body(), old(self).cursor(), 1, old(self).is_big())
                    matches Ok((u, q)) && v == (u as u8) as char && final(self).cursor() == q,
                Err(e) => rd_uint(old(self).body(), old(self).cursor(), 1, old(self).is_big())
                    is Err && e == RosPeekError::UnexpectedEndOfData,
            },
    {
        match self.decode_u8() {
            Ok(b) => Ok(b as char),
            Err(e) => Err(e),
        }
    }

    /// Reads an aligned 16-bit unsigned integer in the detected byte order.
    pub fn decode_u16(&mut self) -> (r: Result<u16, RosPeekError>)
        requires
            old(self).wf(),
        ensures
            final(self).wf(),
            old(self).same_stream(*final(self)),
            match r {
                Ok(v) => rd_uint(old(self).body(), old(self).cursor(), 2, old(self).is_big())
                    == Ok::<_, DecodeErr>((v as int, final(self).cursor())),
                Err(e) => rd_uint(old(self).body(), old(self).cursor(), 2, old(self).is_big())
                    is Err && e == RosPeekError::UnexpectedEndOfData,
            },
    {
        match self.align_to(2) {
            Ok(()) => (),
            Err(e) => {
                return Err(e);
            },
        }
        if 2 <= self.buf.len() - self.pos {
            let b0 = self.buf[self.pos];
            let b1 = self.buf[self.pos + 1];
            let ghost q = self.pos as int;
            let v: u16 = if self.big {
                (b1 as u16) + 256 * (b0 as u16)
            } else {
                (b0 as u16) + 256 * (b1 as u16)
            };
            self.pos = self.pos + 2;
            proof {
                let bytes = old(self).body().subrange(q, q + 2);
                assert(bytes[0] == b0 && bytes[1] == b1);
                lemma_le2(bytes);
                lemma_be2(bytes);
            }
            Ok(v)
        } else {
            Err(RosPeekError::UnexpectedEndOfData)
        }
    }

    /// Reads an aligned 16-bit signed integer in the detected byte order.
    pub fn decode_i16(&mut self) -> (r: Result<i16, RosPeekError>)
        requires
            old(self).wf(),
        ensures
            final(self).wf(),
            old(self).same_stream(*final(self)),
            match r {
                Ok(v) => rd_uint(old(self).body(), old(self).cursor(), 2, old(self).is_big())
                    matches Ok((u, q)) && v == (u as u16) as i16 && final(self).cursor() == q,
                Err(e) => rd_uint(old(self).body(), old(self).cursor(), 2, old(self).is_big())
                    is Err && e == RosPeekError::UnexpectedEndOfData,
            },
    {
        match self.decode_u16() {
            Ok(v) => Ok(v as i16),
            Err(e) => Err(e),
        }
    }

    /// Reads an aligned 32-bit unsigned integer in the detected byte order.
    pub fn decode_u32(&mut self) -> (r: Result<u32, RosPeekError>)
        requires
            old(self).wf(),
        ensures
            final(self).wf(),
            old(self).same_stream(*final(self)),
            match r {
                Ok(v) => rd_uint(old(self).body(), old(self).cursor(), 4, old(self).is_big())
                    == Ok::<_, DecodeErr>((v as int, final(self).cursor())),
                Err(e) => rd_uint(old(self).body(), old(self).cursor(), 4, old(self).is_big())
                    is Err && e == RosPeekError::UnexpectedEndOfData,
            },
    {
        match self.align_to(4) {
            Ok(()) => (),
            Err(e) => {
                return Err(e);
            },
        }
        if 4 <= self.buf.len() - self.pos {
            let b0 = self.buf[self.pos];
            let b1 = self.buf[self.pos + 1];
            let b2 = self.buf[self.pos + 2];
            let b3 = self.buf[self.pos + 3];
            let ghost q = self.pos as int;
            let v: u32 = if self.big {
                (b3 as u32) + 256 * ((b2 as u32) + 256 * ((b1 as u32) + 256 * (b0 as u32)))
            } else {
                (b0 as u32) + 256 * ((b1 as u32) + 256 * ((b2 as u32) + 256 * (b3 as u32)))
            };
            self.pos = self.pos + 4;
            proof {
                let bytes = old(self).body().subrange(q, q + 4);
                assert(bytes[0] == b0 && bytes[1] == b1 && bytes[2] == b2 && bytes[3] == b3);
                lemma_le4(bytes);
                lemma_be4(bytes);
            }
            Ok(v)
        } else {
            Err(RosPeekError::UnexpectedEndOfData)
        }
    }

    /// Reads an aligned 32-bit signed integer in the detected byte order.
    pub fn decode_i32(&mut self) -> (r: Result<i32, RosPeekError>)
        requires
            old(self).wf(),
        ensures
            final(self).wf(),
            old(self).same_stream(*final(self)),
            match r {
                Ok(v) => rd_uint(old(self).body(), old(self).cursor(), 4, old(self).is_big())
                    matches Ok((u, q)) && v == (u as u32) as i32 && final(self).cursor() == q,
                Err(e) => rd_uint(old(self).body(), old(self).cursor(), 4, old(self).is_big())
                    is Err && e == RosPeekError::UnexpectedEndOfData,
            },
    {
        match self.decode_u32() {
            Ok(v) => Ok(v as i32),
            Err(e) => Err(e),
        }
    }

    /// Reads an aligned 64-bit unsigned integer in the detected byte order.
    pub fn decode_u64(&mut self) -> (r: Result<u64, RosPeekError>)
        requires
            old(self).wf(),
        ensures
            final(self).wf(),
            old(self).same_stream(*final(self)),
            match r {
                Ok(v) => rd_uint(old(self).body(), old(self).cursor(), 8, old(self).is_big())
                    == Ok::<_, DecodeErr>((v as int, final(self).cursor())),
                Err(e) => rd_uint(old(self).body(), old(self).cursor(), 8, old(self).is_big())
                    is Err && e == RosPeekError::UnexpectedEndOfData,
            },
    {
        match self.align_to(8) {
            Ok(()) => (),
            Err(e) => {
                return Err(e);
            },
        }
        if 8 <= self.buf.len() - self.pos {
            let b0 = self.buf[self.pos];
            let b1 = self.buf[self.pos + 1];
            let b2 = self.buf[self.pos + 2];
            let b3 = self.buf[self.pos + 3];
            let b4 = self.buf[self.pos + 4];
            let b5 = self.buf[self.pos + 5];
            let b6 = self.buf[self.pos + 6];
            let b7 = self.buf[self.pos + 7];
            let ghost q = self.pos as int;
            let v: u64 = if self.big {
                (b7 as u64) + 256 * ((b6 as u64) + 256 * ((b5 as u64) + 256 * ((b4 as u64) + 256
                    * ((b3 as u64) + 256 * ((b2 as u64) + 256 * ((b1 as u64) + 256 * (b0
                    as u64)))))))
            } else {
                (b0 as u64) + 256 * ((b1 as u64) + 256 * ((b2 as u64) + 256 * ((b3 as u64) + 256
                    * ((b4 as u64) + 256 * ((b5 as u64) + 256 * ((b6 as u64) + 256 * (b7
                    as u64)))))))
            };
            self.pos = self.pos + 8;
            proof {
                let bytes = old(self).body().subrange(q, q + 8);
                assert(bytes[0] == b0 && bytes[1] == b1 && bytes[2] == b2 && bytes[3] == b3
                    && bytes[4] == b4 && bytes[5] == b5 && bytes[6] == b6 && bytes[7] == b7);
                lemma_le8(bytes);
                lemma_be8(bytes);
            }
            Ok(v)
        } else {
            Err(RosPeekError::UnexpectedEndOfData)
        }
    }

    /// Reads an aligned 64-bit signed integer in the detected byte order.
    pub fn decode_i64(&mut self) -> (r: Result<i64, RosPeekError>)
        requires
            old(self).wf(),
        ensures
            final(self).wf(),
            old(self).same_stream(*final(self)),
            match r {
                Ok(v) => rd_uint(old(self).body(), old(self).cursor(), 8, old(self).is_big())
                    matches Ok((u, q)) && v == (u as u64) as i64 && final(self).cursor() == q,
                Err(e) => rd_uint(old(self).body(), old(self).cursor(), 8, old(self).is_big())
                    is Err && e == RosPeekError::UnexpectedEndOfData,
            },
    {
        match self.decode_u64() {
            Ok(v) => Ok(v as i64),
            Err(e) => Err(e),
        }
    }

    /// Reads a string: an aligned 4-byte length, that many bytes, one
    /// optional trailing NUL stripped, the rest required to be UTF-8.
    pub fn decode_string(&mut self) -> (r: Result<String, RosPeekError>)
        requires
            old(self).wf(),
        ensures
            final(self).wf(),
            old(self).same_stream(*final(self)),
            match r {
                Ok(s) => rd_string(old(self).body(), old(self).cursor(), old(self).is_big())
                    == Ok::<_, DecodeErr>((s@, final(self).cursor())),
                Err(e) => rd_string(old(self).body(), old(self).cursor(), old(self).is_big())
                    is Err && crate::error::err_matches(
                    e,
                    rd_string(old(self).body(), old(self).cursor(), old(self).is_big())->Err_0,
                ),
            },
    {
        let len = match self.decode_u32() {
            Ok(l) => l,
            Err(e) => {
                return Err(e);
            },
        };
        let mut bytes = match self.decode_bytes(len as usize) {
            Ok(b) => b,
            Err(e) => {
                return Err(e);
            },
        };
        let ghost raw = bytes@;
        if bytes.len() > 0 && bytes[bytes.len() - 1] == 0 {
            bytes.pop();
            proof {
                assert(bytes@ =~= raw.drop_last());
            }
        }
        match bytes_to_string(bytes) {
            Some(s) => Ok(s),
            None => Err(RosPeekError::InvalidUtf8),
        }
    }
}

/// Appending a cache entry changes only lookups of names that were
/// absent, and those only to the appended schema.
proof fn lemma_cache_find_push(
    c: Seq<(Seq<char>, SpecSchema)>,
    p: (Seq<char>, SpecSchema),
    x: Seq<char>,
)
    ensures
        cache_find(c.push(p), x) == (match cache_find(c, x) {
            Some(v) => Some(v),
            None => if p.0 == x {
                Some(p.1)
            } else {
                None::<SpecSchema>
            },
        }),
    decreases c.len(),
{
    if c.len() == 0 {
        assert(c.push(p)[0] == p);
        assert(c.push(p).drop_first() =~= Seq::<(Seq<char>, SpecSchema)>::empty());
        assert(cache_find(c.push(p).drop_first(), x) is None);
    } else {
        assert(c.push(p)[0] == c[0]);
        assert(c.push(p).drop_first() =~= c.drop_first().push(p));
        lemma_cache_find_push(c.drop_first(), p, x);
    }
}

impl<'a> CdrDecoder<'a> {
    /// Looks up the schema for `tn`: the cache first, then the resolver;
    /// a hit through the resolver is cached. The schema environment that
    /// decoding sees is unchanged either way.
    pub fn get_schema(&mut self, tn: &str) -> (r: Result<MessageSchema, RosPeekError>)
        ensures
            final(self).schema_env() == old(self).schema_env(),
            final(self).body() == old(self).body(),
            final(self).cursor() == old(self).cursor(),
            final(self).is_big() == old(self).is_big(),
            final(self).wf() == old(self).wf(),
            match r {
                Ok(s) => old(self).schema_env().contains_key(tn@) && s@ == old(
                    self,
                ).schema_env()[tn@],
                Err(e) => !old(self).schema_env().contains_key(tn@) && (e matches
                    RosPeekError::IdlNotFound(m) && m@ == tn@),
            },
    {
        let n = self.cache.len();
        proof {
            assert(old(self).cached().skip(0) =~= old(self).cached());
        }
        for i in 0..n
            invariant
                n == self.cache.len(),
                self == old(self),
                cache_find(old(self).cached(), tn@) == cache_find(
                    old(self).cached().skip(i as int),
                    tn@,
                ),
        {
            proof {
                assert(old(self).cached().skip(i as int)[0] == old(self).cached()[i as int]);
                assert(old(self).cached().skip(i as int).drop_first() =~= old(self).cached().skip(
                    i + 1,
                ));
            }
            if str_eq(self.cache[i].0.as_str(), tn) {
                let s = clone_schema(&self.cache[i].1);
                return Ok(s);
            }
        }
        proof {
            assert(old(self).cached().skip(n as int) =~= Seq::<(Seq<char>, SpecSchema)>::empty());
            assert(cache_find(old(self).cached(), tn@) is None);
        }
        match self.resolver.resolve(tn) {
            Ok(s) => {
                let copy = clone_schema(&s);
                proof {
                    lemma_cache_find_push(old(self).cached(), (tn@, s@), tn@);
                }
                let ghost oldc = self.cached();
                self.cache.push((tn.to_owned(), copy));
                proof {
                    assert(self.cached() =~= oldc.push((tn@, s@)));
                    assert(forall|x: Seq<char>|
                        env_lookup(self.cached(), self.dirs_view(), x) == env_lookup(
                            oldc,
                            self.dirs_view(),
                            x,
                        )) by {
                        assert forall|x: Seq<char>|
                            env_lookup(self.cached(), self.dirs_view(), x) == env_lookup(
                                oldc,
                                self.dirs_view(),
                                x,
                            ) by {
                            lemma_cache_find_push(oldc, (tn@, s@), x);
                        }
                    }
                    assert(env_from(self.cached(), self.dirs_view()) =~= env_from(
                        oldc,
                        self.dirs_view(),
                    ));
                }
                Ok(s)
            },
            Err(e) => Err(e),
        }
    }
}

// --- Byte-value lemmas ------------------------------------------------------

/// The value of two little-endian bytes, in closed form, with its range.
proof fn lemma_le2(b: Seq<u8>)
    requires
        b.len() == 2,
    ensures
        le_val(b) == b[0] + 256 * b[1],
        0 <= le_val(b) < 0x10000,
{
    let d1 = b.drop_first();
    assert(d1[0] == b[1]);
    assert(d1.drop_first() =~= Seq::<u8>::empty());
    assert(le_val(d1.drop_first()) == 0);
    assert(le_val(d1) == b[1]);
    assert(le_val(b) == b[0] + 256 * le_val(d1));
}

/// The value of two big-endian bytes, in closed form, with its range.
proof fn lemma_be2(b: Seq<u8>)
    requires
        b.len() == 2,
    ensures
        be_val(b) == b[1] + 256 * b[0],
        0 <= be_val(b) < 0x10000,
{
    let d1 = b.drop_last();
    assert(d1.last() == b[0]);
    assert(d1.drop_last() =~= Seq::<u8>::empty());
    assert(be_val(d1.drop_last()) == 0);
    assert(be_val(d1) == b[0]);
    assert(be_val(b) == b[1] + 256 * be_val(d1));
}

/// The value of four little-endian bytes, in closed form, with its range.
proof fn lemma_le4(b: Seq<u8>)
    requires
        b.len() == 4,
    ensures
        le_val(b) == b[0] + 256 * (b[1] + 256 * (b[2] + 256 * b[3])),
        0 <= le_val(b) < 0x100000000,
{
    let d1 = b.drop_first();
    let d2 = d1.drop_first();
    assert(d1[0] == b[1] && d2[0] == b[2] && d2[1] == b[3]);
    lemma_le2(d2);
    assert(le_val(d1) == b[1] + 256 * le_val(d2));
    assert(le_val(b) == b[0] + 256 * le_val(d1));
}

/// The value of four big-endian bytes, in closed form, with its range.
proof fn lemma_be4(b: Seq<u8>)
    requires
        b.len() == 4,
    ensures
        be_val(b) == b[3] + 256 * (b[2] + 256 * (b[1] + 256 * b[0])),
        0 <= be_val(b) < 0x100000000,
{
    let d1 = b.drop_last();
    let d2 = d1.drop_last();
    assert(d1.last() == b[2] && d2[1] == b[1] && d2[0] == b[0]);
    lemma_be2(d2);
    assert(be_val(d1) == b[2] + 256 * be_val(d2));
    assert(be_val(b) == b[3] + 256 * be_val(d1));
}

/// The value of eight little-endian bytes, in closed form, with its range.
proof fn lemma_le8(b: Seq<u8>)
    requires
        b.len() == 8,
    ensures
        le_val(b) == b[0] + 256 * (b[1] + 256 * (b[2] + 256 * (b[3] + 256 * (b[4] + 256 * (b[5]
            + 256 * (b[6] + 256 * b[7])))))),
        0 <= le_val(b) < 0x10000000000000000,
{
    let d1 = b.drop_first();
    let d2 = d1.drop_first();
    let d3 = d2.drop_first();
    let d4 = d3.drop_first();
    assert(d1[0] == b[1] && d2[0] == b[2] && d3[0] == b[3]);
    assert(d4[0] == b[4] && d4[1] == b[5] && d4[2] == b[6] && d4[3] == b[7]);
    lemma_le4(d4);
    assert(le_val(d3) == b[3] + 256 * le_val(d4));
    assert(le_val(d2) == b[2] + 256 * le_val(d3));
    assert(le_val(d1) == b[1] + 256 * le_val(d2));
    assert(le_val(b) == b[0] + 256 * le_val(d1));
}

/// The value of eight big-endian bytes, in closed form, with its range.
proof fn lemma_be8(b: Seq<u8>)
    requires
        b.len() == 8,
    ensures
        be_val(b) == b[7] + 256 * (b[6] + 256 * (b[5] + 256 * (b[4] + 256 * (b[3] + 256 * (b[2]
            + 256 * (b[1] + 256 * b[0])))))),
        0 <= be_val(b) < 0x10000000000000000,
{
    let d1 = b.drop_last();
    let d2 = d1.drop_last();
    let d3 = d2.drop_last();
    let d4 = d3.drop_last();
    assert(d1.last() == b[6] && d2.last() == b[5] && d3.last() == b[4]);
    assert(d4[0] == b[0] && d4[1] == b[1] && d4[2] == b[2] && d4[3] == b[3]);
    lemma_be4(d4);
    assert(be_val(d3) == b[4] + 256 * be_val(d4));
    assert(be_val(d2) == b[5] + 256 * be_val(d3));
    assert(be_val(d1) == b[6] + 256 * be_val(d2));
    assert(be_val(b) == b[7] + 256 * be_val(d1));
}

impl<'a> CdrDecoder<'a> {
    /// Decodes one value of element or field type `tn`.
    #[verifier::rlimit(100)]
    fn decode_single_value(&mut self, tn: &str, depth: u32) -> (r: Result<Value, RosPeekError>)
        requires
            old(self).wf(),
        ensures
            final(self).wf(),
            old(self).same_stream(*final(self)),
            match r {
                Ok(v) => sdec_single(
                    old(self).schema_env(),
                    old(self).body(),
                    old(self).cursor(),
                    old(self).is_big(),
                    tn@,
                    depth as nat,
                ) == Ok::<_, DecodeErr>((v@, final(self).cursor())),
                Err(e) => sdec_single(
                    old(self).schema_env(),
                    old(self).body(),
                    old(self).cursor(),
                    old(self).is_big(),
                    tn@,
                    depth as nat,
                ) matches Err(se) && crate::error::err_matches(e, se),
            },
        decreases depth, 1int,
    {
        if str_eq(tn, "boolean") {
            match self.decode_bool() {
                Ok(v) => Ok(Value::Bool(v)),
                Err(e) => Err(e),
            }
        } else if str_eq(tn, "octet") || str_eq(tn, "uint8") {
            match self.decode_u8() {
                Ok(v) => Ok(Value::UInt(v as u64)),
                Err(e) => Err(e),
            }
        } else if str_eq(tn, "char") {
            match self.decode_char() {
                Ok(v) => Ok(Value::Char(v)),
                Err(e) => Err(e),
            }
        } else if str_eq(tn, "int8") {
            match self.decode_i8() {
                Ok(v) => Ok(Value::Int(v as i64)),
                Err(e) => Err(e),
            }
        } else if str_eq(tn, "uint16") {
            match self.decode_u16() {
                Ok(v) => Ok(Value::UInt(v as u64)),
                Err(e) => Err(e),
            }
        } else if str_eq(tn, "int16") {
            match self.decode_i16() {
                Ok(v) => Ok(Value::Int(v as i64)),
                Err(e) => Err(e),
            }
        } else if str_eq(tn, "uint32") {
            match self.decode_u32() {
                Ok(v) => Ok(Value::UInt(v as u64)),
                Err(e) => Err(e),
            }
        } else if str_eq(tn, "int32") {
            match self.decode_i32() {
                Ok(v) => Ok(Value::Int(v as i64)),
                Err(e) => Err(e),
            }
        } else if str_eq(tn, "uint64") {
            match self.decode_u64() {
                Ok(v) => Ok(Value::UInt(v)),
                Err(e) => Err(e),
            }
        } else if str_eq(tn, "int64") {
            match self.decode_i64() {
                Ok(v) => Ok(Value::Int(v)),
                Err(e) => Err(e),
            }
        } else if str_eq(tn, "float") {
            match self.decode_u32() {
                Ok(v) => Ok(Value::F32Bits(v)),
                Err(e) => Err(e),
            }
        } else if str_eq(tn, "double") {
            match self.decode_u64() {
                Ok(v) => Ok(Value::F64Bits(v)),
                Err(e) => Err(e),
            }
        } else if str_eq(tn, "string") {
            match self.decode_string() {
                Ok(s) => Ok(Value::Text(s)),
                Err(e) => Err(e),
            }
        } else if str_eq(tn, "builtin_interfaces/msg/Time") || str_eq(
            tn,
            "builtin_interfaces/msg/Duration",
        ) {
            let sec = match self.decode_i32() {
                Ok(v) => v,
                Err(e) => {
                    return Err(e);
                },
            };
            let ns = match self.decode_u32() {
                Ok(v) => v,
                Err(e) => {
                    return Err(e);
                },
            };
            let mut entries: Vec<(String, Value)> = Vec::new();
            entries.push(("sec".to_owned(), Value::Int(sec as i64)));
            entries.push(("nanosec".to_owned(), Value::UInt(ns as u64)));
            let d = Document { entries };
            proof {
                lemma_entries_view_props(d.entries@);
                assert(d@ =~= seq![
                    ("sec"@, SpecValue::Int(sec as i64)),
                    ("nanosec"@, SpecValue::UInt(ns as u64)),
                ]);
                assert(Value::Record(d)@ == SpecValue::Record(d@));
            }
            Ok(Value::Record(d))
        } else {
            if depth == 0 {
                return Err(RosPeekError::RecursionLimit);
            }
            let nested = match self.get_schema(tn) {
                Ok(s) => s,
                Err(e) => {
                    return Err(e);
                },
            };
            proof {
                assert(fields_view(nested.fields@) =~= nested@.fields);
            }
            match self.decode_fields(&nested.fields, depth - 1) {
                Ok(entries) => {
                    let d = Document { entries };
                    proof {
                        assert(Value::Record(d)@ == SpecValue::Record(d@));
                    }
                    Ok(Value::Record(d))
                },
                Err(e) => Err(e),
            }
        }
    }

    /// Decodes `count` consecutive values of element type `tn`.
    #[verifier::rlimit(60)]
    fn decode_elems(&mut self, tn: &str, count: usize, depth: u32) -> (r: Result<
        Vec<Value>,
        RosPeekError,
    >)
        requires
            old(self).wf(),
        ensures
            final(self).wf(),
            old(self).same_stream(*final(self)),
            match r {
                Ok(vs) => sdec_elems(
                    old(self).schema_env(),
                    old(self).body(),
                    old(self).cursor(),
                    old(self).is_big(),
                    tn@,
                    count as nat,
                    depth as nat,
                ) == Ok::<_, DecodeErr>((values_view(vs@), final(self).cursor())),
                Err(e) => sdec_elems(
                    old(self).schema_env(),
                    old(self).body(),
                    old(self).cursor(),
                    old(self).is_big(),
                    tn@,
                    count as nat,
                    depth as nat,
                ) matches Err(se) && crate::error::err_matches(e, se),
            },
        decreases depth, 2int,
    {
        let ghost env0 = self.schema_env();
        let ghost b0 = self.body();
        let ghost p0 = self.cursor();
        let ghost big0 = self.is_big();
        let mut out: Vec<Value> = Vec::new();
        proof {
            assert(values_view(out@) =~= Seq::<SpecValue>::empty());
        }
        for k in 0..count
            invariant
                self.wf(),
                b0 == old(self).body(),
                p0 == old(self).cursor(),
                big0 == old(self).is_big(),
                env0 == old(self).schema_env(),
                self.body() == b0,
                self.is_big() == big0,
                self.schema_env() == env0,
                sdec_elems(env0, b0, p0, big0, tn@, count as nat, depth as nat) == (match sdec_elems(
                    env0,
                    b0,
                    self.cursor(),
                    big0,
                    tn@,
                    (count - k) as nat,
                    depth as nat,
                ) {
                    Ok((rest, q)) => Ok::<_, DecodeErr>((values_view(out@) + rest, q)),
                    Err(e) => Err(e),
                }),
        {
            match self.decode_single_value(tn, depth) {
                Ok(v) => {
                    proof {
                        lemma_values_view_push(out@, v);
                        assert(forall|rest: Seq<SpecValue>|
                            (values_view(out@) + seq![v@]) + rest =~= values_view(out@) + (
                            seq![v@] + rest));
                    }
                    out.push(v);
                },
                Err(e) => {
                    return Err(e);
                },
            }
        }
        proof {
            assert(values_view(out@) + Seq::<SpecValue>::empty() =~= values_view(out@));
        }
        Ok(out)
    }

    /// Decodes one declared field.
    fn decode_field_value(&mut self, f: &MessageField, depth: u32) -> (r: Result<
        Value,
        RosPeekError,
    >)
        requires
            old(self).wf(),
        ensures
            final(self).wf(),
            old(self).same_stream(*final(self)),
            match r {
                Ok(v) => sdec_field(
                    old(self).schema_env(),
                    old(self).body(),
                    old(self).cursor(),
                    old(self).is_big(),
                    f@,
                    depth as nat,
                ) == Ok::<_, DecodeErr>((v@, final(self).cursor())),
                Err(e) => sdec_field(
                    old(self).schema_env(),
                    old(self).body(),
                    old(self).cursor(),
                    old(self).is_big(),
                    f@,
                    depth as nat,
                ) matches Err(se) && crate::error::err_matches(e, se),
            },
        decreases depth, 3int,
    {
        match &f.field_type {
            FieldType::Object(tn) => {
                proof {
                    assert(f@.ftype == crate::schema::SpecFieldType::Object(tn@));
                }
                self.decode_single_value(tn.as_str(), depth)
            },
            FieldType::Array(tn, l) => {
                proof {
                    assert(f@.ftype == crate::schema::SpecFieldType::Array(tn@, *l));
                }
                match self.decode_elems(tn.as_str(), *l, depth) {
                    Ok(vs) => {
                        proof {
                            assert(Value::List(vs)@ == SpecValue::List(values_view(vs@)));
                        }
                        Ok(Value::List(vs))
                    },
                    Err(e) => Err(e),
                }
            },
            FieldType::Sequence(tn) => {
                proof {
                    assert(f@.ftype == crate::schema::SpecFieldType::Sequence(tn@));
                }
                let l = match self.decode_u32() {
                    Ok(v) => v,
                    Err(e) => {
                        return Err(e);
                    },
                };
                match self.decode_elems(tn.as_str(), l as usize, depth) {
                    Ok(vs) => {
                        proof {
                            assert(Value::List(vs)@ == SpecValue::List(values_view(vs@)));
                        }
                        Ok(Value::List(vs))
                    },
                    Err(e) => Err(e),
                }
            },
        }
    }

    /// Decodes an ordered field list into named entries.
    #[verifier::rlimit(60)]
    fn decode_fields(&mut self, fields: &Vec<MessageField>, depth: u32) -> (r: Result<
        Vec<(String, Value)>,
        RosPeekError,
    >)
        requires
            old(self).wf(),
        ensures
            final(self).wf(),
            old(self).same_stream(*final(self)),
            match r {
                Ok(es) => sdec_fields(
                    old(self).schema_env(),
                    old(self).body(),
                    old(self).cursor(),
                    old(self).is_big(),
                    fields_view(fields@),
                    depth as nat,
                ) == Ok::<_, DecodeErr>((entries_view(es@), final(self).cursor())),
                Err(e) => sdec_fields(
                    old(self).schema_env(),
                    old(self).body(),
                    old(self).cursor(),
                    old(self).is_big(),
                    fields_view(fields@),
                    depth as nat,
                ) matches Err(se) && crate::error::err_matches(e, se),
            },
        decreases depth, 4int,
    {
        let ghost env0 = self.schema_env();
        let ghost b0 = self.body();
        let ghost p0 = self.cursor();
        let ghost big0 = self.is_big();
        let ghost fv = fields_view(fields@);
        let mut out: Vec<(String, Value)> = Vec::new();
        let n = fields.len();
        proof {
            assert(entries_view(out@) =~= Seq::<(Seq<char>, SpecValue)>::empty());
            assert(fv.skip(0) =~= fv);
        }
        for i in 0..n
            invariant
                n == fields.len(),
                fv == fields_view(fields@),
                self.wf(),
                b0 == old(self).body(),
                p0 == old(self).cursor(),
                big0 == old(self).is_big(),
                env0 == old(self).schema_env(),
                self.body() == b0,
                self.is_big() == big0,
                self.schema_env() == env0,
                sdec_fields(env0, b0, p0, big0, fv, depth as nat) == (match sdec_fields(
                    env0,
                    b0,
                    self.cursor(),
                    big0,
                    fv.skip(i as int),
                    depth as nat,
                ) {
                    Ok((rest, q)) => Ok::<_, DecodeErr>((entries_view(out@) + rest, q)),
                    Err(e) => Err(e),
                }),
        {
            proof {
                assert(fv.skip(i as int)[0] == fv[i as int]);
                assert(fv.skip(i as int).drop_first() =~= fv.skip(i + 1));
            }
            let f = &fields[i];
            proof {
                assert(f@ == fv[i as int]);
            }
            match self.decode_field_value(f, depth) {
                Ok(v) => {
                    let name = f.name.clone();
                    proof {
                        lemma_entries_view_push(out@, (name, v));
                        assert(forall|rest: Seq<(Seq<char>, SpecValue)>|
                            (entries_view(out@) + seq![(f.name@, v@)]) + rest =~= entries_view(out@)
                                + (seq![(f.name@, v@)] + rest));
                    }
                    out.push((name, v));
                },
                Err(e) => {
                    return Err(e);
                },
            }
        }
        proof {
            assert(fv.skip(n as int) =~= Seq::<SpecField>::empty());
            assert(entries_view(out@) + Seq::<(Seq<char>, SpecValue)>::empty() =~= entries_view(
                out@,
            ));
        }
        Ok(out)
    }

    /// Decodes the message at the cursor against `schema`, yielding a
    /// document whose entries follow the schema's field order.
    pub fn decode(&mut self, schema: &MessageSchema) -> (r: Result<Document, RosPeekError>)
        requires
            old(self).wf(),
        ensures
            final(self).wf(),
            old(self).same_stream(*final(self)),
            match r {
                Ok(doc) => sdec_fields(
                    old(self).schema_env(),
                    old(self).body(),
                    old(self).cursor(),
                    old(self).is_big(),
                    schema@.fields,
                    MAX_NESTING as nat,
                ) == Ok::<_, DecodeErr>((doc@, final(self).cursor())),
                Err(e) => sdec_fields(
                    old(self).schema_env(),
                    old(self).body(),
                    old(self).cursor(),
                    old(self).is_big(),
                    schema@.fields,
                    MAX_NESTING as nat,
                ) matches Err(se) && crate::error::err_matches(e, se),
            },
    {
        proof {
            assert(schema@.fields =~= fields_view(schema.fields@));
        }
        match self.decode_fields(&schema.fields, MAX_NESTING) {
            Ok(entries) => {
                let d = Document { entries };
                Ok(d)
            },
            Err(e) => Err(e),
        }
    }
}

// --- Decoding whole topics --------------------------------------------------

/// The schema environment a topic decoder starts from: the topic's own
/// schema seeded in the cache, nested types through the resolver.
pub open spec fn topic_env(schema: SpecSchema, dirs: Seq<Seq<SpecEntry>>) -> Map<
    Seq<char>,
    SpecSchema,
> {
    env_from(seq![(schema.typename, schema)], dirs)
}

/// A decoder seeded with `schema` and resolving nested types through
/// `resolver`, not yet pointed at a message.
pub fn fresh_decoder<'a>(schema: &MessageSchema, resolver: &SchemaResolver) -> (r: CdrDecoder<'a>)
    ensures
        r.wf(),
        r.schema_env() == topic_env(schema@, resolver@),
{
    let mut d = CdrDecoder::from_schema(schema);
    d.set_resolver(resolver.duplicate());
    d
}

/// Points `dec` at `data` and decodes one whole message against `schema`.
/// The decoder's schema environment is kept, so one decoder can be reused
/// across the messages of a topic.
pub fn decode_with<'a>(dec: &mut CdrDecoder<'a>, data: &'a [u8], schema: &MessageSchema) -> (r:
    Result<Document, RosPeekError>)
    ensures
        final(dec).schema_env() == old(dec).schema_env(),
        match r {
            Ok(doc) => spec_decode_message(old(dec).schema_env(), schema@, data@) == Ok::<
                _,
                DecodeErr,
            >(doc@),
            Err(e) => spec_decode_message(old(dec).schema_env(), schema@, data@) matches Err(se)
                && crate::error::err_matches(e, se),
        },
{
    if data.len() < 4 {
        return Err(RosPeekError::UnexpectedEndOfData);
    }
    dec.reset(data);
    proof {
        assert(schema@.fields =~= fields_view(schema.fields@));
    }
    dec.decode(schema)
}

/// Relies on rayon's parallel iterator: `par_iter().map_init(..)` applies
/// the verified per-message decode with one decoder per worker, and
/// collecting into `Result<Vec<_>, _>` preserves input order on success
/// and returns the error of some failing element otherwise.
#[verifier::external_body]
fn par_decode(
    schema: &MessageSchema,
    resolver: &SchemaResolver,
    payloads: &Vec<RawMessage>,
) -> (r: Result<Vec<Document>, RosPeekError>)
    ensures
        match r {
            Ok(docs) => docs@.len() == payloads@.len() && forall|i: int|
                0 <= i < payloads@.len() ==> (#[trigger] spec_decode_message(
                    topic_env(schema@, resolver@),
                    schema@,
                    payloads@[i].data@,
                )) == Ok::<_, DecodeErr>(docs@[i]@),
            Err(e) => exists|i: int|
                0 <= i < payloads@.len() && ((#[trigger] spec_decode_message(
                    topic_env(schema@, resolver@),
                    schema@,
                    payloads@[i].data@,
                )) matches Err(se) && crate::error::err_matches(e, se)),
        },
{
    payloads.par_iter().map_init(
        || fresh_decoder(schema, resolver),
        |dec, msg| decode_with(dec, msg.data.as_slice(), schema),
    ).collect::<Result<Vec<Document>, RosPeekError>>()
}

/// Decodes every payload of one topic, in parallel, into documents.
///
/// The result preserves the payload order: entry `i` is the decoding of
/// payload `i`, exactly as sequential decoding would produce it. If any
/// payload fails, the whole batch fails with that payload's error.
pub fn decode_topic(
    schema: &MessageSchema,
    resolver: &SchemaResolver,
    payloads: &Vec<RawMessage>,
) -> (r: Result<Vec<Document>, RosPeekError>)
    ensures
        match r {
            Ok(docs) => docs@.len() == payloads@.len() && forall|i: int|
                0 <= i < payloads@.len() ==> (#[trigger] spec_decode_message(
                    topic_env(schema@, resolver@),
                    schema@,
                    payloads@[i].data@,
                )) == Ok::<_, DecodeErr>(docs@[i]@),
            Err(e) => exists|i: int|
                0 <= i < payloads@.len() && ((#[trigger] spec_decode_message(
                    topic_env(schema@, resolver@),
                    schema@,
                    payloads@[i].data@,
                )) matches Err(se) && crate::error::err_matches(e, se)),
        },
{
    par_decode(schema, resolver, payloads)
}

/// Decodes every payload of one topic sequentially, reusing one decoder.
/// Its contract is `decode_topic`'s: the two agree value for value.
pub fn decode_topic_seq(
    schema: &MessageSchema,
    resolver: &SchemaResolver,
    payloads: &Vec<RawMessage>,
) -> (r: Result<Vec<Document>, RosPeekError>)
    ensures
        match r {
            Ok(docs) => docs@.len() == payloads@.len() && forall|i: int|
                0 <= i < payloads@.len() ==> (#[trigger] spec_decode_message(
                    topic_env(schema@, resolver@),
                    schema@,
                    payloads@[i].data@,
                )) == Ok::<_, DecodeErr>(docs@[i]@),
            Err(e) => exists|i: int|
                0 <= i < payloads@.len() && ((#[trigger] spec_decode_message(
                    topic_env(schema@, resolver@),
                    schema@,
                    payloads@[i].data@,
                )) matches Err(se) && crate::error::err_matches(e, se)),
        },
{
    let mut dec = fresh_decoder(schema, resolver);
    let mut docs: Vec<Document> = Vec::new();
    let n = payloads.len();
    for i in 0..n
        invariant
            n == payloads.len(),
            dec.schema_env() == topic_env(schema@, resolver@),
            docs@.len() == i,
            forall|k: int|
                0 <= k < i ==> spec_decode_message(
                    topic_env(schema@, resolver@),
                    schema@,
                    payloads@[k].data@,
                ) == Ok::<_, DecodeErr>(#[trigger] docs@[k]@),
    {
        match decode_with(&mut dec, payloads[i].data.as_slice(), schema) {
            Ok(doc) => docs.push(doc),
            Err(e) => {
                return Err(e);
            },
        }
    }
    Ok(docs)
}

/// Decoding is a function of the payloads alone: any two complete decodings
/// of the same payload list against the same schema environment yield the
/// same documents in the same order, however the work was scheduled.
pub proof fn lemma_decode_topic_deterministic(
    env: Map<Seq<char>, SpecSchema>,
    schema: SpecSchema,
    msgs: Seq<Seq<u8>>,
    a: Seq<Seq<(Seq<char>, SpecValue)>>,
    b: Seq<Seq<(Seq<char>, SpecValue)>>,
)
    requires
        a.len() == msgs.len(),
        b.len() == msgs.len(),
        forall|i: int|
            0 <= i < msgs.len() ==> spec_decode_message(env, schema, msgs[i]) == Ok::<
                _,
                DecodeErr,
            >(#[trigger] a[i]),
        forall|i: int|
            0 <= i < msgs.len() ==> spec_decode_message(env, schema, msgs[i]) == Ok::<
                _,
                DecodeErr,
            >(#[trigger] b[i]),
    ensures
        a =~= b,
{
}

/// Relies on `String::from_utf8`: it returns `Ok` exactly when the bytes
/// are valid UTF-8, and the resulting string's characters are the UTF-8
/// decoding of those bytes.
#[verifier::external_body]
fn bytes_to_string(v: Vec<u8>) -> (r: Option<String>)
    ensures
        match r {
            Some(s) => valid_utf8(v@) && s@ == decode_utf8(v@),
            None => !valid_utf8(v@),
        },
{
    match String::from_utf8(v) {
        Ok(s) => Some(s),
        Err(_) => None,
    }
}

/// An empty byte slice.
fn empty_slice<'a>() -> (r: &'a [u8])
    ensures
        r@ == Seq::<u8>::empty(),
{
    let v: &[u8] = &[];
    proof {
        assert(v@ =~= Seq::<u8>::empty());
    }
    v
}

/// A deep copy of a schema, equal in the abstract.
pub fn clone_schema(s: &MessageSchema) -> (r: MessageSchema)
    ensures
        r@ == s@,
{
    let mut fields: Vec<MessageField> = Vec::new();
    let n = s.fields.len();
    for i in 0..n
        invariant
            n == s.fields.len(),
            fields@.len() == i,
            forall|k: int| 0 <= k < i ==> #[trigger] fields@[k]@ == s.fields@[k]@,
    {
        let f = &s.fields[i];
        let ft = match &f.field_type {
            FieldType::Object(tn) => FieldType::Object(tn.clone()),
            FieldType::Sequence(tn) => FieldType::Sequence(tn.clone()),
            FieldType::Array(tn, l) => FieldType::Array(tn.clone(), *l),
        };
        fields.push(MessageField { name: f.name.clone(), field_type: ft });
    }
    let r = MessageSchema { typename: s.typename.clone(), fields };
    proof {
        assert(r@.fields =~= s@.fields);
    }
    r
}


// --- Stated laws of the wire format ------------------------------------------

/// A fixed array consumes exactly its declared element count, with no
/// length prefix; a dynamic sequence first reads one 4-byte aligned
/// element count from the wire and then exactly that many elements.
pub proof fn lemma_iterable_shapes(
    env: Map<Seq<char>, SpecSchema>,
    b: Seq<u8>,
    p: int,
    big: bool,
    nm: Seq<char>,
    tn: Seq<char>,
    n: usize,
    fuel: nat,
)
    ensures
        sdec_field(env, b, p, big, SpecField { name: nm, ftype: crate::schema::SpecFieldType::Array(tn, n) }, fuel)
            == (match sdec_elems(env, b, p, big, tn, n as nat, fuel) {
            Ok((vs, q)) => Ok((SpecValue::List(vs), q)),
            Err(e) => Err(e),
        }),
        sdec_field(env, b, p, big, SpecField { name: nm, ftype: crate::schema::SpecFieldType::Sequence(tn) }, fuel)
            == (match rd_uint(b, p, 4, big) {
            Ok((l, q)) => match sdec_elems(env, b, q, big, tn, l as nat, fuel) {
                Ok((vs, r)) => Ok((SpecValue::List(vs), r)),
                Err(e) => Err(e),
            },
            Err(e) => Err(e),
        }),
{
}

/// A one-byte `boolean` immediately followed by an `int32` forces three
/// padding bytes: the boolean is read at offset 0 of the body, the int32
/// from bytes 4 through 7, and decoding ends at offset 8.
pub proof fn lemma_bool_int32_alignment(
    env: Map<Seq<char>, SpecSchema>,
    b: Seq<u8>,
    big: bool,
    nm1: Seq<char>,
    nm2: Seq<char>,
    fuel: nat,
)
    requires
        b.len() >= 8,
    ensures
        ({
            let fs = seq![
                SpecField { name: nm1, ftype: crate::schema::SpecFieldType::Object("boolean"@) },
                SpecField { name: nm2, ftype: crate::schema::SpecFieldType::Object("int32"@) },
            ];
            let word = b.subrange(4, 8);
            let v = if big { be_val(word) } else { le_val(word) };
            sdec_fields(env, b, 0, big, fs, fuel) == Ok::<_, DecodeErr>(
                (
                    seq![
                        (nm1, SpecValue::Bool(b[0] != 0)),
                        (nm2, SpecValue::Int(((v as u32) as i32) as i64)),
                    ],
                    8int,
                ),
            )
        }),
{
    reveal_strlit("boolean");
    reveal_strlit("octet");
    reveal_strlit("uint8");
    reveal_strlit("char");
    reveal_strlit("int8");
    reveal_strlit("uint16");
    reveal_strlit("int16");
    reveal_strlit("uint32");
    reveal_strlit("int32");
    let fs = seq![
        SpecField { name: nm1, ftype: crate::schema::SpecFieldType::Object("boolean"@) },
        SpecField { name: nm2, ftype: crate::schema::SpecFieldType::Object("int32"@) },
    ];
    let word = b.subrange(4, 8);
    let v = if big { be_val(word) } else { le_val(word) };
    // The boolean: no padding, one byte at offset 0.
    assert(pad_for(1, 0) == 0);
    assert(b.subrange(0, 1)[0] == b[0]);
    assert(b.subrange(0, 1).drop_first() =~= Seq::<u8>::empty());
    assert(b.subrange(0, 1).drop_last() =~= Seq::<u8>::empty());
    assert(le_val(Seq::<u8>::empty()) == 0);
    assert(be_val(Seq::<u8>::empty()) == 0);
    assert(le_val(b.subrange(0, 1)) == b[0] && be_val(b.subrange(0, 1)) == b[0]);
    assert(rd_uint(b, 0, 1, big) == Ok::<_, DecodeErr>((b[0] as int, 1int)));
    assert(sdec_single(env, b, 0, big, "boolean"@, fuel) == Ok::<_, DecodeErr>(
        (SpecValue::Bool(b[0] != 0), 1int),
    ));
    assert(sdec_field(env, b, 0, big, fs[0], fuel) == Ok::<_, DecodeErr>(
        (SpecValue::Bool(b[0] != 0), 1int),
    ));
    // The int32: three bytes of padding, then four bytes at offset 4.
    assert(pad_for(4, 1) == 3);
    assert(rd_uint(b, 1, 4, big) == Ok::<_, DecodeErr>((v, 8int)));
    assert(("int32"@).len() == 5 && ("int32"@)[0] == 'i' && ("int32"@)[3] == '3');
    assert(("boolean"@).len() == 7 && ("char"@).len() == 4 && ("int8"@).len() == 4 && (
    "uint16"@).len() == 6 && ("uint32"@).len() == 6);
    assert(("octet"@)[0] == 'o' && ("uint8"@)[0] == 'u' && ("int16"@)[3] == '1');
    assert("int32"@ != "boolean"@ && "int32"@ != "octet"@ && "int32"@ != "uint8"@ && "int32"@
        != "char"@ && "int32"@ != "int8"@ && "int32"@ != "uint16"@ && "int32"@ != "int16"@
        && "int32"@ != "uint32"@);
    assert(sdec_single(env, b, 1, big, "int32"@, fuel) == Ok::<_, DecodeErr>(
        (SpecValue::Int(((v as u32) as i32) as i64), 8int),
    ));
    assert(fs.drop_first()[0] == fs[1]);
    assert(sdec_field(env, b, 1, big, fs[1], fuel) == Ok::<_, DecodeErr>(
        (SpecValue::Int(((v as u32) as i32) as i64), 8int),
    ));
    assert(fs.drop_first().drop_first() =~= Seq::<SpecField>::empty());
    assert(sdec_fields(env, b, 8, big, fs.drop_first().drop_first(), fuel) == Ok::<_, DecodeErr>(
        (Seq::<(Seq<char>, SpecValue)>::empty(), 8int),
    ));
    assert(sdec_fields(env, b, 1, big, fs.drop_first(), fuel) == Ok::<_, DecodeErr>(
        (seq![(nm2, SpecValue::Int(((v as u32) as i32) as i64))] + Seq::<(Seq<char>, SpecValue)>::empty(), 8int),
    ));
    assert(seq![(nm1, SpecValue::Bool(b[0] != 0))] + (seq![
        (nm2, SpecValue::Int(((v as u32) as i32) as i64)),
    ] + Seq::<(Seq<char>, SpecValue)>::empty()) =~= seq![
        (nm1, SpecValue::Bool(b[0] != 0)),
        (nm2, SpecValue::Int(((v as u32) as i32) as i64)),
    ]);
}

/// String decoding strips exactly one trailing NUL byte when one is
/// present — never more — and bytes that are not valid UTF-8 yield an
/// error rather than a silently repaired string.
pub proof fn lemma_string_nul_and_utf8(b: Seq<u8>, p: int, big: bool, len: int, q: int)
    requires
        rd_uint(b, p, 4, big) == Ok::<_, DecodeErr>((len, q)),
        q + len <= b.len(),
    ensures
        ({
            let raw = b.subrange(q, q + len);
            (raw.len() > 0 && raw.last() == 0) ==> rd_string(b, p, big) == (
            if valid_utf8(raw.drop_last()) {
                Ok::<_, DecodeErr>((decode_utf8(raw.drop_last()), q + len))
            } else {
                Err(DecodeErr::Utf8)
            })
        }),
        ({
            let raw = b.subrange(q, q + len);
            !(raw.len() > 0 && raw.last() == 0) ==> rd_string(b, p, big) == (
            if valid_utf8(raw) {
                Ok::<_, DecodeErr>((decode_utf8(raw), q + len))
            } else {
                Err(DecodeErr::Utf8)
            })
        }),
{
}


} // verus!
