use vstd::prelude::*;

use crate::error::DecodeErr;
use crate::schema::{SpecSchema, SpecField, SpecFieldType};
use crate::value::SpecValue;
use crate::cdr::{pad_for, le_val, be_val, rd_uint, rd_string, sdec_single, sdec_elems, sdec_field, sdec_fields, spec_decode_message, spec_big_endian, MAX_NESTING};
use vstd::arithmetic::div_mod::lemma_fundamental_div_mod;
use vstd::utf8::{encode_utf8, encode_utf8_valid_utf8, encode_utf8_decode_utf8};

verus! {

// --- Encoding integers -------------------------------------------------------

/// 256 to the power `n`.
pub open spec fn pow256(n: int) -> int
    decreases n,
{
    if n <= 0 {
        1
    } else {
        256 * pow256(n - 1)
    }
}

/// `n` zero bytes, as padding.
pub open spec fn pad0(n: int) -> Seq<u8> {
    Seq::new(n as nat, |i: int| 0u8)
}

/// `v` in `size` little-endian bytes.
pub open spec fn le_bytes(v: int, size: int) -> Seq<u8>
    decreases size,
{
    if size <= 0 {
        Seq::empty()
    } else {
        seq![(v % 256) as u8] + le_bytes(v / 256, size - 1)
    }
}

/// `v` in `size` big-endian bytes.
pub open spec fn be_bytes(v: int, size: int) -> Seq<u8>
    decreases size,
{
    if size <= 0 {
        Seq::empty()
    } else {
        be_bytes(v / 256, size - 1) + seq![(v % 256) as u8]
    }
}

/// A conforming encoder's bytes for an unsigned integer written at
/// position `p`: alignment padding, then the value bytes.
pub open spec fn enc_uint(p: int, size: int, big: bool, v: int) -> Seq<u8> {
    pad0(pad_for(size, p)) + (if big {
        be_bytes(v, size)
    } else {
        le_bytes(v, size)
    })
}

proof fn lemma_le_bytes_len(v: int, size: int)
    ensures
        le_bytes(v, size).len() == if size <= 0 {
            0int
        } else {
            size
        },
    decreases size,
{
    if size > 0 {
        lemma_le_bytes_len(v / 256, size - 1);
    }
}

proof fn lemma_be_bytes_len(v: int, size: int)
    ensures
        be_bytes(v, size).len() == if size <= 0 {
            0int
        } else {
            size
        },
    decreases size,
{
    if size > 0 {
        lemma_be_bytes_len(v / 256, size - 1);
    }
}

proof fn lemma_le_roundtrip(v: int, size: int)
    requires
        0 <= v < pow256(size),
    ensures
        le_val(le_bytes(v, size)) == v,
    decreases size,
{
    if size <= 0 {
        assert(le_bytes(v, size) =~= Seq::<u8>::empty());
        assert(le_val(Seq::<u8>::empty()) == 0);
    } else {
        let rest = le_bytes(v / 256, size - 1);
        let whole = seq![(v % 256) as u8] + rest;
        assert(v / 256 < pow256(size - 1)) by {
            lemma_fundamental_div_mod(v, 256);
            assert(v == 256 * (v / 256) + v % 256);
            if v / 256 >= pow256(size - 1) {
                assert(256 * (v / 256) >= 256 * pow256(size - 1)) by (nonlinear_arith)
                    requires
                        v / 256 >= pow256(size - 1),
                ;
            }
        }
        assert(v / 256 >= 0) by {
            lemma_fundamental_div_mod(v, 256);
        }
        lemma_le_roundtrip(v / 256, size - 1);
        assert(whole[0] == (v % 256) as u8);
        assert(whole.drop_first() =~= rest);
        assert(le_val(whole) == (v % 256) + 256 * le_val(rest));
        lemma_fundamental_div_mod(v, 256);
    }
}

proof fn lemma_be_roundtrip(v: int, size: int)
    requires
        0 <= v < pow256(size),
    ensures
        be_val(be_bytes(v, size)) == v,
    decreases size,
{
    if size <= 0 {
        assert(be_bytes(v, size) =~= Seq::<u8>::empty());
        assert(be_val(Seq::<u8>::empty()) == 0);
    } else {
        let rest = be_bytes(v / 256, size - 1);
        let whole = rest + seq![(v % 256) as u8];
        assert(v / 256 < pow256(size - 1)) by {
            lemma_fundamental_div_mod(v, 256);
            assert(v == 256 * (v / 256) + v % 256);
            if v / 256 >= pow256(size - 1) {
                assert(256 * (v / 256) >= 256 * pow256(size - 1)) by (nonlinear_arith)
                    requires
                        v / 256 >= pow256(size - 1),
                ;
            }
        }
        assert(v / 256 >= 0) by {
            lemma_fundamental_div_mod(v, 256);
        }
        lemma_be_roundtrip(v / 256, size - 1);
        lemma_be_bytes_len(v / 256, size - 1);
        assert(whole.last() == (v % 256) as u8);
        assert(whole.drop_last() =~= rest);
        assert(be_val(whole) == (v % 256) + 256 * be_val(rest));
        lemma_fundamental_div_mod(v, 256);
    }
}

// --- Embedding ---------------------------------------------------------------

/// Whether the bytes `e` sit in `b` starting at position `p`.
pub open spec fn embedded(b: Seq<u8>, p: int, e: Seq<u8>) -> bool {
    0 <= p && p + e.len() <= b.len() && b.subrange(p, p + e.len()) == e
}

/// An embedded concatenation embeds both halves, one after the other.
proof fn lemma_embedded_split(b: Seq<u8>, p: int, e1: Seq<u8>, e2: Seq<u8>)
    requires
        embedded(b, p, e1 + e2),
    ensures
        embedded(b, p, e1),
        embedded(b, p + e1.len(), e2),
{
    let both = e1 + e2;
    assert(forall|k: int| 0 <= k < both.len() ==> b[p + k] == #[trigger] both[k]) by {
        assert(forall|k: int|
            0 <= k < both.len() ==> #[trigger] both[k] == b.subrange(p, p + both.len())[k]);
    }
    assert(b.subrange(p, p + e1.len()) =~= e1);
    assert(forall|k: int| 0 <= k < e2.len() ==> #[trigger] e2[k] == both[e1.len() + k]);
    assert(b.subrange(p + e1.len(), p + e1.len() + e2.len()) =~= e2);
}

/// Reading an embedded unsigned-integer encoding recovers the value and
/// ends right after it.
proof fn lemma_rd_uint_of_enc(b: Seq<u8>, p: int, size: int, big: bool, v: int)
    requires
        size == 1 || size == 2 || size == 4 || size == 8,
        0 <= v < pow256(size),
        embedded(b, p, enc_uint(p, size, big, v)),
    ensures
        rd_uint(b, p, size, big) == Ok::<_, DecodeErr>((v, p + enc_uint(p, size, big, v).len())),
{
    let pad = pad0(pad_for(size, p));
    let word = if big {
        be_bytes(v, size)
    } else {
        le_bytes(v, size)
    };
    lemma_le_bytes_len(v, size);
    lemma_be_bytes_len(v, size);
    lemma_embedded_split(b, p, pad, word);
    let q = p + pad_for(size, p);
    assert(b.subrange(q, q + size) == word);
    if big {
        lemma_be_roundtrip(v, size);
    } else {
        lemma_le_roundtrip(v, size);
    }
}


// --- What a conforming encoder accepts ---------------------------------------

/// Whether value `v` conforms to type `tn`: the right variant, within the
/// type's range, with nested records conforming to their schemas.
pub open spec fn fits_single(
    env: Map<Seq<char>, SpecSchema>,
    tn: Seq<char>,
    v: SpecValue,
    fuel: nat,
) -> bool
    decreases fuel, 0nat, 0nat,
{
    if tn == "boolean"@ {
        v is Bool
    } else if tn == "octet"@ || tn == "uint8"@ {
        v matches SpecValue::UInt(u) && u < 256
    } else if tn == "char"@ {
        v matches SpecValue::Char(c) && (c as u32) < 256
    } else if tn == "int8"@ {
        v matches SpecValue::Int(i) && -128 <= i < 128
    } else if tn == "uint16"@ {
        v matches SpecValue::UInt(u) && u < 0x10000
    } else if tn == "int16"@ {
        v matches SpecValue::Int(i) && -0x8000 <= i < 0x8000
    } else if tn == "uint32"@ {
        v matches SpecValue::UInt(u) && u < 0x100000000
    } else if tn == "int32"@ {
        v matches SpecValue::Int(i) && -0x80000000 <= i < 0x80000000
    } else if tn == "uint64"@ {
        v is UInt
    } else if tn == "int64"@ {
        v is Int
    } else if tn == "float"@ {
        v is F32Bits
    } else if tn == "double"@ {
        v is F64Bits
    } else if tn == "string"@ {
        v matches SpecValue::Text(s) && encode_utf8(s).len() + 1 < 0x100000000
    } else if tn == "builtin_interfaces/msg/Time"@ || tn == "builtin_interfaces/msg/Duration"@ {
        v matches SpecValue::Record(es) && es.len() == 2 && es[0].0 == "sec"@ && (es[0].1 matches
            SpecValue::Int(i) && -0x80000000 <= i < 0x80000000) && es[1].0 == "nanosec"@ && (
        es[1].1 matches SpecValue::UInt(u) && u < 0x100000000)
    } else {
        fuel > 0 && env.contains_key(tn) && (v matches SpecValue::Record(es) && fits_fields(
            env,
            env[tn].fields,
            es,
            (fuel - 1) as nat,
        ))
    }
}

/// Whether the elements all conform to the element type.
pub open spec fn fits_elems(
    env: Map<Seq<char>, SpecSchema>,
    tn: Seq<char>,
    vs: Seq<SpecValue>,
    fuel: nat,
) -> bool
    decreases fuel, 1nat, vs.len(),
{
    if vs.len() == 0 {
        true
    } else {
        fits_single(env, tn, vs[0], fuel) && fits_elems(env, tn, vs.drop_first(), fuel)
    }
}

/// Whether a field's value conforms to the field's type.
pub open spec fn fits_fvalue(
    env: Map<Seq<char>, SpecSchema>,
    ft: SpecFieldType,
    v: SpecValue,
    fuel: nat,
) -> bool
    decreases fuel, 2nat, 0nat,
{
    match ft {
        SpecFieldType::Object(tn) => fits_single(env, tn, v, fuel),
        SpecFieldType::Array(tn, n) => v matches SpecValue::List(vs) && vs.len() == n
            && fits_elems(env, tn, vs, fuel),
        SpecFieldType::Sequence(tn) => v matches SpecValue::List(vs) && vs.len() < 0x100000000
            && fits_elems(env, tn, vs, fuel),
    }
}

/// Whether the entries carry the fields' names in order, with values
/// conforming to the fields' types.
pub open spec fn fits_fields(
    env: Map<Seq<char>, SpecSchema>,
    fs: Seq<SpecField>,
    es: Seq<(Seq<char>, SpecValue)>,
    fuel: nat,
) -> bool
    decreases fuel, 3nat, fs.len(),
{
    if fs.len() == 0 {
        es.len() == 0
    } else {
        es.len() == fs.len() && es[0].0 == fs[0].name && fits_fvalue(env, fs[0].ftype, es[0].1, fuel)
            && fits_fields(env, fs.drop_first(), es.drop_first(), fuel)
    }
}

// --- What a conforming encoder emits -----------------------------------------

/// A conforming encoding of one value of type `tn` written at position `p`.
pub open spec fn enc_single(
    env: Map<Seq<char>, SpecSchema>,
    p: int,
    big: bool,
    tn: Seq<char>,
    v: SpecValue,
    fuel: nat,
) -> Seq<u8>
    decreases fuel, 0nat, 0nat,
{
    if tn == "boolean"@ {
        enc_uint(p, 1, big, if v->Bool_0 { 1 } else { 0 })
    } else if tn == "octet"@ || tn == "uint8"@ {
        enc_uint(p, 1, big, v->UInt_0 as int)
    } else if tn == "char"@ {
        enc_uint(p, 1, big, (v->Char_0 as u32) as int)
    } else if tn == "int8"@ {
        enc_uint(p, 1, big, (v->Int_0 as u8) as int)
    } else if tn == "uint16"@ {
        enc_uint(p, 2, big, v->UInt_0 as int)
    } else if tn == "int16"@ {
        enc_uint(p, 2, big, (v->Int_0 as u16) as int)
    } else if tn == "uint32"@ {
        enc_uint(p, 4, big, v->UInt_0 as int)
    } else if tn == "int32"@ {
        enc_uint(p, 4, big, (v->Int_0 as u32) as int)
    } else if tn == "uint64"@ {
        enc_uint(p, 8, big, v->UInt_0 as int)
    } else if tn == "int64"@ {
        enc_uint(p, 8, big, (v->Int_0 as u64) as int)
    } else if tn == "float"@ {
        enc_uint(p, 4, big, v->F32Bits_0 as int)
    } else if tn == "double"@ {
        enc_uint(p, 8, big, v->F64Bits_0 as int)
    } else if tn == "string"@ {
        let sb = encode_utf8(v->Text_0);
        enc_uint(p, 4, big, (sb.len() + 1) as int) + sb + seq![0u8]
    } else if tn == "builtin_interfaces/msg/Time"@ || tn == "builtin_interfaces/msg/Duration"@ {
        let first = enc_uint(p, 4, big, (v->Record_0[0].1->Int_0 as u32) as int);
        first + enc_uint(p + first.len(), 4, big, v->Record_0[1].1->UInt_0 as int)
    } else {
        if fuel > 0 && env.contains_key(tn) {
            enc_fields(env, p, big, env[tn].fields, v->Record_0, (fuel - 1) as nat)
        } else {
            Seq::empty()
        }
    }
}

/// A conforming encoding of consecutive elements starting at `p`.
pub open spec fn enc_elems(
    env: Map<Seq<char>, SpecSchema>,
    p: int,
    big: bool,
    tn: Seq<char>,
    vs: Seq<SpecValue>,
    fuel: nat,
) -> Seq<u8>
    decreases fuel, 1nat, vs.len(),
{
    if vs.len() == 0 {
        Seq::empty()
    } else {
        let e0 = enc_single(env, p, big, tn, vs[0], fuel);
        e0 + enc_elems(env, p + e0.len(), big, tn, vs.drop_first(), fuel)
    }
}

/// A conforming encoding of one field's value starting at `p`.
pub open spec fn enc_fvalue(
    env: Map<Seq<char>, SpecSchema>,
    p: int,
    big: bool,
    ft: SpecFieldType,
    v: SpecValue,
    fuel: nat,
) -> Seq<u8>
    decreases fuel, 2nat, 0nat,
{
    match ft {
        SpecFieldType::Object(tn) => enc_single(env, p, big, tn, v, fuel),
        SpecFieldType::Array(tn, n) => enc_elems(env, p, big, tn, v->List_0, fuel),
        SpecFieldType::Sequence(tn) => {
            let lp = enc_uint(p, 4, big, v->List_0.len() as int);
            lp + enc_elems(env, p + lp.len(), big, tn, v->List_0, fuel)
        },
    }
}

/// A conforming encoding of a field list's values starting at `p`.
pub open spec fn enc_fields(
    env: Map<Seq<char>, SpecSchema>,
    p: int,
    big: bool,
    fs: Seq<SpecField>,
    es: Seq<(Seq<char>, SpecValue)>,
    fuel: nat,
) -> Seq<u8>
    decreases fuel, 3nat, fs.len(),
{
    if fs.len() == 0 {
        Seq::empty()
    } else {
        let e0 = enc_fvalue(env, p, big, fs[0].ftype, es[0].1, fuel);
        e0 + enc_fields(env, p + e0.len(), big, fs.drop_first(), es.drop_first(), fuel)
    }
}

// --- Decoding inverts conforming encoding ------------------------------------

/// Aligning from any non-negative position lands on a multiple of `align`.
proof fn lemma_pad_aligns(align: int, p: int)
    requires
        align > 0,
        p >= 0,
    ensures
        0 <= pad_for(align, p) < align,
        (p + pad_for(align, p)) % align == 0,
{
    let r = p % align;
    lemma_fundamental_div_mod(p, align);
    if r == 0 {
        assert(align % align == 0) by (nonlinear_arith)
            requires
                align > 0,
        ;
        assert(pad_for(align, p) == 0);
        assert((p + 0) % align == 0) by (nonlinear_arith)
            requires
                align > 0,
                p % align == 0,
        ;
    } else {
        assert((align - r) % align == align - r) by (nonlinear_arith)
            requires
                0 < align - r < align,
        ;
        assert(pad_for(align, p) == align - r);
        assert((p + (align - r)) % align == 0) by (nonlinear_arith)
            requires
                align > 0,
                0 < r < align,
                r == p % align,
        ;
    }
}

proof fn lemma_rt_single(
    env: Map<Seq<char>, SpecSchema>,
    b: Seq<u8>,
    p: int,
    big: bool,
    tn: Seq<char>,
    v: SpecValue,
    fuel: nat,
)
    requires
        fits_single(env, tn, v, fuel),
        embedded(b, p, enc_single(env, p, big, tn, v, fuel)),
    ensures
        sdec_single(env, b, p, big, tn, fuel) == Ok::<_, DecodeErr>(
            (v, p + enc_single(env, p, big, tn, v, fuel).len()),
        ),
    decreases fuel, 0nat, 0nat,
{
    let e = enc_single(env, p, big, tn, v, fuel);
    assert(pow256(0) == 1);
    assert(pow256(1) == 256);
    assert(pow256(2) == 0x10000);
    assert(pow256(3) == 0x1000000);
    assert(pow256(4) == 0x100000000);
    assert(pow256(5) == 0x10000000000);
    assert(pow256(6) == 0x1000000000000);
    assert(pow256(7) == 0x100000000000000);
    assert(pow256(8) == 0x10000000000000000);
    if tn == "boolean"@ {
        let u: int = if v->Bool_0 { 1 } else { 0 };
        lemma_rd_uint_of_enc(b, p, 1, big, u);
    } else if tn == "octet"@ || tn == "uint8"@ {
        lemma_rd_uint_of_enc(b, p, 1, big, v->UInt_0 as int);
    } else if tn == "char"@ {
        let c = v->Char_0;
        lemma_rd_uint_of_enc(b, p, 1, big, (c as u32) as int);
        vstd::utf8::char_u32_cast(c, c as u32);
        assert((((c as u32) as int) as u8) as char == c);
    } else if tn == "int8"@ {
        let i = v->Int_0;
        lemma_rd_uint_of_enc(b, p, 1, big, (i as u8) as int);
        assert(((i as u8) as i8) as i64 == i) by (bit_vector)
            requires
                -128 <= i < 128,
        ;
    } else if tn == "uint16"@ {
        lemma_rd_uint_of_enc(b, p, 2, big, v->UInt_0 as int);
    } else if tn == "int16"@ {
        let i = v->Int_0;
        lemma_rd_uint_of_enc(b, p, 2, big, (i as u16) as int);
        assert(((i as u16) as i16) as i64 == i) by (bit_vector)
            requires
                -0x8000 <= i < 0x8000,
        ;
    } else if tn == "uint32"@ {
        lemma_rd_uint_of_enc(b, p, 4, big, v->UInt_0 as int);
    } else if tn == "int32"@ {
        let i = v->Int_0;
        lemma_rd_uint_of_enc(b, p, 4, big, (i as u32) as int);
        assert(((i as u32) as i32) as i64 == i) by (bit_vector)
            requires
                -0x80000000 <= i < 0x80000000,
        ;
    } else if tn == "uint64"@ {
        lemma_rd_uint_of_enc(b, p, 8, big, v->UInt_0 as int);
    } else if tn == "int64"@ {
        let i = v->Int_0;
        lemma_rd_uint_of_enc(b, p, 8, big, (i as u64) as int);
        assert((i as u64) as i64 == i) by (bit_vector);
    } else if tn == "float"@ {
        lemma_rd_uint_of_enc(b, p, 4, big, v->F32Bits_0 as int);
    } else if tn == "double"@ {
        lemma_rd_uint_of_enc(b, p, 8, big, v->F64Bits_0 as int);
    } else if tn == "string"@ {
        let s = v->Text_0;
        let sb = encode_utf8(s);
        let lp = enc_uint(p, 4, big, (sb.len() + 1) as int);
        assert(e =~= lp + (sb + seq![0u8]));
        lemma_embedded_split(b, p, lp, sb + seq![0u8]);
        lemma_rd_uint_of_enc(b, p, 4, big, (sb.len() + 1) as int);
        let q = p + lp.len();
        let raw = b.subrange(q, q + sb.len() + 1);
        assert(raw == sb + seq![0u8]);
        assert(raw.last() == 0);
        assert(raw.len() > 0);
        assert(raw.drop_last() =~= sb);
        encode_utf8_valid_utf8(s);
        encode_utf8_decode_utf8(s);
        assert(rd_string(b, p, big) == Ok::<_, DecodeErr>((s, q + sb.len() + 1)));
    } else if tn == "builtin_interfaces/msg/Time"@ || tn == "builtin_interfaces/msg/Duration"@ {
        let es = v->Record_0;
        let i = es[0].1->Int_0;
        let u = es[1].1->UInt_0;
        let first = enc_uint(p, 4, big, (i as u32) as int);
        let second = enc_uint(p + first.len(), 4, big, u as int);
        assert(e =~= first + second);
        lemma_embedded_split(b, p, first, second);
        lemma_rd_uint_of_enc(b, p, 4, big, (i as u32) as int);
        let q = p + first.len();
        lemma_le_bytes_len((i as u32) as int, 4);
        lemma_be_bytes_len((i as u32) as int, 4);
        lemma_pad_aligns(4, p);
        assert(q == p + pad_for(4, p) + 4);
        assert(q % 4 == 0) by (nonlinear_arith)
            requires
                (p + pad_for(4, p)) % 4 == 0,
                q == p + pad_for(4, p) + 4,
        ;
        assert(pad_for(4, q) == 0);
        lemma_rd_uint_of_enc(b, q, 4, big, u as int);
        assert(((i as u32) as i32) as i64 == i) by (bit_vector)
            requires
                -0x80000000 <= i < 0x80000000,
        ;
        assert(es =~= seq![("sec"@, SpecValue::Int(i)), ("nanosec"@, SpecValue::UInt(u))]);
    } else {
        let es = v->Record_0;
        lemma_rt_fields(env, b, p, big, env[tn].fields, es, (fuel - 1) as nat);
    }
}

proof fn lemma_rt_elems(
    env: Map<Seq<char>, SpecSchema>,
    b: Seq<u8>,
    p: int,
    big: bool,
    tn: Seq<char>,
    vs: Seq<SpecValue>,
    fuel: nat,
)
    requires
        fits_elems(env, tn, vs, fuel),
        embedded(b, p, enc_elems(env, p, big, tn, vs, fuel)),
    ensures
        sdec_elems(env, b, p, big, tn, vs.len(), fuel) == Ok::<_, DecodeErr>(
            (vs, p + enc_elems(env, p, big, tn, vs, fuel).len()),
        ),
    decreases fuel, 1nat, vs.len(),
{
    if vs.len() == 0 {
        assert(enc_elems(env, p, big, tn, vs, fuel) =~= Seq::<u8>::empty());
        assert(vs =~= Seq::<SpecValue>::empty());
    } else {
        let e0 = enc_single(env, p, big, tn, vs[0], fuel);
        let rest = enc_elems(env, p + e0.len(), big, tn, vs.drop_first(), fuel);
        lemma_embedded_split(b, p, e0, rest);
        lemma_rt_single(env, b, p, big, tn, vs[0], fuel);
        lemma_rt_elems(env, b, p + e0.len(), big, tn, vs.drop_first(), fuel);
        assert(seq![vs[0]] + vs.drop_first() =~= vs);
    }
}

proof fn lemma_rt_fvalue(
    env: Map<Seq<char>, SpecSchema>,
    b: Seq<u8>,
    p: int,
    big: bool,
    f: SpecField,
    v: SpecValue,
    fuel: nat,
)
    requires
        fits_fvalue(env, f.ftype, v, fuel),
        embedded(b, p, enc_fvalue(env, p, big, f.ftype, v, fuel)),
    ensures
        sdec_field(env, b, p, big, f, fuel) == Ok::<_, DecodeErr>(
            (v, p + enc_fvalue(env, p, big, f.ftype, v, fuel).len()),
        ),
    decreases fuel, 2nat, 0nat,
{
    match f.ftype {
        SpecFieldType::Object(tn) => {
            lemma_rt_single(env, b, p, big, tn, v, fuel);
        },
        SpecFieldType::Array(tn, n) => {
            let vs = v->List_0;
            lemma_rt_elems(env, b, p, big, tn, vs, fuel);
        },
        SpecFieldType::Sequence(tn) => {
            let vs = v->List_0;
            let lp = enc_uint(p, 4, big, vs.len() as int);
            let rest = enc_elems(env, p + lp.len(), big, tn, vs, fuel);
            lemma_embedded_split(b, p, lp, rest);
            assert(pow256(0) == 1);
            assert(pow256(1) == 256);
            assert(pow256(2) == 0x10000);
            assert(pow256(3) == 0x1000000);
            assert(pow256(4) == 0x100000000);
            lemma_rd_uint_of_enc(b, p, 4, big, vs.len() as int);
            lemma_rt_elems(env, b, p + lp.len(), big, tn, vs, fuel);
        },
    }
}

proof fn lemma_rt_fields(
    env: Map<Seq<char>, SpecSchema>,
    b: Seq<u8>,
    p: int,
    big: bool,
    fs: Seq<SpecField>,
    es: Seq<(Seq<char>, SpecValue)>,
    fuel: nat,
)
    requires
        fits_fields(env, fs, es, fuel),
        embedded(b, p, enc_fields(env, p, big, fs, es, fuel)),
    ensures
        sdec_fields(env, b, p, big, fs, fuel) == Ok::<_, DecodeErr>(
            (es, p + enc_fields(env, p, big, fs, es, fuel).len()),
        ),
    decreases fuel, 3nat, fs.len(),
{
    if fs.len() == 0 {
        assert(enc_fields(env, p, big, fs, es, fuel) =~= Seq::<u8>::empty());
        assert(es =~= Seq::<(Seq<char>, SpecValue)>::empty());
    } else {
        let e0 = enc_fvalue(env, p, big, fs[0].ftype, es[0].1, fuel);
        let rest = enc_fields(env, p + e0.len(), big, fs.drop_first(), es.drop_first(), fuel);
        lemma_embedded_split(b, p, e0, rest);
        lemma_rt_fvalue(env, b, p, big, fs[0], es[0].1, fuel);
        lemma_rt_fields(env, b, p + e0.len(), big, fs.drop_first(), es.drop_first(), fuel);
        assert(seq![(fs[0].name, es[0].1)] + es.drop_first() =~= es);
    }
}

/// Decoding inverts conforming encoding: for every schema and every
/// document whose values conform to it, decoding the bytes a conforming
/// encoder emits — a 4-byte header whose second byte selects the byte
/// order, then the fields' encodings — reproduces the document exactly.
pub proof fn lemma_decode_inverts_encode(
    env: Map<Seq<char>, SpecSchema>,
    schema: SpecSchema,
    es: Seq<(Seq<char>, SpecValue)>,
    big: bool,
    header: Seq<u8>,
)
    requires
        fits_fields(env, schema.fields, es, MAX_NESTING as nat),
        header.len() == 4,
        big == (header[1] == 0),
    ensures
        spec_decode_message(
            env,
            schema,
            header + enc_fields(env, 0, big, schema.fields, es, MAX_NESTING as nat),
        ) == Ok::<_, DecodeErr>(es),
{
    let e = enc_fields(env, 0, big, schema.fields, es, MAX_NESTING as nat);
    let data = header + e;
    assert(data.len() == 4 + e.len());
    assert(data[1] == header[1]);
    assert(spec_big_endian(data) == big);
    let body = data.skip(4);
    assert(body =~= e);
    assert(body.subrange(0, e.len() as int) =~= e);
    assert(embedded(body, 0, e));
    lemma_rt_fields(env, body, 0, big, schema.fields, es, MAX_NESTING as nat);
}

} // verus!
