use vstd::prelude::*;

use crate::value::{Value, Document, SpecValue, entries_view, spec_lookup, lemma_entries_view_push, lemma_entries_view_props, lemma_values_view_props};
use crate::text::str_eq;

verus! {

broadcast use
    vstd::std_specs::vec::axiom_vec_index_decreases,
    vstd::std_specs::vec::axiom_vec_decreases_to_view,
    vstd::seq::axiom_seq_index_decreases,
    vstd::seq::axiom_seq_subrange_decreases;

// --- Decimal position labels ------------------------------------------------

/// The decimal digits of `n`, most significant first.
pub open spec fn dec_of(n: nat) -> Seq<char>
    decreases n,
{
    if n < 10 {
        seq![((48 + n) as u32) as char]
    } else {
        dec_of(n / 10) + seq![((48 + n % 10) as u32) as char]
    }
}

/// Renders `n` in decimal.
pub fn dec_string(n: usize) -> (r: String)
    ensures
        r@ == dec_of(n as nat),
    decreases n,
{
    let digits = "0123456789";
    proof {
        reveal_strlit("0123456789");
    }
    if n < 10 {
        let r = digits.substring_char(n, n + 1).to_owned();
        proof {
            assert(r@ =~= dec_of(n as nat));
        }
        r
    } else {
        let mut r = dec_string(n / 10);
        let d = n % 10;
        let piece = digits.substring_char(d, d + 1);
        proof {
            assert((r@ + piece@) =~= dec_of(n as nat));
        }
        r.append(piece);
        r
    }
}

// --- Flat keys ---------------------------------------------------------------

/// A nested key under `prefix`: joined with `.` unless the prefix is empty.
pub open spec fn join_key(prefix: Seq<char>, k: Seq<char>) -> Seq<char> {
    if prefix.len() == 0 {
        k
    } else {
        prefix + seq!['.'] + k
    }
}

/// Joins a nested key to its prefix.
pub fn join_key_exec(prefix: &str, k: &str) -> (r: String)
    ensures
        r@ == join_key(prefix@, k@),
{
    if prefix.unicode_len() == 0 {
        let r = k.to_owned();
        proof {
            assert(r@ =~= join_key(prefix@, k@));
        }
        r
    } else {
        let mut r = prefix.to_owned();
        r.append(".");
        r.append(k);
        proof {
            reveal_strlit(".");
            assert(r@ =~= join_key(prefix@, k@));
        }
        r
    }
}

// --- Flattening, abstractly --------------------------------------------------

/// The flat `(key, leaf)` pairs of one value placed at `prefix`: records
/// flatten under dot-joined keys, lists under position-indexed keys, and
/// every other value is itself a leaf.
pub open spec fn flat_value(prefix: Seq<char>, v: SpecValue) -> Seq<(Seq<char>, SpecValue)>
    decreases v,
{
    match v {
        SpecValue::Record(es) => flat_entries(prefix, es),
        SpecValue::List(vs) => flat_elems(prefix, vs, 0),
        _ => seq![(prefix, v)],
    }
}

/// The flat pairs of a record's entries.
pub open spec fn flat_entries(prefix: Seq<char>, es: Seq<(Seq<char>, SpecValue)>) -> Seq<
    (Seq<char>, SpecValue),
>
    decreases es,
{
    if es.len() == 0 {
        Seq::empty()
    } else {
        flat_value(join_key(prefix, es[0].0), es[0].1) + flat_entries(prefix, es.drop_first())
    }
}

/// The flat pairs of a list's elements, indexed from `start`.
pub open spec fn flat_elems(prefix: Seq<char>, vs: Seq<SpecValue>, start: nat) -> Seq<
    (Seq<char>, SpecValue),
>
    decreases vs,
{
    if vs.len() == 0 {
        Seq::empty()
    } else {
        flat_value(join_key(prefix, dec_of(start)), vs[0]) + flat_elems(
            prefix,
            vs.drop_first(),
            start + 1,
        )
    }
}

/// The flat pairs of one whole document: its entries under no prefix.
pub open spec fn spec_flatten(doc: Seq<(Seq<char>, SpecValue)>) -> Seq<(Seq<char>, SpecValue)> {
    flat_entries(Seq::empty(), doc)
}

// --- Deep copies -------------------------------------------------------------

/// A deep copy of a value, equal in the abstract.
#[verifier::loop_isolation(false)]
pub fn clone_value(v: &Value) -> (r: Value)
    ensures
        r@ == v@,
    decreases v,
{
    match v {
        Value::Bool(b) => Value::Bool(*b),
        Value::Int(i) => Value::Int(*i),
        Value::UInt(u) => Value::UInt(*u),
        Value::F32Bits(b) => Value::F32Bits(*b),
        Value::F64Bits(b) => Value::F64Bits(*b),
        Value::Char(c) => Value::Char(*c),
        Value::Text(s) => Value::Text(s.clone()),
        Value::List(vs) => {
            let mut out: Vec<Value> = Vec::new();
            let n = vs.len();
            proof {
                lemma_values_view_props(vs@);
                lemma_values_view_props(out@);
            }
            for i in 0..n
                invariant
                    n == vs.len(),
                    out@.len() == i,
                    forall|k: int| 0 <= k < i ==> #[trigger] out@[k]@ == vs@[k]@,
            {
                proof {
                    assert(decreases_to!(*v => *vs));
                    assert(decreases_to!(*vs => vs[i as int]));
                }
                out.push(clone_value(&vs[i]));
            }
            let r = Value::List(out);
            proof {
                lemma_values_view_props(out@);
                lemma_values_view_props(vs@);
                assert(crate::value::values_view(out@) =~= crate::value::values_view(vs@));
            }
            r
        },
        Value::Record(d) => {
            let mut out: Vec<(String, Value)> = Vec::new();
            let n = d.entries.len();
            for i in 0..n
                invariant
                    n == d.entries.len(),
                    out@.len() == i,
                    forall|k: int| 0 <= k < i ==> (#[trigger] out@[k]).0@ == d.entries@[k].0@
                        && out@[k].1@ == d.entries@[k].1@,
            {
                let e = &d.entries[i];
                proof {
                    assert(decreases_to!(*v => *d));
                    assert(decreases_to!(*d => d.entries));
                    assert(decreases_to!(d.entries => d.entries[i as int]));
                    assert(decreases_to!(d.entries[i as int] => d.entries[i as int].1));
                }
                out.push((e.0.clone(), clone_value(&e.1)));
            }
            let r = Value::Record(Document { entries: out });
            proof {
                lemma_entries_view_props(out@);
                lemma_entries_view_props(d.entries@);
                assert(entries_view(out@) =~= entries_view(d.entries@));
            }
            r
        },
    }
}

// --- Flattening, executably --------------------------------------------------

/// Appends the flat pairs of a record's entries at `prefix` to `out`.
#[verifier::loop_isolation(false)]
fn flat_entries_exec(prefix: &str, entries: &Vec<(String, Value)>, out: &mut Vec<(String, Value)>)
    ensures
        entries_view(final(out)@) == entries_view(old(out)@) + flat_entries(
            prefix@,
            entries_view(entries@),
        ),
    decreases entries,
{
    let ghost es = entries_view(entries@);
    let n = entries.len();
    proof {
        lemma_entries_view_props(entries@);
        assert(es.skip(0) =~= es);
        assert(entries_view(out@) + flat_entries(prefix@, es.skip(0)) =~= entries_view(old(out)@)
            + flat_entries(prefix@, es));
    }
    for i in 0..n
        invariant
            n == entries.len(),
            es == entries_view(entries@),
            es.len() == n,
            forall|k: int| 0 <= k < n ==> #[trigger] es[k] == (entries@[k].0@, entries@[k].1@),
            entries_view(out@) + flat_entries(prefix@, es.skip(i as int)) == entries_view(
                old(out)@,
            ) + flat_entries(prefix@, es),
    {
        proof {
            assert(es.skip(i as int)[0] == es[i as int]);
            assert(es.skip(i as int).drop_first() =~= es.skip(i + 1));
        }
        let e = &entries[i];
        let joined = join_key_exec(prefix, e.0.as_str());
        let ghost before = entries_view(out@);
        proof {
            assert(decreases_to!(entries => entries[i as int]));
            assert(decreases_to!(entries[i as int] => entries[i as int].1));
        }
        flat_value_exec(joined.as_str(), &e.1, out);
        proof {
            let piece = flat_value(join_key(prefix@, e.0@), e.1@);
            assert(flat_entries(prefix@, es.skip(i as int)) == piece + flat_entries(
                prefix@,
                es.skip(i + 1),
            ));
            assert((before + piece) + flat_entries(prefix@, es.skip(i + 1)) =~= before + (piece
                + flat_entries(prefix@, es.skip(i + 1))));
        }
    }
    proof {
        assert(es.skip(n as int) =~= Seq::<(Seq<char>, SpecValue)>::empty());
        assert(entries_view(out@) + Seq::<(Seq<char>, SpecValue)>::empty() =~= entries_view(out@));
    }
}

/// Appends the flat pairs of `v` at `prefix` to `out`.
#[verifier::loop_isolation(false)]
fn flat_value_exec(prefix: &str, v: &Value, out: &mut Vec<(String, Value)>)
    ensures
        entries_view(final(out)@) == entries_view(old(out)@) + flat_value(prefix@, v@),
    decreases v,
{
    match v {
        Value::Record(d) => {
            proof {
                assert(decreases_to!(*v => *d));
                assert(decreases_to!(*d => d.entries));
            }
            flat_entries_exec(prefix, &d.entries, out);
        },
        Value::List(vs) => {
            let ghost vsv = crate::value::values_view(vs@);
            let n = vs.len();
            proof {
                lemma_values_view_props(vs@);
                assert(vsv.skip(0) =~= vsv);
                assert(entries_view(out@) + flat_elems(prefix@, vsv.skip(0), 0) =~= entries_view(
                    old(out)@,
                ) + flat_elems(prefix@, vsv, 0));
            }
            for i in 0..n
                invariant
                    n == vs.len(),
                    vsv == crate::value::values_view(vs@),
                    vsv.len() == n,
                    forall|k: int| 0 <= k < n ==> #[trigger] vsv[k] == vs@[k]@,
                    entries_view(out@) + flat_elems(prefix@, vsv.skip(i as int), i as nat)
                        == entries_view(old(out)@) + flat_elems(prefix@, vsv, 0),
            {
                proof {
                    assert(vsv.skip(i as int)[0] == vsv[i as int]);
                    assert(vsv.skip(i as int).drop_first() =~= vsv.skip(i + 1));
                }
                let label = dec_string(i);
                let joined = join_key_exec(prefix, label.as_str());
                let ghost before = entries_view(out@);
                proof {
                    assert(decreases_to!(*v => *vs));
                    assert(decreases_to!(*vs => vs[i as int]));
                }
                flat_value_exec(joined.as_str(), &vs[i], out);
                proof {
                    let piece = flat_value(join_key(prefix@, dec_of(i as nat)), vsv[i as int]);
                    assert(flat_elems(prefix@, vsv.skip(i as int), i as nat) == piece + flat_elems(
                        prefix@,
                        vsv.skip(i + 1),
                        (i + 1) as nat,
                    ));
                    assert((before + piece) + flat_elems(prefix@, vsv.skip(i + 1), (i + 1) as nat)
                        =~= before + (piece + flat_elems(prefix@, vsv.skip(i + 1), (i + 1) as nat)));
                }
            }
            proof {
                assert(vsv.skip(n as int) =~= Seq::<SpecValue>::empty());
                assert(entries_view(out@) + Seq::<(Seq<char>, SpecValue)>::empty() =~= entries_view(
                    out@,
                ));
            }
        },
        _ => {
            let ghost before = entries_view(out@);
            let key = prefix.to_owned();
            let leaf = clone_value(v);
            proof {
                lemma_entries_view_push(out@, (key, leaf));
                assert(before + seq![(prefix@, v@)] =~= entries_view(old(out)@) + flat_value(
                    prefix@,
                    v@,
                ));
            }
            out.push((key, leaf));
        },
    }
}

/// The flat `(key, leaf value)` pairs of one document, in flattening
/// order: nested record keys dot-joined, list elements position-indexed.
pub fn flatten_document(doc: &Document) -> (r: Vec<(String, Value)>)
    ensures
        entries_view(r@) == spec_flatten(doc@),
{
    let mut out: Vec<(String, Value)> = Vec::new();
    proof {
        reveal_strlit("");
        assert(""@ =~= Seq::<char>::empty());
        assert(entries_view(out@) =~= Seq::<(Seq<char>, SpecValue)>::empty());
    }
    flat_entries_exec("", &doc.entries, &mut out);
    proof {
        assert(Seq::<(Seq<char>, SpecValue)>::empty() + spec_flatten(doc@) =~= spec_flatten(doc@));
    }
    out
}


// --- Column ordering ---------------------------------------------------------

/// Lexicographic order on keys, by code point; a proper prefix sorts first.
pub open spec fn key_lt(x: Seq<char>, y: Seq<char>) -> bool
    decreases x.len(),
{
    if y.len() == 0 {
        false
    } else if x.len() == 0 {
        true
    } else if (x[0] as u32) < (y[0] as u32) {
        true
    } else if (x[0] as u32) > (y[0] as u32) {
        false
    } else {
        key_lt(x.drop_first(), y.drop_first())
    }
}

/// Comparing after a common prefix decides the order.
proof fn lemma_key_lt_skip(x: Seq<char>, y: Seq<char>, m: int)
    requires
        0 <= m <= x.len(),
        m <= y.len(),
        forall|k: int| 0 <= k < m ==> x[k] == y[k],
    ensures
        key_lt(x, y) == key_lt(x.skip(m), y.skip(m)),
    decreases m,
{
    if m == 0 {
        assert(x.skip(0) =~= x);
        assert(y.skip(0) =~= y);
    } else {
        assert(x[0] == y[0]);
        assert(x.drop_first() =~= x.skip(1));
        assert(y.drop_first() =~= y.skip(1));
        assert(forall|k: int| 0 <= k < m - 1 ==> x.skip(1)[k] == y.skip(1)[k]);
        lemma_key_lt_skip(x.skip(1), y.skip(1), m - 1);
        assert(x.skip(1).skip(m - 1) =~= x.skip(m));
        assert(y.skip(1).skip(m - 1) =~= y.skip(m));
    }
}

/// The order is total: two keys compare one way, the other, or are equal.
proof fn lemma_key_lt_total(x: Seq<char>, y: Seq<char>)
    ensures
        key_lt(x, y) || key_lt(y, x) || x == y,
    decreases x.len(),
{
    if y.len() == 0 {
        if x.len() == 0 {
            assert(x =~= y);
        } else {
            assert(key_lt(y, x));
        }
    } else if x.len() == 0 {
        assert(key_lt(x, y));
    } else if (x[0] as u32) < (y[0] as u32) {
        assert(key_lt(x, y));
    } else if (x[0] as u32) > (y[0] as u32) {
        assert(key_lt(y, x));
    } else {
        vstd::utf8::char_u32_cast(x[0], x[0] as u32);
        vstd::utf8::char_u32_cast(y[0], y[0] as u32);
        assert(x[0] == y[0]);
        let xd = x.drop_first();
        let yd = y.drop_first();
        assert(key_lt(x, y) == key_lt(xd, yd));
        assert(key_lt(y, x) == key_lt(yd, xd));
        lemma_key_lt_total(xd, yd);
        if !key_lt(x, y) && !key_lt(y, x) {
            assert(xd == yd);
            assert(forall|k: int| 1 <= k < x.len() ==> #[trigger] x[k] == xd[k - 1]);
            assert(forall|k: int| 1 <= k < y.len() ==> #[trigger] y[k] == yd[k - 1]);
            assert(x =~= y);
        }
    }
}

/// Whether `a`'s characters sort before `b`'s.
pub fn str_lt(a: &str, b: &str) -> (r: bool)
    ensures
        r == key_lt(a@, b@),
{
    let na = a.unicode_len();
    let nb = b.unicode_len();
    let mut i: usize = 0;
    while i < na && i < nb && a.get_char(i) == b.get_char(i)
        invariant
            i <= na == a@.len(),
            i <= nb == b@.len(),
            forall|k: int| 0 <= k < i ==> a@[k] == b@[k],
        decreases na - i,
    {
        i = i + 1;
    }
    proof {
        lemma_key_lt_skip(a@, b@, i as int);
    }
    if i == na {
        proof {
            assert(a@.skip(i as int).len() == 0);
        }
        i < nb
    } else if i == nb {
        false
    } else {
        proof {
            assert(a@.skip(i as int)[0] == a@[i as int]);
            assert(b@.skip(i as int)[0] == b@[i as int]);
        }
        (a.get_char(i) as u32) < (b.get_char(i) as u32)
    }
}

// --- Collecting columns ------------------------------------------------------

/// The abstract forms of a column list.
pub open spec fn cols_view(cs: Seq<String>) -> Seq<Seq<char>> {
    Seq::new(cs.len(), |i: int| cs[i]@)
}

/// Whether `c` occurs among the columns.
pub open spec fn col_in(cs: Seq<Seq<char>>, c: Seq<char>) -> bool {
    exists|i: int| 0 <= i < cs.len() && cs[i] == c
}

/// Strictly ascending adjacent order: sorted, with no duplicates.
pub open spec fn cols_sorted(cs: Seq<Seq<char>>) -> bool {
    forall|k: int| 0 <= k && k + 1 < cs.len() ==> key_lt(#[trigger] cs[k], cs[k + 1])
}

/// Inserts `key` into the sorted column list, keeping it sorted and
/// duplicate-free; a key already present is left alone.
#[verifier::loop_isolation(false)]
fn insert_col(cols: &mut Vec<String>, key: &str)
    requires
        cols_sorted(cols_view(old(cols)@)),
    ensures
        cols_sorted(cols_view(final(cols)@)),
        forall|c: Seq<char>|
            col_in(cols_view(final(cols)@), c) <==> (col_in(cols_view(old(cols)@), c) || c
                == key@),
{
    let n = cols.len();
    let mut i: usize = 0;
    while i < n && str_lt(cols[i].as_str(), key)
        invariant
            i <= n == cols.len(),
            forall|k: int| 0 <= k < i ==> key_lt(#[trigger] cols@[k]@, key@),
        decreases n - i,
    {
        i = i + 1;
    }
    let mut present = false;
    if i < n {
        let ci = cols[i].as_str();
        present = str_eq(ci, key);
        proof {
            if present {
                assert(ci@ == key@);
                assert(cols_view(cols@)[i as int] == cols@[i as int]@);
            }
        }
    }
    if present {
        proof {
            assert(cols_view(cols@)[i as int] == key@);
            assert(col_in(cols_view(cols@), key@));
        }
        return ;
    }
    proof {
        if i < n {
            lemma_key_lt_total(key@, cols@[i as int]@);
        }
    }
    let ghost oldv = cols_view(cols@);
    cols.insert(i, key.to_owned());
    proof {
        let newv = cols_view(cols@);
        assert(newv =~= oldv.insert(i as int, key@));
        assert(forall|k: int| 0 <= k < i ==> newv[k] == oldv[k]);
        assert(newv[i as int] == key@);
        assert(forall|k: int| i < k < newv.len() ==> newv[k] == oldv[k - 1]);
        assert forall|c: Seq<char>|
            col_in(newv, c) <==> (col_in(oldv, c) || c == key@) by {
            if col_in(newv, c) {
                let q = choose|q: int| 0 <= q < newv.len() && newv[q] == c;
                if q < i {
                    assert(oldv[q] == c);
                } else if q == i {
                } else {
                    assert(oldv[q - 1] == c);
                }
            }
            if col_in(oldv, c) {
                let q = choose|q: int| 0 <= q < oldv.len() && oldv[q] == c;
                if q < i {
                    assert(newv[q] == c);
                } else {
                    assert(newv[q + 1] == c);
                }
            }
            if c == key@ {
                assert(newv[i as int] == c);
            }
        }
    }
}

/// The keys of a flat pair list.
pub open spec fn keys_of(ps: Seq<(Seq<char>, SpecValue)>) -> Seq<Seq<char>> {
    Seq::new(ps.len(), |i: int| ps[i].0)
}

/// Adds every key of one document's flat pairs to the column list.
#[verifier::loop_isolation(false)]
fn add_doc_columns(cols: &mut Vec<String>, flat: &Vec<(String, Value)>)
    requires
        cols_sorted(cols_view(old(cols)@)),
    ensures
        cols_sorted(cols_view(final(cols)@)),
        forall|c: Seq<char>|
            col_in(cols_view(final(cols)@), c) <==> (col_in(cols_view(old(cols)@), c) || col_in(
                keys_of(entries_view(flat@)),
                c,
            )),
{
    let n = flat.len();
    proof {
        lemma_entries_view_props(flat@);
    }
    for q in 0..n
        invariant
            n == flat.len(),
            cols_sorted(cols_view(cols@)),
            forall|c: Seq<char>|
                col_in(cols_view(cols@), c) <==> (col_in(cols_view(old(cols)@), c) || exists|k: int|
                    0 <= k < q && keys_of(entries_view(flat@))[k] == c),
    {
        insert_col(cols, flat[q].0.as_str());
        proof {
            assert(keys_of(entries_view(flat@))[q as int] == flat@[q as int].0@);
        }
    }
    proof {
        assert forall|c: Seq<char>|
            (exists|k: int| 0 <= k < n && keys_of(entries_view(flat@))[k] == c) <==> col_in(
                keys_of(entries_view(flat@)),
                c,
            ) by {}
    }
}

/// The first value bound to `key` among the flat pairs, deep-copied.
fn find_cell(flat: &Vec<(String, Value)>, key: &str) -> (r: Option<Value>)
    ensures
        match r {
            Some(v) => spec_lookup(entries_view(flat@), key@) == Some(v@),
            None => spec_lookup(entries_view(flat@), key@) is None,
        },
{
    let n = flat.len();
    let ghost fv = entries_view(flat@);
    proof {
        lemma_entries_view_props(flat@);
        assert(fv.skip(0) =~= fv);
    }
    for i in 0..n
        invariant
            n == flat.len(),
            fv == entries_view(flat@),
            fv.len() == n,
            forall|k: int| 0 <= k < n ==> #[trigger] fv[k] == (flat@[k].0@, flat@[k].1@),
            spec_lookup(fv, key@) == spec_lookup(fv.skip(i as int), key@),
    {
        proof {
            assert(fv.skip(i as int)[0] == fv[i as int]);
            assert(fv.skip(i as int).drop_first() =~= fv.skip(i + 1));
        }
        if str_eq(flat[i].0.as_str(), key) {
            return Some(clone_value(&flat[i].1));
        }
    }
    proof {
        assert(fv.skip(n as int) =~= Seq::<(Seq<char>, SpecValue)>::empty());
    }
    None
}

/// Whether a table cell holds exactly what the lookup found: a value when
/// the document has that column, an empty cell when it does not.
pub open spec fn cell_matches(c: Option<Value>, l: Option<SpecValue>) -> bool {
    match c {
        Some(v) => l == Some(v@),
        None => l is None,
    }
}

/// Projects documents onto a table: the columns are the union of every
/// document's flat keys in ascending order without duplicates, and row
/// `d` holds, for each column, the value that document `d`'s flattening
/// binds to it — or an empty cell when that document lacks the column.
#[verifier::loop_isolation(false)]
pub fn flatten_to_table(docs: &Vec<Document>) -> (r: (Vec<String>, Vec<Vec<Option<Value>>>))
    ensures
        cols_sorted(cols_view(r.0@)),
        forall|c: Seq<char>|
            col_in(cols_view(r.0@), c) <==> exists|d: int|
                0 <= d < docs@.len() && col_in(keys_of(spec_flatten(#[trigger] docs@[d]@)), c),
        r.1@.len() == docs@.len(),
        forall|d: int| 0 <= d < docs@.len() ==> #[trigger] r.1@[d]@.len() == r.0@.len(),
        forall|d: int, j: int|
            0 <= d < docs@.len() && 0 <= j < r.0@.len() ==> cell_matches(
                #[trigger] r.1@[d]@[j],
                spec_lookup(spec_flatten(docs@[d]@), r.0@[j]@),
            ),
{
    let nd = docs.len();
    let mut flats: Vec<Vec<(String, Value)>> = Vec::new();
    for d in 0..nd
        invariant
            nd == docs.len(),
            flats@.len() == d,
            forall|k: int|
                0 <= k < d ==> entries_view(#[trigger] flats@[k]@) == spec_flatten(docs@[k]@),
    {
        flats.push(flatten_document(&docs[d]));
    }
    let mut cols: Vec<String> = Vec::new();
    for d in 0..nd
        invariant
            nd == docs.len(),
            flats@.len() == nd,
            forall|k: int|
                0 <= k < nd ==> entries_view(#[trigger] flats@[k]@) == spec_flatten(docs@[k]@),
            cols_sorted(cols_view(cols@)),
            forall|c: Seq<char>|
                col_in(cols_view(cols@), c) <==> exists|k: int|
                    0 <= k < d && col_in(keys_of(spec_flatten(#[trigger] docs@[k]@)), c),
    {
        add_doc_columns(&mut cols, &flats[d]);
    }
    let nc = cols.len();
    let mut rows: Vec<Vec<Option<Value>>> = Vec::new();
    for d in 0..nd
        invariant
            nd == docs.len(),
            nc == cols.len(),
            flats@.len() == nd,
            forall|k: int|
                0 <= k < nd ==> entries_view(#[trigger] flats@[k]@) == spec_flatten(docs@[k]@),
            rows@.len() == d,
            forall|k: int| 0 <= k < d ==> #[trigger] rows@[k]@.len() == nc,
            forall|k: int, j: int|
                0 <= k < d && 0 <= j < nc ==> cell_matches(
                    #[trigger] rows@[k]@[j],
                    spec_lookup(spec_flatten(docs@[k]@), cols@[j]@),
                ),
    {
        let mut row: Vec<Option<Value>> = Vec::new();
        for j in 0..nc
            invariant
                nd == docs.len(),
                nc == cols.len(),
                d < nd,
                flats@.len() == nd,
                forall|k: int|
                    0 <= k < nd ==> entries_view(#[trigger] flats@[k]@) == spec_flatten(docs@[k]@),
                row@.len() == j,
                forall|q: int|
                    0 <= q < j ==> cell_matches(
                        #[trigger] row@[q],
                        spec_lookup(spec_flatten(docs@[d as int]@), cols@[q]@),
                    ),
        {
            row.push(find_cell(&flats[d], cols[j].as_str()));
        }
        rows.push(row);
    }
    (cols, rows)
}

} // verus!
