use vstd::prelude::*;

use crate::text::str_eq;

verus! {

broadcast use
    vstd::std_specs::vec::axiom_vec_index_decreases,
    vstd::std_specs::vec::axiom_vec_decreases_to_view,
    vstd::seq::axiom_seq_index_decreases;

/// One decoded message value.
///
/// Floating-point fields are carried as their raw IEEE-754 bit patterns
/// (`F32Bits`, `F64Bits`); turning the bits into native floats is left to
/// callers outside the verified core.
#[derive(Debug, PartialEq)]
pub enum Value {
    Bool(bool),
    Int(i64),
    UInt(u64),
    F32Bits(u32),
    F64Bits(u64),
    Char(char),
    Text(String),
    List(Vec<Value>),
    Record(Document),
}

/// A decoded message: an ordered mapping from field name to value.
/// The order of `entries` is the schema's field declaration order.
#[derive(Debug, PartialEq)]
pub struct Document {
    pub entries: Vec<(String, Value)>,
}

/// The abstract form of a `Value`, used throughout the decoder's
/// specification.
#[verifier::ext_equal]
pub enum SpecValue {
    Bool(bool),
    Int(i64),
    UInt(u64),
    F32Bits(u32),
    F64Bits(u64),
    Char(char),
    Text(Seq<char>),
    List(Seq<SpecValue>),
    Record(Seq<(Seq<char>, SpecValue)>),
}

/// The abstract form of a value.
pub open spec fn value_view(v: Value) -> SpecValue
    decreases v,
{
    match v {
        Value::Bool(b) => SpecValue::Bool(b),
        Value::Int(i) => SpecValue::Int(i),
        Value::UInt(u) => SpecValue::UInt(u),
        Value::F32Bits(b) => SpecValue::F32Bits(b),
        Value::F64Bits(b) => SpecValue::F64Bits(b),
        Value::Char(c) => SpecValue::Char(c),
        Value::Text(s) => SpecValue::Text(s@),
        Value::List(vs) => SpecValue::List(values_view(vs@)),
        Value::Record(d) => SpecValue::Record(entries_view(d.entries@)),
    }
}

/// The abstract form of a sequence of values.
pub open spec fn values_view(vs: Seq<Value>) -> Seq<SpecValue>
    decreases vs,
{
    if vs.len() == 0 {
        Seq::empty()
    } else {
        seq![value_view(vs[0])] + values_view(vs.drop_first())
    }
}

/// The abstract form of a sequence of named values.
pub open spec fn entries_view(es: Seq<(String, Value)>) -> Seq<(Seq<char>, SpecValue)>
    decreases es,
{
    if es.len() == 0 {
        Seq::empty()
    } else {
        seq![(es[0].0@, value_view(es[0].1))] + entries_view(es.drop_first())
    }
}

impl View for Value {
    type V = SpecValue;

    open spec fn view(&self) -> SpecValue {
        value_view(*self)
    }
}

impl View for Document {
    type V = Seq<(Seq<char>, SpecValue)>;

    open spec fn view(&self) -> Seq<(Seq<char>, SpecValue)> {
        entries_view(self.entries@)
    }
}

/// Length and elements of `values_view`.
pub proof fn lemma_values_view_props(vs: Seq<Value>)
    ensures
        values_view(vs).len() == vs.len(),
        forall|i: int| 0 <= i < vs.len() ==> #[trigger] values_view(vs)[i] == vs[i]@,
    decreases vs.len(),
{
    if vs.len() > 0 {
        lemma_values_view_props(vs.drop_first());
        assert(forall|i: int|
            1 <= i < vs.len() ==> values_view(vs)[i] == values_view(vs.drop_first())[i - 1]
                && vs.drop_first()[i - 1] == vs[i]);
    }
}

/// Length and elements of `entries_view`.
pub proof fn lemma_entries_view_props(es: Seq<(String, Value)>)
    ensures
        entries_view(es).len() == es.len(),
        forall|i: int| 0 <= i < es.len() ==> #[trigger] entries_view(es)[i] == (
            es[i].0@,
            es[i].1@,
        ),
    decreases es.len(),
{
    if es.len() > 0 {
        lemma_entries_view_props(es.drop_first());
        assert(forall|i: int|
            1 <= i < es.len() ==> entries_view(es)[i] == entries_view(es.drop_first())[i - 1]
                && es.drop_first()[i - 1] == es[i]);
    }
}

/// Appending a value extends its sequence's abstract form by one.
pub proof fn lemma_values_view_push(vs: Seq<Value>, v: Value)
    ensures
        values_view(vs.push(v)) == values_view(vs) + seq![v@],
    decreases vs.len(),
{
    if vs.len() == 0 {
        assert(vs.push(v)[0] == v);
        assert(vs.push(v).drop_first() =~= Seq::<Value>::empty());
        assert(values_view(vs.push(v).drop_first()) == Seq::<SpecValue>::empty());
        assert(values_view(vs.push(v)) =~= values_view(vs) + seq![v@]);
    } else {
        assert(vs.push(v)[0] == vs[0]);
        assert(vs.push(v).drop_first() =~= vs.drop_first().push(v));
        lemma_values_view_push(vs.drop_first(), v);
        assert(values_view(vs.push(v)) =~= values_view(vs) + seq![v@]);
    }
}

/// Appending a named value extends its sequence's abstract form by one.
pub proof fn lemma_entries_view_push(es: Seq<(String, Value)>, x: (String, Value))
    ensures
        entries_view(es.push(x)) == entries_view(es) + seq![(x.0@, x.1@)],
    decreases es.len(),
{
    if es.len() == 0 {
        assert(es.push(x)[0] == x);
        assert(es.push(x).drop_first() =~= Seq::<(String, Value)>::empty());
        assert(entries_view(es.push(x).drop_first()) == Seq::<(Seq<char>, SpecValue)>::empty());
        assert(entries_view(es.push(x)) =~= entries_view(es) + seq![(x.0@, x.1@)]);
    } else {
        assert(es.push(x)[0] == es[0]);
        assert(es.push(x).drop_first() =~= es.drop_first().push(x));
        lemma_entries_view_push(es.drop_first(), x);
        assert(entries_view(es.push(x)) =~= entries_view(es) + seq![(x.0@, x.1@)]);
    }
}

/// First value bound to `name` in an abstract document, if any.
pub open spec fn spec_lookup(entries: Seq<(Seq<char>, SpecValue)>, name: Seq<char>) -> Option<
    SpecValue,
>
    decreases entries.len(),
{
    if entries.len() == 0 {
        None
    } else if entries[0].0 == name {
        Some(entries[0].1)
    } else {
        spec_lookup(entries.drop_first(), name)
    }
}

impl Document {
    /// The value of the first entry named `name`, if one exists.
    pub fn get(&self, name: &str) -> (r: Option<&Value>)
        ensures
            match r {
                Some(v) => spec_lookup(self@, name@) == Some(v@),
                None => spec_lookup(self@, name@) is None,
            },
    {
        let n = self.entries.len();
        proof {
            lemma_entries_view_props(self.entries@);
            assert(self@.skip(0) =~= self@);
        }
        for i in 0..n
            invariant
                n == self.entries.len(),
                entries_view(self.entries@).len() == n,
                forall|k: int| 0 <= k < n ==> #[trigger] entries_view(self.entries@)[k] == (
                    self.entries@[k].0@,
                    self.entries@[k].1@,
                ),
                spec_lookup(self@, name@) == spec_lookup(self@.skip(i as int), name@),
        {
            proof {
                assert(self@.skip(i as int)[0] == self@[i as int]);
                assert(self@.skip(i as int).drop_first() =~= self@.skip(i + 1));
            }
            let eq = str_eq(self.entries[i].0.as_str(), name);
            if eq {
                return Some(&self.entries[i].1);
            }
        }
        proof {
            assert(self@.skip(n as int) =~= Seq::<(Seq<char>, SpecValue)>::empty());
        }
        None
    }
}

} // verus!
