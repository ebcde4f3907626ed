use vstd::prelude::*;

use crate::text::{is_ws, is_digit, digit_suf, lemma_digit_suf, normalize_spec, normalize, array_len_of, parse_array_len, str_eq, trim_spec, strip_semis, words_of, first_idx, lemma_first_idx, lemma_first_idx_bounds, lemma_ws_pre, lemma_ws_suf, lemma_semi_suf, lemma_nonws_pre};

verus! {

// --- Schema model ----------------------------------------------------------

/// How one declared field is decoded.
#[derive(Debug, Clone, PartialEq)]
pub enum FieldType {
    /// A single value: a primitive keyword or a nested message type name.
    Object(String),
    /// A dynamic-length list whose length is read from the wire.
    Sequence(String),
    /// A fixed-length list whose length is part of the schema.
    Array(String, usize),
}

/// One declared field of a message type.
#[derive(Debug, Clone, PartialEq)]
pub struct MessageField {
    /// Name of the field.
    pub name: String,
    /// Field type.
    pub field_type: FieldType,
}

/// The ordered field list describing how to decode one message type.
#[derive(Debug, Clone, PartialEq)]
pub struct MessageSchema {
    /// Name of the message type, such as `foo_msgs/msg/Foo`.
    pub typename: String,
    /// The declared fields, in declaration (and wire) order.
    pub fields: Vec<MessageField>,
}

// --- Abstract forms --------------------------------------------------------

pub enum SpecFieldType {
    Object(Seq<char>),
    Sequence(Seq<char>),
    Array(Seq<char>, usize),
}

pub struct SpecField {
    pub name: Seq<char>,
    pub ftype: SpecFieldType,
}

pub struct SpecSchema {
    pub typename: Seq<char>,
    pub fields: Seq<SpecField>,
}

impl SpecFieldType {
    /// The element (or single-value) type name.
    pub open spec fn typename(self) -> Seq<char> {
        match self {
            SpecFieldType::Object(n) => n,
            SpecFieldType::Sequence(n) => n,
            SpecFieldType::Array(n, _) => n,
        }
    }

    /// Whether decoding yields a list of values.
    pub open spec fn is_iterable(self) -> bool {
        !(self is Object)
    }
}

impl View for FieldType {
    type V = SpecFieldType;

    open spec fn view(&self) -> SpecFieldType {
        match self {
            FieldType::Object(n) => SpecFieldType::Object(n@),
            FieldType::Sequence(n) => SpecFieldType::Sequence(n@),
            FieldType::Array(n, l) => SpecFieldType::Array(n@, *l),
        }
    }
}

impl View for MessageField {
    type V = SpecField;

    open spec fn view(&self) -> SpecField {
        SpecField { name: self.name@, ftype: self.field_type@ }
    }
}

impl View for MessageSchema {
    type V = SpecSchema;

    open spec fn view(&self) -> SpecSchema {
        SpecSchema {
            typename: self.typename@,
            fields: Seq::new(self.fields@.len(), |i: int| self.fields@[i]@),
        }
    }
}

impl FieldType {
    /// The element (or single-value) type name.
    pub fn typename(&self) -> (r: &str)
        ensures
            r@ == self@.typename(),
    {
        match self {
            FieldType::Object(n) => n.as_str(),
            FieldType::Sequence(n) => n.as_str(),
            FieldType::Array(n, _) => n.as_str(),
        }
    }

    /// Whether decoding yields a list of values.
    pub fn is_iterable(&self) -> (r: bool)
        ensures
            r == self@.is_iterable(),
    {
        !matches!(self, FieldType::Object(_))
    }
}

impl MessageField {
    /// The element (or single-value) type name of this field.
    pub fn typename(&self) -> (r: &str)
        ensures
            r@ == self@.ftype.typename(),
    {
        self.field_type.typename()
    }

    /// Whether this field decodes to a list of values.
    pub fn is_iterable(&self) -> (r: bool)
        ensures
            r == self@.ftype.is_iterable(),
    {
        self.field_type.is_iterable()
    }
}

// --- Classifying a type declaration ----------------------------------------

/// Whether `s` has the fixed-size-array shape `<base>__<digits>` emitted by
/// the upstream definition generator: a non-empty base, two underscores, and
/// a non-empty run of digits reaching the end.
pub open spec fn array_decl_ok(s: Seq<char>) -> bool {
    let d = digit_suf(s);
    d >= 1 && s.len() >= d + 3 && s[s.len() - d - 1] == '_' && s[s.len() - d - 2] == '_'
}

/// Whether `s` has the shape `sequence<INNER>`.
pub open spec fn sequence_decl_ok(s: Seq<char>) -> bool {
    s.len() >= 10 && s.take(9) == "sequence<"@ && s.last() == '>'
}

/// The classification of a type declaration token. The array shape is
/// checked first, then the sequence shape; everything else is a single
/// object. Namespace separators in the carried name are normalized.
pub open spec fn classify_spec(s: Seq<char>) -> SpecFieldType {
    if array_decl_ok(s) {
        let d = digit_suf(s);
        SpecFieldType::Array(
            normalize_spec(s.take(s.len() - d - 2)),
            array_len_of(s.skip(s.len() - d)),
        )
    } else if sequence_decl_ok(s) {
        SpecFieldType::Sequence(normalize_spec(s.subrange(9, s.len() - 1)))
    } else {
        SpecFieldType::Object(normalize_spec(s))
    }
}

/// Whether `c` is an ASCII digit.
fn digit_char(c: char) -> (r: bool)
    ensures
        r == is_digit(c),
{
    48 <= (c as u32) && (c as u32) <= 57
}

/// Classifies one type declaration token into a `FieldType`.
///
/// The fixed-size-array suffix `__<digits>` is a naming convention of the
/// upstream definition generator; it is recognized here, in one place, so
/// the heuristic stays out of the decode logic.
pub fn to_field_type(s: &str) -> (r: FieldType)
    ensures
        r@ == classify_spec(s@),
{
    let n = s.unicode_len();
    // Scan the run of trailing digits.
    let mut j: usize = n;
    while j > 0 && digit_char(s.get_char(j - 1))
        invariant
            j <= n,
            n == s@.len(),
            forall|k: int| j <= k < n ==> is_digit(s@[k]),
        decreases j,
    {
        j = j - 1;
    }
    let d = n - j;
    proof {
        lemma_digit_suf(s@, d as int);
    }
    if d >= 1 && j >= 3 && s.get_char(j - 1) == '_' && s.get_char(j - 2) == '_' {
        let base = s.substring_char(0, j - 2);
        let digits = s.substring_char(j, n);
        proof {
            assert(base@ =~= s@.take(n - d - 2));
            assert(digits@ =~= s@.skip(n - d));
        }
        FieldType::Array(normalize(base), parse_array_len(digits))
    } else {
        let is_seq = if n >= 10 {
            let last_ok = s.get_char(n - 1) == '>';
            let head = s.substring_char(0, 9);
            proof {
                assert(head@ =~= s@.take(9));
            }
            last_ok && str_eq(head, "sequence<")
        } else {
            false
        };
        if is_seq {
            let inner = s.substring_char(9, n - 1);
            proof {
                assert(inner@ =~= s@.subrange(9, n - 1));
            }
            FieldType::Sequence(normalize(inner))
        } else {
            FieldType::Object(normalize(s))
        }
    }
}

// --- Parsing an interface definition ---------------------------------------

/// The fields a single statement yields: exactly one when the statement
/// tokenizes into `(type_declaration, field_name)`, none otherwise.
pub open spec fn stmt_fields(stmt: Seq<char>) -> Seq<SpecField> {
    let w = words_of(stmt);
    if w.len() == 2 {
        seq![SpecField { name: w[1], ftype: classify_spec(w[0]) }]
    } else {
        Seq::empty()
    }
}

/// The fields one source line yields: the line is trimmed, kept only when
/// non-empty and terminated by `;`, stripped of trailing `;`, and tokenized.
pub open spec fn line_fields(l: Seq<char>) -> Seq<SpecField> {
    let t = trim_spec(l);
    if t.len() > 0 && t.last() == ';' {
        stmt_fields(strip_semis(t))
    } else {
        Seq::empty()
    }
}

/// All fields of an interface-definition source, line by line.
pub open spec fn idl_fields(text: Seq<char>) -> Seq<SpecField>
    decreases text.len(),
    via idl_fields_dec
{
    let j = first_idx(text, '\n');
    if j < 0 {
        line_fields(text)
    } else {
        line_fields(text.take(j)) + idl_fields(text.skip(j + 1))
    }
}

#[via_fn]
proof fn idl_fields_dec(text: Seq<char>) {
    lemma_first_idx_bounds(text, '\n');
}

/// The schema denoted by an interface-definition source.
pub open spec fn spec_parse_idl(text: Seq<char>, tn: Seq<char>) -> SpecSchema {
    SpecSchema { typename: tn, fields: idl_fields(text) }
}

/// The abstract form of a field vector.
pub open spec fn fields_view(fs: Seq<MessageField>) -> Seq<SpecField> {
    Seq::new(fs.len(), |i: int| fs[i]@)
}

/// Whether `c` is statement-separator whitespace.
fn ws_char(c: char) -> (r: bool)
    ensures
        r == is_ws(c),
{
    c == ' ' || c == '\t' || c == '\n' || c == '\r' || c == '\x0b' || c == '\x0c'
}

/// The whitespace-separated words of `s` between character positions
/// `lo` and `hi`, as index ranges into `s`.
fn split_words(s: &str, lo: usize, hi: usize) -> (w: Vec<(usize, usize)>)
    requires
        lo <= hi <= s@.len(),
    ensures
        words_of(s@.subrange(lo as int, hi as int)) == Seq::new(
            w@.len(),
            |q: int| s@.subrange(w@[q].0 as int, w@[q].1 as int),
        ),
        forall|q: int| 0 <= q < w@.len() ==> lo <= #[trigger] w@[q].0 < w@[q].1 <= hi,
{
    let ghost stmt = s@.subrange(lo as int, hi as int);
    let mut w: Vec<(usize, usize)> = Vec::new();
    let mut i: usize = lo;
    proof {
        assert(stmt.skip(0) =~= stmt);
        assert(Seq::new(w@.len(), |q: int| s@.subrange(w@[q].0 as int, w@[q].1 as int))
            =~= Seq::<Seq<char>>::empty());
    }
    while i < hi
        invariant
            lo <= i <= hi <= s@.len(),
            stmt == s@.subrange(lo as int, hi as int),
            words_of(stmt) == Seq::new(
                w@.len(),
                |q: int| s@.subrange(w@[q].0 as int, w@[q].1 as int),
            ) + words_of(stmt.skip(i - lo)),
            forall|q: int| 0 <= q < w@.len() ==> lo <= #[trigger] w@[q].0 < w@[q].1 <= i,
        decreases hi - i,
    {
        let c = s.get_char(i);
        if ws_char(c) {
            proof {
                let rem = stmt.skip(i - lo);
                assert(rem[0] == s@[i as int]);
                assert(rem.drop_first() =~= stmt.skip(i + 1 - lo));
                assert(words_of(rem) == words_of(rem.drop_first()));
            }
            i = i + 1;
        } else {
            let a = i;
            let ghost prev = Seq::new(
                w@.len(),
                |q: int| s@.subrange(w@[q].0 as int, w@[q].1 as int),
            );
            proof {
                assert(!is_ws(s@[a as int]));
                assert(a < hi);
                assert(words_of(stmt) == prev + words_of(stmt.skip(a - lo)));
            }
            while i < hi && !ws_char(s.get_char(i))
                invariant
                    a <= i <= hi <= s@.len(),
                    forall|k: int| a <= k < i ==> !is_ws(s@[k]),
                decreases hi - i,
            {
                i = i + 1;
            }
            proof {
                assert(i > a);
                let rem = stmt.skip(a - lo);
                assert(rem =~= s@.subrange(a as int, hi as int));
                assert(forall|k: int| 0 <= k < i - a ==> !is_ws(rem[k]));
                if i < hi {
                    assert(is_ws(rem[i - a]));
                }
                lemma_nonws_pre(rem, i - a);
                assert(!is_ws(rem[0]));
                assert(1 + crate::text::nonws_pre(rem.drop_first()) == i - a);
                assert(rem.take(i - a) =~= s@.subrange(a as int, i as int));
                assert(rem.skip(i - a) =~= stmt.skip(i - lo));
                assert(words_of(rem) == seq![s@.subrange(a as int, i as int)] + words_of(
                    stmt.skip(i - lo),
                ));
                let pushed = w@.push((a, i));
                let next = Seq::new(
                    pushed.len(),
                    |q: int| s@.subrange(pushed[q].0 as int, pushed[q].1 as int),
                );
                assert(next =~= prev + seq![s@.subrange(a as int, i as int)]);
                assert(prev + (seq![s@.subrange(a as int, i as int)] + words_of(
                    stmt.skip(i - lo),
                )) =~= next + words_of(stmt.skip(i - lo)));
            }
            w.push((a, i));
        }
    }
    proof {
        assert(stmt.skip(hi - lo) =~= Seq::<char>::empty());
        assert(words_of(stmt) =~= Seq::new(
            w@.len(),
            |q: int| s@.subrange(w@[q].0 as int, w@[q].1 as int),
        ));
    }
    w
}

/// Parses one source line into at most one declared field.
fn line_to_field(line: &str) -> (r: Option<MessageField>)
    ensures
        match r {
            Some(f) => line_fields(line@) == seq![f@],
            None => line_fields(line@) == Seq::<SpecField>::empty(),
        },
{
    let n = line.unicode_len();
    let mut lo: usize = 0;
    while lo < n && ws_char(line.get_char(lo))
        invariant
            lo <= n == line@.len(),
            forall|k: int| 0 <= k < lo ==> is_ws(line@[k]),
        decreases n - lo,
    {
        lo = lo + 1;
    }
    if lo == n {
        proof {
            lemma_ws_pre(line@, n as int);
        }
        return None;
    }
    proof {
        lemma_ws_pre(line@, lo as int);
    }
    let mut hi: usize = n;
    while hi > lo && ws_char(line.get_char(hi - 1))
        invariant
            lo <= hi <= n == line@.len(),
            forall|k: int| hi <= k < n ==> is_ws(line@[k]),
        decreases hi,
    {
        hi = hi - 1;
    }
    proof {
        if hi == lo {
            assert(is_ws(line@[lo as int]));
        }
        assert(hi > lo);
        assert(!is_ws(line@[hi - 1]));
        lemma_ws_suf(line@, n - hi);
    }
    let ghost t = line@.subrange(lo as int, hi as int);
    proof {
        assert(trim_spec(line@) =~= t);
    }
    if !(line.get_char(hi - 1) == ';') {
        proof {
            assert(t.last() == line@[hi - 1]);
        }
        return None;
    }
    let mut he: usize = hi;
    while he > lo && line.get_char(he - 1) == ';'
        invariant
            lo <= he <= hi <= n == line@.len(),
            forall|k: int| he <= k < hi ==> line@[k] == ';',
        decreases he,
    {
        he = he - 1;
    }
    proof {
        assert(forall|k: int| t.len() - (hi - he) <= k < t.len() ==> t[k] == ';');
        if he > lo {
            assert(t[t.len() - (hi - he) - 1] == line@[he - 1]);
        }
        lemma_semi_suf(t, hi - he);
        assert(strip_semis(t) =~= line@.subrange(lo as int, he as int));
    }
    let w = split_words(line, lo, he);
    if w.len() == 2 {
        let a0 = w[0].0;
        let b0 = w[0].1;
        let a1 = w[1].0;
        let b1 = w[1].1;
        let decl = line.substring_char(a0, b0);
        let field_name = line.substring_char(a1, b1);
        proof {
            assert(decl@ =~= line@.subrange(a0 as int, b0 as int));
            assert(field_name@ =~= line@.subrange(a1 as int, b1 as int));
            assert(words_of(strip_semis(t))[0] == line@.subrange(a0 as int, b0 as int));
            assert(words_of(strip_semis(t))[1] == line@.subrange(a1 as int, b1 as int));
        }
        let f = MessageField { name: field_name.to_owned(), field_type: to_field_type(decl) };
        Some(f)
    } else {
        None
    }
}

/// Parses an interface-definition source into the schema for `typename`.
///
/// Statements sit one per line and end in `;`; blank lines, lines without
/// the terminator, and lines that do not tokenize into exactly two words
/// are skipped rather than rejected.
pub fn parse_idl_to_schema(idl_text: &str, typename: &str) -> (s: MessageSchema)
    ensures
        s@ == spec_parse_idl(idl_text@, typename@),
{
    let n = idl_text.unicode_len();
    let mut fields: Vec<MessageField> = Vec::new();
    let mut pos: usize = 0;
    let mut done: bool = false;
    proof {
        assert(idl_text@.skip(0) =~= idl_text@);
        assert(fields_view(fields@) =~= Seq::<SpecField>::empty());
    }
    while !done
        invariant
            pos <= n == idl_text@.len(),
            !done ==> fields_view(fields@) + idl_fields(idl_text@.skip(pos as int)) == idl_fields(
                idl_text@,
            ),
            done ==> fields_view(fields@) == idl_fields(idl_text@),
        decreases n - pos + (if done { 0int } else { 1int }),
    {
        let ghost rem = idl_text@.skip(pos as int);
        let mut j: usize = pos;
        while j < n && !(idl_text.get_char(j) == '\n')
            invariant
                pos <= j <= n == idl_text@.len(),
                forall|k: int| pos <= k < j ==> idl_text@[k] != '\n',
            decreases n - j,
        {
            j = j + 1;
        }
        proof {
            assert(forall|k: int| 0 <= k < j - pos ==> rem[k] != '\n');
            if j < n {
                assert(rem[j - pos] == '\n');
            }
            lemma_first_idx(rem, '\n', j - pos);
        }
        let line = idl_text.substring_char(pos, j);
        proof {
            assert(line@ =~= idl_text@.subrange(pos as int, j as int));
            if j < n {
                assert(rem.take(j - pos) =~= line@);
                assert(rem.skip(j - pos + 1) =~= idl_text@.skip(j + 1));
            } else {
                assert(rem =~= line@);
            }
        }
        let fo = line_to_field(line);
        match fo {
            Some(f) => {
                proof {
                    assert(fields_view(fields@.push(f)) =~= fields_view(fields@) + seq![f@]);
                }
                fields.push(f);
            },
            None => {
                proof {
                    assert(fields_view(fields@) + line_fields(line@) =~= fields_view(fields@));
                }
            },
        }
        if j == n {
            done = true;
            pos = j;
            proof {
                assert(idl_fields(rem) == line_fields(line@));
                assert(fields_view(fields@) =~= idl_fields(idl_text@));
            }
        } else {
            pos = j + 1;
            proof {
                assert(idl_fields(rem) == line_fields(line@) + idl_fields(
                    idl_text@.skip(pos as int),
                ));
                assert(fields_view(fields@) + idl_fields(idl_text@.skip(pos as int))
                    =~= idl_fields(idl_text@));
            }
        }
    }
    let s = MessageSchema { typename: typename.to_owned(), fields };
    proof {
        assert(s@.fields =~= fields_view(s.fields@));
    }
    s
}

} // verus!
