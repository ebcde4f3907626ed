use vstd::prelude::*;

verus! {

// --- Character classes -----------------------------------------------------

/// Whitespace, as the statement tokenizer understands it.
pub open spec fn is_ws(c: char) -> bool {
    c == ' ' || c == '\t' || c == '\n' || c == '\r' || c == '\x0b' || c == '\x0c'
}

/// ASCII decimal digit.
pub open spec fn is_digit(c: char) -> bool {
    48 <= (c as u32) <= 57
}

/// Numeric value of an ASCII digit.
pub open spec fn digit_val(c: char) -> int {
    (c as u32) - 48
}

// --- Index scans -----------------------------------------------------------

/// Index of the first occurrence of `c` in `s`, or -1 when absent.
pub open spec fn first_idx(s: Seq<char>, c: char) -> int
    decreases s.len(),
{
    if s.len() == 0 {
        -1
    } else if s[0] == c {
        0
    } else {
        let r = first_idx(s.drop_first(), c);
        if r < 0 {
            -1
        } else {
            r + 1
        }
    }
}

/// Number of leading whitespace characters.
pub open spec fn ws_pre(s: Seq<char>) -> int
    decreases s.len(),
{
    if s.len() > 0 && is_ws(s[0]) {
        1 + ws_pre(s.drop_first())
    } else {
        0
    }
}

/// Number of trailing whitespace characters.
pub open spec fn ws_suf(s: Seq<char>) -> int
    decreases s.len(),
{
    if s.len() > 0 && is_ws(s.last()) {
        1 + ws_suf(s.drop_last())
    } else {
        0
    }
}

/// Number of leading non-whitespace characters.
pub open spec fn nonws_pre(s: Seq<char>) -> int
    decreases s.len(),
{
    if s.len() > 0 && !is_ws(s[0]) {
        1 + nonws_pre(s.drop_first())
    } else {
        0
    }
}

/// Number of trailing ASCII digits.
pub open spec fn digit_suf(s: Seq<char>) -> int
    decreases s.len(),
{
    if s.len() > 0 && is_digit(s.last()) {
        1 + digit_suf(s.drop_last())
    } else {
        0
    }
}

/// Number of trailing `;` characters.
pub open spec fn semi_suf(s: Seq<char>) -> int
    decreases s.len(),
{
    if s.len() > 0 && s.last() == ';' {
        1 + semi_suf(s.drop_last())
    } else {
        0
    }
}

// --- Derived string operations ---------------------------------------------

/// `s` with leading and trailing whitespace removed.
pub open spec fn trim_spec(s: Seq<char>) -> Seq<char> {
    if ws_pre(s) == s.len() {
        Seq::empty()
    } else {
        s.subrange(ws_pre(s), s.len() - ws_suf(s))
    }
}

/// `s` with every trailing `;` removed.
pub open spec fn strip_semis(s: Seq<char>) -> Seq<char> {
    s.take(s.len() - semi_suf(s))
}

/// `nonws_pre` counts at most the whole sequence.
pub proof fn lemma_nonws_pre_le(s: Seq<char>)
    ensures
        0 <= nonws_pre(s) <= s.len(),
    decreases s.len(),
{
    if s.len() > 0 && !is_ws(s[0]) {
        lemma_nonws_pre_le(s.drop_first());
    }
}

/// The maximal whitespace-separated words of `s`, in order.
pub open spec fn words_of(s: Seq<char>) -> Seq<Seq<char>>
    decreases s.len(),
    via words_of_dec
{
    if s.len() == 0 {
        Seq::empty()
    } else if is_ws(s[0]) {
        words_of(s.drop_first())
    } else {
        let k = 1 + nonws_pre(s.drop_first());
        seq![s.take(k)] + words_of(s.skip(k))
    }
}

#[via_fn]
proof fn words_of_dec(s: Seq<char>) {
    if s.len() > 0 && !is_ws(s[0]) {
        lemma_nonws_pre_le(s.drop_first());
    }
}

/// `s` split on `c`; separators are dropped and empty segments kept.
pub open spec fn split_on(s: Seq<char>, c: char) -> Seq<Seq<char>>
    decreases s.len(),
    via split_on_dec
{
    let j = first_idx(s, c);
    if j < 0 {
        seq![s]
    } else {
        seq![s.take(j)] + split_on(s.skip(j + 1), c)
    }
}

#[via_fn]
proof fn split_on_dec(s: Seq<char>, c: char) {
    lemma_first_idx_bounds(s, c);
}

/// `s` with each scope-resolution separator `::` replaced by `/`.
pub open spec fn normalize_spec(s: Seq<char>) -> Seq<char>
    decreases s.len(),
{
    if s.len() >= 2 && s[0] == ':' && s[1] == ':' {
        seq!['/'] + normalize_spec(s.skip(2))
    } else if s.len() >= 1 {
        seq![s[0]] + normalize_spec(s.drop_first())
    } else {
        Seq::empty()
    }
}

/// The integer denoted by a sequence of ASCII digits, most significant first.
pub open spec fn digits_val(s: Seq<char>) -> int
    decreases s.len(),
{
    if s.len() == 0 {
        0
    } else {
        digits_val(s.drop_last()) * 10 + digit_val(s.last())
    }
}

// --- Characterization lemmas ----------------------------------------------

/// A scan that saw no `c` before `m`, and `c` (or the end) at `m`,
/// has found the first occurrence.
pub proof fn lemma_first_idx(s: Seq<char>, c: char, m: int)
    requires
        0 <= m <= s.len(),
        forall|k: int| 0 <= k < m ==> s[k] != c,
        m == s.len() || s[m] == c,
    ensures
        first_idx(s, c) == if m == s.len() {
            -1int
        } else {
            m
        },
    decreases m,
{
    if s.len() == 0 {
    } else if m == 0 {
    } else {
        assert(forall|k: int| 0 <= k < m - 1 ==> s.drop_first()[k] == s[k + 1]);
        lemma_first_idx(s.drop_first(), c, m - 1);
    }
}

/// `first_idx` is either -1 or a valid index holding `c`.
pub proof fn lemma_first_idx_bounds(s: Seq<char>, c: char)
    ensures
        first_idx(s, c) == -1 || (0 <= first_idx(s, c) < s.len() && s[first_idx(s, c)] == c),
    decreases s.len(),
{
    if s.len() > 0 && s[0] != c {
        lemma_first_idx_bounds(s.drop_first(), c);
    }
}

/// A scan that saw only whitespace before `m`, and non-whitespace
/// (or the end) at `m`, has counted the leading whitespace.
pub proof fn lemma_ws_pre(s: Seq<char>, m: int)
    requires
        0 <= m <= s.len(),
        forall|k: int| 0 <= k < m ==> is_ws(s[k]),
        m == s.len() || !is_ws(s[m]),
    ensures
        ws_pre(s) == m,
    decreases m,
{
    if m == 0 {
    } else {
        assert(forall|k: int| 0 <= k < m - 1 ==> s.drop_first()[k] == s[k + 1]);
        lemma_ws_pre(s.drop_first(), m - 1);
    }
}

/// Counterpart of `lemma_ws_pre` for the non-whitespace run.
pub proof fn lemma_nonws_pre(s: Seq<char>, m: int)
    requires
        0 <= m <= s.len(),
        forall|k: int| 0 <= k < m ==> !is_ws(s[k]),
        m == s.len() || is_ws(s[m]),
    ensures
        nonws_pre(s) == m,
    decreases m,
{
    if m == 0 {
    } else {
        assert(forall|k: int| 0 <= k < m - 1 ==> s.drop_first()[k] == s[k + 1]);
        lemma_nonws_pre(s.drop_first(), m - 1);
    }
}

/// A scan backwards from the end over whitespace characterizes `ws_suf`.
pub proof fn lemma_ws_suf(s: Seq<char>, m: int)
    requires
        0 <= m <= s.len(),
        forall|k: int| s.len() - m <= k < s.len() ==> is_ws(s[k]),
        m == s.len() || !is_ws(s[s.len() - m - 1]),
    ensures
        ws_suf(s) == m,
    decreases m,
{
    if m == 0 {
    } else {
        assert(is_ws(s.last()));
        assert(forall|k: int| 0 <= k < s.len() - 1 ==> s.drop_last()[k] == s[k]);
        lemma_ws_suf(s.drop_last(), m - 1);
    }
}

/// A scan backwards from the end over digits characterizes `digit_suf`.
pub proof fn lemma_digit_suf(s: Seq<char>, m: int)
    requires
        0 <= m <= s.len(),
        forall|k: int| s.len() - m <= k < s.len() ==> is_digit(s[k]),
        m == s.len() || !is_digit(s[s.len() - m - 1]),
    ensures
        digit_suf(s) == m,
    decreases m,
{
    if m == 0 {
    } else {
        assert(is_digit(s.last()));
        assert(forall|k: int| 0 <= k < s.len() - 1 ==> s.drop_last()[k] == s[k]);
        lemma_digit_suf(s.drop_last(), m - 1);
    }
}

/// A scan backwards from the end over `;` characterizes `semi_suf`.
pub proof fn lemma_semi_suf(s: Seq<char>, m: int)
    requires
        0 <= m <= s.len(),
        forall|k: int| s.len() - m <= k < s.len() ==> s[k] == ';',
        m == s.len() || s[s.len() - m - 1] != ';',
    ensures
        semi_suf(s) == m,
    decreases m,
{
    if m == 0 {
    } else {
        assert(s.last() == ';');
        assert(forall|k: int| 0 <= k < s.len() - 1 ==> s.drop_last()[k] == s[k]);
        lemma_semi_suf(s.drop_last(), m - 1);
    }
}

/// Appending a digit to an over-large prefix keeps the value over-large.
pub proof fn lemma_digits_val_mono(s: Seq<char>, bound: int)
    requires
        s.len() > 0,
        digits_val(s.drop_last()) > bound,
        bound >= 0,
        is_digit(s.last()),
    ensures
        digits_val(s) > bound,
{
    let p = digits_val(s.drop_last());
    assert(p * 10 >= p) by (nonlinear_arith)
        requires
            p > 0,
    ;
}

// --- Executable counterparts -----------------------------------------------

/// Whether two string slices hold the same characters.
pub fn str_eq(a: &str, b: &str) -> (r: bool)
    ensures
        r == (a@ == b@),
{
    let sa = a.to_owned();
    let sb = b.to_owned();
    sa == sb
}

/// `s` with every scope-resolution separator `::` replaced by `/`.
pub fn normalize(s: &str) -> (r: String)
    ensures
        r@ == normalize_spec(s@),
{
    let n = s.unicode_len();
    let mut out = String::new();
    let mut i: usize = 0;
    proof {
        assert(s@.skip(0) =~= s@);
    }
    while i < n
        invariant
            n == s@.len(),
            i <= n,
            out@ + normalize_spec(s@.skip(i as int)) == normalize_spec(s@),
        decreases n - i,
    {
        let ghost rem = s@.skip(i as int);
        let c = s.get_char(i);
        proof {
            assert(rem[0] == s@[i as int]);
        }
        if c == ':' && i + 1 < n && s.get_char(i + 1) == ':' {
            proof {
                assert(rem[1] == s@[i + 1]);
                assert(rem.skip(2) =~= s@.skip(i + 2));
                reveal_strlit("/");
                assert(normalize_spec(rem) == seq!['/'] + normalize_spec(s@.skip(i + 2)));
                assert((out@ + "/"@) + normalize_spec(s@.skip(i + 2)) =~= out@ + normalize_spec(
                    rem,
                ));
            }
            out.append("/");
            i = i + 2;
        } else {
            let piece = s.substring_char(i, i + 1);
            proof {
                assert(rem.drop_first() =~= s@.skip(i + 1));
                assert(piece@ =~= seq![rem[0]]);
                assert(normalize_spec(rem) == seq![rem[0]] + normalize_spec(s@.skip(i + 1)));
                assert((out@ + piece@) + normalize_spec(s@.skip(i + 1)) =~= out@ + normalize_spec(
                    rem,
                ));
            }
            out.append(piece);
            i = i + 1;
        }
    }
    proof {
        assert(s@.skip(n as int) =~= Seq::<char>::empty());
        assert(out@ + normalize_spec(s@.skip(n as int)) =~= out@);
    }
    out
}

/// The array length denoted by a run of ASCII digits: its decimal value,
/// or 0 when the value does not fit in `usize` (a failed integer parse).
pub open spec fn array_len_of(ds: Seq<char>) -> usize {
    if digits_val(ds) > usize::MAX as int {
        0usize
    } else {
        digits_val(ds) as usize
    }
}

/// Parses a run of ASCII digits as an array length.
pub fn parse_array_len(s: &str) -> (r: usize)
    requires
        forall|k: int| 0 <= k < s@.len() ==> is_digit(s@[k]),
    ensures
        r == array_len_of(s@),
{
    let n = s.unicode_len();
    let mut acc: usize = 0;
    let mut over: bool = false;
    let mut i: usize = 0;
    proof {
        assert(s@.take(0) =~= Seq::<char>::empty());
    }
    while i < n
        invariant
            n == s@.len(),
            i <= n,
            forall|k: int| 0 <= k < s@.len() ==> is_digit(s@[k]),
            !over ==> acc == digits_val(s@.take(i as int)) && digits_val(s@.take(i as int))
                <= usize::MAX as int,
            over ==> digits_val(s@.take(i as int)) > usize::MAX as int,
        decreases n - i,
    {
        let c = s.get_char(i);
        proof {
            assert(is_digit(s@[i as int]));
        }
        let d = ((c as u32) - 48) as usize;
        let ghost ext = s@.take(i + 1);
        proof {
            assert(ext.drop_last() =~= s@.take(i as int));
            assert(ext.last() == s@[i as int]);
            assert(digits_val(ext) == digits_val(s@.take(i as int)) * 10 + d);
        }
        if over {
            proof {
                lemma_digits_val_mono(ext, usize::MAX as int);
            }
        } else if acc > (usize::MAX - d) / 10 {
            proof {
                let q = (usize::MAX - d) as int / 10;
                vstd::arithmetic::div_mod::lemma_fundamental_div_mod((usize::MAX - d) as int, 10);
                assert(acc * 10 >= q * 10 + 10);
            }
            over = true;
        } else {
            proof {
                let q = (usize::MAX - d) as int / 10;
                vstd::arithmetic::div_mod::lemma_fundamental_div_mod((usize::MAX - d) as int, 10);
                assert(acc * 10 <= q * 10);
            }
            acc = acc * 10 + d;
        }
        i = i + 1;
    }
    proof {
        assert(s@.take(n as int) =~= s@);
    }
    if over {
        0
    } else {
        acc
    }
}

} // verus!
