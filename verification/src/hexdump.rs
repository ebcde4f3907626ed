use vstd::prelude::*;

verus! {

// --- The rendering, abstractly ----------------------------------------------

/// The hexadecimal digit for `d`, lower case.
pub open spec fn hexdig(d: int) -> char {
    if d < 10 {
        ((48 + d) as u32) as char
    } else {
        ((87 + d) as u32) as char
    }
}

/// Two hexadecimal digits for one byte.
pub open spec fn hex2(b: u8) -> Seq<char> {
    seq![hexdig((b / 16) as int), hexdig((b % 16) as int)]
}

/// `n` in hexadecimal, zero-padded to at least `w` digits.
pub open spec fn hex_pad_of(n: int, w: int) -> Seq<char>
    recommends
        n >= 0,
    decreases (if w > 0 { w } else { 0 }), n,
{
    if n < 0 {
        Seq::empty()
    } else if w <= 0 && n == 0 {
        Seq::empty()
    } else {
        hex_pad_of(n / 16, w - 1) + seq![hexdig(n % 16)]
    }
}

/// Once the minimum width is used up, only the value decides the digits.
proof fn lemma_hex_pad_nonpos(m: int, w1: int, w2: int)
    requires
        m >= 0,
        w1 <= 0,
        w2 <= 0,
    ensures
        hex_pad_of(m, w1) == hex_pad_of(m, w2),
    decreases m,
{
    if m > 0 {
        lemma_hex_pad_nonpos(m / 16, w1 - 1, w2 - 1);
    }
}

/// The glyph shown for a byte in the text column: the character itself
/// for graphic ASCII (U+0021 through U+007E), a dot otherwise.
pub open spec fn glyph(b: u8) -> char {
    if 0x21 <= b <= 0x7E {
        b as char
    } else {
        '.'
    }
}

/// The text column of one chunk.
pub open spec fn text_cells_of(chunk: Seq<u8>) -> Seq<char>
    decreases chunk.len(),
{
    if chunk.len() == 0 {
        Seq::empty()
    } else {
        seq![glyph(chunk[0])] + text_cells_of(chunk.drop_first())
    }
}

/// The hexadecimal columns of one chunk, from position `j`: sixteen
/// cells, a `| ` separator before every fourth one after the first,
/// two digits and a space for present bytes, three spaces for absent
/// ones.
pub open spec fn hex_cells_of(chunk: Seq<u8>, j: int) -> Seq<char>
    decreases 16 - j,
{
    if j >= 16 {
        Seq::empty()
    } else {
        (if j > 0 && j % 4 == 0 {
            "| "@
        } else {
            Seq::empty()
        }) + (if j < chunk.len() {
            hex2(chunk[j]) + seq![' ']
        } else {
            seq![' ', ' ', ' ']
        }) + hex_cells_of(chunk, j + 1)
    }
}

/// One rendered line: the chunk's byte offset in at least eight hex
/// digits, the hexadecimal columns, and the text column.
pub open spec fn dump_line_of(offset: int, chunk: Seq<u8>) -> Seq<char> {
    hex_pad_of(offset, 8) + seq![':', ' '] + hex_cells_of(chunk, 0) + seq![' '] + text_cells_of(
        chunk,
    ) + seq!['\n']
}

/// The rendering of the bytes from offset `pos` on: one line per
/// 16-byte chunk, or an ellipsis once `max_line` lines were rendered.
pub open spec fn dump_from(bytes: Seq<u8>, max_line: int, pos: int, line: int) -> Seq<char>
    decreases bytes.len() - pos,
{
    if pos >= bytes.len() {
        Seq::empty()
    } else if line >= max_line {
        "..."@
    } else {
        let end = if pos + 16 <= bytes.len() {
            pos + 16
        } else {
            bytes.len() as int
        };
        dump_line_of(pos, bytes.subrange(pos, end)) + dump_from(bytes, max_line, end, line + 1)
    }
}

/// The whole hex dump of a byte buffer, at most `max_line` lines.
pub open spec fn spec_dump_bytes(bytes: Seq<u8>, max_line: int) -> Seq<char> {
    dump_from(bytes, max_line, 0, 0)
}

// --- The rendering, executably ----------------------------------------------

/// Relies on `String::push`: it appends exactly the one character.
#[verifier::external_body]
fn push_char(s: &mut String, c: char)
    ensures
        final(s)@ == old(s)@.push(c),
{
    s.push(c);
}

/// One hexadecimal digit, lower case.
fn hexdig_str(d: usize) -> (r: &'static str)
    requires
        d < 16,
    ensures
        r@ == seq![hexdig(d as int)],
{
    let digits = "0123456789abcdef";
    proof {
        reveal_strlit("0123456789abcdef");
    }
    let r = digits.substring_char(d, d + 1);
    proof {
        assert(r@ =~= seq![hexdig(d as int)]);
    }
    r
}

/// `n` in hexadecimal, zero-padded to at least `w` digits.
fn hex_pad(n: usize, w: usize) -> (r: String)
    ensures
        r@ == hex_pad_of(n as int, w as int),
    decreases w, n,
{
    if w == 0 && n == 0 {
        let r = String::new();
        proof {
            assert(r@ =~= hex_pad_of(0, 0));
        }
        r
    } else {
        let mut r = hex_pad(n / 16, if w > 0 {
            w - 1
        } else {
            0
        });
        let piece = hexdig_str(n % 16);
        proof {
            if w == 0 {
                lemma_hex_pad_nonpos(n as int / 16, -1, 0);
            }
            assert((r@ + piece@) =~= hex_pad_of(n as int, w as int));
        }
        r.append(piece);
        r
    }
}

/// The hexadecimal columns of one chunk.
#[verifier::loop_isolation(false)]
fn hex_cells(chunk: &[u8]) -> (r: String)
    requires
        chunk@.len() <= 16,
    ensures
        r@ == hex_cells_of(chunk@, 0),
{
    let mut r = String::new();
    proof {
        assert(r@ + hex_cells_of(chunk@, 0) =~= hex_cells_of(chunk@, 0));
    }
    for j in 0..16usize
        invariant
            r@ + hex_cells_of(chunk@, j as int) == hex_cells_of(chunk@, 0),
    {
        if j > 0 && j % 4 == 0 {
            r.append("| ");
        }
        if j < chunk.len() {
            let b = chunk[j];
            let hi = hexdig_str((b / 16) as usize);
            let lo = hexdig_str((b % 16) as usize);
            r.append(hi);
            r.append(lo);
            r.append(" ");
        } else {
            r.append("   ");
        }
        proof {
            reveal_strlit("| ");
            reveal_strlit(" ");
            reveal_strlit("   ");
            assert(r@ + hex_cells_of(chunk@, j + 1) =~= hex_cells_of(chunk@, 0));
        }
    }
    proof {
        assert(hex_cells_of(chunk@, 16) == Seq::<char>::empty());
        assert(r@ + Seq::<char>::empty() =~= r@);
    }
    r
}

/// The text column of one chunk.
#[verifier::loop_isolation(false)]
fn text_cells(chunk: &[u8]) -> (r: String)
    ensures
        r@ == text_cells_of(chunk@),
{
    let n = chunk.len();
    let mut r = String::new();
    proof {
        assert(chunk@.skip(0) =~= chunk@);
        assert(r@ + text_cells_of(chunk@.skip(0)) =~= text_cells_of(chunk@));
    }
    for j in 0..n
        invariant
            n == chunk@.len(),
            r@ + text_cells_of(chunk@.skip(j as int)) == text_cells_of(chunk@),
    {
        let b = chunk[j];
        proof {
            assert(chunk@.skip(j as int)[0] == chunk@[j as int]);
            assert(chunk@.skip(j as int).drop_first() =~= chunk@.skip(j + 1));
        }
        let c = if 0x21 <= b && b <= 0x7E {
            b as char
        } else {
            '.'
        };
        proof {
            assert(r@.push(c) =~= r@ + seq![glyph(b)]);
            assert((r@ + seq![glyph(b)]) + text_cells_of(chunk@.skip(j + 1)) =~= r@ + (seq![
                glyph(b),
            ] + text_cells_of(chunk@.skip(j + 1))));
        }
        push_char(&mut r, c);
    }
    proof {
        assert(chunk@.skip(n as int) =~= Seq::<u8>::empty());
        assert(text_cells_of(chunk@.skip(n as int)) == Seq::<char>::empty());
        assert(r@ + Seq::<char>::empty() =~= r@);
    }
    r
}

/// Renders a byte buffer as a hex dump, sixteen bytes per line with an
/// offset column and a text column, cut off with an ellipsis after
/// `max_line` lines.
#[verifier::loop_isolation(false)]
pub fn dump_bytes(bytes: &[u8], max_line: usize) -> (r: String)
    ensures
        r@ == spec_dump_bytes(bytes@, max_line as int),
{
    let n = bytes.len();
    let mut out = String::new();
    let mut pos: usize = 0;
    let mut line: usize = 0;
    let mut truncated = false;
    proof {
        assert(out@ + dump_from(bytes@, max_line as int, 0, 0) =~= spec_dump_bytes(
            bytes@,
            max_line as int,
        ));
    }
    while pos < n && !truncated
        invariant
            n == bytes@.len(),
            pos <= n,
            !truncated ==> out@ + dump_from(bytes@, max_line as int, pos as int, line as int)
                == spec_dump_bytes(bytes@, max_line as int),
            truncated ==> out@ == spec_dump_bytes(bytes@, max_line as int),
        decreases n - pos + (if truncated { 0int } else { 1int }),
    {
        if line >= max_line {
            out.append("...");
            proof {
                reveal_strlit("...");
            }
            truncated = true;
        } else {
            let end = if 16 <= n - pos {
                pos + 16
            } else {
                n
            };
            let chunk = vstd::slice::slice_subrange(bytes, pos, end);
            let offset = hex_pad(pos, 8);
            let cells = hex_cells(chunk);
            let text = text_cells(chunk);
            let ghost before = out@;
            out.append(offset.as_str());
            out.append(": ");
            out.append(cells.as_str());
            out.append(" ");
            out.append(text.as_str());
            out.append("\n");
            proof {
                reveal_strlit(": ");
                reveal_strlit(" ");
                reveal_strlit("\n");
                assert(out@ =~= before + dump_line_of(pos as int, bytes@.subrange(
                    pos as int,
                    end as int,
                )));
                assert((before + dump_line_of(pos as int, bytes@.subrange(pos as int, end as int)))
                    + dump_from(bytes@, max_line as int, end as int, line + 1) =~= before + (
                dump_line_of(pos as int, bytes@.subrange(pos as int, end as int)) + dump_from(
                    bytes@,
                    max_line as int,
                    end as int,
                    line + 1,
                )));
            }
            pos = end;
            line = line + 1;
        }
    }
    proof {
        if !truncated {
            assert(dump_from(bytes@, max_line as int, pos as int, line as int) == Seq::<
                char,
            >::empty());
            assert(out@ + Seq::<char>::empty() =~= out@);
        }
    }
    out
}

} // verus!
