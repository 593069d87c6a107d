//! The grammar of the text form, stated over byte sequences.
use crate::value::SExp;
use vstd::prelude::*;
use vstd::utf8::{decode_utf8, valid_utf8};

verus! {

pub const SPACE: u8 = 32;
pub const TAB: u8 = 9;
pub const CR: u8 = 13;
pub const LF: u8 = 10;
pub const LPAREN: u8 = 40;
pub const RPAREN: u8 = 41;
pub const QUOTE: u8 = 34;
pub const BAR: u8 = 124;
pub const HASH: u8 = 35;
pub const SEMI: u8 = 59;
pub const COLON: u8 = 58;
pub const BACKSLASH: u8 = 92;

/// Why a parse did not produce a value.
#[derive(PartialEq, Eq, Structural, Clone, Copy, Debug)]
pub enum ParseError {
    /// The input ended before the current value was complete.
    Incomplete,
    /// The input breaks the grammar.
    Malformed,
}

pub open spec fn is_ws(b: u8) -> bool {
    b == SPACE || b == TAB || b == CR || b == LF
}

pub open spec fn is_newline(b: u8) -> bool {
    b == CR || b == LF
}

/// Bytes that end a bare symbol.
pub open spec fn is_delim(b: u8) -> bool {
    is_ws(b) || b == LPAREN || b == RPAREN || b == QUOTE || b == BAR || b == HASH || b == SEMI
}

pub open spec fn is_digit(b: u8) -> bool {
    48 <= b <= 57
}

pub open spec fn is_hex_digit(b: u8) -> bool {
    is_digit(b) || (97 <= b <= 102) || (65 <= b <= 70)
}

pub open spec fn hex_val(b: u8) -> int {
    if is_digit(b) {
        b - 48
    } else if 97 <= b <= 102 {
        b - 97 + 10
    } else {
        b - 65 + 10
    }
}

/// The number that a run of decimal digits denotes.
pub open spec fn decimal_value(s: Seq<u8>) -> nat
    decreases s.len(),
{
    if s.len() == 0 {
        0
    } else {
        (decimal_value(s.drop_last()) * 10 + (s.last() - 48)) as nat
    }
}

/// Position after whitespace and line comments; `in_comment` when inside a comment.
pub open spec fn skip_from(buf: Seq<u8>, pos: int, in_comment: bool) -> int
    decreases buf.len() - pos, if in_comment { 1int } else { 0int },
{
    if pos < 0 || pos >= buf.len() {
        pos
    } else if in_comment {
        if is_newline(buf[pos]) {
            skip_from(buf, pos, false)
        } else {
            skip_from(buf, pos + 1, true)
        }
    } else if is_ws(buf[pos]) {
        skip_from(buf, pos + 1, false)
    } else if buf[pos] == SEMI {
        skip_from(buf, pos + 1, true)
    } else {
        pos
    }
}

/// Position after the whitespace and comments that start at `pos`.
pub open spec fn skip_ws(buf: Seq<u8>, pos: int) -> int {
    skip_from(buf, pos, false)
}

pub proof fn lemma_skip_from(buf: Seq<u8>, pos: int, in_comment: bool)
    requires
        0 <= pos <= buf.len(),
    ensures
        pos <= skip_from(buf, pos, in_comment) <= buf.len(),
        (skip_from(buf, pos, in_comment) == buf.len() || {
            let r = skip_from(buf, pos, in_comment);
            !is_ws(buf[r]) && buf[r] != SEMI
        }),
    decreases buf.len() - pos, if in_comment { 1int } else { 0int },
{
    if pos < buf.len() {
        if in_comment {
            if is_newline(buf[pos]) {
                lemma_skip_from(buf, pos, false);
            } else {
                lemma_skip_from(buf, pos + 1, true);
            }
        } else if is_ws(buf[pos]) || buf[pos] == SEMI {
            lemma_skip_from(buf, pos + 1, is_ws(buf[pos]) == false);
        }
    }
}

/// First position at or after `pos` that holds `b`, or the length if none does.
pub open spec fn find_byte(buf: Seq<u8>, pos: int, b: u8) -> int
    decreases buf.len() - pos,
{
    if pos < 0 || pos >= buf.len() || buf[pos] == b {
        pos
    } else {
        find_byte(buf, pos + 1, b)
    }
}

/// End of the run from `pos` on of non-delimiters (`delim`) or of digits (`!delim`).
pub open spec fn run_end(buf: Seq<u8>, pos: int, delim: bool) -> int
    decreases buf.len() - pos,
{
    if pos < 0 || pos >= buf.len() || (if delim { is_delim(buf[pos]) } else { !is_digit(buf[pos]) }) {
        pos
    } else {
        run_end(buf, pos + 1, delim)
    }
}

/// A run ends between its start and the end of the buffer.
pub proof fn lemma_run_bounds(buf: Seq<u8>, p: int, delim: bool)
    requires
        0 <= p <= buf.len(),
    ensures
        p <= run_end(buf, p, delim) <= buf.len(),
    decreases buf.len() - p,
{
    if p < buf.len() {
        lemma_run_bounds(buf, p + 1, delim);
    }
}

/// Every byte of a digit run is a digit.
pub proof fn lemma_run_digits(buf: Seq<u8>, p: int, k: int)
    requires
        0 <= p <= k < run_end(buf, p, false),
    ensures
        is_digit(buf[k]),
    decreases k - p,
{
    if k > p {
        lemma_run_digits(buf, p + 1, k);
    }
}

/// What the standard base64 decoder (with padding) makes of `s`, `None` where it refuses it.
pub uninterp spec fn base64_decoded(s: Seq<u8>) -> Option<Seq<u8>>;

/// The bytes that a run of hex digits denotes, two digits a byte, high nibble first.
pub open spec fn hex_decoded(s: Seq<u8>) -> Option<Seq<u8>> {
    if s.len() % 2 == 0 && forall|i: int| 0 <= i < s.len() ==> is_hex_digit(#[trigger] s[i]) {
        Some(Seq::new((s.len() / 2) as nat, |i: int| (hex_val(s[2 * i]) * 16 + hex_val(s[2 * i + 1])) as u8))
    } else {
        None
    }
}

/// A bare or quoted atom: text where the bytes are UTF-8, raw bytes otherwise.
pub open spec fn text_or_bytes(raw: Seq<u8>) -> SExp {
    if valid_utf8(raw) {
        SExp::Text(decode_utf8(raw))
    } else {
        SExp::Bytes(raw)
    }
}

/// A parsed value with the position just after it.
pub type Parsed = Result<(SExp, int), ParseError>;

/// The body of a quoted string from `i` on, `acc` holding the bytes read so far.
pub open spec fn parse_quoted(buf: Seq<u8>, i: int, acc: Seq<u8>) -> Parsed
    decreases buf.len() - i,
{
    if i < 0 || i >= buf.len() {
        Err(ParseError::Incomplete)
    } else if buf[i] == QUOTE {
        if valid_utf8(acc) {
            Ok((SExp::Text(decode_utf8(acc)), i + 1))
        } else {
            Err(ParseError::Malformed)
        }
    } else if buf[i] == BACKSLASH {
        if i + 1 >= buf.len() {
            Err(ParseError::Incomplete)
        } else {
            let e = buf[i + 1];
            if e == QUOTE || e == BACKSLASH {
                parse_quoted(buf, i + 2, acc.push(e))
            } else if e == 110 {
                parse_quoted(buf, i + 2, acc.push(LF))
            } else if e == 114 {
                parse_quoted(buf, i + 2, acc.push(CR))
            } else if e == 116 {
                parse_quoted(buf, i + 2, acc.push(TAB))
            } else if e == 120 {
                if i + 4 > buf.len() {
                    Err(ParseError::Incomplete)
                } else if is_hex_digit(buf[i + 2]) && is_hex_digit(buf[i + 3]) {
                    parse_quoted(buf, i + 4, acc.push((hex_val(buf[i + 2]) * 16 + hex_val(buf[i + 3])) as u8))
                } else {
                    Err(ParseError::Malformed)
                }
            } else {
                Err(ParseError::Malformed)
            }
        }
    } else {
        parse_quoted(buf, i + 1, acc.push(buf[i]))
    }
}

/// An atom between two `d` bytes, the first at `p`, its body decoded by `hex` or base64.
pub open spec fn parse_delimited(buf: Seq<u8>, p: int, d: u8) -> Parsed {
    let j = find_byte(buf, p + 1, d);
    if j >= buf.len() {
        Err(ParseError::Incomplete)
    } else {
        let body = buf.subrange(p + 1, j);
        let decoded = if d == HASH { hex_decoded(body) } else { base64_decoded(body) };
        match decoded {
            Some(b) => Ok((SExp::Bytes(b), j + 1)),
            None => Err(ParseError::Malformed),
        }
    }
}

/// A bare symbol at `p`: the bytes up to the next delimiter.
pub open spec fn parse_symbol(buf: Seq<u8>, p: int) -> Parsed {
    let j = run_end(buf, p, true);
    if j == p {
        Err(ParseError::Malformed)
    } else {
        Ok((text_or_bytes(buf.subrange(p, j)), j))
    }
}

/// An atom that starts with a digit at `p`: length-prefixed where the digits end in a colon,
/// else a bare symbol.
pub open spec fn parse_number_led(buf: Seq<u8>, p: int) -> Parsed {
    let i = run_end(buf, p, false);
    if i < buf.len() && buf[i] == COLON {
        let n = decimal_value(buf.subrange(p, i));
        if n > usize::MAX {
            Err(ParseError::Malformed)
        } else if i + 1 + n > buf.len() {
            Err(ParseError::Incomplete)
        } else {
            Ok((SExp::Bytes(buf.subrange(i + 1, i + 1 + n)), i + 1 + n))
        }
    } else {
        parse_symbol(buf, p)
    }
}

/// The value whose text starts exactly at `p`.
pub open spec fn parse_at(buf: Seq<u8>, p: int) -> Parsed
    decreases buf.len() - p, 0int,
{
    if p < 0 || p >= buf.len() {
        Err(ParseError::Incomplete)
    } else if buf[p] == LPAREN {
        parse_items(buf, p + 1, Seq::empty())
    } else if buf[p] == QUOTE {
        parse_quoted(buf, p + 1, Seq::empty())
    } else if buf[p] == HASH || buf[p] == BAR {
        parse_delimited(buf, p, buf[p])
    } else if is_digit(buf[p]) {
        parse_number_led(buf, p)
    } else {
        parse_symbol(buf, p)
    }
}

/// The rest of a list from `q` on, `acc` holding the items read so far.
pub open spec fn parse_items(buf: Seq<u8>, q: int, acc: Seq<SExp>) -> Parsed
    decreases buf.len() - q, 1int,
{
    if q < 0 || q > buf.len() {
        Err(ParseError::Incomplete)
    } else {
        proof {
            lemma_skip_from(buf, q, false);
        }
        let r = skip_ws(buf, q);
        if r >= buf.len() {
            Err(ParseError::Incomplete)
        } else if buf[r] == RPAREN {
            Ok((SExp::List(acc), r + 1))
        } else {
            match parse_at(buf, r) {
                Err(e) => Err(e),
                Ok((v, e)) => if r < e <= buf.len() {
                    parse_items(buf, e, acc.push(v))
                } else {
                    Err(ParseError::Malformed)
                },
            }
        }
    }
}

/// The first value at or after `pos`, whitespace and comments before it skipped.
pub open spec fn parse_one(buf: Seq<u8>, pos: int) -> Parsed {
    parse_at(buf, skip_ws(buf, pos))
}

/// What a whole buffer parses to: its first value.
pub open spec fn parse_spec(buf: Seq<u8>) -> Result<SExp, ParseError> {
    match parse_one(buf, 0) {
        Ok((v, _)) => Ok(v),
        Err(e) => Err(e),
    }
}

} // verus!
