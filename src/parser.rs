//! Recursive-descent parsing of one value out of a byte buffer.
use crate::codec::{decode_base64, decode_hex, utf8_str};
use crate::grammar::{
    decimal_value, find_byte, hex_val, is_delim, is_digit, is_hex_digit, is_ws, lemma_run_digits,
    lemma_skip_from, parse_at, parse_delimited, parse_items, parse_number_led, parse_quoted,
    parse_spec, parse_symbol, run_end, skip_from, ParseError, Parsed, BACKSLASH, BAR, COLON, CR,
    HASH, LF, LPAREN, QUOTE, RPAREN, SEMI, SPACE, TAB,
};
use crate::value::{SExp, Value};
use vstd::prelude::*;
use vstd::slice::slice_to_vec;

verus! {

/// What a parse result says, as positions and trees.
pub open spec fn parsed_view(r: Result<(Value, usize), ParseError>) -> Parsed {
    match r {
        Ok((v, e)) => Ok((v@, e as int)),
        Err(e) => Err(e),
    }
}

fn is_ws_byte(b: u8) -> (r: bool)
    ensures
        r == is_ws(b),
{
    b == SPACE || b == TAB || b == CR || b == LF
}

fn is_delim_byte(b: u8) -> (r: bool)
    ensures
        r == is_delim(b),
{
    is_ws_byte(b) || b == LPAREN || b == RPAREN || b == QUOTE || b == BAR || b == HASH || b == SEMI
}

fn is_digit_byte(b: u8) -> (r: bool)
    ensures
        r == is_digit(b),
{
    48 <= b && b <= 57
}

fn is_hex_digit_byte(b: u8) -> (r: bool)
    ensures
        r == is_hex_digit(b),
{
    is_digit_byte(b) || (97 <= b && b <= 102) || (65 <= b && b <= 70)
}

fn hex_digit_value(b: u8) -> (r: u8)
    requires
        is_hex_digit(b),
    ensures
        r as int == hex_val(b),
        r < 16,
{
    if is_digit_byte(b) {
        b - 48
    } else if 97 <= b && b <= 102 {
        b - 97 + 10
    } else {
        b - 65 + 10
    }
}

/// Moves past whitespace and `;` line comments.
pub fn skip_ws(buf: &[u8], pos: usize) -> (r: usize)
    requires
        pos <= buf@.len(),
    ensures
        r as int == crate::grammar::skip_ws(buf@, pos as int),
        pos <= r <= buf@.len(),
{
    proof {
        lemma_skip_from(buf@, pos as int, false);
    }
    let n = buf.len();
    let mut p = pos;
    loop
        invariant
            pos <= p <= n,
            n == buf@.len(),
            skip_from(buf@, p as int, false) == skip_from(buf@, pos as int, false),
        decreases n - p,
    {
        if p < n && is_ws_byte(buf[p]) {
            p += 1;
        } else if p < n && buf[p] == SEMI {
            p += 1;
            let ghost body_start = p;
            while p < n && !(buf[p] == CR || buf[p] == LF)
                invariant
                    pos < body_start <= p <= n,
                    n == buf@.len(),
                    skip_from(buf@, p as int, true) == skip_from(buf@, pos as int, false),
                decreases n - p,
            {
                p += 1;
            }
        } else {
            return p;
        }
    }
}

/// Reads a quoted string whose body starts at `start`, just after the opening quote.
fn parse_quoted_at(buf: &[u8], start: usize) -> (r: Result<(Value, usize), ParseError>)
    requires
        start <= buf@.len(),
    ensures
        parsed_view(r) == parse_quoted(buf@, start as int, Seq::empty()),
        r matches Ok((_, e)) ==> start < e <= buf@.len(),
{
    let n = buf.len();
    let mut s: Vec<u8> = Vec::new();
    let mut i = start;
    loop
        invariant
            start <= i <= n,
            n == buf@.len(),
            parse_quoted(buf@, i as int, s@) == parse_quoted(buf@, start as int, Seq::empty()),
        decreases n - i,
    {
        if i >= n {
            return Err(ParseError::Incomplete);
        }
        let b = buf[i];
        if b == QUOTE {
            match utf8_str(s.as_slice()) {
                Some(t) => return Ok((Value::Text(t.to_owned()), i + 1)),
                None => return Err(ParseError::Malformed),
            }
        } else if b == BACKSLASH {
            if i + 1 >= n {
                return Err(ParseError::Incomplete);
            }
            let e = buf[i + 1];
            if e == QUOTE || e == BACKSLASH {
                s.push(e);
            } else if e == 110 {
                s.push(LF);
            } else if e == 114 {
                s.push(CR);
            } else if e == 116 {
                s.push(TAB);
            } else if e == 120 {
                if n - i < 4 {
                    return Err(ParseError::Incomplete);
                }
                let h = buf[i + 2];
                let l = buf[i + 3];
                if !(is_hex_digit_byte(h) && is_hex_digit_byte(l)) {
                    return Err(ParseError::Malformed);
                }
                s.push(hex_digit_value(h) * 16 + hex_digit_value(l));
                i += 2;
            } else {
                return Err(ParseError::Malformed);
            }
            i += 2;
        } else {
            s.push(b);
            i += 1;
        }
    }
}

/// Index of the first `d` at or after `from`, or the length.
fn find(buf: &[u8], from: usize, d: u8) -> (r: usize)
    requires
        from <= buf@.len(),
    ensures
        r as int == find_byte(buf@, from as int, d),
        from <= r <= buf@.len(),
{
    let mut j = from;
    while j < buf.len() && buf[j] != d
        invariant
            from <= j <= buf@.len(),
            find_byte(buf@, j as int, d) == find_byte(buf@, from as int, d),
        decreases buf@.len() - j,
    {
        j += 1;
    }
    j
}

/// Reads a hex (`#`) or base64 (`|`) atom whose opening delimiter stands at `p`.
fn parse_delimited_at(buf: &[u8], p: usize, d: u8) -> (r: Result<(Value, usize), ParseError>)
    requires
        p < buf@.len(),
        d == HASH || d == BAR,
    ensures
        parsed_view(r) == parse_delimited(buf@, p as int, d),
        r matches Ok((_, e)) ==> p < e <= buf@.len(),
{
    let n = buf.len();
    let j = find(buf, p + 1, d);
    if j >= n {
        return Err(ParseError::Incomplete);
    }
    let body = &buf[p + 1..j];
    let decoded = if d == HASH {
        match decode_hex(body) {
            Ok(v) => Some(v),
            Err(_) => None,
        }
    } else {
        match decode_base64(body) {
            Ok(v) => Some(v),
            Err(_) => None,
        }
    };
    match decoded {
        Some(v) => Ok((Value::Bytes(v), j + 1)),
        None => Err(ParseError::Malformed),
    }
}

fn ends_run(b: u8, delim: bool) -> (r: bool)
    ensures
        r == (if delim { is_delim(b) } else { !is_digit(b) }),
{
    if delim {
        is_delim_byte(b)
    } else {
        !is_digit_byte(b)
    }
}

/// End of the run at `p` of non-delimiters (`delim`) or of digits (`!delim`).
fn scan_run(buf: &[u8], p: usize, delim: bool) -> (r: usize)
    requires
        p <= buf@.len(),
    ensures
        r as int == run_end(buf@, p as int, delim),
        p <= r <= buf@.len(),
{
    let mut i = p;
    while i < buf.len() && !ends_run(buf[i], delim)
        invariant
            p <= i <= buf@.len(),
            run_end(buf@, i as int, delim) == run_end(buf@, p as int, delim),
        decreases buf@.len() - i,
    {
        i += 1;
    }
    i
}

/// Reads a bare symbol at `p`.
fn parse_symbol_at(buf: &[u8], p: usize) -> (r: Result<(Value, usize), ParseError>)
    requires
        p <= buf@.len(),
    ensures
        parsed_view(r) == parse_symbol(buf@, p as int),
        r matches Ok((_, e)) ==> p < e <= buf@.len(),
{
    let j = scan_run(buf, p, true);
    if j == p {
        return Err(ParseError::Malformed);
    }
    let raw = &buf[p..j];
    match utf8_str(raw) {
        Some(t) => Ok((Value::Text(t.to_owned()), j)),
        None => Ok((Value::Bytes(slice_to_vec(raw)), j)),
    }
}

/// A longer run of digits never denotes a smaller number.
proof fn lemma_decimal_prefix(s: Seq<u8>, k: int)
    requires
        0 <= k <= s.len(),
        forall|i: int| 0 <= i < s.len() ==> is_digit(#[trigger] s[i]),
    ensures
        decimal_value(s.subrange(0, k)) <= decimal_value(s),
    decreases s.len(),
{
    if k == s.len() {
        assert(s.subrange(0, k) =~= s);
    } else {
        let t = s.drop_last();
        assert(is_digit(s[s.len() - 1]));
        lemma_decimal_prefix(t, k);
        assert(t.subrange(0, k) =~= s.subrange(0, k));
        assert(decimal_value(t) <= decimal_value(t) * 10) by (nonlinear_arith);
    }
}

/// Reads an atom that starts with a digit at `p`.
fn parse_number_led_at(buf: &[u8], p: usize) -> (r: Result<(Value, usize), ParseError>)
    requires
        p < buf@.len(),
    ensures
        parsed_view(r) == parse_number_led(buf@, p as int),
        r matches Ok((_, e)) ==> p < e <= buf@.len(),
{
    let n = buf.len();
    let i = scan_run(buf, p, false);
    if i < n && buf[i] == COLON {
        let ghost digits = buf@.subrange(p as int, i as int);
        let mut len: usize = 0;
        let mut k = p;
        while k < i
            invariant
                p <= k <= i < n,
                n == buf@.len(),
                buf@[i as int] == COLON,
                i as int == run_end(buf@, p as int, false),
                digits == buf@.subrange(p as int, i as int),
                len as int == decimal_value(buf@.subrange(p as int, k as int)),
            decreases i - k,
        {
            proof {
                lemma_run_digits(buf@, p as int, k as int);
                assert(buf@.subrange(p as int, k + 1).drop_last() =~= buf@.subrange(p as int, k as int));
            }
            let d = (buf[k] - 48) as usize;
            let next = match len.checked_mul(10) {
                Some(m) => m.checked_add(d),
                None => None,
            };
            match next {
                Some(v) => len = v,
                None => {
                    proof {
                        assert(len as int * 10 + d as int > usize::MAX);
                        assert forall|j: int| 0 <= j < digits.len() implies is_digit(#[trigger] digits[j]) by {
                            lemma_run_digits(buf@, p as int, p + j);
                        }
                        let longer = buf@.subrange(p as int, k + 1);
                        assert(longer.last() == buf@[k as int]);
                        assert(decimal_value(longer) == len as int * 10 + d as int);
                        lemma_decimal_prefix(digits, k + 1 - p);
                        assert(digits.subrange(0, k + 1 - p) =~= longer);
                        assert(decimal_value(digits) > usize::MAX);
                    }
                    return Err(ParseError::Malformed);
                },
            }
            k += 1;
        }
        if len > n - (i + 1) {
            return Err(ParseError::Incomplete);
        }
        let end = i + 1 + len;
        return Ok((Value::Bytes(slice_to_vec(&buf[i + 1..end])), end));
    }
    parse_symbol_at(buf, p)
}

/// The trees of a run of values.
pub open spec fn views(items: Seq<Value>) -> Seq<SExp> {
    items.map_values(|v: Value| v@)
}

/// Reads the value whose text starts exactly at `p`.
fn parse_value_at(buf: &[u8], p: usize) -> (r: Result<(Value, usize), ParseError>)
    requires
        p <= buf@.len(),
    ensures
        parsed_view(r) == parse_at(buf@, p as int),
        r matches Ok((_, e)) ==> p < e <= buf@.len(),
    decreases buf@.len() - p, 0int,
{
    if p >= buf.len() {
        return Err(ParseError::Incomplete);
    }
    let c = buf[p];
    if c == LPAREN {
        parse_list_at(buf, p + 1)
    } else if c == QUOTE {
        parse_quoted_at(buf, p + 1)
    } else if c == HASH || c == BAR {
        parse_delimited_at(buf, p, c)
    } else if is_digit_byte(c) {
        parse_number_led_at(buf, p)
    } else {
        parse_symbol_at(buf, p)
    }
}

/// Reads the items of a list from `q` on, just after its opening parenthesis.
fn parse_list_at(buf: &[u8], q: usize) -> (r: Result<(Value, usize), ParseError>)
    requires
        q <= buf@.len(),
    ensures
        parsed_view(r) == parse_items(buf@, q as int, Seq::empty()),
        r matches Ok((_, e)) ==> q < e <= buf@.len(),
    decreases buf@.len() - q, 1int,
{
    let n = buf.len();
    let mut items: Vec<Value> = Vec::new();
    let mut c = q;
    assert(views(items@) =~= Seq::<SExp>::empty());
    loop
        invariant
            q <= c <= n,
            n == buf@.len(),
            parse_items(buf@, c as int, views(items@)) == parse_items(buf@, q as int, Seq::empty()),
        decreases n - c,
    {
        let r = skip_ws(buf, c);
        proof {
            lemma_skip_from(buf@, c as int, false);
        }
        if r >= n {
            return Err(ParseError::Incomplete);
        }
        if buf[r] == RPAREN {
            let ghost acc = views(items@);
            let v = Value::List(items);
            assert(v@ == SExp::List(acc)) by {
                if let SExp::List(s) = v@ {
                    assert(s =~= acc);
                }
            }
            return Ok((v, r + 1));
        }
        match parse_value_at(buf, r) {
            Err(e) => return Err(e),
            Ok((v, e)) => {
                let ghost before = views(items@);
                items.push(v);
                assert(views(items@) =~= before.push(v@));
                c = e;
            },
        }
    }
}

/// Parses the first value at or after `pos`, whitespace and comments before it skipped,
/// and gives the position just after it.
pub fn parse_one(buf: &[u8], pos: usize) -> (r: Result<(Value, usize), ParseError>)
    requires
        pos <= buf@.len(),
    ensures
        parsed_view(r) == crate::grammar::parse_one(buf@, pos as int),
        r matches Ok((_, e)) ==> pos < e <= buf@.len(),
{
    let p = skip_ws(buf, pos);
    proof {
        lemma_skip_from(buf@, pos as int, false);
    }
    parse_value_at(buf, p)
}

/// Parses the first value of a buffer; what follows it is not looked at.
pub fn parse(buf: &[u8]) -> (r: Result<Value, ParseError>)
    ensures
        match r {
            Ok(v) => parse_spec(buf@) == Ok::<SExp, ParseError>(v@),
            Err(e) => parse_spec(buf@) == Err::<SExp, ParseError>(e),
        },
{
    match parse_one(buf, 0) {
        Ok((v, _)) => Ok(v),
        Err(e) => Err(e),
    }
}

} // verus!
