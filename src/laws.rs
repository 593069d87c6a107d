//! Properties that relate several operations of the codec.
use crate::advanced::{advanced, is_delim_char, is_printable, is_symbol, HEX_LIMIT};
use crate::canonical::{canonical, canonical_parts, decimal_text, joined, netstring};
use crate::codec::{base64_text, hex_text};
use crate::grammar::{
    decimal_value, find_byte, hex_val, is_delim, is_digit, is_newline, is_ws, lemma_run_bounds,
    lemma_run_digits, lemma_skip_from, parse_at, parse_items, parse_number_led, parse_one,
    parse_quoted, parse_spec, parse_symbol, run_end, skip_from, skip_ws, ParseError, BACKSLASH, BAR,
    COLON, CR, HASH, LF, LPAREN, QUOTE, RPAREN, SEMI, SPACE, TAB,
};
use crate::stream_laws::{lemma_at_shift, lemma_skip_shift};
use crate::value::SExp;
use vstd::prelude::*;
use vstd::utf8::{
    encode_scalar, encode_utf8, encode_utf8_decode_utf8, encode_utf8_valid_utf8, has_width_1_encoding,
    has_width_2_encoding, has_width_3_encoding,
};

verus! {

broadcast use vstd::seq::axiom_seq_index_decreases;

/// The tree with each text atom replaced by the byte atom of its UTF-8 encoding: what the
/// canonical form keeps of a tree.
pub open spec fn erase(v: SExp) -> SExp
    decreases v,
{
    match v {
        SExp::List(items) => SExp::List(erase_items(items)),
        SExp::Text(s) => SExp::Bytes(encode_utf8(s)),
        SExp::Bytes(b) => SExp::Bytes(b),
    }
}

pub open spec fn erase_items(items: Seq<SExp>) -> Seq<SExp>
    decreases items,
{
    Seq::new(
        items.len(),
        |i: int|
            if 0 <= i < items.len() {
                erase(items[i])
            } else {
                SExp::List(Seq::empty())
            },
    )
}

/// Every atom of the tree has a length that fits a `usize`, as any tree held in memory does.
pub open spec fn atoms_bounded(v: SExp) -> bool
    decreases v,
{
    match v {
        SExp::List(items) => forall|i: int|
            0 <= i < items.len() ==> atoms_bounded(#[trigger] items[i]),
        SExp::Text(s) => encode_utf8(s).len() <= usize::MAX,
        SExp::Bytes(b) => b.len() <= usize::MAX,
    }
}

proof fn lemma_decimal_text(n: nat)
    ensures
        decimal_text(n).len() > 0,
        forall|i: int| 0 <= i < decimal_text(n).len() ==> is_digit(#[trigger] decimal_text(n)[i]),
        decimal_value(decimal_text(n)) == n,
    decreases n,
{
    let t = decimal_text(n);
    if n >= 10 {
        lemma_decimal_text(n / 10);
        let s = decimal_text(n / 10);
        assert(t.drop_last() =~= s);
        assert(t.last() == (48 + n % 10) as u8);
        assert((n / 10) * 10 + n % 10 == n);
        assert(decimal_value(t) == decimal_value(s) * 10 + (t.last() - 48));
    } else {
        assert(t.drop_last() =~= Seq::<u8>::empty());
        assert(decimal_value(t) == decimal_value(t.drop_last()) * 10 + (t.last() - 48));
    }
}

proof fn lemma_digit_run(buf: Seq<u8>, p: int, q: int)
    requires
        0 <= p <= q <= buf.len(),
        forall|i: int| p <= i < q ==> is_digit(#[trigger] buf[i]),
        q == buf.len() || !is_digit(buf[q]),
    ensures
        run_end(buf, p, false) == q,
    decreases q - p,
{
    if p < q {
        lemma_digit_run(buf, p + 1, q);
    }
}

/// A canonical form is never empty and starts with a parenthesis or a digit.
proof fn lemma_canonical_start(v: SExp)
    ensures
        canonical(v).len() > 0,
        canonical(v)[0] == LPAREN || is_digit(canonical(v)[0]),
{
    match v {
        SExp::List(_) => {},
        SExp::Text(s) => lemma_decimal_text(encode_utf8(s).len()),
        SExp::Bytes(b) => lemma_decimal_text(b.len()),
    }
}

/// Nothing is skipped in front of a byte that is neither whitespace nor a comment.
proof fn lemma_no_skip(buf: Seq<u8>, p: int)
    requires
        0 <= p < buf.len(),
        !is_ws(buf[p]),
        buf[p] != SEMI,
    ensures
        skip_ws(buf, p) == p,
{
}

proof fn lemma_joined_prefix(parts: Seq<Seq<u8>>, k: int)
    requires
        0 <= k <= parts.len(),
    ensures
        joined(parts.take(k), SPACE).len() <= joined(parts, SPACE).len(),
        joined(parts, SPACE).take(joined(parts.take(k), SPACE).len() as int) == joined(parts.take(k), SPACE),
    decreases parts.len(),
{
    if k == parts.len() {
        assert(parts.take(k) =~= parts);
        assert(joined(parts, SPACE).take(joined(parts, SPACE).len() as int) =~= joined(parts, SPACE));
    } else {
        let d = parts.drop_last();
        lemma_joined_prefix(d, k);
        assert(d.take(k) =~= parts.take(k));
        let a = joined(d, SPACE);
        let b = joined(parts.take(k), SPACE);
        assert(joined(parts, SPACE).take(b.len() as int) =~= a.take(b.len() as int));
    }
}

/// A length-prefixed atom is read back as the bytes it holds.
proof fn lemma_parse_netstring(buf: Seq<u8>, p: int, b: Seq<u8>)
    requires
        0 <= p,
        p + netstring(b).len() <= buf.len(),
        buf.subrange(p, p + netstring(b).len()) == netstring(b),
        b.len() <= usize::MAX,
    ensures
        parse_at(buf, p) == Ok::<(SExp, int), ParseError>((SExp::Bytes(b), p + netstring(b).len())),
{
    let digits = decimal_text(b.len());
    lemma_decimal_text(b.len());
    let k = digits.len() as int;
    let ns = netstring(b);
    assert forall|i: int| p <= i < p + k implies is_digit(#[trigger] buf[i]) by {
        assert(buf[i] == ns[i - p]);
    }
    assert(buf[p + k] == ns[k]);
    lemma_digit_run(buf, p, p + k);
    assert(buf.subrange(p, p + k) =~= digits);
    assert(buf.subrange(p + k + 1, p + k + 1 + b.len()) =~= b) by {
        assert forall|i: int| 0 <= i < b.len() implies buf.subrange(p + k + 1, p + k + 1 + b.len())[i] == b[i] by {
            assert(buf[p + k + 1 + i] == ns[k + 1 + i]);
        }
    }
    assert(buf[p] == ns[0]);
    assert(parse_at(buf, p) == parse_number_led(buf, p));
}

pub open spec fn item_count(v: SExp) -> int {
    match v {
        SExp::List(items) => items.len() as int,
        _ => 0,
    }
}

/// The canonical form of a tree, wherever it stands in a buffer, is read back as the tree
/// with its text atoms turned into byte atoms.
proof fn lemma_parse_canonical(buf: Seq<u8>, p: int, v: SExp)
    requires
        0 <= p,
        p + canonical(v).len() <= buf.len(),
        buf.subrange(p, p + canonical(v).len()) == canonical(v),
        atoms_bounded(v),
    ensures
        parse_at(buf, p) == Ok::<(SExp, int), ParseError>((erase(v), p + canonical(v).len())),
    decreases v, item_count(v) + 1,
{
    match v {
        SExp::List(items) => {
            assert(buf[p] == canonical(v)[0]);
            assert(canonical_parts(items).take(0) =~= Seq::<Seq<u8>>::empty());
            assert(joined(canonical_parts(items).take(0), SPACE) =~= Seq::<u8>::empty());
            assert(erase_items(items.take(0)) =~= Seq::<SExp>::empty());
            lemma_parse_items(buf, p, v, 0);
        },
        SExp::Text(s) => lemma_parse_netstring(buf, p, encode_utf8(s)),
        SExp::Bytes(b) => lemma_parse_netstring(buf, p, b),
    }
}

proof fn lemma_parse_items(buf: Seq<u8>, p: int, v: SExp, k: int)
    requires
        v is List,
        0 <= k <= v->List_0.len(),
        0 <= p,
        p + canonical(v).len() <= buf.len(),
        buf.subrange(p, p + canonical(v).len()) == canonical(v),
        atoms_bounded(v),
    ensures
        parse_items(
            buf,
            p + 1 + joined(canonical_parts(v->List_0).take(k), SPACE).len(),
            erase_items(v->List_0.take(k)),
        ) == Ok::<(SExp, int), ParseError>((erase(v), p + canonical(v).len())),
    decreases v, item_count(v) - k,
{
    let items = v->List_0;
    let parts = canonical_parts(items);
    let n = items.len() as int;
    let body = joined(parts, SPACE);
    let c = canonical(v);
    assert(c == seq![LPAREN] + body + seq![RPAREN]);
    assert forall|i: int| 0 <= i < body.len() implies buf[p + 1 + i] == #[trigger] body[i] by {
        assert(buf[p + 1 + i] == c[1 + i]);
    }
    let pre = joined(parts.take(k), SPACE);
    let q = p + 1 + pre.len();
    lemma_joined_prefix(parts, k);
    if k == n {
        assert(parts.take(k) =~= parts);
        assert(buf[q] == c[q - p]);
        lemma_no_skip(buf, q);
        assert(erase_items(items.take(k)) =~= erase_items(items));
    } else {
        lemma_joined_prefix(parts, k + 1);
        let next = joined(parts.take(k + 1), SPACE);
        assert(parts.take(k + 1).drop_last() =~= parts.take(k));
        let item = items[k];
        assert(parts[k] == canonical(item));
        assert(atoms_bounded(item));
        lemma_canonical_start(item);
        let r = if k == 0 { q } else { q + 1 };
        assert forall|i: int| 0 <= i < next.len() implies buf[p + 1 + i] == #[trigger] next[i] by {
            assert(next[i] == body.take(next.len() as int)[i]);
        }
        if k == 0 {
            assert(next == parts[0]);
        } else {
            assert(next == pre + seq![SPACE] + parts[k]);
            assert(buf[q] == next[pre.len() as int]);
        }
        assert(buf.subrange(r, r + parts[k].len()) =~= parts[k]) by {
            assert forall|i: int| 0 <= i < parts[k].len() implies buf.subrange(r, r + parts[k].len())[i] == parts[k][i] by {
                assert(buf[r + i] == next[r - p - 1 + i]);
            }
        }
        assert(buf[r] == parts[k][0]);
        lemma_no_skip(buf, r);
        assert(skip_ws(buf, q) == r);
        lemma_parse_canonical(buf, r, item);
        lemma_parse_items(buf, p, v, k + 1);
        assert(erase_items(items.take(k)).push(erase(item)) =~= erase_items(items.take(k + 1)));
    }
}

/// Reading back the canonical form of a tree gives the tree again, up to text atoms, which
/// come back as the byte atoms of their UTF-8 encoding.
pub proof fn lemma_canonical_round_trip(v: SExp)
    requires
        atoms_bounded(v),
    ensures
        parse_spec(canonical(v)) == Ok::<SExp, ParseError>(erase(v)),
{
    let buf = canonical(v);
    assert(buf.subrange(0, buf.len() as int) =~= buf);
    lemma_canonical_start(v);
    lemma_no_skip(buf, 0);
    lemma_parse_canonical(buf, 0, v);
}

/// The canonical form depends on nothing but the bytes of the atoms and the shape of the
/// lists: a text atom and a byte atom with the same UTF-8 bytes give the same output, so
/// however a tree was written before, its canonical bytes are the same.
pub proof fn lemma_canonical_deterministic(v: SExp)
    ensures
        canonical(v) == canonical(erase(v)),
    decreases v,
{
    if let SExp::List(items) = v {
        let e = erase_items(items);
        assert forall|i: int| 0 <= i < items.len() implies canonical_parts(e)[i] == canonical_parts(items)[i] by {
            lemma_canonical_deterministic(items[i]);
        }
        assert(canonical_parts(e) =~= canonical_parts(items));
    }
}

/// A character with a one-byte encoding is that byte; every byte of a longer encoding has
/// its high bit set.
proof fn lemma_scalar_bytes(c: char)
    ensures
        encode_scalar(c as u32).len() > 0,
        (c as u32) < 128 ==> encode_scalar(c as u32) == seq![(c as u32) as u8],
        (c as u32) >= 128 ==> forall|i: int|
            0 <= i < encode_scalar(c as u32).len() ==> #[trigger] encode_scalar(c as u32)[i] >= 128,
{
    let v = c as u32;
    if has_width_1_encoding(v) {
        assert((v & 0x7F) as u8 == v as u8) by (bit_vector)
            requires
                v <= 0x7F,
        ;
    } else {
        assert forall|x: u8| #![auto] (0x80u8 | x) >= 128 && (0xC0u8 | x) >= 128 && (0xE0u8 | x) >= 128
            && (0xF0u8 | x) >= 128 by {
            assert((0x80u8 | x) >= 128 && (0xC0u8 | x) >= 128 && (0xE0u8 | x) >= 128 && (0xF0u8 | x)
                >= 128) by (bit_vector);
        }
        if has_width_2_encoding(v) {
        } else if has_width_3_encoding(v) {
        } else {
        }
    }
}

/// Text without delimiter characters encodes to bytes without delimiter bytes.
proof fn lemma_encode_no_delim(s: Seq<char>)
    requires
        forall|i: int| 0 <= i < s.len() ==> !is_delim_char(#[trigger] s[i]),
    ensures
        forall|j: int| 0 <= j < encode_utf8(s).len() ==> !is_delim(#[trigger] encode_utf8(s)[j]),
    decreases s.len(),
{
    if s.len() > 0 {
        let rest = s.drop_first();
        let head = encode_scalar(s[0] as u32);
        lemma_scalar_bytes(s[0]);
        assert(!is_delim_char(s[0]));
        assert forall|i: int| 0 <= i < rest.len() implies !is_delim_char(#[trigger] rest[i]) by {
            assert(rest[i] == s[i + 1]);
        }
        lemma_encode_no_delim(rest);
        let e = encode_utf8(s);
        assert(e == head + encode_utf8(rest));
        assert forall|j: int| 0 <= j < e.len() implies !is_delim(#[trigger] e[j]) by {
            if j >= head.len() {
                assert(e[j] == encode_utf8(rest)[j - head.len()]);
            } else {
                assert(e[j] == head[j]);
                if (s[0] as u32) < 128 {
                    lemma_delim_char_byte(s[0]);
                }
            }
        }
    }
}

/// Where the encoding starts with `k` bytes below 128, the text starts with the same `k`
/// characters.
proof fn lemma_encode_ascii_prefix(s: Seq<char>, k: int)
    requires
        0 <= k <= encode_utf8(s).len(),
        forall|j: int| 0 <= j < k ==> #[trigger] encode_utf8(s)[j] < 128,
    ensures
        k <= s.len(),
        forall|j: int| 0 <= j < k ==> s[j] as u32 == #[trigger] encode_utf8(s)[j] as u32,
    decreases s.len(),
{
    if k > 0 {
        let rest = s.drop_first();
        let e = encode_utf8(s);
        lemma_scalar_bytes(s[0]);
        let head = encode_scalar(s[0] as u32);
        assert(e == head + encode_utf8(rest));
        assert(e[0] == head[0]);
        assert((s[0] as u32) < 128);
        assert forall|j: int| 0 <= j < k - 1 implies #[trigger] encode_utf8(rest)[j] < 128 by {
            assert(encode_utf8(rest)[j] == e[j + 1]);
        }
        lemma_encode_ascii_prefix(rest, k - 1);
        assert forall|j: int| 0 <= j < k implies s[j] as u32 == #[trigger] e[j] as u32 by {
            if j > 0 {
                assert(e[j] == encode_utf8(rest)[j - 1]);
                assert(s[j] == rest[j - 1]);
            }
        }
    }
}

pub open spec fn is_digit_char(c: char) -> bool {
    48 <= (c as u32) <= 57
}

proof fn lemma_delim_char_byte(c: char)
    requires
        (c as u32) < 128,
    ensures
        is_delim((c as u32) as u8) == is_delim_char(c),
{
    let v = c as u32;
    assert(v as u8 == v);
    assert(c == ' ' <==> v == 32);
    assert(c == '\t' <==> v == 9);
    assert(c == '\r' <==> v == 13);
    assert(c == '\n' <==> v == 10);
    assert(c == '(' <==> v == 40);
    assert(c == ')' <==> v == 41);
    assert(c == '"' <==> v == 34);
    assert(c == '|' <==> v == 124);
    assert(c == '#' <==> v == 35);
    assert(c == ';' <==> v == 59);
}

/// Text that reads as the length prefix of an atom: one or more digits, then a colon
/// (code 58).
pub open spec fn starts_like_length_prefix(s: Seq<char>) -> bool {
    exists|j: int|
        0 < j < s.len() && (s[j] as u32) == 58 && forall|k: int| 0 <= k < j ==> is_digit_char(#[trigger] s[k])
}

/// Text that can stand bare is written bare by the readable form and read back as the same
/// text, unless it starts with digits and a colon, which read as a length prefix.
pub proof fn lemma_advanced_symbol_round_trip(s: Seq<char>)
    requires
        is_symbol(s),
        !starts_like_length_prefix(s),
    ensures
        advanced(SExp::Text(s)) == s,
        parse_spec(encode_utf8(s)) == Ok::<SExp, ParseError>(SExp::Text(s)),
{
    let b = encode_utf8(s);
    lemma_encode_no_delim(s);
    lemma_scalar_bytes(s[0]);
    assert(b == encode_scalar(s[0] as u32) + encode_utf8(s.drop_first()));
    assert(b.len() > 0);
    assert(!is_delim(b[0]));
    lemma_no_skip(b, 0);
    lemma_run_to_end(b, 0);
    encode_utf8_valid_utf8(s);
    encode_utf8_decode_utf8(s);
    if is_digit(b[0]) {
        let i = run_end(b, 0, false);
        lemma_run_bounds(b, 0, false);
        if i < b.len() && b[i] == COLON {
            assert forall|j: int| 0 <= j < i + 1 implies #[trigger] b[j] < 128 by {
                if j < i {
                    lemma_run_digits(b, 0, j);
                }
            }
            lemma_encode_ascii_prefix(s, i + 1);
            assert forall|k: int| 0 <= k < i implies is_digit_char(#[trigger] s[k]) by {
                lemma_run_digits(b, 0, k);
                assert(s[k] as u32 == b[k] as u32);
            }
            assert(s[i] as u32 == 58);
            assert(i > 0);
            assert(starts_like_length_prefix(s));
        }
        assert(parse_number_led(b, 0) == parse_symbol(b, 0));
    }
    assert(b.subrange(0, b.len() as int) =~= b);
    assert(parse_symbol(b, 0) == Ok::<(SExp, int), ParseError>((SExp::Text(s), b.len() as int)));
    assert(parse_at(b, 0) == parse_symbol(b, 0));
}

proof fn lemma_run_to_end(buf: Seq<u8>, p: int)
    requires
        0 <= p <= buf.len(),
        forall|j: int| p <= j < buf.len() ==> !is_delim(#[trigger] buf[j]),
    ensures
        run_end(buf, p, true) == buf.len(),
    decreases buf.len() - p,
{
    if p < buf.len() {
        lemma_run_to_end(buf, p + 1);
    }
}

/// A byte atom that is not printable text is written in hex below 48 bytes and in base64
/// from 48 bytes on.
pub proof fn lemma_binary_threshold(b: Seq<u8>)
    requires
        !is_printable(b),
    ensures
        b.len() < 48 ==> advanced(SExp::Bytes(b)) == seq!['#'] + hex_text(b) + seq!['#'],
        b.len() >= 48 ==> advanced(SExp::Bytes(b)) == seq!['|'] + base64_text(b) + seq!['|'],
{
    assert(HEX_LIMIT == 48);
}

proof fn lemma_skip_stable(buf: Seq<u8>, more: Seq<u8>, q: int, in_comment: bool)
    requires
        0 <= q <= buf.len(),
        skip_from(buf, q, in_comment) < buf.len(),
    ensures
        skip_from(buf + more, q, in_comment) == skip_from(buf, q, in_comment),
    decreases buf.len() - q, if in_comment { 1int } else { 0int },
{
    let ext = buf + more;
    if q < buf.len() {
        assert(ext[q] == buf[q]);
        if in_comment {
            if is_newline(buf[q]) {
                lemma_skip_stable(buf, more, q, false);
            } else {
                lemma_skip_stable(buf, more, q + 1, true);
            }
        } else if is_ws(buf[q]) {
            lemma_skip_stable(buf, more, q + 1, false);
        } else if buf[q] == SEMI {
            lemma_skip_stable(buf, more, q + 1, true);
        }
    }
}

proof fn lemma_run_stable(buf: Seq<u8>, more: Seq<u8>, p: int, delim: bool)
    requires
        0 <= p <= buf.len(),
        run_end(buf, p, delim) < buf.len(),
    ensures
        run_end(buf + more, p, delim) == run_end(buf, p, delim),
    decreases buf.len() - p,
{
    assert((buf + more)[p] == buf[p]);
    if p < buf.len() && !(if delim { is_delim(buf[p]) } else { !is_digit(buf[p]) }) {
        lemma_run_stable(buf, more, p + 1, delim);
    }
}

proof fn lemma_find_stable(buf: Seq<u8>, more: Seq<u8>, p: int, d: u8)
    requires
        0 <= p <= buf.len(),
        find_byte(buf, p, d) < buf.len(),
    ensures
        find_byte(buf + more, p, d) == find_byte(buf, p, d),
    decreases buf.len() - p,
{
    assert((buf + more)[p] == buf[p]);
    if buf[p] != d {
        lemma_find_stable(buf, more, p + 1, d);
    }
}

proof fn lemma_quoted_stable(buf: Seq<u8>, more: Seq<u8>, i: int, acc: Seq<u8>)
    requires
        0 <= i <= buf.len(),
        parse_quoted(buf, i, acc) is Ok,
    ensures
        parse_quoted(buf + more, i, acc) == parse_quoted(buf, i, acc),
    decreases buf.len() - i,
{
    let ext = buf + more;
    assert(ext[i] == buf[i]);
    if buf[i] == BACKSLASH {
        assert(ext[i + 1] == buf[i + 1]);
        let e = buf[i + 1];
        if e == QUOTE || e == BACKSLASH || e == 110 || e == 114 || e == 116 {
            let unescaped = if e == 110 {
                LF
            } else if e == 114 {
                CR
            } else if e == 116 {
                TAB
            } else {
                e
            };
            lemma_quoted_stable(buf, more, i + 2, acc.push(unescaped));
        } else {
            assert(ext[i + 2] == buf[i + 2]);
            assert(ext[i + 3] == buf[i + 3]);
            let byte = (hex_val(buf[i + 2]) * 16 + hex_val(buf[i + 3])) as u8;
            lemma_quoted_stable(buf, more, i + 4, acc.push(byte));
        }
    } else if buf[i] != QUOTE {
        lemma_quoted_stable(buf, more, i + 1, acc.push(buf[i]));
    }
}

/// A value that ends before the end of the buffer, or opens with a parenthesis, is read the
/// same from any longer buffer.
proof fn lemma_parse_at_stable(buf: Seq<u8>, more: Seq<u8>, p: int)
    requires
        0 <= p <= buf.len(),
        parse_at(buf, p) is Ok,
        parse_at(buf, p)->Ok_0.1 < buf.len() || buf[p] == LPAREN,
    ensures
        parse_at(buf + more, p) == parse_at(buf, p),
    decreases buf.len() - p, 0int,
{
    let ext = buf + more;
    assert(ext[p] == buf[p]);
    let c = buf[p];
    if c == LPAREN {
        lemma_parse_items_stable(buf, more, p + 1, Seq::empty());
    } else if c == QUOTE {
        lemma_quoted_stable(buf, more, p + 1, Seq::empty());
    } else if c == HASH || c == BAR {
        lemma_find_bounds(buf, p + 1, c);
        lemma_find_stable(buf, more, p + 1, c);
        let j = find_byte(buf, p + 1, c);
        assert(ext.subrange(p + 1, j) =~= buf.subrange(p + 1, j));
    } else {
        let j = run_end(buf, p, true);
        let i = run_end(buf, p, false);
        lemma_run_bounds(buf, p, false);
        if is_digit(c) && i < buf.len() && buf[i] == COLON {
            lemma_run_stable(buf, more, p, false);
            assert(ext[i] == buf[i]);
            assert(ext.subrange(p, i) =~= buf.subrange(p, i));
            let n = decimal_value(buf.subrange(p, i));
            assert(ext.subrange(i + 1, i + 1 + n) =~= buf.subrange(i + 1, i + 1 + n));
        } else {
            if is_digit(c) {
                lemma_digits_in_symbol(buf, p);
                lemma_run_bounds(buf, p, true);
                lemma_run_stable(buf, more, p, false);
                assert(ext[i] == buf[i]);
            }
            lemma_run_bounds(buf, p, true);
            lemma_run_stable(buf, more, p, true);
            assert(ext.subrange(p, j) =~= buf.subrange(p, j));
        }
    }
}

/// A run of digits lies inside the bare symbol that starts at the same place.
proof fn lemma_digits_in_symbol(buf: Seq<u8>, p: int)
    requires
        0 <= p <= buf.len(),
    ensures
        run_end(buf, p, false) <= run_end(buf, p, true),
    decreases buf.len() - p,
{
    lemma_run_bounds(buf, p, true);
    if p < buf.len() && is_digit(buf[p]) {
        lemma_digits_in_symbol(buf, p + 1);
    }
}

pub proof fn lemma_find_bounds(buf: Seq<u8>, p: int, d: u8)
    requires
        0 <= p <= buf.len(),
    ensures
        p <= find_byte(buf, p, d) <= buf.len(),
    decreases buf.len() - p,
{
    if p < buf.len() {
        lemma_find_bounds(buf, p + 1, d);
    }
}

proof fn lemma_parse_items_stable(buf: Seq<u8>, more: Seq<u8>, q: int, acc: Seq<SExp>)
    requires
        0 <= q <= buf.len(),
        parse_items(buf, q, acc) is Ok,
    ensures
        parse_items(buf + more, q, acc) == parse_items(buf, q, acc),
    decreases buf.len() - q, 1int,
{
    let ext = buf + more;
    lemma_skip_from(buf, q, false);
    let r = skip_ws(buf, q);
    lemma_skip_stable(buf, more, q, false);
    assert(ext[r] == buf[r]);
    if buf[r] != RPAREN {
        let (v, e) = parse_at(buf, r)->Ok_0;
        assert(parse_at(buf, r) is Ok);
        assert(r < e <= buf.len());
        assert(parse_items(buf, e, acc.push(v)) is Ok);
        lemma_skip_from(buf, e, false);
        assert(e < buf.len()) by {
            if e == buf.len() {
                assert(skip_from(buf, e, false) == e);
            }
        }
        lemma_parse_at_stable(buf, more, r);
        lemma_parse_items_stable(buf, more, e, acc.push(v));
    }
}

/// A list read from a buffer is read the same, and ends at the same place, however many
/// bytes are appended to the buffer; so is any value that some byte of the buffer follows.
/// This is why feeding more input to the incremental parser never changes a list it
/// has already found complete.
pub proof fn lemma_parse_one_stable(buf: Seq<u8>, more: Seq<u8>, pos: int)
    requires
        0 <= pos <= buf.len(),
        parse_one(buf, pos) is Ok,
        parse_one(buf, pos)->Ok_0.1 < buf.len() || buf[skip_ws(buf, pos)] == LPAREN,
    ensures
        parse_one(buf + more, pos) == parse_one(buf, pos),
{
    lemma_skip_from(buf, pos, false);
    let p = skip_ws(buf, pos);
    lemma_skip_stable(buf, more, pos, false);
    lemma_parse_at_stable(buf, more, p);
}

proof fn lemma_skip_prefix(buf: Seq<u8>, more: Seq<u8>, q: int, in_comment: bool)
    requires
        0 <= q <= buf.len(),
        skip_from(buf + more, q, in_comment) < buf.len(),
    ensures
        skip_from(buf, q, in_comment) == skip_from(buf + more, q, in_comment),
    decreases buf.len() - q, if in_comment { 1int } else { 0int },
{
    let ext = buf + more;
    lemma_skip_from(ext, q, in_comment);
    if q < buf.len() {
        assert(ext[q] == buf[q]);
        if in_comment {
            if is_newline(buf[q]) {
                lemma_skip_prefix(buf, more, q, false);
            } else {
                lemma_skip_prefix(buf, more, q + 1, true);
            }
        } else if is_ws(buf[q]) {
            lemma_skip_prefix(buf, more, q + 1, false);
        } else if buf[q] == SEMI {
            lemma_skip_prefix(buf, more, q + 1, true);
        }
    }
}

proof fn lemma_run_prefix(buf: Seq<u8>, more: Seq<u8>, p: int, delim: bool)
    requires
        0 <= p <= buf.len(),
        run_end(buf + more, p, delim) < buf.len(),
    ensures
        run_end(buf, p, delim) == run_end(buf + more, p, delim),
    decreases buf.len() - p,
{
    lemma_run_bounds(buf + more, p, delim);
    assert((buf + more)[p] == buf[p]);
    if !(if delim { is_delim(buf[p]) } else { !is_digit(buf[p]) }) {
        lemma_run_prefix(buf, more, p + 1, delim);
    }
}

proof fn lemma_find_prefix(buf: Seq<u8>, more: Seq<u8>, p: int, d: u8)
    requires
        0 <= p <= buf.len(),
        find_byte(buf + more, p, d) < buf.len(),
    ensures
        find_byte(buf, p, d) == find_byte(buf + more, p, d),
    decreases buf.len() - p,
{
    lemma_find_bounds(buf + more, p, d);
    assert((buf + more)[p] == buf[p]);
    if buf[p] != d {
        lemma_find_prefix(buf, more, p + 1, d);
    }
}

proof fn lemma_quoted_prefix(buf: Seq<u8>, more: Seq<u8>, i: int, acc: Seq<u8>)
    requires
        0 <= i <= buf.len(),
        parse_quoted(buf + more, i, acc) is Ok,
        parse_quoted(buf + more, i, acc)->Ok_0.1 <= buf.len(),
    ensures
        parse_quoted(buf, i, acc) == parse_quoted(buf + more, i, acc),
    decreases buf.len() - i,
{
    let ext = buf + more;
    lemma_quoted_advances(ext, i, acc);
    assert(ext[i] == buf[i]);
    if buf[i] == BACKSLASH {
        let e = ext[i + 1];
        if e == QUOTE || e == BACKSLASH || e == 110 || e == 114 || e == 116 {
            let unescaped = if e == 110 {
                LF
            } else if e == 114 {
                CR
            } else if e == 116 {
                TAB
            } else {
                e
            };
            lemma_quoted_advances(ext, i + 2, acc.push(unescaped));
            assert(ext[i + 1] == buf[i + 1]);
            lemma_quoted_prefix(buf, more, i + 2, acc.push(unescaped));
        } else {
            let byte = (hex_val(ext[i + 2]) * 16 + hex_val(ext[i + 3])) as u8;
            lemma_quoted_advances(ext, i + 4, acc.push(byte));
            assert(ext[i + 1] == buf[i + 1]);
            assert(ext[i + 2] == buf[i + 2]);
            assert(ext[i + 3] == buf[i + 3]);
            lemma_quoted_prefix(buf, more, i + 4, acc.push(byte));
        }
    } else if buf[i] != QUOTE {
        lemma_quoted_prefix(buf, more, i + 1, acc.push(buf[i]));
    }
}

/// A value read from a buffer is read the same from the part of the buffer before its end,
/// when it ends before that part does, or opens with a parenthesis and ends where it does.
proof fn lemma_parse_at_prefix(buf: Seq<u8>, more: Seq<u8>, p: int)
    requires
        0 <= p <= buf.len(),
        parse_at(buf + more, p) is Ok,
        parse_at(buf + more, p)->Ok_0.1 < buf.len() || (p < buf.len() && buf[p] == LPAREN
            && parse_at(buf + more, p)->Ok_0.1 <= buf.len()),
    ensures
        parse_at(buf, p) == parse_at(buf + more, p),
    decreases buf.len() - p, 0int,
{
    let ext = buf + more;
    let e = parse_at(ext, p)->Ok_0.1;
    if p == buf.len() {
        assert(false) by {
            assert(e > p) by {
                lemma_parse_at_advances(ext, p);
            }
        }
    }
    assert(ext[p] == buf[p]);
    let c = buf[p];
    if c == LPAREN {
        lemma_parse_items_prefix(buf, more, p + 1, Seq::empty());
    } else if c == QUOTE {
        lemma_quoted_prefix(buf, more, p + 1, Seq::empty());
    } else if c == HASH || c == BAR {
        lemma_find_bounds(ext, p + 1, c);
        lemma_find_prefix(buf, more, p + 1, c);
        let j = find_byte(ext, p + 1, c);
        assert(ext.subrange(p + 1, j) =~= buf.subrange(p + 1, j));
    } else {
        let j = run_end(ext, p, true);
        let i = run_end(ext, p, false);
        lemma_run_bounds(ext, p, false);
        lemma_run_bounds(ext, p, true);
        if is_digit(c) && i < ext.len() && ext[i] == COLON {
            lemma_run_prefix(buf, more, p, false);
            assert(ext[i] == buf[i]);
            assert(ext.subrange(p, i) =~= buf.subrange(p, i));
            let n = decimal_value(ext.subrange(p, i));
            assert(ext.subrange(i + 1, i + 1 + n) =~= buf.subrange(i + 1, i + 1 + n));
        } else {
            if is_digit(c) {
                lemma_digits_in_symbol(ext, p);
                lemma_run_prefix(buf, more, p, false);
                assert(ext[i] == buf[i]);
            }
            lemma_run_prefix(buf, more, p, true);
            assert(ext.subrange(p, j) =~= buf.subrange(p, j));
        }
    }
}

proof fn lemma_parse_items_prefix(buf: Seq<u8>, more: Seq<u8>, q: int, acc: Seq<SExp>)
    requires
        0 <= q <= buf.len(),
        parse_items(buf + more, q, acc) is Ok,
        parse_items(buf + more, q, acc)->Ok_0.1 <= buf.len(),
    ensures
        parse_items(buf, q, acc) == parse_items(buf + more, q, acc),
    decreases buf.len() - q, 1int,
{
    let ext = buf + more;
    lemma_skip_from(ext, q, false);
    let r = skip_ws(ext, q);
    lemma_parse_items_end(ext, q, acc);
    lemma_skip_prefix(buf, more, q, false);
    assert(ext[r] == buf[r]);
    if buf[r] != RPAREN {
        let (v, e) = parse_at(ext, r)->Ok_0;
        assert(r < e <= ext.len());
        lemma_parse_items_end(ext, e, acc.push(v));
        lemma_skip_from(ext, e, false);
        lemma_parse_at_prefix(buf, more, r);
        lemma_parse_items_prefix(buf, more, e, acc.push(v));
    }
}

/// A list ends after the last byte of everything it holds.
proof fn lemma_parse_items_end(buf: Seq<u8>, q: int, acc: Seq<SExp>)
    requires
        0 <= q <= buf.len(),
        parse_items(buf, q, acc) is Ok,
    ensures
        skip_ws(buf, q) < parse_items(buf, q, acc)->Ok_0.1 <= buf.len(),
    decreases buf.len() - q,
{
    lemma_skip_from(buf, q, false);
    let r = skip_ws(buf, q);
    if buf[r] != RPAREN {
        let (v, e) = parse_at(buf, r)->Ok_0;
        lemma_parse_items_end(buf, e, acc.push(v));
        lemma_skip_from(buf, e, false);
    }
}

/// A value, once read, ends after the position it starts at.
pub proof fn lemma_parse_at_advances(buf: Seq<u8>, p: int)
    requires
        parse_at(buf, p) is Ok,
    ensures
        p < parse_at(buf, p)->Ok_0.1 <= buf.len(),
{
    let c = buf[p];
    if c == LPAREN {
        lemma_parse_items_end(buf, p + 1, Seq::empty());
        lemma_skip_from(buf, p + 1, false);
    } else if c == QUOTE {
        lemma_quoted_advances(buf, p + 1, Seq::empty());
    } else if c == HASH || c == BAR {
        lemma_find_bounds(buf, p + 1, c);
    } else {
        lemma_run_bounds(buf, p, true);
        lemma_run_bounds(buf, p, false);
    }
}

proof fn lemma_quoted_advances(buf: Seq<u8>, i: int, acc: Seq<u8>)
    requires
        0 <= i,
        parse_quoted(buf, i, acc) is Ok,
    ensures
        i < parse_quoted(buf, i, acc)->Ok_0.1 <= buf.len(),
    decreases buf.len() - i,
{
    if buf[i] == BACKSLASH {
        let e = buf[i + 1];
        if e == QUOTE || e == BACKSLASH || e == 110 || e == 114 || e == 116 {
            let unescaped = if e == 110 {
                LF
            } else if e == 114 {
                CR
            } else if e == 116 {
                TAB
            } else {
                e
            };
            lemma_quoted_advances(buf, i + 2, acc.push(unescaped));
        } else {
            let byte = (hex_val(buf[i + 2]) * 16 + hex_val(buf[i + 3])) as u8;
            lemma_quoted_advances(buf, i + 4, acc.push(byte));
        }
    } else if buf[i] != QUOTE {
        lemma_quoted_advances(buf, i + 1, acc.push(buf[i]));
    }
}

/// One step of the incremental parser agrees with reading the whole input at once. Where
/// the first value of `doc` is a list, a buffer that holds the first `m` bytes of `doc`
/// yields no value while it ends before the list does, and yields that list, ending at the
/// same place, once it holds all of it.
pub proof fn lemma_incremental_step(doc: Seq<u8>, m: int)
    requires
        0 <= m <= doc.len(),
        parse_one(doc, 0) is Ok,
        doc[skip_ws(doc, 0)] == LPAREN,
    ensures
        m < parse_one(doc, 0)->Ok_0.1 ==> parse_one(doc.take(m), 0) is Err,
        m >= parse_one(doc, 0)->Ok_0.1 ==> parse_one(doc.take(m), 0) == parse_one(doc, 0),
{
    let buf = doc.take(m);
    let more = doc.skip(m);
    assert(buf + more =~= doc);
    lemma_skip_from(doc, 0, false);
    let p = skip_ws(doc, 0);
    let e = parse_one(doc, 0)->Ok_0.1;
    lemma_parse_at_advances(doc, p);
    if m >= e {
        lemma_skip_prefix(buf, more, 0, false);
        assert(buf[p] == doc[p]);
        lemma_parse_at_prefix(buf, more, p);
    } else if parse_one(buf, 0) is Ok {
        lemma_skip_from(buf, 0, false);
        let q = skip_ws(buf, 0);
        lemma_skip_stable(buf, more, 0, false);
        assert(q == p);
        assert(buf[q] == doc[p]);
        lemma_parse_items_end(buf, q + 1, Seq::empty());
        lemma_parse_one_stable(buf, more, 0);
        assert(false);
    }
}

proof fn lemma_skip_comment(pre: Seq<u8>, rest: Seq<u8>, i: int)
    requires
        1 <= i < pre.len(),
        pre[0] == SEMI,
        forall|k: int| 1 <= k < pre.len() - 1 ==> !is_newline(#[trigger] pre[k]),
        pre[pre.len() - 1] == LF,
    ensures
        skip_from(pre + rest, i, true) == skip_from(pre + rest, pre.len() as int, false),
    decreases pre.len() - i,
{
    let all = pre + rest;
    if i < pre.len() {
        assert(all[i] == pre[i]);
        if i < pre.len() - 1 {
            lemma_skip_comment(pre, rest, i + 1);
        } else {
            assert(skip_from(all, i, false) == skip_from(all, i + 1, false));
        }
    }
}

/// A line comment in front of a document changes nothing of what it reads as.
pub proof fn lemma_comment_skipped(comment: Seq<u8>, rest: Seq<u8>)
    requires
        forall|k: int| 0 <= k < comment.len() ==> !is_newline(#[trigger] comment[k]),
    ensures
        parse_spec(seq![SEMI] + comment + seq![LF] + rest) == parse_spec(rest),
{
    let pre = seq![SEMI] + comment + seq![LF];
    let all = pre + rest;
    assert(seq![SEMI] + comment + seq![LF] + rest =~= all);
    assert forall|k: int| 1 <= k < pre.len() - 1 implies !is_newline(#[trigger] pre[k]) by {
        assert(pre[k] == comment[k - 1]);
    }
    assert(all[0] == SEMI);
    lemma_skip_comment(pre, rest, 1);
    lemma_skip_shift(pre, rest, 0, false);
    lemma_skip_from(rest, 0, false);
    lemma_at_shift(pre, rest, skip_ws(rest, 0));
}

} // verus!
