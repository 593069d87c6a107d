//! Why the incremental parser hands out the values that reading the whole input at once
//! gives, whatever the sizes of the chunks it is fed.
use crate::grammar::{
    decimal_value, find_byte, hex_val, is_newline, is_ws, lemma_run_bounds, lemma_skip_from, parse_at,
    parse_items, parse_one, parse_quoted, run_end, skip_from, skip_ws, ParseError, Parsed, BACKSLASH,
    BAR, CR, HASH, LF, LPAREN, QUOTE, RPAREN, SEMI, TAB,
};
use crate::laws::{lemma_find_bounds, lemma_incremental_step, lemma_parse_at_advances};
use crate::value::SExp;
use vstd::prelude::*;

verus! {

/// A parse result with its end position moved `n` bytes on.
pub open spec fn shifted(r: Parsed, n: int) -> Parsed {
    match r {
        Ok((v, e)) => Ok((v, e + n)),
        Err(e) => Err(e),
    }
}

pub proof fn lemma_skip_shift(pre: Seq<u8>, buf: Seq<u8>, q: int, in_comment: bool)
    requires
        0 <= q <= buf.len(),
    ensures
        skip_from(pre + buf, q + pre.len(), in_comment) == skip_from(buf, q, in_comment) + pre.len(),
    decreases buf.len() - q, if in_comment { 1int } else { 0int },
{
    let n = pre.len() as int;
    let ext = pre + buf;
    if q < buf.len() {
        assert(ext[q + n] == buf[q]);
        if in_comment {
            if is_newline(buf[q]) {
                lemma_skip_shift(pre, buf, q, false);
            } else {
                lemma_skip_shift(pre, buf, q + 1, true);
            }
        } else if is_ws(buf[q]) {
            lemma_skip_shift(pre, buf, q + 1, false);
        } else if buf[q] == SEMI {
            lemma_skip_shift(pre, buf, q + 1, true);
        }
    }
}

proof fn lemma_run_shift(pre: Seq<u8>, buf: Seq<u8>, p: int, delim: bool)
    requires
        0 <= p <= buf.len(),
    ensures
        run_end(pre + buf, p + pre.len(), delim) == run_end(buf, p, delim) + pre.len(),
    decreases buf.len() - p,
{
    if p < buf.len() {
        assert((pre + buf)[p + pre.len()] == buf[p]);
        lemma_run_shift(pre, buf, p + 1, delim);
    }
}

proof fn lemma_find_shift(pre: Seq<u8>, buf: Seq<u8>, p: int, d: u8)
    requires
        0 <= p <= buf.len(),
    ensures
        find_byte(pre + buf, p + pre.len(), d) == find_byte(buf, p, d) + pre.len(),
    decreases buf.len() - p,
{
    if p < buf.len() {
        assert((pre + buf)[p + pre.len()] == buf[p]);
        lemma_find_shift(pre, buf, p + 1, d);
    }
}

proof fn lemma_quoted_shift(pre: Seq<u8>, buf: Seq<u8>, i: int, acc: Seq<u8>)
    requires
        0 <= i <= buf.len(),
    ensures
        parse_quoted(pre + buf, i + pre.len(), acc) == shifted(parse_quoted(buf, i, acc), pre.len() as int),
    decreases buf.len() - i,
{
    let n = pre.len() as int;
    let ext = pre + buf;
    if i < buf.len() {
        assert(ext[i + n] == buf[i]);
        if buf[i] == BACKSLASH {
            if i + 1 < buf.len() {
                assert(ext[i + 1 + n] == buf[i + 1]);
                let e = buf[i + 1];
                if e == QUOTE || e == BACKSLASH || e == 110 || e == 114 || e == 116 {
                    let unescaped = if e == 110 {
                        LF
                    } else if e == 114 {
                        CR
                    } else if e == 116 {
                        TAB
                    } else {
                        e
                    };
                    lemma_quoted_shift(pre, buf, i + 2, acc.push(unescaped));
                } else if e == 120 && i + 4 <= buf.len() {
                    assert(ext[i + 2 + n] == buf[i + 2]);
                    assert(ext[i + 3 + n] == buf[i + 3]);
                    let byte = (hex_val(buf[i + 2]) * 16 + hex_val(buf[i + 3])) as u8;
                    lemma_quoted_shift(pre, buf, i + 4, acc.push(byte));
                }
            }
        } else if buf[i] != QUOTE {
            lemma_quoted_shift(pre, buf, i + 1, acc.push(buf[i]));
        }
    }
}

pub proof fn lemma_at_shift(pre: Seq<u8>, buf: Seq<u8>, p: int)
    requires
        0 <= p <= buf.len(),
    ensures
        parse_at(pre + buf, p + pre.len()) == shifted(parse_at(buf, p), pre.len() as int),
    decreases buf.len() - p, 0int,
{
    let n = pre.len() as int;
    let ext = pre + buf;
    if p < buf.len() {
        assert(ext[p + n] == buf[p]);
        let c = buf[p];
        if c == LPAREN {
            lemma_items_shift(pre, buf, p + 1, Seq::empty());
        } else if c == QUOTE {
            lemma_quoted_shift(pre, buf, p + 1, Seq::empty());
        } else if c == HASH || c == BAR {
            lemma_find_shift(pre, buf, p + 1, c);
            let j = find_byte(buf, p + 1, c);
            lemma_find_bounds(buf, p + 1, c);
            if j < buf.len() {
                assert(ext.subrange(p + 1 + n, j + n) =~= buf.subrange(p + 1, j));
            }
        } else {
            lemma_run_shift(pre, buf, p, true);
            lemma_run_shift(pre, buf, p, false);
            lemma_run_bounds(buf, p, true);
            lemma_run_bounds(buf, p, false);
            let i = run_end(buf, p, false);
            let j = run_end(buf, p, true);
            assert(ext.subrange(p + n, j + n) =~= buf.subrange(p, j));
            if i < buf.len() {
                assert(ext[i + n] == buf[i]);
                assert(ext.subrange(p + n, i + n) =~= buf.subrange(p, i));
                let len = decimal_value(buf.subrange(p, i));
                if i + 1 + len <= buf.len() {
                    assert(ext.subrange(i + 1 + n, i + 1 + len + n) =~= buf.subrange(i + 1, i + 1 + len));
                }
            }
        }
    }
}

proof fn lemma_items_shift(pre: Seq<u8>, buf: Seq<u8>, q: int, acc: Seq<SExp>)
    requires
        0 <= q <= buf.len(),
    ensures
        parse_items(pre + buf, q + pre.len(), acc) == shifted(parse_items(buf, q, acc), pre.len() as int),
    decreases buf.len() - q, 1int,
{
    let n = pre.len() as int;
    let ext = pre + buf;
    lemma_skip_from(buf, q, false);
    lemma_skip_shift(pre, buf, q, false);
    let r = skip_ws(buf, q);
    if r < buf.len() {
        assert(ext[r + n] == buf[r]);
        if buf[r] != RPAREN {
            lemma_at_shift(pre, buf, r);
            match parse_at(buf, r) {
                Ok((v, e)) => {
                    if r < e <= buf.len() {
                        lemma_items_shift(pre, buf, e, acc.push(v));
                    }
                },
                Err(_) => {},
            }
        }
    }
}

/// Reading from `q` on in a buffer that `pre` precedes is reading the buffer alone, with
/// every position moved on by the length of `pre`.
pub proof fn lemma_parse_one_shift(pre: Seq<u8>, buf: Seq<u8>, q: int)
    requires
        0 <= q <= buf.len(),
    ensures
        parse_one(pre + buf, q + pre.len()) == shifted(parse_one(buf, q), pre.len() as int),
{
    lemma_skip_from(buf, q, false);
    lemma_skip_shift(pre, buf, q, false);
    lemma_at_shift(pre, buf, skip_ws(buf, q));
}

/// The values of a document from position `c` on, read one after another from the whole
/// document, each after the whitespace and comments that precede it.
pub open spec fn values_from(d: Seq<u8>, c: int) -> Seq<SExp>
    decreases d.len() - c,
{
    if 0 <= c <= d.len() {
        match parse_one(d, c) {
            Ok((v, e)) => if c < e <= d.len() {
                proof {
                    lemma_skip_from(d, e, false);
                }
                seq![v] + values_from(d, skip_ws(d, e))
            } else {
                Seq::empty()
            },
            Err(_) => Seq::empty(),
        }
    } else {
        Seq::empty()
    }
}

/// What an incremental parser whose pending bytes are `buf` hands out when it is driven to
/// the end, each `Read` answered by the next of `chunks`, and by an empty chunk once they
/// run out: the steps that the contracts of `next_step` and `feed` allow.
pub open spec fn driven(chunks: Seq<Seq<u8>>, buf: Seq<u8>, eof: bool) -> Seq<SExp>
    decreases chunks.len(), if eof { 0int } else { 1int }, buf.len(),
{
    match parse_one(buf, 0) {
        Ok((v, e)) => if 0 < e <= buf.len() {
            proof {
                lemma_skip_from(buf, e, false);
            }
            seq![v] + driven(chunks, buf.subrange(skip_ws(buf, e), buf.len() as int), eof)
        } else {
            Seq::empty()
        },
        Err(_) => if eof {
            Seq::empty()
        } else if chunks.len() == 0 || chunks[0].len() == 0 {
            driven(chunks, buf, true)
        } else {
            driven(chunks.drop_first(), buf + chunks[0], false)
        },
    }
}

/// From `c` on, the document is a run of lists with nothing but whitespace around them.
pub open spec fn list_document(d: Seq<u8>, c: int) -> bool
    decreases d.len() - c,
{
    let g = skip_ws(d, c);
    &&& 0 <= c <= d.len()
    &&& forall|k: int| c <= k < g ==> is_ws(#[trigger] d[k])
    &&& g < d.len() ==> {
        &&& d[g] == LPAREN
        &&& parse_one(d, c) is Ok
        &&& c < parse_one(d, c)->Ok_0.1 <= d.len()
        &&& list_document(d, parse_one(d, c)->Ok_0.1)
    }
}

proof fn lemma_ws_run(buf: Seq<u8>, a: int, b: int)
    requires
        0 <= a <= b <= buf.len(),
        forall|k: int| a <= k < b ==> is_ws(#[trigger] buf[k]),
        b == buf.len() || (!is_ws(buf[b]) && buf[b] != SEMI),
    ensures
        skip_ws(buf, a) == b,
    decreases b - a,
{
    if a < b {
        lemma_ws_run(buf, a + 1, b);
    }
}

/// Starting anywhere inside the whitespace after a list changes nothing.
proof fn lemma_gap(d: Seq<u8>, e: int, c: int)
    requires
        list_document(d, e),
        e <= c <= skip_ws(d, e),
    ensures
        list_document(d, c),
        skip_ws(d, c) == skip_ws(d, e),
        values_from(d, c) == values_from(d, skip_ws(d, e)),
{
    let g = skip_ws(d, e);
    lemma_skip_from(d, e, false);
    assert(g == d.len() || d[g] == LPAREN);
    lemma_ws_run(d, c, g);
    lemma_ws_run(d, g, g);
    if g < d.len() {
        assert(parse_one(d, c) == parse_one(d, g));
        lemma_parse_at_advances(d, g);
    }
}

proof fn lemma_flatten_nonempty(chunks: Seq<Seq<u8>>)
    requires
        chunks.len() > 0,
    ensures
        chunks.flatten() == chunks[0] + chunks.drop_first().flatten(),
{
}

/// Appending the next chunk to the pending bytes extends them by the next bytes of the
/// document.
proof fn lemma_feed(d: Seq<u8>, chunks: Seq<Seq<u8>>, c: int, r: int)
    requires
        0 <= c <= r <= d.len(),
        chunks.len() > 0,
        chunks.flatten() == d.subrange(r, d.len() as int),
    ensures
        r + chunks[0].len() <= d.len(),
        d.subrange(c, r) + chunks[0] == d.subrange(c, r + chunks[0].len()),
        chunks.drop_first().flatten() == d.subrange(r + chunks[0].len(), d.len() as int),
{
    let f = chunks.flatten();
    let h = chunks[0];
    let t = chunks.drop_first().flatten();
    lemma_flatten_nonempty(chunks);
    assert(f == h + t);
    assert(f.len() == d.len() - r);
    let r2 = r + h.len();
    assert forall|k: int| 0 <= k < h.len() implies #[trigger] h[k] == d[r + k] by {
        assert(h[k] == f[k]);
        assert(f[k] == d.subrange(r, d.len() as int)[k]);
    }
    assert forall|k: int| 0 <= k < t.len() implies #[trigger] t[k] == d[r2 + k] by {
        assert(t[k] == f[h.len() + k]);
        assert(f[h.len() + k] == d.subrange(r, d.len() as int)[h.len() + k]);
    }
    assert(d.subrange(c, r) + h =~= d.subrange(c, r2));
    assert(t =~= d.subrange(r2, d.len() as int));
}

#[verifier::rlimit(100)]
#[verifier::spinoff_prover]
proof fn lemma_driven(d: Seq<u8>, chunks: Seq<Seq<u8>>, c: int, r: int, eof: bool)
    requires
        0 <= c <= r <= d.len(),
        list_document(d, c),
        chunks.flatten() == d.subrange(r, d.len() as int),
        forall|i: int| 0 <= i < chunks.len() ==> (#[trigger] chunks[i]).len() > 0,
        eof ==> r == d.len(),
    ensures
        driven(chunks, d.subrange(c, r), eof) == values_from(d, c),
    decreases chunks.len(), if eof { 0int } else { 1int }, r - c,
{
    let m = r - c;
    let rest = d.skip(c);
    let b = d.subrange(c, r);
    assert(b =~= rest.take(m));
    assert(d.take(c) + rest =~= d);
    lemma_parse_one_shift(d.take(c), rest, 0);
    lemma_skip_shift(d.take(c), rest, 0, false);
    lemma_skip_from(d, c, false);
    let g = skip_ws(d, c);
    if chunks.len() > 0 {
        lemma_flatten_nonempty(chunks);
    }
    if g == d.len() {
        assert forall|k: int| 0 <= k < m implies is_ws(#[trigger] b[k]) by {
            assert(b[k] == d[c + k]);
        }
        lemma_ws_run(b, 0, m);
        if !eof {
            if chunks.len() == 0 {
                lemma_driven(d, chunks, c, r, true);
            } else {
                let r2 = r + chunks[0].len();
                lemma_feed(d, chunks, c, r);
                lemma_driven(d, chunks.drop_first(), c, r2, false);
            }
        }
    } else {
        let e = parse_one(d, c)->Ok_0.1;
        let v = parse_one(d, c)->Ok_0.0;
        assert(rest[skip_ws(rest, 0)] == d[g]);
        lemma_incremental_step(rest, m);
        if m < e - c {
            if chunks.len() == 0 {
                assert(d.subrange(r, d.len() as int).len() == 0);
            }
            let r2 = r + chunks[0].len();
            lemma_feed(d, chunks, c, r);
            lemma_driven(d, chunks.drop_first(), c, r2, false);
        } else {
            assert(parse_one(b, 0) == Ok::<(SExp, int), ParseError>((v, e - c)));
            lemma_skip_from(d, e, false);
            let g2 = skip_ws(d, e);
            let s = skip_ws(b, e - c);
            assert(list_document(d, e));
            assert(forall|k: int| e <= k < g2 ==> is_ws(#[trigger] d[k]));
            if g2 <= r {
                assert forall|k: int| e - c <= k < g2 - c implies is_ws(#[trigger] b[k]) by {
                    assert(b[k] == d[c + k]);
                }
                if g2 < r {
                    assert(b[g2 - c] == d[g2]);
                }
                lemma_ws_run(b, e - c, g2 - c);
            } else {
                assert forall|k: int| e - c <= k < m implies is_ws(#[trigger] b[k]) by {
                    assert(b[k] == d[c + k]);
                }
                lemma_ws_run(b, e - c, m);
            }
            let c2 = c + s;
            assert(b.subrange(s, m) =~= d.subrange(c2, r));
            lemma_gap(d, e, c2);
            lemma_driven(d, chunks, c2, r, eof);
            assert(values_from(d, c) == seq![v] + values_from(d, g2));
        }
    }
}

/// Fed a document of lists with nothing but whitespace between them, cut into chunks of
/// any sizes, the incremental parser hands out the same values, in the same order, as
/// reading the whole document at once.
pub proof fn lemma_incremental_equivalence(chunks: Seq<Seq<u8>>)
    requires
        forall|i: int| 0 <= i < chunks.len() ==> (#[trigger] chunks[i]).len() > 0,
        list_document(chunks.flatten(), 0),
    ensures
        driven(chunks, Seq::empty(), false) == values_from(chunks.flatten(), 0),
{
    let d = chunks.flatten();
    assert(d.subrange(0, d.len() as int) =~= d);
    assert(d.subrange(0, 0) =~= Seq::<u8>::empty());
    lemma_driven(d, chunks, 0, 0, false);
}

} // verus!
