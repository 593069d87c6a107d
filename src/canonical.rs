//! The canonical form: length-prefixed atoms only, no whitespace but the single space
//! between list items.
use crate::grammar::{COLON, LPAREN, RPAREN, SPACE};
use crate::value::{SExp, Value};
use vstd::prelude::*;
use vstd::utf8::encode_utf8;

verus! {

broadcast use {vstd::seq::axiom_seq_index_decreases, vstd::std_specs::vec::group_vec_axioms};

/// The decimal digits of `n`, most significant first, with no leading zero.
pub open spec fn decimal_text(n: nat) -> Seq<u8>
    decreases n,
{
    if n < 10 {
        seq![(48 + n) as u8]
    } else {
        decimal_text(n / 10).push((48 + n % 10) as u8)
    }
}

/// `parts` with `sep` between each two.
pub open spec fn joined<A>(parts: Seq<Seq<A>>, sep: A) -> Seq<A>
    decreases parts.len(),
{
    if parts.len() == 0 {
        Seq::empty()
    } else if parts.len() == 1 {
        parts[0]
    } else {
        joined(parts.drop_last(), sep) + seq![sep] + parts.last()
    }
}

/// A length-prefixed atom: decimal length, a colon, the bytes.
pub open spec fn netstring(b: Seq<u8>) -> Seq<u8> {
    decimal_text(b.len()) + seq![COLON] + b
}

/// The canonical bytes of a tree.
pub open spec fn canonical(v: SExp) -> Seq<u8>
    decreases v,
{
    match v {
        SExp::List(items) => seq![LPAREN] + joined(canonical_parts(items), SPACE) + seq![RPAREN],
        SExp::Text(s) => netstring(encode_utf8(s)),
        SExp::Bytes(b) => netstring(b),
    }
}

/// The canonical renderings of the items of a list.
pub open spec fn canonical_parts(items: Seq<SExp>) -> Seq<Seq<u8>>
    decreases items,
{
    Seq::new(
        items.len(),
        |i: int|
            if 0 <= i < items.len() {
                canonical(items[i])
            } else {
                Seq::empty()
            },
    )
}

/// Writes the decimal digits of `n` after `out`.
fn push_decimal(n: usize, out: &mut Vec<u8>)
    ensures
        final(out)@ == old(out)@ + decimal_text(n as nat),
    decreases n,
{
    if n < 10 {
        out.push(48 + n as u8);
    } else {
        push_decimal(n / 10, out);
        out.push(48 + (n % 10) as u8);
    }
}

pub(crate) fn push_bytes(b: &[u8], out: &mut Vec<u8>)
    ensures
        final(out)@ == old(out)@ + b@,
{
    let mut i: usize = 0;
    assert(out@ =~= old(out)@ + b@.subrange(0, 0));
    while i < b.len()
        invariant
            i <= b@.len(),
            out@ == old(out)@ + b@.subrange(0, i as int),
        decreases b@.len() - i,
    {
        out.push(b[i]);
        i += 1;
        assert(out@ =~= old(out)@ + b@.subrange(0, i as int));
    }
    assert(b@.subrange(0, b@.len() as int) =~= b@);
}

/// Appends the canonical bytes of `v` to `out`.
pub fn write_canonical(v: &Value, out: &mut Vec<u8>)
    ensures
        final(out)@ == old(out)@ + canonical(v@),
    decreases v,
{
    match v {
        Value::List(items) => {
            out.push(LPAREN);
            let ghost parts = canonical_parts(v@->List_0);
            assert(joined(parts.subrange(0, 0), SPACE) =~= Seq::<u8>::empty());
            assert(out@ =~= old(out)@ + seq![LPAREN] + joined(parts.subrange(0, 0), SPACE));
            let mut i: usize = 0;
            while i < items.len()
                invariant
                    i <= items@.len(),
                    *v == Value::List(*items),
                    parts == canonical_parts(v@->List_0),
                    parts.len() == items@.len(),
                    forall|j: int| 0 <= j < items@.len() ==> parts[j] == canonical(#[trigger] items@[j]@),
                    out@ == old(out)@ + seq![LPAREN] + joined(parts.subrange(0, i as int), SPACE),
                decreases items@.len() - i,
            {
                let ghost before = out@;
                if i > 0 {
                    out.push(SPACE);
                }
                proof {
                    assert(decreases_to!(*items => items[i as int]));
                }
                write_canonical(&items[i], out);
                proof {
                    let done = parts.subrange(0, i as int);
                    let next = parts.subrange(0, i + 1);
                    assert(next.drop_last() =~= done);
                    if i == 0 {
                        assert(joined(next, SPACE) == parts[0]);
                    }
                    assert(out@ =~= old(out)@ + seq![LPAREN] + joined(next, SPACE));
                }
                i += 1;
            }
            out.push(RPAREN);
            assert(parts.subrange(0, items@.len() as int) =~= parts);
            assert(canonical(v@) == seq![LPAREN] + joined(parts, SPACE) + seq![RPAREN]);
        },
        Value::Text(s) => {
            let b = s.as_str().as_bytes();
            push_decimal(b.len(), out);
            out.push(COLON);
            push_bytes(b, out);
        },
        Value::Bytes(b) => {
            push_decimal(b.len(), out);
            out.push(COLON);
            push_bytes(b.as_slice(), out);
        },
    }
}

/// The canonical bytes of `v`: the same tree always gives the same bytes.
pub fn serialize_canonical(v: &Value) -> (r: Vec<u8>)
    ensures
        r@ == canonical(v@),
{
    let mut out: Vec<u8> = Vec::new();
    write_canonical(v, &mut out);
    assert(out@ =~= canonical(v@));
    out
}

} // verus!
