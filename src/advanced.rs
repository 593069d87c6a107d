//! The readable form: each atom in the plainest of bare, quoted, hex or base64 syntax.
use crate::canonical::joined;
use crate::codec::{
    base64_text, encodable_len, encode_base64, encode_hex, hex_text, push_char, utf8_str,
};
use crate::value::{SExp, Value};
use vstd::prelude::*;
use vstd::string::StringExecFns;
use vstd::utf8::{decode_utf8, valid_utf8};

verus! {

broadcast use {vstd::seq::axiom_seq_index_decreases, vstd::std_specs::vec::group_vec_axioms};

/// Byte atoms shorter than this that are not printable text are written in hex; longer
/// ones in base64.
pub const HEX_LIMIT: usize = 48;

/// Characters that end a bare symbol.
pub open spec fn is_delim_char(c: char) -> bool {
    c == '(' || c == ')' || c == '"' || c == '|' || c == '#' || c == ';' || c == ' ' || c == '\t'
        || c == '\r' || c == '\n'
}

/// Text that can stand bare: not empty, and no delimiter in it.
pub open spec fn is_symbol(s: Seq<char>) -> bool {
    s.len() > 0 && forall|i: int| 0 <= i < s.len() ==> !is_delim_char(#[trigger] s[i])
}

/// Control characters (general category Cc).
pub open spec fn is_control(c: char) -> bool {
    (c as u32) < 32 || (127 <= (c as u32) && (c as u32) <= 159)
}

/// Bytes that read as UTF-8 text with no quote, backslash or control character.
pub open spec fn is_printable(b: Seq<u8>) -> bool {
    valid_utf8(b) && forall|i: int|
        0 <= i < decode_utf8(b).len() ==> {
            let c = #[trigger] decode_utf8(b)[i];
            c != '"' && c != '\\' && !is_control(c)
        }
}

pub open spec fn escape_char(c: char) -> Seq<char> {
    if c == '\\' {
        seq!['\\', '\\']
    } else if c == '"' {
        seq!['\\', '"']
    } else if c == '\n' {
        seq!['\\', 'n']
    } else if c == '\r' {
        seq!['\\', 'r']
    } else if c == '\t' {
        seq!['\\', 't']
    } else {
        seq![c]
    }
}

/// `s` with backslash, quote, newline, return and tab escaped.
pub open spec fn escaped(s: Seq<char>) -> Seq<char>
    decreases s.len(),
{
    if s.len() == 0 {
        Seq::empty()
    } else {
        escaped(s.drop_last()) + escape_char(s.last())
    }
}

pub open spec fn quoted(s: Seq<char>) -> Seq<char> {
    seq!['"'] + escaped(s) + seq!['"']
}

/// How a byte atom is written: quoted text where printable, else hex when short,
/// else base64.
pub open spec fn advanced_bytes(b: Seq<u8>) -> Seq<char> {
    if is_printable(b) {
        quoted(decode_utf8(b))
    } else if b.len() < HEX_LIMIT {
        seq!['#'] + hex_text(b) + seq!['#']
    } else {
        seq!['|'] + base64_text(b) + seq!['|']
    }
}

/// The readable text of a tree.
pub open spec fn advanced(v: SExp) -> Seq<char>
    decreases v,
{
    match v {
        SExp::List(items) => seq!['('] + joined(advanced_parts(items), ' ') + seq![')'],
        SExp::Text(s) => if is_symbol(s) {
            s
        } else {
            quoted(s)
        },
        SExp::Bytes(b) => advanced_bytes(b),
    }
}

pub open spec fn advanced_parts(items: Seq<SExp>) -> Seq<Seq<char>>
    decreases items,
{
    Seq::new(
        items.len(),
        |i: int|
            if 0 <= i < items.len() {
                advanced(items[i])
            } else {
                Seq::empty()
            },
    )
}

/// Every byte atom of the tree is small enough to be written out in hex or base64.
pub open spec fn atoms_fit(v: SExp) -> bool
    decreases v,
{
    match v {
        SExp::List(items) => forall|i: int| 0 <= i < items.len() ==> atoms_fit(#[trigger] items[i]),
        SExp::Text(_) => true,
        SExp::Bytes(b) => encodable_len(b.len() as int),
    }
}

fn is_delim_character(c: char) -> (r: bool)
    ensures
        r == is_delim_char(c),
{
    c == '(' || c == ')' || c == '"' || c == '|' || c == '#' || c == ';' || c == ' ' || c == '\t'
        || c == '\r' || c == '\n'
}

/// Whether `s` can be written bare.
pub fn is_symbol_text(s: &str) -> (r: bool)
    ensures
        r == is_symbol(s@),
{
    let mut seen = false;
    for c in it: s.chars()
        invariant
            it.seq() == s@,
            seen == (it.index() > 0),
            forall|j: int| 0 <= j < it.index() ==> !is_delim_char(#[trigger] s@[j]),
    {
        if is_delim_character(c) {
            return false;
        }
        seen = true;
    }
    seen
}

fn is_plain_char(c: char) -> (r: bool)
    ensures
        r == (c != '"' && c != '\\' && !is_control(c)),
{
    let k = c as u32;
    !(c == '"' || c == '\\' || k < 32 || (127 <= k && k <= 159))
}

/// Whether `b` can be written as quoted text without escapes.
pub fn looks_printable(b: &[u8]) -> (r: bool)
    ensures
        r == is_printable(b@),
{
    match utf8_str(b) {
        None => false,
        Some(t) => {
            for c in it: t.chars()
                invariant
                    it.seq() == t@,
                    t@ == decode_utf8(b@),
                    forall|j: int|
                        0 <= j < it.index() ==> {
                            let c = #[trigger] t@[j];
                            c != '"' && c != '\\' && !is_control(c)
                        },
            {
                if !is_plain_char(c) {
                    return false;
                }
            }
            true
        },
    }
}

/// Appends `s` with its special characters escaped.
pub fn write_escaped(s: &str, out: &mut String)
    ensures
        final(out)@ == old(out)@ + escaped(s@),
{
    for c in it: s.chars()
        invariant
            it.seq() == s@,
            out@ == old(out)@ + escaped(s@.take(it.index() as int)),
    {
        let ghost before = out@;
        let ghost i = it.index() as int;
        proof {
            reveal_strlit("\\\\");
            reveal_strlit("\\\"");
            reveal_strlit("\\n");
            reveal_strlit("\\r");
            reveal_strlit("\\t");
        }
        if c == '\\' {
            out.append("\\\\");
        } else if c == '"' {
            out.append("\\\"");
        } else if c == '\n' {
            out.append("\\n");
        } else if c == '\r' {
            out.append("\\r");
        } else if c == '\t' {
            out.append("\\t");
        } else {
            push_char(out, c);
        }
        proof {
            assert(s@.take(i + 1).drop_last() =~= s@.take(i));
            assert(out@ =~= before + escape_char(c));
        }
    }
    assert(s@.take(s@.len() as int) =~= s@);
}

fn write_quoted(s: &str, out: &mut String)
    ensures
        final(out)@ == old(out)@ + quoted(s@),
{
    proof {
        reveal_strlit("\"");
    }
    out.append("\"");
    write_escaped(s, out);
    out.append("\"");
    assert(out@ =~= old(out)@ + quoted(s@));
}

/// Appends a hex or base64 atom between its delimiters.
fn write_binary(b: &[u8], out: &mut String)
    requires
        encodable_len(b@.len() as int),
        !is_printable(b@),
    ensures
        final(out)@ == old(out)@ + advanced_bytes(b@),
{
    if b.len() < HEX_LIMIT {
        proof {
            reveal_strlit("#");
        }
        let enc = encode_hex(b);
        out.append("#");
        out.append(enc.as_str());
        out.append("#");
    } else {
        proof {
            reveal_strlit("|");
        }
        let enc = encode_base64(b);
        out.append("|");
        out.append(enc.as_str());
        out.append("|");
    }
    assert(out@ =~= old(out)@ + advanced_bytes(b@));
}

/// Appends the readable text of `v` to `out`.
pub fn write_advanced(v: &Value, out: &mut String)
    requires
        atoms_fit(v@),
    ensures
        final(out)@ == old(out)@ + advanced(v@),
    decreases v,
{
    match v {
        Value::List(items) => {
            proof {
                reveal_strlit("(");
                reveal_strlit(")");
                reveal_strlit(" ");
            }
            out.append("(");
            let ghost parts = advanced_parts(v@->List_0);
            assert(joined(parts.subrange(0, 0), ' ') =~= Seq::<char>::empty());
            assert(out@ =~= old(out)@ + seq!['('] + joined(parts.subrange(0, 0), ' '));
            let mut i: usize = 0;
            while i < items.len()
                invariant
                    i <= items@.len(),
                    *v == Value::List(*items),
                    atoms_fit(v@),
                    parts == advanced_parts(v@->List_0),
                    parts.len() == items@.len(),
                    forall|j: int| 0 <= j < items@.len() ==> parts[j] == advanced(#[trigger] items@[j]@),
                    out@ == old(out)@ + seq!['('] + joined(parts.subrange(0, i as int), ' '),
                decreases items@.len() - i,
            {
                let ghost before = out@;
                proof {
                    reveal_strlit(" ");
                }
                if i > 0 {
                    out.append(" ");
                }
                proof {
                    assert(decreases_to!(*items => items[i as int]));
                    assert(v@->List_0[i as int] == items@[i as int]@);
                }
                write_advanced(&items[i], out);
                proof {
                    let done = parts.subrange(0, i as int);
                    let next = parts.subrange(0, i + 1);
                    assert(next.drop_last() =~= done);
                    if i == 0 {
                        assert(joined(next, ' ') == parts[0]);
                    }
                    assert(out@ =~= old(out)@ + seq!['('] + joined(next, ' '));
                }
                i += 1;
            }
            out.append(")");
            assert(parts.subrange(0, items@.len() as int) =~= parts);
            assert(out@ =~= old(out)@ + advanced(v@));
        },
        Value::Text(s) => {
            if is_symbol_text(s.as_str()) {
                out.append(s.as_str());
            } else {
                write_quoted(s.as_str(), out);
            }
        },
        Value::Bytes(b) => {
            if looks_printable(b.as_slice()) {
                match utf8_str(b.as_slice()) {
                    Some(t) => write_quoted(t, out),
                    None => {},
                }
            } else {
                write_binary(b.as_slice(), out);
            }
        },
    }
}

/// The readable text of `v`.
pub fn serialize_advanced(v: &Value) -> (r: String)
    requires
        atoms_fit(v@),
    ensures
        r@ == advanced(v@),
{
    let mut out = String::new();
    write_advanced(v, &mut out);
    assert(out@ =~= advanced(v@));
    out
}

} // verus!
