use sexp_native::advanced::serialize_advanced;
use sexp_native::canonical::serialize_canonical;
use sexp_native::grammar::ParseError;
use sexp_native::parser::{parse, parse_one, skip_ws};
use sexp_native::stream::{parse_chunks, IterParser, Step};
use sexp_native::value::Value;

fn bytes(b: &[u8]) -> Value {
    Value::Bytes(b.to_vec())
}

fn text(s: &str) -> Value {
    Value::Text(s.to_string())
}

/// Parses every top-level value of a whole document, in order.
fn parse_document(doc: &[u8]) -> Vec<Value> {
    let mut out = Vec::new();
    let mut pos = skip_ws(doc, 0);
    while pos < doc.len() {
        let (v, end) = parse_one(doc, pos).expect("document parses");
        out.push(v);
        pos = skip_ws(doc, end);
    }
    out
}

/// Runs the incremental parser over `doc` cut into chunks of `size` bytes.
fn parse_chunked(doc: &[u8], size: usize) -> Vec<Value> {
    let mut chunks = doc.chunks(size);
    let mut p = IterParser::new();
    let mut out = Vec::new();
    loop {
        match p.next_step() {
            Step::Yield(v) => out.push(v),
            Step::Read => p.feed(chunks.next().unwrap_or(&[])),
            Step::End => return out,
        }
    }
}

#[test]
fn length_prefix_exact() {
    assert_eq!(parse(b"5:hello"), Ok(bytes(b"hello")));
    assert_eq!(parse(b"0:"), Ok(bytes(b"")));
    assert_eq!(parse(b"3:he"), Err(ParseError::Incomplete));
}

#[test]
fn length_prefix_binary_content() {
    assert_eq!(parse(b"3:a b"), Ok(bytes(b"a b")));
    assert_eq!(parse(b"2:()"), Ok(bytes(b"()")));
}

#[test]
fn length_overflow_is_malformed() {
    assert_eq!(parse(b"99999999999999999999999999:x"), Err(ParseError::Malformed));
}

#[test]
fn list_nesting() {
    let expected = Value::List(vec![bytes(b"a"), Value::List(vec![bytes(b"bc")]), bytes(b"d")]);
    assert_eq!(parse(b"(1:a (2:bc) 1:d)"), Ok(expected));
}

#[test]
fn empty_list() {
    assert_eq!(parse(b"()"), Ok(Value::List(vec![])));
    assert_eq!(parse(b"( ; nothing\n )"), Ok(Value::List(vec![])));
}

#[test]
fn unclosed_list_is_incomplete() {
    assert_eq!(parse(b"(1:a 1:b"), Err(ParseError::Incomplete));
}

#[test]
fn hex_and_base64_atoms() {
    assert_eq!(parse(b"#68656c6c6f#"), Ok(bytes(b"hello")));
    assert_eq!(parse(b"#68656C6C6F#"), Ok(bytes(b"hello")));
    assert_eq!(parse(b"|aGVsbG8=|"), Ok(bytes(b"hello")));
}

#[test]
fn bad_hex_and_base64() {
    assert_eq!(parse(b"#6g#"), Err(ParseError::Malformed));
    assert_eq!(parse(b"#686#"), Err(ParseError::Malformed));
    assert_eq!(parse(b"|a$==|"), Err(ParseError::Malformed));
    assert_eq!(parse(b"#6865"), Err(ParseError::Incomplete));
    assert_eq!(parse(b"|aGVs"), Err(ParseError::Incomplete));
}

#[test]
fn escape_handling() {
    assert_eq!(parse(b"\"a\\nb\\x41\""), Ok(text("a\nbA")));
    assert_eq!(parse(b"\"q\\\"b\\\\c\\r\\t\""), Ok(text("q\"b\\c\r\t")));
}

#[test]
fn bad_escapes() {
    assert_eq!(parse(b"\"a\\qb\""), Err(ParseError::Malformed));
    assert_eq!(parse(b"\"\\xzz\""), Err(ParseError::Malformed));
    assert_eq!(parse(b"\"\\xff\""), Err(ParseError::Malformed));
    assert_eq!(parse(b"\"abc"), Err(ParseError::Incomplete));
    assert_eq!(parse(b"\"\\x4"), Err(ParseError::Incomplete));
}

#[test]
fn comment_skipping() {
    assert_eq!(parse(b"; comment\n(1:a)"), parse(b"(1:a)"));
    assert_eq!(parse(b"(1:a)"), Ok(Value::List(vec![bytes(b"a")])));
}

#[test]
fn bare_symbols() {
    assert_eq!(parse(b"hello world"), Ok(text("hello")));
    assert_eq!(parse(b"12abc"), Ok(text("12abc")));
    assert_eq!(parse(b"12"), Ok(text("12")));
    assert_eq!(parse(b"(a b)"), Ok(Value::List(vec![text("a"), text("b")])));
    assert_eq!(parse(b"\xff\xfe"), Ok(bytes(b"\xff\xfe")));
}

#[test]
fn unexpected_and_empty_input() {
    assert_eq!(parse(b")"), Err(ParseError::Malformed));
    assert_eq!(parse(b""), Err(ParseError::Incomplete));
    assert_eq!(parse(b"  ; only a comment"), Err(ParseError::Incomplete));
}

#[test]
fn parse_one_reports_end() {
    assert_eq!(parse_one(b"  (1:a) rest", 0), Ok((Value::List(vec![bytes(b"a")]), 7)));
    assert_eq!(skip_ws(b"(1:a) ; c\n  x", 5), 12);
}

#[test]
fn canonical_form() {
    let v = Value::List(vec![text("ab"), bytes(b""), Value::List(vec![bytes(b"xyz")])]);
    assert_eq!(serialize_canonical(&v), b"(2:ab 0: (3:xyz))".to_vec());
    assert_eq!(serialize_canonical(&text("\u{e9}")), b"2:\xc3\xa9".to_vec());
    let long = bytes(&[7u8; 12]);
    assert_eq!(&serialize_canonical(&long)[..3], b"12:");
}

#[test]
fn canonical_round_trip() {
    let v = Value::List(vec![text("hello"), bytes(b"\x00\x01"), Value::List(vec![]), text("a b")]);
    let back = parse(&serialize_canonical(&v)).unwrap();
    let erased = Value::List(vec![bytes(b"hello"), bytes(b"\x00\x01"), Value::List(vec![]), bytes(b"a b")]);
    assert_eq!(back, erased);
}

#[test]
fn canonical_determinism() {
    let a = parse(b"(hello \"a b\" #00ff#)").unwrap();
    let b = parse(b"(5:hello 3:a b |AP8=|)").unwrap();
    assert_eq!(serialize_canonical(&a), serialize_canonical(&a));
    assert_eq!(serialize_canonical(&a), serialize_canonical(&b));
}

#[test]
fn advanced_round_trip_safe_symbol() {
    let v = text("hello-world");
    let out = serialize_advanced(&v);
    assert_eq!(out, "hello-world");
    assert_eq!(parse(out.as_bytes()), Ok(v));
}

#[test]
fn advanced_quotes_unsafe_text() {
    assert_eq!(serialize_advanced(&text("a b")), "\"a b\"");
    assert_eq!(serialize_advanced(&text("")), "\"\"");
    assert_eq!(serialize_advanced(&text("x\"y\\z\n")), "\"x\\\"y\\\\z\\n\"");
    let v = text("tab\there");
    assert_eq!(parse(serialize_advanced(&v).as_bytes()), Ok(v));
}

#[test]
fn advanced_printable_bytes_quoted() {
    assert_eq!(serialize_advanced(&bytes(b"hello")), "\"hello\"");
    assert_eq!(serialize_advanced(&Value::List(vec![bytes(b"a"), text("b")])), "(\"a\" b)");
}

#[test]
fn threshold_boundary() {
    let short = serialize_advanced(&bytes(&[0xffu8; 47]));
    assert!(short.starts_with('#') && short.ends_with('#'));
    assert_eq!(short.len(), 2 + 94);
    let long = serialize_advanced(&bytes(&[0xffu8; 48]));
    assert!(long.starts_with('|') && long.ends_with('|'));
    assert_eq!(long.len(), 2 + 64);
}

#[test]
fn advanced_hex_and_base64_text() {
    assert_eq!(serialize_advanced(&bytes(&[0x00, 0xab, 0x10])), "#00ab10#");
    let zeros = serialize_advanced(&bytes(&[0u8; 48]));
    assert_eq!(zeros, format!("|{}|", "A".repeat(64)));
    assert_eq!(parse(zeros.as_bytes()), Ok(bytes(&[0u8; 48])));
}

#[test]
fn incremental_equivalence() {
    let doc: &[u8] = b"(1:a (2:bc) 1:d) \n(\"x y\" ; note\n #00ff#)\n(|aGVsbG8=| (sym))  ";
    let whole = parse_document(doc);
    assert_eq!(whole.len(), 3);
    for size in [1usize, 2, 3, 7, 64, 65536] {
        assert_eq!(parse_chunked(doc, size), whole);
    }
}

#[test]
fn incremental_comments_between_values() {
    let doc: &[u8] = b"(1:a) ; note\n(1:b)";
    assert_eq!(parse_chunked(doc, 65536), parse_document(doc));
}

#[test]
fn incremental_stops_on_malformed_tail() {
    let doc: &[u8] = b"(1:a) )";
    assert_eq!(parse_chunked(doc, 65536), vec![Value::List(vec![bytes(b"a")])]);
}

#[test]
fn incremental_empty_source() {
    assert_eq!(parse_chunked(b"", 4), Vec::<Value>::new());
}

#[test]
fn value_inspection() {
    assert!(Value::List(vec![]).is_list());
    assert!(text("a").is_text());
    assert!(bytes(b"a").is_bytes());
    assert!(!bytes(b"a").is_text());
}

#[test]
fn advanced_symbol_with_length_prefix_shape() {
    let v = text("3:abc");
    let out = serialize_advanced(&v);
    assert_eq!(out, "3:abc");
    assert_eq!(parse(out.as_bytes()), Ok(bytes(b"abc")));
}

#[test]
fn symbol_split_between_chunks() {
    assert_eq!(parse_chunked(b"(ab) ", 1), vec![Value::List(vec![text("ab")])]);
}

#[test]
fn chunk_driver_matches_whole_document() {
    let doc: &[u8] = b"(1:a (2:bc) 1:d)\n  (\"x y\" #00ff#) (|aGVsbG8=| (sym)) ";
    let whole = parse_document(doc);
    for size in [1usize, 4, 5, 100] {
        let chunks: Vec<Vec<u8>> = doc.chunks(size).map(|c| c.to_vec()).collect();
        assert_eq!(parse_chunks(&chunks), whole);
    }
    assert_eq!(parse_chunks(&vec![]), Vec::<Value>::new());
}
