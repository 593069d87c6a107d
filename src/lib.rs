//! A codec for S-expressions: a parser that reads length-prefixed, quoted, hex, base64 and
//! bare atoms, an incremental parser for chunked input, and two serializers, one canonical
//! and one readable.
pub mod value;
pub mod grammar;
pub mod codec;
pub mod parser;
pub mod canonical;
pub mod advanced;
pub mod stream;
pub mod laws;
pub mod stream_laws;
