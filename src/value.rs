//! The tree that the parser builds and the serializers take.
use vstd::prelude::*;

verus! {

/// The mathematical form of a tree: lists of trees, text atoms, byte atoms.
pub enum SExp {
    List(Seq<SExp>),
    Text(Seq<char>),
    Bytes(Seq<u8>),
}

/// A parsed or to-be-serialized node.
#[derive(Debug, PartialEq, Eq)]
pub enum Value {
    /// An ordered list of nodes.
    List(Vec<Value>),
    /// A text atom.
    Text(String),
    /// A raw byte atom.
    Bytes(Vec<u8>),
}

impl View for Value {
    type V = SExp;

    open spec fn view(&self) -> SExp
        decreases self,
    {
        match self {
            Value::List(items) => SExp::List(
                Seq::new(
                    items.len() as nat,
                    |i: int|
                        if 0 <= i < items.len() {
                            items[i]@
                        } else {
                            SExp::List(Seq::empty())
                        },
                ),
            ),
            Value::Text(s) => SExp::Text(s@),
            Value::Bytes(b) => SExp::Bytes(b@),
        }
    }
}

impl Value {
    pub fn is_list(&self) -> (r: bool)
        ensures
            r == (self@ is List),
    {
        match self {
            Value::List(_) => true,
            _ => false,
        }
    }

    pub fn is_text(&self) -> (r: bool)
        ensures
            r == (self@ is Text),
    {
        match self {
            Value::Text(_) => true,
            _ => false,
        }
    }

    pub fn is_bytes(&self) -> (r: bool)
        ensures
            r == (self@ is Bytes),
    {
        match self {
            Value::Bytes(_) => true,
            _ => false,
        }
    }
}

} // verus!
