//! Incremental parsing: values taken one at a time out of a buffer that grows by chunks.
use crate::canonical::push_bytes;
use crate::grammar::{lemma_skip_from, parse_one, skip_ws};
use crate::laws::lemma_parse_at_advances;
use crate::parser::{self, views};
use crate::stream_laws::driven;
use crate::value::{SExp, Value};
use vstd::prelude::*;

verus! {

/// How many bytes to ask the source for at each refill.
pub const CHUNK_SIZE: usize = 65536;

/// What the driver of an [`IterParser`] is to do next.
pub enum Step {
    /// A value was complete: hand it out.
    Yield(Value),
    /// No value can be taken yet: read a chunk of at most `CHUNK_SIZE` bytes and `feed` it.
    Read,
    /// The source is exhausted and nothing more parses: the sequence is over.
    End,
}

/// The state of an incremental parse: the bytes not consumed yet, and whether the
/// source has signalled its end.
pub struct IterParser {
    buf: Vec<u8>,
    eof: bool,
}

impl IterParser {
    /// The bytes received and not yet consumed.
    pub closed spec fn pending(&self) -> Seq<u8> {
        self.buf@
    }

    /// Whether the source has signalled its end.
    pub closed spec fn exhausted(&self) -> bool {
        self.eof
    }

    pub fn new() -> (r: IterParser)
        ensures
            r.pending() == Seq::<u8>::empty(),
            !r.exhausted(),
    {
        IterParser { buf: Vec::new(), eof: false }
    }

    /// Tries to take one value off the front of the pending bytes. On success the value
    /// and the whitespace and comments after it are consumed. Otherwise nothing changes,
    /// and an incomplete value and a malformed one are alike: more is read while the
    /// source lasts, and after its end the sequence is over.
    pub fn next_step(&mut self) -> (r: Step)
        ensures
            match parse_one(old(self).pending(), 0) {
                Ok((v, e)) => {
                    &&& r matches Step::Yield(x) && x@ == v
                    &&& final(self).pending() == old(self).pending().subrange(
                        skip_ws(old(self).pending(), e),
                        old(self).pending().len() as int,
                    )
                    &&& final(self).exhausted() == old(self).exhausted()
                },
                Err(_) => {
                    &&& if old(self).exhausted() {
                        r is End
                    } else {
                        r is Read
                    }
                    &&& final(self).pending() == old(self).pending()
                    &&& final(self).exhausted() == old(self).exhausted()
                },
            },
    {
        match parser::parse_one(self.buf.as_slice(), 0) {
            Ok((v, e)) => {
                let rest = parser::skip_ws(self.buf.as_slice(), e);
                let tail = self.buf.split_off(rest);
                self.buf = tail;
                Step::Yield(v)
            },
            Err(_) => {
                if self.eof {
                    Step::End
                } else {
                    Step::Read
                }
            },
        }
    }

    /// Adds a chunk read from the source; an empty chunk marks the source as exhausted.
    pub fn feed(&mut self, chunk: &[u8])
        ensures
            chunk@.len() == 0 ==> final(self).pending() == old(self).pending()
                && final(self).exhausted(),
            chunk@.len() > 0 ==> final(self).pending() == old(self).pending() + chunk@
                && final(self).exhausted() == old(self).exhausted(),
    {
        if chunk.len() == 0 {
            self.eof = true;
        } else {
            push_bytes(chunk, &mut self.buf);
        }
    }
}

/// The bytes of each chunk.
pub open spec fn chunk_views(chunks: Seq<Vec<u8>>) -> Seq<Seq<u8>> {
    chunks.map_values(|c: Vec<u8>| c@)
}

/// Runs an incremental parser over input delivered as `chunks`, one chunk per read and an
/// empty read after the last, and collects every value it hands out.
pub fn parse_chunks(chunks: &Vec<Vec<u8>>) -> (r: Vec<Value>)
    ensures
        views(r@) == driven(chunk_views(chunks@), Seq::empty(), false),
{
    let ghost all = chunk_views(chunks@);
    let mut p = IterParser::new();
    let mut out: Vec<Value> = Vec::new();
    let mut i: usize = 0;
    assert(views(out@) =~= Seq::<SExp>::empty());
    assert(all.skip(0) =~= all);
    loop
        invariant
            i <= chunks@.len(),
            all == chunk_views(chunks@),
            views(out@) + driven(all.skip(i as int), p.pending(), p.exhausted()) == driven(
                all,
                Seq::empty(),
                false,
            ),
        decreases chunks@.len() - i, if p.exhausted() { 0int } else { 1int }, p.pending().len(),
    {
        let ghost before = p;
        let ghost rest = all.skip(i as int);
        match p.next_step() {
            Step::Yield(v) => {
                proof {
                    let b = before.pending();
                    lemma_skip_from(b, 0, false);
                    lemma_parse_at_advances(b, skip_ws(b, 0));
                    let e = parse_one(b, 0)->Ok_0.1;
                    lemma_skip_from(b, e, false);
                    assert(views(out@.push(v)) =~= views(out@).push(v@));
                }
                out.push(v);
            },
            Step::End => {
                assert(views(out@) + Seq::<SExp>::empty() =~= views(out@));
                return out;
            },
            Step::Read => {
                if i < chunks.len() {
                    let chunk = chunks[i].as_slice();
                    p.feed(chunk);
                    if chunk.len() > 0 {
                        assert(rest.drop_first() =~= all.skip(i + 1));
                        i += 1;
                    }
                } else {
                    p.feed(&[]);
                }
            },
        }
    }
}

} // verus!
