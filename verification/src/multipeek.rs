//! The lookahead cursor: peek ahead by any distance without consuming,
//! backed by a FIFO cache over an owned token sequence.

use std::collections::VecDeque;
use vstd::prelude::*;

use crate::token::{clone_token, seq_model, Token, TokenM};

verus! {

broadcast use vstd::std_specs::vec::group_vec_axioms, vstd::seq::group_seq_axioms;

/// Wraps an owned token sequence and exposes peek-ahead-by-N without
/// consuming. `pos` is how far the underlying sequence has been advanced;
/// tokens pulled but not yet consumed sit in the FIFO `buffer`.
pub struct Multipeek {
    src: Vec<Token>,
    pos: usize,
    buffer: VecDeque<Token>,
}

/// Builds a cursor over the given token sequence.
pub fn multipeek(src: Vec<Token>) -> (r: Multipeek)
    ensures
        r.wf(),
        r.stream() == seq_model(src@),
        r.consumed() == 0,
        r.cached() == 0,
{
    Multipeek::new(src)
}

impl Multipeek {
    /// The model of the whole underlying sequence, consumed part included.
    pub closed spec fn source(self) -> Seq<TokenM> {
        seq_model(self.src@)
    }

    /// How many tokens have been consumed so far.
    pub closed spec fn consumed(self) -> int {
        self.pos - self.buffer@.len()
    }

    /// How many tokens sit in the lookahead cache.
    pub closed spec fn cached(self) -> int {
        self.buffer@.len() as int
    }

    /// The cache is a copy of the tokens between the consumed prefix and the
    /// point to which the underlying sequence has been advanced.
    pub closed spec fn wf(self) -> bool {
        &&& self.pos <= self.src@.len()
        &&& self.buffer@.len() <= self.pos
        &&& seq_model(self.buffer@) == self.source().subrange(self.consumed(), self.pos as int)
    }

    /// The tokens not yet consumed, in order.
    pub open spec fn stream(self) -> Seq<TokenM> {
        self.source().skip(self.consumed())
    }

    pub fn new(src: Vec<Token>) -> (r: Multipeek)
        ensures
            r.wf(),
            r.stream() == seq_model(src@),
            r.consumed() == 0,
            r.cached() == 0,
    {
        let r = Multipeek { src, pos: 0, buffer: VecDeque::new() };
        proof {
            assert(seq_model(r.buffer@) =~= r.source().subrange(0, 0));
            assert(r.stream() =~= r.source());
        }
        r
    }

    /// Peek at the next token without consuming it.
    pub fn peek(&mut self) -> (r: Option<Token>)
        requires
            old(self).wf(),
        ensures
            final(self).wf(),
            final(self).source() == old(self).source(),
            final(self).consumed() == old(self).consumed(),
            final(self).stream() == old(self).stream(),
            final(self).cached() == if old(self).stream().len() == 0 {
                0
            } else if old(self).cached() >= 1 {
                old(self).cached()
            } else {
                1
            },
            match r {
                Some(t) => old(self).stream().len() > 0 && t.deep_view() == old(self).stream()[0],
                None => old(self).stream().len() == 0,
            },
    {
        self.peek_nth(0)
    }

    /// Peek `ahead` tokens past the next one without consuming anything.
    ///
    /// If `ahead` falls inside the already-buffered prefix the cache is left
    /// as it is; otherwise the underlying sequence is advanced, one token at
    /// a time, until the cache reaches depth `ahead + 1` or the sequence is
    /// exhausted.
    #[verifier::loop_isolation(false)]
    pub fn peek_nth(&mut self, ahead: usize) -> (r: Option<Token>)
        requires
            old(self).wf(),
        ensures
            final(self).wf(),
            final(self).source() == old(self).source(),
            final(self).consumed() == old(self).consumed(),
            final(self).stream() == old(self).stream(),
            final(self).cached() == if ahead < old(self).stream().len() {
                if old(self).cached() >= ahead + 1 {
                    old(self).cached()
                } else {
                    ahead + 1
                }
            } else {
                old(self).stream().len() as int
            },
            match r {
                Some(t) => ahead < old(self).stream().len() && t.deep_view()
                    == old(self).stream()[ahead as int],
                None => ahead >= old(self).stream().len(),
            },
    {
        proof {
            assert(old(self).stream().len() == old(self).source().len() - old(self).consumed());
        }
        if ahead < self.buffer.len() {
            let t = clone_token(&self.buffer[ahead]);
            proof {
                assert(seq_model(self.buffer@)[ahead as int] == self.stream()[ahead as int]);
            }
            return Some(t);
        }
        while self.buffer.len() <= ahead
            invariant
                self.wf(),
                self.source() == old(self).source(),
                self.consumed() == old(self).consumed(),
                self.cached() >= old(self).cached(),
                self.cached() <= ahead + 1,
            decreases ahead + 1 - self.buffer.len(),
        {
            if self.pos == self.src.len() {
                proof {
                    assert(self.stream().len() == self.cached());
                }
                return None;
            }
            let t = clone_token(&self.src[self.pos]);
            self.buffer.push_back(t);
            self.pos = self.pos + 1;
            proof {
                assert(seq_model(self.buffer@) =~= self.source().subrange(
                    self.consumed(),
                    self.pos as int,
                ));
            }
        }
        let t = clone_token(&self.buffer[ahead]);
        proof {
            assert(seq_model(self.buffer@)[ahead as int] == self.stream()[ahead as int]);
        }
        Some(t)
    }

    /// Consume and return the next token: from the cache head if the cache
    /// is non-empty, otherwise straight from the underlying sequence.
    pub fn next(&mut self) -> (r: Option<Token>)
        requires
            old(self).wf(),
        ensures
            final(self).wf(),
            final(self).source() == old(self).source(),
            final(self).cached() == if old(self).cached() >= 1 {
                old(self).cached() - 1
            } else {
                0
            },
            match r {
                Some(t) => {
                    &&& old(self).stream().len() > 0
                    &&& t.deep_view() == old(self).stream()[0]
                    &&& final(self).stream() == old(self).stream().skip(1)
                    &&& final(self).consumed() == old(self).consumed() + 1
                },
                None => {
                    &&& old(self).stream().len() == 0
                    &&& final(self).stream() == old(self).stream()
                    &&& final(self).consumed() == old(self).consumed()
                },
            },
    {
        let popped = self.buffer.pop_front();
        match popped {
            Some(t) => {
                proof {
                    assert(seq_model(old(self).buffer@)[0] == old(self).stream()[0]);
                    assert(seq_model(self.buffer@) =~= seq_model(old(self).buffer@).skip(1));
                    assert(seq_model(self.buffer@) =~= self.source().subrange(
                        self.consumed(),
                        self.pos as int,
                    ));
                    assert(final(self).stream() =~= old(self).stream().skip(1));
                }
                Some(t)
            },
            None => {
                if self.pos < self.src.len() {
                    let t = clone_token(&self.src[self.pos]);
                    self.pos = self.pos + 1;
                    proof {
                        assert(seq_model(self.buffer@) =~= self.source().subrange(
                            self.consumed(),
                            self.pos as int,
                        ));
                        assert(final(self).stream() =~= old(self).stream().skip(1));
                    }
                    Some(t)
                } else {
                    None
                }
            },
        }
    }

    /// The stream never outgrows the machine: it is a suffix of an owned
    /// vector.
    pub proof fn lemma_stream_len_bounded(self)
        requires
            self.wf(),
        ensures
            self.stream().len() <= usize::MAX,
            self.stream().len() == self.source().len() - self.consumed(),
    {
        assert(self.src.len() == self.src@.len());
    }

    /// The number of tokens consumed so far: a position that `reset_to` can
    /// later return to.
    pub fn mark(&self) -> (r: usize)
        requires
            self.wf(),
        ensures
            r == self.consumed(),
    {
        self.pos - self.buffer.len()
    }

    /// Rolls the cursor back to an earlier position, dropping the cache:
    /// the stream becomes the source suffix starting at `mark`.
    pub fn reset_to(&mut self, mark: usize)
        requires
            old(self).wf(),
            mark <= old(self).consumed(),
        ensures
            final(self).wf(),
            final(self).source() == old(self).source(),
            final(self).consumed() == mark,
            final(self).stream() == old(self).source().skip(mark as int),
    {
        self.pos = mark;
        self.buffer.clear();
        proof {
            assert(seq_model(self.buffer@) =~= self.source().subrange(
                self.consumed(),
                self.pos as int,
            ));
        }
    }
}

} // verus!
