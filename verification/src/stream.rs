use vstd::prelude::*;

use crate::token::Token;

verus! {

/// A single-use, forward-only stream of tokens with one-token lookahead:
/// `peek` reads the next token without consuming it, `next` consumes it.
/// Each evaluation owns its own stream and consumes it exactly once.
pub struct TokenStream {
    toks: Vec<Token>,
    pos: usize,
}

impl TokenStream {
    /// The tokens not yet consumed.
    pub closed spec fn remaining(self) -> Seq<Token> {
        self.toks@.skip(self.pos as int)
    }

    /// The read position never passes the end of the tokens.
    pub closed spec fn wf(self) -> bool {
        self.pos <= self.toks.len()
    }

    pub fn new(toks: Vec<Token>) -> (s: TokenStream)
        ensures
            s.wf(),
            s.remaining() == toks@,
    {
        let s = TokenStream { toks, pos: 0 };
        proof {
            assert(s.remaining() =~= s.toks@);
        }
        s
    }

    /// The next token, if any, without consuming it.
    pub fn peek(&self) -> (r: Option<Token>)
        requires
            self.wf(),
        ensures
            match r {
                Some(t) => self.remaining().len() > 0 && t == self.remaining()[0],
                None => self.remaining().len() == 0,
            },
    {
        if self.pos < self.toks.len() {
            Some(self.toks[self.pos])
        } else {
            None
        }
    }

    /// The next token, if any, consumed.
    pub fn next(&mut self) -> (r: Option<Token>)
        requires
            old(self).wf(),
        ensures
            final(self).wf(),
            match r {
                Some(t) => old(self).remaining().len() > 0 && t == old(self).remaining()[0]
                    && final(self).remaining() == old(self).remaining().skip(1),
                None => old(self).remaining().len() == 0 && *final(self) == *old(self),
            },
    {
        if self.pos < self.toks.len() {
            let t = self.toks[self.pos];
            self.pos = self.pos + 1;
            proof {
                assert(self.remaining() =~= old(self).remaining().skip(1));
            }
            Some(t)
        } else {
            None
        }
    }
}

} // verus!
