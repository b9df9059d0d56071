//! A token-stream parser skeleton: holds the token run, a position in it,
//! and the document under construction.
use vstd::prelude::*;

use crate::elements::Document;
use crate::tokens::Token;

verus! {

pub struct TreeParser {
    pub tokens: Vec<Token>,
    pub index: usize,
    pub document: Document,
}

impl TreeParser {
    /// A parser over a token run, standing at its beginning, building a
    /// root document.
    pub fn new(tokens: Vec<Token>) -> (r: Self)
        ensures
            r.tokens == tokens,
            r.index == 0,
            r.document.is_root,
            r.document.elements@.len() == 0,
    {
        TreeParser { tokens, index: 0, document: Document::new(true) }
    }

    /// Steps to the next token, or reports that the last one is reached.
    /// The token run must be nonempty.
    pub fn step(&mut self) -> (r: Option<()>)
        requires
            old(self).tokens@.len() >= 1,
        ensures
            final(self).tokens == old(self).tokens,
            final(self).document == old(self).document,
            old(self).index < old(self).tokens@.len() - 1 ==> final(self).index == old(
                self,
            ).index + 1 && r is Some,
            old(self).index >= old(self).tokens@.len() - 1 ==> final(self).index == old(
                self,
            ).index && r is None,
    {
        if self.index < self.tokens.len() - 1 {
            self.index += 1;
            Some(())
        } else {
            None
        }
    }

    /// Whether the position stands on the last token.
    pub fn check_eof(&self) -> (r: bool)
        requires
            self.tokens@.len() >= 1,
        ensures
            r == (self.index == self.tokens@.len() - 1),
    {
        self.index == self.tokens.len() - 1
    }
}

} // verus!
