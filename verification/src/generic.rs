//! The parser for text without structure.

use vstd::prelude::*;
use crate::ascii;
use crate::ascii::QUOTE;
use crate::predictor::Predictor;

verus! {

impl Predictor {
    /// Generic parser for unstructured text: tracks position in the token and
    /// whether it stands inside quotes, which gives a cheap positional context
    /// (helps logs and free text). No field identity.
    pub fn update_struct_generic(&mut self, c: u8)
        requires
            old(self).parser_inv(),
        ensures
            final(self).parsed_to(old(self), old(self)@.parser.generic_step(c)),
    {
        if self.parser.text.in_str {
            self.parser.text.in_str = c != QUOTE;
            self.advance();
        } else if c == QUOTE {
            self.parser.text.in_str = true;
            self.parser.text.vpos = 0;
        } else if ascii::blank(c) {
            self.parser.text.vpos = 0;
        } else {
            self.advance();
        }
    }
}

} // verus!
