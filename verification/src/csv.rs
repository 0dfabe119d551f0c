//! The parser for delimited text.

use vstd::prelude::*;
use crate::ascii;
use crate::ascii::{COMMA, LF, MINUS, QUOTE};
use crate::hashing;
use crate::predictor::Predictor;

verus! {

impl Predictor {
    /// The column ends before `c`, and at a line feed the row does too.
    fn csv_leave(&mut self, c: u8)
        requires
            old(self).parser_inv(),
        ensures
            final(self).parsed_to(old(self), old(self)@.parser.csv_left(c)),
    {
        if self.parser.scan.in_num_value {
            self.finalize_numeric();
            self.parser.scan.in_num_value = false;
        }
        if c == LF {
            self.begin_row();
        }
    }

    /// The next column, or the first one of the next row, begins behind `c`.
    fn csv_next(&mut self, c: u8)
        requires
            old(self).parser_inv(),
        ensures
            final(self).parsed_to(old(self), old(self)@.parser.csv_next(c)),
    {
        self.csv_leave(c);
        let col: u32 = if c == LF { 0 } else { self.parser.csv.col.wrapping_add(1) };
        self.parser.csv.col = col;
        self.parser.csv.value_pending = true;
        // set up prediction for the next column's value
        self.set_np(hashing::csv_field(col));
        self.parser.text.vpos = 0;
    }

    /// CSV/delimited parser: exposes the current column index as the semantic
    /// context, and routes the numeric model per column (so sequential and integer
    /// columns get formula prediction just like JSON fields do).
    pub fn update_struct_csv(&mut self, c: u8)
        requires
            old(self).parser_inv(),
        ensures
            final(self).parsed_to(old(self), old(self)@.parser.csv_step(c)),
    {
        if self.parser.csv.in_quote {
            self.parser.csv.in_quote = c != QUOTE;
            self.parser.scan.in_num_value = false;  // quoted field is not a bare number
            self.parser.np_active = false;
            self.advance();
        } else if c == QUOTE {
            self.parser.csv.in_quote = true;
            self.parser.csv.value_pending = false;
            self.parser.scan.in_num_value = false;
            self.parser.np_active = false;
            self.parser.text.vpos = 0;
        } else if c == COMMA || c == LF {
            self.csv_next(c);
        } else {
            if self.parser.csv.value_pending {
                self.parser.csv.value_pending = false;
                if ascii::digit(c) || c == MINUS {
                    let field: u32 = hashing::csv_field(self.parser.csv.col);
                    self.begin_number(field, c);
                } else {
                    self.parser.scan.in_num_value = false;
                    self.parser.np_active = false;
                }
            } else if self.parser.scan.in_num_value {
                if ascii::digit(c) {
                    self.extend_number(c);
                } else {
                    self.end_number(c);
                }
            }
            self.advance();
        }
    }
}

} // verus!
