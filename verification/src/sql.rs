//! The parser for SQL dumps.

use vstd::prelude::*;
use crate::ascii;
use crate::ascii::{APOSTROPHE, BACKSLASH, CLOSE_PAREN, COMMA, MINUS, OPEN_PAREN};
use crate::hashing;
use crate::parser::MAX_PARENS;
use crate::predictor::Predictor;

verus! {

impl Predictor {
    /// The field of the present column at the present depth.
    fn sql_column(&self) -> (f: u32)
        requires
            self.parser_inv(),
        ensures
            f == self@.parser.sql_field(),
    {
        hashing::sql_field(self.parser.sql.col, self.parser.parens.len() as u32)
    }

    /// A value of the present column is to come.
    fn sql_await(&mut self)
        requires
            old(self).parser_inv(),
        ensures
            final(self).parsed_to(old(self), old(self)@.parser.sql_awaiting()),
    {
        let field: u32 = self.sql_column();
        self.parser.sql.value_pending = true;
        self.set_np(field);
    }

    /// A parenthesis is to open: outside of all others it begins a new row.
    fn sql_begin_row(&mut self)
        requires
            old(self).parser_inv(),
        ensures
            final(self).parsed_to(old(self), old(self)@.parser.sql_row_begun()),
    {
        if self.parser.parens.len() == 0 {
            self.begin_row();
        }
    }

    /// A parenthesis opens, at the first column of a tuple.
    fn sql_open(&mut self)
        requires
            old(self).parser_inv(),
        ensures
            final(self).parsed_to(old(self), old(self)@.parser.sql_opened()),
    {
        if self.parser.parens.len() < MAX_PARENS {
            self.parser.parens.push(self.parser.sql.col);
        }
        self.parser.sql.col = 0;
    }

    /// A parenthesis closes: back to the column at which it opened.
    fn sql_close(&mut self)
        requires
            old(self).parser_inv(),
        ensures
            final(self).parsed_to(old(self), old(self)@.parser.sql_closed()),
    {
        if let Some(col) = self.parser.parens.pop() {
            self.parser.sql.col = col;
        }
        self.parser.sql.value_pending = false;
    }

    /// The awaited value begins with `c`.
    fn sql_begin_value(&mut self, c: u8)
        requires
            old(self).parser_inv(),
        ensures
            final(self).parsed_to(old(self), old(self)@.parser.sql_value_begun(c)),
    {
        self.parser.sql.value_pending = false;
        if (ascii::digit(c) || c == MINUS) && self.parser.parens.len() > 0 {
            let field: u32 = self.sql_column();
            self.begin_number(field, c);
        } else {
            self.parser.scan.in_num_value = false;
            self.parser.np_active = false;
        }
    }

    /// A byte outside strings and numbers.
    fn sql_outside(&mut self, c: u8)
        requires
            old(self).parser_inv(),
        ensures
            final(self).parsed_to(old(self), old(self)@.parser.sql_outside(c)),
    {
        if c == APOSTROPHE {
            self.parser.text.in_str = true;
            self.parser.text.esc = false;
            self.parser.sql.value_pending = false;
            self.parser.np_active = false;
            self.parser.text.vpos = 0;
        } else if c == OPEN_PAREN {
            self.sql_begin_row();
            self.sql_open();
            self.sql_await();
            self.parser.text.vpos = 0;
        } else if c == CLOSE_PAREN {
            self.sql_close();
            self.parser.np_active = false;
            self.parser.text.vpos = 0;
        } else if c == COMMA {
            self.parser.sql.col = self.parser.sql.col.wrapping_add(1);
            self.sql_await();
            self.parser.text.vpos = 0;
        } else if ascii::blank(c) {
            self.parser.text.vpos = 0;
        } else {
            if self.parser.sql.value_pending {
                self.sql_begin_value(c);
            }
            self.advance();
        }
    }

    /// SQL-dump parser: the bulk of a dump is `INSERT INTO t VALUES (..),(..)`.
    /// Each parenthesized tuple is treated like a CSV row (the column index resets
    /// at `(`, increments at `,`, and is restored at `)`) and the numeric model is
    /// routed per column and depth, so that auto-increment ids and sequential
    /// timestamps collapse. String literals use single quotes, with `\` and `''`
    /// escaping.
    pub fn update_struct_sql(&mut self, c: u8)
        requires
            old(self).parser_inv(),
        ensures
            final(self).parsed_to(old(self), old(self)@.parser.sql_step(c)),
    {
        if self.parser.text.in_str {
            if self.parser.text.esc {
                self.parser.text.esc = false;
            } else if c == BACKSLASH {
                self.parser.text.esc = true;
            } else if c == APOSTROPHE {
                self.parser.text.in_str = false;
            }
            self.parser.scan.in_num_value = false;
            self.parser.np_active = false;
            self.advance();
            return;
        }
        if self.parser.scan.in_num_value {
            if ascii::digit(c) {
                self.extend_number(c);
                self.advance();
                return;
            }
            self.end_number(c);
        }
        self.sql_outside(c);
    }
}

} // verus!
