//! The parser for JSON.

use vstd::prelude::*;
use crate::ascii;
use crate::ascii::{
    BACKSLASH, CLOSE_BRACE, CLOSE_BRACKET, COLON, COMMA, MINUS, OPEN_BRACE, OPEN_BRACKET, QUOTE,
};
use crate::hashing;
use crate::hashing::SPREAD;
use crate::parser::{Frame, ARRAY_TAG};
use crate::predictor::Predictor;

verus! {

impl Predictor {
    /// The field whose value comes next.
    pub fn field_hash(&self) -> (f: u32)
        ensures
            f == self@.parser.json_field(),
    {
        let n: usize = self.parser.stack.len();
        if n == 0 {
            0
        } else if self.parser.stack[n - 1].is_object {
            self.parser.stack[n - 1].key_hash
        } else {
            ARRAY_TAG
        }
    }

    /// Replace the innermost object or array.
    fn set_top(&mut self, f: Frame)
        requires
            old(self).parser_inv(),
            old(self)@.parser.stack.len() > 0,
        ensures
            final(self).parsed_to(old(self), old(self)@.parser.with_top(f)),
    {
        let n: usize = self.parser.stack.len();
        self.parser.stack[n - 1] = f;
        assert(self.parser.stack@ =~= old(self).parser.stack@.drop_last().push(f));
    }

    /// A value of the present field is to come.
    fn json_await(&mut self)
        requires
            old(self).parser_inv(),
        ensures
            final(self).parsed_to(old(self), old(self)@.parser.json_awaiting()),
    {
        let field: u32 = self.field_hash();
        self.parser.json.value_pending = true;
        self.set_np(field);
    }

    /// A byte inside a string.
    fn json_in_string(&mut self, c: u8)
        requires
            old(self).parser_inv(),
        ensures
            final(self).parsed_to(old(self), old(self)@.parser.json_in_string(c)),
    {
        if self.parser.text.esc {
            self.parser.text.esc = false;
            self.parser.json.cur_str_hash = hashing::hstep(self.parser.json.cur_str_hash, c);
        } else if c == BACKSLASH {
            self.parser.text.esc = true;
        } else if c == QUOTE {
            self.parser.text.in_str = false;
            let n: usize = self.parser.stack.len();
            if self.parser.json.str_is_key && n > 0 {
                let top = self.parser.stack[n - 1];
                self.set_top(
                    Frame {
                        is_object: top.is_object,
                        key_hash: self.parser.json.cur_str_hash,
                        expect_key: false,
                    },
                );
            }
        } else {
            self.parser.json.cur_str_hash = hashing::hstep(self.parser.json.cur_str_hash, c);
        }
    }

    /// An object is to begin.
    fn json_begin_record(&mut self)
        requires
            old(self).parser_inv(),
        ensures
            final(self).parsed_to(old(self), old(self)@.parser.json_record_begun()),
    {
        let n: usize = self.parser.stack.len();
        if n == 0 || !self.parser.stack[n - 1].is_object {
            self.begin_row();
        }
    }

    /// A string begins.
    fn json_begin_string(&mut self)
        requires
            old(self).parser_inv(),
        ensures
            final(self).parsed_to(old(self), old(self)@.parser.json_string_begun()),
    {
        let n: usize = self.parser.stack.len();
        self.parser.text.in_str = true;
        self.parser.text.esc = false;
        self.parser.json.cur_str_hash = SPREAD;
        self.parser.json.str_is_key = n > 0 && self.parser.stack[n - 1].is_object
            && self.parser.stack[n - 1].expect_key;
    }

    /// Whether the innermost bracket, if any, waits for a key.
    fn json_expect_key(&mut self, expect_key: bool)
        requires
            old(self).parser_inv(),
        ensures
            final(self).parsed_to(old(self), old(self)@.parser.json_expecting_key(expect_key)),
    {
        let n: usize = self.parser.stack.len();
        if n > 0 {
            let top = self.parser.stack[n - 1];
            self.set_top(
                Frame { is_object: top.is_object, key_hash: top.key_hash, expect_key },
            );
        }
    }

    /// A comma: the next member begins.
    fn json_next(&mut self)
        requires
            old(self).parser_inv(),
        ensures
            final(self).parsed_to(old(self), old(self)@.parser.json_next()),
    {
        let n: usize = self.parser.stack.len();
        if n > 0 && self.parser.stack[n - 1].is_object {
            self.json_expect_key(true);
            self.parser.json.value_pending = false;
            self.parser.np_active = false;
        } else {
            self.json_await();
        }
    }

    /// A byte that is neither inside a string nor the start of an awaited number.
    fn json_token(&mut self, c: u8)
        requires
            old(self).parser_inv(),
        ensures
            final(self).parsed_to(old(self), old(self)@.parser.json_token(c)),
    {
        if c == QUOTE {
            self.json_begin_string();
            self.parser.text.vpos = 0;
        } else if c == OPEN_BRACE {
            self.json_begin_record();
            self.parser.stack.push(Frame { is_object: true, key_hash: 0, expect_key: true });
            self.parser.text.vpos = 0;
        } else if c == OPEN_BRACKET {
            self.parser.stack.push(Frame { is_object: false, key_hash: 0, expect_key: false });
            self.json_await();
            self.parser.text.vpos = 0;
        } else if c == CLOSE_BRACE || c == CLOSE_BRACKET {
            let _ = self.parser.stack.pop();
            self.parser.text.vpos = 0;
        } else if c == COLON {
            self.json_expect_key(false);
            self.json_await();
            self.parser.text.vpos = 0;
        } else if c == COMMA {
            self.json_next();
            self.parser.text.vpos = 0;
        } else if ascii::blank(c) {
            self.parser.text.vpos = 0;
        } else {
            self.advance();
        }
    }

    /// A byte outside strings and numbers.
    fn json_outside(&mut self, c: u8)
        requires
            old(self).parser_inv(),
        ensures
            final(self).parsed_to(old(self), old(self)@.parser.json_outside(c)),
    {
        if self.parser.json.value_pending {
            if ascii::blank(c) {
                self.parser.text.vpos = 0;
                return;
            }
            self.parser.json.value_pending = false;
            if ascii::digit(c) || c == MINUS {
                let field: u32 = self.field_hash();
                self.begin_number(field, c);
                self.parser.text.vpos = 0;
                return;
            }
            self.parser.np_active = false;
        }
        self.json_token(c);
    }

    /// JSON parser: exposes the field whose value is being read, keys its contexts
    /// by that field, and routes the numeric model per field.
    pub fn update_struct_json(&mut self, c: u8)
        requires
            old(self).parser_inv(),
        ensures
            final(self).parsed_to(old(self), old(self)@.parser.json_step(c)),
    {
        if self.parser.text.in_str {
            self.json_in_string(c);
            self.advance();
            return;
        }
        if self.parser.scan.in_num_value {
            if ascii::digit(c) {
                self.extend_number(c);
                self.advance();
                return;
            }
            self.end_number(c);
        }
        self.json_outside(c);
    }
}

} // verus!
