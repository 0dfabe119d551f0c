//! The numeric model at work: foreseeing the digits of a value, reading them, and
//! learning what the value was.

use vstd::prelude::*;
use crate::ascii;
use crate::ascii::{MINUS, ZERO};
use crate::match_model;
use crate::numeric;
use crate::numeric::{MAX_DIGITS, NUMSLOTS};
use crate::parser;
use crate::parser::{Scan, MAX_VPOS};
use crate::predictor::Predictor;
use crate::relation;
use crate::relation::RowValue;
use crate::tables;

verus! {

proof fn lemma_scan_begun(field: u32, c: u8)
    requires
        ascii::is_digit(c) || c == MINUS,
    ensures
        Scan::begun(field, c).sound(),
{
    reveal_with_fuel(numeric::pow10, 2);
}

proof fn lemma_scan_extended(s: Scan, c: u8)
    requires
        s.sound(),
        ascii::is_digit(c),
    ensures
        s.extended(c).sound(),
        s.cur_len < MAX_DIGITS ==> s.extended(c).cur_num == s.cur_num * 10 + parser::digit_value(c),
        s.cur_num < 1_000_000_000_000_000_000,
        s.cur_len < MAX_DIGITS ==> s.cur_num * 10 + parser::digit_value(c) < 1_000_000_000_000_000_000,
{
    numeric::lemma_pow10_values();
    numeric::lemma_pow10_grows(s.cur_len as nat, 18);
    if s.cur_len < MAX_DIGITS {
        numeric::lemma_pow10_grows((s.cur_len + 1) as nat, 18);
    }
}

impl Predictor {
    /// Foresee the value `v`, by a hypothesis that had `hits`.
    fn expect(&mut self, v: i64, hits: u32)
        requires
            old(self).parser_inv(),
        ensures
            final(self).parsed_to(old(self), old(self)@.parser.expecting(v, hits)),
    {
        numeric::write_decimal(&mut self.parser.np_digits, v);
        self.parser.np_ptr = 0;
        self.parser.np_active = true;
        let conf: usize = match_model::conf_prob(hits);
        proof {
            tables::lemma_stretch_range(conf as nat);
            numeric::lemma_signed_decimal_len(v);
        }
        self.parser.num_mag = self.stretch_tab[conf];
    }

    /// Set up the text of the value that `field` is expected to have next: the more
    /// confident of what its last step and what the row lead to.
    pub fn set_np(&mut self, field: u32)
        requires
            old(self).parser_inv(),
        ensures
            final(self).parsed_to(old(self), old(self)@.parser.foreseeing(field)),
    {
        let i: usize = field as usize % NUMSLOTS;
        let slot = self.parser.num[i];
        let cross = self.parser.cross[i];
        if cross.hits > slot.hits {
            if let Some(v) = cross.foresee(&self.parser.row) {
                self.expect(v, cross.hits);
                return;
            }
        }
        if slot.seen {
            self.expect(slot.last.wrapping_add(slot.delta), slot.hits);
        } else {
            self.parser.np_active = false;
        }
    }

    /// `field` had the value `actual`.
    fn learn_value(&mut self, field: u32, actual: i64)
        requires
            old(self).parser_inv(),
        ensures
            final(self).parsed_to(old(self), old(self)@.parser.with_value(field, actual)),
    {
        let i: usize = field as usize % NUMSLOTS;
        let slot = self.parser.num[i];
        let cross = self.parser.cross[i].learn(field, slot, &self.parser.row, actual);
        self.parser.cross[i] = cross;
        self.parser.num[i] = slot.learn(actual);
        let before: Option<i64> = if slot.seen { Some(slot.last) } else { None };
        relation::note(&mut self.parser.row, RowValue { field, value: actual, before });
    }

    /// A new row or record begins.
    pub(crate) fn begin_row(&mut self)
        requires
            old(self).parser_inv(),
        ensures
            final(self).parsed_to(old(self), old(self)@.parser.row_begun()),
    {
        self.parser.row.clear();
    }

    /// The number just read becomes the last value of its field, and joins the row.
    pub fn finalize_numeric(&mut self)
        requires
            old(self).parser_inv(),
        ensures
            final(self).parsed_to(old(self), old(self)@.parser.finalized()),
    {
        if !self.parser.scan.cur_is_num || self.parser.scan.cur_len == 0 {
            return;
        }
        let actual: i64 = if self.parser.scan.cur_neg {
            -self.parser.scan.cur_num
        } else {
            self.parser.scan.cur_num
        };
        self.learn_value(self.parser.scan.cur_field, actual);
    }

    /// A byte of a value has been read: does it hold to the foreseen text?
    pub fn np_consume(&mut self, c: u8)
        requires
            old(self).parser_inv(),
        ensures
            final(self).parsed_to(old(self), old(self)@.parser.consumed(c)),
    {
        if self.parser.np_active {
            if self.parser.np_ptr < self.parser.np_digits.len()
                && self.parser.np_digits[self.parser.np_ptr] == c {
                self.parser.np_ptr = self.parser.np_ptr + 1;
            } else {
                self.parser.np_active = false;
            }
        }
    }

    /// A number of `field` starts with `c`, a digit or a minus sign.
    pub(crate) fn begin_number(&mut self, field: u32, c: u8)
        requires
            old(self).parser_inv(),
            ascii::is_digit(c) || c == MINUS,
        ensures
            final(self).parsed_to(old(self), old(self)@.parser.number_begun(field, c)),
    {
        let negative: bool = c == MINUS;
        self.parser.scan = Scan {
            in_num_value: true,
            cur_num: if negative { 0 } else { (c - ZERO) as i64 },
            cur_len: if negative { 0 } else { 1 },
            cur_neg: negative,
            cur_is_num: true,
            cur_field: field,
        };
        proof {
            lemma_scan_begun(field, c);
        }
        self.np_consume(c);
    }

    /// The number goes on with the digit `c`.
    pub(crate) fn extend_number(&mut self, c: u8)
        requires
            old(self).parser_inv(),
            ascii::is_digit(c),
        ensures
            final(self).parsed_to(old(self), old(self)@.parser.number_extended(c)),
    {
        proof {
            lemma_scan_extended(self.parser.scan, c);
        }
        if self.parser.scan.cur_len < MAX_DIGITS {
            self.parser.scan.cur_num = self.parser.scan.cur_num * 10 + (c - ZERO) as i64;
            self.parser.scan.cur_len = self.parser.scan.cur_len + 1;
        } else {
            self.parser.scan.cur_is_num = false;
        }
        self.np_consume(c);
    }

    /// The number ends before `c`.
    pub(crate) fn end_number(&mut self, c: u8)
        requires
            old(self).parser_inv(),
        ensures
            final(self).parsed_to(old(self), old(self)@.parser.number_ended(c)),
    {
        if ascii::float_mark(c) {
            self.parser.scan.cur_is_num = false;
        }
        self.finalize_numeric();
        self.parser.scan.in_num_value = false;
        self.parser.np_active = false;
    }

    /// One byte further within the token.
    pub(crate) fn advance(&mut self)
        requires
            old(self).parser_inv(),
        ensures
            final(self).parsed_to(old(self), old(self)@.parser.advanced()),
    {
        let vpos: u32 = self.parser.text.vpos;
        self.parser.text.vpos = if vpos < MAX_VPOS { vpos + 1 } else { MAX_VPOS };
    }
}

} // verus!
