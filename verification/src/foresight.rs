//! What the numeric model promises: the text that it foresees is followed byte by
//! byte as it is read, and reading it gives back the number that it stands for.

use vstd::prelude::*;
use crate::ascii;
use crate::ascii::MINUS;
use crate::numeric;
use crate::parser;
use crate::parser::{ParserView, Scan};

verus! {

/// The number after all digits of `text`.
pub open spec fn scanned(s: Scan, text: Seq<u8>) -> Scan
    decreases text.len(),
{
    if text.len() == 0 { s } else { scanned(s, text.drop_last()).extended(text.last()) }
}

/// The number that a `text` of a sign and digits is read as.
pub open spec fn read_number(field: u32, text: Seq<u8>) -> Scan {
    scanned(Scan::begun(field, text[0]), text.skip(1))
}

/// Digits read one after the other give back the number they were written for.
proof fn lemma_digits_read_back(z: Scan, n: nat)
    requires
        z.cur_num == 0,
        z.cur_len == 0,
        n < numeric::pow10(18),
    ensures
        scanned(z, numeric::decimal(n)) == (Scan {
            cur_num: n as i64,
            cur_len: numeric::decimal(n).len() as u32,
            ..z
        }),
    decreases n,
{
    numeric::lemma_pow10_values();
    numeric::lemma_decimal_digits(n, 18);
    let text = numeric::decimal(n);
    if n < 10 {
        assert(text.drop_last() =~= Seq::empty());
        assert(scanned(z, text.drop_last()) == z);
    } else {
        lemma_digits_read_back(z, n / 10);
        numeric::lemma_decimal_digits(n / 10, 17);
        assert(text.drop_last() =~= numeric::decimal(n / 10));
    }
}

proof fn lemma_scanned_first(z: Scan, text: Seq<u8>)
    requires
        text.len() > 0,
    ensures
        scanned(z, text) == scanned(z.extended(text[0]), text.skip(1)),
    decreases text.len(),
{
    if text.len() == 1 {
        assert(text.drop_last() =~= Seq::empty());
        assert(text.skip(1) =~= Seq::empty());
        assert(scanned(z, text.drop_last()) == z);
    } else {
        lemma_scanned_first(z, text.drop_last());
        assert(text.drop_last().skip(1) =~= text.skip(1).drop_last());
    }
}

/// The text of a number reads back as that number, which its field then learns.
/// Only numbers of more digits than are tracked are left out.
pub proof fn law_number_reads_back(field: u32, v: int)
    requires
        -numeric::pow10(18) < v < numeric::pow10(18),
    ensures
        ({
            let s = read_number(field, numeric::signed_decimal(v));
            s.cur_is_num && s.cur_len > 0 && s.cur_field == field && s.value() == v
        }),
{
    numeric::lemma_pow10_values();
    let text = numeric::signed_decimal(v);
    if v < 0 {
        let z = Scan::begun(field, MINUS);
        lemma_digits_read_back(z, (-v) as nat);
        numeric::lemma_decimal_digits((-v) as nat, 18);
        assert(text[0] == MINUS);
        assert(text.skip(1) =~= numeric::decimal((-v) as nat));
    } else {
        let z = Scan { cur_neg: false, ..Scan::begun(field, MINUS) };
        lemma_digits_read_back(z, v as nat);
        numeric::lemma_decimal_digits(v as nat, 18);
        assert(ascii::is_digit(text[0]));
        lemma_scanned_first(z, text);
        assert(z.extended(text[0]) == Scan::begun(field, text[0]));
    }
}

/// The state after all bytes of `text` have been held against the foreseen value.
pub open spec fn consumed_all(s: ParserView, text: Seq<u8>) -> ParserView
    decreases text.len(),
{
    if text.len() == 0 { s } else { consumed_all(s, text.drop_last()).consumed(text.last()) }
}

/// A value that comes out as foreseen is foreseen to its last byte: whatever part
/// of its text has been read, the model still stands by it and expects the byte
/// that comes next.
pub proof fn law_true_forecast_is_followed(s: ParserView, field: u32, k: nat)
    requires
        s.foreseeing(field).np_active,
        k <= s.foreseeing(field).np_digits.len(),
    ensures
        ({
            let text = s.foreseeing(field).np_digits;
            let t = consumed_all(s.foreseeing(field), text.take(k as int));
            t.np_active && t.np_digits == text && t.np_ptr == k
        }),
    decreases k,
{
    let text = s.foreseeing(field).np_digits;
    if k > 0 {
        law_true_forecast_is_followed(s, field, (k - 1) as nat);
        assert(text.take(k as int).drop_last() =~= text.take(k - 1));
    } else {
        assert(text.take(0) =~= Seq::empty());
    }
}

/// Of the two hypotheses the more confident is followed, and its text and
/// confidence are set up; without either nothing is foreseen.
pub proof fn law_more_confident_is_followed(s: ParserView, field: u32)
    ensures
        ({
            let slot = s.num[parser::slot_of(field)];
            let cross = s.cross[parser::slot_of(field)];
            let t = s.foreseeing(field);
            &&& t.np_active <==> slot.seen || (cross.forecast(s.row) is Some && cross.hits
                > slot.hits)
            &&& cross.forecast(s.row) is Some && cross.hits > slot.hits ==> t.np_digits
                == numeric::signed_decimal(cross.forecast(s.row)->0 as int)
            &&& slot.seen && !(cross.forecast(s.row) is Some && cross.hits > slot.hits)
                ==> t.np_digits == numeric::signed_decimal(slot.forecast() as int)
        }),
{
}

/// A byte that is not the foreseen one ends the forecast.
pub proof fn law_false_forecast_is_dropped(s: ParserView, c: u8)
    requires
        s.np_ptr >= s.np_digits.len() || s.np_digits[s.np_ptr as int] != c,
    ensures
        !s.consumed(c).np_active,
{
}

} // verus!
