//! What a single byte does, in whatever state the parser of its format is: to the
//! position within the token, to the structure, and to what is known.

use vstd::prelude::*;
use crate::json_text;
use crate::parser::{Frame, ParserView};

verus! {

/// One byte further within a token; positions are told apart up to 31.
pub open spec fn grown(vpos: u32) -> int {
    if vpos < 31 { vpos + 1 } else { 31 }
}

/// A decimal digit.
pub open spec fn is_digit(c: u8) -> bool {
    0x30 <= c <= 0x39
}

/// What is known of the fields.
pub open spec fn same_fields(t: ParserView, s: ParserView) -> bool {
    t.num == s.num && t.cross == s.cross
}

/// In JSON a token begins anew at a bracket, a quote, a colon, a comma, at white space and
/// at an awaited number; strings, numbers and words go on.
pub proof fn law_json_position(s: ParserView, c: u8)
    ensures
        ({
            let t = s.json_step(c);
            let anew = json_text::is_gap(c) || c == 0x22 || c == 0x7b || c == 0x7d || c == 0x5b || c
                == 0x5d || c == 0x3a || c == 0x2c || s.json.value_pending && (is_digit(c) || c
                == 0x2d);
            let goes_on = s.text.in_str || s.scan.in_num_value && is_digit(c);
            &&& goes_on || !anew ==> t.text.vpos == grown(s.text.vpos)
            &&& !goes_on && anew ==> t.text.vpos == 0
        }),
{
}

/// What a byte outside strings does to the open brackets `a`, which become `b`.
pub open spec fn restructured(a: Seq<Frame>, b: Seq<Frame>, c: u8) -> bool {
    let n = a.len();
    if c == 0x7b || c == 0x5b {
        b == a.push(Frame { is_object: c == 0x7b, key_hash: 0, expect_key: c == 0x7b })
    } else if c == 0x7d || c == 0x5d {
        b == (if n > 0 { a.drop_last() } else { a })
    } else {
        &&& b.len() == n
        &&& forall|i: int| 0 <= i < n ==> (#[trigger] b[i]).is_object == a[i].is_object
        &&& forall|i: int| 0 <= i < n ==> (#[trigger] b[i]).key_hash == a[i].key_hash
        &&& forall|i: int| 0 <= i < n - 1 ==> #[trigger] b[i] == a[i]
    }
}

proof fn lemma_json_token(s: ParserView, c: u8)
    requires
        !s.text.in_str,
    ensures
        restructured(s.stack, s.json_token(c).stack, c),
        s.json_token(c).text.in_str == (c == 0x22),
        c == 0x22 ==> !s.json_token(c).text.esc,
{
}

proof fn lemma_json_outside(s: ParserView, c: u8)
    requires
        !s.text.in_str,
    ensures
        restructured(s.stack, s.json_outside(c).stack, c),
        s.json_outside(c).text.in_str == (c == 0x22),
        c == 0x22 ==> !s.json_outside(c).text.esc,
{
    lemma_json_token(s, c);
    lemma_json_token(s.json_settled().unforeseen(), c);
}

proof fn lemma_json_step(s: ParserView, c: u8)
    requires
        !s.text.in_str,
    ensures
        restructured(s.stack, s.json_step(c).stack, c),
        s.json_step(c).text.in_str == (c == 0x22),
        c == 0x22 ==> !s.json_step(c).text.esc,
{
    let u = s.number_ended(c);
    assert(u.stack == s.stack && u.text == s.text);
    lemma_json_outside(s, c);
    lemma_json_outside(u, c);
}

/// In JSON, brackets outside strings open and close, and nothing else does. A bracket
/// with nothing to close is passed over.
pub proof fn law_json_structure(s: ParserView, c: u8)
    ensures
        !s.text.in_str ==> restructured(s.stack, s.json_step(c).stack, c),
        s.text.in_str && (s.text.esc || c != 0x22) ==> s.json_step(c).stack == s.stack,
        s.text.in_str && !s.json.str_is_key ==> s.json_step(c).stack == s.stack,
        s.text.in_str ==> s.json_step(c).stack.len() == s.stack.len(),
{
    if !s.text.in_str {
        lemma_json_step(s, c);
    }
}

/// In JSON a string begins and ends with a quote; inside it a backslash escapes the next
/// byte.
pub proof fn law_json_strings(s: ParserView, c: u8)
    ensures
        ({
            let t = s.json_step(c);
            &&& !s.text.in_str ==> t.text.in_str == (c == 0x22)
            &&& !s.text.in_str && c == 0x22 ==> !t.text.esc
            &&& s.text.in_str ==> t.text.in_str == (s.text.esc || c != 0x22)
            &&& s.text.in_str ==> t.text.esc == (!s.text.esc && c == 0x5c)
        }),
{
    if !s.text.in_str {
        lemma_json_step(s, c);
    }
}

/// In JSON something is learned only where a number ends.
pub proof fn law_json_learns_at_ends(s: ParserView, c: u8)
    ensures
        s.text.in_str || !s.scan.in_num_value || is_digit(c) ==> same_fields(s.json_step(c), s),
        s.text.in_str || is_digit(c) ==> s.json_step(c).row == s.row,
{
}

/// In SQL a token begins anew at a quote, a parenthesis, a comma and at white space.
pub proof fn law_sql_position(s: ParserView, c: u8)
    ensures
        ({
            let t = s.sql_step(c);
            let anew = json_text::is_gap(c) || c == 0x27 || c == 0x28 || c == 0x29 || c == 0x2c;
            &&& s.text.in_str || !anew ==> t.text.vpos == grown(s.text.vpos)
            &&& !s.text.in_str && anew ==> t.text.vpos == 0
        }),
{
}

/// In SQL, parentheses outside string literals open and close, and nothing else does: an
/// opening one goes to the first column, a closing one back to where it was opened. A
/// comma goes to the next column. Beyond 32 parentheses no more are remembered.
pub proof fn law_sql_structure(s: ParserView, c: u8)
    ensures
        ({
            let t = s.sql_step(c);
            let n = s.parens.len();
            &&& s.text.in_str ==> t.parens == s.parens && t.sql == s.sql
            &&& !s.text.in_str && c == 0x28 ==> t.sql.col == 0 && t.sql.value_pending && t.parens
                == (if n < 32 { s.parens.push(s.sql.col) } else { s.parens })
            &&& !s.text.in_str && c == 0x29 ==> !t.sql.value_pending && t.parens == (if n > 0 {
                s.parens.drop_last()
            } else {
                s.parens
            }) && t.sql.col == (if n > 0 { s.parens[n - 1] } else { s.sql.col })
            &&& !s.text.in_str && c == 0x2c ==> t.parens == s.parens && t.sql.col
                == s.sql.col.wrapping_add(1) && t.sql.value_pending
            &&& c != 0x28 && c != 0x29 && c != 0x2c ==> t.parens == s.parens && t.sql.col
                == s.sql.col
        }),
{
}

/// In SQL a string literal begins and ends with an apostrophe; inside it a backslash
/// escapes the next byte.
pub proof fn law_sql_strings(s: ParserView, c: u8)
    ensures
        ({
            let t = s.sql_step(c);
            &&& !s.text.in_str ==> t.text.in_str == (c == 0x27)
            &&& !s.text.in_str && c == 0x27 ==> !t.text.esc
            &&& s.text.in_str ==> t.text.in_str == (s.text.esc || c != 0x27)
            &&& s.text.in_str ==> t.text.esc == (!s.text.esc && c == 0x5c)
        }),
{
}

/// In SQL something is learned only where a number ends.
pub proof fn law_sql_learns_at_ends(s: ParserView, c: u8)
    ensures
        s.text.in_str || !s.scan.in_num_value || is_digit(c) ==> same_fields(s.sql_step(c), s),
        s.text.in_str || is_digit(c) ==> s.sql_step(c).row == s.row,
{
}

/// In CSV a token begins anew at a quote that opens, and behind a separator.
pub proof fn law_csv_position(s: ParserView, c: u8)
    ensures
        ({
            let t = s.csv_step(c);
            let anew = c == 0x22 || c == 0x2c || c == 0x0a;
            &&& s.csv.in_quote || !anew ==> t.text.vpos == grown(s.text.vpos)
            &&& !s.csv.in_quote && anew ==> t.text.vpos == 0
        }),
{
}

/// In CSV, commas and line feeds outside quotes separate, and nothing else does.
pub proof fn law_csv_structure(s: ParserView, c: u8)
    ensures
        ({
            let t = s.csv_step(c);
            &&& t.csv.in_quote == (if c == 0x22 { !s.csv.in_quote } else { s.csv.in_quote })
            &&& !s.csv.in_quote && c == 0x2c ==> t.csv.col == s.csv.col.wrapping_add(1)
                && t.csv.value_pending
            &&& !s.csv.in_quote && c == 0x0a ==> t.csv.col == 0 && t.csv.value_pending
                && t.row.len() == 0
            &&& s.csv.in_quote || c != 0x2c && c != 0x0a ==> t.csv.col == s.csv.col
            &&& !s.csv.in_quote && c != 0x2c && c != 0x0a ==> !t.csv.value_pending
        }),
{
}

/// In CSV something is learned only where a number ends.
pub proof fn law_csv_learns_at_ends(s: ParserView, c: u8)
    ensures
        s.csv.in_quote || !s.scan.in_num_value || is_digit(c) || c == 0x22 ==> same_fields(
            s.csv_step(c),
            s,
        ),
        s.csv.in_quote || is_digit(c) || c == 0x22 ==> s.csv_step(c).row == s.row,
{
}

/// In XML a token begins anew at a bracket, at a quote that opens, and at white space
/// outside attribute values.
pub proof fn law_xml_position(s: ParserView, c: u8)
    ensures
        ({
            let t = s.xml_step(c);
            let anew = json_text::is_gap(c) || (if s.xml.in_tag {
                c == 0x22 || c == 0x27 || c == 0x3e
            } else {
                c == 0x3c
            });
            &&& s.xml.in_attr || !anew ==> t.text.vpos == grown(s.text.vpos)
            &&& !s.xml.in_attr && anew ==> t.text.vpos == 0
        }),
{
}

/// In XML the open elements change only where a tag ends: by one more, unless 64 are
/// remembered, by one fewer, or not at all, as the tag opens, closes or does both.
pub proof fn law_xml_structure(s: ParserView, c: u8)
    ensures
        ({
            let t = s.xml_step(c);
            let n = s.elements.len();
            let ends = s.xml.in_tag && !s.xml.in_attr && c == 0x3e;
            &&& !ends ==> t.elements == s.elements
            &&& ends ==> !t.xml.in_tag
            &&& ends && s.xml.close ==> t.elements == (if n > 0 {
                s.elements.drop_last()
            } else {
                s.elements
            })
            &&& ends && !s.xml.close && !s.xml.selfclose ==> t.elements == (if n < 64 {
                s.elements.push(s.xml.cur_hash)
            } else {
                s.elements
            })
            &&& ends && !s.xml.close && s.xml.selfclose ==> t.elements == s.elements
            &&& !s.xml.in_tag && !s.xml.in_attr ==> t.xml.in_tag == (c == 0x3c)
            &&& s.xml.in_tag && !ends ==> t.xml.in_tag
            &&& s.xml.in_attr ==> t.xml.in_attr == (c != s.xml.aq)
            &&& s.xml.in_tag && !s.xml.in_attr ==> t.xml.in_attr == (c == 0x22 || c == 0x27)
            &&& !s.xml.in_attr && t.xml.in_attr ==> t.xml.aq == c
        }),
{
}

/// In XML a slash before the name makes the tag a closing one, and a slash behind it one
/// that closes itself.
pub proof fn law_xml_slashes(s: ParserView, c: u8)
    requires
        s.xml.in_tag,
        !s.xml.in_attr,
    ensures
        ({
            let t = s.xml_step(c);
            &&& t.xml.close == (s.xml.close || c == 0x2f && !s.xml.name_started)
            &&& t.xml.selfclose == (s.xml.selfclose || c == 0x2f && s.xml.name_started)
        }),
{
}

/// XML and generic text teach the numeric model nothing, and leave it as it is.
pub proof fn law_no_numbers_in_text(s: ParserView, c: u8)
    ensures
        ({
            let t = s.xml_step(c);
            &&& same_fields(t, s) && t.row == s.row && t.scan == s.scan
            &&& t.np_active == s.np_active && t.np_ptr == s.np_ptr && t.np_digits == s.np_digits
        }),
        ({
            let t = s.generic_step(c);
            &&& same_fields(t, s) && t.row == s.row && t.scan == s.scan
            &&& t.np_active == s.np_active && t.np_ptr == s.np_ptr && t.np_digits == s.np_digits
        }),
{
}

/// In generic text a token begins anew at white space and at a quote that opens; quotes
/// open and close.
pub proof fn law_generic_tokens(s: ParserView, c: u8)
    ensures
        ({
            let t = s.generic_step(c);
            let anew = !s.text.in_str && (json_text::is_gap(c) || c == 0x22);
            &&& anew ==> t.text.vpos == 0
            &&& !anew ==> t.text.vpos == grown(s.text.vpos)
            &&& t.text.in_str == (if c == 0x22 { !s.text.in_str } else { s.text.in_str })
        }),
{
}

/// A foreseen value is given up as soon as a byte of the value is another one, or the
/// value is no number: then nothing is foreseen of it any more.
pub proof fn law_json_forecast_is_given_up(s: ParserView, c: u8)
    requires
        !s.text.in_str,
        s.json.value_pending && !s.scan.in_num_value || s.scan.in_num_value && is_digit(c),
        !json_text::is_gap(c),
        c != 0x5b && c != 0x3a && c != 0x2c,
        s.np_ptr >= s.np_digits.len() || s.np_digits[s.np_ptr as int] != c || !(is_digit(c) || c
            == 0x2d),
    ensures
        !s.json_step(c).np_active,
{
}

/// The same of SQL.
pub proof fn law_sql_forecast_is_given_up(s: ParserView, c: u8)
    requires
        !s.text.in_str,
        s.sql.value_pending && !s.scan.in_num_value || s.scan.in_num_value && is_digit(c),
        !json_text::is_gap(c),
        c != 0x28 && c != 0x2c,
        s.np_ptr >= s.np_digits.len() || s.np_digits[s.np_ptr as int] != c || !(is_digit(c) || c
            == 0x2d),
    ensures
        !s.sql_step(c).np_active,
{
}

/// The same of CSV.
pub proof fn law_csv_forecast_is_given_up(s: ParserView, c: u8)
    requires
        !s.csv.in_quote,
        s.csv.value_pending || s.scan.in_num_value && is_digit(c),
        c != 0x2c && c != 0x0a,
        s.np_ptr >= s.np_digits.len() || s.np_digits[s.np_ptr as int] != c || !(is_digit(c) || c
            == 0x2d),
    ensures
        !s.csv_step(c).np_active,
{
}

/// Every text begins outside of everything, with nothing known.
pub proof fn law_text_begins_empty(i: int)
    requires
        0 <= i < 0x1_0000,
    ensures
        ({
            let s = ParserView::start();
            &&& !s.text.in_str && !s.text.esc && s.text.vpos == 0
            &&& s.stack.len() == 0 && s.parens.len() == 0 && s.elements.len() == 0
            &&& !s.json.value_pending && !s.json.str_is_key && !s.sql.value_pending && s.sql.col == 0
            &&& s.csv.value_pending && !s.csv.in_quote && s.csv.col == 0
            &&& !s.xml.in_tag && !s.xml.in_attr
            &&& !s.scan.in_num_value && !s.np_active && s.row.len() == 0
            &&& s.num.len() == 0x1_0000 && s.cross.len() == 0x1_0000
            &&& !s.num[i].seen && s.num[i].hits == 0
            &&& !s.cross[i].seen && s.cross[i].hits == 0
        }),
{
}

/// The state after all of a generic text.
pub open spec fn generic_fed(s: ParserView, text: Seq<u8>) -> ParserView
    decreases text.len(),
{
    if text.len() == 0 { s } else { generic_fed(s, text.drop_last()).generic_step(text.last()) }
}

/// The position within a word is the number of its bytes, up to 31.
pub proof fn law_generic_position_counts(s: ParserView, word: Seq<u8>)
    requires
        !s.text.in_str,
        s.text.vpos == 0,
        forall|i: int|
            0 <= i < word.len() ==> !json_text::is_gap(#[trigger] word[i]) && word[i] != 0x22,
    ensures
        generic_fed(s, word).text.vpos == (if word.len() < 31 { word.len() as int } else { 31 }),
        !generic_fed(s, word).text.in_str,
    decreases word.len(),
{
    if word.len() > 0 {
        let front = word.drop_last();
        assert forall|i: int| 0 <= i < front.len() implies !json_text::is_gap(#[trigger] front[i])
            && front[i] != 0x22 by {
            assert(front[i] == word[i]);
        }
        law_generic_position_counts(s, front);
        assert(!json_text::is_gap(word[word.len() - 1]) && word[word.len() - 1] != 0x22);
        law_generic_tokens(generic_fed(s, front), word.last());
    }
}

} // verus!
