//! What the CSV parser makes of lines of any fields: numbers, words, quoted text with
//! separators in it, and lines that end in a carriage return.

use vstd::prelude::*;
use crate::ascii;
use crate::csv_text;
use crate::foresight;
use crate::numeric;
use crate::parser::{CsvState, ParserView};

verus! {

/// A byte that neither quotes nor separates.
pub open spec fn plain(c: u8) -> bool {
    c != 0x22 && c != 0x2c && c != 0x0a
}

pub open spec fn plain_text(text: Seq<u8>) -> bool {
    forall|i: int| 0 <= i < text.len() ==> plain(#[trigger] text[i])
}

/// A field of a line.
pub enum Field {
    /// A number, and what stands behind it, such as white space or a unit.
    Number(i64, Seq<u8>),
    /// A number with a fraction or an exponent: what stands before the mark, the mark,
    /// and what stands behind it.
    Fraction(i64, u8, Seq<u8>),
    /// Anything else without quotes, or nothing.
    Word(Seq<u8>),
    /// Quoted text; a doubled quote ends one part and begins the next.
    Quoted(Seq<Seq<u8>>),
}

pub open spec fn field_text(f: Field) -> Seq<u8> {
    match f {
        Field::Number(v, tail) => numeric::signed_decimal(v as int) + tail,
        Field::Fraction(v, mark, rest) => numeric::signed_decimal(v as int) + (seq![mark] + rest),
        Field::Word(word) => word,
        Field::Quoted(parts) => parts_text(parts, parts.len()),
    }
}

/// The first `n` parts, each in quotes.
pub open spec fn parts_text(parts: Seq<Seq<u8>>, n: nat) -> Seq<u8>
    decreases n,
{
    if n == 0 {
        Seq::empty()
    } else {
        parts_text(parts, (n - 1) as nat) + (seq![0x22u8] + (parts[n - 1] + seq![0x22u8]))
    }
}

/// The parts of a field are what they should be, and a number has no more digits than
/// are tracked.
pub open spec fn valid(f: Field) -> bool {
    match f {
        Field::Number(v, tail) => {
            &&& csv_text::tracked_value(v)
            &&& plain_text(tail)
            &&& tail.len() > 0 ==> !(0x30 <= tail[0] <= 0x39) && tail[0] != 0x2e && tail[0] != 0x65
                && tail[0] != 0x45
        },
        Field::Fraction(v, mark, rest) => {
            &&& csv_text::tracked_value(v)
            &&& plain_text(rest)
            &&& mark == 0x2e || mark == 0x65 || mark == 0x45
        },
        Field::Word(word) => {
            &&& plain_text(word)
            &&& word.len() > 0 ==> word[0] != 0x2d && !(0x30 <= word[0] <= 0x39)
        },
        Field::Quoted(parts) => {
            &&& parts.len() > 0
            &&& forall|i: int, j: int|
                0 <= i < parts.len() && 0 <= j < parts[i].len() ==> #[trigger] parts[i][j] != 0x22
        },
    }
}

/// The field of a column.
pub open spec fn column_field(col: u32) -> u32 {
    col.wrapping_mul(0x9e37_79b1) ^ 0xc5c5_3737
}

/// What is known after a field of column `col`: a number is learned, nothing else is.
pub open spec fn taught(k: ParserView, f: Field, col: u32) -> ParserView {
    match f {
        Field::Number(v, tail) => k.with_value(column_field(col), v),
        _ => k,
    }
}

/// The parser stands before column `col`, and knows what `k` knows.
pub open spec fn stands(s: ParserView, col: u32, k: ParserView) -> bool {
    &&& csv_text::at_column(s, col)
    &&& !s.scan.in_num_value
    &&& csv_text::same_knowledge(s, k)
}

/// The parser stands in or behind the field of column `col`, of which the next separator
/// may end a number.
pub open spec fn done(s: ParserView, col: u32, k: ParserView) -> bool {
    &&& s.csv.col == col
    &&& !s.csv.in_quote
    &&& s.scan.in_num_value ==> s.scan.cur_is_num && s.scan.cur_len > 0
        && csv_text::same_knowledge(s.with_value(s.scan.cur_field, s.scan.value()), k)
    &&& !s.scan.in_num_value ==> csv_text::same_knowledge(s, k)
}

/// As `done`, with no value to come and no number open.
spec fn closed(s: ParserView, col: u32, k: ParserView) -> bool {
    &&& s.csv == (CsvState { col, in_quote: false, value_pending: false })
    &&& !s.scan.in_num_value
    &&& csv_text::same_knowledge(s, k)
}

proof fn lemma_byte(s: ParserView, c: u8)
    ensures
        csv_text::csv_fed(s, seq![c]) == s.csv_step(c),
{
    assert(seq![c].drop_last() =~= Seq::empty());
    assert(csv_text::csv_fed(s, Seq::empty()) == s);
}

/// Plain bytes behind a value.
proof fn lemma_tail(s: ParserView, text: Seq<u8>, col: u32, k: ParserView)
    requires
        plain_text(text),
        closed(s, col, k),
    ensures
        closed(csv_text::csv_fed(s, text), col, k),
    decreases text.len(),
{
    if text.len() > 0 {
        let front = text.drop_last();
        assert forall|i: int| 0 <= i < front.len() implies plain(#[trigger] front[i]) by {
            assert(front[i] == text[i]);
        }
        lemma_tail(s, front, col, k);
        assert(plain(text[text.len() - 1]));
    }
}

proof fn lemma_number(s: ParserView, v: i64, col: u32, k: ParserView)
    requires
        stands(s, col, k),
        csv_text::tracked_value(v),
    ensures
        ({
            let t = csv_text::csv_fed(s, numeric::signed_decimal(v as int));
            &&& t.csv == (CsvState { col, in_quote: false, value_pending: false })
            &&& t.scan.in_num_value
            &&& t.scan.cur_is_num
            &&& t.scan.cur_len > 0
            &&& t.scan.cur_field == column_field(col)
            &&& t.scan.value() == v
            &&& csv_text::same_knowledge(t, k)
        }),
{
    let text = numeric::signed_decimal(v as int);
    csv_text::lemma_number_text(v);
    csv_text::lemma_number_bytes(s, col, text, text.len());
    assert(text.take(text.len() as int) =~= text);
    assert(text.subrange(1, text.len() as int) =~= text.skip(1));
    foresight::law_number_reads_back(column_field(col), v as int);
}

proof fn lemma_quoted_bytes(s: ParserView, body: Seq<u8>, col: u32, k: ParserView)
    requires
        s.csv == (CsvState { col, in_quote: true, value_pending: false }),
        !s.scan.in_num_value,
        csv_text::same_knowledge(s, k),
        forall|j: int| 0 <= j < body.len() ==> #[trigger] body[j] != 0x22,
    ensures
        ({
            let t = csv_text::csv_fed(s, body);
            &&& t.csv == (CsvState { col, in_quote: true, value_pending: false })
            &&& !t.scan.in_num_value
            &&& csv_text::same_knowledge(t, k)
        }),
    decreases body.len(),
{
    if body.len() > 0 {
        let front = body.drop_last();
        assert forall|j: int| 0 <= j < front.len() implies #[trigger] front[j] != 0x22 by {
            assert(front[j] == body[j]);
        }
        lemma_quoted_bytes(s, front, col, k);
        assert(body[body.len() - 1] != 0x22);
    }
}

proof fn lemma_parts(s: ParserView, parts: Seq<Seq<u8>>, n: nat, col: u32, k: ParserView)
    requires
        stands(s, col, k),
        n <= parts.len(),
        forall|i: int, j: int|
            0 <= i < parts.len() && 0 <= j < parts[i].len() ==> #[trigger] parts[i][j] != 0x22,
    ensures
        n > 0 ==> closed(csv_text::csv_fed(s, parts_text(parts, n)), col, k),
        n == 0 ==> csv_text::csv_fed(s, parts_text(parts, n)) == s,
    decreases n,
{
    if n > 0 {
        let m = (n - 1) as nat;
        let body = parts[n - 1];
        let front = parts_text(parts, m);
        lemma_parts(s, parts, m, col, k);
        let a = csv_text::csv_fed(s, front);
        let b = a.csv_step(0x22);
        let c = csv_text::csv_fed(b, body);
        csv_text::lemma_fed_on(s, front, seq![0x22u8] + (body + seq![0x22u8]));
        csv_text::lemma_fed_on(a, seq![0x22u8], body + seq![0x22u8]);
        lemma_byte(a, 0x22);
        csv_text::lemma_fed_on(b, body, seq![0x22u8]);
        lemma_byte(c, 0x22);
        assert forall|j: int| 0 <= j < body.len() implies #[trigger] body[j] != 0x22 by {
            assert(parts[n - 1][j] != 0x22);
        }
        lemma_quoted_bytes(b, body, col, k);
    }
}

proof fn lemma_word(s: ParserView, word: Seq<u8>, col: u32, k: ParserView)
    requires
        stands(s, col, k),
        valid(Field::Word(word)),
    ensures
        done(csv_text::csv_fed(s, word), col, k),
{
    if word.len() > 0 {
        let c = word[0];
        let rest = word.skip(1);
        assert(word =~= seq![c] + rest);
        csv_text::lemma_fed_on(s, seq![c], rest);
        lemma_byte(s, c);
        assert(plain(c));
        assert forall|i: int| 0 <= i < rest.len() implies plain(#[trigger] rest[i]) by {
            assert(rest[i] == word[i + 1]);
        }
        lemma_tail(s.csv_step(c), rest, col, k);
    }
}

proof fn lemma_field(s: ParserView, f: Field, col: u32, k: ParserView)
    requires
        stands(s, col, k),
        valid(f),
    ensures
        done(csv_text::csv_fed(s, field_text(f)), col, taught(k, f, col)),
{
    match f {
        Field::Number(v, tail) => {
            let text = numeric::signed_decimal(v as int);
            lemma_number(s, v, col, k);
            csv_text::lemma_fed_on(s, text, tail);
            if tail.len() > 0 {
                let t = csv_text::csv_fed(s, text);
                let c = tail[0];
                let rest = tail.skip(1);
                assert(tail =~= seq![c] + rest);
                assert(plain(c));
                csv_text::lemma_fed_on(t, seq![c], rest);
                lemma_byte(t, c);
                let u = t.number_ended(c);
                assert(csv_text::same_knowledge(u, k.with_value(column_field(col), v)));
                assert(t.csv_step(c) == u.advanced());
                assert forall|i: int| 0 <= i < rest.len() implies plain(#[trigger] rest[i]) by {
                    assert(rest[i] == tail[i + 1]);
                }
                lemma_tail(t.csv_step(c), rest, col, k.with_value(column_field(col), v));
            }
        },
        Field::Fraction(v, mark, rest) => {
            let text = numeric::signed_decimal(v as int);
            lemma_number(s, v, col, k);
            csv_text::lemma_fed_on(s, text, seq![mark] + rest);
            let t = csv_text::csv_fed(s, text);
            csv_text::lemma_fed_on(t, seq![mark], rest);
            lemma_byte(t, mark);
            let u = t.number_ended(mark);
            assert(csv_text::same_knowledge(u, k));
            assert(t.csv_step(mark) == u.advanced());
            lemma_tail(t.csv_step(mark), rest, col, k);
        },
        Field::Word(word) => {
            lemma_word(s, word, col, k);
        },
        Field::Quoted(parts) => {
            lemma_parts(s, parts, parts.len(), col, k);
        },
    }
}

/// A separator ends the field: the next column, or the first one of the next line, is to
/// come, and is foreseen from what is known of it.
proof fn lemma_separator(s: ParserView, c: u8, col: u32, k: ParserView)
    requires
        done(s, col, k),
        c == 0x2c || c == 0x0a,
    ensures
        ({
            let t = s.csv_step(c);
            let next = if c == 0x0a { 0u32 } else { col.wrapping_add(1) };
            let l = if c == 0x0a { k.row_begun() } else { k };
            let u = l.foreseeing(column_field(next));
            &&& stands(t, next, l)
            &&& t.np_active == u.np_active
            &&& t.np_active ==> t.np_digits == u.np_digits && t.np_ptr == u.np_ptr && t.num_mag
                == u.num_mag
        }),
{
}

/// The first `n` fields of a line, a comma behind each.
pub open spec fn fields_text(fields: Seq<Field>, n: nat) -> Seq<u8>
    decreases n,
{
    if n == 0 {
        Seq::empty()
    } else {
        fields_text(fields, (n - 1) as nat) + (field_text(fields[n - 1]) + seq![0x2cu8])
    }
}

/// A line: fields with commas between them and a line feed behind.
pub open spec fn line_text(fields: Seq<Field>) -> Seq<u8> {
    fields_text(fields, (fields.len() - 1) as nat) + (field_text(fields[fields.len() - 1]) + seq![
        0x0au8,
    ])
}

/// What is known after the first `n` fields of a line.
pub open spec fn fields_taught(k: ParserView, fields: Seq<Field>, n: nat) -> ParserView
    decreases n,
{
    if n == 0 {
        k
    } else {
        taught(fields_taught(k, fields, (n - 1) as nat), fields[n - 1], (n - 1) as u32)
    }
}

/// The fields of a line, whatever they hold, teach their columns their numbers; and
/// behind a comma the next column is to come, and is foreseen.
pub proof fn law_csv_fields_are_read(s: ParserView, fields: Seq<Field>, n: nat)
    requires
        csv_text::at_column(s, 0),
        !s.scan.in_num_value,
        n <= fields.len(),
        n < 0x1_0000_0000,
        forall|i: int| 0 <= i < fields.len() ==> valid(#[trigger] fields[i]),
    ensures
        ({
            let t = csv_text::csv_fed(s, fields_text(fields, n));
            let k = fields_taught(s, fields, n);
            let u = k.foreseeing(column_field(n as u32));
            &&& stands(t, n as u32, k)
            &&& n > 0 ==> t.np_active == u.np_active
            &&& n > 0 && t.np_active ==> t.np_digits == u.np_digits && t.np_ptr == u.np_ptr
                && t.num_mag == u.num_mag
        }),
    decreases n,
{
    if n > 0 {
        let m = (n - 1) as nat;
        let f = fields[n - 1];
        law_csv_fields_are_read(s, fields, m);
        let front = fields_text(fields, m);
        let a = csv_text::csv_fed(s, front);
        let k = fields_taught(s, fields, m);
        csv_text::lemma_fed_on(s, front, field_text(f) + seq![0x2cu8]);
        csv_text::lemma_fed_on(a, field_text(f), seq![0x2cu8]);
        lemma_field(a, f, m as u32, k);
        let b = csv_text::csv_fed(a, field_text(f));
        lemma_byte(b, 0x2c);
        lemma_separator(b, 0x2c, m as u32, taught(k, f, m as u32));
    }
}

/// A line of any fields is read: its numbers are learned by their columns, nothing else
/// is learned, separators in quotes do not separate, and behind the line feed the first
/// column of a new row is to come, and is foreseen.
pub proof fn law_csv_line_of_fields_is_read(s: ParserView, fields: Seq<Field>)
    requires
        csv_text::at_column(s, 0),
        !s.scan.in_num_value,
        1 <= fields.len() <= 0x1_0000_0000,
        forall|i: int| 0 <= i < fields.len() ==> valid(#[trigger] fields[i]),
    ensures
        ({
            let t = csv_text::csv_fed(s, line_text(fields));
            let k = fields_taught(s, fields, fields.len()).row_begun();
            let u = k.foreseeing(column_field(0));
            &&& stands(t, 0, k)
            &&& t.np_active == u.np_active
            &&& t.np_active ==> t.np_digits == u.np_digits && t.np_ptr == u.np_ptr && t.num_mag
                == u.num_mag
        }),
{
    let m = (fields.len() - 1) as nat;
    let f = fields[m as int];
    law_csv_fields_are_read(s, fields, m);
    let front = fields_text(fields, m);
    let a = csv_text::csv_fed(s, front);
    let k = fields_taught(s, fields, m);
    csv_text::lemma_fed_on(s, front, field_text(f) + seq![0x0au8]);
    csv_text::lemma_fed_on(a, field_text(f), seq![0x0au8]);
    lemma_field(a, f, m as u32, k);
    let b = csv_text::csv_fed(a, field_text(f));
    lemma_byte(b, 0x0a);
    lemma_separator(b, 0x0a, m as u32, taught(k, f, m as u32));
}

/// A foreseen value that comes true is followed to its last byte.
pub proof fn law_csv_forecast_is_followed(s: ParserView, k: nat)
    requires
        s.csv.value_pending,
        !s.csv.in_quote,
        s.np_active,
        s.np_ptr == 0,
        1 <= k <= s.np_digits.len(),
        ascii::is_digit(s.np_digits[0]) || s.np_digits[0] == 0x2d,
        forall|i: int| 1 <= i < s.np_digits.len() ==> ascii::is_digit(#[trigger] s.np_digits[i]),
    ensures
        ({
            let t = csv_text::csv_fed(s, s.np_digits.take(k as int));
            &&& t.np_active
            &&& t.np_digits == s.np_digits
            &&& t.np_ptr == k
            &&& t.num_mag == s.num_mag
        }),
    decreases k,
{
    let text = s.np_digits;
    csv_text::lemma_number_bytes(s, s.csv.col, text, k);
    let m = (k - 1) as nat;
    assert(text.take(k as int).drop_last() =~= text.take(m as int));
    assert(text.take(k as int).last() == text[m as int]);
    if k == 1 {
        assert(text.take(0) =~= Seq::empty());
        assert(csv_text::csv_fed(s, text.take(0)) == s);
    } else {
        csv_text::lemma_number_bytes(s, s.csv.col, text, m);
        law_csv_forecast_is_followed(s, m);
        assert(ascii::is_digit(text[m as int]));
    }
}

/// A text begins in its first column, with a value to come.
pub proof fn law_csv_begins_with_a_column()
    ensures
        csv_text::at_row(ParserView::start()),
        !ParserView::start().scan.in_num_value,
{
}

} // verus!
