//! What the SQL parser makes of the rows of a dump: every number reaches the column it
//! stands in, and what stands in string literals is passed over.

use vstd::prelude::*;
use crate::ascii;
use crate::columns;
use crate::csv_text;
use crate::foresight;
use crate::json_text;
use crate::numeric;
use crate::parser::{ParserView, Scan, SqlState, TextState};

verus! {

/// The state after all of `text`.
pub open spec fn sql_fed(s: ParserView, text: Seq<u8>) -> ParserView
    decreases text.len(),
{
    if text.len() == 0 { s } else { sql_fed(s, text.drop_last()).sql_step(text.last()) }
}

/// The inside of a string literal: any bytes, an apostrophe only doubled or behind a
/// backslash, and a backslash only before another byte.
pub open spec fn literal_body(text: Seq<u8>) -> bool
    decreases text.len(),
{
    if text.len() == 0 {
        true
    } else if text[0] == 0x5c {
        text.len() >= 2 && literal_body(text.skip(2))
    } else if text[0] == 0x27 {
        text.len() >= 2 && text[1] == 0x27 && literal_body(text.skip(2))
    } else {
        literal_body(text.skip(1))
    }
}

/// A byte of a word: neither white space nor one of `'(),`.
pub open spec fn plain(c: u8) -> bool {
    !json_text::is_gap(c) && c != 0x27 && c != 0x28 && c != 0x29 && c != 0x2c
}

pub open spec fn plain_text(text: Seq<u8>) -> bool {
    forall|i: int| 0 <= i < text.len() ==> plain(#[trigger] text[i])
}

/// A value of a row.
pub enum Sql {
    Number(i64),
    /// A number with a fraction or an exponent: what stands before the mark, the mark,
    /// and what stands behind it.
    Fraction(i64, u8, Seq<u8>),
    /// A string literal.
    Text(Seq<u8>),
    /// `NULL` and the like.
    Word(Seq<u8>),
    /// Values in parentheses.
    Tuple(Seq<Cell>),
}

/// A value with the white space around it.
pub struct Cell {
    pub before: Seq<u8>,
    pub value: Sql,
    pub after: Seq<u8>,
}

pub open spec fn quoted(body: Seq<u8>) -> Seq<u8> {
    seq![0x27u8] + (body + seq![0x27u8])
}

/// The text of a value.
pub open spec fn sql_text(v: Sql) -> Seq<u8>
    decreases v, 0nat,
{
    match v {
        Sql::Number(n) => numeric::signed_decimal(n as int),
        Sql::Fraction(n, mark, rest) => numeric::signed_decimal(n as int) + (seq![mark] + rest),
        Sql::Text(body) => quoted(body),
        Sql::Word(word) => word,
        Sql::Tuple(cells) => seq![0x28u8] + (cells_text(cells, cells.len()) + seq![0x29u8]),
    }
}

/// The text of the first `n` values, with commas between them.
pub open spec fn cells_text(cells: Seq<Cell>, n: nat) -> Seq<u8>
    decreases cells, n,
{
    if n == 0 || n > cells.len() {
        Seq::empty()
    } else {
        let it = cells[n - 1];
        cells_text(cells, (n - 1) as nat) + (json_text::comma(n) + (it.before + (sql_text(it.value)
            + it.after)))
    }
}

/// The parts of a value are what they should be, its numbers have no more digits than
/// are tracked, and it is not nested deeper than is told apart.
pub open spec fn valid(v: Sql, depth: nat) -> bool
    decreases v, 0nat,
{
    match v {
        Sql::Number(n) => csv_text::tracked_value(n) && depth > 0,
        Sql::Fraction(n, mark, rest) => csv_text::tracked_value(n) && depth > 0 && plain_text(rest)
            && (mark == 0x2e || mark == 0x65 || mark == 0x45),
        Sql::Text(body) => literal_body(body),
        Sql::Word(word) => word.len() > 0 && plain_text(word) && word[0] != 0x2d && !(0x30
            <= word[0] <= 0x39),
        Sql::Tuple(cells) => depth < 32 && 0 < cells.len() <= 0x1_0000_0000 && valid_cells(
            cells,
            cells.len(),
            depth + 1,
        ),
    }
}

pub open spec fn valid_cells(cells: Seq<Cell>, n: nat, depth: nat) -> bool
    decreases cells, n,
{
    if n == 0 || n > cells.len() {
        n == 0
    } else {
        let it = cells[n - 1];
        &&& valid_cells(cells, (n - 1) as nat, depth)
        &&& json_text::gaps(it.before)
        &&& json_text::gaps(it.after)
        &&& valid(it.value, depth)
    }
}

/// The field of a column inside `depth` parentheses.
pub open spec fn column_field(col: u32, depth: nat) -> u32 {
    col.wrapping_mul(0x9e37_79b1) ^ (depth as u32).wrapping_mul(0x85eb_ca6b) ^ 0x5917_9179
}

/// What is known after a value in column `col` inside `depth` parentheses. Every number
/// is learned by its column, at its depth; parentheses outside of all others begin a
/// new row.
pub open spec fn taught(k: ParserView, v: Sql, col: u32, depth: nat) -> ParserView
    decreases v, 0nat,
{
    match v {
        Sql::Number(n) => k.with_value(column_field(col, depth), n),
        Sql::Tuple(cells) => cells_taught(
            if depth == 0 { k.row_begun() } else { k },
            cells,
            cells.len(),
            depth + 1,
        ),
        _ => k,
    }
}

pub open spec fn cells_taught(k: ParserView, cells: Seq<Cell>, n: nat, depth: nat) -> ParserView
    decreases cells, n,
{
    if n == 0 || n > cells.len() {
        k
    } else {
        taught(
            cells_taught(k, cells, (n - 1) as nat, depth),
            cells[n - 1].value,
            (n - 1) as u32,
            depth,
        )
    }
}

/// The parser stands between two tokens, in column `col` inside `parens`, with or
/// without a value to come, and knows what `k` knows.
pub open spec fn stands(
    s: ParserView,
    parens: Seq<u32>,
    col: u32,
    pending: bool,
    k: ParserView,
) -> bool {
    &&& !s.text.in_str
    &&& !s.scan.in_num_value
    &&& s.parens == parens
    &&& s.sql == (SqlState { col, value_pending: pending })
    &&& csv_text::same_knowledge(s, k)
}

/// The parser stands behind a value, which may be a number that the next byte ends.
pub open spec fn done(s: ParserView, parens: Seq<u32>, col: u32, k: ParserView) -> bool {
    &&& !s.text.in_str
    &&& s.parens == parens
    &&& s.sql == (SqlState { col, value_pending: false })
    &&& s.scan.in_num_value ==> s.scan.cur_is_num && s.scan.cur_len > 0
        && csv_text::same_knowledge(s.with_value(s.scan.cur_field, s.scan.value()), k)
    &&& !s.scan.in_num_value ==> csv_text::same_knowledge(s, k)
}

proof fn lemma_on(s: ParserView, a: Seq<u8>, b: Seq<u8>)
    ensures
        sql_fed(s, a + b) == sql_fed(sql_fed(s, a), b),
    decreases b.len(),
{
    if b.len() == 0 {
        assert(a + b =~= a);
    } else {
        assert((a + b).drop_last() =~= a + b.drop_last());
        lemma_on(s, a, b.drop_last());
    }
}

proof fn lemma_byte(s: ParserView, c: u8)
    ensures
        sql_fed(s, seq![c]) == s.sql_step(c),
{
    assert(seq![c].drop_last() =~= Seq::empty());
    assert(sql_fed(s, Seq::empty()) == s);
}

/// White space between tokens changes nothing but the position within the token.
pub proof fn law_sql_gaps_change_nothing(s: ParserView, text: Seq<u8>)
    requires
        json_text::gaps(text),
        !s.text.in_str,
        !s.scan.in_num_value,
    ensures
        sql_fed(s, text) == (ParserView {
            text: TextState { vpos: if text.len() > 0 { 0 } else { s.text.vpos }, ..s.text },
            ..s
        }),
    decreases text.len(),
{
    if text.len() > 0 {
        let c = text.last();
        assert(c == text[text.len() - 1]);
        assert forall|i: int| 0 <= i < text.drop_last().len() implies json_text::is_gap(
            #[trigger] text.drop_last()[i],
        ) by {
            assert(text[i] == text.drop_last()[i]);
        }
        law_sql_gaps_change_nothing(s, text.drop_last());
        assert(json_text::is_gap(c));
        assert(ascii::is_blank(c));
    }
}

proof fn lemma_gaps(
    s: ParserView,
    text: Seq<u8>,
    parens: Seq<u32>,
    col: u32,
    pending: bool,
    k: ParserView,
)
    requires
        json_text::gaps(text),
        stands(s, parens, col, pending, k),
    ensures
        stands(sql_fed(s, text), parens, col, pending, k),
{
    law_sql_gaps_change_nothing(s, text);
}

/// A byte that is no digit ends the value, also one that was still open.
proof fn lemma_ended(s: ParserView, c: u8, parens: Seq<u32>, col: u32, k: ParserView) -> (u:
    ParserView)
    requires
        done(s, parens, col, k),
        !(0x30 <= c <= 0x39),
        c != 0x2e && c != 0x65 && c != 0x45,
    ensures
        stands(u, parens, col, false, k),
        s.sql_step(c) == u.sql_step(c),
{
    if s.scan.in_num_value {
        s.number_ended(c)
    } else {
        s
    }
}

proof fn lemma_gaps_behind(s: ParserView, text: Seq<u8>, parens: Seq<u32>, col: u32, k: ParserView)
    requires
        json_text::gaps(text),
        done(s, parens, col, k),
    ensures
        done(sql_fed(s, text), parens, col, k),
{
    if text.len() > 0 {
        let c = text[0];
        let rest = text.skip(1);
        assert(json_text::is_gap(c));
        let u = lemma_ended(s, c, parens, col, k);
        assert(text =~= seq![c] + rest);
        lemma_on(s, seq![c], rest);
        lemma_byte(s, c);
        lemma_on(u, seq![c], rest);
        lemma_byte(u, c);
        lemma_gaps(u, text, parens, col, false, k);
    }
}

/// Inside a string literal, with no value to come.
pub open spec fn in_literal(s: ParserView, t: ParserView) -> bool {
    &&& s.text.in_str
    &&& !s.text.esc
    &&& s.parens == t.parens
    &&& s.sql == t.sql
    &&& csv_text::same_knowledge(s, t)
}

/// The inside of a string literal is passed over, parentheses, commas and numbers in it
/// too.
pub proof fn law_sql_literal_is_passed_over(s: ParserView, body: Seq<u8>)
    requires
        literal_body(body),
        s.text.in_str,
        !s.text.esc,
        !s.sql.value_pending,
    ensures
        in_literal(sql_fed(s, body), s),
    decreases body.len(),
{
    if body.len() > 0 {
        let c = body[0];
        if c == 0x5c || c == 0x27 {
            let d = body[1];
            let rest = body.skip(2);
            let t = s.sql_step(c).sql_step(d);
            assert(body =~= seq![c] + (seq![d] + rest));
            lemma_on(s, seq![c], seq![d] + rest);
            lemma_byte(s, c);
            lemma_on(s.sql_step(c), seq![d], rest);
            lemma_byte(s.sql_step(c), d);
            assert(in_literal(t, s));
            law_sql_literal_is_passed_over(t, rest);
        } else {
            let rest = body.skip(1);
            let t = s.sql_step(c);
            assert(body =~= seq![c] + rest);
            lemma_on(s, seq![c], rest);
            lemma_byte(s, c);
            assert(in_literal(t, s));
            law_sql_literal_is_passed_over(t, rest);
        }
    }
}

proof fn lemma_literal(
    s: ParserView,
    body: Seq<u8>,
    parens: Seq<u32>,
    col: u32,
    pending: bool,
    k: ParserView,
)
    requires
        literal_body(body),
        stands(s, parens, col, pending, k),
    ensures
        stands(sql_fed(s, quoted(body)), parens, col, false, k),
{
    let q = 0x27u8;
    let a = s.sql_step(q);
    let b = sql_fed(a, body);
    lemma_on(s, seq![q], body + seq![q]);
    lemma_byte(s, q);
    lemma_on(a, body, seq![q]);
    lemma_byte(b, q);
    law_sql_literal_is_passed_over(a, body);
}

proof fn lemma_word(
    s: ParserView,
    word: Seq<u8>,
    parens: Seq<u32>,
    col: u32,
    pending: bool,
    k: ParserView,
)
    requires
        plain_text(word),
        stands(s, parens, col, pending, k),
        pending ==> word.len() > 0 && (word[0] != 0x2d && !(0x30 <= word[0] <= 0x39)
            || parens.len() == 0),
    ensures
        stands(sql_fed(s, word), parens, col, false, k),
    decreases word.len(),
{
    if word.len() > 0 {
        let c = word.last();
        let front = word.drop_last();
        assert(c == word[word.len() - 1]);
        assert forall|i: int| 0 <= i < front.len() implies plain(#[trigger] front[i]) by {
            assert(front[i] == word[i]);
        }
        if front.len() > 0 {
            assert(front[0] == word[0]);
            lemma_word(s, front, parens, col, pending, k);
        }
        assert(plain(c));
    }
}

/// Words outside of parentheses are passed over, numbers among them too.
pub proof fn law_sql_words_teach_nothing(s: ParserView, word: Seq<u8>)
    requires
        plain_text(word),
        word.len() > 0,
        s.parens.len() == 0,
        !s.text.in_str,
        !s.scan.in_num_value,
    ensures
        stands(sql_fed(s, word), s.parens, s.sql.col, false, s),
{
    lemma_word(s, word, s.parens, s.sql.col, s.sql.value_pending, s);
}

/// The first `n` bytes of a number that was awaited.
proof fn lemma_number_bytes(
    s: ParserView,
    text: Seq<u8>,
    n: nat,
    parens: Seq<u32>,
    col: u32,
    k: ParserView,
)
    requires
        stands(s, parens, col, true, k),
        0 < parens.len() <= 32,
        1 <= n <= text.len(),
        ascii::is_digit(text[0]) || text[0] == 0x2d,
        forall|i: int| 1 <= i < text.len() ==> ascii::is_digit(#[trigger] text[i]),
    ensures
        ({
            let t = sql_fed(s, text.take(n as int));
            &&& csv_text::same_knowledge(t, k)
            &&& t.parens == parens
            &&& t.sql == (SqlState { col, value_pending: false })
            &&& !t.text.in_str
            &&& t.scan == foresight::scanned(
                Scan::begun(column_field(col, parens.len()), text[0]),
                text.subrange(1, n as int),
            )
            &&& t.scan.in_num_value
        }),
    decreases n,
{
    let m = (n - 1) as nat;
    let c = text[m as int];
    assert(text.take(n as int).drop_last() =~= text.take(m as int));
    assert(text.take(n as int).last() == c);
    if n == 1 {
        assert(text.take(0) =~= Seq::empty());
        assert(sql_fed(s, text.take(0)) == s);
        assert(text.subrange(1, 1) =~= Seq::empty());
    } else {
        lemma_number_bytes(s, text, m, parens, col, k);
        assert(ascii::is_digit(c));
        assert(text.subrange(1, n as int).drop_last() =~= text.subrange(1, m as int));
        assert(text.subrange(1, n as int).last() == c);
    }
}

proof fn lemma_number(s: ParserView, v: i64, parens: Seq<u32>, col: u32, k: ParserView)
    requires
        stands(s, parens, col, true, k),
        0 < parens.len() <= 32,
        csv_text::tracked_value(v),
    ensures
        ({
            let t = sql_fed(s, numeric::signed_decimal(v as int));
            &&& done(t, parens, col, k.with_value(column_field(col, parens.len()), v))
            &&& t.scan.in_num_value
            &&& csv_text::same_knowledge(t, k)
        }),
{
    let text = numeric::signed_decimal(v as int);
    csv_text::lemma_number_text(v);
    lemma_number_bytes(s, text, text.len(), parens, col, k);
    assert(text.take(text.len() as int) =~= text);
    assert(text.subrange(1, text.len() as int) =~= text.skip(1));
    foresight::law_number_reads_back(column_field(col, parens.len()), v as int);
}

proof fn lemma_fraction(
    s: ParserView,
    v: i64,
    mark: u8,
    rest: Seq<u8>,
    parens: Seq<u32>,
    col: u32,
    k: ParserView,
)
    requires
        stands(s, parens, col, true, k),
        0 < parens.len() <= 32,
        csv_text::tracked_value(v),
        plain_text(rest),
        mark == 0x2e || mark == 0x65 || mark == 0x45,
    ensures
        stands(
            sql_fed(s, numeric::signed_decimal(v as int) + (seq![mark] + rest)),
            parens,
            col,
            false,
            k,
        ),
{
    let text = numeric::signed_decimal(v as int);
    let t = sql_fed(s, text);
    lemma_number(s, v, parens, col, k);
    lemma_on(s, text, seq![mark] + rest);
    lemma_on(t, seq![mark], rest);
    lemma_byte(t, mark);
    let u = t.number_ended(mark);
    assert(stands(u, parens, col, false, k));
    assert(t.sql_step(mark) == u.sql_outside(mark));
    assert(stands(t.sql_step(mark), parens, col, false, k));
    lemma_word(t.sql_step(mark), rest, parens, col, false, k);
}

/// An opening parenthesis: the first column of a row, which is foreseen.
proof fn lemma_open(s: ParserView, parens: Seq<u32>, col: u32, pending: bool, k: ParserView)
    requires
        stands(s, parens, col, pending, k),
        parens.len() < 32,
    ensures
        stands(
            s.sql_step(0x28),
            parens.push(col),
            0,
            true,
            if parens.len() == 0 { k.row_begun() } else { k },
        ),
        ({
            let t = s.sql_step(0x28);
            let u = (if parens.len() == 0 { k.row_begun() } else { k }).foreseeing(
                column_field(0, parens.len() + 1),
            );
            &&& t.np_active == u.np_active
            &&& t.np_active ==> t.np_digits == u.np_digits && t.np_ptr == u.np_ptr && t.num_mag
                == u.num_mag
        }),
{
}

/// A comma: the next column, which is foreseen.
proof fn lemma_comma(s: ParserView, parens: Seq<u32>, col: u32, k: ParserView)
    requires
        stands(s, parens, col, false, k),
        parens.len() <= 32,
    ensures
        stands(s.sql_step(0x2c), parens, col.wrapping_add(1), true, k),
        ({
            let t = s.sql_step(0x2c);
            let u = k.foreseeing(column_field(col.wrapping_add(1), parens.len()));
            &&& t.np_active == u.np_active
            &&& t.np_active ==> t.np_digits == u.np_digits && t.np_ptr == u.np_ptr && t.num_mag
                == u.num_mag
        }),
{
}

proof fn lemma_close(s: ParserView, parens: Seq<u32>, outer: u32, col: u32, k: ParserView)
    requires
        stands(s, parens.push(outer), col, false, k),
    ensures
        stands(s.sql_step(0x29), parens, outer, false, k),
{
    assert(parens.push(outer).drop_last() =~= parens);
}

proof fn lemma_value(s: ParserView, v: Sql, parens: Seq<u32>, col: u32, k: ParserView)
    requires
        valid(v, parens.len()),
        parens.len() <= 32,
        stands(s, parens, col, true, k),
    ensures
        done(sql_fed(s, sql_text(v)), parens, col, taught(k, v, col, parens.len())),
    decreases v, 0nat,
{
    match v {
        Sql::Number(n) => {
            lemma_number(s, n, parens, col, k);
        },
        Sql::Fraction(n, mark, rest) => {
            lemma_fraction(s, n, mark, rest, parens, col, k);
        },
        Sql::Text(body) => {
            lemma_literal(s, body, parens, col, true, k);
        },
        Sql::Word(word) => {
            lemma_word(s, word, parens, col, true, k);
        },
        Sql::Tuple(cells) => {
            lemma_tuple(s, cells, parens, col, true, k);
        },
    }
}

proof fn lemma_tuple(
    s: ParserView,
    cells: Seq<Cell>,
    parens: Seq<u32>,
    col: u32,
    pending: bool,
    k: ParserView,
)
    requires
        parens.len() < 32,
        0 < cells.len() <= 0x1_0000_0000,
        valid_cells(cells, cells.len(), parens.len() + 1),
        stands(s, parens, col, pending, k),
    ensures
        stands(
            sql_fed(s, sql_text(Sql::Tuple(cells))),
            parens,
            col,
            false,
            cells_taught(
                if parens.len() == 0 { k.row_begun() } else { k },
                cells,
                cells.len(),
                parens.len() + 1,
            ),
        ),
    decreases cells, cells.len() + 1,
{
    let k0 = if parens.len() == 0 { k.row_begun() } else { k };
    let a = s.sql_step(0x28);
    let text = cells_text(cells, cells.len());
    lemma_open(s, parens, col, pending, k);
    lemma_cells(a, cells, cells.len(), parens.push(col), k0);
    lemma_on(s, seq![0x28u8], text + seq![0x29u8]);
    lemma_byte(s, 0x28);
    lemma_on(a, text, seq![0x29u8]);
    let b = sql_fed(a, text);
    lemma_byte(b, 0x29);
    let l = cells_taught(k0, cells, cells.len(), parens.len() + 1);
    let last = (cells.len() - 1) as u32;
    let u = lemma_ended(b, 0x29, parens.push(col), last, l);
    lemma_close(u, parens, col, last, l);
}

proof fn lemma_cells(s: ParserView, cells: Seq<Cell>, n: nat, parens: Seq<u32>, k: ParserView)
    requires
        n <= cells.len() <= 0x1_0000_0000,
        parens.len() <= 32,
        valid_cells(cells, n, parens.len()),
        stands(s, parens, 0, true, k),
    ensures
        n == 0 ==> stands(sql_fed(s, cells_text(cells, n)), parens, 0, true, k),
        n > 0 ==> done(
            sql_fed(s, cells_text(cells, n)),
            parens,
            (n - 1) as u32,
            cells_taught(k, cells, n, parens.len()),
        ),
    decreases cells, n,
{
    if n > 0 {
        let m = (n - 1) as nat;
        let it = cells[n - 1];
        let front = cells_text(cells, m);
        let tail = it.before + (sql_text(it.value) + it.after);
        let l = cells_taught(k, cells, m, parens.len());
        let col = m as u32;
        lemma_cells(s, cells, m, parens, k);
        let a = sql_fed(s, front);
        lemma_on(s, front, json_text::comma(n) + tail);
        lemma_on(a, json_text::comma(n), tail);
        let b = sql_fed(a, json_text::comma(n));
        assert(stands(b, parens, col, true, l)) by {
            if n > 1 {
                let u = lemma_ended(a, 0x2c, parens, (m - 1) as u32, l);
                lemma_comma(u, parens, (m - 1) as u32, l);
                lemma_byte(a, 0x2c);
            }
        }
        lemma_gaps(b, it.before, parens, col, true, l);
        lemma_on(b, it.before, sql_text(it.value) + it.after);
        let c = sql_fed(b, it.before);
        lemma_value(c, it.value, parens, col, l);
        lemma_on(c, sql_text(it.value), it.after);
        lemma_gaps_behind(
            sql_fed(c, sql_text(it.value)),
            it.after,
            parens,
            col,
            cells_taught(k, cells, n, parens.len()),
        );
    }
}

/// A parenthesized row is read as its values, however it is spaced: every number in it,
/// at any depth that is told apart, is learned by the column it stands in, and nothing
/// else is learned. Behind it the parser stands in the column where it stood before.
/// Only numbers of more digits than are tracked are left out.
pub proof fn law_sql_tuple_is_read(s: ParserView, cells: Seq<Cell>)
    requires
        s.parens.len() < 32,
        0 < cells.len() <= 0x1_0000_0000,
        valid_cells(cells, cells.len(), s.parens.len() + 1),
        !s.text.in_str,
        !s.scan.in_num_value,
    ensures
        ({
            let t = sql_fed(s, sql_text(Sql::Tuple(cells)));
            let outer = s.parens.len() == 0;
            &&& csv_text::same_knowledge(
                t,
                cells_taught(
                    if outer { s.row_begun() } else { s },
                    cells,
                    cells.len(),
                    s.parens.len() + 1,
                ),
            )
            &&& t.parens == s.parens
            &&& t.sql.col == s.sql.col
            &&& !t.sql.value_pending
            &&& !t.text.in_str
            &&& !t.scan.in_num_value
        }),
{
    lemma_tuple(s, cells, s.parens, s.sql.col, s.sql.value_pending, s);
}

/// A row of numbers outside of all other parentheses is a row of values.
pub proof fn law_sql_tuple_is_a_row(s: ParserView, cells: Seq<Cell>, vals: Seq<i64>)
    requires
        s.parens.len() == 0,
        0 < cells.len() <= 0x1_0000_0000,
        valid_cells(cells, cells.len(), 1),
        !s.text.in_str,
        !s.scan.in_num_value,
        vals.len() == cells.len(),
        forall|i: int| 0 <= i < cells.len() ==> (#[trigger] cells[i]).value == Sql::Number(vals[i]),
    ensures
        csv_text::same_knowledge(
            sql_fed(s, sql_text(Sql::Tuple(cells))),
            columns::read_cells(s, sql_columns(cells.len()), vals, cells.len()),
        ),
{
    law_sql_tuple_is_read(s, cells);
    lemma_row(s, cells, vals, cells.len());
}

/// The fields of the first `m` columns inside one pair of parentheses.
pub open spec fn sql_columns(m: nat) -> Seq<u32> {
    Seq::new(m, |i: int| column_field(i as u32, 1))
}

proof fn lemma_row(s: ParserView, cells: Seq<Cell>, vals: Seq<i64>, n: nat)
    requires
        n <= cells.len() == vals.len(),
        forall|i: int| 0 <= i < cells.len() ==> (#[trigger] cells[i]).value == Sql::Number(vals[i]),
    ensures
        cells_taught(s.row_begun(), cells, n, 1) == columns::read_cells(
            s,
            sql_columns(cells.len()),
            vals,
            n,
        ),
    decreases n,
{
    if n > 0 {
        lemma_row(s, cells, vals, (n - 1) as nat);
        let k = cells_taught(s.row_begun(), cells, (n - 1) as nat, 1);
        assert(cells[n - 1].value == Sql::Number(vals[n - 1]));
        assert(sql_columns(cells.len())[n - 1] == column_field((n - 1) as u32, 1));
        assert(taught(k, cells[n - 1].value, (n - 1) as u32, 1) == k.with_value(
            column_field((n - 1) as u32, 1),
            vals[n - 1],
        ));
    }
}

/// Behind the comma of a column, and any white space, the next column is to come and is
/// foreseen from what is known of it.
pub proof fn law_sql_column_is_foreseen(s: ParserView, gap: Seq<u8>)
    requires
        s.parens.len() <= 32,
        !s.sql.value_pending,
        !s.text.in_str,
        !s.scan.in_num_value,
        json_text::gaps(gap),
    ensures
        ({
            let t = sql_fed(s, seq![0x2cu8] + gap);
            let u = s.foreseeing(column_field(s.sql.col.wrapping_add(1), s.parens.len()));
            &&& t.sql.value_pending
            &&& t.sql.col == s.sql.col.wrapping_add(1)
            &&& csv_text::same_knowledge(t, s)
            &&& t.np_active == u.np_active
            &&& t.np_active ==> t.np_digits == u.np_digits && t.np_ptr == u.np_ptr && t.num_mag
                == u.num_mag
        }),
{
    lemma_comma(s, s.parens, s.sql.col, s);
    lemma_on(s, seq![0x2cu8], gap);
    lemma_byte(s, 0x2c);
    law_sql_gaps_change_nothing(s.sql_step(0x2c), gap);
}

/// Behind an opening parenthesis, and any white space, the first column of the row is to
/// come and is foreseen.
pub proof fn law_sql_first_column_is_foreseen(s: ParserView, gap: Seq<u8>)
    requires
        s.parens.len() < 32,
        !s.text.in_str,
        !s.scan.in_num_value,
        json_text::gaps(gap),
    ensures
        ({
            let t = sql_fed(s, seq![0x28u8] + gap);
            let k = if s.parens.len() == 0 { s.row_begun() } else { s };
            let u = k.foreseeing(column_field(0, s.parens.len() + 1));
            &&& t.sql.value_pending
            &&& t.sql.col == 0
            &&& t.parens == s.parens.push(s.sql.col)
            &&& csv_text::same_knowledge(t, k)
            &&& t.np_active == u.np_active
            &&& t.np_active ==> t.np_digits == u.np_digits && t.np_ptr == u.np_ptr && t.num_mag
                == u.num_mag
        }),
{
    lemma_open(s, s.parens, s.sql.col, s.sql.value_pending, s);
    lemma_on(s, seq![0x28u8], gap);
    lemma_byte(s, 0x28);
    law_sql_gaps_change_nothing(s.sql_step(0x28), gap);
}

/// A foreseen value that comes true is followed to its last byte.
pub proof fn law_sql_forecast_is_followed(s: ParserView, k: nat)
    requires
        s.sql.value_pending,
        0 < s.parens.len() <= 32,
        !s.text.in_str,
        !s.scan.in_num_value,
        s.np_active,
        s.np_ptr == 0,
        1 <= k <= s.np_digits.len(),
        ascii::is_digit(s.np_digits[0]) || s.np_digits[0] == 0x2d,
        forall|i: int| 1 <= i < s.np_digits.len() ==> ascii::is_digit(#[trigger] s.np_digits[i]),
    ensures
        ({
            let t = sql_fed(s, s.np_digits.take(k as int));
            &&& t.np_active
            &&& t.np_digits == s.np_digits
            &&& t.np_ptr == k
            &&& t.num_mag == s.num_mag
        }),
    decreases k,
{
    let text = s.np_digits;
    lemma_number_bytes(s, text, k, s.parens, s.sql.col, s);
    let m = (k - 1) as nat;
    assert(text.take(k as int).drop_last() =~= text.take(m as int));
    assert(text.take(k as int).last() == text[m as int]);
    if k == 1 {
        assert(text.take(0) =~= Seq::empty());
        assert(sql_fed(s, text.take(0)) == s);
    } else {
        lemma_number_bytes(s, text, m, s.parens, s.sql.col, s);
        law_sql_forecast_is_followed(s, m);
        assert(ascii::is_digit(text[m as int]));
    }
}

} // verus!
