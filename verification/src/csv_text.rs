//! What the numeric model promises of delimited text: the lines of a table of
//! numbers are read as its values, so that what holds of the values holds of the
//! text.

use vstd::prelude::*;
use crate::ascii;
use crate::ascii::{COMMA, LF, MINUS, QUOTE};
use crate::columns;
use crate::foresight;
use crate::hashing;
use crate::hashing::{CSV_TAG, SPREAD};
use crate::numeric;
use crate::parser;
use crate::parser::{CsvState, ParserView, Scan};
use crate::relation::RowValue;

verus! {

/// The state after all of `text`.
pub open spec fn csv_fed(s: ParserView, text: Seq<u8>) -> ParserView
    decreases text.len(),
{
    if text.len() == 0 { s } else { csv_fed(s, text.drop_last()).csv_step(text.last()) }
}

/// The first `n` values of a row, a comma behind each.
pub open spec fn cells_text(vals: Seq<i64>, n: nat) -> Seq<u8>
    decreases n,
{
    if n == 0 {
        Seq::empty()
    } else {
        cells_text(vals, (n - 1) as nat) + numeric::signed_decimal(vals[n - 1] as int).push(COMMA)
    }
}

/// A row of values, with commas between them and a line feed behind.
pub open spec fn line_text(vals: Seq<i64>) -> Seq<u8> {
    cells_text(vals, (vals.len() - 1) as nat) + numeric::signed_decimal(vals.last() as int).push(LF)
}

/// The first `n` rows, one to a line.
pub open spec fn table_text(rows: Seq<Seq<i64>>, n: nat) -> Seq<u8>
    decreases n,
{
    if n == 0 {
        Seq::empty()
    } else {
        table_text(rows, (n - 1) as nat) + line_text(rows[n - 1])
    }
}

/// The fields of the first `m` columns.
pub open spec fn csv_columns(m: nat) -> Seq<u32> {
    Seq::new(m, |i: int| hashing::csv_field_id(i as u32))
}

/// A value has no more digits than are tracked.
pub open spec fn tracked_value(v: i64) -> bool {
    -numeric::pow10(18) < v < numeric::pow10(18)
}

pub open spec fn tracked_row(vals: Seq<i64>) -> bool {
    forall|i: int| 0 <= i < vals.len() ==> tracked_value(#[trigger] vals[i])
}

/// The parser is about to read column `col`.
pub open spec fn at_column(s: ParserView, col: u32) -> bool {
    s.csv == (CsvState { col, in_quote: false, value_pending: true })
}

/// The parser is about to read a row.
pub open spec fn at_row(s: ParserView) -> bool {
    at_column(s, 0) && s.row == Seq::<RowValue>::empty()
}

/// The numeric model knows the same in both states.
pub open spec fn same_knowledge(a: ParserView, b: ParserView) -> bool {
    a.num == b.num && a.cross == b.cross && a.row == b.row
}

pub proof fn lemma_fed_on(s: ParserView, a: Seq<u8>, b: Seq<u8>)
    ensures
        csv_fed(s, a + b) == csv_fed(csv_fed(s, a), b),
    decreases b.len(),
{
    if b.len() == 0 {
        assert(a + b =~= a);
    } else {
        assert((a + b).drop_last() =~= a + b.drop_last());
        lemma_fed_on(s, a, b.drop_last());
    }
}

/// The first `n` bytes of a number put what they stand for into the scan, and change
/// nothing else that the numeric model knows.
pub proof fn lemma_number_bytes(s: ParserView, col: u32, text: Seq<u8>, n: nat)
    requires
        at_column(s, col),
        1 <= n <= text.len(),
        ascii::is_digit(text[0]) || text[0] == MINUS,
        forall|i: int| 1 <= i < text.len() ==> ascii::is_digit(#[trigger] text[i]),
    ensures
        ({
            let t = csv_fed(s, text.take(n as int));
            &&& same_knowledge(t, s)
            &&& t.csv == (CsvState { col, in_quote: false, value_pending: false })
            &&& t.scan == foresight::scanned(
                Scan::begun(hashing::csv_field_id(col), text[0]),
                text.subrange(1, n as int),
            )
            &&& t.scan.in_num_value
        }),
    decreases n,
{
    let m = (n - 1) as nat;
    let field = hashing::csv_field_id(col);
    let c = text[m as int];
    assert(text.take(n as int).drop_last() =~= text.take(m as int));
    assert(text.take(n as int).last() == c);
    if n == 1 {
        assert(text.take(0) =~= Seq::empty());
        assert(csv_fed(s, text.take(0)) == s);
        assert(text.subrange(1, 1) =~= Seq::empty());
        assert(c != QUOTE && c != COMMA && c != LF);
    } else {
        lemma_number_bytes(s, col, text, m);
        assert(ascii::is_digit(c));
        assert(text.subrange(1, n as int).drop_last() =~= text.subrange(1, m as int));
        assert(text.subrange(1, n as int).last() == c);
        assert(c != QUOTE && c != COMMA && c != LF);
    }
}

/// The bytes of the text of a number.
pub proof fn lemma_number_text(v: i64)
    requires
        tracked_value(v),
    ensures
        ({
            let text = numeric::signed_decimal(v as int);
            &&& text.len() >= 1
            &&& ascii::is_digit(text[0]) || text[0] == MINUS
            &&& forall|i: int| 1 <= i < text.len() ==> ascii::is_digit(#[trigger] text[i])
        }),
{
    let text = numeric::signed_decimal(v as int);
    if v < 0 {
        let digits = numeric::decimal((-v) as nat);
        numeric::lemma_decimal_digits((-v) as nat, 18);
        assert forall|i: int| 1 <= i < text.len() implies ascii::is_digit(#[trigger] text[i]) by {
            assert(text[i] == digits[i - 1]);
        }
    } else {
        numeric::lemma_decimal_digits(v as nat, 18);
    }
}

/// A number and the byte that ends its column: the field learns the value, and the
/// next column is foreseen.
proof fn lemma_cell_text(s: ParserView, col: u32, v: i64, c: u8)
    requires
        at_column(s, col),
        tracked_value(v),
        c == COMMA || c == LF,
    ensures
        ({
            let t = csv_fed(s, numeric::signed_decimal(v as int).push(c));
            let known = s.with_value(hashing::csv_field_id(col), v);
            let u = if c == LF { known.row_begun() } else { known };
            let next = if c == LF { 0u32 } else { col.wrapping_add(1) };
            let f = u.foreseeing(hashing::csv_field_id(next));
            &&& same_knowledge(t, u)
            &&& at_column(t, next)
            &&& t.np_active == f.np_active
            &&& t.np_active ==> t.np_digits == f.np_digits && t.np_ptr == f.np_ptr && t.num_mag
                == f.num_mag
        }),
{
    let text = numeric::signed_decimal(v as int);
    let field = hashing::csv_field_id(col);
    lemma_number_text(v);
    lemma_number_bytes(s, col, text, text.len());
    assert(text.take(text.len() as int) =~= text);
    assert(text.subrange(1, text.len() as int) =~= text.skip(1));
    assert(text.push(c).drop_last() =~= text);
    foresight::law_number_reads_back(field, v as int);
    let b = csv_fed(s, text);
    assert(b.scan == foresight::read_number(field, text));
    let done = b.finalized();
    assert(done == b.with_value(field, v));
    assert(same_knowledge(done, s.with_value(field, v)));
}

/// The values of a row are read as they stand in the text.
proof fn lemma_cells_text(s: ParserView, m: nat, vals: Seq<i64>, n: nat)
    requires
        at_row(s),
        n <= vals.len() == m,
        m <= 0x1_0000_0000,
        n < 0x1_0000_0000,
        tracked_row(vals),
    ensures
        ({
            let t = csv_fed(s, cells_text(vals, n));
            let u = columns::read_cells(s, csv_columns(m), vals, n);
            let f = u.foreseeing(hashing::csv_field_id(n as u32));
            &&& same_knowledge(t, u)
            &&& at_column(t, n as u32)
            &&& n > 0 ==> t.np_active == f.np_active
            &&& n > 0 && t.np_active ==> t.np_digits == f.np_digits && t.np_ptr == f.np_ptr
                && t.num_mag == f.num_mag
        }),
    decreases n,
{
    if n > 0 {
        let k = (n - 1) as nat;
        lemma_cells_text(s, m, vals, k);
        let b = csv_fed(s, cells_text(vals, k));
        let u = columns::read_cells(s, csv_columns(m), vals, k);
        let v = vals[k as int];
        let field = hashing::csv_field_id(k as u32);
        lemma_fed_on(s, cells_text(vals, k), numeric::signed_decimal(v as int).push(COMMA));
        lemma_cell_text(b, k as u32, v, COMMA);
        assert(csv_columns(m)[k as int] == field);
        assert(same_knowledge(b.with_value(field, v), u.with_value(field, v)));
    }
}

/// A line of numbers, with commas between them and a line feed behind, is read as
/// the row of their values. Only numbers of more digits than are tracked, and more
/// columns than are counted, are left out.
pub proof fn law_csv_line_is_read(s: ParserView, vals: Seq<i64>)
    requires
        at_row(s),
        1 <= vals.len() <= 0x1_0000_0000,
        tracked_row(vals),
    ensures
        same_knowledge(
            csv_fed(s, line_text(vals)),
            columns::read_cells(s, csv_columns(vals.len()), vals, vals.len()).row_begun(),
        ),
        at_row(csv_fed(s, line_text(vals))),
{
    let m = vals.len();
    let k = (m - 1) as nat;
    lemma_cells_text(s, m, vals, k);
    let b = csv_fed(s, cells_text(vals, k));
    let u = columns::read_cells(s, csv_columns(m), vals, k);
    let v = vals[k as int];
    let field = hashing::csv_field_id(k as u32);
    lemma_fed_on(s, cells_text(vals, k), numeric::signed_decimal(v as int).push(LF));
    lemma_cell_text(b, k as u32, v, LF);
    assert(csv_columns(m)[k as int] == field);
    assert(same_knowledge(b.with_value(field, v), u.with_value(field, v)));
}

/// What a row teaches depends on what was known of the fields alone.
proof fn lemma_cells_congruent(
    a: ParserView,
    b: ParserView,
    cols: Seq<u32>,
    vals: Seq<i64>,
    n: nat,
)
    requires
        a.num == b.num,
        a.cross == b.cross,
    ensures
        same_knowledge(
            columns::read_cells(a, cols, vals, n),
            columns::read_cells(b, cols, vals, n),
        ),
    decreases n,
{
    if n > 0 {
        lemma_cells_congruent(a, b, cols, vals, (n - 1) as nat);
    }
}

/// The lines of a table of numbers are read as the rows of their values.
pub proof fn law_csv_table_is_read(s: ParserView, m: nat, rows: Seq<Seq<i64>>, n: nat)
    requires
        at_row(s),
        1 <= m <= 0x1_0000_0000,
        n <= rows.len(),
        forall|r: int|
            0 <= r < rows.len() ==> (#[trigger] rows[r]).len() == m && tracked_row(rows[r]),
    ensures
        csv_fed(s, table_text(rows, n)).num == columns::read_rows(s, csv_columns(m), rows, n).num,
        csv_fed(s, table_text(rows, n)).cross == columns::read_rows(
            s,
            csv_columns(m),
            rows,
            n,
        ).cross,
        at_row(csv_fed(s, table_text(rows, n))),
    decreases n,
{
    if n > 0 {
        let k = (n - 1) as nat;
        let vals = rows[k as int];
        law_csv_table_is_read(s, m, rows, k);
        let b = csv_fed(s, table_text(rows, k));
        let u = columns::read_rows(s, csv_columns(m), rows, k);
        lemma_fed_on(s, table_text(rows, k), line_text(vals));
        law_csv_line_is_read(b, vals);
        lemma_cells_congruent(b, u, csv_columns(m), vals, m);
        assert(csv_columns(m).len() == m);
    }
}

/// What is known of the first 65536 columns is kept in different places.
pub proof fn law_csv_columns_are_apart(m: nat)
    requires
        m <= 0x1_0000,
    ensures
        columns::apart(csv_columns(m)),
{
    let cols = csv_columns(m);
    assert forall|a: int, b: int| 0 <= a < b < cols.len() implies parser::slot_of(
        #[trigger] cols[a],
    ) != parser::slot_of(#[trigger] cols[b]) by {
        if parser::slot_of(cols[a]) == parser::slot_of(cols[b]) {
            lemma_slots_differ(a as u32, b as u32);
        }
    }
}

proof fn lemma_slots_differ(a: u32, b: u32)
    requires
        a < b < 0x1_0000,
    ensures
        parser::slot_of(hashing::csv_field_id(a)) != parser::slot_of(hashing::csv_field_id(b)),
{
    let x = a.wrapping_mul(SPREAD);
    let y = b.wrapping_mul(SPREAD);
    assert((x ^ CSV_TAG) % 0x1_0000 == (y ^ CSV_TAG) % 0x1_0000 ==> x % 0x1_0000 == y % 0x1_0000)
        by (bit_vector);
    if x % 0x1_0000 == y % 0x1_0000 {
        // the low half of the factor has an inverse modulo 65536
        let m = 0x1_0000int;
        let f = SPREAD as int;
        let d = b - a;
        let qa = (a * f) / 0x1_0000_0000;
        let qb = (b * f) / 0x1_0000_0000;
        let ra = x as int / m;
        let rb = y as int / m;
        let q = (qb - qa) * 0x1_0000 + (rb - ra);
        assert(a * f == qa * 0x1_0000_0000 + x);
        assert(b * f == qb * 0x1_0000_0000 + y);
        assert(d * f == q * m) by (nonlinear_arith)
            requires
                a * f == qa * 0x1_0000_0000 + x,
                b * f == qb * 0x1_0000_0000 + y,
                y - x == (rb - ra) * m,
                d == b - a,
                q == (qb - qa) * 0x1_0000 + (rb - ra),
                m == 0x1_0000,
        ;
        let inv = 0x2f51int;
        let k = 0x1d3e3ee5int;
        assert(f * inv == k * m + 1);
        let z = q * inv - d * k;
        assert(d == m * z) by (nonlinear_arith)
            requires
                d * f == q * m,
                f * inv == k * m + 1,
                z == q * inv - d * k,
        ;
        assert(false) by (nonlinear_arith)
            requires
                d == m * z,
                0 < d < m,
        ;
    }
}

/// A column of a table of numbers that equals another one of its row plus a constant
/// is foreseen when the text has come to it: from its third line on, or from its
/// fourth where it had a relation before, unless the continuation of its last step
/// has been right at least as often. Left out are numbers of more digits than are
/// tracked, columns beyond those that are kept apart, columns too far behind the
/// other one for it to be still remembered, and lines in which a third column breaks
/// a distance that it had kept just as long.
pub proof fn law_related_csv_column_is_foreseen(
    s: ParserView,
    m: nat,
    rows: Seq<Seq<i64>>,
    next: Seq<i64>,
    j: int,
    k: int,
)
    requires
        s.sound(),
        at_row(s),
        m <= 0x1_0000,
        rows.len() >= 2,
        rows.len() == 2 ==> !s.cross[parser::slot_of(hashing::csv_field_id(j as u32))].seen,
        forall|r: int|
            0 <= r < rows.len() ==> (#[trigger] rows[r]).len() == m && tracked_row(rows[r]),
        next.len() == m,
        tracked_row(next),
        columns::first_seen(j) <= k < j < m,
        forall|r: int|
            0 <= r < rows.len() ==> columns::distance(#[trigger] rows[r], k, j)
                == columns::distance(next, k, j),
        forall|o: int|
            columns::first_seen(j) <= o < j && #[trigger] columns::kept(
                rows,
                rows.len() as int,
                o,
                j,
            ) ==> columns::distance(next, o, j) == columns::distance(rows[rows.len() - 1], o, j),
    ensures
        ({
            let t = csv_fed(s, table_text(rows, rows.len()) + cells_text(next, j as nat));
            let slot = t.num[parser::slot_of(hashing::csv_field_id(j as u32))];
            let cross = t.cross[parser::slot_of(hashing::csv_field_id(j as u32))];
            &&& cross.hits >= 1
            &&& cross.hits > slot.hits ==> t.np_active && t.np_ptr == 0 && t.np_digits
                == numeric::signed_decimal(next[j] as int)
        }),
{
    let cols = csv_columns(m);
    assert(cols[j] == hashing::csv_field_id(j as u32));
    assert(cols.len() == m);
    law_csv_columns_are_apart(m);
    law_csv_table_is_read(s, m, rows, rows.len());
    let b = csv_fed(s, table_text(rows, rows.len()));
    let u = columns::read_rows(s, cols, rows, rows.len());
    lemma_fed_on(s, table_text(rows, rows.len()), cells_text(next, j as nat));
    lemma_cells_text(b, m, next, j as nat);
    lemma_cells_congruent(b, u, cols, next, j as nat);
    assert forall|r: int| 0 <= r < rows.len() implies (#[trigger] rows[r]).len() == cols.len() by {
    }
    columns::law_related_column_is_foreseen(s, cols, rows, next, j, k);
    let t1 = columns::read_cells(b, cols, next, j as nat);
    let t2 = columns::read_cells(u, cols, next, j as nat);
    assert(same_knowledge(t1, t2));
    assert(t1.foreseeing(cols[j]).np_active == t2.foreseeing(cols[j]).np_active);
    assert(t1.foreseeing(cols[j]).np_active ==> t1.foreseeing(cols[j]).np_digits
        == t2.foreseeing(cols[j]).np_digits);
}

} // verus!
