//! What the numeric model promises of tables: a column that follows another one of
//! its row is foreseen.

use vstd::prelude::*;
use crate::numeric;
use crate::numeric::NUMSLOTS;
use crate::parser;
use crate::parser::ParserView;
use crate::relation;
use crate::relation::{CrossState, RowValue, MAX_ROW};

verus! {

/// What is known of the columns is kept in different places.
pub open spec fn apart(cols: Seq<u32>) -> bool {
    forall|a: int, b: int|
        0 <= a < b < cols.len() ==> parser::slot_of(#[trigger] cols[a]) != parser::slot_of(
            #[trigger] cols[b],
        )
}

/// The state after the first `n` values of a row.
pub open spec fn read_cells(s: ParserView, cols: Seq<u32>, vals: Seq<i64>, n: nat) -> ParserView
    decreases n,
{
    if n == 0 {
        s.row_begun()
    } else {
        read_cells(s, cols, vals, (n - 1) as nat).with_value(cols[n - 1], vals[n - 1])
    }
}

/// The state after the first `n` of `rows`.
pub open spec fn read_rows(
    s: ParserView,
    cols: Seq<u32>,
    rows: Seq<Seq<i64>>,
    n: nat,
) -> ParserView
    decreases n,
{
    if n == 0 {
        s
    } else {
        read_cells(read_rows(s, cols, rows, (n - 1) as nat), cols, rows[n - 1], cols.len())
    }
}

/// How far column `j` is from column `o`.
pub open spec fn distance(vals: Seq<i64>, o: int, j: int) -> i64 {
    vals[j].wrapping_sub(vals[o])
}

/// In the last two of the first `n` rows, column `j` kept its distance from column
/// `o`.
pub open spec fn kept(rows: Seq<Seq<i64>>, n: int, o: int, j: int) -> bool {
    distance(rows[n - 1], o, j) == distance(rows[n - 2], o, j)
}

/// The first column that is still remembered when column `j` comes.
pub open spec fn first_seen(j: int) -> int {
    if j > MAX_ROW { j - MAX_ROW } else { 0 }
}

/// What column `c` leaves in the row.
spec fn cell(s: ParserView, cols: Seq<u32>, vals: Seq<i64>, c: int) -> RowValue {
    let slot = s.num[parser::slot_of(cols[c])];
    RowValue {
        field: cols[c],
        value: vals[c],
        before: if slot.seen { Some(slot.last) } else { None },
    }
}

/// The values that are remembered when column `n` comes.
spec fn window(s: ParserView, cols: Seq<u32>, vals: Seq<i64>, n: int) -> Seq<RowValue> {
    Seq::new((n - first_seen(n)) as nat, |i: int| cell(s, cols, vals, first_seen(n) + i))
}

proof fn lemma_place_absent(row: Seq<RowValue>, field: u32)
    requires
        forall|i: int| 0 <= i < row.len() ==> (#[trigger] row[i]).field != field,
    ensures
        relation::place(row, field) == row.len(),
    decreases row.len(),
{
    if row.len() > 0 {
        assert forall|i: int| 0 <= i < row.skip(1).len() implies (#[trigger] row.skip(1)[i]).field
            != field by {
            assert(row.skip(1)[i] == row[i + 1]);
        }
        lemma_place_absent(row.skip(1), field);
    }
}

proof fn lemma_place_at(row: Seq<RowValue>, at: int)
    requires
        0 <= at < row.len(),
        forall|i: int| 0 <= i < at ==> (#[trigger] row[i]).field != row[at].field,
    ensures
        relation::place(row, row[at].field) == at,
    decreases row.len(),
{
    if at > 0 {
        assert forall|i: int| 0 <= i < at - 1 implies (#[trigger] row.skip(1)[i]).field
            != row.skip(1)[at - 1].field by {
            assert(row.skip(1)[i] == row[i + 1]);
        }
        assert(row[0].field != row[at].field);
        lemma_place_at(row.skip(1), at - 1);
    }
}

proof fn lemma_place_found(row: Seq<RowValue>, field: u32)
    ensures
        0 <= relation::place(row, field) <= row.len(),
        relation::place(row, field) < row.len() ==> row[relation::place(row, field)].field == field,
    decreases row.len(),
{
    if row.len() > 0 && row[0].field != field {
        lemma_place_found(row.skip(1), field);
    }
}

proof fn lemma_nearest(row: Seq<RowValue>, field: u32)
    requires
        row.len() > 0,
        row.last().field != field,
    ensures
        relation::nearest(row, field) == Some(row.last()),
{
}

/// A value from which the offset was kept is found, if there is one.
proof fn lemma_steady_found(row: Seq<RowValue>, field: u32, last: i64, actual: i64)
    ensures
        match relation::nearest_steady(row, field, last, actual) {
            Some(e) => row.contains(e) && e.field != field && e.steady(last, actual),
            None => forall|i: int|
                0 <= i < row.len() ==> (#[trigger] row[i]).field == field || !row[i].steady(
                    last,
                    actual,
                ),
        },
    decreases row.len(),
{
    if row.len() > 0 {
        let front = row.drop_last();
        lemma_steady_found(front, field, last, actual);
        if row.last().field != field && row.last().steady(last, actual) {
            assert(row[row.len() - 1] == row.last());
        } else {
            match relation::nearest_steady(row, field, last, actual) {
                Some(e) => {
                    let i = choose|i: int| 0 <= i < front.len() && front[i] == e;
                    assert(row[i] == e);
                },
                None => {
                    assert forall|i: int| 0 <= i < row.len() implies (#[trigger] row[i]).field
                        == field || !row[i].steady(last, actual) by {
                        if i < row.len() - 1 {
                            assert(front[i] == row[i]);
                        }
                    }
                },
            }
        }
    }
}

/// The row after one more column.
proof fn lemma_window(s: ParserView, cols: Seq<u32>, vals: Seq<i64>, m: int)
    requires
        apart(cols),
        0 <= m < cols.len(),
    ensures
        relation::noted(window(s, cols, vals, m), cell(s, cols, vals, m)) == window(
            s,
            cols,
            vals,
            m + 1,
        ),
{
    let w = window(s, cols, vals, m);
    assert forall|i: int| 0 <= i < w.len() implies (#[trigger] w[i]).field != cols[m] by {
        assert(w[i].field == cols[first_seen(m) + i]);
    }
    lemma_place_absent(w, cols[m]);
    assert(relation::noted(w, cell(s, cols, vals, m)) =~= window(s, cols, vals, m + 1));
}

/// Every column of a row learns its own value and nothing else.
proof fn lemma_cells(s: ParserView, cols: Seq<u32>, vals: Seq<i64>, n: nat)
    requires
        s.num.len() == NUMSLOTS,
        s.cross.len() == NUMSLOTS,
        apart(cols),
        n <= cols.len() == vals.len(),
    ensures
        ({
            let t = read_cells(s, cols, vals, n);
            &&& t.num.len() == NUMSLOTS
            &&& t.cross.len() == NUMSLOTS
            &&& t.row == window(s, cols, vals, n as int)
            &&& forall|c: int|
                0 <= c < n ==> t.num[parser::slot_of(#[trigger] cols[c])] == s.num[parser::slot_of(
                    cols[c],
                )].learned(vals[c])
            &&& forall|c: int|
                0 <= c < n ==> t.cross[parser::slot_of(#[trigger] cols[c])]
                    == s.cross[parser::slot_of(cols[c])].learned(
                    cols[c],
                    s.num[parser::slot_of(cols[c])],
                    window(s, cols, vals, c),
                    vals[c],
                )
            &&& forall|c: int|
                n <= c < cols.len() ==> t.num[parser::slot_of(#[trigger] cols[c])]
                    == s.num[parser::slot_of(cols[c])] && t.cross[parser::slot_of(cols[c])]
                    == s.cross[parser::slot_of(cols[c])]
        }),
    decreases n,
{
    if n == 0 {
        assert(window(s, cols, vals, 0) =~= Seq::empty());
    } else {
        let m = (n - 1) as nat;
        lemma_cells(s, cols, vals, m);
        lemma_window(s, cols, vals, m as int);
        let b = read_cells(s, cols, vals, m);
        let t = read_cells(s, cols, vals, n);
        let f = parser::slot_of(cols[m as int]);
        assert(t == b.with_value(cols[m as int], vals[m as int]));
        assert(b.num[f] == s.num[f] && b.cross[f] == s.cross[f]);
        let num = s.num[f].learned(vals[m as int]);
        let cross = s.cross[f].learned(
            cols[m as int],
            s.num[f],
            window(s, cols, vals, m as int),
            vals[m as int],
        );
        assert(t.num == b.num.update(f, num));
        assert(t.cross == b.cross.update(f, cross));
        assert forall|c: int| 0 <= c < cols.len() && c != m implies parser::slot_of(
            #[trigger] cols[c],
        ) != f by {
            if c < m {
                assert(parser::slot_of(cols[c]) != parser::slot_of(cols[m as int]));
            } else {
                assert(parser::slot_of(cols[m as int]) != parser::slot_of(cols[c]));
            }
        }
    }
}

/// A remembered column is found in the row.
proof fn lemma_window_value(s: ParserView, cols: Seq<u32>, vals: Seq<i64>, j: int, o: int)
    requires
        apart(cols),
        first_seen(j) <= o < j < cols.len(),
    ensures
        relation::value_in(window(s, cols, vals, j), cols[o]) == Some(vals[o]),
{
    let w = window(s, cols, vals, j);
    let lo = first_seen(j);
    assert forall|i: int| 0 <= i < o - lo implies (#[trigger] w[i]).field != w[o - lo].field by {
        assert(w[i].field == cols[lo + i]);
    }
    lemma_place_at(w, o - lo);
    assert(w[o - lo].value == vals[o]);
}

proof fn lemma_offset(a: i64, b: i64, c: i64, d: i64)
    ensures
        a.wrapping_add(b.wrapping_sub(c)) == d <==> d.wrapping_sub(a) == b.wrapping_sub(c),
{
}

proof fn lemma_offset_of_sum(a: i64, b: i64)
    ensures
        a.wrapping_add(b).wrapping_sub(a) == b,
{
}

/// The relation is to a remembered column, at the distance of this row.
spec fn follows(x: CrossState, cols: Seq<u32>, vals: Seq<i64>, j: int, o: int) -> bool {
    &&& first_seen(j) <= o < j
    &&& x.seen
    &&& x.source == cols[o]
    &&& x.offset == distance(vals, o, j)
}

/// After how many rows a relation is to a column of the last of them: one that was
/// there before may outlive the first row.
spec fn settling(x: CrossState) -> int {
    if x.seen { 2 } else { 1 }
}

/// After `n` rows the relation is to a column of the last one, and if it had been so
/// the row before, to one from which the distance was kept.
spec fn settled(
    x: CrossState,
    cols: Seq<u32>,
    rows: Seq<Seq<i64>>,
    n: int,
    j: int,
    o: int,
    first: int,
) -> bool {
    follows(x, cols, rows[n - 1], j, o) && (n > first ==> kept(rows, n, o, j))
}

/// The first relation of a column is to one of its row.
proof fn lemma_first_row(s: ParserView, cols: Seq<u32>, vals: Seq<i64>, j: int)
    requires
        s.num.len() == NUMSLOTS,
        s.cross.len() == NUMSLOTS,
        apart(cols),
        0 < j < cols.len() == vals.len(),
        !s.cross[parser::slot_of(cols[j])].seen,
    ensures
        exists|o: int|
            follows(
                read_cells(s, cols, vals, cols.len()).cross[parser::slot_of(cols[j])],
                cols,
                vals,
                j,
                o,
            ),
{
    lemma_cells(s, cols, vals, cols.len());
    let w = window(s, cols, vals, j);
    let slot = s.num[parser::slot_of(cols[j])];
    let x = s.cross[parser::slot_of(cols[j])].learned(cols[j], slot, w, vals[j]);
    assert(w.last() == cell(s, cols, vals, j - 1));
    lemma_nearest(w, cols[j]);
    lemma_steady_found(w, cols[j], slot.last, vals[j]);
    match relation::nearest_steady(w, cols[j], slot.last, vals[j]) {
        Some(e) if slot.seen => {
            let i = choose|i: int| 0 <= i < w.len() && w[i] == e;
            assert(follows(x, cols, vals, j, first_seen(j) + i));
        },
        _ => {
            assert(follows(x, cols, vals, j, j - 1));
        },
    }
}

/// Where some column kept its distance from one row to the next, the relation,
/// whatever it was before, is to a column of the row.
proof fn lemma_second_row(
    s: ParserView,
    cols: Seq<u32>,
    prev: Seq<i64>,
    vals: Seq<i64>,
    j: int,
    k: int,
)
    requires
        s.num.len() == NUMSLOTS,
        s.cross.len() == NUMSLOTS,
        apart(cols),
        first_seen(j) <= k < j < cols.len() == vals.len() == prev.len(),
        forall|c: int|
            0 <= c < cols.len() ==> s.num[parser::slot_of(#[trigger] cols[c])].seen
                && s.num[parser::slot_of(cols[c])].last == prev[c],
        distance(vals, k, j) == distance(prev, k, j),
    ensures
        exists|o: int|
            follows(
                read_cells(s, cols, vals, cols.len()).cross[parser::slot_of(cols[j])],
                cols,
                vals,
                j,
                o,
            ),
{
    lemma_cells(s, cols, vals, cols.len());
    let w = window(s, cols, vals, j);
    let slot = s.num[parser::slot_of(cols[j])];
    let x0 = s.cross[parser::slot_of(cols[j])];
    let x = x0.learned(cols[j], slot, w, vals[j]);
    let lo = first_seen(j);
    if x0.forecast(w) == Some(vals[j]) {
        lemma_place_found(w, x0.source);
        let i = relation::place(w, x0.source);
        assert(w[i] == cell(s, cols, vals, lo + i));
        lemma_offset_of_sum(vals[lo + i], x0.offset);
        assert(follows(x, cols, vals, j, lo + i));
    } else {
        lemma_steady_found(w, cols[j], slot.last, vals[j]);
        assert(w[k - lo].steady(slot.last, vals[j]));
        assert(w[k - lo].field == cols[k]);
        let e = relation::nearest_steady(w, cols[j], slot.last, vals[j])->0;
        let i = choose|i: int| 0 <= i < w.len() && w[i] == e;
        assert(follows(x, cols, vals, j, lo + i));
    }
}

/// Where some column kept its distance from one row to the next, the relation is to
/// a column that did, and it is trusted.
proof fn lemma_next_row(
    s: ParserView,
    cols: Seq<u32>,
    prev: Seq<i64>,
    vals: Seq<i64>,
    j: int,
    k: int,
    o: int,
)
    requires
        s.num.len() == NUMSLOTS,
        s.cross.len() == NUMSLOTS,
        apart(cols),
        first_seen(j) <= k < j < cols.len() == vals.len() == prev.len(),
        forall|c: int|
            0 <= c < cols.len() ==> s.num[parser::slot_of(#[trigger] cols[c])].seen
                && s.num[parser::slot_of(cols[c])].last == prev[c],
        follows(s.cross[parser::slot_of(cols[j])], cols, prev, j, o),
        distance(vals, k, j) == distance(prev, k, j),
    ensures
        ({
            let x = read_cells(s, cols, vals, cols.len()).cross[parser::slot_of(cols[j])];
            &&& x.hits >= 1
            &&& exists|p: int|
                follows(x, cols, vals, j, p) && distance(vals, p, j) == distance(prev, p, j)
        }),
{
    lemma_cells(s, cols, vals, cols.len());
    let w = window(s, cols, vals, j);
    let slot = s.num[parser::slot_of(cols[j])];
    let x0 = s.cross[parser::slot_of(cols[j])];
    let x = x0.learned(cols[j], slot, w, vals[j]);
    let lo = first_seen(j);
    lemma_window_value(s, cols, vals, j, o);
    lemma_offset(vals[o], prev[j], prev[o], vals[j]);
    if x0.forecast(w) == Some(vals[j]) {
        assert(follows(x, cols, vals, j, o));
    } else {
        lemma_steady_found(w, cols[j], slot.last, vals[j]);
        assert(w[k - lo].steady(slot.last, vals[j]));
        assert(w[k - lo].field == cols[k]);
        let e = relation::nearest_steady(w, cols[j], slot.last, vals[j])->0;
        let i = choose|i: int| 0 <= i < w.len() && w[i] == e;
        assert(follows(x, cols, vals, j, lo + i));
        assert(distance(vals, lo + i, j) == distance(prev, lo + i, j));
    }
}

/// After `n` rows every column remembers its last value.
proof fn lemma_rows(s: ParserView, cols: Seq<u32>, rows: Seq<Seq<i64>>, n: nat)
    requires
        s.num.len() == NUMSLOTS,
        s.cross.len() == NUMSLOTS,
        apart(cols),
        n <= rows.len(),
        forall|r: int| 0 <= r < rows.len() ==> (#[trigger] rows[r]).len() == cols.len(),
    ensures
        ({
            let t = read_rows(s, cols, rows, n);
            &&& t.num.len() == NUMSLOTS
            &&& t.cross.len() == NUMSLOTS
            &&& n > 0 ==> forall|c: int|
                0 <= c < cols.len() ==> t.num[parser::slot_of(#[trigger] cols[c])].seen
                    && t.num[parser::slot_of(cols[c])].last == rows[n - 1][c]
        }),
    decreases n,
{
    if n > 0 {
        lemma_rows(s, cols, rows, (n - 1) as nat);
        lemma_cells(
            read_rows(s, cols, rows, (n - 1) as nat),
            cols,
            rows[n - 1],
            cols.len(),
        );
    }
}

/// The relation after `n` rows.
proof fn lemma_relation_after(
    s: ParserView,
    cols: Seq<u32>,
    rows: Seq<Seq<i64>>,
    n: nat,
    j: int,
    k: int,
)
    requires
        s.num.len() == NUMSLOTS,
        s.cross.len() == NUMSLOTS,
        apart(cols),
        settling(s.cross[parser::slot_of(cols[j])]) <= n <= rows.len(),
        forall|r: int| 0 <= r < rows.len() ==> (#[trigger] rows[r]).len() == cols.len(),
        first_seen(j) <= k < j < cols.len(),
        forall|r: int|
            0 <= r < rows.len() ==> distance(#[trigger] rows[r], k, j) == distance(rows[0], k, j),
    ensures
        ({
            let x = read_rows(s, cols, rows, n).cross[parser::slot_of(cols[j])];
            let first = settling(s.cross[parser::slot_of(cols[j])]);
            &&& exists|o: int| settled(x, cols, rows, n as int, j, o, first)
            &&& n > first ==> x.hits >= 1
        }),
    decreases n,
{
    let first = settling(s.cross[parser::slot_of(cols[j])]);
    let x = read_rows(s, cols, rows, n).cross[parser::slot_of(cols[j])];
    let m = (n - 1) as nat;
    let t = read_rows(s, cols, rows, m);
    let vals = rows[n - 1];
    lemma_rows(s, cols, rows, m);
    if n == 1 {
        lemma_first_row(s, cols, vals, j);
        let o = choose|o: int| follows(x, cols, vals, j, o);
        assert(settled(x, cols, rows, n as int, j, o, first));
    } else {
        let prev = rows[n - 2];
        assert(distance(vals, k, j) == distance(prev, k, j));
        if n == first {
            lemma_second_row(t, cols, prev, vals, j, k);
            let o = choose|o: int| follows(x, cols, vals, j, o);
            assert(settled(x, cols, rows, n as int, j, o, first));
        } else {
            lemma_relation_after(s, cols, rows, m, j, k);
            let x0 = t.cross[parser::slot_of(cols[j])];
            let o = choose|o: int| settled(x0, cols, rows, m as int, j, o, first);
            lemma_next_row(t, cols, prev, vals, j, k, o);
            let p = choose|p: int|
                follows(x, cols, vals, j, p) && distance(vals, p, j) == distance(prev, p, j);
            assert(settled(x, cols, rows, n as int, j, p, first));
        }
    }
}

/// What is foreseen of column `j` once the columns before it have been read. Where it
/// kept its distance from some remembered column in every row, it is foreseen by one
/// from which it kept it in the last two, unless the continuation of its last step
/// has been right at least as often. It takes two rows for a column that had no
/// relation before, and three for one that had, whatever that was.
pub proof fn law_steady_column_is_followed(
    s: ParserView,
    cols: Seq<u32>,
    rows: Seq<Seq<i64>>,
    next: Seq<i64>,
    j: int,
    k: int,
)
    requires
        s.sound(),
        apart(cols),
        rows.len() >= 2,
        rows.len() == 2 ==> !s.cross[parser::slot_of(cols[j])].seen,
        forall|r: int| 0 <= r < rows.len() ==> (#[trigger] rows[r]).len() == cols.len(),
        next.len() == cols.len(),
        first_seen(j) <= k < j < cols.len(),
        forall|r: int|
            0 <= r < rows.len() ==> distance(#[trigger] rows[r], k, j) == distance(rows[0], k, j),
    ensures
        ({
            let n = rows.len() as int;
            let t = read_cells(read_rows(s, cols, rows, rows.len()), cols, next, j as nat);
            let slot = t.num[parser::slot_of(cols[j])];
            let cross = t.cross[parser::slot_of(cols[j])];
            &&& cross.hits >= 1
            &&& cross.hits > slot.hits ==> exists|o: int|
                {
                    &&& first_seen(j) <= o < j
                    &&& #[trigger] kept(rows, n, o, j)
                    &&& t.foreseeing(cols[j]).np_active
                    &&& t.foreseeing(cols[j]).np_digits == numeric::signed_decimal(
                        next[o].wrapping_add(distance(rows[n - 1], o, j)) as int,
                    )
                }
        }),
{
    let n = rows.len() as int;
    let before = read_rows(s, cols, rows, rows.len());
    lemma_relation_after(s, cols, rows, rows.len(), j, k);
    lemma_rows(s, cols, rows, rows.len());
    lemma_cells(before, cols, next, j as nat);
    let t = read_cells(before, cols, next, j as nat);
    let x = before.cross[parser::slot_of(cols[j])];
    let first = settling(s.cross[parser::slot_of(cols[j])]);
    let o = choose|o: int| settled(x, cols, rows, n, j, o, first);
    lemma_window_value(before, cols, next, j, o);
    let v = next[o].wrapping_add(distance(rows[n - 1], o, j));
    let slot = t.num[parser::slot_of(cols[j])];
    assert(t.cross[parser::slot_of(cols[j])] == x);
    assert(x.forecast(t.row) == Some(v));
    assert(kept(rows, n, o, j));
    if x.hits > slot.hits {
        assert(t.foreseeing(cols[j]) == t.expecting(v, x.hits));
    }
}

/// A column that equals another one of its row plus a constant is foreseen from its
/// third row on, or from its fourth where it had a relation before, unless the
/// continuation of its last step has been right at least as often. Left out are
/// columns whose fields share a place in the model, columns too far behind the other
/// one for it to be still remembered, and rows in which a third column breaks a
/// distance that it had kept just as long: which of the two to follow is then not
/// known.
pub proof fn law_related_column_is_foreseen(
    s: ParserView,
    cols: Seq<u32>,
    rows: Seq<Seq<i64>>,
    next: Seq<i64>,
    j: int,
    k: int,
)
    requires
        s.sound(),
        apart(cols),
        rows.len() >= 2,
        rows.len() == 2 ==> !s.cross[parser::slot_of(cols[j])].seen,
        forall|r: int| 0 <= r < rows.len() ==> (#[trigger] rows[r]).len() == cols.len(),
        next.len() == cols.len(),
        first_seen(j) <= k < j < cols.len(),
        forall|r: int|
            0 <= r < rows.len() ==> distance(#[trigger] rows[r], k, j) == distance(next, k, j),
        forall|o: int|
            first_seen(j) <= o < j && #[trigger] kept(rows, rows.len() as int, o, j) ==> distance(
                next,
                o,
                j,
            ) == distance(rows[rows.len() - 1], o, j),
    ensures
        ({
            let t = read_cells(read_rows(s, cols, rows, rows.len()), cols, next, j as nat);
            let slot = t.num[parser::slot_of(cols[j])];
            let cross = t.cross[parser::slot_of(cols[j])];
            &&& cross.hits >= 1
            &&& cross.hits > slot.hits ==> t.foreseeing(cols[j]).np_active && t.foreseeing(
                cols[j],
            ).np_digits == numeric::signed_decimal(next[j] as int)
        }),
{
    let n = rows.len() as int;
    assert(distance(rows[0], k, j) == distance(next, k, j));
    law_steady_column_is_followed(s, cols, rows, next, j, k);
    let t = read_cells(read_rows(s, cols, rows, rows.len()), cols, next, j as nat);
    let slot = t.num[parser::slot_of(cols[j])];
    let cross = t.cross[parser::slot_of(cols[j])];
    if cross.hits > slot.hits {
        let o = choose|o: int|
            {
                &&& first_seen(j) <= o < j
                &&& #[trigger] kept(rows, n, o, j)
                &&& t.foreseeing(cols[j]).np_active
                &&& t.foreseeing(cols[j]).np_digits == numeric::signed_decimal(
                    next[o].wrapping_add(distance(rows[n - 1], o, j)) as int,
                )
            };
        lemma_offset(next[o], rows[n - 1][j], rows[n - 1][o], next[j]);
    }
}

} // verus!
