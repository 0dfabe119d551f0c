//! What the numeric model knows of a field after the values it had, and how sure it is
//! of what it foresees.

use vstd::prelude::*;
use crate::accuracy;
use crate::foresight;
use crate::match_model;
use crate::numeric;
use crate::numeric::NumState;
use crate::parser::{ParserView, Scan};
use crate::relation;
use crate::relation::{CrossState, RowValue};
use crate::tables;
use crate::tables::UNIT;

verus! {

/// The number that decimal digits stand for.
pub open spec fn digits_value(s: Seq<u8>) -> int
    decreases s.len(),
{
    if s.len() == 0 { 0 } else { 10 * digits_value(s.drop_last()) + (s.last() - 0x30) }
}

proof fn lemma_decimal_value(n: nat)
    ensures
        ({
            let s = numeric::decimal(n);
            &&& s.len() >= 1
            &&& digits_value(s) == n
            &&& forall|i: int| 0 <= i < s.len() ==> 0x30 <= #[trigger] s[i] <= 0x39
            &&& s[0] != 0x30 || n == 0 && s.len() == 1
        }),
    decreases n,
{
    let s = numeric::decimal(n);
    if n < 10 {
        assert(s.drop_last() =~= Seq::empty());
        assert(digits_value(s.drop_last()) == 0);
    } else {
        lemma_decimal_value(n / 10);
        assert(s.drop_last() =~= numeric::decimal(n / 10));
        assert(s[0] == numeric::decimal(n / 10)[0]);
    }
}

/// The text of a number is its decimal digits, without leading zeros, behind a minus
/// sign where it is negative, for every number.
pub proof fn law_number_is_written(v: int)
    ensures
        ({
            let s = numeric::signed_decimal(v);
            let digits = if v < 0 { s.skip(1) } else { s };
            &&& v < 0 ==> s.len() >= 2 && s[0] == 0x2d && digits_value(digits) == -v
            &&& v >= 0 ==> digits_value(digits) == v
            &&& digits.len() >= 1
            &&& forall|i: int| 0 <= i < digits.len() ==> 0x30 <= #[trigger] digits[i] <= 0x39
            &&& digits[0] != 0x30 || v == 0 && digits.len() == 1
        }),
{
    if v < 0 {
        lemma_decimal_value((-v) as nat);
        assert(numeric::signed_decimal(v).skip(1) =~= numeric::decimal((-v) as nat));
    } else {
        lemma_decimal_value(v as nat);
    }
}

/// What a field learns from a value, whatever it is: the value, the step that led to it
/// (none for the first value), and whether it was foreseen. A value that was gives a
/// hit, up to 255; one that was not leaves half of the hits.
pub proof fn law_value_is_learned(s: NumState, v: i64)
    ensures
        ({
            let t = s.learned(v);
            &&& t.seen
            &&& t.last == v
            &&& !s.seen ==> t.delta == 0 && t.hits == 0
            &&& s.seen && i64::MIN <= v - s.last <= i64::MAX ==> t.delta == v - s.last
            &&& s.seen && v == s.forecast() ==> t.hits == (if s.hits < 255 { s.hits + 1 } else { 255 })
            &&& s.seen && v != s.forecast() ==> t.hits == s.hits / 2
        }),
{
}

/// What a field is expected to have next continues its last step.
pub proof fn law_step_is_continued(s: NumState)
    ensures
        i64::MIN <= s.last + s.delta <= i64::MAX ==> s.forecast() == s.last + s.delta,
        s.last + s.delta > i64::MAX ==> s.forecast() == s.last + s.delta - 0x1_0000_0000_0000_0000,
        s.last + s.delta < i64::MIN ==> s.forecast() == s.last + s.delta + 0x1_0000_0000_0000_0000,
{
}

/// The state after the first `n` values of the progression from `a` with the step `d`.
pub open spec fn progressed(s: NumState, a: int, d: int, n: nat) -> NumState
    decreases n,
{
    if n == 0 {
        s
    } else {
        progressed(s, a, d, (n - 1) as nat).learned((a + (n - 1) * d) as i64)
    }
}

/// A field that goes on by the same step is foreseen from its third value on, and the
/// trust in it grows with every value, up to the most there is: for values of any size.
pub proof fn law_progression_is_trusted(s: NumState, a: int, d: int, n: nat)
    requires
        n >= 2,
        forall|i: int| 0 <= i <= n ==> i64::MIN <= #[trigger] (a + i * d) <= i64::MAX,
        i64::MIN <= d <= i64::MAX,
        s.hits <= 255,
    ensures
        ({
            let t = progressed(s, a, d, n);
            &&& t.seen
            &&& t.forecast() == a + n * d
            &&& t.delta == d
            &&& 255 >= t.hits >= (if n <= 257 { n - 2 } else { 255 })
            &&& !s.seen ==> n >= 3 && d != 0 ==> t.hits == (if n <= 257 { n - 2 } else { 255 })
        }),
    decreases n,
{
    reveal_with_fuel(progressed, 3);
    assert(i64::MIN <= a + 0 * d <= i64::MAX);
    assert(i64::MIN <= a + 1 * d <= i64::MAX);
    assert(i64::MIN <= a + n * d <= i64::MAX);
    assert(i64::MIN <= a + (n - 1) * d <= i64::MAX);
    assert(a + n * d == (a + (n - 1) * d) + d) by (nonlinear_arith);
    if n == 2 {
        let t1 = s.learned((a + 0 * d) as i64);
        assert(progressed(s, a, d, 1) == t1);
        assert(progressed(s, a, d, 2) == t1.learned((a + 1 * d) as i64));
    } else {
        let k = (n - 1) as nat;
        assert forall|i: int| 0 <= i <= k implies i64::MIN <= #[trigger] (a + i * d) <= i64::MAX by {
        }
        law_progression_is_trusted(s, a, d, k);
        let t = progressed(s, a, d, k);
        assert(t.last == (a + (k - 1) * d));
        if k == 2 {
            assert(progressed(s, a, d, 1) == s.learned((a + 0 * d) as i64));
        }
    }
}

/// The hypothesis that is followed: its value and its hits. It is the relation where
/// that has more hits and stands in the row, and else the last step.
pub open spec fn followed(s: ParserView, field: u32) -> (i64, u32) {
    let slot = s.num[field as int % 0x1_0000];
    let cross = s.cross[field as int % 0x1_0000];
    if cross.forecast(s.row) is Some && cross.hits > slot.hits {
        (cross.forecast(s.row)->0, cross.hits)
    } else {
        (slot.forecast(), slot.hits)
    }
}

/// Something is known of the field.
pub open spec fn is_foreseen(s: ParserView, field: u32) -> bool {
    let slot = s.num[field as int % 0x1_0000];
    let cross = s.cross[field as int % 0x1_0000];
    slot.seen || cross.forecast(s.row) is Some && cross.hits > slot.hits
}

/// `k` is 256 times the logarithm of the odds `p : 4096 - p`, rounded, and held to 2047.
pub open spec fn rounded_logarithm(p: int, k: int, n: nat) -> bool {
    let up = (2 * k + 1) as nat;
    let down = (2 * k - 1) as nat;
    let a = accuracy::sum_num(n);
    let b = accuracy::sum_den(n);
    &&& 0 <= k <= 2047
    &&& k < 2047 ==> p * accuracy::power(b, up) < (4096 - p) * accuracy::power(a, up)
    &&& k > 0 ==> (4096 - p) * (accuracy::power(a, down) * (UNIT - 4 * down)) <= p * (UNIT
        * accuracy::power(b, down))
}

/// Whatever value is foreseen, of however many digits, its text stands ready from the
/// first byte on, and the model is as sure of it as the hits of its hypothesis say.
pub proof fn law_forecast_is_set_up(s: ParserView, field: u32, n: nat)
    requires
        n >= 6,
        is_foreseen(s, field),
    ensures
        ({
            let t = s.foreseeing(field);
            let (v, h) = followed(s, field);
            let odds = 2048 + 2047 * h / (h + 1);
            &&& t.np_active
            &&& t.np_ptr == 0
            &&& t.np_digits == numeric::signed_decimal(v as int)
            &&& rounded_logarithm(odds, t.num_mag as int, n)
            &&& h >= 1 ==> t.num_mag > 0
            &&& h == 0 ==> t.num_mag == 0
        }),
{
    let (v, h) = followed(s, field);
    let c = match_model::confidence(h as nat);
    match_model::law_confidence_climbs(h as nat, h as nat);
    tables::lemma_stretch_range(c);
    accuracy::law_stretch_is_rounded_logarithm(c, n);
    let t = s.foreseeing(field);
    assert(t.num_mag == tables::stretch_of(c));
    if h >= 1 {
        match_model::law_confidence_climbs(1, h as nat);
        assert(match_model::confidence(1) == 3071) by (nonlinear_arith);
        lemma_trusted();
        tables::law_stretch_grows(3071, c);
    } else {
        tables::lemma_stretch_of_half();
        assert(match_model::confidence(0) == 2048) by (nonlinear_arith);
    }
}

proof fn lemma_trusted()
    ensures
        tables::stretch_of(3071) > 0,
{
    reveal_with_fuel(tables::expo, 2);
    assert(tables::expo(1) == tables::EXP_STEP);
    assert(tables::beyond(3071, 0));
    tables::lemma_round_log_range(3071, 1);
}

/// Nothing is foreseen of a field of which nothing is known.
pub proof fn law_unknown_is_not_foreseen(s: ParserView, field: u32)
    requires
        !is_foreseen(s, field),
    ensures
        !s.foreseeing(field).np_active,
{
}

/// As long as the text of the foreseen value has held, the numeric model speaks for the
/// next bit of it, with all its confidence: for a 1 above zero, for a 0 below, whatever
/// the value and however many of its bytes have been read.
pub proof fn law_forecast_is_voted_for(s: ParserView, field: u32, k: int, c0: u32, bitpos: u32)
    requires
        is_foreseen(s, field),
        followed(s, field).1 >= 1,
        0 <= k < numeric::signed_decimal(followed(s, field).0 as int).len(),
        bitpos < 8,
        ({
            let b = numeric::signed_decimal(followed(s, field).0 as int)[k] as u32;
            bitpos == 0 || c0 == (1u32 << bitpos) + (b >> ((8 - bitpos) as u32))
        }),
    ensures
        ({
            let text = numeric::signed_decimal(followed(s, field).0 as int);
            let t = foresight::consumed_all(s.foreseeing(field), text.take(k));
            let vote = t.number_vote(c0, bitpos);
            let mag = s.foreseeing(field).num_mag;
            let bit = (text[k] as u32 >> ((7 - bitpos) as u32)) & 1;
            &&& mag > 0
            &&& vote == mag || vote == -mag
            &&& bit == 1 ==> vote > 0
            &&& bit == 0 ==> vote < 0
        }),
{
    law_forecast_is_set_up(s, field, 6);
    foresight::law_true_forecast_is_followed(s, field, k as nat);
    let text = numeric::signed_decimal(followed(s, field).0 as int);
    lemma_mag_kept(s.foreseeing(field), text.take(k));
    let byte = text[k];
    let b = byte as u32;
    let j = (7 - bitpos) as u32;
    assert((byte >> j) & 1 == (b >> j) & 1 && ((b >> j) & 1 == 0 || (b >> j) & 1 == 1))
        by (bit_vector)
        requires
            b == byte,
            j < 8,
    ;
}

proof fn lemma_mag_kept(s: ParserView, text: Seq<u8>)
    ensures
        foresight::consumed_all(s, text).num_mag == s.num_mag,
    decreases text.len(),
{
    if text.len() > 0 {
        lemma_mag_kept(s, text.drop_last());
    }
}

/// No field stands twice in the row.
pub open spec fn distinct_fields(row: Seq<RowValue>) -> bool {
    forall|a: int, b: int|
        0 <= a < b < row.len() ==> (#[trigger] row[a]).field != (#[trigger] row[b]).field
}

/// The row holds the value `v` of `field`.
pub open spec fn holds_value(row: Seq<RowValue>, field: u32, v: i64) -> bool {
    exists|i: int| 0 <= i < row.len() && (#[trigger] row[i]).field == field && row[i].value == v
}

proof fn lemma_place(row: Seq<RowValue>, field: u32)
    ensures
        ({
            let i = relation::place(row, field);
            &&& 0 <= i <= row.len()
            &&& i < row.len() ==> row[i].field == field
            &&& forall|j: int| 0 <= j < i ==> (#[trigger] row[j]).field != field
        }),
    decreases row.len(),
{
    if row.len() > 0 && row[0].field != field {
        let rest = row.skip(1);
        lemma_place(rest, field);
        let i = relation::place(row, field);
        assert forall|j: int| 0 <= j < i implies (#[trigger] row[j]).field != field by {
            if j > 0 {
                assert(rest[j - 1] == row[j]);
            }
        }
    }
}

/// A value is looked up where it stands.
pub proof fn law_row_is_looked_up(row: Seq<RowValue>, field: u32, v: i64)
    requires
        distinct_fields(row),
    ensures
        relation::value_in(row, field) == Some(v) <==> holds_value(row, field, v),
        relation::value_in(row, field) is None <==> forall|i: int|
            0 <= i < row.len() ==> (#[trigger] row[i]).field != field,
{
    lemma_place(row, field);
    let i = relation::place(row, field);
    if holds_value(row, field, v) {
        let j = choose|j: int|
            0 <= j < row.len() && (#[trigger] row[j]).field == field && row[j].value == v;
        if i < j {
            assert(row[i].field != row[j].field);
        }
    }
}

/// A value that is noted stands in the row from then on, and the values of other fields
/// stay: all of them, or all but the oldest where the row held 32 values of other
/// fields.
pub proof fn law_value_joins_the_row(row: Seq<RowValue>, e: RowValue, f: u32, v: i64)
    requires
        distinct_fields(row),
        row.len() <= 32,
    ensures
        ({
            let t = relation::noted(row, e);
            &&& distinct_fields(t)
            &&& t.len() <= 32
            &&& t.len() >= 1 && t[t.len() - 1] == e
            &&& holds_value(t, e.field, e.value)
            &&& f != e.field && holds_value(t, f, v) ==> holds_value(row, f, v)
            &&& f != e.field && holds_value(row, f, v) ==> holds_value(t, f, v) || row.len() == 32
                && row[0].field == f && !(exists|i: int|
                0 <= i < row.len() && (#[trigger] row[i]).field == e.field)
        }),
{
    lemma_place(row, e.field);
    let i = relation::place(row, e.field);
    let t = relation::noted(row, e);
    let gone = if i < row.len() {
        i
    } else if row.len() >= 32 {
        0
    } else {
        row.len() as int
    };
    let back = |j: int| if j < gone { j } else { j + 1 };
    assert forall|a: int| 0 <= a < t.len() - 1 implies #[trigger] t[a] == row[back(a)] by {
    }
    assert forall|a: int, b: int| 0 <= a < b < t.len() implies (#[trigger] t[a]).field != (
    #[trigger] t[b]).field by {
        assert(t[a] == row[back(a)]);
        if b < t.len() - 1 {
            assert(t[b] == row[back(b)]);
            assert(row[back(a)].field != row[back(b)].field);
        } else if i < row.len() {
            if back(a) < i {
                assert(row[back(a)].field != row[i].field);
            } else {
                assert(row[i].field != row[back(a)].field);
            }
        } else {
            assert(row[back(a)].field != e.field);
        }
    }
    assert(t[t.len() - 1] == e);
    if f != e.field && holds_value(t, f, v) {
        let a = choose|a: int|
            0 <= a < t.len() && (#[trigger] t[a]).field == f && t[a].value == v;
        assert(t[a] == row[back(a)]);
    }
    if f != e.field && holds_value(row, f, v) {
        let a = choose|a: int|
            0 <= a < row.len() && (#[trigger] row[a]).field == f && row[a].value == v;
        if a != gone {
            let b = if a < gone { a } else { a - 1 };
            assert(t[b] == row[back(b)]);
        }
    }
}

/// What a relation leads to: the value of its source in the row, and the offset.
pub proof fn law_relation_is_applied(x: CrossState, row: Seq<RowValue>, v: i64)
    requires
        distinct_fields(row),
        x.seen,
        holds_value(row, x.source, v),
        i64::MIN <= v + x.offset <= i64::MAX,
    ensures
        x.forecast(row) == Some((v + x.offset) as i64),
{
    law_row_is_looked_up(row, x.source, v);
}

/// How a relation fares. One that foresaw the value keeps its source and offset and
/// gains a hit, up to 255. One that did not keeps half of its hits; it may gain one for
/// a relation that held in this row and in the one before, whose offset it then has.
pub proof fn law_relation_is_judged(
    x: CrossState,
    field: u32,
    slot: NumState,
    row: Seq<RowValue>,
    v: i64,
)
    requires
        x.hits <= 255,
        !x.seen ==> x.hits == 0,
    ensures
        ({
            let t = x.learned(field, slot, row, v);
            &&& x.forecast(row) == Some(v) ==> t.source == x.source && t.offset == x.offset && t.seen
                && t.hits == (if x.hits < 255 { x.hits + 1 } else { 255 })
            &&& x.forecast(row) != Some(v) ==> t.hits <= x.hits / 2 + 1
            &&& x.forecast(row) != Some(v) && t.hits != x.hits / 2 ==> steadily_related(
                t,
                field,
                slot,
                row,
                v,
            )
            &&& x.forecast(row) != Some(v) && t.hits == x.hits / 2 && x.seen ==> t.source == x.source
                && t.offset == x.offset
        }),
{
    let at = lemma_steady(row, field, slot.last, v);
    if at >= 0 {
        assert(row[at].field != field);
    }
}

/// The relation is to another value of the row, which kept its distance from the field
/// from its last value to this one.
pub open spec fn steadily_related(
    t: CrossState,
    field: u32,
    slot: NumState,
    row: Seq<RowValue>,
    v: i64,
) -> bool {
    exists|i: int|
        {
            &&& 0 <= i < row.len()
            &&& (#[trigger] row[i]).field != field
            &&& t.source == row[i].field
            &&& t.offset == v.wrapping_sub(row[i].value)
            &&& slot.seen
            &&& row[i].before is Some
            &&& t.offset == slot.last.wrapping_sub(row[i].before->0)
        }
}

/// The value at `i` is of another field, and kept its distance from this one.
pub open spec fn kept_distance(row: Seq<RowValue>, i: int, field: u32, last: i64, v: i64) -> bool {
    &&& row[i].field != field
    &&& row[i].before is Some
    &&& v.wrapping_sub(row[i].value) == last.wrapping_sub(row[i].before->0)
}

/// The place of the latest value that kept its distance; before the row for none.
proof fn lemma_steady(row: Seq<RowValue>, field: u32, last: i64, v: i64) -> (at: int)
    ensures
        -1 <= at < row.len(),
        at >= 0 ==> relation::nearest_steady(row, field, last, v) == Some(row[at]) && kept_distance(
            row,
            at,
            field,
            last,
            v,
        ),
        at < 0 ==> relation::nearest_steady(row, field, last, v) is None,
        forall|j: int| at < j < row.len() ==> !#[trigger] kept_distance(row, j, field, last, v),
    decreases row.len(),
{
    if row.len() == 0 {
        -1
    } else {
        let front = row.drop_last();
        let e = row[row.len() - 1];
        let at = lemma_steady(front, field, last, v);
        if e.field != field && e.steady(last, v) {
            row.len() - 1
        } else {
            assert forall|j: int| at < j < row.len() implies !#[trigger] kept_distance(
                row,
                j,
                field,
                last,
                v,
            ) by {
                if j < row.len() - 1 {
                    assert(front[j] == row[j]);
                    assert(!kept_distance(front, j, field, last, v));
                }
            }
            at
        }
    }
}

/// The first relation of a field is to the value before it in the row.
pub proof fn law_first_relation_is_to_the_neighbour(
    x: CrossState,
    field: u32,
    slot: NumState,
    row: Seq<RowValue>,
    v: i64,
)
    requires
        !x.seen,
        !slot.seen,
        row.len() > 0,
        row[row.len() - 1].field != field,
    ensures
        ({
            let t = x.learned(field, slot, row, v);
            &&& t.seen
            &&& t.source == row[row.len() - 1].field
            &&& t.offset == v.wrapping_sub(row[row.len() - 1].value)
            &&& t.hits == 0
        }),
{
}

/// A relation that failed moves to one that held twice, to the latest value of the row of
/// which that is so.
pub proof fn law_steady_relation_is_found(
    x: CrossState,
    field: u32,
    slot: NumState,
    row: Seq<RowValue>,
    v: i64,
    i: int,
)
    requires
        x.hits <= 255,
        !x.seen ==> x.hits == 0,
        x.forecast(row) != Some(v),
        slot.seen,
        0 <= i < row.len(),
        kept_distance(row, i, field, slot.last, v),
        forall|j: int| i < j < row.len() ==> !#[trigger] kept_distance(row, j, field, slot.last, v),
    ensures
        ({
            let t = x.learned(field, slot, row, v);
            &&& t.seen
            &&& t.hits == x.hits / 2 + 1
            &&& t.source == row[i].field
            &&& t.offset == v.wrapping_sub(row[i].value)
        }),
{
    let at = lemma_steady(row, field, slot.last, v);
    assert(at == i);
}

/// A value of any size that a field had is learned in full: by the field, across rows
/// and across columns, and by the row; and by no other field.
pub proof fn law_value_reaches_the_model(s: ParserView, field: u32, v: i64)
    requires
        s.num.len() == 0x1_0000,
        s.cross.len() == 0x1_0000,
    ensures
        ({
            let t = s.with_value(field, v);
            let i = field as int % 0x1_0000;
            &&& t.num[i] == s.num[i].learned(v)
            &&& t.cross[i] == s.cross[i].learned(field, s.num[i], s.row, v)
            &&& t.row == relation::noted(
                s.row,
                RowValue {
                    field,
                    value: v,
                    before: if s.num[i].seen { Some(s.num[i].last) } else { None },
                },
            )
            &&& t.num.len() == 0x1_0000
            &&& t.cross.len() == 0x1_0000
            &&& forall|j: int| 0 <= j < 0x1_0000 && j != i ==> #[trigger] t.num[j] == s.num[j]
            &&& forall|j: int| 0 <= j < 0x1_0000 && j != i ==> #[trigger] t.cross[j] == s.cross[j]
        }),
{
}

/// A number that has been read is learned if it has at least one digit, no more than
/// are tracked, and neither a fraction nor an exponent; and else nothing is learned.
/// Either way no number is being read behind it, and nothing is foreseen.
pub proof fn law_number_is_learned_at_its_end(s: ParserView, c: u8)
    ensures
        ({
            let t = s.number_ended(c);
            let whole = s.scan.cur_is_num && s.scan.cur_len > 0 && c != 0x2e && c != 0x65 && c
                != 0x45;
            let u = s.with_value(s.scan.cur_field, s.scan.value());
            &&& whole ==> t.num == u.num && t.cross == u.cross && t.row == u.row
            &&& !whole ==> t.num == s.num && t.cross == s.cross && t.row == s.row
            &&& !t.scan.in_num_value
            &&& !t.np_active
            &&& t.stack == s.stack && t.parens == s.parens && t.elements == s.elements
            &&& t.text == s.text && t.json == s.json && t.csv == s.csv && t.sql == s.sql
        }),
{
}

/// A number begins with its first digit, or with a minus sign.
pub proof fn law_number_begins(field: u32, c: u8)
    requires
        0x30 <= c <= 0x39 || c == 0x2d,
    ensures
        ({
            let z = Scan::begun(field, c);
            &&& z.in_num_value && z.cur_is_num && z.cur_field == field
            &&& z.cur_neg == (c == 0x2d)
            &&& c == 0x2d ==> z.cur_num == 0 && z.cur_len == 0
            &&& c != 0x2d ==> z.cur_num == c - 0x30 && z.cur_len == 1
        }),
{
}

/// The digits of a number make up its value, as far as they are tracked; with one digit
/// more than that it is no longer a number to be learned.
pub proof fn law_digits_make_the_number(z: Scan, c: u8)
    requires
        z.sound(),
        0x30 <= c <= 0x39,
    ensures
        ({
            let t = z.extended(c);
            &&& z.cur_len < 18 ==> t.cur_num == 10 * z.cur_num + (c - 0x30) && t.cur_len == z.cur_len
                + 1 && t.cur_is_num == z.cur_is_num
            &&& z.cur_len >= 18 ==> !t.cur_is_num
            &&& t.cur_neg == z.cur_neg && t.cur_field == z.cur_field && t.in_num_value
                == z.in_num_value
        }),
{
    numeric::lemma_pow10_values();
    numeric::lemma_pow10_grows(z.cur_len as nat, 18);
    if z.cur_len < 18 {
        numeric::lemma_pow10_grows((z.cur_len + 1) as nat, 18);
    }
}

} // verus!
