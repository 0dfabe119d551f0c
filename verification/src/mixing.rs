//! What a prediction is made of, and what is learned from a bit.

use vstd::prelude::*;
use crate::accuracy;
use crate::match_model;
use crate::mode::Mode;
use crate::predictor;
use crate::predictor::PredictorView;
use crate::tables;
use crate::tables::{EXP_STEP, UNIT};

verus! {

/// The weighted sum of the ten votes, with the weights that belong to the last byte.
pub open spec fn weighted_sum(m: PredictorView) -> int {
    let sel = if m.buf.len() > 0 { m.buf.last() as int } else { 0 };
    let v = m.inputs();
    m.w[sel * 10] * v[0] + m.w[sel * 10 + 1] * v[1] + m.w[sel * 10 + 2] * v[2] + m.w[sel * 10 + 3]
        * v[3] + m.w[sel * 10 + 4] * v[4] + m.w[sel * 10 + 5] * v[5] + m.w[sel * 10 + 6] * v[6]
        + m.w[sel * 10 + 7] * v[7] + m.w[sel * 10 + 8] * v[8] + m.w[sel * 10 + 9] * v[9]
}

/// `v / 4096` is the odds `e : 1` as a probability, to the nearest of the
/// probabilities that are neither 0 nor 1, for `e` the fixed-point exponential of
/// `d / 256`.
pub open spec fn near_logistic(d: nat, v: int) -> bool {
    let e = tables::expo(2 * d);
    &&& 1 <= v <= 4095
    &&& (2 * v - 1) * (e + UNIT) <= 8192 * e
    &&& v < 4095 ==> 8192 * e < (2 * v + 1) * (e + UNIT)
}

proof fn lemma_sum(m: PredictorView)
    ensures
        predictor::blend(m.w, predictor::last_byte(m.buf) as int, m.inputs(), 10) == weighted_sum(m),
{
    reveal_with_fuel(predictor::blend, 11);
}

/// The prediction is the logistic function of the weighted sum of the votes, in every
/// state and after however much text: `1 / (1 + e^-(x))` for a sum of `256 * 65536 * x`,
/// the sum in whole units and held to `-2047..=2047`.
pub proof fn law_probability_is_logistic(m: PredictorView)
    ensures
        ({
            let units = weighted_sum(m) / 65536;
            let p = m.probability();
            &&& 0 <= units <= 2047 ==> near_logistic(units as nat, p)
            &&& units > 2047 ==> near_logistic(2047, p)
            &&& -2047 <= units < 0 ==> near_logistic((-units) as nat, 4096 - p)
            &&& units < -2047 ==> near_logistic(2047, 4096 - p)
        }),
{
    lemma_sum(m);
    let units = weighted_sum(m) / 65536;
    let d = if units > 2047 {
        2047
    } else if units < -2047 {
        -2047
    } else {
        units
    };
    let a = if d >= 0 { d as nat } else { (-d) as nat };
    tables::lemma_squash_range(a as int);
    tables::law_squash_is_odd(d);
    accuracy::law_squash_is_nearest(a);
}

/// Of two states, at whatever places in whatever texts, the one whose votes add up to
/// more gives the next bit no smaller a chance to be 1.
pub proof fn law_probability_grows_with_the_sum(a: PredictorView, b: PredictorView)
    requires
        weighted_sum(a) <= weighted_sum(b),
    ensures
        a.probability() <= b.probability(),
{
    lemma_sum(a);
    lemma_sum(b);
    let x = weighted_sum(a) / 65536;
    let y = weighted_sum(b) / 65536;
    tables::law_squash_grows(predictor::clamp_stretched(x), predictor::clamp_stretched(y));
}

/// Votes that add up to a unit or more decide which bit is the likelier one.
pub proof fn law_votes_decide(m: PredictorView)
    ensures
        weighted_sum(m) >= 65536 ==> m.probability() > 2048,
        weighted_sum(m) <= -65536 ==> m.probability() < 2048,
        weighted_sum(m) == 0 ==> m.probability() == 2048,
{
    law_probability_is_logistic(m);
    let units = weighted_sum(m) / 65536;
    let a = if units > 2047 || units < -2047 {
        2047
    } else if units >= 0 {
        units as nat
    } else {
        (-units) as nat
    };
    assert(tables::expo(0) == UNIT);
    if a >= 1 {
        reveal_with_fuel(tables::expo, 2);
        assert(tables::expo(1) == EXP_STEP);
        tables::lemma_expo_grows(1, 2 * a);
        let e = tables::expo(2 * a);
        let v = if units >= 0 { m.probability() } else { 4096 - m.probability() };
        assert(near_logistic(a, v));
        if v <= 2048 {
            assert((2 * v + 1) * (e + UNIT) <= 4097 * (e + UNIT)) by (nonlinear_arith)
                requires
                    v <= 2048,
                    e + UNIT >= 0,
            ;
        }
    }
}

/// Where table model `i` keeps what it knows of the next bit.
pub open spec fn table_place(m: PredictorView, i: int) -> int {
    i * 0x10_0000 + (m.ctxh[i] ^ m.c0.wrapping_mul(0x9e37_79b1)) as int % 0x10_0000
}

/// What a model that expects `byte` with the stretched confidence `mag` says, once the
/// bits in `c0` below its leading 1 have been read: `mag` or `-mag`, as the next bit of
/// the byte is 1 or 0, if they are the leading bits of the byte, and else nothing.
pub open spec fn says(byte: u8, mag: i32, c0: u32, bitpos: u32, v: int) -> bool {
    let b = byte as u32;
    let holds = bitpos == 0 || c0 == (1u32 << bitpos) + (b >> ((8 - bitpos) as u32));
    &&& holds && (b >> ((7 - bitpos) as u32)) & 1 == 1 ==> v == mag
    &&& holds && (b >> ((7 - bitpos) as u32)) & 1 == 0 ==> v == -mag
    &&& !holds ==> v == 0
}

proof fn lemma_says(byte: u8, mag: i32, c0: u32, bitpos: u32)
    requires
        bitpos < 8,
    ensures
        says(
            byte,
            mag,
            c0,
            bitpos,
            match_model::byte_vote(byte, mag, c0, bitpos),
        ),
{
    let b = byte as u32;
    let k = (7 - bitpos) as u32;
    assert((byte >> k) & 1 == (b >> k) & 1 && ((b >> k) & 1 == 0 || (b >> k) & 1 == 1)) by (bit_vector)
        requires
            b == byte,
            k < 8,
    ;
}

/// The ten votes: each table model reads its own place, the two match models speak
/// for the byte that their match expects next, and the numeric model for the next
/// byte of the text that it foresees.
pub proof fn law_votes_of_the_models(m: PredictorView)
    requires
        m.bitpos < 8,
        -2047 <= m.near.mag <= 2047,
        -2047 <= m.far.mag <= 2047,
        -2047 <= m.parser.num_mag <= 2047,
    ensures
        ({
            let v = m.inputs();
            let s = m.parser;
            &&& v.len() == 10
            &&& forall|i: int|
                0 <= i < 7 ==> #[trigger] v[i] == tables::stretch_of(m.t[table_place(m, i)] as nat)
            &&& m.near.on ==> says(m.near.pb, m.near.mag, m.c0, m.bitpos, v[7] as int)
            &&& !m.near.on ==> v[7] == 0
            &&& m.far.on ==> says(m.far.pb, m.far.mag, m.c0, m.bitpos, v[8] as int)
            &&& !m.far.on ==> v[8] == 0
            &&& s.np_active && s.np_ptr < s.np_digits.len() ==> says(
                s.np_digits[s.np_ptr as int],
                s.num_mag,
                m.c0,
                m.bitpos,
                v[9] as int,
            )
            &&& !(s.np_active && s.np_ptr < s.np_digits.len()) ==> v[9] == 0
        }),
{
    let v = m.inputs();
    assert forall|i: int| 0 <= i < 7 implies #[trigger] v[i] == tables::stretch_of(
        m.t[table_place(m, i)] as nat,
    ) by {
        tables::lemma_stretch_range(m.t[table_place(m, i)] as nat);
    }
    lemma_says(m.near.pb, m.near.mag, m.c0, m.bitpos);
    lemma_says(m.far.pb, m.far.mag, m.c0, m.bitpos);
    let s = m.parser;
    if s.np_active && s.np_ptr < s.np_digits.len() {
        lemma_says(s.np_digits[s.np_ptr as int], s.num_mag, m.c0, m.bitpos);
    }
}

/// What a table model says of a bit depends on its context and the bits before it in
/// the byte, and on what it learned there, and on nothing else.
pub proof fn law_table_votes_by_context(a: PredictorView, b: PredictorView, i: int)
    requires
        0 <= i < 7,
        a.ctxh[i] == b.ctxh[i],
        a.c0 == b.c0,
        forall|x: int| i * 0x10_0000 <= x < (i + 1) * 0x10_0000 ==> #[trigger] a.t[x] == b.t[x],
    ensures
        a.inputs()[i] == b.inputs()[i],
{
    let x = table_place(a, i);
    assert(a.t[x] == b.t[x]);
}

proof fn lemma_adapted(m: PredictorView, bit: u32, n: nat)
    requires
        n <= 7,
        bit <= 1,
        m.t.len() == 0x70_0000,
        forall|x: int| 0 <= x < 0x70_0000 ==> #[trigger] m.t[x] < 4096,
    ensures
        ({
            let q = m.predicted();
            let t = predictor::adapted_all(q.t, q.idx, bit, n);
            &&& t.len() == 0x70_0000
            &&& forall|x: int|
                0 <= x < 0x70_0000 ==> #[trigger] t[x] == (if x / 0x10_0000 < n && x == table_place(
                    m,
                    x / 0x10_0000,
                ) {
                    m.t[x] + (bit * 4096 - m.t[x]) / 16
                } else {
                    m.t[x] as int
                })
        }),
    decreases n,
{
    if n > 0 {
        lemma_adapted(m, bit, (n - 1) as nat);
        let q = m.predicted();
        let s = predictor::adapted_all(q.t, q.idx, bit, (n - 1) as nat);
        let i = n - 1;
        let at = table_place(m, i);
        assert(at / 0x10_0000 == i);
        assert(0 <= at < 0x70_0000);
        assert(q.idx[i] == at);
        assert(s[at] == m.t[at]);
    }
}

/// What is learned from a bit. The place that each table model read moves a sixteenth
/// of the way towards the bit, and no other place moves. The weight of each vote moves
/// along the vote times the error of the prediction, and no weight of another byte
/// moves. Nothing of this depends on how much text there was.
pub proof fn law_bit_is_learned(m: PredictorView, bit: u32)
    requires
        bit <= 1,
        m.t.len() == 0x70_0000,
        forall|x: int| 0 <= x < 0x70_0000 ==> #[trigger] m.t[x] < 4096,
        m.w.len() == 2560,
    ensures
        ({
            let q = m.predicted().updated(bit);
            let sel = if m.buf.len() > 0 { m.buf.last() as int } else { 0 };
            &&& q.t.len() == 0x70_0000
            &&& forall|x: int|
                0 <= x < 0x70_0000 ==> #[trigger] q.t[x] == (if x == table_place(
                    m,
                    x / 0x10_0000,
                ) {
                    m.t[x] + (bit * 4096 - m.t[x]) / 16
                } else {
                    m.t[x] as int
                })
            &&& q.w.len() == 2560
            &&& forall|i: int|
                0 <= i < 10 ==> #[trigger] q.w[sel * 10 + i] == m.w[sel * 10 + i].wrapping_add(
                    (m.inputs()[i] * ((bit * 4096 - m.probability()) * 7) / 65536) as i32,
                )
            &&& forall|j: int|
                0 <= j < 2560 && !(sel * 10 <= j < sel * 10 + 10) ==> #[trigger] q.w[j] == m.w[j]
        }),
{
    lemma_adapted(m, bit, 7);
    predictor::law_never_certain(m);
    let q = m.predicted().updated(bit);
    let sel = if m.buf.len() > 0 { m.buf.last() as int } else { 0 };
    assert forall|i: int| 0 <= i < 10 implies #[trigger] q.w[sel * 10 + i] == m.w[sel * 10
        + i].wrapping_add(
        (m.inputs()[i] * ((bit * 4096 - m.probability()) * 7) / 65536) as i32,
    ) by {
        assert((sel * 10 + i) / 10 == sel && (sel * 10 + i) % 10 == i);
    }
}

/// What a table model saw becomes the likelier for it, in the same context: a 1 never
/// lowers what it says there of the same bit, and a 0 never raises it.
pub proof fn law_seen_becomes_likelier(m: PredictorView, bit: u32, i: int)
    requires
        bit <= 1,
        0 <= i < 7,
        m.t.len() == 0x70_0000,
        forall|x: int| 0 <= x < 0x70_0000 ==> #[trigger] m.t[x] < 4096,
        m.w.len() == 2560,
    ensures
        ({
            let x = table_place(m, i);
            let q = m.predicted().updated(bit);
            &&& bit == 1 ==> q.t[x] >= m.t[x] && (m.t[x] <= 4080 ==> q.t[x] > m.t[x])
            &&& bit == 0 ==> q.t[x] <= m.t[x] && (m.t[x] >= 1 ==> q.t[x] < m.t[x])
            &&& q.t[x] < 4096
        }),
{
    law_bit_is_learned(m, bit);
    let x = table_place(m, i);
    assert(x / 0x10_0000 == i);
    assert(0 <= x < 0x70_0000);
    assert(m.t[x] < 4096);
}

/// A bit inside a byte is noted, and changes nothing else but what was learned.
pub proof fn law_bit_is_noted(m: PredictorView, bit: u32)
    requires
        bit <= 1,
        m.c0 < 128,
        m.bitpos < 8,
    ensures
        ({
            let q = m.predicted().updated(bit);
            &&& q.c0 == 2 * m.c0 + bit
            &&& q.bitpos == m.bitpos + 1
            &&& q.buf == m.buf
            &&& q.mode == m.mode
            &&& q.ctxh == m.ctxh
            &&& q.near == m.near
            &&& q.far == m.far
            &&& q.parser == m.parser
        }),
{
}

/// The last bit of a byte makes every model read the byte, which is now the last one of
/// the text: both match models, and the parser of the format.
pub proof fn law_byte_is_read(m: PredictorView, bit: u32)
    requires
        bit <= 1,
        128 <= m.c0 < 256,
    ensures
        ({
            let q = m.predicted().updated(bit);
            let byte = (2 * m.c0 + bit - 256) as u8;
            let buf = m.buf.push(byte);
            &&& q.buf == buf
            &&& q.c0 == 1
            &&& q.bitpos == 0
            &&& q.mode == m.mode
            &&& q.near == m.near.updated(buf, byte, tables::stretch_table())
            &&& q.far == m.far.updated(buf, byte, tables::stretch_table())
            &&& m.mode is Json ==> q.parser == m.parser.json_step(byte)
            &&& m.mode is Csv ==> q.parser == m.parser.csv_step(byte)
            &&& m.mode is Sql ==> q.parser == m.parser.sql_step(byte)
            &&& m.mode is Xml ==> q.parser == m.parser.xml_step(byte)
            &&& m.mode is Generic ==> q.parser == m.parser.generic_step(byte)
        }),
{
}

/// Before any bit nothing is known: every model is silent, and every bit is as likely
/// as not.
pub proof fn law_first_bit_is_even(mode: Mode)
    ensures
        ({
            let m = PredictorView::start(mode);
            &&& m.buf.len() == 0
            &&& m.mode == mode
            &&& m.c0 == 1
            &&& m.bitpos == 0
            &&& m.near.minlen == 6
            &&& m.far.minlen == 16
            &&& !m.near.on
            &&& !m.far.on
            &&& !m.parser.np_active
            &&& m.t.len() == 0x70_0000
            &&& forall|x: int| 0 <= x < 0x70_0000 ==> #[trigger] m.t[x] == 2048
            &&& m.w.len() == 2560
            &&& forall|x: int| 0 <= x < 2560 ==> #[trigger] m.w[x] == 6553
            &&& m.ctxh == m.in_context().ctxh
            &&& m.probability() == 2048
        }),
{
    let m = PredictorView::start(mode);
    law_votes_of_the_models(m);
    tables::lemma_stretch_of_half();
    assert forall|i: int| 0 <= i < 10 implies #[trigger] m.inputs()[i] == 0 by {
        if i < 7 {
            assert(0 <= table_place(m, i) < 0x70_0000);
        }
    }
    assert(weighted_sum(m) == 0);
    law_votes_decide(m);
}

} // verus!
