//! What the contexts of the table models tell apart, and what they do not.

use vstd::prelude::*;
use crate::hashing;
use crate::mode::Mode;
use crate::predictor;
use crate::predictor::PredictorView;

verus! {

proof fn lemma_xor_injective(x: u32, y: u32, z: u32)
    requires
        x != y,
    ensures
        x ^ z != y ^ z,
        z ^ x != z ^ y,
{
    assert(x ^ z != y ^ z && z ^ x != z ^ y) by (bit_vector)
        requires
            x != y,
    ;
}

/// The byte hash goes on differently from different values, and from one value with
/// different bytes.
pub proof fn law_hash_step_is_injective(g: u32, h: u32, c: u8, d: u8)
    ensures
        g != h ==> hashing::hash_step(g, c) != hashing::hash_step(h, c),
        c != d ==> hashing::hash_step(h, c) != hashing::hash_step(h, d),
{
    if g != h {
        lemma_xor_injective(g, h, c as u32);
        if hashing::hash_step(g, c) == hashing::hash_step(h, c) {
            hashing::lemma_odd_factor_injective(
                g ^ (c as u32),
                h ^ (c as u32),
                0x0100_0193,
                0x359c449b,
                0x359c99,
            );
        }
    }
    if c != d {
        lemma_xor_injective(c as u32, d as u32, h);
        if hashing::hash_step(h, c) == hashing::hash_step(h, d) {
            hashing::lemma_odd_factor_injective(
                h ^ (c as u32),
                h ^ (d as u32),
                0x0100_0193,
                0x359c449b,
                0x359c99,
            );
        }
    }
}

/// Two texts that differ in one byte alone have different hashes.
pub proof fn law_hash_tells_a_byte(h: u32, s: Seq<u8>, t: Seq<u8>, i: int)
    requires
        s.len() == t.len(),
        0 <= i < s.len(),
        s[i] != t[i],
        forall|j: int| 0 <= j < s.len() && j != i ==> #[trigger] s[j] == t[j],
    ensures
        hashing::hash_bytes(h, s) != hashing::hash_bytes(h, t),
    decreases s.len(),
{
    let a = s.drop_last();
    let b = t.drop_last();
    if i == s.len() - 1 {
        assert(a =~= b);
        law_hash_step_is_injective(0, hashing::hash_bytes(h, a), s.last(), t.last());
    } else {
        assert forall|j: int| 0 <= j < a.len() && j != i implies #[trigger] a[j] == b[j] by {
            assert(s[j] == t[j]);
        }
        assert(s[s.len() - 1] == t[s.len() - 1]);
        law_hash_tells_a_byte(h, a, b, i);
        law_hash_step_is_injective(
            hashing::hash_bytes(h, a),
            hashing::hash_bytes(h, b),
            s.last(),
            t.last(),
        );
    }
}

/// The byte hash: started from a value that the length of the text enters, and stepped
/// byte by byte.
pub proof fn law_hash_goes_byte_by_byte(h: u32, s: Seq<u8>, c: u8)
    ensures
        hashing::hash_bytes(h, Seq::empty()) == h,
        hashing::hash_bytes(h, s.push(c)) == (hashing::hash_bytes(h, s) ^ (c as u32)).wrapping_mul(
            0x0100_0193,
        ),
        hashing::hash_context(s) == hashing::hash_bytes(
            0x811c_9dc5u32 ^ (s.len() as u32).wrapping_mul(0x9e37_79b1),
            s,
        ),
{
    assert(s.push(c).drop_last() =~= s);
}

/// The byte `i` places before the end.
pub open spec fn back(s: Seq<u8>, i: int) -> u8 {
    s[s.len() - i]
}

/// The context of order `k` is made of the last `k` bytes and of nothing else: not of
/// the length of the text, nor of the format.
pub proof fn law_order_looks_back(a: PredictorView, b: PredictorView, k: int)
    requires
        0 <= k <= 4,
        k <= a.buf.len(),
        k <= b.buf.len(),
        forall|i: int| 1 <= i <= k ==> #[trigger] back(a.buf, i) == back(b.buf, i),
    ensures
        a.in_context().ctxh[k] == b.in_context().ctxh[k],
{
    let s = a.buf.subrange(a.buf.len() - k, a.buf.len() as int);
    let t = b.buf.subrange(b.buf.len() - k, b.buf.len() as int);
    assert forall|i: int| 0 <= i < k implies s[i] == t[i] by {
        assert(back(a.buf, k - i) == back(b.buf, k - i));
    }
    assert(s =~= t);
}

/// The context of order `k` tells every one of the last `k` bytes: where one of them
/// is another, so is the context.
pub proof fn law_order_tells_bytes(a: PredictorView, b: PredictorView, k: int, at: int)
    requires
        1 <= at <= k <= 4,
        k <= a.buf.len(),
        k <= b.buf.len(),
        back(a.buf, at) != back(b.buf, at),
        forall|i: int| 1 <= i <= k && i != at ==> #[trigger] back(a.buf, i) == back(b.buf, i),
    ensures
        a.in_context().ctxh[k] != b.in_context().ctxh[k],
{
    let s = a.buf.subrange(a.buf.len() - k, a.buf.len() as int);
    let t = b.buf.subrange(b.buf.len() - k, b.buf.len() as int);
    assert forall|i: int| 0 <= i < k && i != k - at implies #[trigger] s[i] == t[i] by {
        assert(back(a.buf, k - i) == back(b.buf, k - i));
    }
    assert(s[k - at] == back(a.buf, at) && t[k - at] == back(b.buf, at));
    let h = hashing::HASH_BASIS ^ (k as u32).wrapping_mul(hashing::SPREAD);
    law_hash_tells_a_byte(h, s, t, k - at);
}

/// Where in the structure of its format a text stands: the last key of the innermost
/// JSON object, the CSV column, the SQL column and depth, the innermost XML element
/// and whether a tag (1) or an attribute value (2) is being read.
pub open spec fn standing(m: PredictorView) -> (int, int) {
    let s = m.parser;
    match m.mode {
        Mode::Json => (
            if s.stack.len() == 0 {
                0
            } else if s.stack[s.stack.len() - 1].is_object {
                s.stack[s.stack.len() - 1].key_hash as int
            } else {
                0xA22A_5151
            },
            0,
        ),
        Mode::Csv => (s.csv.col as int, 0),
        Mode::Sql => (s.sql.col as int, s.parens.len() as int),
        Mode::Xml => (
            if s.elements.len() == 0 { 0 } else { s.elements[s.elements.len() - 1] as int },
            if s.xml.in_attr {
                2
            } else if s.xml.in_tag {
                1
            } else {
                0
            },
        ),
        Mode::Generic => (0, 0),
    }
}

/// How deep a text stands in its structure, up to 15, or in which column.
pub open spec fn reach(m: PredictorView) -> int {
    let s = m.parser;
    match m.mode {
        Mode::Json => if s.stack.len() < 15 { s.stack.len() as int } else { 15 },
        Mode::Csv => s.csv.col as int,
        Mode::Sql => s.sql.col as int,
        Mode::Xml => if s.elements.len() < 15 { s.elements.len() as int } else { 15 },
        Mode::Generic => 0,
    }
}

/// Inside a string that is not a key.
pub open spec fn in_value_string(m: PredictorView) -> bool {
    m.parser.text.in_str && !m.parser.json.str_is_key
}

/// The last byte of the text.
pub open spec fn behind(m: PredictorView) -> int {
    if m.buf.len() > 0 { back(m.buf, 1) as int } else { 0 }
}

/// Both states are of one format, with a depth that is told apart.
pub open spec fn comparable(a: PredictorView, b: PredictorView) -> bool {
    &&& a.mode == b.mode
    &&& a.parser.parens.len() <= 32
    &&& b.parser.parens.len() <= 32
}

/// The field of a state, as its contexts know it.
spec fn field(m: PredictorView) -> u32 {
    predictor::structure(m.mode, m.parser).0
}

proof fn lemma_field(a: PredictorView, b: PredictorView)
    requires
        comparable(a, b),
    ensures
        standing(a) == standing(b) ==> field(a) == field(b),
        standing(a).0 != standing(b).0 && standing(a).1 == standing(b).1 ==> field(a) != field(b),
        standing(a).0 == standing(b).0 && standing(a).1 != standing(b).1 ==> field(a) != field(b),
        reach(a) == predictor::structure(a.mode, a.parser).1,
        reach(b) == predictor::structure(b.mode, b.parser).1,
{
    let s = a.parser;
    let t = b.parser;
    match a.mode {
        Mode::Csv => {
            if s.csv.col != t.csv.col {
                hashing::law_columns_are_told_apart(s.csv.col, t.csv.col, 0);
            }
        },
        Mode::Sql => {
            if s.sql.col != t.sql.col {
                hashing::law_columns_are_told_apart(s.sql.col, t.sql.col, s.parens.len() as u32);
            } else if s.parens.len() != t.parens.len() {
                hashing::law_depths_are_told_apart(
                    s.sql.col,
                    s.parens.len() as u32,
                    t.parens.len() as u32,
                );
            }
        },
        Mode::Xml => {
            let x = standing(a).0 as u32;
            let y = standing(b).0 as u32;
            let p = (standing(a).1 as u32).wrapping_mul(predictor::STATE_SPREAD);
            let q = (standing(b).1 as u32).wrapping_mul(predictor::STATE_SPREAD);
            if x != y {
                lemma_xor_injective(x, y, p);
            }
            if p != q {
                lemma_xor_injective(p, q, x);
            }
        },
        _ => {},
    }
}

/// Multiplying by the constants of the structure contexts loses nothing.
proof fn lemma_spread(x: u32, y: u32)
    requires
        x != y,
    ensures
        x.wrapping_mul(hashing::SPREAD) != y.wrapping_mul(hashing::SPREAD),
        x.wrapping_mul(predictor::VPOS_SPREAD) != y.wrapping_mul(predictor::VPOS_SPREAD),
        x.wrapping_mul(predictor::STRING_SPREAD) != y.wrapping_mul(predictor::STRING_SPREAD),
        x.wrapping_mul(predictor::AUX_SPREAD) != y.wrapping_mul(predictor::AUX_SPREAD),
        x.wrapping_mul(predictor::LAST_SPREAD) != y.wrapping_mul(predictor::LAST_SPREAD),
{
    if x.wrapping_mul(hashing::SPREAD) == y.wrapping_mul(hashing::SPREAD) {
        hashing::lemma_odd_factor_injective(x, y, hashing::SPREAD, 0xe8b2f51, 0x8fd0e05);
    }
    if x.wrapping_mul(predictor::VPOS_SPREAD) == y.wrapping_mul(predictor::VPOS_SPREAD) {
        hashing::lemma_odd_factor_injective(x, y, predictor::VPOS_SPREAD, 0xa5cb9243, 0x56bb77f4);
    }
    if x.wrapping_mul(predictor::STRING_SPREAD) == y.wrapping_mul(predictor::STRING_SPREAD) {
        hashing::lemma_odd_factor_injective(x, y, predictor::STRING_SPREAD, 0x7ed1b41d, 0x60736e9a);
    }
    if x.wrapping_mul(predictor::AUX_SPREAD) == y.wrapping_mul(predictor::AUX_SPREAD) {
        hashing::lemma_odd_factor_injective(x, y, predictor::AUX_SPREAD, 0xa0fe3bcf, 0x190ca18d);
    }
    if x.wrapping_mul(predictor::LAST_SPREAD) == y.wrapping_mul(predictor::LAST_SPREAD) {
        hashing::lemma_odd_factor_injective(x, y, predictor::LAST_SPREAD, 0xae398151, 0xf33bf00);
    }
}

/// The first structure context is made of where the text stands, of the position in
/// the token and of whether it is in the string of a value, and of nothing else.
pub proof fn law_structure_by_position(a: PredictorView, b: PredictorView)
    requires
        comparable(a, b),
        standing(a) == standing(b),
        a.parser.text.vpos == b.parser.text.vpos,
        in_value_string(a) == in_value_string(b),
    ensures
        a.in_context().ctxh[5] == b.in_context().ctxh[5],
{
    lemma_field(a, b);
}

/// The first structure context tells each of the things it is made of: another field,
/// column, depth, element or state, another position in the token, or a string in
/// place of none, and the context is another.
pub proof fn law_structure_tells_position(a: PredictorView, b: PredictorView)
    requires
        comparable(a, b),
        ({
            let field = standing(a).0 == standing(b).0;
            let level = standing(a).1 == standing(b).1;
            let pos = a.parser.text.vpos == b.parser.text.vpos;
            let string = in_value_string(a) == in_value_string(b);
            ||| !field && level && pos && string
            ||| field && !level && pos && string
            ||| field && level && !pos && string
            ||| field && level && pos && !string
        }),
    ensures
        a.in_context().ctxh[5] != b.in_context().ctxh[5],
{
    lemma_field(a, b);
    let v = predictor::VPOS_SPREAD;
    let w = predictor::STRING_SPREAD;
    let p = a.parser.text.vpos;
    let q = b.parser.text.vpos;
    let x: u32 = if in_value_string(a) { 1 } else { 0 };
    let y: u32 = if in_value_string(b) { 1 } else { 0 };
    let f = field(a);
    let g = field(b);
    if f != g {
        lemma_xor_injective(f, g, p.wrapping_mul(v));
        lemma_xor_injective(f ^ p.wrapping_mul(v), g ^ p.wrapping_mul(v), x.wrapping_mul(w));
    } else if p != q {
        lemma_spread(p, q);
        lemma_xor_injective(p.wrapping_mul(v), q.wrapping_mul(v), f);
        lemma_xor_injective(f ^ p.wrapping_mul(v), f ^ q.wrapping_mul(v), x.wrapping_mul(w));
    } else {
        lemma_spread(x, y);
        lemma_xor_injective(x.wrapping_mul(w), y.wrapping_mul(w), f ^ p.wrapping_mul(v));
    }
}

/// The second structure context is made of where the text stands, of how deep, and of
/// the last byte, and of nothing else.
pub proof fn law_structure_by_last_byte(a: PredictorView, b: PredictorView)
    requires
        comparable(a, b),
        standing(a) == standing(b),
        reach(a) == reach(b),
        behind(a) == behind(b),
    ensures
        a.in_context().ctxh[6] == b.in_context().ctxh[6],
{
    lemma_field(a, b);
}

/// The second structure context tells each of the things it is made of. (In CSV and
/// SQL the field and the reach move together.)
pub proof fn law_structure_tells_last_byte(a: PredictorView, b: PredictorView)
    requires
        comparable(a, b),
        ({
            let field = standing(a) == standing(b);
            let other = (standing(a).0 == standing(b).0) != (standing(a).1 == standing(b).1);
            let depth = reach(a) == reach(b);
            let last = behind(a) == behind(b);
            ||| other && depth && last
            ||| field && !depth && last
            ||| field && depth && !last
        }),
    ensures
        a.in_context().ctxh[6] != b.in_context().ctxh[6],
{
    lemma_field(a, b);
    let f = field(a).wrapping_mul(hashing::SPREAD);
    let g = field(b).wrapping_mul(hashing::SPREAD);
    let x = (reach(a) as u32).wrapping_mul(predictor::AUX_SPREAD);
    let y = (reach(b) as u32).wrapping_mul(predictor::AUX_SPREAD);
    let p = (behind(a) as u32).wrapping_mul(predictor::LAST_SPREAD);
    let q = (behind(b) as u32).wrapping_mul(predictor::LAST_SPREAD);
    assert(a.in_context().ctxh[6] == f ^ x ^ p);
    assert(b.in_context().ctxh[6] == g ^ y ^ q);
    if field(a) != field(b) {
        lemma_spread(field(a), field(b));
        lemma_xor_injective(f, g, x);
        lemma_xor_injective(f ^ x, g ^ x, p);
    } else if reach(a) != reach(b) {
        lemma_spread(reach(a) as u32, reach(b) as u32);
        lemma_xor_injective(x, y, f);
        lemma_xor_injective(f ^ x, f ^ y, p);
    } else {
        lemma_spread(behind(a) as u32, behind(b) as u32);
        lemma_xor_injective(p, q, f ^ x);
    }
}

/// The contexts in full: five of the last bytes, and two of the structure. In a text
/// of fewer bytes a context of bytes stands for its order alone.
pub proof fn law_contexts_in_full(m: PredictorView, k: int)
    requires
        1 <= k <= 4,
        m.parser.parens.len() <= 32,
    ensures
        ({
            let c = m.in_context().ctxh;
            let n = m.buf.len() as int;
            let (x, y) = standing(m);
            let field: u32 = match m.mode {
                Mode::Json => x as u32,
                Mode::Csv => (x as u32).wrapping_mul(0x9e37_79b1) ^ 0xc5c5_3737,
                Mode::Sql => (x as u32).wrapping_mul(0x9e37_79b1) ^ (y as u32).wrapping_mul(
                    0x85eb_ca6b,
                ) ^ 0x5917_9179,
                Mode::Xml => (x as u32) ^ (y as u32).wrapping_mul(0x68e3_1da4),
                Mode::Generic => 0,
            };
            let string: u32 = if in_value_string(m) { 1 } else { 0 };
            &&& c.len() == 7
            &&& c[0] == 0x1234_5678
            &&& n >= k ==> c[k] == hashing::hash_context(m.buf.subrange(n - k, n))
            &&& n < k ==> c[k] == (k as u32).wrapping_mul(0x9e37_79b1)
            &&& c[5] == field ^ m.parser.text.vpos.wrapping_mul(0x85eb_ca6b) ^ string.wrapping_mul(
                0xc2b2_ae35,
            )
            &&& c[6] == field.wrapping_mul(0x9e37_79b1) ^ (reach(m) as u32).wrapping_mul(0x27d4_eb2f)
                ^ (behind(m) as u32).wrapping_mul(0x1656_67b1)
        }),
{
}

/// Once a byte has been read the contexts are those of the place behind it.
pub proof fn law_contexts_are_current(m: PredictorView, bit: u32)
    requires
        bit <= 1,
        128 <= m.c0 < 256,
    ensures
        m.predicted().updated(bit).ctxh == m.predicted().updated(bit).in_context().ctxh,
        m.predicted().updated(bit).ctxh.len() == 7,
{
}

} // verus!
