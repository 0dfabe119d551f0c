//! The predictor: a portfolio of models and the mixer that blends them, in
//! integer fixed point.

use vstd::prelude::*;
use crate::hashing;
use crate::hashing::SPREAD;
use crate::match_model;
use crate::match_model::{MatchModel, MatchView, MEM};
use crate::mode::Mode;
use crate::numeric;
use crate::numeric::{NumState, NUMSLOTS};
use crate::parser::{
    CsvState, Frame, JsonState, ParserView, Scan, SqlState, TextState, XmlState,
};
use crate::relation::{CrossState, RowValue};
use crate::tables;
use crate::tables::ST_MAX;

verus! {

/// Direct context models, by the number of bytes they look back.
pub const NORD: usize = 5;

/// Table models: the direct contexts and the two structure contexts.
pub const NTAB: usize = 7;

/// Inputs of the mixer: table models, match models, the numeric model.
pub const NIN: usize = 10;

/// Context lengths of the two match models: one that reacquires fast, and one
/// that locks onto long repeats.
pub const MINLEN: usize = 6;
pub const MINLEN_LONG: usize = 16;

/// Mixer learning rate.
pub const LR: i32 = 7;

/// Weights of the mixer: one set for each previous byte.
pub const NWEIGHT: usize = 2560;

/// Cells of all context tables; table `m` starts at `m * MEM`.
pub const NCELL: usize = 0x70_0000;

/// Initial weight: an equal share of 1, in 16.16 fixed point.
pub const INIT_WEIGHT: i32 = 6553;

pub const ORDER0: u32 = 0x1234_5678;
pub const BIT_SPREAD: u32 = 2_654_435_761;
pub const VPOS_SPREAD: u32 = 0x85eb_ca6b;
pub const STRING_SPREAD: u32 = 0xc2b2_ae35;
pub const AUX_SPREAD: u32 = 0x27d4_eb2f;
pub const LAST_SPREAD: u32 = 0x1656_67b1;
pub const STATE_SPREAD: u32 = 0x68e3_1da4;

/// Depths are told apart up to this one.
pub const MAX_DEPTH: usize = 15;

/// The last byte of a text, 0 for none.
pub open spec fn last_byte(buf: Seq<u8>) -> u8 {
    if buf.len() > 0 { buf.last() } else { 0 }
}

/// The hash of the last `k` bytes; a shorter text has one hash for each order.
pub open spec fn order_context(buf: Seq<u8>, k: nat) -> u32 {
    if k == 0 {
        ORDER0
    } else if buf.len() >= k {
        hashing::hash_context(buf.subrange(buf.len() - k, buf.len() as int))
    } else {
        (k as u32).wrapping_mul(SPREAD)
    }
}

pub open spec fn capped_depth(n: nat) -> u32 {
    if n < MAX_DEPTH { n as u32 } else { MAX_DEPTH as u32 }
}

/// Where in the structure a text stands: the field, and a second coordinate.
pub open spec fn structure(mode: Mode, s: ParserView) -> (u32, u32) {
    match mode {
        Mode::Json => (s.json_field(), capped_depth(s.stack.len())),
        Mode::Csv => (hashing::csv_field_id(s.csv.col), s.csv.col),
        Mode::Sql => (s.sql_field(), s.sql.col),
        Mode::Xml => {
            let tag = if s.elements.len() > 0 { s.elements.last() } else { 0 };
            let state: u32 = if s.xml.in_attr {
                2
            } else if s.xml.in_tag {
                1
            } else {
                0
            };
            (tag ^ state.wrapping_mul(STATE_SPREAD), capped_depth(s.elements.len()))
        },
        Mode::Generic => (0, 0),
    }
}

/// The contexts of the table models.
pub open spec fn contexts(buf: Seq<u8>, mode: Mode, s: ParserView) -> Seq<u32> {
    let (field, aux) = structure(mode, s);
    let in_value: u32 = if s.text.in_str && !s.json.str_is_key { 1 } else { 0 };
    Seq::new(
        NTAB as nat,
        |m: int|
            if m < NORD {
                order_context(buf, m as nat)
            } else if m == NORD {
                field ^ s.text.vpos.wrapping_mul(VPOS_SPREAD) ^ in_value.wrapping_mul(STRING_SPREAD)
            } else {
                field.wrapping_mul(SPREAD) ^ aux.wrapping_mul(AUX_SPREAD) ^ (last_byte(
                    buf,
                ) as u32).wrapping_mul(LAST_SPREAD)
            },
    )
}

/// The cell of table `m` for a context and the bits of the byte read so far.
pub open spec fn cell_of(m: int, ctx: u32, c0: u32) -> int {
    m * MEM + (ctx ^ c0.wrapping_mul(BIT_SPREAD)) as int % MEM as int
}

/// The weighted sum of the first `n` inputs.
pub open spec fn blend(w: Seq<i32>, sel: int, st: Seq<i32>, n: nat) -> int
    decreases n,
{
    if n == 0 {
        0
    } else {
        blend(w, sel, st, (n - 1) as nat) + w[sel * NIN + n - 1] * st[n - 1]
    }
}

pub open spec fn clamp_stretched(d: int) -> int {
    if d < -ST_MAX {
        -ST_MAX
    } else if d > ST_MAX {
        ST_MAX as int
    } else {
        d
    }
}

/// The cell moves a sixteenth of the way to certainty of `bit`.
pub open spec fn adapted(cell: u16, bit: u32) -> u16 {
    (cell + (bit * 4096 - cell) / 16) as u16
}

/// The first `n` cells of `idx` moved, one after the other.
pub open spec fn adapted_all(t: Seq<u16>, idx: Seq<usize>, bit: u32, n: nat) -> Seq<u16>
    decreases n,
{
    if n == 0 {
        t
    } else {
        let s = adapted_all(t, idx, bit, (n - 1) as nat);
        let i = idx[n - 1] as int;
        s.update(i, adapted(s[i], bit))
    }
}

/// The error of a prediction, times the learning rate.
pub open spec fn gradient(bit: u32, pr: i32) -> int {
    (bit * 4096 - pr) * LR
}

/// The weights of set `sel` moved along the gradient; weights wrap around.
pub open spec fn trained(w: Seq<i32>, sel: int, st: Seq<i32>, err: int) -> Seq<i32> {
    Seq::new(
        w.len(),
        |j: int|
            if j / NIN as int == sel {
                w[j].wrapping_add((st[j % NIN as int] * err / 65536) as i32)
            } else {
                w[j]
            },
    )
}

/// The whole state of the predictor.
pub struct PredictorView {
    /// The bytes seen.
    pub buf: Seq<u8>,
    pub mode: Mode,
    /// The bits of the present byte below a leading 1, and their number.
    pub c0: u32,
    pub bitpos: u32,
    /// The contexts of the table models.
    pub ctxh: Seq<u32>,
    /// The context tables: 12-bit probabilities.
    pub t: Seq<u16>,
    pub near: MatchView,
    pub far: MatchView,
    pub parser: ParserView,
    /// The weights of the mixer.
    pub w: Seq<i32>,
    /// What the last prediction was made of: the cells, the inputs of the mixer,
    /// the set of weights, and the probability.
    pub idx: Seq<usize>,
    pub st: Seq<i32>,
    pub wsel: nat,
    pub pr: i32,
}

impl PredictorView {
    pub open spec fn start(mode: Mode) -> PredictorView {
        PredictorView {
            buf: Seq::empty(),
            mode,
            c0: 1,
            bitpos: 0,
            ctxh: contexts(Seq::empty(), mode, ParserView::start()),
            t: Seq::new(NCELL as nat, |i: int| 2048u16),
            near: MatchView::start(MINLEN as nat),
            far: MatchView::start(MINLEN_LONG as nat),
            parser: ParserView::start(),
            w: Seq::new(NWEIGHT as nat, |i: int| INIT_WEIGHT),
            idx: Seq::new(NTAB as nat, |i: int| 0usize),
            st: Seq::new(NIN as nat, |i: int| 0i32),
            wsel: 0,
            pr: 2048,
        }
    }

    /// What every step keeps.
    pub open spec fn sound(self) -> bool {
        &&& 1 <= self.pr <= 4095
        &&& self.bitpos < 8
        &&& (1u32 << self.bitpos) <= self.c0 < (2u32 << self.bitpos)
        &&& self.ctxh.len() == NTAB
        &&& self.t.len() == NCELL
        &&& forall|i: int| 0 <= i < NCELL ==> #[trigger] self.t[i] < 4096
        &&& self.near.fits(self.buf.len())
        &&& -2047 <= self.near.mag <= 2047
        &&& self.far.fits(self.buf.len())
        &&& -2047 <= self.far.mag <= 2047
        &&& self.parser.sound()
        &&& self.w.len() == NWEIGHT
        &&& self.idx.len() == NTAB
        &&& forall|m: int| 0 <= m < NTAB ==> #[trigger] self.idx[m] < NCELL
        &&& self.st.len() == NIN
        &&& forall|i: int| 0 <= i < NIN ==> -2047 <= #[trigger] self.st[i] <= 2047
        &&& self.wsel < 256
    }

    /// Input `i` of the mixer.
    pub open spec fn input(self, i: int) -> int {
        if i < NTAB {
            tables::stretch_of(self.t[cell_of(i, self.ctxh[i], self.c0)] as nat)
        } else if i == NTAB {
            self.near.stretched(self.c0, self.bitpos)
        } else if i == NTAB + 1 {
            self.far.stretched(self.c0, self.bitpos)
        } else {
            self.parser.number_vote(self.c0, self.bitpos)
        }
    }

    /// The inputs of the mixer.
    pub open spec fn inputs(self) -> Seq<i32> {
        Seq::new(NIN as nat, |i: int| self.input(i) as i32)
    }

    /// The blended probability that the next bit is 1, in units of 1/4096.
    pub open spec fn probability(self) -> int {
        let sum = blend(self.w, last_byte(self.buf) as int, self.inputs(), NIN as nat);
        tables::squash_of(clamp_stretched(sum / 65536))
    }

    /// The state after a prediction, which takes notes for the update.
    pub open spec fn predicted(self) -> PredictorView {
        PredictorView {
            idx: Seq::new(NTAB as nat, |m: int| cell_of(m, self.ctxh[m], self.c0) as usize),
            st: self.inputs(),
            wsel: last_byte(self.buf) as nat,
            pr: self.probability() as i32,
            ..self
        }
    }

    /// The weights and tables after `bit` turned up.
    pub open spec fn learned(self, bit: u32) -> PredictorView {
        PredictorView {
            w: trained(self.w, self.wsel as int, self.st, gradient(bit, self.pr)),
            t: adapted_all(self.t, self.idx, bit, NTAB as nat),
            ..self
        }
    }

    /// With the contexts of the present place.
    pub open spec fn in_context(self) -> PredictorView {
        PredictorView { ctxh: contexts(self.buf, self.mode, self.parser), ..self }
    }

    /// The state after a whole byte.
    pub open spec fn byte_read(self, byte: u8) -> PredictorView {
        let buf = self.buf.push(byte);
        PredictorView {
            buf,
            near: self.near.updated(buf, byte, tables::stretch_table()),
            far: self.far.updated(buf, byte, tables::stretch_table()),
            parser: self.parser.fed(self.mode, byte),
            ..self
        }.in_context()
    }

    /// The state after a bit.
    pub open spec fn updated(self, bit: u32) -> PredictorView {
        let s = self.learned(bit);
        let c0 = self.c0 * 2 + bit;
        if c0 < 256 {
            PredictorView { c0: c0 as u32, bitpos: (self.bitpos + 1) as u32, ..s }
        } else {
            PredictorView { c0: 1, bitpos: 0, ..s.byte_read((c0 - 256) as u8) }
        }
    }
}

/// The parsers and the numeric model that they feed.
pub struct Parser {
    pub text: TextState,
    pub json: JsonState,
    pub csv: CsvState,
    pub sql: SqlState,
    pub xml: XmlState,
    pub scan: Scan,
    pub stack: Vec<Frame>,
    pub parens: Vec<u32>,
    pub elements: Vec<u32>,
    pub num: Vec<NumState>,
    pub cross: Vec<CrossState>,
    pub row: Vec<RowValue>,
    pub np_digits: Vec<u8>,
    pub np_ptr: usize,
    pub np_active: bool,
    pub num_mag: i32,
}

impl View for Parser {
    type V = ParserView;

    open spec fn view(&self) -> ParserView {
        ParserView {
            text: self.text,
            json: self.json,
            csv: self.csv,
            sql: self.sql,
            xml: self.xml,
            scan: self.scan,
            stack: self.stack@,
            parens: self.parens@,
            elements: self.elements@,
            num: self.num@,
            cross: self.cross@,
            row: self.row@,
            np_digits: self.np_digits@,
            np_ptr: self.np_ptr as nat,
            np_active: self.np_active,
            num_mag: self.num_mag,
        }
    }
}

/// Predicts the next bit from everything seen so far.
pub struct Predictor {
    pub buf: Vec<u8>,
    pub mode: Mode,
    pub stretch_tab: Vec<i32>,
    pub squash_tab: Vec<i32>,
    pub c0: u32,
    pub bitpos: u32,
    pub ctxh: [u32; NTAB],
    pub t: Vec<u16>,
    pub near: MatchModel,
    pub far: MatchModel,
    pub parser: Parser,
    pub w: Vec<i32>,
    pub idx: [usize; NTAB],
    pub st: [i32; NIN],
    pub wsel: usize,
    pub pr: i32,
}

impl View for Predictor {
    type V = PredictorView;

    open spec fn view(&self) -> PredictorView {
        PredictorView {
            buf: self.buf@,
            mode: self.mode,
            c0: self.c0,
            bitpos: self.bitpos,
            ctxh: self.ctxh@,
            t: self.t@,
            near: self.near@,
            far: self.far@,
            parser: self.parser@,
            w: self.w@,
            idx: self.idx@,
            st: self.st@,
            wsel: self.wsel as nat,
            pr: self.pr,
        }
    }
}

impl Predictor {
    /// What the parsers and the numeric model need: their own state is sound, and
    /// confidences are looked up in the right table.
    pub open spec fn parser_inv(&self) -> bool {
        &&& self.parser@.sound()
        &&& self.stretch_tab@ == tables::stretch_table()
    }

    /// The parser went from its state in `old` to `parser`, and nothing else changed.
    pub open spec fn parsed_to(&self, old: &Predictor, parser: ParserView) -> bool {
        &&& self.parser@ == parser
        &&& parser.sound()
        &&& *self == (Predictor { parser: self.parser, ..*old })
    }

    /// The state is sound and the lookup tables are the right ones.
    pub open spec fn inv(&self) -> bool {
        &&& self@.sound()
        &&& self.stretch_tab@ == tables::stretch_table()
        &&& self.squash_tab@ == tables::squash_table()
    }
}

/// The mixer is never certain: no bit is ruled out, so every bit can be coded.
pub proof fn law_never_certain(m: PredictorView)
    ensures
        1 <= m.probability() <= 4095,
{
    let sum = blend(m.w, last_byte(m.buf) as int, m.inputs(), NIN as nat);
    tables::lemma_squash_range(clamp_stretched(sum / 65536));
}

proof fn lemma_match_mag(m: MatchView, buf: Seq<u8>, byte: u8)
    ensures
        -2047 <= m.updated(buf, byte, tables::stretch_table()).mag <= 2047,
{
    let s = m.followed(buf, byte);
    let r = if buf.len() >= m.minlen { s.acquired(buf).linked(buf) } else { s };
    match_model::law_confidence_climbs(r.len, r.len);
    tables::lemma_stretch_range(match_model::confidence(r.len));
}

proof fn lemma_bit_count(c0: u32, bitpos: u32, bit: u32)
    requires
        bitpos < 8,
        (1u32 << bitpos) <= c0 < (2u32 << bitpos),
        bit <= 1,
    ensures
        1 <= c0 < 256,
        bitpos < 7 ==> (1u32 << ((bitpos + 1) as u32)) <= c0 * 2 + bit < (2u32 << ((bitpos
            + 1) as u32)),
        bitpos < 7 <==> c0 * 2 + bit < 256,
        c0 * 2 + bit < 512,
{
    assert(1 <= c0 < 256) by (bit_vector)
        requires
            bitpos < 8,
            (1u32 << bitpos) <= c0 < (2u32 << bitpos),
    ;
    assert(bitpos < 7 ==> (1u32 << ((bitpos + 1) as u32)) <= c0 * 2 + bit < (2u32 << ((bitpos
        + 1) as u32))) by (bit_vector)
        requires
            bitpos < 8,
            (1u32 << bitpos) <= c0 < (2u32 << bitpos),
            bit <= 1,
    ;
    assert(bitpos < 7 <==> c0 * 2 + bit < 256) by (bit_vector)
        requires
            bitpos < 8,
            (1u32 << bitpos) <= c0 < (2u32 << bitpos),
            bit <= 1,
    ;
}

/// Move the weights of set `sel` along the gradient.
fn train(w: &mut Vec<i32>, sel: usize, st: &[i32; NIN], err: i32)
    requires
        old(w)@.len() == NWEIGHT,
        sel < 256,
        -28665 <= err <= 28665,
        forall|i: int| 0 <= i < NIN ==> -2047 <= #[trigger] st@[i] <= 2047,
    ensures
        final(w)@ == trained(old(w)@, sel as int, st@, err as int),
{
    let ghost w0 = w@;
    let mut i: usize = 0;
    while i < NIN
        invariant
            i <= NIN,
            sel < 256,
            w@.len() == w0.len() == NWEIGHT,
            -28665 <= err <= 28665,
            st@.len() == NIN,
            forall|k: int| 0 <= k < NIN ==> -2047 <= #[trigger] st@[k] <= 2047,
            forall|j: int|
                0 <= j < NWEIGHT ==> #[trigger] w@[j] == (if sel * NIN <= j < sel * NIN + i {
                    trained(w0, sel as int, st@, err as int)[j]
                } else {
                    w0[j]
                }),
        decreases NIN - i,
    {
        let s: i32 = st[i];
        assert(-2047 * 28665 <= s * err <= 2047 * 28665) by (nonlinear_arith)
            requires
                -2047 <= s <= 2047,
                -28665 <= err <= 28665,
        ;
        let prod: i32 = s * err;
        assert(prod >> 16 == prod / 65536) by (bit_vector);
        let j: usize = sel * NIN + i;
        w[j] = w[j].wrapping_add(prod >> 16);
        i = i + 1;
    }
    assert(w@ =~= trained(w0, sel as int, st@, err as int));
}

/// Move the cells of `idx` towards `bit`.
fn adapt(t: &mut Vec<u16>, idx: &[usize; NTAB], bit: u32)
    requires
        old(t)@.len() == NCELL,
        bit <= 1,
        forall|m: int| 0 <= m < NTAB ==> #[trigger] idx@[m] < NCELL,
        forall|i: int| 0 <= i < NCELL ==> #[trigger] old(t)@[i] < 4096,
    ensures
        final(t)@ == adapted_all(old(t)@, idx@, bit, NTAB as nat),
        final(t)@.len() == NCELL,
        forall|i: int| 0 <= i < NCELL ==> #[trigger] final(t)@[i] < 4096,
{
    let target: i32 = (bit * 4096) as i32;
    let mut m: usize = 0;
    while m < NTAB
        invariant
            m <= NTAB,
            bit <= 1,
            target == bit * 4096,
            idx@.len() == NTAB,
            forall|k: int| 0 <= k < NTAB ==> #[trigger] idx@[k] < NCELL,
            t@.len() == NCELL,
            t@ == adapted_all(old(t)@, idx@, bit, m as nat),
            forall|i: int| 0 <= i < NCELL ==> #[trigger] t@[i] < 4096,
        decreases NTAB - m,
    {
        let i: usize = idx[m];
        let cur: i32 = t[i] as i32;
        let gap: i32 = target - cur;
        assert(gap >> 4 == gap / 16) by (bit_vector);
        t[i] = (cur + (gap >> 4)) as u16;
        m = m + 1;
    }
}

impl Predictor {
    pub fn new(mode: Mode) -> (p: Predictor)
        ensures
            p@ == PredictorView::start(mode),
            p.inv(),
    {
        let parser = Parser {
            text: TextState { in_str: false, esc: false, vpos: 0 },
            json: JsonState { str_is_key: false, cur_str_hash: 0, value_pending: false },
            csv: CsvState { col: 0, in_quote: false, value_pending: true },
            sql: SqlState { col: 0, value_pending: false },
            xml: XmlState {
                in_tag: false,
                in_attr: false,
                aq: 0,
                cur_hash: 0,
                reading: false,
                name_started: false,
                close: false,
                selfclose: false,
            },
            scan: Scan {
                in_num_value: false,
                cur_num: 0,
                cur_len: 0,
                cur_neg: false,
                cur_is_num: false,
                cur_field: 0,
            },
            stack: Vec::new(),
            parens: Vec::new(),
            elements: Vec::new(),
            num: vec![NumState { last: 0, delta: 0, hits: 0, seen: false }; NUMSLOTS],
            cross: vec![CrossState { source: 0, offset: 0, hits: 0, seen: false }; NUMSLOTS],
            row: Vec::new(),
            np_digits: Vec::new(),
            np_ptr: 0,
            np_active: false,
            num_mag: 0,
        };
        let mut p = Predictor {
            buf: Vec::new(),
            mode,
            stretch_tab: tables::build_stretch(),
            squash_tab: tables::build_squash(),
            c0: 1,
            bitpos: 0,
            ctxh: [0; NTAB],
            t: vec![2048u16; NCELL],
            near: MatchModel::new(MINLEN),
            far: MatchModel::new(MINLEN_LONG),
            parser,
            w: vec![INIT_WEIGHT; NWEIGHT],
            idx: [0; NTAB],
            st: [0; NIN],
            wsel: 0,
            pr: 2048,
        };
        p.recompute_ctx();
        proof {
            let v = PredictorView::start(mode);
            assert(p.parser.num@ =~= ParserView::start().num);
            assert(p.parser.cross@ =~= ParserView::start().cross);
            assert(p.t@ =~= v.t);
            assert(p.w@ =~= v.w);
            assert(p.idx@ =~= v.idx);
            assert(p.st@ =~= v.st);
            assert(p.ctxh@ == v.ctxh);
            assert(1u32 << 0 == 1 && 2u32 << 0 == 2) by (bit_vector);
            assert(numeric::pow10(0) == 1);
        }
        p
    }

    /// Look up the contexts of the present place.
    pub fn recompute_ctx(&mut self)
        ensures
            final(self)@ == old(self)@.in_context(),
            *final(self) == (Predictor { ctxh: final(self).ctxh, ..*old(self) }),
    {
        let n: usize = self.buf.len();
        let mut ctxh: [u32; NTAB] = [0; NTAB];
        ctxh[0] = ORDER0;
        let mut k: usize = 1;
        while k < NORD
            invariant
                1 <= k <= NORD,
                n == self.buf@.len(),
                ctxh@.len() == NTAB,
                forall|m: int| 0 <= m < k ==> #[trigger] ctxh@[m] == order_context(self.buf@, m as nat),
            decreases NORD - k,
        {
            ctxh[k] = if n >= k {
                hashing::hash_n(self.buf.as_slice(), n, k)
            } else {
                (k as u32).wrapping_mul(SPREAD)
            };
            k = k + 1;
        }
        let last: u32 = if n > 0 { self.buf[n - 1] as u32 } else { 0 };
        let (field, aux) = self.structure();
        let in_val_str: u32 = if self.parser.text.in_str && !self.parser.json.str_is_key { 1 } else { 0 };
        ctxh[NORD] = field ^ self.parser.text.vpos.wrapping_mul(VPOS_SPREAD) ^ in_val_str.wrapping_mul(
            STRING_SPREAD,
        );
        ctxh[NORD + 1] = field.wrapping_mul(SPREAD) ^ aux.wrapping_mul(AUX_SPREAD)
            ^ last.wrapping_mul(LAST_SPREAD);
        self.ctxh = ctxh;
        assert(self.ctxh@ =~= contexts(self@.buf, self@.mode, self@.parser));
    }

    /// Structure context: field identity and secondary axis per format.
    fn structure(&self) -> (r: (u32, u32))
        ensures
            r == structure(self@.mode, self@.parser),
    {
        match self.mode {
            Mode::Json => (self.field_hash(), depth(self.parser.stack.len())),
            Mode::Csv => (hashing::csv_field(self.parser.csv.col), self.parser.csv.col),
            Mode::Sql => (
                hashing::sql_field(self.parser.sql.col, self.parser.parens.len() as u32),
                self.parser.sql.col,
            ),
            Mode::Xml => {
                let n: usize = self.parser.elements.len();
                let tag: u32 = if n > 0 { self.parser.elements[n - 1] } else { 0 };
                let state: u32 = if self.parser.xml.in_attr {
                    2
                } else if self.parser.xml.in_tag {
                    1
                } else {
                    0
                };
                (tag ^ state.wrapping_mul(STATE_SPREAD), depth(n))
            },
            Mode::Generic => (0, 0),
        }
    }

    /// The inputs of the mixer, and the cells that the table models looked up.
    fn gather(&self) -> (r: ([usize; NTAB], [i32; NIN]))
        requires
            self.inv(),
        ensures
            r.0@ == self@.predicted().idx,
            r.1@ == self@.inputs(),
            forall|m: int| 0 <= m < NTAB ==> #[trigger] r.0@[m] < NCELL,
            forall|i: int| 0 <= i < NIN ==> -2047 <= #[trigger] r.1@[i] <= 2047,
    {
        let mut idx: [usize; NTAB] = [0; NTAB];
        let mut st: [i32; NIN] = [0; NIN];
        let mut m: usize = 0;
        while m < NTAB
            invariant
                m <= NTAB,
                self.inv(),
                idx@.len() == NTAB,
                st@.len() == NIN,
                forall|k: int| 0 <= k < m ==> 0 <= #[trigger] idx@[k] < NCELL,
                forall|k: int|
                    0 <= k < m ==> #[trigger] idx@[k] == cell_of(k, self.ctxh@[k], self.c0),
                forall|k: int| 0 <= k < m ==> #[trigger] st@[k] == self@.input(k),
                forall|k: int| 0 <= k < m ==> -2047 <= #[trigger] st@[k] <= 2047,
            decreases NTAB - m,
        {
            let local: usize = (self.ctxh[m] ^ self.c0.wrapping_mul(BIT_SPREAD)) as usize % MEM;
            let flat: usize = m * MEM + local;
            idx[m] = flat;
            let tv: usize = self.t[flat] as usize;
            proof {
                tables::lemma_stretch_range(tv as nat);
            }
            st[m] = self.stretch_tab[tv];
            m = m + 1;
        }
        st[NTAB] = self.near.stretch_for(self.c0, self.bitpos);
        st[NTAB + 1] = self.far.stretch_for(self.c0, self.bitpos);
        st[NTAB + 2] = if self.parser.np_active && self.parser.np_ptr < self.parser.np_digits.len() {
            match_model::vote(
                self.parser.np_digits[self.parser.np_ptr],
                self.parser.num_mag,
                self.c0,
                self.bitpos,
            )
        } else {
            0
        };
        assert(idx@ =~= self@.predicted().idx);
        assert(st@ =~= self@.inputs());
        (idx, st)
    }

    /// The probability that the next bit is 1, in units of 1/4096.
    pub fn predict(&mut self) -> (p: u32)
        requires
            old(self).inv(),
        ensures
            p == old(self)@.probability(),
            1 <= p <= 4095,
            final(self)@ == old(self)@.predicted(),
            final(self).inv(),
    {
        let (idx, st) = self.gather();
        let n: usize = self.buf.len();
        let wsel: usize = if n > 0 { self.buf[n - 1] as usize } else { 0 };
        // mix: dot product in 16.16 fixed point
        let mut dot: i64 = 0;
        let mut i: usize = 0;
        while i < NIN
            invariant
                i <= NIN,
                wsel < 256,
                self.w@.len() == NWEIGHT,
                st@.len() == NIN,
                forall|k: int| 0 <= k < NIN ==> -2047 <= #[trigger] st@[k] <= 2047,
                dot == blend(self.w@, wsel as int, st@, i as nat),
                -(i * 4_395_899_027_456) <= dot <= i * 4_395_899_027_456,
            decreases NIN - i,
        {
            let weight: i32 = self.w[wsel * NIN + i];
            let input: i32 = st[i];
            assert(-4_395_899_027_456 <= weight * input <= 4_395_899_027_456) by (nonlinear_arith)
                requires
                    -2_147_483_648 <= weight <= 2_147_483_648,
                    -2047 <= input <= 2047,
            ;
            dot = dot + weight as i64 * input as i64;
            i = i + 1;
        }
        assert(dot >> 16 == dot / 65536) by (bit_vector);
        let raw: i32 = (dot >> 16) as i32;
        let d: i32 = if raw < -ST_MAX {
            -ST_MAX
        } else if raw > ST_MAX {
            ST_MAX
        } else {
            raw
        };
        proof {
            tables::lemma_squash_range(d as int);
        }
        let pr: i32 = self.squash_tab[(d + 2048) as usize];
        self.idx = idx;
        self.st = st;
        self.wsel = wsel;
        self.pr = pr;
        pr as u32
    }

    /// Learn that the next bit was `bit`.
    pub fn update(&mut self, bit: u32)
        requires
            old(self).inv(),
            bit <= 1,
        ensures
            final(self)@ == old(self)@.updated(bit),
            final(self).inv(),
    {
        let err: i32 = ((bit * 4096) as i32 - self.pr) * LR;
        train(&mut self.w, self.wsel, &self.st, err);
        adapt(&mut self.t, &self.idx, bit);
        proof {
            lemma_bit_count(self.c0, self.bitpos, bit);
        }
        let c0: u32 = self.c0 * 2 + bit;
        if c0 >= 256 {
            self.byte_boundary((c0 - 256) as u8);
            self.c0 = 1;
            self.bitpos = 0;
            assert(1u32 << 0 == 1 && 2u32 << 0 == 2) by (bit_vector);
        } else {
            self.c0 = c0;
            self.bitpos = self.bitpos + 1;
        }
    }

    /// Advance every model by a whole byte.
    pub fn byte_boundary(&mut self, byte: u8)
        requires
            old(self).inv(),
        ensures
            final(self)@ == old(self)@.byte_read(byte),
            final(self).inv(),
    {
        self.buf.push(byte);
        let ghost buf = self.buf@;
        proof {
            lemma_match_mag(self.near@, buf, byte);
            lemma_match_mag(self.far@, buf, byte);
        }
        self.near.update(self.buf.as_slice(), byte, self.stretch_tab.as_slice());
        self.far.update(self.buf.as_slice(), byte, self.stretch_tab.as_slice());
        match self.mode {
            Mode::Json => self.update_struct_json(byte),
            Mode::Csv => self.update_struct_csv(byte),
            Mode::Sql => self.update_struct_sql(byte),
            Mode::Xml => self.update_struct_xml(byte),
            Mode::Generic => self.update_struct_generic(byte),
        }
        self.recompute_ctx();
    }
}

/// A depth, capped.
fn depth(n: usize) -> (d: u32)
    ensures
        d == capped_depth(n as nat),
{
    if n < MAX_DEPTH { n as u32 } else { MAX_DEPTH as u32 }
}

} // verus!
