//! Only the surprise is coded: what a bit costs, and with which probability it is
//! coded.

use vstd::prelude::*;
use crate::codec;
use crate::coder;
use crate::coder::{DecoderView, EncoderView, Interval};
use crate::mode::Mode;
use crate::predictor;
use crate::predictor::PredictorView;

verus! {

/// `256^n`.
pub open spec fn bytes_worth(n: nat) -> nat
    decreases n,
{
    if n == 0 { 1 } else { 256 * bytes_worth((n - 1) as nat) }
}

/// The number of code values in an interval.
pub open spec fn width(iv: Interval) -> int {
    iv.x2 - iv.x1 + 1
}

/// The number of code values that stand for `bit`, of probability `p / 4096` to be 1.
pub open spec fn share(iv: Interval, bit: bool, p: nat) -> int {
    let ones = (iv.x2 - iv.x1) * p / 4096 + 1;
    if bit { ones } else { width(iv) - ones }
}

proof fn lemma_bytes_worth(a: nat, b: nat)
    ensures
        bytes_worth(a + b) == bytes_worth(a) * bytes_worth(b),
        bytes_worth(a) > 0,
    decreases a,
{
    if a > 0 {
        let i = (a - 1) as nat;
        lemma_bytes_worth(i, b);
        let x = bytes_worth(i);
        let y = bytes_worth(b);
        assert(bytes_worth(a + b) == 256 * bytes_worth((a + b - 1) as nat));
        assert((a + b - 1) as nat == i + b);
        assert(256 * (x * y) == (256 * x) * y) by (nonlinear_arith);
    } else {
        assert(1 * bytes_worth(b) == bytes_worth(b));
    }
}

proof fn lemma_settle_width(e: EncoderView)
    requires
        e.iv.valid(),
    ensures
        e.out.len() <= e.settle().out.len(),
        width(e.settle().iv) == width(e.iv) * bytes_worth((e.settle().out.len() - e.out.len()) as nat),
    decreases 0x1_0000_0000 - (e.iv.x2 - e.iv.x1),
{
    if !e.iv.open_lead() {
        let next = EncoderView {
            iv: e.iv.shift(),
            out: e.out.push((e.iv.x2 / 0x100_0000) as u8),
        };
        lemma_settle_width(next);
        let k = (e.settle().out.len() - next.out.len()) as nat;
        let w = width(e.iv);
        let y = bytes_worth(k);
        assert(width(next.iv) == 256 * w);
        assert((256 * w) * y == w * (256 * y)) by (nonlinear_arith);
        assert(bytes_worth(k + 1) == 256 * y);
    } else {
        assert(width(e.iv) * 1 == width(e.iv));
    }
}

/// What a bit costs. Of the code values that were possible, those remain that stand for
/// the bit, as many of them as its probability says; and every byte that is written
/// makes 256 out of each of them. A likely bit costs next to nothing.
pub proof fn law_bit_costs_its_surprise(e: EncoderView, bit: bool, p: nat)
    requires
        e.ready(),
        p < 4096,
    ensures
        ({
            let q = e.coded(bit, p);
            let written = q.out.len() - e.out.len();
            &&& written >= 0
            &&& width(q.iv) == share(e.iv, bit, p) * bytes_worth(written as nat)
            &&& 1 < width(q.iv) <= 0x1_0000_0000
            &&& 0 < share(e.iv, bit, p) < width(e.iv)
        }),
{
    coder::lemma_coded_ready(e, bit, p);
    let iv = e.iv.narrow(bit, p);
    let range = e.iv.x2 - e.iv.x1;
    assert(0 <= range * p / 4096 < range) by (nonlinear_arith)
        requires
            p < 4096,
            range >= 1,
    ;
    lemma_settle_width(EncoderView { iv, out: e.out });
}

/// The product of the widths of the intervals that `bits` were coded in.
pub open spec fn widths(e: EncoderView, bits: Seq<bool>, probs: Seq<nat>) -> int
    decreases bits.len(),
{
    if bits.len() == 0 {
        1
    } else {
        width(e.iv) * widths(e.coded(bits[0], probs[0]), bits.skip(1), probs.skip(1))
    }
}

/// The product of the shares that `bits` had of them.
pub open spec fn shares(e: EncoderView, bits: Seq<bool>, probs: Seq<nat>) -> int
    decreases bits.len(),
{
    if bits.len() == 0 {
        1
    } else {
        share(e.iv, bits[0], probs[0]) * shares(
            e.coded(bits[0], probs[0]),
            bits.skip(1),
            probs.skip(1),
        )
    }
}

proof fn lemma_length(e: EncoderView, bits: Seq<bool>, probs: Seq<nat>)
    requires
        e.ready(),
        bits.len() == probs.len(),
        forall|i: int| 0 <= i < probs.len() ==> #[trigger] probs[i] < 4096,
    ensures
        ({
            let more = coder::encode_all(e, bits, probs).len() - 4 - e.out.len();
            &&& more >= 0
            &&& shares(e, bits, probs) > 0
            &&& width(e.iv) * shares(e, bits, probs) * bytes_worth(more as nat) <= 0x1_0000_0000
                * widths(e, bits, probs)
        }),
    decreases bits.len(),
{
    if bits.len() == 0 {
        assert(coder::encode_all(e, bits, probs) == e.finished());
        assert(e.finished().len() == e.out.len() + 4);
        assert(width(e.iv) * 1 * bytes_worth(0) <= 0x1_0000_0000);
    } else {
        let q = e.coded(bits[0], probs[0]);
        let part = share(e.iv, bits[0], probs[0]);
        let w = width(e.iv);
        let wq = width(q.iv);
        let n = (q.out.len() - e.out.len()) as nat;
        coder::lemma_coded_ready(e, bits[0], probs[0]);
        law_bit_costs_its_surprise(e, bits[0], probs[0]);
        lemma_length(q, bits.skip(1), probs.skip(1));
        let s = shares(q, bits.skip(1), probs.skip(1));
        let x = widths(q, bits.skip(1), probs.skip(1));
        let m = (coder::encode_all(e, bits, probs).len() - 4 - q.out.len()) as nat;
        let a = bytes_worth(n) as int;
        let b = bytes_worth(m) as int;
        lemma_bytes_worth(n, m);
        lemma_bytes_worth(m, 0);
        assert((coder::encode_all(e, bits, probs).len() - 4 - e.out.len()) as nat == n + m);
        // wq * s * b <= 2^32 * x  and  wq == part * a
        assert(part > 0) by (nonlinear_arith)
            requires
                wq == part * a,
                wq > 1,
                a > 0,
        ;
        assert(part * s > 0) by (nonlinear_arith)
            requires
                part > 0,
                s > 0,
        ;
        assert(w * (part * s) * (a * b) == w * ((part * a) * s * b)) by (nonlinear_arith);
        assert(w * ((part * a) * s * b) <= w * (0x1_0000_0000 * x)) by (nonlinear_arith)
            requires
                (part * a) * s * b <= 0x1_0000_0000 * x,
                w > 0,
        ;
        assert(w * (0x1_0000_0000 * x) == 0x1_0000_0000 * (w * x)) by (nonlinear_arith);
    }
}

/// What a stream costs: four bytes, and no more than the surprise of its bits. The
/// bytes before the last four, each worth 256, are worth no more than the widths of
/// the intervals over the shares that the bits had of them.
pub proof fn law_stream_costs_its_surprise(bits: Seq<bool>, probs: Seq<nat>)
    requires
        bits.len() == probs.len(),
        forall|i: int| 0 <= i < probs.len() ==> #[trigger] probs[i] < 4096,
    ensures
        ({
            let e = EncoderView::start();
            let stream = coder::encode_all(e, bits, probs);
            &&& stream.len() >= 4
            &&& shares(e, bits, probs) > 0
            &&& bytes_worth((stream.len() - 4) as nat) * shares(e, bits, probs) <= widths(
                e,
                bits,
                probs,
            )
        }),
{
    let e = EncoderView::start();
    lemma_length(e, bits, probs);
    let s = shares(e, bits, probs);
    let x = widths(e, bits, probs);
    let b = bytes_worth((coder::encode_all(e, bits, probs).len() - 4) as nat) as int;
    assert(width(e.iv) == 0x1_0000_0000);
    assert(b * s <= x) by (nonlinear_arith)
        requires
            0x1_0000_0000 * s * b <= 0x1_0000_0000 * x,
    ;
}

/// The last `n` bits of a byte, highest first.
pub open spec fn bits_of_byte(byte: u8, n: nat) -> Seq<bool>
    decreases n,
{
    if n == 0 {
        Seq::empty()
    } else {
        seq![(byte as u32 >> ((n - 1) as u32)) & 1 == 1] + bits_of_byte(byte, (n - 1) as nat)
    }
}

/// The bits of a text.
pub open spec fn bits_of(data: Seq<u8>) -> Seq<bool>
    decreases data.len(),
{
    if data.len() == 0 {
        Seq::empty()
    } else {
        bits_of_byte(data[0], 8) + bits_of(data.skip(1))
    }
}

/// What the model says of each of the bits, having predicted and learned those before.
pub open spec fn foretold(m: PredictorView, bits: Seq<bool>) -> Seq<nat>
    decreases bits.len(),
{
    if bits.len() == 0 {
        Seq::empty()
    } else {
        let bit: u32 = if bits[0] { 1 } else { 0 };
        seq![m.probability() as nat] + foretold(m.predicted().updated(bit), bits.skip(1))
    }
}

proof fn lemma_foretold(m: PredictorView, bits: Seq<bool>)
    ensures
        foretold(m, bits).len() == bits.len(),
        forall|i: int| 0 <= i < bits.len() ==> #[trigger] foretold(m, bits)[i] < 4096,
    decreases bits.len(),
{
    if bits.len() > 0 {
        let bit: u32 = if bits[0] { 1 } else { 0 };
        let next = m.predicted().updated(bit);
        predictor::law_never_certain(m);
        lemma_foretold(next, bits.skip(1));
        assert forall|i: int| 0 <= i < bits.len() implies #[trigger] foretold(m, bits)[i] < 4096 by {
            if i > 0 {
                assert(foretold(m, bits)[i] == foretold(next, bits.skip(1))[i - 1]);
            }
        }
    }
}

proof fn lemma_low_bit(b: u32, k: u32)
    ensures
        (b >> k) & 1 == 0 || (b >> k) & 1 == 1,
{
    assert((b >> k) & 1 == 0 || (b >> k) & 1 == 1) by (bit_vector);
}

proof fn lemma_byte_coded(m: PredictorView, e: EncoderView, byte: u8, n: nat, rest: Seq<bool>)
    requires
        n <= 8,
    ensures
        ({
            let bits = bits_of_byte(byte, n) + rest;
            let (m1, e1) = codec::encode_bits(m, e, byte, n);
            coder::encode_all(e, bits, foretold(m, bits)) == coder::encode_all(
                e1,
                rest,
                foretold(m1, rest),
            )
        }),
    decreases n,
{
    let bits = bits_of_byte(byte, n) + rest;
    if n == 0 {
        assert(bits =~= rest);
    } else {
        let k = (n - 1) as nat;
        let bit = codec::bit_at(byte, k);
        lemma_low_bit(byte as u32, k as u32);
        let m0 = m.predicted().updated(bit);
        let e0 = e.coded(bit == 1, m.probability() as nat);
        assert(bits[0] == (bit == 1));
        assert(bits.skip(1) =~= bits_of_byte(byte, k) + rest);
        assert(foretold(m, bits).skip(1) =~= foretold(m0, bits.skip(1)));
        assert(foretold(m, bits)[0] == m.probability() as nat);
        lemma_byte_coded(m0, e0, byte, k, rest);
    }
}

proof fn lemma_run_coded(m: PredictorView, e: EncoderView, data: Seq<u8>)
    ensures
        codec::encode_run(m, e, data).1.finished() == coder::encode_all(
            e,
            bits_of(data),
            foretold(m, bits_of(data)),
        ),
    decreases data.len(),
{
    if data.len() > 0 {
        let (m1, e1) = codec::encode_bits(m, e, data[0], 8);
        lemma_byte_coded(m, e, data[0], 8, bits_of(data.skip(1)));
        lemma_run_coded(m1, e1, data.skip(1));
    }
}

/// Every bit of the data is coded with the probability that the models gave it, from
/// the first bit to the last.
pub proof fn law_coded_as_foretold(data: Seq<u8>, mode: Mode)
    ensures
        codec::encoded(data, mode) == coder::encode_all(
            EncoderView::start(),
            bits_of(data),
            foretold(PredictorView::start(mode), bits_of(data)),
        ),
        bits_of(data).len() == 8 * data.len(),
{
    lemma_run_coded(PredictorView::start(mode), EncoderView::start(), data);
    lemma_bit_count(data);
}

proof fn lemma_byte_bit_count(byte: u8, n: nat)
    ensures
        bits_of_byte(byte, n).len() == n,
    decreases n,
{
    if n > 0 {
        lemma_byte_bit_count(byte, (n - 1) as nat);
    }
}

proof fn lemma_bit_count(data: Seq<u8>)
    ensures
        bits_of(data).len() == 8 * data.len(),
    decreases data.len(),
{
    if data.len() > 0 {
        lemma_byte_bit_count(data[0], 8);
        lemma_bit_count(data.skip(1));
    }
}

/// What a compressed text costs: the length of its stream is bounded by the surprise of
/// its bits, as the models foretold them.
pub proof fn law_text_costs_its_surprise(data: Seq<u8>, mode: Mode)
    ensures
        ({
            let e = EncoderView::start();
            let bits = bits_of(data);
            let probs = foretold(PredictorView::start(mode), bits);
            let stream = codec::encoded(data, mode);
            &&& stream.len() >= 4
            &&& shares(e, bits, probs) > 0
            &&& bytes_worth((stream.len() - 4) as nat) * shares(e, bits, probs) <= widths(
                e,
                bits,
                probs,
            )
        }),
{
    let bits = bits_of(data);
    let m = PredictorView::start(mode);
    law_coded_as_foretold(data, mode);
    lemma_foretold(m, bits);
    law_stream_costs_its_surprise(bits, foretold(m, bits));
}

proof fn lemma_value_of_bits(byte: u32, n: u32)
    requires
        n < 8,
        byte < 256,
    ensures
        byte >> n == 2 * (byte >> ((n + 1) as u32)) + ((byte >> n) & 1),
{
    assert(byte >> n == 2 * (byte >> ((n + 1) as u32)) + ((byte >> n) & 1)) by (bit_vector)
        requires
            n < 8,
            byte < 256,
    ;
}

/// `2^n`.
spec fn bits_worth(n: nat) -> nat
    decreases n,
{
    if n == 0 { 1 } else { 2 * bits_worth((n - 1) as nat) }
}

/// The byte that decoding makes of the bits begins with those read before.
proof fn lemma_byte_value(m: PredictorView, d: DecoderView, acc: nat, n: nat)
    requires
        n <= 8,
        acc < bits_worth((8 - n) as nat),
    ensures
        codec::decode_bits(m, d, acc, n).2 < 256,
        codec::decode_bits(m, d, acc, n).2 as u32 >> (n as u32) == acc,
    decreases n,
{
    let b = codec::decode_bits(m, d, acc, n).2 as u32;
    if n == 0 {
        assert(bits_worth(8) == 256) by {
            reveal_with_fuel(bits_worth, 9);
        }
        assert(b >> 0 == b) by (bit_vector);
    } else {
        let k = (n - 1) as nat;
        let p = m.probability() as nat;
        let bit: u32 = if d.bit(p) { 1 } else { 0 };
        assert(bits_worth((8 - k) as nat) == 2 * bits_worth((8 - n) as nat));
        lemma_byte_value(m.predicted().updated(bit), d.coded(p), acc * 2 + bit as nat, k);
        lemma_value_of_bits(b, k as u32);
        lemma_low_bit(b, k as u32);
    }
}

proof fn lemma_first_decoded(m: PredictorView, d: DecoderView, bits: Seq<bool>, m0: PredictorView)
    requires
        bits.len() > 0,
        bits[0] == d.bit(m.probability() as nat),
        m0 == m.predicted().updated(if bits[0] { 1 } else { 0 }),
    ensures
        coder::decode_all(d, foretold(m, bits)) == seq![bits[0]] + coder::decode_all(
            d.coded(m.probability() as nat),
            foretold(m0, bits.skip(1)),
        ),
{
    let f = foretold(m, bits);
    assert(f == seq![m.probability() as nat] + foretold(m0, bits.skip(1)));
    assert(f.skip(1) =~= foretold(m0, bits.skip(1)));
}

/// The first of the bits that are read is the first one of the byte.
proof fn lemma_byte_first(m: PredictorView, d: DecoderView, acc: nat, n: nat)
    requires
        0 < n <= 8,
        acc < bits_worth((8 - n) as nat),
    ensures
        ({
            let byte = codec::decode_bits(m, d, acc, n).2 as u8;
            bits_of_byte(byte, n) == seq![d.bit(m.probability() as nat)] + bits_of_byte(
                byte,
                (n - 1) as nat,
            )
        }),
{
    let k = (n - 1) as nat;
    let p = m.probability() as nat;
    let bit: u32 = if d.bit(p) { 1 } else { 0 };
    let m0 = m.predicted().updated(bit);
    let byte = codec::decode_bits(m, d, acc, n).2;
    assert(byte == codec::decode_bits(m0, d.coded(p), acc * 2 + bit as nat, k).2);
    assert(bits_worth((8 - k) as nat) == 2 * bits_worth((8 - n) as nat));
    lemma_byte_value(m, d, acc, n);
    lemma_byte_value(m0, d.coded(p), acc * 2 + bit as nat, k);
    lemma_value_of_bits(byte as u32, k as u32);
}

/// Reading the bits of a byte, with what the model says of each.
#[verifier::spinoff_prover]
#[verifier::rlimit(40)]
proof fn lemma_byte_decoded(m: PredictorView, d: DecoderView, acc: nat, n: nat, rest: Seq<bool>)
    requires
        n <= 8,
        acc < bits_worth((8 - n) as nat),
    ensures
        ({
            let (m1, d1, byte) = codec::decode_bits(m, d, acc, n);
            let bits = bits_of_byte(byte as u8, n);
            coder::decode_all(d, foretold(m, bits + rest)) == bits + coder::decode_all(
                d1,
                foretold(m1, rest),
            )
        }),
    decreases n,
{
    let after = codec::decode_bits(m, d, acc, n);
    let bits = bits_of_byte(after.2 as u8, n);
    let end = coder::decode_all(after.1, foretold(after.0, rest));
    if n == 0 {
        assert(bits + rest =~= rest);
        assert(bits + end =~= end);
    } else {
        let k = (n - 1) as nat;
        let p = m.probability() as nat;
        let one = d.bit(p);
        let bit: u32 = if one { 1 } else { 0 };
        let m0 = m.predicted().updated(bit);
        let tail = bits_of_byte(after.2 as u8, k);
        assert(after == codec::decode_bits(m0, d.coded(p), acc * 2 + bit as nat, k));
        lemma_byte_first(m, d, acc, n);
        lemma_acc(acc, bit, n);
        lemma_byte_decoded(m0, d.coded(p), acc * 2 + bit as nat, k, rest);
        lemma_first_decoded(m, d, bits + rest, m0);
        assert((bits + rest).skip(1) =~= tail + rest);
        assert(bits + end =~= seq![one] + (tail + end));
    }
}

proof fn lemma_acc(acc: nat, bit: u32, n: nat)
    requires
        0 < n <= 8,
        acc < bits_worth((8 - n) as nat),
        bit <= 1,
    ensures
        acc * 2 + (bit as nat) < bits_worth((8 - (n - 1)) as nat),
{
}

proof fn lemma_run_decoded(m: PredictorView, d: DecoderView, n: nat)
    ensures
        codec::decode_bytes(m, d, n).len() == n,
        bits_of(codec::decode_bytes(m, d, n)) == coder::decode_all(
            d,
            foretold(m, bits_of(codec::decode_bytes(m, d, n))),
        ),
    decreases n,
{
    if n > 0 {
        let (m1, d1, byte) = codec::decode_bits(m, d, 0, 8);
        let k = (n - 1) as nat;
        let rest = codec::decode_bytes(m1, d1, k);
        lemma_run_decoded(m1, d1, k);
        lemma_byte_decoded(m, d, 0, 8, bits_of(rest));
        let out = codec::decode_bytes(m, d, n);
        assert(out[0] == byte as u8);
        assert(out.skip(1) =~= rest);
    }
}

/// Whatever the stream, as many bytes are decoded as were asked for, and each of their
/// bits is read with the probability that the models gave it.
pub proof fn law_decoded_as_foretold(stream: Seq<u8>, mode: Mode, n: nat)
    ensures
        ({
            let out = codec::decoded(stream, mode, n);
            &&& out.len() == n
            &&& bits_of(out) == coder::decode_all(
                DecoderView::start(stream),
                foretold(PredictorView::start(mode), bits_of(out)),
            )
        }),
{
    lemma_run_decoded(PredictorView::start(mode), DecoderView::start(stream), n);
}

proof fn lemma_fewer(m: PredictorView, d: DecoderView, n: nat, k: nat)
    requires
        k <= n,
    ensures
        codec::decode_bytes(m, d, n).len() == n,
        codec::decode_bytes(m, d, n).take(k as int) == codec::decode_bytes(m, d, k),
    decreases n,
{
    if n > 0 {
        let (m1, d1, byte) = codec::decode_bits(m, d, 0, 8);
        let rest = codec::decode_bytes(m1, d1, (n - 1) as nat);
        let out = codec::decode_bytes(m, d, n);
        if k > 0 {
            lemma_fewer(m1, d1, (n - 1) as nat, (k - 1) as nat);
            assert(out.take(k as int) =~= seq![byte as u8] + rest.take(k - 1));
        } else {
            lemma_fewer(m1, d1, (n - 1) as nat, 0);
            assert(out.take(0) =~= Seq::empty());
        }
    } else {
        assert(codec::decode_bytes(m, d, n).take(0) =~= Seq::empty());
    }
}

/// Asking for fewer bytes gives the beginning of them.
pub proof fn law_decoding_goes_on(stream: Seq<u8>, mode: Mode, n: nat, k: nat)
    requires
        k <= n,
    ensures
        codec::decoded(stream, mode, n).take(k as int) == codec::decoded(stream, mode, k),
{
    lemma_fewer(PredictorView::start(mode), DecoderView::start(stream), n, k);
}

} // verus!
