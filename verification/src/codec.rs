//! The predict, code, update loop on both sides, and the proof that nothing is
//! lost between them.

use vstd::prelude::*;
use crate::coder;
use crate::coder::{Decoder, DecoderView, Encoder, EncoderView};
use crate::mode::Mode;
use crate::predictor;
use crate::predictor::{Predictor, PredictorView};

verus! {

/// Bit `i` of a byte.
pub open spec fn bit_at(byte: u8, i: nat) -> u32 {
    (byte as u32 >> (i as u32)) & 1
}

/// Model and encoder after the last `n` bits of a byte, highest first.
pub open spec fn encode_bits(m: PredictorView, e: EncoderView, byte: u8, n: nat) -> (
    PredictorView,
    EncoderView,
)
    decreases n,
{
    if n == 0 {
        (m, e)
    } else {
        let bit = bit_at(byte, (n - 1) as nat);
        encode_bits(
            m.predicted().updated(bit),
            e.coded(bit == 1, m.probability() as nat),
            byte,
            (n - 1) as nat,
        )
    }
}

/// Model and encoder after all of `data`.
pub open spec fn encode_run(m: PredictorView, e: EncoderView, data: Seq<u8>) -> (
    PredictorView,
    EncoderView,
)
    decreases data.len(),
{
    if data.len() == 0 {
        (m, e)
    } else {
        let (m1, e1) = encode_bits(m, e, data[0], 8);
        encode_run(m1, e1, data.skip(1))
    }
}

/// The stream that `data` is coded into.
pub open spec fn encoded(data: Seq<u8>, mode: Mode) -> Seq<u8> {
    encode_run(PredictorView::start(mode), EncoderView::start(), data).1.finished()
}

/// Model and decoder after `n` more bits of a byte, and the byte that these bits
/// and the ones before them, `acc`, make up.
pub open spec fn decode_bits(m: PredictorView, d: DecoderView, acc: nat, n: nat) -> (
    PredictorView,
    DecoderView,
    nat,
)
    decreases n,
{
    if n == 0 {
        (m, d, acc)
    } else {
        let p = m.probability() as nat;
        let bit: u32 = if d.bit(p) { 1 } else { 0 };
        decode_bits(
            m.predicted().updated(bit),
            d.coded(p),
            acc * 2 + bit as nat,
            (n - 1) as nat,
        )
    }
}

/// Model and decoder after `n` bytes.
pub open spec fn decode_run(m: PredictorView, d: DecoderView, n: nat) -> (
    PredictorView,
    DecoderView,
)
    decreases n,
{
    if n == 0 {
        (m, d)
    } else {
        let (m1, d1, byte) = decode_bits(m, d, 0, 8);
        decode_run(m1, d1, (n - 1) as nat)
    }
}

/// The next `n` bytes that a decoder yields.
pub open spec fn decode_bytes(m: PredictorView, d: DecoderView, n: nat) -> Seq<u8>
    decreases n,
{
    if n == 0 {
        Seq::empty()
    } else {
        let (m1, d1, byte) = decode_bits(m, d, 0, 8);
        seq![byte as u8] + decode_bytes(m1, d1, (n - 1) as nat)
    }
}

/// The `n` bytes that a stream stands for.
pub open spec fn decoded(stream: Seq<u8>, mode: Mode, n: nat) -> Seq<u8> {
    decode_bytes(PredictorView::start(mode), DecoderView::start(stream), n)
}

proof fn lemma_bit_split(byte: u8, n: nat)
    requires
        0 < n <= 8,
    ensures
        byte as u32 >> ((n - 1) as u32) == 2 * (byte as u32 >> (n as u32)) + bit_at(
            byte,
            (n - 1) as nat,
        ),
        bit_at(byte, (n - 1) as nat) <= 1,
        byte as u32 >> 8 == 0,
        byte as u32 >> 0 == byte,
{
    let k = n as u32;
    let b = byte as u32;
    assert(b >> ((k - 1) as u32) == 2 * (b >> k) + ((b >> ((k - 1) as u32)) & 1)) by (bit_vector)
        requires
            0 < k <= 8,
            b < 256,
    ;
    assert((b >> ((k - 1) as u32)) & 1 <= 1) by (bit_vector);
    assert(b >> 8 == 0) by (bit_vector)
        requires
            b < 256,
    ;
    assert(b >> 0 == b) by (bit_vector);
}

proof fn lemma_bits_ready(m: PredictorView, e: EncoderView, byte: u8, n: nat)
    requires
        e.ready(),
    ensures
        encode_bits(m, e, byte, n).1.ready(),
    decreases n,
{
    if n > 0 {
        let bit = bit_at(byte, (n - 1) as nat);
        predictor::law_never_certain(m);
        coder::lemma_coded_ready(e, bit == 1, m.probability() as nat);
        lemma_bits_ready(
            m.predicted().updated(bit),
            e.coded(bit == 1, m.probability() as nat),
            byte,
            (n - 1) as nat,
        );
    }
}

/// Where the encoder coded bits of a byte, the decoder at the same place reads
/// them, and both models take the same steps.
proof fn lemma_bits_sync(m: PredictorView, e: EncoderView, byte: u8, n: nat, stream: Seq<u8>)
    requires
        e.ready(),
        n <= 8,
        coder::in_sync(encode_bits(m, e, byte, n).1, stream),
    ensures
        coder::in_sync(e, stream),
        decode_bits(m, coder::decoder_at(e, stream), (byte as u32 >> (n as u32)) as nat, n) == (
            encode_bits(m, e, byte, n).0,
            coder::decoder_at(encode_bits(m, e, byte, n).1, stream),
            byte as nat,
        ),
    decreases n,
{
    if n == 0 {
        lemma_bit_split(byte, 1);
    } else {
        let k = (n - 1) as nat;
        let bit = bit_at(byte, k);
        let p = m.probability() as nat;
        let m1 = m.predicted().updated(bit);
        let e1 = e.coded(bit == 1, p);
        lemma_bit_split(byte, n);
        predictor::law_never_certain(m);
        coder::lemma_coded_ready(e, bit == 1, p);
        lemma_bits_sync(m1, e1, byte, k, stream);
        coder::lemma_step_sync(e, bit == 1, p, stream);
    }
}

proof fn lemma_run_ready(m: PredictorView, e: EncoderView, data: Seq<u8>)
    requires
        e.ready(),
    ensures
        encode_run(m, e, data).1.ready(),
    decreases data.len(),
{
    if data.len() > 0 {
        lemma_bits_ready(m, e, data[0], 8);
        let (m1, e1) = encode_bits(m, e, data[0], 8);
        lemma_run_ready(m1, e1, data.skip(1));
    }
}

proof fn lemma_run_sync(m: PredictorView, e: EncoderView, data: Seq<u8>, stream: Seq<u8>)
    requires
        e.ready(),
        coder::in_sync(encode_run(m, e, data).1, stream),
    ensures
        coder::in_sync(e, stream),
        decode_bytes(m, coder::decoder_at(e, stream), data.len()) == data,
    decreases data.len(),
{
    if data.len() == 0 {
        assert(data =~= Seq::empty());
    } else {
        let (m1, e1) = encode_bits(m, e, data[0], 8);
        lemma_bits_ready(m, e, data[0], 8);
        lemma_run_sync(m1, e1, data.skip(1), stream);
        lemma_bit_split(data[0], 8);
        lemma_bits_sync(m, e, data[0], 8, stream);
        assert(data =~= seq![data[0]] + data.skip(1));
    }
}

proof fn lemma_models_sync(
    m: PredictorView,
    e: EncoderView,
    data: Seq<u8>,
    stream: Seq<u8>,
    k: nat,
)
    requires
        e.ready(),
        k <= data.len(),
        coder::in_sync(encode_run(m, e, data).1, stream),
    ensures
        decode_run(m, coder::decoder_at(e, stream), k).0 == encode_run(m, e, data.take(k as int)).0,
    decreases k,
{
    if k > 0 {
        let (m1, e1) = encode_bits(m, e, data[0], 8);
        lemma_bits_ready(m, e, data[0], 8);
        lemma_run_sync(m1, e1, data.skip(1), stream);
        lemma_bit_split(data[0], 8);
        lemma_bits_sync(m, e, data[0], 8, stream);
        lemma_models_sync(m1, e1, data.skip(1), stream, (k - 1) as nat);
        assert(data.take(k as int).skip(1) =~= data.skip(1).take(k - 1));
    }
}

/// A stream decodes to the data it was made from, whatever the mode and whatever
/// follows it.
pub proof fn law_stream_ends_itself(data: Seq<u8>, mode: Mode, more: Seq<u8>)
    ensures
        decoded(encoded(data, mode) + more, mode, data.len()) == data,
{
    let m = PredictorView::start(mode);
    let e = EncoderView::start();
    let stream = encoded(data, mode) + more;
    lemma_run_ready(m, e, data);
    coder::lemma_finished_sync(encode_run(m, e, data).1, more);
    lemma_run_sync(m, e, data, stream);
    assert(coder::from_byte_on(stream, 0) =~= stream);
}

/// A stream decodes to the data it was made from, whatever the mode.
pub proof fn law_stream_lossless(data: Seq<u8>, mode: Mode)
    ensures
        decoded(encoded(data, mode), mode, data.len()) == data,
{
    law_stream_ends_itself(data, mode, Seq::empty());
    assert(encoded(data, mode) + Seq::<u8>::empty() =~= encoded(data, mode));
}

proof fn lemma_bits_alike(m: PredictorView, a: DecoderView, b: DecoderView, acc: nat, n: nat)
    requires
        coder::reads_alike(a, b),
    ensures
        decode_bits(m, a, acc, n).0 == decode_bits(m, b, acc, n).0,
        decode_bits(m, a, acc, n).2 == decode_bits(m, b, acc, n).2,
        coder::reads_alike(decode_bits(m, a, acc, n).1, decode_bits(m, b, acc, n).1),
    decreases n,
{
    if n > 0 {
        let p = m.probability() as nat;
        coder::lemma_coded_alike(a, b, p);
        let bit: u32 = if a.bit(p) { 1 } else { 0 };
        lemma_bits_alike(
            m.predicted().updated(bit),
            a.coded(p),
            b.coded(p),
            acc * 2 + bit as nat,
            (n - 1) as nat,
        );
    }
}

proof fn lemma_bytes_alike(m: PredictorView, a: DecoderView, b: DecoderView, n: nat)
    requires
        coder::reads_alike(a, b),
    ensures
        decode_bytes(m, a, n) == decode_bytes(m, b, n),
    decreases n,
{
    if n > 0 {
        lemma_bits_alike(m, a, b, 0, 8);
        let (m1, a1, byte) = decode_bits(m, a, 0, 8);
        lemma_bytes_alike(m1, a1, decode_bits(m, b, 0, 8).1, (n - 1) as nat);
    }
}

/// A stream that is too short decodes as if zeros followed it: `zeros` of them at
/// its end change nothing, whatever the stream and the length asked for.
pub proof fn law_zeros_follow(stream: Seq<u8>, zeros: nat, mode: Mode, n: nat)
    ensures
        decoded(stream + Seq::new(zeros, |i: int| 0u8), mode, n) == decoded(stream, mode, n),
{
    let long = stream + Seq::new(zeros, |i: int| 0u8);
    assert(coder::alike(long, stream));
    coder::lemma_start_alike(long, stream);
    lemma_bytes_alike(
        PredictorView::start(mode),
        DecoderView::start(long),
        DecoderView::start(stream),
        n,
    );
}

/// Encoder and decoder never drift apart: after any number of bytes the model of
/// the decoder is in the very state that the model of the encoder was in.
pub proof fn law_models_never_drift(data: Seq<u8>, mode: Mode, k: nat)
    requires
        k <= data.len(),
    ensures
        decode_run(
            PredictorView::start(mode),
            DecoderView::start(encoded(data, mode)),
            k,
        ).0 == encode_run(
            PredictorView::start(mode),
            EncoderView::start(),
            data.take(k as int),
        ).0,
{
    let m = PredictorView::start(mode);
    let e = EncoderView::start();
    let stream = encoded(data, mode);
    lemma_run_ready(m, e, data);
    coder::lemma_finished_sync(encode_run(m, e, data).1, Seq::empty());
    assert(stream + Seq::<u8>::empty() =~= stream);
    lemma_models_sync(m, e, data, stream, k);
    assert(coder::from_byte_on(stream, 0) =~= stream);
}

/// Code `data` with the models set up for `mode`.
pub fn encode_stream(data: &[u8], mode: Mode) -> (stream: Vec<u8>)
    ensures
        stream@ == encoded(data@, mode),
{
    let mut pr = Predictor::new(mode);
    let mut enc = Encoder::new();
    let ghost goal = encode_run(pr@, enc@, data@);
    let mut i: usize = 0;
    assert(data@.skip(0) =~= data@);
    while i < data.len()
        invariant
            i <= data@.len(),
            pr.inv(),
            enc@.ready(),
            goal == encode_run(pr@, enc@, data@.skip(i as int)),
        decreases data@.len() - i,
    {
        let byte: u8 = data[i];
        let ghost after = encode_bits(pr@, enc@, byte, 8);
        let ghost rest = data@.skip(i as int);
        assert(rest.skip(1) =~= data@.skip(i + 1));
        let mut n: u32 = 8;
        while n > 0
            invariant
                n <= 8,
                pr.inv(),
                enc@.ready(),
                after == encode_bits(pr@, enc@, byte, n as nat),
            decreases n,
        {
            proof {
                lemma_bit_split(byte, n as nat);
            }
            let bit: u32 = (byte as u32 >> (n - 1)) & 1;
            let p: u32 = pr.predict();
            enc.encode(bit, p);
            pr.update(bit);
            n = n - 1;
        }
        i = i + 1;
    }
    assert(data@.skip(i as int) =~= Seq::empty());
    enc.finish()
}

/// Decode `orig_len` bytes from `stream`, with the models set up for `mode`.
pub fn decode_stream(stream: &[u8], mode: Mode, orig_len: usize) -> (out: Vec<u8>)
    ensures
        out@ == decoded(stream@, mode, orig_len as nat),
{
    let mut pr = Predictor::new(mode);
    let mut dec = Decoder::new(stream);
    let mut out: Vec<u8> = Vec::new();
    let ghost goal = decode_bytes(pr@, dec@, orig_len as nat);
    let mut i: usize = 0;
    assert(out@ + goal =~= goal);
    while i < orig_len
        invariant
            i <= orig_len,
            pr.inv(),
            dec@.ready(),
            goal == out@ + decode_bytes(pr@, dec@, (orig_len - i) as nat),
        decreases orig_len - i,
    {
        let ghost todo = decode_bytes(pr@, dec@, (orig_len - i) as nat);
        let ghost after = decode_bits(pr@, dec@, 0, 8);
        let mut byte: u32 = 0;
        let mut n: u32 = 8;
        while n > 0
            invariant
                n <= 8,
                pr.inv(),
                dec@.ready(),
                n == 8 ==> byte < 1,
                n == 7 ==> byte < 2,
                n == 6 ==> byte < 4,
                n == 5 ==> byte < 8,
                n == 4 ==> byte < 16,
                n == 3 ==> byte < 32,
                n == 2 ==> byte < 64,
                n == 1 ==> byte < 128,
                n == 0 ==> byte < 256,
                after == decode_bits(pr@, dec@, byte as nat, n as nat),
            decreases n,
        {
            let p: u32 = pr.predict();
            let bit: u32 = dec.decode(p);
            pr.update(bit);
            byte = byte * 2 + bit;
            n = n - 1;
        }
        let ghost before = out@;
        out.push(byte as u8);
        i = i + 1;
        proof {
            let rest = decode_bytes(pr@, dec@, (orig_len - i) as nat);
            assert(todo == seq![byte as u8] + rest);
            assert(before + todo =~= out@ + rest);
        }
    }
    assert(out@ =~= goal);
    out
}

} // verus!
