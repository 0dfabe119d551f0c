//! Binary arithmetic coder: carryless, 32 bits wide. A probability is that of a
//! 1 bit, in units of 1/4096.

use vstd::prelude::*;

verus! {

/// The closed interval of 32-bit code values that are still possible.
pub struct Interval {
    pub x1: nat,
    pub x2: nat,
}

impl Interval {
    /// Every 32-bit value is possible.
    pub open spec fn full() -> Interval {
        Interval { x1: 0, x2: 0xffff_ffff }
    }

    /// The interval holds at least one 32-bit value.
    pub open spec fn valid(self) -> bool {
        self.x1 <= self.x2 <= 0xffff_ffff
    }

    /// The leading bytes of the two bounds differ, so no byte is decided yet.
    pub open spec fn open_lead(self) -> bool {
        self.x1 / 0x100_0000 != self.x2 / 0x100_0000
    }

    /// The last value that stands for a 1 bit of probability `p / 4096`.
    pub open spec fn mid(self, p: nat) -> nat {
        (self.x1 + (self.x2 - self.x1) * p / 4096) as nat
    }

    /// The part of the interval that stands for `bit`.
    pub open spec fn narrow(self, bit: bool, p: nat) -> Interval {
        if bit {
            Interval { x1: self.x1, x2: self.mid(p) }
        } else {
            Interval { x1: self.mid(p) + 1, x2: self.x2 }
        }
    }

    /// The interval without its leading byte: one more byte of precision below.
    pub open spec fn shift(self) -> Interval {
        Interval {
            x1: (self.x1 % 0x100_0000) * 256,
            x2: (self.x2 % 0x100_0000) * 256 + 255,
        }
    }
}

/// What an encoder has decided so far: the interval and the bytes written.
pub struct EncoderView {
    pub iv: Interval,
    pub out: Seq<u8>,
}

impl EncoderView {
    pub open spec fn start() -> EncoderView {
        EncoderView { iv: Interval::full(), out: Seq::empty() }
    }

    /// Between two bits the leading bytes of the bounds differ.
    pub open spec fn ready(self) -> bool {
        self.iv.valid() && self.iv.open_lead()
    }

    /// Write out every leading byte on which the two bounds agree.
    pub open spec fn settle(self) -> EncoderView
        decreases 0x1_0000_0000 - (self.iv.x2 - self.iv.x1),
    {
        if self.iv.valid() && !self.iv.open_lead() {
            EncoderView {
                iv: self.iv.shift(),
                out: self.out.push((self.iv.x2 / 0x100_0000) as u8),
            }.settle()
        } else {
            self
        }
    }

    /// The state after coding one bit.
    pub open spec fn coded(self, bit: bool, p: nat) -> EncoderView {
        EncoderView { iv: self.iv.narrow(bit, p), out: self.out }.settle()
    }

    /// The finished stream: the bytes written, then the lower bound itself.
    pub open spec fn finished(self) -> Seq<u8> {
        self.out + be_bytes(self.iv.x1)
    }
}

/// The four bytes of a 32-bit value, most significant first.
pub open spec fn be_bytes(x: nat) -> Seq<u8> {
    seq![
        (x / 0x100_0000) as u8,
        (x / 0x1_0000 % 256) as u8,
        (x / 256 % 256) as u8,
        (x % 256) as u8,
    ]
}

/// The first byte of a stream that is followed by zeros without end.
pub open spec fn head(s: Seq<u8>) -> u8 {
    if s.len() > 0 { s[0] } else { 0 }
}

/// What follows the first byte of such a stream.
pub open spec fn tail(s: Seq<u8>) -> Seq<u8> {
    if s.len() > 0 { s.skip(1) } else { s }
}

/// What a decoder knows: the interval, the code value inside it, and the bytes
/// it has not read yet.
pub struct DecoderView {
    pub iv: Interval,
    pub x: nat,
    pub rest: Seq<u8>,
}

impl DecoderView {
    /// The state before the first bit: the first four bytes are the code value.
    pub open spec fn start(stream: Seq<u8>) -> DecoderView {
        let t1 = tail(stream);
        let t2 = tail(t1);
        let t3 = tail(t2);
        DecoderView {
            iv: Interval::full(),
            x: (head(stream) * 0x100_0000 + head(t1) * 0x1_0000 + head(t2) * 256
                + head(t3)) as nat,
            rest: tail(t3),
        }
    }

    pub open spec fn ready(self) -> bool {
        self.iv.valid() && self.iv.open_lead() && self.iv.x1 <= self.x <= self.iv.x2
    }

    /// The bit that the code value stands for.
    pub open spec fn bit(self, p: nat) -> bool {
        self.x <= self.iv.mid(p)
    }

    /// Drop every leading byte on which the two bounds agree, and read on.
    pub open spec fn settle(self) -> DecoderView
        decreases 0x1_0000_0000 - (self.iv.x2 - self.iv.x1),
    {
        if self.iv.valid() && !self.iv.open_lead() {
            DecoderView {
                iv: self.iv.shift(),
                x: (self.x % 0x100_0000) * 256 + head(self.rest) as nat,
                rest: tail(self.rest),
            }.settle()
        } else {
            self
        }
    }

    /// The state after decoding one bit.
    pub open spec fn coded(self, p: nat) -> DecoderView {
        DecoderView { iv: self.iv.narrow(self.bit(p), p), x: self.x, rest: self.rest }.settle()
    }
}

proof fn lemma_top_byte(a: u32, b: u32)
    ensures
        ((a ^ b) & 0xff00_0000 == 0) <==> (a as nat / 0x100_0000 == b as nat / 0x100_0000),
        a << 8 == (a as nat % 0x100_0000) * 256,
        (a << 8) | 0xff == (a as nat % 0x100_0000) * 256 + 255,
        (a >> 24) as u8 == a as nat / 0x100_0000,
        a as nat / 0x100_0000 < 256,
{
    assert(((a ^ b) & 0xff00_0000 == 0) <==> (a / 0x100_0000 == b / 0x100_0000)) by (bit_vector);
    assert(a << 8 == (a % 0x100_0000) * 256) by (bit_vector);
    assert((a << 8) | 0xff == (a % 0x100_0000) * 256 + 255) by (bit_vector);
    assert((a >> 24) as u8 == a / 0x100_0000) by (bit_vector);
}

/// With a probability below 1 the two parts of an interval of at least two
/// values are both inside it.
proof fn lemma_mid(iv: Interval, p: nat)
    requires
        iv.valid(),
        p < 4096,
    ensures
        iv.x1 <= iv.mid(p) <= iv.x2,
        iv.x1 < iv.x2 ==> iv.mid(p) < iv.x2,
        (iv.x2 - iv.x1) * p <= 0xffff_ffff * 4095,
{
    let range = iv.x2 - iv.x1;
    assert(range * p <= range * 4095) by (nonlinear_arith)
        requires
            p < 4096,
            range >= 0,
    ;
    assert(range * p >= 0) by (nonlinear_arith)
        requires
            range >= 0,
    ;
}

/// The interval split of the coder, on machine words.
fn split(x1: u32, x2: u32, p: u32) -> (mid: u32)
    requires
        x1 <= x2,
        p < 4096,
    ensures
        mid as nat == (Interval { x1: x1 as nat, x2: x2 as nat }).mid(p as nat),
        x1 <= mid <= x2,
        x1 < x2 ==> mid < x2,
{
    let range: u64 = (x2 - x1) as u64;
    proof {
        lemma_mid(Interval { x1: x1 as nat, x2: x2 as nat }, p as nat);
        assert(range * (p as u64) == (x2 - x1) * p);
    }
    let scaled: u64 = range * p as u64;
    assert(scaled >> 12 == scaled / 4096) by (bit_vector);
    x1 + (scaled >> 12) as u32
}

/// Turns bits and their probabilities into bytes.
pub struct Encoder {
    pub x1: u32,
    pub x2: u32,
    pub out: Vec<u8>,
}

impl View for Encoder {
    type V = EncoderView;

    open spec fn view(&self) -> EncoderView {
        EncoderView {
            iv: Interval { x1: self.x1 as nat, x2: self.x2 as nat },
            out: self.out@,
        }
    }
}

impl Encoder {
    pub fn new() -> (e: Encoder)
        ensures
            e@ == EncoderView::start(),
            e@.ready(),
    {
        Encoder { x1: 0, x2: 0xffff_ffff, out: Vec::new() }
    }

    /// Code one bit, of which `p / 4096` is the probability that it is 1.
    pub fn encode(&mut self, bit: u32, p: u32)
        requires
            old(self)@.ready(),
            p < 4096,
        ensures
            final(self)@ == old(self)@.coded(bit == 1, p as nat),
            final(self)@.ready(),
    {
        let xmid: u32 = split(self.x1, self.x2, p);
        if bit == 1 {
            self.x2 = xmid;
        } else {
            self.x1 = xmid + 1;
        }
        proof {
            lemma_top_byte(self.x1, self.x2);
        }
        while (self.x1 ^ self.x2) & 0xff00_0000 == 0
            invariant
                self@.iv.valid(),
                self@.settle() == old(self)@.coded(bit == 1, p as nat),
                ((self.x1 ^ self.x2) & 0xff00_0000 == 0) <==> !self@.iv.open_lead(),
            decreases 0x1_0000_0000 - (self.x2 - self.x1),
        {
            proof {
                lemma_top_byte(self.x1, self.x2);
                lemma_top_byte(self.x2, self.x1);
            }
            self.out.push((self.x2 >> 24) as u8);
            self.x1 = self.x1 << 8;
            self.x2 = (self.x2 << 8) | 0xff;
            proof {
                lemma_top_byte(self.x1, self.x2);
            }
        }
    }

    /// Close the stream.
    pub fn finish(self) -> (out: Vec<u8>)
        ensures
            out@ == self@.finished(),
    {
        let x1: u32 = self.x1;
        let mut out = self.out;
        proof {
            assert((x1 >> 24) as u8 == x1 / 0x100_0000) by (bit_vector);
            assert((x1 >> 16) as u8 == x1 / 0x1_0000 % 256) by (bit_vector);
            assert((x1 >> 8) as u8 == x1 / 256 % 256) by (bit_vector);
            assert(x1 as u8 == x1 % 256) by (bit_vector);
        }
        out.push((x1 >> 24) as u8);
        out.push((x1 >> 16) as u8);
        out.push((x1 >> 8) as u8);
        out.push(x1 as u8);
        assert(out@ =~= self@.finished());
        out
    }
}

/// Turns bytes back into bits, given the probabilities they were coded with.
pub struct Decoder<'a> {
    pub x1: u32,
    pub x2: u32,
    pub x: u32,
    pub inp: &'a [u8],
    pub pos: usize,
}

impl<'a> View for Decoder<'a> {
    type V = DecoderView;

    open spec fn view(&self) -> DecoderView {
        DecoderView {
            iv: Interval { x1: self.x1 as nat, x2: self.x2 as nat },
            x: self.x as nat,
            rest: self.unread(),
        }
    }
}

impl<'a> Decoder<'a> {
    /// The bytes from the read position on; none once it is past the end.
    pub open spec fn unread(&self) -> Seq<u8> {
        if self.pos <= self.inp@.len() {
            self.inp@.skip(self.pos as int)
        } else {
            Seq::empty()
        }
    }

    pub fn new(inp: &'a [u8]) -> (d: Decoder<'a>)
        ensures
            d@ == DecoderView::start(inp@),
            d@.ready(),
    {
        let mut d = Decoder { x1: 0, x2: 0xffff_ffff, x: 0, inp, pos: 0 };
        assert(d.unread() =~= inp@);
        let b0: u32 = d.next_byte() as u32;
        let b1: u32 = d.next_byte() as u32;
        let b2: u32 = d.next_byte() as u32;
        let b3: u32 = d.next_byte() as u32;
        d.x = (b0 << 24) | (b1 << 16) | (b2 << 8) | b3;
        assert((b0 << 24) | (b1 << 16) | (b2 << 8) | b3 == b0 * 0x100_0000 + b1 * 0x1_0000 + b2 * 256
            + b3) by (bit_vector)
            requires
                b0 < 256,
                b1 < 256,
                b2 < 256,
                b3 < 256,
        ;
        d
    }

    /// The next byte of the stream, 0 past its end.
    pub fn next_byte(&mut self) -> (b: u8)
        ensures
            b == head(old(self)@.rest),
            final(self)@ == (DecoderView { rest: tail(old(self)@.rest), ..old(self)@ }),
            final(self).inp == old(self).inp,
    {
        let b: u8 = if self.pos < self.inp.len() { self.inp[self.pos] } else { 0 };
        self.pos = self.pos.saturating_add(1);
        assert(self.unread() =~= tail(old(self).unread()));
        b
    }

    /// Decode one bit, given the probability it was coded with.
    pub fn decode(&mut self, p: u32) -> (bit: u32)
        requires
            old(self)@.ready(),
            p < 4096,
        ensures
            bit == (if old(self)@.bit(p as nat) { 1u32 } else { 0u32 }),
            final(self)@ == old(self)@.coded(p as nat),
            final(self)@.ready(),
            final(self).inp == old(self).inp,
    {
        let xmid: u32 = split(self.x1, self.x2, p);
        let bit: u32 = if self.x <= xmid {
            self.x2 = xmid;
            1
        } else {
            self.x1 = xmid + 1;
            0
        };
        proof {
            lemma_top_byte(self.x1, self.x2);
        }
        while (self.x1 ^ self.x2) & 0xff00_0000 == 0
            invariant
                self@.iv.valid(),
                self.x1 <= self.x <= self.x2,
                self.inp == old(self).inp,
                self@.settle() == old(self)@.coded(p as nat),
                ((self.x1 ^ self.x2) & 0xff00_0000 == 0) <==> !self@.iv.open_lead(),
            decreases 0x1_0000_0000 - (self.x2 - self.x1),
        {
            proof {
                lemma_top_byte(self.x1, self.x2);
                lemma_top_byte(self.x2, self.x1);
                lemma_top_byte(self.x, self.x);
            }
            self.x1 = self.x1 << 8;
            self.x2 = (self.x2 << 8) | 0xff;
            let b: u32 = self.next_byte() as u32;
            let x: u32 = self.x;
            assert((x << 8) | b == (x % 0x100_0000) * 256 + b) by (bit_vector)
                requires
                    b < 256,
            ;
            self.x = (x << 8) | b;
            proof {
                lemma_top_byte(self.x1, self.x2);
            }
        }
        bit
    }
}

/// The bytes of `stream` from position `n` on.
pub open spec fn from_byte_on(stream: Seq<u8>, n: nat) -> Seq<u8> {
    if n <= stream.len() { stream.skip(n as int) } else { Seq::empty() }
}

/// The decoder that stands where the encoder `e` stands, reading the finished
/// `stream` from the byte that `e` will write next.
pub open spec fn decoder_at(e: EncoderView, stream: Seq<u8>) -> DecoderView {
    DecoderView { iv: e.iv, ..DecoderView::start(from_byte_on(stream, e.out.len())) }
}

/// `stream` continues what `e` has written, with a code value inside the interval.
pub open spec fn in_sync(e: EncoderView, stream: Seq<u8>) -> bool {
    &&& e.out.is_prefix_of(stream)
    &&& e.iv.x1 <= decoder_at(e, stream).x <= e.iv.x2
}

proof fn lemma_window_step(s: Seq<u8>)
    ensures
        DecoderView::start(s).x == head(s) * 0x100_0000 + DecoderView::start(tail(s)).x / 256,
        DecoderView::start(tail(s)).x == (DecoderView::start(s).x % 0x100_0000) * 256 + head(
            DecoderView::start(s).rest,
        ),
        DecoderView::start(tail(s)).rest == tail(DecoderView::start(s).rest),
{
}

proof fn lemma_settle_ready(e: EncoderView)
    requires
        e.iv.valid(),
    ensures
        e.settle().ready(),
    decreases 0x1_0000_0000 - (e.iv.x2 - e.iv.x1),
{
    if !e.iv.open_lead() {
        lemma_settle_ready(
            EncoderView { iv: e.iv.shift(), out: e.out.push((e.iv.x2 / 0x100_0000) as u8) },
        );
    }
}

/// Coding a bit leaves the encoder ready for the next one.
pub proof fn lemma_coded_ready(e: EncoderView, bit: bool, p: nat)
    requires
        e.ready(),
        p < 4096,
    ensures
        e.coded(bit, p).ready(),
{
    lemma_mid(e.iv, p);
    lemma_settle_ready(EncoderView { iv: e.iv.narrow(bit, p), out: e.out });
}

/// Writing settled bytes keeps encoder and decoder in step.
proof fn lemma_settle_sync(e: EncoderView, stream: Seq<u8>)
    requires
        e.iv.valid(),
        in_sync(e.settle(), stream),
    ensures
        in_sync(e, stream),
        decoder_at(e, stream).settle() == decoder_at(e.settle(), stream),
    decreases 0x1_0000_0000 - (e.iv.x2 - e.iv.x1),
{
    if !e.iv.open_lead() {
        let b = (e.iv.x2 / 0x100_0000) as u8;
        let next = EncoderView { iv: e.iv.shift(), out: e.out.push(b) };
        lemma_settle_sync(next, stream);
        let n = e.out.len();
        let s = from_byte_on(stream, n);
        assert(next.out[n as int] == stream[n as int]);
        assert(e.out.is_prefix_of(stream)) by {
            assert(next.out.take(n as int) =~= e.out);
            assert(stream.take(n as int) =~= stream.take(n as int + 1).take(n as int));
            assert(stream.take(n as int) =~= e.out);
        }
        assert(tail(s) =~= from_byte_on(stream, n + 1));
        lemma_window_step(s);
        assert(head(s) == b);
    }
}

/// One step of the law below: where the encoder coded `bit`, the decoder at the
/// same place reads `bit` and ends at the place where the encoder ended.
pub proof fn lemma_step_sync(e: EncoderView, bit: bool, p: nat, stream: Seq<u8>)
    requires
        e.ready(),
        p < 4096,
        in_sync(e.coded(bit, p), stream),
    ensures
        in_sync(e, stream),
        decoder_at(e, stream).bit(p) == bit,
        decoder_at(e, stream).coded(p) == decoder_at(e.coded(bit, p), stream),
{
    lemma_mid(e.iv, p);
    lemma_settle_sync(EncoderView { iv: e.iv.narrow(bit, p), out: e.out }, stream);
}

/// A finished stream is in step with the encoder that finished it, whatever
/// follows it.
pub proof fn lemma_finished_sync(e: EncoderView, more: Seq<u8>)
    requires
        e.ready(),
    ensures
        in_sync(e, e.finished() + more),
{
    let f = e.finished() + more;
    let n = e.out.len();
    let s = be_bytes(e.iv.x1) + more;
    assert(from_byte_on(f, n) =~= s);
    assert(f.take(n as int) =~= e.out);
    assert(tail(s)[0] == s[1]);
    assert(tail(tail(s))[0] == s[2]);
    assert(tail(tail(tail(s)))[0] == s[3]);
}

/// Two streams that differ at most in the zeros at their end.
pub open spec fn alike(a: Seq<u8>, b: Seq<u8>) -> bool {
    forall|i: int| #![trigger byte_or_zero(a, i)] i >= 0 ==> byte_or_zero(a, i) == byte_or_zero(b, i)
}

/// The byte at place `i` of a stream that is followed by zeros without end.
pub open spec fn byte_or_zero(s: Seq<u8>, i: int) -> u8 {
    if i < s.len() { s[i] } else { 0 }
}

proof fn lemma_alike_step(a: Seq<u8>, b: Seq<u8>)
    requires
        alike(a, b),
    ensures
        head(a) == head(b),
        alike(tail(a), tail(b)),
{
    assert(byte_or_zero(a, 0) == byte_or_zero(b, 0));
    assert forall|i: int| i >= 0 implies #[trigger] byte_or_zero(tail(a), i) == byte_or_zero(
        tail(b),
        i,
    ) by {
        assert(byte_or_zero(a, i + 1) == byte_or_zero(b, i + 1));
    }
}

/// Two decoders in the same state, before streams that read alike.
pub open spec fn reads_alike(a: DecoderView, b: DecoderView) -> bool {
    a.iv == b.iv && a.x == b.x && alike(a.rest, b.rest)
}

proof fn lemma_settle_alike(a: DecoderView, b: DecoderView)
    requires
        reads_alike(a, b),
    ensures
        reads_alike(a.settle(), b.settle()),
    decreases 0x1_0000_0000 - (a.iv.x2 - a.iv.x1),
{
    if a.iv.valid() && !a.iv.open_lead() {
        lemma_alike_step(a.rest, b.rest);
        lemma_settle_alike(
            DecoderView {
                iv: a.iv.shift(),
                x: (a.x % 0x100_0000) * 256 + head(a.rest) as nat,
                rest: tail(a.rest),
            },
            DecoderView {
                iv: b.iv.shift(),
                x: (b.x % 0x100_0000) * 256 + head(b.rest) as nat,
                rest: tail(b.rest),
            },
        );
    }
}

/// Decoders that read alike yield the same bit, and go on reading alike.
pub proof fn lemma_coded_alike(a: DecoderView, b: DecoderView, p: nat)
    requires
        reads_alike(a, b),
    ensures
        a.bit(p) == b.bit(p),
        reads_alike(a.coded(p), b.coded(p)),
{
    lemma_settle_alike(
        DecoderView { iv: a.iv.narrow(a.bit(p), p), x: a.x, rest: a.rest },
        DecoderView { iv: b.iv.narrow(b.bit(p), p), x: b.x, rest: b.rest },
    );
}

/// Decoders that start on streams which read alike do so too.
pub proof fn lemma_start_alike(a: Seq<u8>, b: Seq<u8>)
    requires
        alike(a, b),
    ensures
        reads_alike(DecoderView::start(a), DecoderView::start(b)),
{
    lemma_alike_step(a, b);
    lemma_alike_step(tail(a), tail(b));
    lemma_alike_step(tail(tail(a)), tail(tail(b)));
    lemma_alike_step(tail(tail(tail(a))), tail(tail(tail(b))));
}

/// The stream for `bits`, each coded with the probability at its place.
pub open spec fn encode_all(e: EncoderView, bits: Seq<bool>, probs: Seq<nat>) -> Seq<u8>
    decreases bits.len(),
{
    if bits.len() == 0 {
        e.finished()
    } else {
        encode_all(e.coded(bits[0], probs[0]), bits.skip(1), probs.skip(1))
    }
}

/// The bits that a decoder reads, one for each probability.
pub open spec fn decode_all(d: DecoderView, probs: Seq<nat>) -> Seq<bool>
    decreases probs.len(),
{
    if probs.len() == 0 {
        Seq::empty()
    } else {
        seq![d.bit(probs[0])] + decode_all(d.coded(probs[0]), probs.skip(1))
    }
}

proof fn lemma_all_sync(e: EncoderView, bits: Seq<bool>, probs: Seq<nat>)
    requires
        e.ready(),
        bits.len() == probs.len(),
        forall|i: int| 0 <= i < probs.len() ==> #[trigger] probs[i] < 4096,
    ensures
        in_sync(e, encode_all(e, bits, probs)),
        decode_all(decoder_at(e, encode_all(e, bits, probs)), probs) == bits,
    decreases bits.len(),
{
    let stream = encode_all(e, bits, probs);
    if bits.len() == 0 {
        lemma_finished_sync(e, Seq::empty());
        assert(stream + Seq::<u8>::empty() =~= stream);
        assert(bits =~= Seq::empty());
    } else {
        lemma_coded_ready(e, bits[0], probs[0]);
        lemma_all_sync(e.coded(bits[0], probs[0]), bits.skip(1), probs.skip(1));
        lemma_step_sync(e, bits[0], probs[0], stream);
        assert(bits =~= seq![bits[0]] + bits.skip(1));
    }
}

/// The coder is lossless: whatever bits are coded, with whatever probabilities
/// below 1, a decoder that is given the same probabilities reads them back.
pub proof fn law_coder_lossless(bits: Seq<bool>, probs: Seq<nat>)
    requires
        bits.len() == probs.len(),
        forall|i: int| 0 <= i < probs.len() ==> #[trigger] probs[i] < 4096,
    ensures
        decode_all(
            DecoderView::start(encode_all(EncoderView::start(), bits, probs)),
            probs,
        ) == bits,
{
    let e = EncoderView::start();
    let stream = encode_all(e, bits, probs);
    lemma_all_sync(e, bits, probs);
    assert(from_byte_on(stream, 0) =~= stream);
}

} // verus!
