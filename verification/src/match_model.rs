//! Match models: long-range repeats, found through chains of positions that
//! share a context.

use vstd::prelude::*;
use crate::hashing;

verus! {

/// Number of slots of a context table.
pub const MEM: usize = 0x10_0000;

/// Hash-chain candidates examined per acquire.
pub const MAX_CHAIN: usize = 8;

/// Backward context bytes compared to rank candidates.
pub const MAX_BACK: usize = 64;

/// Length that a fresh match is credited with at most.
pub const FRESH: u32 = 8;

/// How sure a model is after `count` hits, as a 12-bit probability: 2048 for none,
/// towards 4095 for many.
pub open spec fn confidence(count: nat) -> nat {
    2048 + 2047 * count / (count + 1)
}

/// More hits never make a model less sure, and it is never certain.
pub proof fn law_confidence_climbs(a: nat, b: nat)
    requires
        a <= b,
    ensures
        2048 <= confidence(a) <= confidence(b) < 4095,
{
    assert(2047 * a / (a + 1) <= 2047 * b / (b + 1)) by {
        let q = 2047 * a / (a + 1);
        assert(q * (a + 1) <= 2047 * a) by (nonlinear_arith)
            requires
                q == 2047 * a / (a + 1),
        ;
        assert(q <= 2047) by (nonlinear_arith)
            requires
                q * (a + 1) <= 2047 * a,
        ;
        assert(q * (b + 1) <= 2047 * b) by (nonlinear_arith)
            requires
                q * (a + 1) <= 2047 * a,
                q <= 2047,
                a <= b,
        ;
        assert(q <= 2047 * b / (b + 1)) by (nonlinear_arith)
            requires
                q * (b + 1) <= 2047 * b,
        ;
    }
    assert(2047 * b / (b + 1) < 2047) by (nonlinear_arith);
}

/// Confidence magnitude in 12-bit prob space from a hit/run count: 2048 -> 4095.
pub fn conf_prob(count: u32) -> (r: usize)
    ensures
        r == confidence(count as nat),
        2048 <= r < 4095,
{
    proof {
        law_confidence_climbs(count as nat, count as nat);
    }
    let n: u64 = count as u64;
    2048 + (2047 * n / (n + 1)) as usize
}

/// The bits of a byte read so far, which `c0` holds below a leading 1, agree with
/// the leading bits of `byte`.
pub open spec fn on_track(byte: u8, c0: u32, bitpos: u32) -> bool {
    bitpos == 0 || c0 - (1u32 << bitpos) == byte as u32 >> ((8 - bitpos) as u32)
}

/// What a model that expects `byte` says of the bit at `bitpos`: `mag` for a 1,
/// `-mag` for a 0, and nothing once the byte has turned out otherwise.
pub open spec fn byte_vote(byte: u8, mag: i32, c0: u32, bitpos: u32) -> int {
    if on_track(byte, c0, bitpos) {
        if (byte >> ((7 - bitpos) as u32)) & 1 == 1 { mag as int } else { -mag }
    } else {
        0
    }
}

/// A model stays on track as long as every bit is the expected one, and once one
/// is not, it says nothing more of the byte.
pub proof fn law_on_track_until_surprised(byte: u8, c0: u32, bitpos: u32, bit: u32)
    requires
        bitpos < 7,
        (1u32 << bitpos) <= c0 < (2u32 << bitpos),
        bit <= 1,
    ensures
        on_track(byte, (2 * c0 + bit) as u32, (bitpos + 1) as u32) <==> on_track(byte, c0, bitpos)
            && bit == (byte >> ((7 - bitpos) as u32)) & 1,
{
    let b = byte as u32;
    let next = (2 * c0 + bit) as u32;
    let top = (byte >> ((7 - bitpos) as u32)) & 1;
    assert(c0 < 128) by (bit_vector)
        requires
            bitpos < 7,
            c0 < (2u32 << bitpos),
    ;
    assert(next - (1u32 << ((bitpos + 1) as u32)) == b >> ((7 - bitpos) as u32) <==> (bitpos == 0
        || c0 - (1u32 << bitpos) == b >> ((8 - bitpos) as u32)) && bit == (b >> ((7
        - bitpos) as u32)) & 1) by (bit_vector)
        requires
            bitpos < 7,
            b < 256,
            bit <= 1,
            (1u32 << bitpos) <= c0 < (2u32 << bitpos),
            next == 2 * c0 + bit,
    ;
    assert(top == (b >> ((7 - bitpos) as u32)) & 1) by (bit_vector)
        requires
            b == byte,
            bitpos < 7,
            top == (byte >> ((7 - bitpos) as u32)) & 1,
    ;
}

/// The vote of a model that expects `byte`.
pub fn vote(byte: u8, mag: i32, c0: u32, bitpos: u32) -> (v: i32)
    requires
        bitpos < 8,
        (1u32 << bitpos) <= c0,
        mag > i32::MIN,
    ensures
        v == byte_vote(byte, mag, c0, bitpos),
{
    let placed: u32 = c0 - (1u32 << bitpos);
    if bitpos == 0 || placed == (byte as u32 >> (8 - bitpos)) {
        if (byte >> (7 - bitpos)) & 1 == 1 {
            mag
        } else {
            -mag
        }
    } else {
        0
    }
}

/// The number of bytes, up to `cap`, on which the texts before `cand` and before
/// `cur` agree, counted backwards.
pub open spec fn shared_past(buf: Seq<u8>, cand: nat, cur: nat, cap: nat) -> nat
    decreases cap,
{
    if cap == 0 || cand == 0 || cur == 0 || buf[cand - 1] != buf[cur - 1] {
        0
    } else {
        1 + shared_past(buf, (cand - 1) as nat, (cur - 1) as nat, (cap - 1) as nat)
    }
}

proof fn lemma_shared_past_cap(buf: Seq<u8>, cand: nat, cur: nat, cap: nat)
    ensures
        shared_past(buf, cand, cur, cap) <= cap,
    decreases cap,
{
    if cap > 0 && cand > 0 && cur > 0 {
        lemma_shared_past_cap(buf, (cand - 1) as nat, (cur - 1) as nat, (cap - 1) as nat);
    }
}

/// How far back the bytes before `cand` match the bytes before `cur` (capped).
pub fn backmatch(buf: &[u8], cand: usize, cur: usize, cap: usize) -> (r: u32)
    requires
        cap > 0 && cand > 0 && cur > 0 ==> cand <= buf@.len() && cur <= buf@.len(),
    ensures
        r == shared_past(buf@, cand as nat, cur as nat, cap as nat) as u32,
{
    let mut k: usize = 0;
    while k < cap && k < cand && k < cur && buf[cand - 1 - k] == buf[cur - 1 - k]
        invariant
            cap > 0 && cand > 0 && cur > 0 ==> cand <= buf@.len() && cur <= buf@.len(),
            k <= cap,
            k <= cand,
            k <= cur,
            shared_past(buf@, cand as nat, cur as nat, cap as nat) == k + shared_past(
                buf@,
                (cand - k) as nat,
                (cur - k) as nat,
                (cap - k) as nat,
            ),
        decreases cap - k,
    {
        k = k + 1;
    }
    k as u32
}

/// The positions met on a chain from `cand` on: at most `fuel`, each below the one
/// before it, and the first below `n`.
pub open spec fn chain(prev: Seq<u32>, cand: nat, n: nat, fuel: nat) -> Seq<nat>
    decreases fuel,
{
    if cand == 0 || cand >= n || fuel == 0 {
        Seq::empty()
    } else {
        let np = prev[(cand % MEM as nat) as int] as nat;
        seq![cand] + chain(prev, if np >= cand { 0 } else { np }, n, (fuel - 1) as nat)
    }
}

/// The first of the candidates with the longest shared past, given the best one
/// met before them as a pair of a position and the length of its past.
pub open spec fn longest(buf: Seq<u8>, n: nat, cands: Seq<nat>, best: (nat, nat)) -> (nat, nat)
    decreases cands.len(),
{
    if cands.len() == 0 {
        best
    } else {
        let back = shared_past(buf, cands[0], n, MAX_BACK as nat);
        longest(
            buf,
            n,
            cands.skip(1),
            if back > best.1 { (cands[0], back) } else { best },
        )
    }
}

/// Candidate `i` is the position of `r`, its past is as long as `r` says, and that
/// of every candidate before it is shorter.
pub open spec fn wins(buf: Seq<u8>, n: nat, cands: Seq<nat>, i: int, r: (nat, nat)) -> bool {
    &&& 0 <= i < cands.len()
    &&& r.0 == cands[i]
    &&& r.1 == shared_past(buf, cands[i], n, MAX_BACK as nat)
    &&& forall|h: int|
        0 <= h < i ==> shared_past(buf, #[trigger] cands[h], n, MAX_BACK as nat) < r.1
}

proof fn lemma_longest(buf: Seq<u8>, n: nat, cands: Seq<nat>, best: (nat, nat))
    ensures
        ({
            let r = longest(buf, n, cands, best);
            &&& r.1 >= best.1
            &&& forall|i: int|
                0 <= i < cands.len() ==> shared_past(buf, #[trigger] cands[i], n, MAX_BACK as nat)
                    <= r.1
            &&& r == best || r.1 > best.1 && exists|i: int| #[trigger] wins(buf, n, cands, i, r)
        }),
    decreases cands.len(),
{
    if cands.len() > 0 {
        let back = shared_past(buf, cands[0], n, MAX_BACK as nat);
        let next = if back > best.1 { (cands[0], back) } else { best };
        let rest = cands.skip(1);
        lemma_longest(buf, n, rest, next);
        let r = longest(buf, n, cands, best);
        assert forall|i: int| 0 <= i < cands.len() implies shared_past(
            buf,
            #[trigger] cands[i],
            n,
            MAX_BACK as nat,
        ) <= r.1 by {
            if i > 0 {
                assert(rest[i - 1] == cands[i]);
            }
        }
        if r != best {
            if r == next {
                assert(wins(buf, n, cands, 0, r));
            } else {
                let i = choose|i: int| #[trigger] wins(buf, n, rest, i, r);
                assert forall|h: int| 0 <= h < i + 1 implies shared_past(
                    buf,
                    #[trigger] cands[h],
                    n,
                    MAX_BACK as nat,
                ) < r.1 by {
                    if h > 0 {
                        assert(rest[h - 1] == cands[h]);
                    }
                }
                assert(cands[i + 1] == r.0);
                assert(wins(buf, n, cands, i + 1, r));
            }
        }
    }
}

/// A match model locks onto a candidate of the chain whose past agrees with the
/// present the longest, of several such ones onto the first, which is the most
/// recent, and onto none only if no candidate shares a byte.
pub proof fn law_longest_past_wins(buf: Seq<u8>, n: nat, cands: Seq<nat>)
    ensures
        ({
            let r = longest(buf, n, cands, (0, 0));
            &&& forall|i: int|
                0 <= i < cands.len() ==> shared_past(buf, #[trigger] cands[i], n, MAX_BACK as nat)
                    <= r.1
            &&& r.1 > 0 ==> exists|i: int| #[trigger] wins(buf, n, cands, i, r)
        }),
{
    lemma_longest(buf, n, cands, (0, 0));
}

/// The positions on a chain come the most recent first.
pub proof fn law_chain_goes_back(prev: Seq<u32>, cand: nat, n: nat, fuel: nat, a: int, b: int)
    requires
        0 <= a < b < chain(prev, cand, n, fuel).len(),
    ensures
        chain(prev, cand, n, fuel)[b] < chain(prev, cand, n, fuel)[a] <= cand,
    decreases fuel,
{
    let np = prev[(cand % MEM as nat) as int] as nat;
    let next = if np >= cand { 0 } else { np };
    let rest = chain(prev, next, n, (fuel - 1) as nat);
    assert(chain(prev, cand, n, fuel)[b] == rest[b - 1]);
    if a > 0 {
        assert(chain(prev, cand, n, fuel)[a] == rest[a - 1]);
        law_chain_goes_back(prev, next, n, (fuel - 1) as nat, a - 1, b - 1);
    } else if b > 1 {
        law_chain_goes_back(prev, next, n, (fuel - 1) as nat, 0, b - 1);
    }
}

/// The state of a match model: the chains, and the match that it rides, if any.
pub struct MatchView {
    /// Context hash to the latest position after that context, 0 for none.
    pub head: Seq<u32>,
    /// Position to the previous position of its chain, 0 for none.
    pub prev: Seq<u32>,
    pub minlen: nat,
    pub on: bool,
    /// Position of the byte that the match expects next.
    pub ptr: nat,
    /// How far the match has held.
    pub len: nat,
    /// The byte that the match expects next.
    pub pb: u8,
    /// The stretched confidence in that byte.
    pub mag: i32,
}

impl MatchView {
    pub open spec fn start(minlen: nat) -> MatchView {
        MatchView {
            head: Seq::new(MEM as nat, |i: int| 0u32),
            prev: Seq::new(MEM as nat, |i: int| 0u32),
            minlen,
            on: false,
            ptr: 0,
            len: 0,
            pb: 0,
            mag: 0,
        }
    }

    /// A byte has been read: the match goes on if it was the expected one.
    pub open spec fn followed(self, buf: Seq<u8>, byte: u8) -> MatchView {
        if self.on && buf[self.ptr as int] == byte && self.ptr + 1 < buf.len() {
            MatchView {
                ptr: self.ptr + 1,
                len: if self.len < u32::MAX { self.len + 1 } else { self.len },
                ..self
            }
        } else if self.on && buf[self.ptr as int] == byte {
            MatchView { on: false, ptr: self.ptr + 1, len: 0, ..self }
        } else {
            MatchView { on: false, len: 0, ..self }
        }
    }

    /// The slot of the context that ends `buf`.
    pub open spec fn slot(self, buf: Seq<u8>) -> nat {
        hashing::hash_context(buf.subrange(buf.len() - self.minlen, buf.len() as int)) as nat
            % MEM as nat
    }

    /// Without a match to ride, lock onto the best candidate of the context's
    /// chain; a fresh match is only mildly trusted.
    pub open spec fn acquired(self, buf: Seq<u8>) -> MatchView {
        let n = buf.len();
        let best = longest(
            buf,
            n,
            chain(self.prev, self.head[self.slot(buf) as int] as nat, n, MAX_CHAIN as nat),
            (0, 0),
        );
        if !self.on && best.1 >= 1 {
            MatchView {
                on: true,
                ptr: best.0,
                len: if best.1 < FRESH { best.1 } else { FRESH as nat },
                ..self
            }
        } else {
            self
        }
    }

    /// Put the present position at the head of its context's chain.
    pub open spec fn linked(self, buf: Seq<u8>) -> MatchView {
        let n = buf.len();
        let h = self.slot(buf) as int;
        MatchView {
            prev: self.prev.update((n % MEM as nat) as int, self.head[h]),
            head: self.head.update(h, n as u32),
            ..self
        }
    }

    /// Look up the expected byte and the confidence in it.
    pub open spec fn aimed(self, buf: Seq<u8>, tab: Seq<i32>) -> MatchView {
        if self.on && self.ptr < buf.len() {
            MatchView {
                pb: buf[self.ptr as int],
                mag: tab[confidence(self.len) as int],
                ..self
            }
        } else {
            MatchView { on: false, mag: 0, ..self }
        }
    }

    /// The state after the byte `byte`, the last of `buf`.
    pub open spec fn updated(self, buf: Seq<u8>, byte: u8, tab: Seq<i32>) -> MatchView {
        let s = self.followed(buf, byte);
        if buf.len() >= self.minlen {
            s.acquired(buf).linked(buf).aimed(buf, tab)
        } else {
            s.aimed(buf, tab)
        }
    }

    /// The contribution to the mixer: nothing without a match.
    pub open spec fn stretched(self, c0: u32, bitpos: u32) -> int {
        if self.on { byte_vote(self.pb, self.mag, c0, bitpos) } else { 0 }
    }

    /// The tables have their size, and a match points into a text of `n` bytes.
    pub open spec fn fits(self, n: nat) -> bool {
        &&& self.head.len() == MEM
        &&& self.prev.len() == MEM
        &&& self.on ==> self.ptr < n
    }
}

/// A match-model predictor with hash chains: on a miss it walks the chain of
/// recent positions sharing the current `minlen`-byte context and picks the
/// candidate whose preceding bytes match the current context the longest, so that
/// it locks onto genuine long repeats instead of the most recent coincidence.
pub struct MatchModel {
    pub head: Vec<u32>,
    pub prev: Vec<u32>,
    pub minlen: usize,
    pub on: bool,
    pub ptr: usize,
    pub len: u32,
    pub pb: u8,
    pub mag: i32,
}

impl View for MatchModel {
    type V = MatchView;

    open spec fn view(&self) -> MatchView {
        MatchView {
            head: self.head@,
            prev: self.prev@,
            minlen: self.minlen as nat,
            on: self.on,
            ptr: self.ptr as nat,
            len: self.len as nat,
            pb: self.pb,
            mag: self.mag,
        }
    }
}

impl MatchModel {
    pub fn new(minlen: usize) -> (m: MatchModel)
        ensures
            m@ == MatchView::start(minlen as nat),
    {
        let m = MatchModel {
            head: vec![0u32; MEM],
            prev: vec![0u32; MEM],
            minlen,
            on: false,
            ptr: 0,
            len: 0,
            pb: 0,
            mag: 0,
        };
        assert(m@.head =~= MatchView::start(minlen as nat).head);
        assert(m@.prev =~= MatchView::start(minlen as nat).prev);
        m
    }

    /// Per-bit stretched contribution for the mixer (0 when off or off-track).
    pub fn stretch_for(&self, c0: u32, bitpos: u32) -> (v: i32)
        requires
            self.on ==> bitpos < 8 && (1u32 << bitpos) <= c0 && self.mag > i32::MIN,
        ensures
            v == self@.stretched(c0, bitpos),
    {
        if !self.on {
            return 0;
        }
        vote(self.pb, self.mag, c0, bitpos)
    }

    /// The position on the chain of slot `h` with the longest shared past, and the
    /// length of that past.
    fn best_candidate(&self, buf: &[u8], h: usize) -> (best: (usize, u32))
        requires
            self@.fits(buf@.len()),
            h < MEM,
        ensures
            (best.0 as nat, best.1 as nat) == longest(
                buf@,
                buf@.len(),
                chain(self.prev@, self.head@[h as int] as nat, buf@.len(), MAX_CHAIN as nat),
                (0, 0),
            ),
            best.1 >= 1 ==> best.0 < buf@.len(),
    {
        let n: usize = buf.len();
        let mut cand: usize = self.head[h] as usize;
        let mut depth: usize = 0;
        let mut best_pos: usize = 0;
        let mut best_back: u32 = 0;
        let ghost goal = longest(
            buf@,
            n as nat,
            chain(self.prev@, cand as nat, n as nat, MAX_CHAIN as nat),
            (0, 0),
        );
        while cand != 0 && cand < n && depth < MAX_CHAIN
            invariant
                n == buf@.len(),
                self@.fits(n as nat),
                depth <= MAX_CHAIN,
                best_back >= 1 ==> best_pos < n,
                goal == longest(
                    buf@,
                    n as nat,
                    chain(self.prev@, cand as nat, n as nat, (MAX_CHAIN - depth) as nat),
                    (best_pos as nat, best_back as nat),
                ),
            decreases MAX_CHAIN - depth,
        {
            let ghost cands = chain(self.prev@, cand as nat, n as nat, (MAX_CHAIN - depth) as nat);
            let back: u32 = backmatch(buf, cand, n, MAX_BACK);
            proof {
                lemma_shared_past_cap(buf@, cand as nat, n as nat, MAX_BACK as nat);
            }
            if back > best_back {
                best_back = back;
                best_pos = cand;
            }
            let np: usize = self.prev[cand % MEM] as usize;
            // A position not below the present one is a stale alias: the chain ends.
            cand = if np >= cand { 0 } else { np };
            depth = depth + 1;
            assert(cands.skip(1) =~= chain(
                self.prev@,
                cand as nat,
                n as nat,
                (MAX_CHAIN - depth) as nat,
            ));
        }
        (best_pos, best_back)
    }

    /// Advance at a byte boundary. `buf` already includes `byte`.
    pub fn update(&mut self, buf: &[u8], byte: u8, stretch_tab: &[i32])
        requires
            old(self)@.fits(buf@.len()),
            stretch_tab@.len() >= 4095,
        ensures
            final(self)@ == old(self)@.updated(buf@, byte, stretch_tab@),
            final(self)@.fits(buf@.len()),
    {
        let n: usize = buf.len();
        // continue an active match
        if self.on && buf[self.ptr] == byte {
            self.ptr = self.ptr + 1;
            self.len = self.len.saturating_add(1);
            if self.ptr >= n {
                self.on = false;
                self.len = 0;
            }
        } else {
            self.on = false;
            self.len = 0;
        }
        let ghost followed = self@;
        assert(followed == old(self)@.followed(buf@, byte));
        let ghost mut reached = followed;
        if n >= self.minlen {
            let h: usize = hashing::hash_n(buf, n, self.minlen) as usize % MEM;
            assert(buf@.subrange(n as int, n as int) =~= Seq::empty());
            if !self.on {
                let (best_pos, best_back) = self.best_candidate(buf, h);
                if best_back >= 1 {
                    self.ptr = best_pos;
                    self.on = true;
                    self.len = if best_back < FRESH { best_back } else { FRESH };
                }
            }
            assert(self@ == followed.acquired(buf@));
            // link the current position into the chain for this context
            self.prev[n % MEM] = self.head[h];
            self.head[h] = n as u32;
            proof {
                reached = followed.acquired(buf@).linked(buf@);
            }
            assert(self@ == reached);
        }
        if self.on && self.ptr < n {
            self.pb = buf[self.ptr];
            self.mag = stretch_tab[conf_prob(self.len)];
        } else {
            self.on = false;
            self.mag = 0;
        }
        assert(self@ == reached.aimed(buf@, stretch_tab@));
    }
}

} // verus!
