//! The numeric model across rows: per-field linear extrapolation, and the digits of
//! a value that is foreseen.

use vstd::prelude::*;
use crate::ascii;
use crate::ascii::{MINUS, ZERO};

verus! {

/// Number of fields told apart by the numeric model.
pub const NUMSLOTS: usize = 0x1_0000;

/// Digits of a number that are tracked; a longer number is not followed.
pub const MAX_DIGITS: u32 = 18;

/// Hits of a field are counted up to this number.
pub const MAX_HITS: u32 = 255;

pub open spec fn pow10(n: nat) -> nat
    decreases n,
{
    if n == 0 { 1 } else { 10 * pow10((n - 1) as nat) }
}

pub proof fn lemma_pow10_grows(n: nat, m: nat)
    requires
        n <= m,
    ensures
        0 < pow10(n) <= pow10(m),
    decreases m,
{
    if n < m {
        lemma_pow10_grows(n, (m - 1) as nat);
    } else if n > 0 {
        lemma_pow10_grows((n - 1) as nat, (n - 1) as nat);
    }
}

pub proof fn lemma_pow10_values()
    ensures
        pow10(18) == 1_000_000_000_000_000_000,
        pow10(20) == 100_000_000_000_000_000_000,
{
    reveal_with_fuel(pow10, 21);
}

/// The decimal digits of `n`, without leading zeros.
pub open spec fn decimal(n: nat) -> Seq<u8>
    decreases n,
{
    if n < 10 {
        seq![(ZERO + n) as u8]
    } else {
        decimal(n / 10).push((ZERO + n % 10) as u8)
    }
}

/// The decimal text of an integer.
pub open spec fn signed_decimal(v: int) -> Seq<u8> {
    if v < 0 { seq![MINUS] + decimal((-v) as nat) } else { decimal(v as nat) }
}

/// The digits of a number below `10^k` are at most `k`, and nothing but digits.
pub proof fn lemma_decimal_digits(n: nat, k: nat)
    requires
        n < pow10(k),
        k >= 1,
    ensures
        1 <= decimal(n).len() <= k,
        forall|i: int|
            0 <= i < decimal(n).len() ==> ascii::is_digit(#[trigger] decimal(n)[i]),
    decreases n,
{
    if n >= 10 {
        reveal_with_fuel(pow10, 3);
        lemma_decimal_digits(n / 10, (k - 1) as nat);
    }
}

/// The text of a 64-bit number has at most 20 bytes.
pub proof fn lemma_signed_decimal_len(v: i64)
    ensures
        1 <= signed_decimal(v as int).len() <= 20,
{
    assert(pow10(19) == 10_000_000_000_000_000_000) by {
        reveal_with_fuel(pow10, 20);
    }
    if v < 0 {
        lemma_decimal_digits((-v) as nat, 19);
    } else {
        lemma_decimal_digits(v as nat, 19);
    }
}

/// What is known of a field: its last value, the step that led to it, and how
/// often the extrapolation has been right of late.
#[derive(Clone, Copy)]
pub struct NumState {
    pub last: i64,
    pub delta: i64,
    pub hits: u32,
    pub seen: bool,
}

impl NumState {
    /// Nothing is known.
    pub open spec fn fresh() -> NumState {
        NumState { last: 0, delta: 0, hits: 0, seen: false }
    }

    /// The value that continues the last step.
    pub open spec fn forecast(self) -> i64 {
        self.last.wrapping_add(self.delta)
    }

    /// The knowledge after the field had the value `actual`.
    pub open spec fn learned(self, actual: i64) -> NumState {
        NumState {
            last: actual,
            delta: if self.seen { actual.wrapping_sub(self.last) } else { 0 },
            hits: if !self.seen {
                0
            } else if self.forecast() != actual {
                self.hits / 2
            } else if self.hits < MAX_HITS {
                (self.hits + 1) as u32
            } else {
                MAX_HITS
            },
            seen: true,
        }
    }

    /// Learn that the field had the value `actual`.
    pub fn learn(self, actual: i64) -> (next: NumState)
        ensures
            next == self.learned(actual),
    {
        if self.seen {
            let predicted: i64 = self.last.wrapping_add(self.delta);
            let hits: u32 = if predicted != actual {
                self.hits / 2
            } else if self.hits < MAX_HITS {
                self.hits + 1
            } else {
                MAX_HITS
            };
            NumState { last: actual, delta: actual.wrapping_sub(self.last), hits, seen: true }
        } else {
            NumState { last: actual, delta: 0, hits: 0, seen: true }
        }
    }
}

/// A field whose values step by `d` is foreseen from its second value on, and
/// each further value that holds to the step is a hit.
pub proof fn law_progression_is_foreseen(s: NumState, a: i64, d: i64)
    requires
        i64::MIN <= a + d <= i64::MAX,
        i64::MIN <= a + 2 * d <= i64::MAX,
    ensures
        ({
            let second = s.learned(a).learned((a + d) as i64);
            let third = second.learned((a + 2 * d) as i64);
            &&& second.forecast() == a + 2 * d
            &&& third.hits == (if second.hits < MAX_HITS { second.hits + 1 } else { MAX_HITS as int })
            &&& third.delta == d
        }),
{
}

/// Write the decimal text of `v` into `out`, in place of what it holds.
pub fn write_decimal(out: &mut Vec<u8>, v: i64)
    ensures
        final(out)@ == signed_decimal(v as int),
{
    let mag: u64 = if v < 0 { (-(v + 1)) as u64 + 1 } else { v as u64 };
    let mut d: [u8; 24] = [0; 24];
    let mut dl: usize = 0;
    let mut x: u64 = mag;
    proof {
        lemma_pow10_values();
    }
    assert(decimal(mag as nat) =~= decimal(x as nat) + d@.take(0).reverse());
    while x >= 10
        invariant
            dl < 20,
            d@.len() == 24,
            pow10(20) == 100_000_000_000_000_000_000,
            x * pow10(dl as nat) <= mag,
            decimal(mag as nat) == decimal(x as nat) + d@.take(dl as int).reverse(),
        decreases x,
    {
        let ghost before = d@;
        let ghost x0 = x as nat;
        let digit: u8 = (x % 10) as u8;
        d[dl] = ZERO + digit;
        x = x / 10;
        dl = dl + 1;
        proof {
            let p = pow10((dl - 1) as nat) as int;
            assert(x * (10 * p) <= x0 * p) by (nonlinear_arith)
                requires
                    x == x0 / 10,
                    p >= 0,
            ;
            assert(1 * (10 * p) <= x * (10 * p)) by (nonlinear_arith)
                requires
                    x >= 1,
                    p >= 0,
            ;
            if dl >= 20 {
                lemma_pow10_grows(20, dl as nat);
            }
            assert(d@.take(dl as int).reverse() =~= seq![d@[dl - 1]] + before.take(
                dl - 1,
            ).reverse());
            assert(decimal(x0) =~= decimal(x as nat).push(d@[dl - 1]));
            assert(decimal(x0) + before.take(dl - 1).reverse() =~= decimal(x as nat) + d@.take(
                dl as int,
            ).reverse());
        }
    }
    out.clear();
    if v < 0 {
        out.push(MINUS);
    }
    out.push(ZERO + x as u8);
    let ghost start = out@;
    let mut i: usize = dl;
    assert(d@.take(dl as int).reverse().take(0) =~= Seq::<u8>::empty());
    while i > 0
        invariant
            i <= dl < 24,
            d@.len() == 24,
            out@ == start + d@.take(dl as int).reverse().take(dl - i),
        decreases i,
    {
        i = i - 1;
        out.push(d[i]);
        assert(d@.take(dl as int).reverse().take(dl - i) =~= d@.take(dl as int).reverse().take(
            dl - i - 1,
        ).push(d@[i as int]));
    }
    assert(d@.take(dl as int).reverse().take(dl as int) =~= d@.take(dl as int).reverse());
    assert(out@ =~= signed_decimal(v as int));
}

} // verus!
