//! The lookup tables between 12-bit probabilities and the stretched (logit)
//! domain.
//!
//! `stretch(p)` is `256 * ln(p / (4096 - p))` and `squash(d)` is
//! `4096 / (1 + e^(-d / 256))`, both rounded to the nearest integer. Both are
//! built from one fixed-point exponential, so the tables hold the same integers
//! on every machine.

use vstd::prelude::*;

verus! {

/// The fixed-point 1.
pub const UNIT: u64 = 0x1_0000_0000_0000;

/// `e^(1/512)` in units of `UNIT`, rounded down.
pub const EXP_STEP: u64 = 0x1_0080_2005_5600;

/// Largest magnitude of a stretched probability.
pub const ST_MAX: i32 = 2047;

/// `e^(k/512)` in units of `UNIT`, every step rounded down.
pub open spec fn expo(k: nat) -> nat
    decreases k,
{
    if k == 0 {
        UNIT as nat
    } else {
        expo((k - 1) as nat) * EXP_STEP as nat / UNIT as nat
    }
}

/// The odds `p : 4096 - p` are at least `e^((k + 1/2) / 256)`, so that 256 times
/// their logarithm rounds to more than `k`.
pub open spec fn beyond(p: nat, k: nat) -> bool {
    expo(2 * k + 1) * (4096 - p) <= p * UNIT
}

/// The first number from `k` on, up to 2047, that the odds are not beyond.
pub open spec fn round_log(p: nat, k: nat) -> nat
    decreases 2047 - k,
{
    if k < 2047 && beyond(p, k) { round_log(p, k + 1) } else { k }
}

/// `256 * ln(p / (4096 - p))`, rounded and held to `-2047..=2047`. A probability
/// of 0 counts as the smallest positive one.
pub open spec fn stretch_of(p: nat) -> int {
    if p >= 2048 {
        round_log(p, 0) as int
    } else if p >= 1 {
        -(round_log((4096 - p) as nat, 0) as int)
    } else {
        -(round_log(4095, 0) as int)
    }
}

/// `4096 / (1 + e^(-d / 256))` for `d >= 0`, rounded and held to `1..=4095`.
pub open spec fn logistic(d: nat) -> int {
    let e = expo(2 * d);
    let v = (8192 * e + (e + UNIT as nat)) / (2 * (e + UNIT as nat));
    if v < 1 {
        1
    } else if v > 4095 {
        4095
    } else {
        v as int
    }
}

/// `4096 / (1 + e^(-d / 256))`, rounded and held to `1..=4095`.
pub open spec fn squash_of(d: int) -> int {
    if d >= 0 { logistic(d as nat) } else { 4096 - logistic((-d) as nat) }
}

/// The stretched value of every 12-bit probability.
pub open spec fn stretch_table() -> Seq<i32> {
    Seq::new(4096, |p: int| stretch_of(p as nat) as i32)
}

/// The probability of every stretched value; place `i` stands for `i - 2048`.
pub open spec fn squash_table() -> Seq<i32> {
    Seq::new(4096, |i: int| squash_of(i - 2048) as i32)
}

pub proof fn lemma_round_log_range(p: nat, k: nat)
    requires
        k <= 2047,
    ensures
        k <= round_log(p, k) <= 2047,
    decreases 2047 - k,
{
    if k < 2047 && beyond(p, k) {
        lemma_round_log_range(p, k + 1);
    }
}

/// The entries of the stretch table are in `-2047..=2047`, and not negative for
/// probabilities of at least one half.
pub proof fn lemma_stretch_range(p: nat)
    ensures
        -2047 <= stretch_of(p) <= 2047,
        p >= 2048 ==> stretch_of(p) >= 0,
{
    lemma_round_log_range(p, 0);
    lemma_round_log_range((4096 - p) as nat, 0);
    lemma_round_log_range(4095, 0);
}

/// The entries of the squash table are probabilities of neither 0 nor 1.
pub proof fn lemma_squash_range(d: int)
    ensures
        1 <= squash_of(d) <= 4095,
{
}

/// Over `j <= 256` steps the exponential grows by at most `511 / (511 - j)`.
proof fn lemma_expo_block(k: nat, j: nat)
    requires
        j <= 256,
    ensures
        expo(k + j) * (511 - j) <= expo(k) * 511,
    decreases j,
{
    if j > 0 {
        let i = (j - 1) as nat;
        lemma_expo_block(k, i);
        let a = expo(k + i) as int;
        let b = expo(k + j) as int;
        assert(b == a * EXP_STEP / UNIT as int) by {
            assert((k + j - 1) as nat == k + i);
        }
        assert(b * UNIT <= a * EXP_STEP) by (nonlinear_arith)
            requires
                b == a * EXP_STEP / UNIT as int,
                UNIT == 0x1_0000_0000_0000u64,
        ;
        assert(b * 511 <= a * 512) by (nonlinear_arith)
            requires
                b * UNIT <= a * EXP_STEP,
                a >= 0,
                UNIT == 0x1_0000_0000_0000u64,
                EXP_STEP == 0x1_0080_2005_5600u64,
        ;
        let e0 = expo(k) as int;
        assert(b * (511 - j) <= e0 * 511) by (nonlinear_arith)
            requires
                a * (511 - i) <= e0 * 511,
                b * 511 <= a * 512,
                0 <= i < 256,
                j == i + 1,
                a >= 0,
                b >= 0,
        ;
    }
}

/// The exponential at most triples over 256 steps.
proof fn lemma_expo_triples(k: nat, j: nat)
    requires
        j <= 256,
    ensures
        expo(k + j) <= 3 * expo(k),
{
    lemma_expo_block(k, j);
    let a = expo(k + j) as int;
    let b = expo(k) as int;
    assert(a <= 3 * b) by (nonlinear_arith)
        requires
            a * (511 - j) <= b * 511,
            j <= 256,
            a >= 0,
            b >= 0,
    ;
}

spec fn power_of_three(n: nat) -> nat
    decreases n,
{
    if n == 0 { 1 } else { 3 * power_of_three((n - 1) as nat) }
}

proof fn lemma_expo_blocks(n: nat)
    ensures
        expo(256 * n) <= UNIT * power_of_three(n),
    decreases n,
{
    if n > 0 {
        lemma_expo_blocks((n - 1) as nat);
        lemma_expo_triples((256 * (n - 1)) as nat, 256);
    }
}

proof fn lemma_power_of_three_grows(n: nat, m: nat)
    requires
        n <= m,
    ensures
        power_of_three(n) <= power_of_three(m),
    decreases m,
{
    if n < m {
        lemma_power_of_three_grows(n, (m - 1) as nat);
    }
}

/// Far from overflow over the whole range that the tables need.
proof fn lemma_expo_bound(k: nat)
    requires
        k <= 4100,
    ensures
        expo(k) <= 0x800_0000_0000_0000_0000,
{
    let n = k / 256;
    let j = k % 256;
    lemma_expo_blocks(n);
    lemma_expo_triples(256 * n, j);
    assert(256 * n + j == k);
    lemma_power_of_three_grows(n, 16);
    assert(power_of_three(16) == 43046721) by {
        reveal_with_fuel(power_of_three, 17);
    }
}

/// One step of the exponential.
fn grow(e: u128, k: Ghost<nat>) -> (r: u128)
    requires
        e == expo(k@),
        k@ <= 4100,
    ensures
        r == expo(k@ + 1),
{
    proof {
        lemma_expo_bound(k@);
        assert(e * EXP_STEP <= u128::MAX) by (nonlinear_arith)
            requires
                0 <= e <= 0x800_0000_0000_0000_0000,
                EXP_STEP == 0x1_0080_2005_5600u64,
        ;
    }
    e * EXP_STEP as u128 / UNIT as u128
}

/// Whether the odds of `p` are beyond the number `k` whose threshold is `e`.
fn is_beyond(p: u32, e: u128, k: Ghost<nat>) -> (r: bool)
    requires
        1 <= p < 4096,
        e == expo(2 * k@ + 1),
        k@ <= 2047,
    ensures
        r == beyond(p as nat, k@),
{
    proof {
        lemma_expo_bound(2 * k@ + 1);
        let rest = 4096 - p;
        assert(0 <= e * rest <= e * 4096) by (nonlinear_arith)
            requires
                0 <= rest <= 4096,
                e >= 0,
        ;
        assert(0 <= p * UNIT <= 4096 * UNIT) by (nonlinear_arith)
            requires
                0 <= p <= 4096,
                UNIT >= 0,
        ;
    }
    e * (4096 - p) as u128 <= p as u128 * UNIT as u128
}

proof fn lemma_round_log_skip(p: nat, k: nat, n: nat)
    requires
        k <= n <= 2047,
        forall|j: nat| k <= j < n ==> #[trigger] beyond(p, j),
    ensures
        round_log(p, k) == round_log(p, n),
    decreases n - k,
{
    if k < n {
        assert(beyond(p, k));
        lemma_round_log_skip(p, k + 1, n);
    }
}

/// Better odds are beyond whatever worse odds are beyond.
proof fn lemma_beyond_grows(p: nat, q: nat, k: nat)
    requires
        p <= q <= 4096,
        beyond(p, k),
    ensures
        beyond(q, k),
{
    let e = expo(2 * k + 1) as int;
    assert(e * (4096 - q) <= q * UNIT) by (nonlinear_arith)
        requires
            e * (4096 - p) <= p * UNIT,
            p <= q <= 4096,
            e >= 0,
    ;
}

/// The stretch table.
pub fn build_stretch() -> (t: Vec<i32>)
    ensures
        t@ == stretch_table(),
{
    let mut t: Vec<i32> = vec![0i32; 4096];
    let mut k: u32 = 0;
    let mut e: u128 = grow(UNIT as u128, Ghost(0));
    let mut p: u32 = 2048;
    while p < 4096
        invariant
            2048 <= p <= 4096,
            k <= 2047,
            e == expo((2 * k + 1) as nat),
            t@.len() == 4096,
            forall|j: nat| j < k ==> #[trigger] beyond(p as nat, j),
            forall|i: int| 4096 - p < i < p && i < 4096 && i > 0 ==> #[trigger] t@[i] == stretch_of(
                i as nat,
            ),
        decreases 4096 - p,
    {
        while k < 2047 && is_beyond(p, e, Ghost(k as nat))
            invariant
                2048 <= p < 4096,
                k <= 2047,
                e == expo((2 * k + 1) as nat),
                forall|j: nat| j < k ==> #[trigger] beyond(p as nat, j),
            decreases 2047 - k,
        {
            e = grow(e, Ghost((2 * k + 1) as nat));
            e = grow(e, Ghost((2 * k + 2) as nat));
            k = k + 1;
        }
        proof {
            lemma_round_log_skip(p as nat, 0, k as nat);
            assert(round_log(p as nat, 0) == k);
        }
        t[p as usize] = k as i32;
        if p > 2048 {
            t[(4096 - p) as usize] = -(k as i32);
        }
        let ghost done = p as nat;
        p = p + 1;
        assert forall|j: nat| j < k implies #[trigger] beyond(p as nat, j) by {
            lemma_beyond_grows(done, p as nat, j);
        }
    }
    t[0] = t[1];
    assert forall|i: int| 0 <= i < 4096 implies t@[i] == stretch_table()[i] by {
        lemma_stretch_range(i as nat);
        if i == 0 {
            lemma_stretch_range(1);
        }
    }
    assert(t@ =~= stretch_table());
    t
}

/// The squash table.
pub fn build_squash() -> (t: Vec<i32>)
    ensures
        t@ == squash_table(),
{
    let mut t: Vec<i32> = vec![0i32; 4096];
    let mut e: u128 = UNIT as u128;
    let mut d: u32 = 0;
    while d <= 2048
        invariant
            d <= 2049,
            e == expo((2 * d) as nat),
            t@.len() == 4096,
            forall|i: int| 2048 - d < i < 2048 + d && i < 4096 ==> #[trigger] t@[i] == squash_of(
                i - 2048,
            ),
        decreases 2049 - d,
    {
        proof {
            lemma_expo_bound((2 * d) as nat);
        }
        let total: u128 = e + UNIT as u128;
        let v: u128 = (8192 * e + total) / (2 * total);
        let q: i32 = if v < 1 {
            1
        } else if v > 4095 {
            4095
        } else {
            v as i32
        };
        assert(q == logistic(d as nat));
        if d < 2048 {
            t[(2048 + d) as usize] = q;
        }
        if d > 0 {
            t[(2048 - d) as usize] = 4096 - q;
        }
        e = grow(e, Ghost((2 * d) as nat));
        e = grow(e, Ghost((2 * d + 1) as nat));
        d = d + 1;
    }
    assert(t@ =~= squash_table());
    t
}

pub proof fn lemma_expo_grows(j: nat, k: nat)
    requires
        j <= k,
    ensures
        UNIT <= expo(j) <= expo(k),
    decreases k,
{
    if j < k {
        lemma_expo_grows(j, (k - 1) as nat);
        let a = expo((k - 1) as nat) as int;
        assert(a * EXP_STEP / UNIT as int >= a) by (nonlinear_arith)
            requires
                a >= 0,
                UNIT == 0x1_0000_0000_0000u64,
                EXP_STEP == 0x1_0080_2005_5600u64,
        ;
    } else if k > 0 {
        lemma_expo_grows((k - 1) as nat, (k - 1) as nat);
        let a = expo((k - 1) as nat) as int;
        assert(a * EXP_STEP / UNIT as int >= a) by (nonlinear_arith)
            requires
                a >= 0,
                UNIT == 0x1_0000_0000_0000u64,
                EXP_STEP == 0x1_0080_2005_5600u64,
        ;
    }
}

proof fn lemma_round_log_grows(p: nat, q: nat, k: nat)
    requires
        p <= q <= 4096,
        k <= 2047,
    ensures
        round_log(p, k) <= round_log(q, k),
    decreases 2047 - k,
{
    if k < 2047 && beyond(p, k) {
        lemma_beyond_grows(p, q, k);
        lemma_round_log_grows(p, q, k + 1);
    } else {
        lemma_round_log_range(q, k);
    }
}

/// Even odds are stretched to 0.
pub proof fn lemma_stretch_of_half()
    ensures
        stretch_of(2048) == 0,
{
    reveal_with_fuel(expo, 2);
    assert(expo(1) == EXP_STEP);
    assert(!beyond(2048, 0));
}

/// Stretching is odd about one half.
pub proof fn law_stretch_is_odd(p: nat)
    requires
        1 <= p <= 4095,
    ensures
        stretch_of((4096 - p) as nat) == -stretch_of(p),
{
    lemma_stretch_of_half();
}

/// A larger probability is stretched to no smaller value.
pub proof fn law_stretch_grows(p: nat, q: nat)
    requires
        p <= q <= 4095,
    ensures
        stretch_of(p) <= stretch_of(q),
{
    lemma_stretch_range(p);
    lemma_stretch_range(q);
    if p >= 2048 {
        lemma_round_log_grows(p, q, 0);
    } else if q < 2048 && p >= 1 {
        lemma_round_log_grows((4096 - q) as nat, (4096 - p) as nat, 0);
    } else if q < 2048 && q >= 1 {
        lemma_round_log_grows((4096 - q) as nat, 4095, 0);
    } else if q >= 2048 && p < 2048 {
        lemma_stretch_range((4096 - p) as nat);
        lemma_stretch_range(4095);
    }
}

/// The middle of the scale is squashed to even odds.
proof fn lemma_logistic_of_zero()
    ensures
        logistic(0) == 2048,
{
    let e = expo(0);
    let u = UNIT as nat;
    assert((8192 * e + (e + u)) / (2 * (e + u)) == 2048) by (nonlinear_arith)
        requires
            e == u,
            u == 0x1_0000_0000_0000nat,
    ;
}

/// Squashing is odd about one half.
pub proof fn law_squash_is_odd(d: int)
    ensures
        squash_of(-d) == 4096 - squash_of(d),
{
    lemma_logistic_of_zero();
}

proof fn lemma_logistic_grows(c: nat, d: nat)
    requires
        c <= d,
    ensures
        logistic(c) <= logistic(d),
{
    lemma_expo_grows(2 * c, 2 * d);
    let u = UNIT as int;
    let e = expo(2 * c) as int;
    let f = expo(2 * d) as int;
    let a = 8192 * e + (e + u);
    let b = 2 * (e + u);
    let x = 8192 * f + (f + u);
    let y = 2 * (f + u);
    assert(a * y <= x * b) by (nonlinear_arith)
        requires
            u <= e <= f,
            0 < u,
            a == 8192 * e + (e + u),
            b == 2 * (e + u),
            x == 8192 * f + (f + u),
            y == 2 * (f + u),
    ;
    let q = a / b;
    assert(q * b <= a) by (nonlinear_arith)
        requires
            q == a / b,
            b > 0,
    ;
    assert(q * y <= x) by (nonlinear_arith)
        requires
            q * b <= a,
            a * y <= x * b,
            b > 0,
            y > 0,
    ;
    assert(q <= x / y) by (nonlinear_arith)
        requires
            q * y <= x,
            y > 0,
    ;
}

/// A larger stretched value is squashed to no smaller probability.
pub proof fn law_squash_grows(c: int, d: int)
    requires
        c <= d,
    ensures
        squash_of(c) <= squash_of(d),
{
    lemma_logistic_of_zero();
    if c >= 0 {
        lemma_logistic_grows(c as nat, d as nat);
    } else if d < 0 {
        lemma_logistic_grows((-d) as nat, (-c) as nat);
    } else {
        lemma_logistic_grows(0, d as nat);
        lemma_logistic_grows(0, (-c) as nat);
    }
}

/// What a rounded logarithm is: its odds are beyond the number below it, and not
/// beyond itself.
pub proof fn lemma_round_log_is_tight(p: nat, k: nat)
    requires
        k <= 2047,
    ensures
        round_log(p, k) < 2047 ==> !beyond(p, round_log(p, k)),
        round_log(p, k) > k ==> beyond(p, (round_log(p, k) - 1) as nat),
    decreases 2047 - k,
{
    if k < 2047 && beyond(p, k) {
        lemma_round_log_is_tight(p, k + 1);
        lemma_round_log_range(p, k + 1);
    }
}

} // verus!
