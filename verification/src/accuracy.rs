//! How close the fixed-point exponential of the tables is to the real one.
//!
//! `e^(1/512)` is the limit of the partial sums of its series, and `e^(k/512)` that
//! of their `k`-th powers. The sums are kept as fractions of integers.

use vstd::prelude::*;
use crate::tables;
use crate::tables::{EXP_STEP, UNIT};

verus! {

/// The denominator of the partial sum up to the term of order `n`: `512^n * n!`.
pub open spec fn sum_den(n: nat) -> nat
    decreases n,
{
    if n == 0 { 1 } else { sum_den((n - 1) as nat) * (512 * n) }
}

/// The numerator of the partial sum up to the term of order `n`.
pub open spec fn sum_num(n: nat) -> nat
    decreases n,
{
    if n == 0 { 1 } else { sum_num((n - 1) as nat) * (512 * n) + 1 }
}

pub open spec fn power(b: nat, k: nat) -> nat
    decreases k,
{
    if k == 0 { 1 } else { b * power(b, (k - 1) as nat) }
}

proof fn lemma_next_sum(n: nat, num: nat, den: nat)
    requires
        n > 0,
        sum_num((n - 1) as nat) == num,
        sum_den((n - 1) as nat) == den,
    ensures
        sum_num(n) == num * (512 * n) + 1,
        sum_den(n) == den * (512 * n),
{
}

proof fn lemma_sixth_sum()
    ensures
        sum_num(6) == 12995724429856607233,
        sum_den(6) == 12970366926827028480,
{
    lemma_next_sum(1, 1, 1);
    lemma_next_sum(2, 513, 512);
    lemma_next_sum(3, 525313, 524288);
    lemma_next_sum(4, 806880769, 805306368);
    lemma_next_sum(5, 1652491814913, 1649267441664);
    lemma_next_sum(6, 4230379046177281, 4222124650659840);
}

/// From order 6 on the partial sums are within one unit of the constant that the
/// tables step by.
proof fn lemma_step_brackets(n: nat)
    requires
        n >= 6,
    ensures
        sum_den(n) > 0,
        EXP_STEP * sum_den(n) <= UNIT * sum_num(n),
        UNIT * (sum_num(n) + 1) <= (EXP_STEP + 1) * sum_den(n),
    decreases n,
{
    if n == 6 {
        lemma_sixth_sum();
    } else {
        lemma_step_brackets((n - 1) as nat);
        let u = UNIT as int;
        let s = EXP_STEP as int;
        let a = sum_num((n - 1) as nat) as int;
        let b = sum_den((n - 1) as nat) as int;
        let c = (512 * n) as int;
        let a1 = sum_num(n) as int;
        let b1 = sum_den(n) as int;
        assert(b1 > 0 && s * b1 <= u * a1 && u * (a1 + 1) <= (s + 1) * b1) by (nonlinear_arith)
            requires
                a1 == a * c + 1,
                b1 == b * c,
                c >= 2,
                b > 0,
                u > 0,
                s * b <= u * a,
                u * (a + 1) <= (s + 1) * b,
        ;
    }
}

/// The step from `k` to `k + 1` of the lower bound.
proof fn lemma_lower_step(u: int, s: int, a: int, b: int, e: int, e1: int, pa: int, pb: int)
    requires
        u > 0,
        a >= 0,
        b >= 0,
        e >= 0,
        pa >= 0,
        pb >= 0,
        e1 * u <= e * s,
        s * b <= u * a,
        e * pb <= u * pa,
    ensures
        e1 * (b * pb) <= u * (a * pa),
{
    assert((e1 * u) * (b * pb) <= (e * s) * (b * pb)) by (nonlinear_arith)
        requires
            e1 * u <= e * s,
            b >= 0,
            pb >= 0,
    ;
    assert((e * s) * (b * pb) == (s * b) * (e * pb)) by (nonlinear_arith);
    assert((s * b) * (e * pb) <= (u * a) * (e * pb)) by (nonlinear_arith)
        requires
            s * b <= u * a,
            e >= 0,
            pb >= 0,
    ;
    assert((u * a) * (e * pb) <= (u * a) * (u * pa)) by (nonlinear_arith)
        requires
            e * pb <= u * pa,
            u > 0,
            a >= 0,
    ;
    assert((e1 * u) * (b * pb) == u * (e1 * (b * pb))) by (nonlinear_arith);
    assert((u * a) * (u * pa) == u * (u * (a * pa))) by (nonlinear_arith);
    let x = e1 * (b * pb);
    let y = u * (a * pa);
    assert(x <= y) by (nonlinear_arith)
        requires
            u * x <= u * y,
            u > 0,
    ;
}

/// The step from `k` to `k + 1` of the upper bound, with `w = u - 4 * k`.
proof fn lemma_upper_step(
    u: int,
    s: int,
    a: int,
    b: int,
    e: int,
    e1: int,
    pa: int,
    pb: int,
    w: int,
)
    requires
        u > 0,
        u <= s,
        4 < w <= u,
        a >= 0,
        b >= 0,
        e >= u,
        pa >= 0,
        pb >= 0,
        e1 * u + u >= e * s,
        u * a <= (s + 1) * b,
        pa * w <= e * pb,
    ensures
        (a * pa) * (w - 4) <= e1 * (b * pb),
{
    // both sides times u * w
    let bp = b * pb;
    assert(bp >= 0) by (nonlinear_arith)
        requires
            b >= 0,
            pb >= 0,
            bp == b * pb,
    ;
    assert((u * a) * (pa * w) <= ((s + 1) * b) * (e * pb)) by (nonlinear_arith)
        requires
            u * a <= (s + 1) * b,
            pa * w <= e * pb,
            u > 0,
            a >= 0,
            pa >= 0,
            w > 0,
    ;
    assert(((s + 1) * b) * (e * pb) == ((s + 1) * e) * bp) by (nonlinear_arith)
        requires
            bp == b * pb,
    ;
    let lhs = (u * a) * (pa * w);
    assert(lhs * (w - 4) <= (((s + 1) * e) * bp) * (w - 4)) by (nonlinear_arith)
        requires
            lhs <= ((s + 1) * e) * bp,
            w > 4,
    ;
    let lead = e * (4 * s + 4 - w) - u * w;
    assert(lead >= 0) by (nonlinear_arith)
        requires
            lead == e * (4 * s + 4 - w) - u * w,
            e >= u,
            u <= s,
            w <= u,
            u > 0,
            w > 0,
    ;
    let f = (s + 1) * e * (w - 4);
    let g = (e * s - u) * w;
    assert(f <= g) by (nonlinear_arith)
        requires
            f == (s + 1) * e * (w - 4),
            g == (e * s - u) * w,
            lead == e * (4 * s + 4 - w) - u * w,
            lead >= 0,
    ;
    assert((((s + 1) * e) * bp) * (w - 4) == f * bp) by (nonlinear_arith)
        requires
            f == (s + 1) * e * (w - 4),
    ;
    assert(f * bp <= g * bp) by (nonlinear_arith)
        requires
            f <= g,
            bp >= 0,
    ;
    assert(g <= (e1 * u) * w) by (nonlinear_arith)
        requires
            g == (e * s - u) * w,
            e1 * u + u >= e * s,
            w > 0,
    ;
    assert(g * bp <= ((e1 * u) * w) * bp) by (nonlinear_arith)
        requires
            g <= (e1 * u) * w,
            bp >= 0,
    ;
    let x = (a * pa) * (w - 4);
    let y = e1 * bp;
    let uw = u * w;
    assert(lhs * (w - 4) == uw * x) by (nonlinear_arith)
        requires
            lhs == (u * a) * (pa * w),
            x == (a * pa) * (w - 4),
            uw == u * w,
    ;
    assert(((e1 * u) * w) * bp == uw * y) by (nonlinear_arith)
        requires
            y == e1 * bp,
            uw == u * w,
    ;
    assert(x <= y) by (nonlinear_arith)
        requires
            uw * x <= uw * y,
            uw == u * w,
            u > 0,
            w > 0,
    ;
}

/// The fixed-point exponential is the real one, to a relative error of `4k` units:
/// `expo(k) / UNIT` is at most the `k`-th power of every partial sum from order 6
/// on, so at most `e^(k/512)`; and with `UNIT - 4k` in place of `UNIT` it is at
/// least as much as each of these powers, so at least `e^(k/512)`.
pub proof fn law_expo_is_exponential(k: nat, n: nat)
    requires
        n >= 6,
        k <= 0x1_0000_0000,
    ensures
        tables::expo(k) * power(sum_den(n), k) <= UNIT * power(sum_num(n), k),
        power(sum_num(n), k) * (UNIT - 4 * k) <= tables::expo(k) * power(sum_den(n), k),
    decreases k,
{
    let u = UNIT as int;
    let s = EXP_STEP as int;
    let a = sum_num(n) as int;
    let b = sum_den(n) as int;
    lemma_step_brackets(n);
    if k > 0 {
        let j = (k - 1) as nat;
        law_expo_is_exponential(j, n);
        tables::lemma_expo_grows(j, j);
        let e = tables::expo(j) as int;
        let e1 = tables::expo(k) as int;
        let pa = power(sum_num(n), j) as int;
        let pb = power(sum_den(n), j) as int;
        assert(e1 * u <= e * s && e1 * u + u >= e * s) by (nonlinear_arith)
            requires
                e1 == e * s / u,
                u > 0,
        ;
        assert(u * a <= (s + 1) * b) by (nonlinear_arith)
            requires
                u * (a + 1) <= (s + 1) * b,
                u > 0,
        ;
        lemma_lower_step(u, s, a, b, e, e1, pa, pb);
        lemma_upper_step(u, s, a, b, e, e1, pa, pb, u - 4 * j);
        assert(power(sum_num(n), k) == a * pa && power(sum_den(n), k) == b * pb);
        assert(u - 4 * j - 4 == UNIT - 4 * k);
    } else {
        assert(tables::expo(0) == UNIT);
        assert(power(sum_num(n), 0) == 1 && power(sum_den(n), 0) == 1);
    }
}

/// The stretch table holds 256 times the logarithm of the odds, rounded: for a
/// probability of at least one half, and `k` its stretched value, the odds are
/// below `e^((k + 1/2) / 256)`, and at least `e^((k - 1/2) / 256)` up to the error of
/// the fixed-point exponential. (The largest value also stands for larger odds.)
pub proof fn law_stretch_is_rounded_logarithm(p: nat, n: nat)
    requires
        2048 <= p < 4096,
        n >= 6,
    ensures
        ({
            let k = tables::stretch_of(p);
            let up = (2 * k + 1) as nat;
            let down = (2 * k - 1) as nat;
            &&& k < 2047 ==> p * power(sum_den(n), up) < (4096 - p) * power(sum_num(n), up)
            &&& k > 0 ==> (4096 - p) * (power(sum_num(n), down) * (UNIT - 4 * down)) <= p * (UNIT
                * power(sum_den(n), down))
        }),
{
    let k = tables::round_log(p, 0);
    let u = UNIT as int;
    let r = 4096 - p;
    tables::lemma_round_log_is_tight(p, 0);
    tables::lemma_round_log_range(p, 0);
    lemma_step_brackets(n);
    if k < 2047 {
        let up = 2 * k + 1;
        law_expo_is_exponential(up, n);
        lemma_power_positive(sum_den(n), up);
        let e = tables::expo(up) as int;
        let pa = power(sum_num(n), up) as int;
        let pb = power(sum_den(n), up) as int;
        assert(p * pb < r * pa) by (nonlinear_arith)
            requires
                e * r > p * u,
                e * pb <= u * pa,
                pb > 0,
                r > 0,
                u > 0,
        {
            assert((e * r) * pb > (p * u) * pb) by (nonlinear_arith)
                requires
                    e * r > p * u,
                    pb > 0,
            ;
            assert((e * pb) * r <= (u * pa) * r) by (nonlinear_arith)
                requires
                    e * pb <= u * pa,
                    r > 0,
            ;
            assert(u * (p * pb) < u * (r * pa)) by (nonlinear_arith)
                requires
                    (e * r) * pb > (p * u) * pb,
                    (e * pb) * r <= (u * pa) * r,
            ;
        }
    }
    if k > 0 {
        let down = (2 * k - 1) as nat;
        law_expo_is_exponential(down, n);
        assert(2 * ((k - 1) as nat) + 1 == down);
        let e = tables::expo(down) as int;
        let x = power(sum_num(n), down) * (UNIT - 4 * down);
        let pb = power(sum_den(n), down) as int;
        assert(r * x <= p * (u * pb)) by (nonlinear_arith)
            requires
                e * r <= p * u,
                x <= e * pb,
                r > 0,
                pb >= 0,
        {
            assert(r * x <= r * (e * pb)) by (nonlinear_arith)
                requires
                    x <= e * pb,
                    r > 0,
            ;
            assert((e * r) * pb <= (p * u) * pb) by (nonlinear_arith)
                requires
                    e * r <= p * u,
                    pb >= 0,
            ;
        }
    }
}

/// The squash table holds the nearest probability: within half a unit of
/// `4096 * e / (e + 1)`, for `e` the fixed-point exponential of `d / 256`. (The
/// largest probability also stands for larger ones.)
pub proof fn law_squash_is_nearest(d: nat)
    ensures
        ({
            let e = tables::expo(2 * d);
            let v = tables::squash_of(d as int);
            &&& (2 * v - 1) * (e + UNIT) <= 8192 * e
            &&& v < 4095 ==> 8192 * e < (2 * v + 1) * (e + UNIT)
        }),
{
    let u = UNIT as int;
    let e = tables::expo(2 * d) as int;
    let v = tables::squash_of(d as int);
    tables::lemma_expo_grows(2 * d, 2 * d);
    let q = (8192 * e + (e + u)) / (2 * (e + u));
    assert(q >= 2048 && (2 * q - 1) * (e + u) <= 8192 * e && 8192 * e < (2 * q + 1) * (e + u))
        by (nonlinear_arith)
        requires
            u > 0,
            e >= u,
            q == (8192 * e + (e + u)) / (2 * (e + u)),
    {
        let y = 2 * (e + u);
        assert(q * y <= 8192 * e + (e + u) < q * y + y);
        assert(q * y == 2 * q * (e + u));
        assert(2048 * y <= 8192 * e + (e + u));
        assert(q >= 2048);
        assert((2 * q - 1) * (e + u) == q * y - (e + u));
        assert((2 * q + 1) * (e + u) == q * y + (e + u));
    }
    if q > 4095 {
        assert((2 * v - 1) * (e + u) <= (2 * q - 1) * (e + u)) by (nonlinear_arith)
            requires
                v <= q,
                e + u >= 0,
        ;
    }
}

/// The exponential grows at least linearly.
proof fn lemma_expo_linear(k: nat, j: nat)
    requires
        j <= 64,
    ensures
        tables::expo(k) * (512 + j) <= tables::expo(k + j) * 512,
    decreases j,
{
    if j > 0 {
        let i = (j - 1) as nat;
        lemma_expo_linear(k, i);
        tables::lemma_expo_grows(k, k + i);
        let u = UNIT as int;
        let e0 = tables::expo(k) as int;
        let a = tables::expo(k + i) as int;
        let b = tables::expo(k + j) as int;
        assert((k + j - 1) as nat == k + i);
        assert(b * u + u > a * EXP_STEP) by (nonlinear_arith)
            requires
                b == a * EXP_STEP / u,
                u > 0,
        ;
        // the step is larger than 513 / 512 by more than what rounding takes away
        assert(512 * EXP_STEP >= 513 * u + 0x800_0000);
        assert(b * u * 512 + u * 512 > a * 513 * u + a * 0x800_0000) by (nonlinear_arith)
            requires
                b * u + u > a * EXP_STEP,
                512 * EXP_STEP >= 513 * u + 0x800_0000,
                a >= 0,
        ;
        assert(a * 0x800_0000 >= u * 512);
        assert(b * 512 > a * 513) by (nonlinear_arith)
            requires
                b * u * 512 > a * 513 * u,
                u > 0,
        ;
        assert(e0 * (512 + j) <= b * 512) by (nonlinear_arith)
            requires
                e0 * (512 + i) <= a * 512,
                b * 512 > a * 513,
                e0 >= 0,
                i >= 0,
                j == i + 1,
        ;
    }
}

/// Over 64 steps the exponential grows by at least an eighth.
proof fn lemma_expo_eighth(k: nat, m: nat)
    requires
        m == k + 64,
    ensures
        9 * tables::expo(k) <= 8 * tables::expo(m),
{
    lemma_expo_linear(k, 64);
    assert(tables::expo(k) * (512 + 64) == 576 * tables::expo(k)) by (nonlinear_arith);
}

/// Over 384 steps the exponential at least doubles.
proof fn lemma_expo_doubles(k: nat, m: nat)
    requires
        m == k + 384,
    ensures
        2 * tables::expo(k) <= tables::expo(m),
{
    lemma_expo_eighth(k, k + 64);
    lemma_expo_eighth(k + 64, k + 128);
    lemma_expo_eighth(k + 128, k + 192);
    lemma_expo_eighth(k + 192, k + 256);
    lemma_expo_eighth(k + 256, k + 320);
    lemma_expo_eighth(k + 320, m);
}

proof fn lemma_expo_at_the_end()
    ensures
        tables::expo(4094) >= 1170 * UNIT,
{
    assert(tables::expo(0) == UNIT);
    lemma_expo_doubles(0, 384);
    lemma_expo_doubles(384, 768);
    lemma_expo_doubles(768, 1152);
    lemma_expo_doubles(1152, 1536);
    lemma_expo_doubles(1536, 1920);
    lemma_expo_doubles(1920, 2304);
    lemma_expo_doubles(2304, 2688);
    lemma_expo_doubles(2688, 3072);
    lemma_expo_doubles(3072, 3456);
    lemma_expo_doubles(3456, 3840);
    lemma_expo_eighth(3840, 3904);
    lemma_expo_eighth(3904, 3968);
    lemma_expo_eighth(3968, 4032);
    tables::lemma_expo_grows(4032, 4094);
}

/// Squashing does not fall short: odds below the upper end of a step.
proof fn lemma_not_below(p: int, v: int, e: int)
    requires
        2048 <= p < 4096,
        v >= 0,
        e >= UNIT,
        p * UNIT * UNIT < e * EXP_STEP * (4096 - p),
        8192 * e < (2 * v + 1) * (e + UNIT),
    ensures
        p <= v + 2,
{
    if p > v + 2 {
        let u = UNIT as int;
        let s = EXP_STEP as int;
        let r = 4096 - p;
        assert((2 * v + 1) * (e + u) <= (2 * p - 5) * (e + u)) by (nonlinear_arith)
            requires
                2 * v + 1 <= 2 * p - 5,
                e + u >= 0,
        ;
        assert(e * (2 * r + 5) < (2 * p - 5) * u) by (nonlinear_arith)
            requires
                8192 * e < (2 * p - 5) * (e + u),
                r == 4096 - p,
        ;
        let x = s * r;
        assert((p * u * u) * (2 * r + 5) < (e * s * r) * (2 * r + 5)) by (nonlinear_arith)
            requires
                p * u * u < e * s * r,
                r > 0,
        ;
        assert((e * (2 * r + 5)) * x <= ((2 * p - 5) * u) * x) by (nonlinear_arith)
            requires
                e * (2 * r + 5) < (2 * p - 5) * u,
                x >= 0,
        {
        }
        assert((e * s * r) * (2 * r + 5) == (e * (2 * r + 5)) * x) by (nonlinear_arith)
            requires
                x == s * r,
        ;
        let lhs = p * u * (2 * r + 5);
        let rhs = (2 * p - 5) * x;
        assert(u * lhs < u * rhs) by (nonlinear_arith)
            requires
                (p * u * u) * (2 * r + 5) < ((2 * p - 5) * u) * x,
                lhs == p * u * (2 * r + 5),
                rhs == (2 * p - 5) * x,
        ;
        assert(lhs < rhs) by (nonlinear_arith)
            requires
                u * lhs < u * rhs,
                u > 0,
        ;
        let pr = p * r;
        assert(pr <= 4194304) by (nonlinear_arith)
            requires
                pr == p * (4096 - p),
        ;
        assert(lhs == 2 * pr * u + 5 * (p * u)) by (nonlinear_arith)
            requires
                lhs == p * u * (2 * r + 5),
                pr == p * r,
        ;
        assert(rhs == 2 * pr * s - 5 * (r * s)) by (nonlinear_arith)
            requires
                rhs == (2 * p - 5) * (s * r),
                pr == p * r,
        ;
        assert(2 * pr * s - 2 * pr * u == 2 * pr * 0x80_2005_5600) by (nonlinear_arith)
            requires
                s - u == 0x80_2005_5600,
        ;
        assert(p * u == p * 0x1_0000_0000_0000 && r * s == r * 0x1_0080_2005_5600);
    }
}

/// Squashing does not go too far: odds at least the lower end of a step.
proof fn lemma_not_above(p: int, v: int, e: int)
    requires
        2048 <= p < 4096,
        e >= UNIT,
        e * (4096 - p) <= EXP_STEP * p,
        (2 * v - 1) * (e + UNIT) <= 8192 * e,
    ensures
        v <= p + 2,
{
    if v > p + 2 {
        let u = UNIT as int;
        let s = EXP_STEP as int;
        let r = 4096 - p;
        assert((2 * p + 5) * (e + u) <= (2 * v - 1) * (e + u)) by (nonlinear_arith)
            requires
                2 * p + 5 <= 2 * v - 1,
                e + u >= 0,
        ;
        assert((2 * p + 5) * u <= e * (2 * r - 5)) by (nonlinear_arith)
            requires
                (2 * p + 5) * (e + u) <= 8192 * e,
                r == 4096 - p,
        ;
        assert(2 * r - 5 >= 0) by (nonlinear_arith)
            requires
                (2 * p + 5) * u <= e * (2 * r - 5),
                p >= 0,
                u > 0,
                e > 0,
        ;
        let lhs = ((2 * p + 5) * u) * r;
        let rhs = (s * p) * (2 * r - 5);
        assert(lhs <= (e * (2 * r - 5)) * r) by (nonlinear_arith)
            requires
                (2 * p + 5) * u <= e * (2 * r - 5),
                r > 0,
                lhs == ((2 * p + 5) * u) * r,
        ;
        assert((e * (2 * r - 5)) * r == (e * r) * (2 * r - 5)) by (nonlinear_arith);
        assert((e * r) * (2 * r - 5) <= rhs) by (nonlinear_arith)
            requires
                e * r <= s * p,
                2 * r - 5 >= 0,
                rhs == (s * p) * (2 * r - 5),
        ;
        let pr = p * r;
        assert(pr <= 4194304) by (nonlinear_arith)
            requires
                pr == p * (4096 - p),
        ;
        assert(lhs == 2 * pr * u + 5 * (r * u)) by (nonlinear_arith)
            requires
                lhs == ((2 * p + 5) * u) * r,
                pr == p * r,
        ;
        assert(rhs == 2 * pr * s - 5 * (p * s)) by (nonlinear_arith)
            requires
                rhs == (s * p) * (2 * r - 5),
                pr == p * r,
        ;
        assert(2 * pr * s - 2 * pr * u == 2 * pr * 0x80_2005_5600) by (nonlinear_arith)
            requires
                s - u == 0x80_2005_5600,
        ;
        assert(r * u == r * 0x1_0000_0000_0000 && p * s == p * 0x1_0080_2005_5600);
    }
}

proof fn lemma_squash_undoes_upper_half(p: nat)
    requires
        2048 <= p <= 4095,
    ensures
        p - 2 <= tables::squash_of(tables::stretch_of(p)) <= p + 2,
{
    let k = tables::round_log(p, 0);
    let e = tables::expo(2 * k) as int;
    let v = tables::squash_of(k as int);
    let u = UNIT as int;
    let s = EXP_STEP as int;
    let r = 4096 - p;
    tables::lemma_round_log_range(p, 0);
    tables::lemma_round_log_is_tight(p, 0);
    tables::lemma_expo_grows(2 * k, 2 * k);
    tables::lemma_squash_range(k as int);
    law_squash_is_nearest(k);
    if v < 4095 && k < 2047 {
        let e1 = tables::expo(2 * k + 1) as int;
        assert(e1 * u <= e * s) by (nonlinear_arith)
            requires
                e1 == e * s / u,
                u > 0,
        ;
        assert(p * u * u < e * s * r) by (nonlinear_arith)
            requires
                e1 * r > p * u,
                e1 * u <= e * s,
                r > 0,
                u > 0,
        {
            assert((e1 * r) * u > (p * u) * u) by (nonlinear_arith)
                requires
                    e1 * r > p * u,
                    u > 0,
            ;
            assert((e1 * u) * r <= (e * s) * r) by (nonlinear_arith)
                requires
                    e1 * u <= e * s,
                    r > 0,
            ;
        }
        lemma_not_below(p as int, v, e);
    } else if k == 2047 {
        lemma_expo_at_the_end();
        assert(v >= 4093) by {
            if v < 4093 {
                assert((2 * v + 1) * (e + u) <= 8185 * (e + u)) by (nonlinear_arith)
                    requires
                        2 * v + 1 <= 8185,
                        e + u >= 0,
                ;
            }
        }
    }
    if k > 0 {
        let e0 = tables::expo((2 * k - 1) as nat) as int;
        assert(2 * ((k - 1) as nat) + 1 == 2 * k - 1);
        assert(e * u <= e0 * s) by (nonlinear_arith)
            requires
                e == e0 * s / u,
                u > 0,
        ;
        assert(e * r <= s * p) by (nonlinear_arith)
            requires
                e0 * r <= p * u,
                e * u <= e0 * s,
                r > 0,
                s > 0,
                u > 0,
        {
            assert((e * u) * r <= (e0 * s) * r) by (nonlinear_arith)
                requires
                    e * u <= e0 * s,
                    r > 0,
            ;
            assert((e0 * r) * s <= (p * u) * s) by (nonlinear_arith)
                requires
                    e0 * r <= p * u,
                    s > 0,
            ;
            assert(u * (e * r) <= u * (s * p)) by (nonlinear_arith)
                requires
                    (e * u) * r <= (e0 * s) * r,
                    (e0 * r) * s <= (p * u) * s,
            ;
        }
        lemma_not_above(p as int, v, e);
    } else {
        tables::law_squash_is_odd(0);
    }
}

/// Squashing nearly undoes stretching: every probability comes back to within two
/// units.
pub proof fn law_squash_undoes_stretch(p: nat)
    requires
        1 <= p <= 4095,
    ensures
        p - 2 <= tables::squash_of(tables::stretch_of(p)) <= p + 2,
{
    if p >= 2048 {
        lemma_squash_undoes_upper_half(p);
    } else {
        let q = (4096 - p) as nat;
        lemma_squash_undoes_upper_half(q);
        tables::law_stretch_is_odd(q);
        tables::law_squash_is_odd(tables::stretch_of(q));
    }
}

proof fn lemma_power_positive(b: nat, k: nat)
    requires
        b > 0,
    ensures
        power(b, k) > 0,
    decreases k,
{
    if k > 0 {
        lemma_power_positive(b, (k - 1) as nat);
        let x = power(b, (k - 1) as nat);
        assert(b * x > 0) by (nonlinear_arith)
            requires
                b > 0,
                x > 0,
        ;
    }
}

} // verus!
