//! Context hashes and field identities.

use vstd::prelude::*;

verus! {

/// Odd constant that spreads small integers over 32 bits.
pub const SPREAD: u32 = 0x9e37_79b1;
pub const SPREAD_DEPTH: u32 = 0x85eb_ca6b;
pub const HASH_BASIS: u32 = 0x811c_9dc5;
pub const HASH_PRIME: u32 = 0x0100_0193;
pub const CSV_TAG: u32 = 0xC5C5_3737;
pub const SQL_TAG: u32 = 0x5917_9179;

/// One step of the byte hash.
pub open spec fn hash_step(h: u32, c: u8) -> u32 {
    (h ^ (c as u32)).wrapping_mul(HASH_PRIME)
}

/// The byte hash of `s`, started from `h`.
pub open spec fn hash_bytes(h: u32, s: Seq<u8>) -> u32
    decreases s.len(),
{
    if s.len() == 0 { h } else { hash_step(hash_bytes(h, s.drop_last()), s.last()) }
}

/// The hash of an order-`k` context; the order enters the starting value.
pub open spec fn hash_context(s: Seq<u8>) -> u32 {
    hash_bytes(HASH_BASIS ^ (s.len() as u32).wrapping_mul(SPREAD), s)
}

pub open spec fn csv_field_id(col: u32) -> u32 {
    col.wrapping_mul(SPREAD) ^ CSV_TAG
}

pub open spec fn sql_field_id(col: u32, depth: u32) -> u32 {
    col.wrapping_mul(SPREAD) ^ depth.wrapping_mul(SPREAD_DEPTH) ^ SQL_TAG
}

/// Field identity for a CSV column (kept distinct from JSON field hashes).
pub fn csv_field(col: u32) -> (f: u32)
    ensures
        f == csv_field_id(col),
{
    col.wrapping_mul(SPREAD) ^ CSV_TAG
}

/// Field identity for a SQL tuple column at a given paren depth.
pub fn sql_field(col: u32, depth: u32) -> (f: u32)
    ensures
        f == sql_field_id(col, depth),
{
    col.wrapping_mul(SPREAD) ^ depth.wrapping_mul(SPREAD_DEPTH) ^ SQL_TAG
}

pub fn hstep(h: u32, c: u8) -> (r: u32)
    ensures
        r == hash_step(h, c),
{
    (h ^ c as u32).wrapping_mul(HASH_PRIME)
}

/// Hash of the `k` bytes of `buf` that end at `n`.
pub fn hash_n(buf: &[u8], n: usize, k: usize) -> (h: u32)
    requires
        k <= n,
        k > 0 ==> n <= buf@.len(),
    ensures
        k == 0 ==> h == hash_context(Seq::empty()),
        k > 0 ==> h == hash_context(buf@.subrange(n - k, n as int)),
{
    let ghost ctx = if k > 0 { buf@.subrange(n - k, n as int) } else { Seq::empty() };
    let ghost basis = HASH_BASIS ^ (k as u32).wrapping_mul(SPREAD);
    let mut h: u32 = HASH_BASIS ^ (k as u32).wrapping_mul(SPREAD);
    let mut j: usize = n - k;
    while j < n
        invariant
            k <= n,
            k > 0 ==> n <= buf@.len(),
            n - k <= j <= n,
            ctx.len() == k,
            k > 0 ==> ctx == buf@.subrange(n - k, n as int),
            h == hash_bytes(basis, ctx.take(j - (n - k))),
        decreases n - j,
    {
        assert(ctx.take(j + 1 - (n - k)).drop_last() =~= ctx.take(j - (n - k)));
        h = hstep(h, buf[j]);
        j = j + 1;
    }
    assert(ctx.take(k as int) =~= ctx);
    h
}

/// Multiplying by a number that has an inverse loses nothing.
pub proof fn lemma_odd_factor_injective(a: u32, b: u32, c: u32, inv: int, k: int)
    requires
        a.wrapping_mul(c) == b.wrapping_mul(c),
        c * inv == k * 0x1_0000_0000 + 1,
    ensures
        a == b,
{
    let m = 0x1_0000_0000int;
    let f = c as int;
    let q1 = (a * f) / m;
    let q2 = (b * f) / m;
    let d = a - b;
    let q = q1 - q2;
    assert(a * f == q1 * m + (a * f) % m && b * f == q2 * m + (b * f) % m);
    assert(d * f == q * m) by (nonlinear_arith)
        requires
            a * f == q1 * m + (a * f) % m,
            b * f == q2 * m + (b * f) % m,
            (a * f) % m == (b * f) % m,
            d == a - b,
            q == q1 - q2,
    ;
    assert(d == m * (q * inv - d * k)) by (nonlinear_arith)
        requires
            d * f == q * m,
            f * inv == k * m + 1,
    ;
    let z = q * inv - d * k;
    assert(z == 0) by (nonlinear_arith)
        requires
            d == m * z,
            -0xffff_ffff <= d <= 0xffff_ffff,
            m == 0x1_0000_0000,
    ;
}

/// Columns are told apart: no two CSV columns share a field identity, and no two
/// SQL columns at the same depth do.
pub proof fn law_columns_are_told_apart(a: u32, b: u32, depth: u32)
    requires
        a != b,
    ensures
        csv_field_id(a) != csv_field_id(b),
        sql_field_id(a, depth) != sql_field_id(b, depth),
{
    let x = a.wrapping_mul(SPREAD);
    let y = b.wrapping_mul(SPREAD);
    let z = depth.wrapping_mul(SPREAD_DEPTH);
    if x == y {
        lemma_odd_factor_injective(a, b, SPREAD, 0x0e8b_2f51, 0x8fd0e05);
    }
    assert(x ^ CSV_TAG != y ^ CSV_TAG) by (bit_vector)
        requires
            x != y,
    ;
    assert(x ^ z ^ SQL_TAG != y ^ z ^ SQL_TAG) by (bit_vector)
        requires
            x != y,
    ;
}

/// Depths are told apart: no two depths of one SQL column share a field identity.
pub proof fn law_depths_are_told_apart(col: u32, a: u32, b: u32)
    requires
        a != b,
    ensures
        sql_field_id(col, a) != sql_field_id(col, b),
{
    let x = a.wrapping_mul(SPREAD_DEPTH);
    let y = b.wrapping_mul(SPREAD_DEPTH);
    let z = col.wrapping_mul(SPREAD);
    if x == y {
        lemma_odd_factor_injective(a, b, SPREAD_DEPTH, 0xa5cb_9243, 0x56bb77f4);
    }
    assert(z ^ x ^ SQL_TAG != z ^ y ^ SQL_TAG) by (bit_vector)
        requires
            x != y,
    ;
}

} // verus!
