//! Bit-level building blocks shared by the board geometry, the occupancy
//! enumerator and the hash search: single-bit boards, subset reasoning on
//! 64-bit boards, and a population count.

use vstd::prelude::*;

verus! {

/// The board with exactly the bit at index `i` set (for `0 <= i < 64`).
pub open spec fn bit64(i: int) -> u64 {
    1u64 << (i as u64)
}

/// Bit `i` is set in `b`.
pub open spec fn has_bit(b: u64, i: int) -> bool {
    b & bit64(i) != 0
}

/// Every bit set in `a` is also set in `b`.
pub open spec fn subset64(a: u64, b: u64) -> bool {
    a & b == a
}

/// Number of set bits.
pub open spec fn popcount(x: u64) -> nat
    decreases x,
{
    if x == 0 {
        0
    } else {
        popcount(x / 2) + (x % 2) as nat
    }
}

pub proof fn lemma_bit_nonzero(i: u64)
    by (bit_vector)
    requires
        i < 64,
    ensures
        1u64 << i != 0,
{
}

pub proof fn lemma_bits_distinct(i: u64, j: u64)
    by (bit_vector)
    requires
        i < 64,
        j < 64,
        i != j,
    ensures
        (1u64 << i) & (1u64 << j) == 0,
{
}

pub proof fn lemma_or_zero(a: u64)
    by (bit_vector)
    ensures
        0u64 | a == a,
        a | 0u64 == a,
        a & a == a,
        0u64 & a == 0,
{
}

pub proof fn lemma_or_assoc(a: u64, b: u64, c: u64)
    by (bit_vector)
    ensures
        a | (b | c) == (a | b) | c,
        a | b == b | a,
{
}

/// Unions preserve the subset relation.
pub proof fn lemma_or_subset(a: u64, b: u64, c: u64, d: u64)
    by (bit_vector)
    requires
        a & b == a,
        c & d == c,
    ensures
        (a | c) & (b | d) == a | c,
{
}

/// A union contains both of its operands.
pub proof fn lemma_or_contains(a: u64, b: u64, m: u64)
    by (bit_vector)
    requires
        a & m != 0 || b & m != 0,
    ensures
        (a | b) & m != 0,
{
}

/// If both operands avoid a bit pattern, so does their union.
pub proof fn lemma_or_avoids(a: u64, b: u64, m: u64)
    by (bit_vector)
    requires
        a & m == 0,
        b & m == 0,
    ensures
        (a | b) & m == 0,
{
}

/// A four-way union contains any bit pattern one of its operands contains.
pub proof fn lemma_or4_contains(a: u64, b: u64, c: u64, d: u64, m: u64)
    by (bit_vector)
    requires
        a & m != 0 || b & m != 0 || c & m != 0 || d & m != 0,
    ensures
        (a | b | c | d) & m != 0,
{
}

/// A four-way union avoids any bit pattern all of its operands avoid.
pub proof fn lemma_or4_avoids(a: u64, b: u64, c: u64, d: u64, m: u64)
    by (bit_vector)
    requires
        a & m == 0,
        b & m == 0,
        c & m == 0,
        d & m == 0,
    ensures
        (a | b | c | d) & m == 0,
{
}

/// Four-way unions preserve the subset relation.
pub proof fn lemma_or4_subset(a1: u64, b1: u64, a2: u64, b2: u64, a3: u64, b3: u64, a4: u64, b4: u64)
    by (bit_vector)
    requires
        a1 & b1 == a1,
        a2 & b2 == a2,
        a3 & b3 == a3,
        a4 & b4 == a4,
    ensures
        (a1 | a2 | a3 | a4) & (b1 | b2 | b3 | b4) == (a1 | a2 | a3 | a4),
{
}

/// A subset of a board that avoids `m` avoids `m` as well.
pub proof fn lemma_subset_avoids(a: u64, b: u64, m: u64)
    by (bit_vector)
    requires
        a & b == a,
        b & m == 0,
    ensures
        a & m == 0,
{
}

/// The subset relation is transitive.
pub proof fn lemma_subset_trans(a: u64, b: u64, c: u64)
    by (bit_vector)
    requires
        a & b == a,
        b & c == b,
    ensures
        a & c == a,
{
}

/// The union of two subsets of `m` is a subset of `m`.
pub proof fn lemma_or_subset_same(a: u64, b: u64, m: u64)
    by (bit_vector)
    requires
        a & m == a,
        b & m == b,
    ensures
        (a | b) & m == a | b,
{
}

/// Facts about the lowest set bit `t` of a nonzero board `m`: the bit is
/// in `m`, and `m & (m - 1)` is `m` with exactly that bit cleared.
pub proof fn lemma_lowest_bit(m: u64, t: u64)
    by (bit_vector)
    requires
        m != 0,
        t < 64,
        (m >> t) & 1u64 == 1u64,
        m << ((64 - t) as u64) == 0,
    ensures
        (1u64 << t) & m == 1u64 << t,
        (1u64 << t) & (m & ((m - 1) as u64)) == 0,
        (m & ((m - 1) as u64)) & (1u64 << t) == 0,
        (m & ((m - 1) as u64)) & m == m & ((m - 1) as u64),
{
}

/// Clearing the lowest set bit gives a strictly smaller value.
pub proof fn lemma_drop_lowest_lt(m: u64)
    by (bit_vector)
    requires
        m != 0,
    ensures
        m & ((m - 1) as u64) < m,
{
}

/// The lowest bit of a value is zero or one.
pub proof fn lemma_low_bit_cases(x: u64)
    by (bit_vector)
    ensures
        x & 1 == 0 || x & 1 == 1,
{
}

/// Numbers that agree on their lowest bit and differ somewhere differ in
/// their upper bits.
pub proof fn lemma_half_distinct(a: u64, b: u64)
    by (bit_vector)
    requires
        a & 1 == b & 1,
        a != b,
    ensures
        a >> 1u64 != b >> 1u64,
{
}

/// Oring one bit pattern outside `m` onto two distinct subsets of `m`
/// keeps them distinct.
pub proof fn lemma_or_cancel(b: u64, r1: u64, r2: u64, m: u64)
    by (bit_vector)
    requires
        r1 & m == r1,
        r2 & m == r2,
        b & m == 0,
        r1 != r2,
    ensures
        (b | r1) != (b | r2),
{
}

/// Dropping the lowest set bit lowers the population count by one.
pub proof fn lemma_popcount_drop_lowest(m: u64)
    requires
        m != 0,
    ensures
        popcount(m & ((m - 1) as u64)) == (popcount(m) - 1) as nat,
        popcount(m) >= 1,
    decreases m,
{
    if m & 1 == 1 {
        assert(m & ((m - 1) as u64) == (m - 1) as u64 && m % 2 == 1) by (bit_vector)
            requires
                m & 1 == 1,
        ;
        if m == 1 {
        } else {
            assert(popcount(m) == popcount(m / 2) + 1);
            assert(((m - 1) as u64) / 2 == m / 2 && ((m - 1) as u64) % 2 == 0);
        }
    } else {
        let h = m / 2;
        assert(m % 2 == 0 && m / 2 != 0 && m & ((m - 1) as u64) == 2 * ((m / 2) & (((m / 2)
            - 1) as u64)) && (m / 2) & (((m / 2) - 1) as u64) < 0x8000000000000000u64)
            by (bit_vector)
            requires
                m & 1 != 1,
                m != 0,
        ;
        let x = h & ((h - 1) as u64);
        lemma_popcount_drop_lowest(h);
        assert(popcount(m) == popcount(h));
        let d = m & ((m - 1) as u64);
        assert(d == 2 * x);
        if x == 0 {
            assert(popcount(d) == 0);
        } else {
            assert(d != 0);
            assert(d / 2 == x && d % 2 == 0);
            assert(popcount(d) == popcount(x));
        }
    }
}

/// A union has at most as many set bits as its operands together.
pub proof fn lemma_popcount_or_le(x: u64, y: u64)
    ensures
        popcount(x | y) <= popcount(x) + popcount(y),
    decreases x,
{
    if x == 0 {
        assert(0u64 | y == y) by (bit_vector);
    } else {
        assert((x | y) / 2 == (x / 2) | (y / 2) && (x | y) % 2 <= x % 2 + y % 2 && (x | y) != 0)
            by (bit_vector)
            requires
                x != 0,
        ;
        lemma_popcount_or_le(x / 2, y / 2);
        assert(popcount(x | y) == popcount((x / 2) | (y / 2)) + ((x | y) % 2) as nat);
        if y == 0 {
        } else {
            assert(popcount(y) == popcount(y / 2) + (y % 2) as nat);
        }
    }
}

/// A single-bit board has exactly one set bit.
pub proof fn lemma_popcount_single(t: u64)
    requires
        t < 64,
    ensures
        popcount(1u64 << t) == 1,
    decreases t,
{
    if t == 0 {
        assert(1u64 << 0u64 == 1) by (bit_vector);
        assert(popcount(1u64) == popcount(0u64) + 1);
    } else {
        assert((1u64 << t) / 2 == 1u64 << ((t - 1) as u64) && (1u64 << t) % 2 == 0 && (1u64 << t)
            != 0) by (bit_vector)
            requires
                0 < t < 64,
        ;
        lemma_popcount_single((t - 1) as u64);
    }
}

/// Values below `2^n` have at most `n` set bits.
pub proof fn lemma_popcount_le(x: u64, n: nat)
    requires
        x < vstd::arithmetic::power2::pow2(n),
    ensures
        popcount(x) <= n,
    decreases n,
{
    if n == 0 {
        assert(vstd::arithmetic::power2::pow2(0) == 1) by {
            vstd::arithmetic::power2::lemma2_to64();
        }
    } else if x == 0 {
    } else {
        vstd::arithmetic::power2::lemma_pow2_unfold(n);
        lemma_popcount_le(x / 2, (n - 1) as nat);
    }
}

/// A 64-bit value has at most 64 set bits.
pub proof fn lemma_popcount_le_64(x: u64)
    ensures
        popcount(x) <= 64,
{
    vstd::arithmetic::power2::lemma2_to64();
    vstd::arithmetic::power2::lemma2_to64_rest();
    lemma_popcount_le(x, 64);
}

} // verus!
