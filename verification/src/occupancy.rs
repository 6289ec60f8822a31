//! Occupancy enumeration: a bijection between integers in
//! `[0, 2^popcount(mask))` and the subsets of a mask's set bits, used to
//! walk every blocker configuration relevant to a cell.

use vstd::prelude::*;
use vstd::arithmetic::power2::pow2;
use crate::bits::popcount;
use crate::bits::subset64;
use crate::bits::lemma_or_zero;
use crate::bits::lemma_or_assoc;
use crate::bits::lemma_or_contains;
use crate::bits::lemma_or_subset_same;
use crate::bits::lemma_subset_trans;
use crate::bits::lemma_subset_avoids;
use crate::bits::lemma_lowest_bit;
use crate::bits::lemma_drop_lowest_lt;
use crate::bits::lemma_half_distinct;
use crate::bits::lemma_or_cancel;
use crate::bits::lemma_popcount_drop_lowest;
use crate::bits::lemma_popcount_le_64;

verus! {

/// `m` with its lowest set bit cleared.
pub open spec fn drop_lowest(m: u64) -> u64 {
    m & ((m - 1) as u64)
}

/// The subset of `mask` selected by the low `bits` bits of `index`: bit
/// `k` of `index` picks the `k`-th lowest set bit of `mask`.
pub open spec fn spread(index: u64, bits: nat, mask: u64) -> u64
    decreases bits,
{
    if bits == 0 {
        0u64
    } else {
        let rest = spread(index >> 1u64, (bits - 1) as nat, drop_lowest(mask));
        if index & 1 != 0 {
            (1u64 << (vstd::std_specs::bits::u64_trailing_zeros(mask) as u64)) | rest
        } else {
            rest
        }
    }
}

/// Position of the lowest set bit of `mask`, which is also cleared.
pub fn pop_1st_bit(mask: &mut u64) -> (j: u32)
    requires
        *old(mask) != 0,
    ensures
        j == vstd::std_specs::bits::u64_trailing_zeros(*old(mask)),
        j < 64,
        *final(mask) == drop_lowest(*old(mask)),
{
    let j = mask.trailing_zeros();
    proof {
        vstd::std_specs::bits::axiom_u64_trailing_zeros(*mask);
    }
    *mask = *mask & (*mask - 1);
    j
}

/// Number of set bits of `x`.
pub fn popcount64(x: u64) -> (count: u32)
    ensures
        count == popcount(x),
{
    let mut v: u64 = x;
    let mut count: u32 = 0;
    while v != 0
        invariant
            count + popcount(v) == popcount(x),
        decreases v,
    {
        proof {
            lemma_popcount_drop_lowest(v);
            lemma_drop_lowest_lt(v);
            lemma_popcount_le_64(x);
        }
        count = count + 1;
        v = v & (v - 1);
    }
    count
}

/// Expands `index` to the subset of `mask` selected by its low `bits`
/// bits. With `bits` equal to the popcount of `mask`, indices in
/// `[0, 2^bits)` enumerate every subset of `mask` exactly once.
pub fn index_to_u64(index: usize, bits: u32, mask: u64) -> (result: u64)
    requires
        bits <= popcount(mask),
    ensures
        result == spread(index as u64, bits as nat, mask),
{
    let mut idx: u64 = index as u64;
    let mut m: u64 = mask;
    let mut result: u64 = 0;
    let mut i: u32 = 0;
    proof {
        lemma_or_zero(spread(index as u64, bits as nat, mask));
    }
    while i < bits
        invariant
            i <= bits,
            bits <= popcount(mask),
            popcount(m) == popcount(mask) - i,
            spread(index as u64, bits as nat, mask) == result | spread(
                idx,
                (bits - i) as nat,
                m,
            ),
        decreases bits - i,
    {
        proof {
            if m == 0 {
                assert(popcount(0u64) == 0);
            }
        }
        let ghost m0: u64 = m;
        let ghost idx0: u64 = idx;
        let ghost res0: u64 = result;
        let j = pop_1st_bit(&mut m);
        proof {
            lemma_popcount_drop_lowest(m0);
        }
        let selected: bool = idx & 1 != 0;
        if selected {
            result = result | (1u64 << (j as u64));
        }
        idx = idx >> 1u64;
        i = i + 1;
        proof {
            let rest = spread(idx, (bits - i) as nat, m);
            if idx0 & 1 != 0 {
                assert(spread(idx0, (bits - i + 1) as nat, m0) == (1u64 << (j as u64)) | rest);
                lemma_or_assoc(res0, 1u64 << (j as u64), rest);
            } else {
                assert(spread(idx0, (bits - i + 1) as nat, m0) == rest);
            }
        }
    }
    proof {
        assert(spread(idx, 0, m) == 0u64);
        lemma_or_zero(result);
    }
    result
}

/// Every enumerated occupancy is a subset of the mask.
pub proof fn lemma_spread_subset(index: u64, bits: nat, mask: u64)
    requires
        bits <= popcount(mask),
    ensures
        subset64(spread(index, bits, mask), mask),
    decreases bits,
{
    if bits == 0 {
        lemma_or_zero(mask);
    } else {
        assert(mask != 0) by {
            if mask == 0 {
                assert(popcount(0u64) == 0);
            }
        }
        vstd::std_specs::bits::axiom_u64_trailing_zeros(mask);
        let t = vstd::std_specs::bits::u64_trailing_zeros(mask) as u64;
        lemma_lowest_bit(mask, t);
        lemma_popcount_drop_lowest(mask);
        lemma_spread_subset(index >> 1u64, (bits - 1) as nat, drop_lowest(mask));
        let rest = spread(index >> 1u64, (bits - 1) as nat, drop_lowest(mask));
        lemma_subset_trans(rest, drop_lowest(mask), mask);
        if index & 1 != 0 {
            lemma_or_subset_same(1u64 << t, rest, mask);
        }
    }
}

/// Distinct indices below `2^bits` select distinct subsets of the mask.
pub proof fn lemma_spread_injective(i1: u64, i2: u64, bits: nat, mask: u64)
    requires
        bits <= popcount(mask),
        i1 < pow2(bits),
        i2 < pow2(bits),
        i1 != i2,
    ensures
        spread(i1, bits, mask) != spread(i2, bits, mask),
    decreases bits,
{
    vstd::arithmetic::power2::lemma2_to64();
    if bits == 0 {
        assert(false);
    } else {
        assert(mask != 0) by {
            if mask == 0 {
                assert(popcount(0u64) == 0);
            }
        }
        vstd::std_specs::bits::axiom_u64_trailing_zeros(mask);
        let t = vstd::std_specs::bits::u64_trailing_zeros(mask) as u64;
        lemma_lowest_bit(mask, t);
        lemma_popcount_drop_lowest(mask);
        let b = 1u64 << t;
        let mp = drop_lowest(mask);
        let r1 = spread(i1 >> 1u64, (bits - 1) as nat, mp);
        let r2 = spread(i2 >> 1u64, (bits - 1) as nat, mp);
        lemma_spread_subset(i1 >> 1u64, (bits - 1) as nat, mp);
        lemma_spread_subset(i2 >> 1u64, (bits - 1) as nat, mp);
        crate::bits::lemma_low_bit_cases(i1);
        crate::bits::lemma_low_bit_cases(i2);
        if i1 & 1 != 0 {
            assert(spread(i1, bits, mask) == b | r1);
        } else {
            assert(spread(i1, bits, mask) == r1);
        }
        if i2 & 1 != 0 {
            assert(spread(i2, bits, mask) == b | r2);
        } else {
            assert(spread(i2, bits, mask) == r2);
        }
        if i1 & 1 != i2 & 1 {
            lemma_subset_avoids(r1, mp, b);
            lemma_subset_avoids(r2, mp, b);
            crate::bits::lemma_bit_nonzero(t);
            lemma_or_zero(b);
            if i1 & 1 != 0 {
                lemma_or_contains(b, r1, b);
            } else {
                lemma_or_contains(b, r2, b);
            }
        } else {
            lemma_half_distinct(i1, i2);
            assert(i1 >> 1u64 == i1 / 2 && i2 >> 1u64 == i2 / 2) by (bit_vector);
            assert(i1 / 2 < pow2((bits - 1) as nat) && i2 / 2 < pow2((bits - 1) as nat)) by {
                vstd::arithmetic::power2::lemma_pow2_unfold(bits);
            }
            lemma_spread_injective(i1 >> 1u64, i2 >> 1u64, (bits - 1) as nat, mp);
            if i1 & 1 != 0 {
                lemma_or_cancel(b, r1, r2, mp);
            }
        }
    }
}

/// The occupancy enumeration is a bijection onto the subsets of `mask`:
/// distinct indices below `2^popcount(mask)` give distinct boards, each a
/// subset of `mask`.
pub proof fn lemma_enumeration_bijective(i1: u64, i2: u64, mask: u64)
    requires
        i1 < pow2(popcount(mask)),
        i2 < pow2(popcount(mask)),
        i1 != i2,
    ensures
        subset64(spread(i1, popcount(mask), mask), mask),
        spread(i1, popcount(mask), mask) != spread(i2, popcount(mask), mask),
{
    lemma_spread_subset(i1, popcount(mask), mask);
    lemma_spread_injective(i1, i2, popcount(mask), mask);
}

} // verus!
