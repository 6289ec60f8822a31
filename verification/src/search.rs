//! Magic candidate search: samples 64-bit multipliers and checks, over
//! every occupancy variation of a cell, that the multiplicative hash is
//! collision-free (two variations with different attack sets never share
//! a hash slot).

use vstd::prelude::*;
use vstd::arithmetic::power2::pow2;
use vstd::arithmetic::power2::lemma2_to64;
use crate::bits::popcount;
use crate::geometry::PieceFamily;
use crate::geometry::mask_spec;
use crate::geometry::attack_set_spec;
use crate::geometry::mask;
use crate::geometry::attacks;
use crate::geometry::lemma_attack_nonzero;
use crate::geometry::lemma_mask_popcount_le_12;
use crate::occupancy::spread;
use crate::occupancy::index_to_u64;
use crate::occupancy::popcount64;

verus! {

/// The multiplicative hash: the top `bits` bits of the wrapping product
/// of the key and the multiplier.
pub open spec fn hash_of(key: u64, magic: u64, bits: u32) -> u64 {
    key.wrapping_mul(magic) >> ((64 - bits) as u64)
}

/// The top `bits` bits of a 64-bit product stay below `2^bits`.
pub(crate) proof fn lemma_hash_bound(x: u64, bits: u32)
    by (bit_vector)
    requires
        1 <= bits <= 31,
    ensures
        x >> ((64 - bits) as u64) < 1u64 << (bits as u64),
{
}

/// Hash slot of `key` under `magic`, using the top `shift` bits of the
/// wrapping product.
pub fn get_offset(key: u64, magic: u64, shift: u32) -> (offset: usize)
    requires
        1 <= shift <= 31,
    ensures
        offset == hash_of(key, magic, shift),
        offset < pow2(shift as nat),
{
    proof {
        lemma2_to64();
        lemma_hash_bound(key.wrapping_mul(magic), shift);
        vstd::bits::lemma_u64_shl_is_mul(1u64, shift as u64);
    }
    let product: u64 = key.wrapping_mul(magic);
    (product >> ((64 - shift) as u64)) as usize
}

/// Hash slot under the fixed 12-bit table layout.
pub fn get_fixed_offset(key: u64, magic: u64) -> (offset: usize)
    ensures
        offset == hash_of(key, magic, 12),
        offset < pow2(12),
{
    get_offset(key, magic, 12)
}

/// Number of occupancy variations of a cell and family.
pub open spec fn variations(sq: int, family: PieceFamily) -> int {
    pow2(popcount(mask_spec(sq, family))) as int
}

/// The `i`-th occupancy variation: the subset of the mask selected by `i`.
pub open spec fn occ_of(sq: int, family: PieceFamily, i: int) -> u64 {
    spread(i as u64, popcount(mask_spec(sq, family)), mask_spec(sq, family))
}

/// The `i`-th hash key: the occupancy variation with every cell outside
/// the mask treated as occupied, so hashing is defined over the whole
/// 64-bit key space.
pub open spec fn key_of(sq: int, family: PieceFamily, i: int) -> u64 {
    occ_of(sq, family, i) | !mask_spec(sq, family)
}

/// Attack set of the `i`-th occupancy variation.
pub open spec fn att_of(sq: int, family: PieceFamily, i: int) -> u64 {
    attack_set_spec(sq, family, occ_of(sq, family, i))
}

/// A multiplier is collision-free for a cell and family at `bits` table
/// bits: variations that share a hash slot have equal attack sets.
pub open spec fn magic_ok(sq: int, family: PieceFamily, magic: u64, bits: u32) -> bool {
    forall|i: int, j: int|
        0 <= i < variations(sq, family) && 0 <= j < variations(sq, family) && #[trigger] hash_of(
            key_of(sq, family, i),
            magic,
            bits,
        ) == #[trigger] hash_of(key_of(sq, family, j), magic, bits) ==> att_of(sq, family, i)
            == att_of(sq, family, j)
}

/// Smallest hash slot among the first `n` variations.
pub open spec fn min_hash_upto(sq: int, family: PieceFamily, magic: u64, bits: u32, n: int) -> u64
    decreases n,
{
    if n <= 1 {
        hash_of(key_of(sq, family, 0), magic, bits)
    } else {
        let prev = min_hash_upto(sq, family, magic, bits, n - 1);
        let h = hash_of(key_of(sq, family, n - 1), magic, bits);
        if h < prev {
            h
        } else {
            prev
        }
    }
}

/// Largest hash slot among the first `n` variations.
pub open spec fn max_hash_upto(sq: int, family: PieceFamily, magic: u64, bits: u32, n: int) -> u64
    decreases n,
{
    if n <= 1 {
        hash_of(key_of(sq, family, 0), magic, bits)
    } else {
        let prev = max_hash_upto(sq, family, magic, bits, n - 1);
        let h = hash_of(key_of(sq, family, n - 1), magic, bits);
        if h > prev {
            h
        } else {
            prev
        }
    }
}

/// The tracked minimum never exceeds the tracked maximum, and both stay
/// below `2^bits`.
proof fn lemma_min_max_hash(sq: int, family: PieceFamily, magic: u64, bits: u32, n: int)
    requires
        1 <= bits <= 31,
    ensures
        min_hash_upto(sq, family, magic, bits, n) <= max_hash_upto(sq, family, magic, bits, n),
        max_hash_upto(sq, family, magic, bits, n) < pow2(bits as nat),
    decreases n,
{
    lemma2_to64();
    vstd::bits::lemma_u64_shl_is_mul(1u64, bits as u64);
    if n <= 1 {
        lemma_hash_bound(key_of(sq, family, 0).wrapping_mul(magic), bits);
    } else {
        lemma_min_max_hash(sq, family, magic, bits, n - 1);
        lemma_hash_bound(key_of(sq, family, n - 1).wrapping_mul(magic), bits);
    }
}

/// One validated collision-free hash function for one cell and family:
/// the multiplier and the bounds of the hash slots it actually touches.
#[derive(Clone, Copy, Debug, PartialEq, Eq, Structural)]
pub struct MagicCandidate {
    pub multiplier: u64,
    pub min_hash: u32,
    pub max_hash: u32,
    pub width: u32,
}

/// The candidate record a validated multiplier produces: its touched
/// hash-slot range over all variations of the cell and family.
pub open spec fn candidate_spec(sq: int, family: PieceFamily, magic: u64, bits: u32)
    -> MagicCandidate {
    let mn = min_hash_upto(sq, family, magic, bits, variations(sq, family));
    let mx = max_hash_upto(sq, family, magic, bits, variations(sq, family));
    MagicCandidate {
        multiplier: magic,
        min_hash: mn as u32,
        max_hash: mx as u32,
        width: (mx - mn) as u32,
    }
}

/// Builds the per-variation key and attack tables for a cell and family.
pub(crate) fn build_tables(square: u8, family: PieceFamily) -> (tables: (Vec<u64>, Vec<u64>))
    requires
        square <= 63,
    ensures
        tables.0@.len() == variations(square as int, family),
        tables.1@.len() == variations(square as int, family),
        forall|i: int|
            0 <= i < tables.0@.len() ==> tables.0@[i] == key_of(square as int, family, i),
        forall|i: int|
            0 <= i < tables.1@.len() ==> tables.1@[i] == att_of(square as int, family, i),
{
    let mask_v: u64 = mask(square, family);
    let n: u32 = popcount64(mask_v);
    proof {
        lemma_mask_popcount_le_12(square as int, family);
        lemma2_to64();
        vstd::bits::lemma_usize_shl_is_mul(1usize, n as usize);
    }
    let count: usize = 1usize << (n as usize);
    let mut keys: Vec<u64> = Vec::new();
    let mut atts: Vec<u64> = Vec::new();
    let mut i: usize = 0;
    while i < count
        invariant
            square <= 63,
            mask_v == mask_spec(square as int, family),
            n == popcount(mask_v),
            n <= 12,
            count == variations(square as int, family),
            i <= count,
            keys@.len() == i,
            atts@.len() == i,
            forall|j: int| 0 <= j < i as int ==> keys@[j] == key_of(square as int, family, j),
            forall|j: int| 0 <= j < i as int ==> atts@[j] == att_of(square as int, family, j),
        decreases count - i,
    {
        let occ: u64 = index_to_u64(i, n, mask_v);
        let key: u64 = occ | !mask_v;
        let att: u64 = attacks(square, family, occ);
        keys.push(key);
        atts.push(att);
        i = i + 1;
    }
    (keys, atts)
}

/// Replays every occupancy variation through the hash and checks for
/// collisions in a freshly cleared slot table. Returns the touched range
/// on success; `None` exactly when two variations with different attack
/// sets collide. This check is exhaustive, never sampled.
fn try_magic(square: u8, family: PieceFamily, bits: u32, magic: u64, keys: &Vec<u64>, atts: &Vec<
    u64,
>) -> (r: Option<(u32, u32)>)
    requires
        square <= 63,
        1 <= bits <= 15,
        keys@.len() == variations(square as int, family),
        atts@.len() == variations(square as int, family),
        forall|i: int| 0 <= i < keys@.len() ==> keys@[i] == key_of(square as int, family, i),
        forall|i: int| 0 <= i < atts@.len() ==> atts@[i] == att_of(square as int, family, i),
    ensures
        r.is_some() <==> magic_ok(square as int, family, magic, bits),
        r.is_some() ==> r == Some(
            (
                min_hash_upto(
                    square as int,
                    family,
                    magic,
                    bits,
                    variations(square as int, family),
                ) as u32,
                max_hash_upto(
                    square as int,
                    family,
                    magic,
                    bits,
                    variations(square as int, family),
                ) as u32,
            ),
        ),
{
    let ghost sq: int = square as int;
    let n: usize = keys.len();
    proof {
        lemma2_to64();
        vstd::bits::lemma_usize_shl_is_mul(1usize, bits as usize);
        vstd::bits::lemma_u64_shl_is_mul(1u64, bits as u64);
        vstd::arithmetic::power2::lemma_pow2_pos(popcount(mask_spec(sq, family)));
    }
    let size: usize = 1usize << (bits as usize);
    let mut used: Vec<u64> = Vec::new();
    let mut s: usize = 0;
    while s < size
        invariant
            used@.len() == s,
            s <= size,
            forall|t: int| 0 <= t < s as int ==> used@[t] == 0,
        decreases size - s,
    {
        used.push(0);
        s = s + 1;
    }
    let mut mn: u32 = 0;
    let mut mx: u32 = 0;
    let mut i: usize = 0;
    proof {
        assert forall|j: int| 0 <= j < n as int implies att_of(sq, family, j) != 0 by {
            lemma_attack_nonzero(sq, family, occ_of(sq, family, j));
        }
    }
    while i < n
        invariant
            forall|j: int| 0 <= j < n as int ==> att_of(sq, family, j) != 0,
            square <= 63,
            sq == square as int,
            1 <= bits <= 15,
            n == keys@.len(),
            n == variations(sq, family),
            n >= 1,
            atts@.len() == n,
            forall|j: int| 0 <= j < n as int ==> keys@[j] == key_of(sq, family, j),
            forall|j: int| 0 <= j < n as int ==> atts@[j] == att_of(sq, family, j),
            used@.len() == pow2(bits as nat),
            i <= n,
            forall|t: int|
                0 <= t < used@.len() && #[trigger] used@[t] != 0 ==> exists|i0: int|
                    0 <= i0 < i as int && hash_of(key_of(sq, family, i0), magic, bits) == t
                        && used@[t] == att_of(sq, family, i0),
            forall|i0: int|
                0 <= i0 < i as int ==> used@[
                    hash_of(key_of(sq, family, i0), magic, bits) as int
                ] == att_of(sq, family, i0),
            i >= 1 ==> mn == min_hash_upto(sq, family, magic, bits, i as int) as u32,
            i >= 1 ==> mx == max_hash_upto(sq, family, magic, bits, i as int) as u32,
        decreases n - i,
    {
        let h: usize = get_offset(keys[i], magic, bits);
        let a: u64 = atts[i];
        proof {
            assert(h == hash_of(key_of(sq, family, i as int), magic, bits));
            lemma2_to64();
            if bits < 15 {
                vstd::arithmetic::power2::lemma_pow2_strictly_increases(bits as nat, 15);
            }
            lemma_min_max_hash(sq, family, magic, bits, i as int);
            lemma_min_max_hash(sq, family, magic, bits, i as int + 1);
        }
        let h32: u32 = h as u32;
        let ghost used0: Seq<u64> = used@;
        if used[h] == 0 {
            used[h] = a;
        } else if used[h] != a {
            proof {
                let i0 = choose|i0: int|
                    0 <= i0 < i as int && hash_of(key_of(sq, family, i0), magic, bits) == h as int
                        && used@[h as int] == att_of(sq, family, i0);
                assert(hash_of(key_of(sq, family, i0), magic, bits) == hash_of(
                    key_of(sq, family, i as int),
                    magic,
                    bits,
                ));
                assert(att_of(sq, family, i0) != att_of(sq, family, i as int));
                assert(!magic_ok(sq, family, magic, bits));
            }
            return None;
        }
        proof {
            assert forall|i0: int| 0 <= i0 < i as int + 1 implies used@[hash_of(
                key_of(sq, family, i0),
                magic,
                bits,
            ) as int] == att_of(sq, family, i0) by {
                lemma2_to64();
                vstd::bits::lemma_u64_shl_is_mul(1u64, bits as u64);
                lemma_hash_bound(key_of(sq, family, i0).wrapping_mul(magic), bits);
                if i0 < i as int {
                    let s0 = hash_of(key_of(sq, family, i0), magic, bits) as int;
                    assert(used0[s0] == att_of(sq, family, i0));
                    assert(att_of(sq, family, i0) != 0);
                }
            }
        }
        if i == 0 {
            mn = h32;
            mx = h32;
        } else {
            if h32 < mn {
                mn = h32;
            }
            if h32 > mx {
                mx = h32;
            }
        }
        i = i + 1;
    }
    proof {
        assert forall|i0: int, j0: int|
            0 <= i0 < variations(sq, family) && 0 <= j0 < variations(sq, family) && #[trigger]
        hash_of(key_of(sq, family, i0), magic, bits) == #[trigger] hash_of(
            key_of(sq, family, j0),
            magic,
            bits,
        ) implies att_of(sq, family, i0) == att_of(sq, family, j0) by {
            assert(used@[hash_of(key_of(sq, family, i0), magic, bits) as int] == att_of(
                sq,
                family,
                i0,
            ));
            assert(used@[hash_of(key_of(sq, family, j0), magic, bits) as int] == att_of(
                sq,
                family,
                j0,
            ));
        }
    }
    Some((mn, mx))
}

/// Relies on rand::random: a freshly drawn value of the standard
/// distribution. Nothing is assumed about which value comes back.
pub assume_specification<T>[ rand::random::<T> ]() -> (r: T)
    where
        rand::distributions::Standard: rand::distributions::Distribution<T>,
;

/// Draws a candidate multiplier: the AND of three independent random
/// values, biasing the draw toward few set bits, which empirically
/// spreads the high product bits better.
pub fn gen_magic() -> (magic: u64) {
    let mut magic: u64 = u64::MAX;
    let mut i: u8 = 0;
    while i < 3
        decreases 3 - i,
    {
        magic = magic & rand::random::<u64>();
        i = i + 1;
    }
    magic
}

/// Minimum set bits required of the top byte of `mask * magic` before a
/// full verification pass is attempted. An empirical prescreen constant,
/// not a correctness requirement.
pub const TOP_BYTE_MIN_BITS: u32 = 6;

/// The cheap multiplier prescreen: the top byte of the wrapping product
/// of mask and multiplier must have enough set bits.
pub open spec fn filter_pass(mask: u64, magic: u64) -> bool {
    popcount(mask.wrapping_mul(magic) & 0xFF00000000000000) >= TOP_BYTE_MIN_BITS
}

fn filter_check(mask_v: u64, magic: u64) -> (pass: bool)
    ensures
        pass == filter_pass(mask_v, magic),
{
    popcount64(mask_v.wrapping_mul(magic) & 0xFF00000000000000) >= TOP_BYTE_MIN_BITS
}

/// A multiplier the search accepts: it passes the prescreen and is
/// collision-free.
pub open spec fn accepted(sq: int, family: PieceFamily, magic: u64, bits: u32) -> bool {
    filter_pass(mask_spec(sq, family), magic) && magic_ok(sq, family, magic, bits)
}

/// The first accepted multiplier of a candidate sequence, from position
/// `from` on, together with its hash range; `None` when every remaining
/// candidate is rejected.
pub open spec fn first_accepted(
    sq: int,
    family: PieceFamily,
    bits: u32,
    cands: Seq<u64>,
    from: int,
) -> Option<MagicCandidate>
    decreases cands.len() - from,
{
    if from < 0 || from >= cands.len() {
        None
    } else if accepted(sq, family, cands[from], bits) {
        Some(candidate_spec(sq, family, cands[from], bits))
    } else {
        first_accepted(sq, family, bits, cands, from + 1)
    }
}

/// Tries each candidate multiplier in order and returns the first that
/// passes the prescreen and verifies collision-free, with the hash range
/// it touches. The result is a function of the inputs alone, so a fixed
/// candidate sequence always reproduces the same accepted record.
pub fn search_candidates(square: u8, family: PieceFamily, bits: u32, candidates: &Vec<u64>) -> (r:
    Option<MagicCandidate>)
    requires
        square <= 63,
        1 <= bits <= 15,
    ensures
        r == first_accepted(square as int, family, bits, candidates@, 0),
{
    let ghost sq: int = square as int;
    let tables = build_tables(square, family);
    let keys = tables.0;
    let atts = tables.1;
    let mask_v: u64 = mask(square, family);
    let mut c: usize = 0;
    while c < candidates.len()
        invariant
            square <= 63,
            sq == square as int,
            1 <= bits <= 15,
            c <= candidates@.len(),
            mask_v == mask_spec(sq, family),
            keys@.len() == variations(sq, family),
            atts@.len() == variations(sq, family),
            forall|i: int| 0 <= i < keys@.len() ==> keys@[i] == key_of(sq, family, i),
            forall|i: int| 0 <= i < atts@.len() ==> atts@[i] == att_of(sq, family, i),
            first_accepted(sq, family, bits, candidates@, 0) == first_accepted(
                sq,
                family,
                bits,
                candidates@,
                c as int,
            ),
        decreases candidates@.len() - c,
    {
        let magic: u64 = candidates[c];
        if filter_check(mask_v, magic) {
            match try_magic(square, family, bits, magic, &keys, &atts) {
                Some((mn, mx)) => {
                    proof {
                        lemma2_to64();
                        if bits < 15 {
                            vstd::arithmetic::power2::lemma_pow2_strictly_increases(
                                bits as nat,
                                15,
                            );
                        }
                        lemma_min_max_hash(sq, family, magic, bits, variations(sq, family));
                    }
                    let width: u32 = mx - mn;
                    let cand = MagicCandidate {
                        multiplier: magic,
                        min_hash: mn,
                        max_hash: mx,
                        width,
                    };
                    proof {
                        assert(cand == candidate_spec(sq, family, magic, bits));
                        assert(first_accepted(sq, family, bits, candidates@, c as int) == Some(
                            cand,
                        ));
                    }
                    return Some(cand);
                },
                None => {
                    proof {
                        assert(!accepted(sq, family, magic, bits));
                    }
                },
            }
        }
        c = c + 1;
    }
    None
}

/// Every multiplier the search accepts is collision-free: replaying all
/// enumerated occupancies through the hash maps two variations with
/// differing attack sets to differing slots.
pub proof fn lemma_accepted_collision_free(sq: int, family: PieceFamily, magic: u64, bits: u32)
    requires
        accepted(sq, family, magic, bits),
    ensures
        magic_ok(sq, family, magic, bits),
{
}

/// Two runs over the same candidate sequence accept the same record: the
/// search outcome is a function of the cell, family, capacity bits and
/// candidate sequence alone.
pub proof fn lemma_search_reproducible(
    sq: int,
    family: PieceFamily,
    bits: u32,
    cands: Seq<u64>,
    r1: Option<MagicCandidate>,
    r2: Option<MagicCandidate>,
)
    requires
        r1 == first_accepted(sq, family, bits, cands, 0),
        r2 == first_accepted(sq, family, bits, cands, 0),
    ensures
        r1 == r2,
{
}

/// Raised when the attempt budget runs out without a collision-free
/// multiplier; reported to the caller, never retried silently.
#[derive(Clone, Copy, Debug, PartialEq, Eq, Structural)]
pub struct SearchExhausted;

/// Randomized magic search: draws up to `max_attempts` candidate
/// multipliers and returns the first accepted one. Whatever the random
/// draws were, an `Ok` result is a validated collision-free multiplier
/// with its exact touched hash range.
pub fn search(square: u8, family: PieceFamily, bits: u32, max_attempts: u64) -> (r: Result<
    MagicCandidate,
    SearchExhausted,
>)
    requires
        square <= 63,
        1 <= bits <= 15,
    ensures
        r matches Ok(c) ==> accepted(square as int, family, c.multiplier, bits) && c
            == candidate_spec(square as int, family, c.multiplier, bits),
{
    let ghost sq: int = square as int;
    let tables = build_tables(square, family);
    let keys = tables.0;
    let atts = tables.1;
    let mask_v: u64 = mask(square, family);
    let mut attempt: u64 = 0;
    while attempt < max_attempts
        invariant
            square <= 63,
            sq == square as int,
            1 <= bits <= 15,
            mask_v == mask_spec(sq, family),
            keys@.len() == variations(sq, family),
            atts@.len() == variations(sq, family),
            forall|i: int| 0 <= i < keys@.len() ==> keys@[i] == key_of(sq, family, i),
            forall|i: int| 0 <= i < atts@.len() ==> atts@[i] == att_of(sq, family, i),
        decreases max_attempts - attempt,
    {
        let magic: u64 = gen_magic();
        if filter_check(mask_v, magic) {
            match try_magic(square, family, bits, magic, &keys, &atts) {
                Some((mn, mx)) => {
                    proof {
                        lemma2_to64();
                        if bits < 15 {
                            vstd::arithmetic::power2::lemma_pow2_strictly_increases(
                                bits as nat,
                                15,
                            );
                        }
                        lemma_min_max_hash(sq, family, magic, bits, variations(sq, family));
                    }
                    let width: u32 = mx - mn;
                    return Ok(
                        MagicCandidate { multiplier: magic, min_hash: mn, max_hash: mx, width },
                    );
                },
                None => {},
            }
        }
        attempt = attempt + 1;
    }
    Err(SearchExhausted)
}

/// Searches with the full attempt budget at the cell's capacity bit
/// budget and returns the accepted multiplier, or 0 when it ran out.
pub fn find_magic(square: u8, bishop: bool) -> (magic: u64)
    requires
        square <= 63,
    ensures
        magic != 0 ==> accepted(
            square as int,
            if bishop {
                PieceFamily::Diagonal
            } else {
                PieceFamily::Orthogonal
            },
            magic,
            if bishop {
                crate::geometry::bishop_bits_spec(square as int)
            } else {
                crate::geometry::rook_bits_spec(square as int)
            },
        ),
{
    let family = if bishop {
        PieceFamily::Diagonal
    } else {
        PieceFamily::Orthogonal
    };
    let bits: u32 = if bishop {
        crate::geometry::bishop_bits(square)
    } else {
        crate::geometry::rook_bits(square)
    };
    match search(square, family, bits, 100000000) {
        Ok(c) => c.multiplier,
        Err(_) => 0,
    }
}

} // verus!
