//! Board geometry: relevant occupancy masks and attack sets for sliding
//! pieces, computed by casting rays from a cell and stopping at the first
//! blocker.
//!
//! A board is a `u64`; bit `8*row + col` stands for the cell at
//! `(row, col)` of the 8x8 grid. Cells are numbered 0..=63.

use vstd::prelude::*;
use crate::bits::bit64;
use crate::bits::has_bit;
use crate::bits::subset64;
use crate::bits::lemma_bit_nonzero;
use crate::bits::lemma_bits_distinct;
use crate::bits::lemma_or_zero;
use crate::bits::lemma_or_assoc;
use crate::bits::lemma_or_subset;
use crate::bits::lemma_or_contains;
use crate::bits::lemma_or_avoids;
use crate::bits::lemma_or4_contains;
use crate::bits::lemma_or4_avoids;
use crate::bits::lemma_or4_subset;
use crate::bits::popcount;
use crate::bits::lemma_popcount_or_le;
use crate::bits::lemma_popcount_single;

verus! {

/// Movement pattern class of a sliding piece: bishop-like or rook-like.
#[derive(Clone, Copy, Debug, PartialEq, Eq, Structural)]
pub enum PieceFamily {
    Diagonal,
    Orthogonal,
}

/// A ray direction is a unit step on each axis, not both zero.
pub open spec fn dir_valid(dk: int, dl: int) -> bool {
    &&& -1 <= dk <= 1
    &&& -1 <= dl <= 1
    &&& !(dk == 0 && dl == 0)
}

/// The walk may take one more step: on every moving axis the next
/// coordinate stays within `[lo, hi]`.
pub open spec fn step_ok(k: int, l: int, dk: int, dl: int, lo: int, hi: int) -> bool {
    &&& (dk != 0 ==> lo <= k + dk <= hi)
    &&& (dl != 0 ==> lo <= l + dl <= hi)
}

/// Steps left before a walk from `(k, l)` must leave `[lo, hi]`; drives
/// termination of `ray`.
pub open spec fn ray_fuel(k: int, l: int, dk: int, dl: int, lo: int, hi: int) -> int {
    if dk == 1 {
        hi - k
    } else if dk == -1 {
        k - lo
    } else if dl == 1 {
        hi - l
    } else {
        l - lo
    }
}

/// Cells visited when walking from `(k, l)` one step at a time in
/// direction `(dk, dl)`, stopping after the first blocker or when the
/// next coordinate on a moving axis would leave `[lo, hi]`. The starting
/// cell is not included; a blocking cell is (it may be capturable).
pub open spec fn ray(blockers: u64, k: int, l: int, dk: int, dl: int, lo: int, hi: int) -> u64
    decreases ray_fuel(k, l, dk, dl, lo, hi),
{
    if !dir_valid(dk, dl) || !step_ok(k, l, dk, dl, lo, hi) {
        0u64
    } else {
        let b = bit64(8 * (k + dk) + (l + dl));
        if blockers & b != 0 {
            b
        } else {
            b | ray(blockers, k + dk, l + dl, dk, dl, lo, hi)
        }
    }
}

/// Union of the four orthogonal rays from `(r, c)`.
pub open spec fn rook_rays(blockers: u64, r: int, c: int, lo: int, hi: int) -> u64 {
    ray(blockers, r, c, 1, 0, lo, hi) | ray(blockers, r, c, -1, 0, lo, hi) | ray(
        blockers,
        r,
        c,
        0,
        1,
        lo,
        hi,
    ) | ray(blockers, r, c, 0, -1, lo, hi)
}

/// Union of the four diagonal rays from `(r, c)`.
pub open spec fn bishop_rays(blockers: u64, r: int, c: int, lo: int, hi: int) -> u64 {
    ray(blockers, r, c, 1, 1, lo, hi) | ray(blockers, r, c, 1, -1, lo, hi) | ray(
        blockers,
        r,
        c,
        -1,
        1,
        lo,
        hi,
    ) | ray(blockers, r, c, -1, -1, lo, hi)
}

/// Cells a rook-like piece on cell `sq` reaches under `blockers`.
pub open spec fn rook_attack_spec(sq: int, blockers: u64) -> u64 {
    rook_rays(blockers, sq / 8, sq % 8, 0, 7)
}

/// Rays clipped before the board edge: a blocker on the outermost ring
/// never hides a further blocker, so only interior cells are relevant.
pub open spec fn rook_key_spec(sq: int, blockers: u64) -> u64 {
    rook_rays(blockers, sq / 8, sq % 8, 1, 6)
}

/// Relevant occupancy mask of a rook-like piece on cell `sq`.
pub open spec fn rook_mask_spec(sq: int) -> u64 {
    rook_key_spec(sq, 0)
}

/// Cells a bishop-like piece on cell `sq` reaches under `blockers`.
pub open spec fn bishop_attack_spec(sq: int, blockers: u64) -> u64 {
    bishop_rays(blockers, sq / 8, sq % 8, 0, 7)
}

pub open spec fn bishop_key_spec(sq: int, blockers: u64) -> u64 {
    bishop_rays(blockers, sq / 8, sq % 8, 1, 6)
}

/// Relevant occupancy mask of a bishop-like piece on cell `sq`.
pub open spec fn bishop_mask_spec(sq: int) -> u64 {
    bishop_key_spec(sq, 0)
}

/// Relevant occupancy mask of a cell and family.
pub open spec fn mask_spec(sq: int, family: PieceFamily) -> u64 {
    match family {
        PieceFamily::Diagonal => bishop_mask_spec(sq),
        PieceFamily::Orthogonal => rook_mask_spec(sq),
    }
}

/// Attack set of a cell and family under a concrete occupancy.
pub open spec fn attack_set_spec(sq: int, family: PieceFamily, occupancy: u64) -> u64 {
    match family {
        PieceFamily::Diagonal => bishop_attack_spec(sq, occupancy),
        PieceFamily::Orthogonal => rook_attack_spec(sq, occupancy),
    }
}

/// Walks from `(k, l)` in direction `(dk, dl)` and ors every visited cell
/// into `result`, stopping after the first cell present in `blockers` or
/// when the next coordinate on a moving axis would leave `[lo, hi]`.
pub fn direction_blockers_mask(
    result: &mut u64,
    blockers: u64,
    k: u8,
    l: u8,
    dk: i8,
    dl: i8,
    lo: u8,
    hi: u8,
)
    requires
        k <= 7,
        l <= 7,
        -1 <= dk as int <= 1,
        -1 <= dl as int <= 1,
        !(dk == 0 && dl == 0),
        lo <= hi,
        hi <= 7,
    ensures
        *final(result) == *old(result) | ray(
            blockers,
            k as int,
            l as int,
            dk as int,
            dl as int,
            lo as int,
            hi as int,
        ),
{
    let ghost r0: u64 = *result;
    let ghost full: u64 = ray(
        blockers,
        k as int,
        l as int,
        dk as int,
        dl as int,
        lo as int,
        hi as int,
    );
    let mut res: u64 = *result;
    let mut kk: u8 = k;
    let mut ll: u8 = l;
    loop
        invariant_except_break
            res | ray(blockers, kk as int, ll as int, dk as int, dl as int, lo as int, hi as int)
                == r0 | full,
        invariant
            kk <= 7,
            ll <= 7,
            lo <= hi,
            hi <= 7,
            -1 <= dk as int <= 1,
            -1 <= dl as int <= 1,
            !(dk == 0 && dl == 0),
        ensures
            res == r0 | full,
        decreases ray_fuel(kk as int, ll as int, dk as int, dl as int, lo as int, hi as int),
    {
        let cont: bool = (dk == 0 || (lo as i16 <= kk as i16 + dk as i16 && kk as i16 + dk as i16
            <= hi as i16)) && (dl == 0 || (lo as i16 <= ll as i16 + dl as i16 && ll as i16
            + dl as i16 <= hi as i16));
        if !cont {
            proof {
                assert(!step_ok(kk as int, ll as int, dk as int, dl as int, lo as int, hi as int));
                assert(ray(
                    blockers,
                    kk as int,
                    ll as int,
                    dk as int,
                    dl as int,
                    lo as int,
                    hi as int,
                ) == 0);
                lemma_or_zero(res);
            }
            break ;
        }
        proof {
            assert(step_ok(kk as int, ll as int, dk as int, dl as int, lo as int, hi as int));
        }
        let ghost kk0: int = kk as int;
        let ghost ll0: int = ll as int;
        kk = (kk as i16 + dk as i16) as u8;
        ll = (ll as i16 + dl as i16) as u8;
        proof {
            assert(kk as int == kk0 + dk as int);
            assert(ll as int == ll0 + dl as int);
        }
        let sh: u32 = 8 * (kk as u32) + (ll as u32);
        let b: u64 = 1u64 << (sh as u64);
        proof {
            assert(b == bit64(8 * (kk0 + dk as int) + (ll0 + dl as int)));
        }
        let ghost res0: u64 = res;
        res = res | b;
        if blockers & b != 0 {
            proof {
                assert(ray(blockers, kk0, ll0, dk as int, dl as int, lo as int, hi as int) == b);
            }
            break ;
        }
        proof {
            let rest = ray(
                blockers,
                kk as int,
                ll as int,
                dk as int,
                dl as int,
                lo as int,
                hi as int,
            );
            assert(ray(blockers, kk0, ll0, dk as int, dl as int, lo as int, hi as int) == b | rest);
            lemma_or_assoc(res0, b, rest);
        }
    }
    *result = res;
}

/// Attack set of a bishop-like piece: the four diagonal rays, stopping at
/// the first blocker, which is included.
pub fn get_bishop_attack(square: u8, blockers: u64) -> (result: u64)
    requires
        square <= 63,
    ensures
        result == bishop_attack_spec(square as int, blockers),
{
    let mut result: u64 = 0;
    let k: u8 = square / 8;
    let l: u8 = square % 8;
    direction_blockers_mask(&mut result, blockers, k, l, 1, 1, 0, 7);
    direction_blockers_mask(&mut result, blockers, k, l, 1, -1, 0, 7);
    direction_blockers_mask(&mut result, blockers, k, l, -1, 1, 0, 7);
    direction_blockers_mask(&mut result, blockers, k, l, -1, -1, 0, 7);
    proof {
        lemma_or_zero(ray(blockers, k as int, l as int, 1, 1, 0, 7));
    }
    result
}

/// Diagonal rays clipped before the board edge; with an empty occupancy
/// this is the bishop's relevant occupancy mask.
pub fn get_bishop_key(square: u8, blockers: u64) -> (result: u64)
    requires
        square <= 63,
    ensures
        result == bishop_key_spec(square as int, blockers),
{
    let mut result: u64 = 0;
    let k: u8 = square / 8;
    let l: u8 = square % 8;
    direction_blockers_mask(&mut result, blockers, k, l, 1, 1, 1, 6);
    direction_blockers_mask(&mut result, blockers, k, l, 1, -1, 1, 6);
    direction_blockers_mask(&mut result, blockers, k, l, -1, 1, 1, 6);
    direction_blockers_mask(&mut result, blockers, k, l, -1, -1, 1, 6);
    proof {
        lemma_or_zero(ray(blockers, k as int, l as int, 1, 1, 1, 6));
    }
    result
}

/// Relevant occupancy mask of a bishop-like piece.
pub fn get_bishop_mask(square: u8) -> (result: u64)
    requires
        square <= 63,
    ensures
        result == bishop_mask_spec(square as int),
{
    get_bishop_key(square, 0)
}

/// Attack set of a rook-like piece: the four orthogonal rays, stopping at
/// the first blocker, which is included.
pub fn get_rook_attack(square: u8, blockers: u64) -> (result: u64)
    requires
        square <= 63,
    ensures
        result == rook_attack_spec(square as int, blockers),
{
    let mut result: u64 = 0;
    let k: u8 = square / 8;
    let l: u8 = square % 8;
    direction_blockers_mask(&mut result, blockers, k, l, 1, 0, 0, 7);
    direction_blockers_mask(&mut result, blockers, k, l, -1, 0, 0, 7);
    direction_blockers_mask(&mut result, blockers, k, l, 0, 1, 0, 7);
    direction_blockers_mask(&mut result, blockers, k, l, 0, -1, 0, 7);
    proof {
        lemma_or_zero(ray(blockers, k as int, l as int, 1, 0, 0, 7));
    }
    result
}

/// Orthogonal rays clipped before the board edge; with an empty occupancy
/// this is the rook's relevant occupancy mask.
pub fn get_rook_key(square: u8, blockers: u64) -> (result: u64)
    requires
        square <= 63,
    ensures
        result == rook_key_spec(square as int, blockers),
{
    let mut result: u64 = 0;
    let k: u8 = square / 8;
    let l: u8 = square % 8;
    direction_blockers_mask(&mut result, blockers, k, l, 1, 0, 1, 6);
    direction_blockers_mask(&mut result, blockers, k, l, -1, 0, 1, 6);
    direction_blockers_mask(&mut result, blockers, k, l, 0, 1, 1, 6);
    direction_blockers_mask(&mut result, blockers, k, l, 0, -1, 1, 6);
    proof {
        lemma_or_zero(ray(blockers, k as int, l as int, 1, 0, 1, 6));
    }
    result
}

/// Relevant occupancy mask of a rook-like piece.
pub fn get_rook_mask(square: u8) -> (result: u64)
    requires
        square <= 63,
    ensures
        result == rook_mask_spec(square as int),
{
    get_rook_key(square, 0)
}

/// Relevant occupancy mask of a cell and family.
pub fn mask(square: u8, family: PieceFamily) -> (result: u64)
    requires
        square <= 63,
    ensures
        result == mask_spec(square as int, family),
{
    match family {
        PieceFamily::Diagonal => get_bishop_mask(square),
        PieceFamily::Orthogonal => get_rook_mask(square),
    }
}

/// Widening the coordinate bounds of a walk only adds cells.
pub proof fn lemma_ray_subset(
    blockers: u64,
    k: int,
    l: int,
    dk: int,
    dl: int,
    lo: int,
    hi: int,
    lo2: int,
    hi2: int,
)
    requires
        dir_valid(dk, dl),
        lo2 <= lo,
        hi <= hi2,
    ensures
        subset64(ray(blockers, k, l, dk, dl, lo, hi), ray(blockers, k, l, dk, dl, lo2, hi2)),
    decreases ray_fuel(k, l, dk, dl, lo, hi),
{
    let wide = ray(blockers, k, l, dk, dl, lo2, hi2);
    if step_ok(k, l, dk, dl, lo, hi) {
        assert(step_ok(k, l, dk, dl, lo2, hi2));
        let b = bit64(8 * (k + dk) + (l + dl));
        lemma_or_zero(b);
        if blockers & b != 0 {
        } else {
            lemma_ray_subset(blockers, k + dk, l + dl, dk, dl, lo, hi, lo2, hi2);
            lemma_or_subset(
                b,
                b,
                ray(blockers, k + dk, l + dl, dk, dl, lo, hi),
                ray(blockers, k + dk, l + dl, dk, dl, lo2, hi2),
            );
        }
    } else {
        lemma_or_zero(wide);
    }
}

/// A walk never visits a cell whose coordinate on a moving axis lies
/// outside `[lo, hi]`, nor one whose coordinate on a still axis differs
/// from the start.
pub proof fn lemma_ray_avoids(
    blockers: u64,
    k: int,
    l: int,
    dk: int,
    dl: int,
    lo: int,
    hi: int,
    r2: int,
    c2: int,
)
    requires
        dir_valid(dk, dl),
        0 <= k <= 7,
        0 <= l <= 7,
        0 <= lo,
        hi <= 7,
        0 <= r2 <= 7,
        0 <= c2 <= 7,
        (dk != 0 && !(lo <= r2 <= hi)) || (dk == 0 && r2 != k) || (dl != 0 && !(lo <= c2 <= hi))
            || (dl == 0 && c2 != l),
    ensures
        ray(blockers, k, l, dk, dl, lo, hi) & bit64(8 * r2 + c2) == 0,
    decreases ray_fuel(k, l, dk, dl, lo, hi),
{
    let w = bit64(8 * r2 + c2);
    if step_ok(k, l, dk, dl, lo, hi) {
        let k2 = k + dk;
        let l2 = l + dl;
        let b = bit64(8 * k2 + l2);
        assert(k2 != r2 || l2 != c2);
        lemma_bits_distinct((8 * k2 + l2) as u64, (8 * r2 + c2) as u64);
        if blockers & b != 0 {
        } else {
            lemma_ray_avoids(blockers, k2, l2, dk, dl, lo, hi, r2, c2);
            lemma_or_avoids(b, ray(blockers, k2, l2, dk, dl, lo, hi), w);
        }
    } else {
        lemma_or_zero(w);
    }
}

/// Distance from `x` to the board edge in direction `d`.
pub open spec fn dir_dist(x: int, d: int) -> int {
    if d == 1 {
        7 - x
    } else if d == -1 {
        x
    } else {
        0
    }
}

/// Number of steps a blocker-free walk on the full board takes before the
/// next step would leave it.
pub open spec fn free_steps(k: int, l: int, dk: int, dl: int) -> int {
    if dk != 0 && dl != 0 {
        if dir_dist(k, dk) <= dir_dist(l, dl) {
            dir_dist(k, dk)
        } else {
            dir_dist(l, dl)
        }
    } else if dk != 0 {
        dir_dist(k, dk)
    } else {
        dir_dist(l, dl)
    }
}

/// Coordinate reached from `x` after `t` steps in direction `d`.
pub open spec fn shifted(x: int, d: int, t: int) -> int {
    if d == 1 {
        x + t
    } else if d == -1 {
        x - t
    } else {
        x
    }
}

/// Row of the last cell a blocker-free walk on the full board visits.
pub open spec fn free_end_row(k: int, l: int, dk: int, dl: int) -> int {
    shifted(k, dk, free_steps(k, l, dk, dl))
}

/// Column of the last cell a blocker-free walk on the full board visits.
pub open spec fn free_end_col(k: int, l: int, dk: int, dl: int) -> int {
    shifted(l, dl, free_steps(k, l, dk, dl))
}

/// A blocker-free walk on the full board visits its last reachable cell.
pub proof fn lemma_free_ray_reaches_end(k: int, l: int, dk: int, dl: int)
    requires
        dir_valid(dk, dl),
        0 <= k <= 7,
        0 <= l <= 7,
        free_steps(k, l, dk, dl) >= 1,
    ensures
        has_bit(
            ray(0, k, l, dk, dl, 0, 7),
            8 * free_end_row(k, l, dk, dl) + free_end_col(k, l, dk, dl),
        ),
        0 <= free_end_row(k, l, dk, dl) <= 7,
        0 <= free_end_col(k, l, dk, dl) <= 7,
    decreases free_steps(k, l, dk, dl),
{
    let k2 = k + dk;
    let l2 = l + dl;
    assert(step_ok(k, l, dk, dl, 0, 7));
    let b = bit64(8 * k2 + l2);
    lemma_or_zero(b);
    assert(0u64 & b == 0);
    let rest = ray(0, k2, l2, dk, dl, 0, 7);
    assert(ray(0, k, l, dk, dl, 0, 7) == b | rest);
    lemma_bit_nonzero((8 * k2 + l2) as u64);
    if free_steps(k, l, dk, dl) == 1 {
        assert(free_end_row(k, l, dk, dl) == k2 && free_end_col(k, l, dk, dl) == l2);
        lemma_or_contains(b, rest, b);
    } else {
        lemma_free_ray_reaches_end(k2, l2, dk, dl);
        assert(free_steps(k2, l2, dk, dl) == free_steps(k, l, dk, dl) - 1);
        assert(free_end_row(k2, l2, dk, dl) == free_end_row(k, l, dk, dl));
        assert(free_end_col(k2, l2, dk, dl) == free_end_col(k, l, dk, dl));
        lemma_or_contains(
            b,
            rest,
            bit64(8 * free_end_row(k, l, dk, dl) + free_end_col(k, l, dk, dl)),
        );
    }
}

/// A walk that may take a step visits the cell one step away, whatever
/// the blockers.
pub proof fn lemma_ray_first(blockers: u64, k: int, l: int, dk: int, dl: int, lo: int, hi: int)
    requires
        dir_valid(dk, dl),
        0 <= k <= 7,
        0 <= l <= 7,
        0 <= lo,
        hi <= 7,
        step_ok(k, l, dk, dl, lo, hi),
    ensures
        has_bit(ray(blockers, k, l, dk, dl, lo, hi), 8 * (k + dk) + (l + dl)),
{
    let b = bit64(8 * (k + dk) + (l + dl));
    lemma_bit_nonzero((8 * (k + dk) + (l + dl)) as u64);
    lemma_or_zero(b);
    if blockers & b != 0 {
    } else {
        lemma_or_contains(b, ray(blockers, k + dk, l + dl, dk, dl, lo, hi), b);
    }
}

/// Every cell of every family attacks at least one other cell: the board
/// is large enough that some ray always takes a first step.
pub proof fn lemma_attack_nonzero(sq: int, family: PieceFamily, blockers: u64)
    requires
        0 <= sq < 64,
    ensures
        attack_set_spec(sq, family, blockers) != 0,
{
    let r = sq / 8;
    let c = sq % 8;
    match family {
        PieceFamily::Orthogonal => {
            let dk: int = if r < 7 {
                1
            } else {
                -1
            };
            assert(step_ok(r, c, dk, 0, 0, 7));
            lemma_ray_first(blockers, r, c, dk, 0, 0, 7);
            let w = bit64(8 * (r + dk) + c);
            lemma_or4_contains(
                ray(blockers, r, c, 1, 0, 0, 7),
                ray(blockers, r, c, -1, 0, 0, 7),
                ray(blockers, r, c, 0, 1, 0, 7),
                ray(blockers, r, c, 0, -1, 0, 7),
                w,
            );
            lemma_or_zero(w);
        },
        PieceFamily::Diagonal => {
            let dk: int = if r < 7 {
                1
            } else {
                -1
            };
            let dl: int = if c < 7 {
                1
            } else {
                -1
            };
            assert(step_ok(r, c, dk, dl, 0, 7));
            lemma_ray_first(blockers, r, c, dk, dl, 0, 7);
            let w = bit64(8 * (r + dk) + (c + dl));
            lemma_or4_contains(
                ray(blockers, r, c, 1, 1, 0, 7),
                ray(blockers, r, c, 1, -1, 0, 7),
                ray(blockers, r, c, -1, 1, 0, 7),
                ray(blockers, r, c, -1, -1, 0, 7),
                w,
            );
            lemma_or_zero(w);
        },
    }
}

/// The relevant occupancy mask of every cell and family lies strictly
/// inside the attack set on an empty board: every mask cell is attacked,
/// and at least one attacked cell, on the board edge, is not in the mask.
pub proof fn lemma_mask_strict_subset_of_attacks(sq: int, family: PieceFamily)
    requires
        0 <= sq < 64,
    ensures
        subset64(mask_spec(sq, family), attack_set_spec(sq, family, 0)),
        mask_spec(sq, family) != attack_set_spec(sq, family, 0),
{
    let r = sq / 8;
    let c = sq % 8;
    match family {
        PieceFamily::Orthogonal => {
            lemma_ray_subset(0, r, c, 1, 0, 1, 6, 0, 7);
            lemma_ray_subset(0, r, c, -1, 0, 1, 6, 0, 7);
            lemma_ray_subset(0, r, c, 0, 1, 1, 6, 0, 7);
            lemma_ray_subset(0, r, c, 0, -1, 1, 6, 0, 7);
            lemma_or4_subset(
                ray(0, r, c, 1, 0, 1, 6),
                ray(0, r, c, 1, 0, 0, 7),
                ray(0, r, c, -1, 0, 1, 6),
                ray(0, r, c, -1, 0, 0, 7),
                ray(0, r, c, 0, 1, 1, 6),
                ray(0, r, c, 0, 1, 0, 7),
                ray(0, r, c, 0, -1, 1, 6),
                ray(0, r, c, 0, -1, 0, 7),
            );
            let dk: int = if r < 7 {
                1
            } else {
                -1
            };
            lemma_free_ray_reaches_end(r, c, dk, 0);
            let er = free_end_row(r, c, dk, 0);
            assert(er == 0 || er == 7);
            let w = bit64(8 * er + c);
            lemma_or4_contains(
                ray(0, r, c, 1, 0, 0, 7),
                ray(0, r, c, -1, 0, 0, 7),
                ray(0, r, c, 0, 1, 0, 7),
                ray(0, r, c, 0, -1, 0, 7),
                w,
            );
            lemma_ray_avoids(0, r, c, 1, 0, 1, 6, er, c);
            lemma_ray_avoids(0, r, c, -1, 0, 1, 6, er, c);
            lemma_ray_avoids(0, r, c, 0, 1, 1, 6, er, c);
            lemma_ray_avoids(0, r, c, 0, -1, 1, 6, er, c);
            lemma_or4_avoids(
                ray(0, r, c, 1, 0, 1, 6),
                ray(0, r, c, -1, 0, 1, 6),
                ray(0, r, c, 0, 1, 1, 6),
                ray(0, r, c, 0, -1, 1, 6),
                w,
            );
        },
        PieceFamily::Diagonal => {
            lemma_ray_subset(0, r, c, 1, 1, 1, 6, 0, 7);
            lemma_ray_subset(0, r, c, 1, -1, 1, 6, 0, 7);
            lemma_ray_subset(0, r, c, -1, 1, 1, 6, 0, 7);
            lemma_ray_subset(0, r, c, -1, -1, 1, 6, 0, 7);
            lemma_or4_subset(
                ray(0, r, c, 1, 1, 1, 6),
                ray(0, r, c, 1, 1, 0, 7),
                ray(0, r, c, 1, -1, 1, 6),
                ray(0, r, c, 1, -1, 0, 7),
                ray(0, r, c, -1, 1, 1, 6),
                ray(0, r, c, -1, 1, 0, 7),
                ray(0, r, c, -1, -1, 1, 6),
                ray(0, r, c, -1, -1, 0, 7),
            );
            let dk: int = if r < 7 {
                1
            } else {
                -1
            };
            let dl: int = if c < 7 {
                1
            } else {
                -1
            };
            lemma_free_ray_reaches_end(r, c, dk, dl);
            let er = free_end_row(r, c, dk, dl);
            let ec = free_end_col(r, c, dk, dl);
            assert(er == 0 || er == 7 || ec == 0 || ec == 7);
            let w = bit64(8 * er + ec);
            lemma_or4_contains(
                ray(0, r, c, 1, 1, 0, 7),
                ray(0, r, c, 1, -1, 0, 7),
                ray(0, r, c, -1, 1, 0, 7),
                ray(0, r, c, -1, -1, 0, 7),
                w,
            );
            lemma_ray_avoids(0, r, c, 1, 1, 1, 6, er, ec);
            lemma_ray_avoids(0, r, c, 1, -1, 1, 6, er, ec);
            lemma_ray_avoids(0, r, c, -1, 1, 1, 6, er, ec);
            lemma_ray_avoids(0, r, c, -1, -1, 1, 6, er, ec);
            lemma_or4_avoids(
                ray(0, r, c, 1, 1, 1, 6),
                ray(0, r, c, 1, -1, 1, 6),
                ray(0, r, c, -1, 1, 1, 6),
                ray(0, r, c, -1, -1, 1, 6),
                w,
            );
        },
    }
}

/// A walk of `f` remaining steps visits at most `f` cells.
pub proof fn lemma_ray_popcount(blockers: u64, k: int, l: int, dk: int, dl: int, lo: int, hi: int)
    requires
        dir_valid(dk, dl),
        0 <= k <= 7,
        0 <= l <= 7,
        0 <= lo,
        hi <= 7,
    ensures
        popcount(ray(blockers, k, l, dk, dl, lo, hi)) <= (if ray_fuel(k, l, dk, dl, lo, hi) >= 0 {
            ray_fuel(k, l, dk, dl, lo, hi)
        } else {
            0
        }),
    decreases ray_fuel(k, l, dk, dl, lo, hi),
{
    if step_ok(k, l, dk, dl, lo, hi) {
        let k2 = k + dk;
        let l2 = l + dl;
        let b = bit64(8 * k2 + l2);
        lemma_popcount_single((8 * k2 + l2) as u64);
        if blockers & b != 0 {
        } else {
            lemma_ray_popcount(blockers, k2, l2, dk, dl, lo, hi);
            lemma_popcount_or_le(b, ray(blockers, k2, l2, dk, dl, lo, hi));
        }
    } else {
        assert(popcount(0u64) == 0);
    }
}

/// The relevant occupancy mask never has more than 12 set bits, so a cell
/// and family have at most 4096 occupancy variations.
pub proof fn lemma_mask_popcount_le_12(sq: int, family: PieceFamily)
    requires
        0 <= sq < 64,
    ensures
        popcount(mask_spec(sq, family)) <= 12,
{
    let r = sq / 8;
    let c = sq % 8;
    match family {
        PieceFamily::Orthogonal => {
            let r1 = ray(0, r, c, 1, 0, 1, 6);
            let r2 = ray(0, r, c, -1, 0, 1, 6);
            let r3 = ray(0, r, c, 0, 1, 1, 6);
            let r4 = ray(0, r, c, 0, -1, 1, 6);
            lemma_ray_popcount(0, r, c, 1, 0, 1, 6);
            lemma_ray_popcount(0, r, c, -1, 0, 1, 6);
            lemma_ray_popcount(0, r, c, 0, 1, 1, 6);
            lemma_ray_popcount(0, r, c, 0, -1, 1, 6);
            lemma_popcount_or_le(r1, r2);
            lemma_popcount_or_le(r1 | r2, r3);
            lemma_popcount_or_le(r1 | r2 | r3, r4);
        },
        PieceFamily::Diagonal => {
            let r1 = ray(0, r, c, 1, 1, 1, 6);
            let r2 = ray(0, r, c, 1, -1, 1, 6);
            let r3 = ray(0, r, c, -1, 1, 1, 6);
            let r4 = ray(0, r, c, -1, -1, 1, 6);
            lemma_ray_popcount(0, r, c, 1, 1, 1, 6);
            lemma_ray_popcount(0, r, c, 1, -1, 1, 6);
            lemma_ray_popcount(0, r, c, -1, 1, 1, 6);
            lemma_ray_popcount(0, r, c, -1, -1, 1, 6);
            lemma_popcount_or_le(r1, r2);
            lemma_popcount_or_le(r1 | r2, r3);
            lemma_popcount_or_le(r1 | r2 | r3, r4);
        },
    }
}

/// Table-capacity bit budget for a rook-like piece: 10 bits for interior
/// cells, one more for each axis whose coordinate lies on the board edge.
pub open spec fn rook_bits_spec(sq: int) -> u32 {
    (10 + (if sq / 8 == 0 || sq / 8 == 7 {
        1int
    } else {
        0int
    }) + (if sq % 8 == 0 || sq % 8 == 7 {
        1int
    } else {
        0int
    })) as u32
}

/// Distance from a coordinate to the nearer board edge.
pub open spec fn edge_dist(x: int) -> int {
    if x <= 3 {
        x
    } else {
        7 - x
    }
}

/// Table-capacity bit budget for a bishop-like piece: 6 in the corners, 9
/// in the four center cells, 7 in the surrounding interior ring, 5
/// elsewhere.
pub open spec fn bishop_bits_spec(sq: int) -> u32 {
    let r = sq / 8;
    let c = sq % 8;
    if (r == 0 || r == 7) && (c == 0 || c == 7) {
        6
    } else if edge_dist(r) >= 3 && edge_dist(c) >= 3 {
        9
    } else if edge_dist(r) >= 2 && edge_dist(c) >= 2 {
        7
    } else {
        5
    }
}

/// Table-capacity bit budget for a rook-like piece on `square`.
pub fn rook_bits(square: u8) -> (bits: u32)
    requires
        square <= 63,
    ensures
        bits == rook_bits_spec(square as int),
        10 <= bits <= 12,
{
    let row: u8 = square / 8;
    let col: u8 = square % 8;
    let mut bits: u32 = 10;
    if row == 0 || row == 7 {
        bits = bits + 1;
    }
    if col == 0 || col == 7 {
        bits = bits + 1;
    }
    bits
}

/// Table-capacity bit budget for a bishop-like piece on `square`.
pub fn bishop_bits(square: u8) -> (bits: u32)
    requires
        square <= 63,
    ensures
        bits == bishop_bits_spec(square as int),
        5 <= bits <= 9,
{
    let row: u8 = square / 8;
    let col: u8 = square % 8;
    let er: u8 = if row <= 3 {
        row
    } else {
        7 - row
    };
    let ec: u8 = if col <= 3 {
        col
    } else {
        7 - col
    };
    if (row == 0 || row == 7) && (col == 0 || col == 7) {
        6
    } else if er >= 3 && ec >= 3 {
        9
    } else if er >= 2 && ec >= 2 {
        7
    } else {
        5
    }
}

/// Capacity bit budget of a cell and family.
pub fn capacity_bits(square: u8, family: PieceFamily) -> (bits: u32)
    requires
        square <= 63,
    ensures
        bits == capacity_bits_spec(square as int, family),
        5 <= bits <= 12,
{
    match family {
        PieceFamily::Diagonal => bishop_bits(square),
        PieceFamily::Orthogonal => rook_bits(square),
    }
}

/// Capacity bit budget of a cell and family.
pub open spec fn capacity_bits_spec(sq: int, family: PieceFamily) -> u32 {
    match family {
        PieceFamily::Diagonal => bishop_bits_spec(sq),
        PieceFamily::Orthogonal => rook_bits_spec(sq),
    }
}

/// Attack set of a cell and family under a concrete occupancy.
pub fn attacks(square: u8, family: PieceFamily, occupancy: u64) -> (result: u64)
    requires
        square <= 63,
    ensures
        result == attack_set_spec(square as int, family, occupancy),
{
    match family {
        PieceFamily::Diagonal => get_bishop_attack(square, occupancy),
        PieceFamily::Orthogonal => get_rook_attack(square, occupancy),
    }
}

} // verus!
