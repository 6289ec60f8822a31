//! Hole detection: given one accepted magic candidate, recompute which
//! hash slots any occupancy variation touches and report long maximal
//! runs of unused slots, which further compaction could excise.

use vstd::prelude::*;
use vstd::arithmetic::power2::pow2;
use vstd::arithmetic::power2::lemma2_to64;
use crate::geometry::PieceFamily;
use crate::search::hash_of;
use crate::search::key_of;
use crate::search::variations;
use crate::search::get_offset;
use crate::search::build_tables;

verus! {

/// Smallest run of unused slots worth recording; a tunable threshold,
/// not a correctness requirement.
pub const MIN_HOLE_SIZE: usize = 50;

/// A maximal run of hash slots no occupancy variation touches.
#[derive(Clone, Copy, Debug, PartialEq, Eq, Structural)]
pub struct Hole {
    pub position: usize,
    pub size: usize,
}

/// Some occupancy variation of the cell and family hashes to slot `s`.
pub open spec fn touched(sq: int, family: PieceFamily, magic: u64, bits: u32, s: int) -> bool {
    exists|i: int|
        0 <= i < variations(sq, family) && hash_of(#[trigger] key_of(sq, family, i), magic, bits)
            == s
}

/// `h` is a maximal untouched run longer than `min_size` within the
/// `2^bits` slots.
pub open spec fn hole_valid(
    h: Hole,
    sq: int,
    family: PieceFamily,
    magic: u64,
    bits: u32,
    min_size: usize,
) -> bool {
    &&& h.size > min_size
    &&& h.position + h.size <= pow2(bits as nat)
    &&& forall|s: int| h.position <= s < h.position + h.size ==> !touched(sq, family, magic, bits, s)
    &&& (h.position == 0 || touched(sq, family, magic, bits, h.position - 1))
    &&& (h.position + h.size == pow2(bits as nat) || touched(
        sq,
        family,
        magic,
        bits,
        h.position + h.size,
    ))
}

/// Scans the hash range of one accepted candidate and reports exactly
/// the maximal runs of unused slots longer than `min_size`: everything
/// reported is such a run, and every such run is reported.
pub fn find_holes(square: u8, family: PieceFamily, bits: u32, magic: u64, min_size: usize) -> (holes:
    Vec<Hole>)
    requires
        square <= 63,
        1 <= bits <= 15,
    ensures
        forall|k: int|
            0 <= k < holes@.len() ==> hole_valid(
                #[trigger] holes@[k],
                square as int,
                family,
                magic,
                bits,
                min_size,
            ),
        forall|h: Hole|
            #[trigger] hole_valid(h, square as int, family, magic, bits, min_size)
                ==> holes@.contains(h),
{
    let ghost sq: int = square as int;
    let tables = build_tables(square, family);
    let keys = tables.0;
    let n: usize = keys.len();
    proof {
        lemma2_to64();
        vstd::bits::lemma_usize_shl_is_mul(1usize, bits as usize);
    }
    let size: usize = 1usize << (bits as usize);
    let mut tab: Vec<bool> = Vec::new();
    let mut s: usize = 0;
    while s < size
        invariant
            tab@.len() == s,
            s <= size,
            forall|t: int| 0 <= t < s as int ==> !(#[trigger] tab@[t]),
        decreases size - s,
    {
        tab.push(false);
        s = s + 1;
    }
    let mut i: usize = 0;
    while i < n
        invariant
            square <= 63,
            sq == square as int,
            1 <= bits <= 15,
            n == keys@.len(),
            n == variations(sq, family),
            forall|j: int| 0 <= j < n as int ==> keys@[j] == key_of(sq, family, j),
            tab@.len() == pow2(bits as nat),
            i <= n,
            forall|t: int|
                0 <= t < tab@.len() && #[trigger] tab@[t] ==> touched(sq, family, magic, bits, t),
            forall|i0: int|
                0 <= i0 < i as int ==> tab@[hash_of(key_of(sq, family, i0), magic, bits) as int],
        decreases n - i,
    {
        let h: usize = get_offset(keys[i], magic, bits);
        let ghost tab0: Seq<bool> = tab@;
        tab[h] = true;
        proof {
            assert(hash_of(key_of(sq, family, i as int), magic, bits) == h);
            assert forall|t: int|
                0 <= t < tab@.len() && #[trigger] tab@[t] implies touched(
                sq,
                family,
                magic,
                bits,
                t,
            ) by {
                if t != h as int {
                    assert(tab0[t]);
                }
            }
            assert forall|i0: int| 0 <= i0 < i as int + 1 implies tab@[hash_of(
                key_of(sq, family, i0),
                magic,
                bits,
            ) as int] by {
                lemma2_to64();
                vstd::bits::lemma_u64_shl_is_mul(1u64, bits as u64);
                crate::search::lemma_hash_bound(key_of(sq, family, i0).wrapping_mul(magic), bits);
                if i0 < i as int {
                    assert(tab0[hash_of(key_of(sq, family, i0), magic, bits) as int]);
                }
            }
        }
        i = i + 1;
    }
    proof {
        assert forall|t: int| 0 <= t < tab@.len() implies (tab@[t] == touched(
            sq,
            family,
            magic,
            bits,
            t,
        )) by {
            if touched(sq, family, magic, bits, t) {
                let i0 = choose|i0: int|
                    0 <= i0 < variations(sq, family) && hash_of(
                        #[trigger] key_of(sq, family, i0),
                        magic,
                        bits,
                    ) == t;
                assert(tab@[hash_of(key_of(sq, family, i0), magic, bits) as int]);
            }
        }
    }
    let mut holes: Vec<Hole> = Vec::new();
    let mut in_run: bool = false;
    let mut run_start: usize = 0;
    let mut s2: usize = 0;
    while s2 < size
        invariant
            tab@.len() == pow2(bits as nat),
            size == pow2(bits as nat),
            s2 <= size,
            forall|t: int|
                0 <= t < tab@.len() ==> (#[trigger] tab@[t] == touched(sq, family, magic, bits, t)),
            forall|k: int|
                0 <= k < holes@.len() ==> hole_valid(
                    #[trigger] holes@[k],
                    sq,
                    family,
                    magic,
                    bits,
                    min_size,
                ),
            in_run ==> run_start < s2 && (run_start == 0 || tab@[run_start as int - 1]) && forall|
                t: int,
            |
                run_start <= t < s2 as int ==> !(#[trigger] tab@[t]),
            !in_run ==> s2 == 0 || tab@[s2 as int - 1],
            forall|h: Hole|
                #[trigger] hole_valid(h, sq, family, magic, bits, min_size) && h.position + h.size
                    < s2 as int ==> holes@.contains(h),
        decreases size - s2,
    {
        let ghost holes0: Seq<Hole> = holes@;
        let ghost in_run0: bool = in_run;
        let ghost run_start0: usize = run_start;
        if !tab[s2] {
            if !in_run {
                in_run = true;
                run_start = s2;
            }
        } else {
            if in_run {
                if s2 - run_start > min_size {
                    let hole = Hole { position: run_start, size: s2 - run_start };
                    proof {
                        assert forall|t: int|
                            hole.position <= t < hole.position + hole.size implies !touched(
                            sq,
                            family,
                            magic,
                            bits,
                            t,
                        ) by {
                            assert(!tab@[t]);
                        }
                        assert(touched(sq, family, magic, bits, hole.position + hole.size));
                        assert(hole_valid(hole, sq, family, magic, bits, min_size));
                    }
                    holes.push(hole);
                    proof {
                        assert(holes@[holes@.len() - 1] == hole);
                        assert(holes@.contains(hole));
                    }
                }
                in_run = false;
            }
        }
        proof {
            assert forall|h: Hole|
                #[trigger] hole_valid(h, sq, family, magic, bits, min_size) && h.position + h.size
                    < s2 as int + 1 implies holes@.contains(h) by {
                if h.position + h.size < s2 as int {
                    assert(holes0.contains(h));
                    let k = choose|k: int| 0 <= k < holes0.len() && holes0[k] == h;
                    assert(holes@[k] == h);
                } else if h.position + h.size == s2 as int {
                    if !tab@[s2 as int] {
                        assert(!touched(sq, family, magic, bits, s2 as int));
                        assert(false);
                    } else if in_run0 {
                        lemma_run_start_matches(
                            h,
                            tab@,
                            sq,
                            family,
                            magic,
                            bits,
                            min_size,
                            run_start0 as int,
                            s2 as int,
                        );
                        if s2 - run_start0 > min_size {
                            let hole = Hole { position: run_start0, size: (s2 - run_start0) as usize };
                            assert(h == hole);
                            assert(holes@[holes@.len() - 1] == hole);
                            assert(holes@.contains(h));
                        } else {
                            assert(h.size <= min_size);
                            assert(false);
                        }
                    } else {
                        assert(!touched(sq, family, magic, bits, s2 as int - 1));
                        assert(tab@[s2 as int - 1]);
                        assert(false);
                    }
                }
            }
        }
        s2 = s2 + 1;
    }
    let ghost holes1: Seq<Hole> = holes@;
    let ghost in_run1: bool = in_run;
    let ghost run_start1: usize = run_start;
    if in_run && size - run_start > min_size {
        let hole = Hole { position: run_start, size: size - run_start };
        proof {
            assert forall|t: int|
                hole.position <= t < hole.position + hole.size implies !touched(
                sq,
                family,
                magic,
                bits,
                t,
            ) by {
                assert(!tab@[t]);
            }
            assert(hole_valid(hole, sq, family, magic, bits, min_size));
        }
        holes.push(hole);
        proof {
            assert(holes@[holes@.len() - 1] == hole);
        }
    }
    proof {
        assert forall|h: Hole|
            #[trigger] hole_valid(h, sq, family, magic, bits, min_size) implies holes@.contains(
            h,
        ) by {
            if h.position + h.size < size as int {
                assert(holes1.contains(h));
                let k = choose|k: int| 0 <= k < holes1.len() && holes1[k] == h;
                assert(holes@[k] == h);
            } else {
                assert(h.position + h.size == size as int);
                if in_run1 {
                    lemma_run_start_matches(
                        h,
                        tab@,
                        sq,
                        family,
                        magic,
                        bits,
                        min_size,
                        run_start1 as int,
                        size as int,
                    );
                    if size - run_start1 > min_size {
                        let hole = Hole { position: run_start1, size: (size - run_start1) as usize };
                        assert(h == hole);
                        assert(holes@[holes@.len() - 1] == hole);
                    } else {
                        assert(h.size <= min_size);
                        assert(false);
                    }
                } else {
                    assert(!touched(sq, family, magic, bits, size as int - 1));
                    assert(tab@[size as int - 1]);
                    assert(false);
                }
            }
        }
    }
    holes
}

/// Two maximal untouched runs ending at the same slot start at the same
/// slot: their left boundaries are touched, so neither can reach into
/// the other.
proof fn lemma_run_start_matches(
    h: Hole,
    tabv: Seq<bool>,
    sq: int,
    family: PieceFamily,
    magic: u64,
    bits: u32,
    min_size: usize,
    rs: int,
    e: int,
)
    requires
        tabv.len() == pow2(bits as nat),
        forall|t: int|
            0 <= t < tabv.len() ==> (#[trigger] tabv[t] == touched(sq, family, magic, bits, t)),
        hole_valid(h, sq, family, magic, bits, min_size),
        h.position + h.size == e,
        0 <= rs < e <= tabv.len(),
        rs == 0 || tabv[rs - 1],
        forall|t: int| rs <= t < e ==> !(#[trigger] tabv[t]),
    ensures
        h.position == rs,
{
    if h.position < rs {
        assert(!touched(sq, family, magic, bits, rs - 1));
        assert(tabv[rs - 1]);
        assert(false);
    } else if h.position > rs {
        assert(touched(sq, family, magic, bits, h.position - 1));
        assert(!tabv[h.position - 1]);
        assert(false);
    }
}

} // verus!
