//! Table consolidation: among many validated magic candidates per cell,
//! choose one per cell of a sharing group so that the union of their
//! hash ranges, and with it the shared backing array, is as small as
//! possible.

use vstd::prelude::*;

verus! {

/// One recorded magic candidate as read back from durable storage: the
/// multiplier, the smallest touched hash slot, and the width of the
/// touched range.
#[derive(Clone, Copy, Debug, PartialEq, Eq, Structural)]
pub struct MagicEntry {
    pub magic_factor: u64,
    pub min: u32,
    pub width: u32,
}

/// One past the largest touched hash slot of an entry.
pub open spec fn entry_end(e: MagicEntry) -> int {
    e.min + e.width
}

/// The entry's range arithmetic stays within `u32`.
pub open spec fn entry_fits(e: MagicEntry) -> bool {
    e.min + e.width <= u32::MAX
}

/// Every entry of a pool fits `u32` range arithmetic.
pub open spec fn pool_fits(pool: Seq<MagicEntry>) -> bool {
    forall|i: int| 0 <= i < pool.len() ==> entry_fits(#[trigger] pool[i])
}

/// Width of the smallest contiguous range covering both entries' ranges.
pub open spec fn shared_size_spec(a: MagicEntry, b: MagicEntry) -> int {
    (if entry_end(a) >= entry_end(b) {
        entry_end(a)
    } else {
        entry_end(b)
    }) - (if a.min <= b.min {
        a.min as int
    } else {
        b.min as int
    })
}

/// Start of the smallest contiguous range covering both entries' ranges.
pub open spec fn shared_start_spec(a: MagicEntry, b: MagicEntry) -> u32 {
    if a.min <= b.min {
        a.min
    } else {
        b.min
    }
}

impl MagicEntry {
    /// Width of the smallest backing range covering both entries.
    pub fn shared_size(&self, other: &MagicEntry) -> (size: u32)
        requires
            entry_fits(*self),
            entry_fits(*other),
        ensures
            size == shared_size_spec(*self, *other),
    {
        let end_a: u32 = self.min + self.width;
        let end_b: u32 = other.min + other.width;
        let end: u32 = if end_a >= end_b {
            end_a
        } else {
            end_b
        };
        let start: u32 = if self.min <= other.min {
            self.min
        } else {
            other.min
        };
        end - start
    }
}

/// The choice reported for a two-cell sharing group.
#[derive(Clone, Copy, Debug, PartialEq, Eq, Structural)]
pub struct PairChoice {
    pub magic1: u64,
    pub magic2: u64,
    pub start_offset: u32,
    pub shared_size: u32,
}

/// `ch` picks one entry of each pool, reports that pair's range union,
/// and no other pair of the two pools has a smaller union.
pub open spec fn pair_minimal(ch: PairChoice, pool1: Seq<MagicEntry>, pool2: Seq<MagicEntry>)
    -> bool {
    &&& exists|i: int, j: int|
        0 <= i < pool1.len() && 0 <= j < pool2.len() && ch.magic1 == #[trigger] pool1[i].magic_factor
            && ch.magic2 == #[trigger] pool2[j].magic_factor && ch.shared_size == shared_size_spec(
            pool1[i],
            pool2[j],
        ) && ch.start_offset == shared_start_spec(pool1[i], pool2[j])
    &&& forall|i: int, j: int|
        0 <= i < pool1.len() && 0 <= j < pool2.len() ==> ch.shared_size <= shared_size_spec(
            #[trigger] pool1[i],
            #[trigger] pool2[j],
        )
}

/// Consolidation was invoked with an empty candidate pool for some cell;
/// the preceding search phase must supply at least one candidate each.
#[derive(Clone, Copy, Debug, PartialEq, Eq, Structural)]
pub struct EmptyPool;

/// Scans every pair of candidates of a two-cell sharing group and picks
/// one with the smallest shared range. The reported size is less than or
/// equal to every pair's shared size, and is attained by the reported
/// multipliers.
pub fn consolidate_pair(pool1: &Vec<MagicEntry>, pool2: &Vec<MagicEntry>) -> (r: Result<
    PairChoice,
    EmptyPool,
>)
    requires
        pool_fits(pool1@),
        pool_fits(pool2@),
    ensures
        r.is_ok() <==> pool1@.len() > 0 && pool2@.len() > 0,
        r matches Ok(ch) ==> pair_minimal(ch, pool1@, pool2@),
{
    if pool1.len() == 0 || pool2.len() == 0 {
        return Err(EmptyPool);
    }
    let mut best_i: usize = 0;
    let mut best_j: usize = 0;
    let mut best_size: u32 = pool1[0].shared_size(&pool2[0]);
    let mut i: usize = 0;
    while i < pool1.len()
        invariant
            pool_fits(pool1@),
            pool_fits(pool2@),
            pool1@.len() > 0,
            pool2@.len() > 0,
            i <= pool1@.len(),
            best_i < pool1@.len(),
            best_j < pool2@.len(),
            best_size == shared_size_spec(pool1@[best_i as int], pool2@[best_j as int]),
            forall|i0: int, j0: int|
                0 <= i0 < i as int && 0 <= j0 < pool2@.len() ==> best_size <= shared_size_spec(
                    #[trigger] pool1@[i0],
                    #[trigger] pool2@[j0],
                ),
        decreases pool1@.len() - i,
    {
        let mut j: usize = 0;
        while j < pool2.len()
            invariant
                pool_fits(pool1@),
                pool_fits(pool2@),
                pool1@.len() > 0,
                pool2@.len() > 0,
                i < pool1@.len(),
                j <= pool2@.len(),
                best_i < pool1@.len(),
                best_j < pool2@.len(),
                best_size == shared_size_spec(pool1@[best_i as int], pool2@[best_j as int]),
                forall|i0: int, j0: int|
                    0 <= i0 < i as int && 0 <= j0 < pool2@.len() ==> best_size
                        <= shared_size_spec(#[trigger] pool1@[i0], #[trigger] pool2@[j0]),
                forall|j0: int|
                    0 <= j0 < j as int ==> best_size <= shared_size_spec(
                        pool1@[i as int],
                        #[trigger] pool2@[j0],
                    ),
            decreases pool2@.len() - j,
        {
            let size: u32 = pool1[i].shared_size(&pool2[j]);
            if size < best_size {
                best_size = size;
                best_i = i;
                best_j = j;
            }
            j = j + 1;
        }
        i = i + 1;
    }
    let a = pool1[best_i];
    let b = pool2[best_j];
    let start: u32 = if a.min <= b.min {
        a.min
    } else {
        b.min
    };
    Ok(
        PairChoice {
            magic1: a.magic_factor,
            magic2: b.magic_factor,
            start_offset: start,
            shared_size: best_size,
        },
    )
}

/// Width of the smallest contiguous range covering all four entries'
/// ranges.
pub open spec fn group_size_spec(e0: MagicEntry, e1: MagicEntry, e2: MagicEntry, e3: MagicEntry)
    -> int {
    let end01 = if entry_end(e0) >= entry_end(e1) {
        entry_end(e0)
    } else {
        entry_end(e1)
    };
    let end23 = if entry_end(e2) >= entry_end(e3) {
        entry_end(e2)
    } else {
        entry_end(e3)
    };
    let end = if end01 >= end23 {
        end01
    } else {
        end23
    };
    end - group_start_spec(e0, e1, e2, e3)
}

/// Start of the smallest contiguous range covering all four entries.
pub open spec fn group_start_spec(e0: MagicEntry, e1: MagicEntry, e2: MagicEntry, e3: MagicEntry)
    -> int {
    let min01 = if e0.min <= e1.min {
        e0.min as int
    } else {
        e1.min as int
    };
    let min23 = if e2.min <= e3.min {
        e2.min as int
    } else {
        e3.min as int
    };
    if min01 <= min23 {
        min01
    } else {
        min23
    }
}

/// The choice reported for a four-cell sharing group.
#[derive(Clone, Copy, Debug, PartialEq, Eq, Structural)]
pub struct GroupChoice {
    pub magic0: u64,
    pub magic1: u64,
    pub magic2: u64,
    pub magic3: u64,
    pub start_offset: u32,
    pub shared_size: u32,
}

/// `ch` picks one entry of each of the four pools, reports that
/// combination's range union, and no other combination has a smaller
/// union.
pub open spec fn group_minimal(
    ch: GroupChoice,
    p0: Seq<MagicEntry>,
    p1: Seq<MagicEntry>,
    p2: Seq<MagicEntry>,
    p3: Seq<MagicEntry>,
) -> bool {
    &&& exists|a: int, b: int, c: int, d: int|
        0 <= a < p0.len() && 0 <= b < p1.len() && 0 <= c < p2.len() && 0 <= d < p3.len()
            && ch.magic0 == #[trigger] p0[a].magic_factor && ch.magic1
            == #[trigger] p1[b].magic_factor && ch.magic2 == #[trigger] p2[c].magic_factor
            && ch.magic3 == #[trigger] p3[d].magic_factor && ch.shared_size == group_size_spec(
            p0[a],
            p1[b],
            p2[c],
            p3[d],
        ) && ch.start_offset == group_start_spec(p0[a], p1[b], p2[c], p3[d])
    &&& forall|a: int, b: int, c: int, d: int|
        0 <= a < p0.len() && 0 <= b < p1.len() && 0 <= c < p2.len() && 0 <= d < p3.len()
            ==> ch.shared_size <= group_size_spec(
            #[trigger] p0[a],
            #[trigger] p1[b],
            #[trigger] p2[c],
            #[trigger] p3[d],
        )
}

/// Size and start of the range union of four entries.
fn group_metrics(e0: &MagicEntry, e1: &MagicEntry, e2: &MagicEntry, e3: &MagicEntry) -> (m: (
    u32,
    u32,
))
    requires
        entry_fits(*e0),
        entry_fits(*e1),
        entry_fits(*e2),
        entry_fits(*e3),
    ensures
        m.0 == group_size_spec(*e0, *e1, *e2, *e3),
        m.1 == group_start_spec(*e0, *e1, *e2, *e3),
{
    let end0: u32 = e0.min + e0.width;
    let end1: u32 = e1.min + e1.width;
    let end2: u32 = e2.min + e2.width;
    let end3: u32 = e3.min + e3.width;
    let end01: u32 = if end0 >= end1 {
        end0
    } else {
        end1
    };
    let end23: u32 = if end2 >= end3 {
        end2
    } else {
        end3
    };
    let end: u32 = if end01 >= end23 {
        end01
    } else {
        end23
    };
    let min01: u32 = if e0.min <= e1.min {
        e0.min
    } else {
        e1.min
    };
    let min23: u32 = if e2.min <= e3.min {
        e2.min
    } else {
        e3.min
    };
    let start: u32 = if min01 <= min23 {
        min01
    } else {
        min23
    };
    (end - start, start)
}

/// Searches the cartesian product of the four candidate pools of a
/// sharing group for the combination with the smallest range union.
pub fn consolidate_group4(
    p0: &Vec<MagicEntry>,
    p1: &Vec<MagicEntry>,
    p2: &Vec<MagicEntry>,
    p3: &Vec<MagicEntry>,
) -> (r: Result<GroupChoice, EmptyPool>)
    requires
        pool_fits(p0@),
        pool_fits(p1@),
        pool_fits(p2@),
        pool_fits(p3@),
    ensures
        r.is_ok() <==> p0@.len() > 0 && p1@.len() > 0 && p2@.len() > 0 && p3@.len() > 0,
        r matches Ok(ch) ==> group_minimal(ch, p0@, p1@, p2@, p3@),
{
    if p0.len() == 0 || p1.len() == 0 || p2.len() == 0 || p3.len() == 0 {
        return Err(EmptyPool);
    }
    let mut ba: usize = 0;
    let mut bb: usize = 0;
    let mut bc: usize = 0;
    let mut bd: usize = 0;
    let first = group_metrics(&p0[0], &p1[0], &p2[0], &p3[0]);
    let mut best_size: u32 = first.0;
    let mut best_start: u32 = first.1;
    let mut a: usize = 0;
    while a < p0.len()
        invariant
            pool_fits(p0@),
            pool_fits(p1@),
            pool_fits(p2@),
            pool_fits(p3@),
            p0@.len() > 0 && p1@.len() > 0 && p2@.len() > 0 && p3@.len() > 0,
            a <= p0@.len(),
            ba < p0@.len() && bb < p1@.len() && bc < p2@.len() && bd < p3@.len(),
            best_size == group_size_spec(
                p0@[ba as int],
                p1@[bb as int],
                p2@[bc as int],
                p3@[bd as int],
            ),
            best_start == group_start_spec(
                p0@[ba as int],
                p1@[bb as int],
                p2@[bc as int],
                p3@[bd as int],
            ),
            forall|a0: int, b0: int, c0: int, d0: int|
                0 <= a0 < a as int && 0 <= b0 < p1@.len() && 0 <= c0 < p2@.len() && 0 <= d0
                    < p3@.len() ==> best_size <= group_size_spec(
                    #[trigger] p0@[a0],
                    #[trigger] p1@[b0],
                    #[trigger] p2@[c0],
                    #[trigger] p3@[d0],
                ),
        decreases p0@.len() - a,
    {
        let mut b: usize = 0;
        while b < p1.len()
            invariant
                pool_fits(p0@),
                pool_fits(p1@),
                pool_fits(p2@),
                pool_fits(p3@),
                p0@.len() > 0 && p1@.len() > 0 && p2@.len() > 0 && p3@.len() > 0,
                a < p0@.len(),
                b <= p1@.len(),
                ba < p0@.len() && bb < p1@.len() && bc < p2@.len() && bd < p3@.len(),
                best_size == group_size_spec(
                    p0@[ba as int],
                    p1@[bb as int],
                    p2@[bc as int],
                    p3@[bd as int],
                ),
                best_start == group_start_spec(
                    p0@[ba as int],
                    p1@[bb as int],
                    p2@[bc as int],
                    p3@[bd as int],
                ),
                forall|a0: int, b0: int, c0: int, d0: int|
                    0 <= a0 < a as int && 0 <= b0 < p1@.len() && 0 <= c0 < p2@.len() && 0 <= d0
                        < p3@.len() ==> best_size <= group_size_spec(
                        #[trigger] p0@[a0],
                        #[trigger] p1@[b0],
                        #[trigger] p2@[c0],
                        #[trigger] p3@[d0],
                    ),
                forall|b0: int, c0: int, d0: int|
                    0 <= b0 < b as int && 0 <= c0 < p2@.len() && 0 <= d0 < p3@.len() ==> best_size
                        <= group_size_spec(
                        p0@[a as int],
                        #[trigger] p1@[b0],
                        #[trigger] p2@[c0],
                        #[trigger] p3@[d0],
                    ),
            decreases p1@.len() - b,
        {
            let mut c: usize = 0;
            while c < p2.len()
                invariant
                    pool_fits(p0@),
                    pool_fits(p1@),
                    pool_fits(p2@),
                    pool_fits(p3@),
                    p0@.len() > 0 && p1@.len() > 0 && p2@.len() > 0 && p3@.len() > 0,
                    a < p0@.len(),
                    b < p1@.len(),
                    c <= p2@.len(),
                    ba < p0@.len() && bb < p1@.len() && bc < p2@.len() && bd < p3@.len(),
                    best_size == group_size_spec(
                        p0@[ba as int],
                        p1@[bb as int],
                        p2@[bc as int],
                        p3@[bd as int],
                    ),
                    best_start == group_start_spec(
                        p0@[ba as int],
                        p1@[bb as int],
                        p2@[bc as int],
                        p3@[bd as int],
                    ),
                    forall|a0: int, b0: int, c0: int, d0: int|
                        0 <= a0 < a as int && 0 <= b0 < p1@.len() && 0 <= c0 < p2@.len() && 0 <= d0
                            < p3@.len() ==> best_size <= group_size_spec(
                            #[trigger] p0@[a0],
                            #[trigger] p1@[b0],
                            #[trigger] p2@[c0],
                            #[trigger] p3@[d0],
                        ),
                    forall|b0: int, c0: int, d0: int|
                        0 <= b0 < b as int && 0 <= c0 < p2@.len() && 0 <= d0 < p3@.len()
                            ==> best_size <= group_size_spec(
                            p0@[a as int],
                            #[trigger] p1@[b0],
                            #[trigger] p2@[c0],
                            #[trigger] p3@[d0],
                        ),
                    forall|c0: int, d0: int|
                        0 <= c0 < c as int && 0 <= d0 < p3@.len() ==> best_size
                            <= group_size_spec(
                            p0@[a as int],
                            p1@[b as int],
                            #[trigger] p2@[c0],
                            #[trigger] p3@[d0],
                        ),
                decreases p2@.len() - c,
            {
                let mut d: usize = 0;
                while d < p3.len()
                    invariant
                        pool_fits(p0@),
                        pool_fits(p1@),
                        pool_fits(p2@),
                        pool_fits(p3@),
                        p0@.len() > 0 && p1@.len() > 0 && p2@.len() > 0 && p3@.len() > 0,
                        a < p0@.len(),
                        b < p1@.len(),
                        c < p2@.len(),
                        d <= p3@.len(),
                        ba < p0@.len() && bb < p1@.len() && bc < p2@.len() && bd < p3@.len(),
                        best_size == group_size_spec(
                            p0@[ba as int],
                            p1@[bb as int],
                            p2@[bc as int],
                            p3@[bd as int],
                        ),
                        best_start == group_start_spec(
                            p0@[ba as int],
                            p1@[bb as int],
                            p2@[bc as int],
                            p3@[bd as int],
                        ),
                        forall|a0: int, b0: int, c0: int, d0: int|
                            0 <= a0 < a as int && 0 <= b0 < p1@.len() && 0 <= c0 < p2@.len() && 0
                                <= d0 < p3@.len() ==> best_size <= group_size_spec(
                                #[trigger] p0@[a0],
                                #[trigger] p1@[b0],
                                #[trigger] p2@[c0],
                                #[trigger] p3@[d0],
                            ),
                        forall|b0: int, c0: int, d0: int|
                            0 <= b0 < b as int && 0 <= c0 < p2@.len() && 0 <= d0 < p3@.len()
                                ==> best_size <= group_size_spec(
                                p0@[a as int],
                                #[trigger] p1@[b0],
                                #[trigger] p2@[c0],
                                #[trigger] p3@[d0],
                            ),
                        forall|c0: int, d0: int|
                            0 <= c0 < c as int && 0 <= d0 < p3@.len() ==> best_size
                                <= group_size_spec(
                                p0@[a as int],
                                p1@[b as int],
                                #[trigger] p2@[c0],
                                #[trigger] p3@[d0],
                            ),
                        forall|d0: int|
                            0 <= d0 < d as int ==> best_size <= group_size_spec(
                                p0@[a as int],
                                p1@[b as int],
                                p2@[c as int],
                                #[trigger] p3@[d0],
                            ),
                    decreases p3@.len() - d,
                {
                    let m = group_metrics(&p0[a], &p1[b], &p2[c], &p3[d]);
                    if m.0 < best_size {
                        best_size = m.0;
                        best_start = m.1;
                        ba = a;
                        bb = b;
                        bc = c;
                        bd = d;
                    }
                    d = d + 1;
                }
                c = c + 1;
            }
            b = b + 1;
        }
        a = a + 1;
    }
    Ok(
        GroupChoice {
            magic0: p0[ba].magic_factor,
            magic1: p1[bb].magic_factor,
            magic2: p2[bc].magic_factor,
            magic3: p3[bd].magic_factor,
            start_offset: best_start,
            shared_size: best_size,
        },
    )
}

/// The cell an even-row cell shares its rook backing array with: the
/// diagonal neighbour one row below, rightward for even columns and
/// leftward for odd ones.
pub open spec fn rook_partner_spec(sq: int) -> int {
    if sq % 2 == 0 {
        sq + 9
    } else {
        sq + 7
    }
}

/// The fixed 16-group partition of the 64 cells for bishop sharing:
/// columns 0, 1, 6 and 7 split by board half, the four middle columns
/// grouped per row.
pub open spec fn bishop_sharing_spec(sq: int) -> int {
    let r = sq / 8;
    let c = sq % 8;
    if c == 0 {
        if r < 4 {
            0
        } else {
            1
        }
    } else if c == 1 {
        if r < 4 {
            2
        } else {
            3
        }
    } else if c == 6 {
        if r < 4 {
            12
        } else {
            13
        }
    } else if c == 7 {
        if r < 4 {
            14
        } else {
            15
        }
    } else {
        4 + r
    }
}

/// Sharing group of a cell for the diagonal family.
pub fn bishop_sharing(square: u8) -> (g: u8)
    requires
        square <= 63,
    ensures
        g as int == bishop_sharing_spec(square as int),
        g <= 15,
{
    let row: u8 = square / 8;
    let col: u8 = square % 8;
    if col == 0 {
        if row < 4 {
            0
        } else {
            1
        }
    } else if col == 1 {
        if row < 4 {
            2
        } else {
            3
        }
    } else if col == 6 {
        if row < 4 {
            12
        } else {
            13
        }
    } else if col == 7 {
        if row < 4 {
            14
        } else {
            15
        }
    } else {
        4 + row
    }
}

/// The four cells of bishop sharing group `g`, in ascending order.
pub fn bishop_group(g: u8) -> (squares: Vec<u8>)
    requires
        g <= 15,
    ensures
        squares@.len() == 4,
        forall|k: int|
            0 <= k < 4 ==> (#[trigger] squares@[k]) <= 63 && bishop_sharing_spec(
                squares@[k] as int,
            ) == g as int,
        squares@[0] < squares@[1] && squares@[1] < squares@[2] && squares@[2] < squares@[3],
{
    let mut v: Vec<u8> = Vec::new();
    if g < 4 {
        let col: u8 = if g < 2 {
            0
        } else {
            1
        };
        let base: u8 = if g % 2 == 0 {
            0
        } else {
            4
        };
        v.push(8 * base + col);
        v.push(8 * (base + 1) + col);
        v.push(8 * (base + 2) + col);
        v.push(8 * (base + 3) + col);
    } else if g < 12 {
        let row: u8 = g - 4;
        v.push(8 * row + 2);
        v.push(8 * row + 3);
        v.push(8 * row + 4);
        v.push(8 * row + 5);
    } else {
        let col: u8 = if g < 14 {
            6
        } else {
            7
        };
        let base: u8 = if g % 2 == 0 {
            0
        } else {
            4
        };
        v.push(8 * base + col);
        v.push(8 * (base + 1) + col);
        v.push(8 * (base + 2) + col);
        v.push(8 * (base + 3) + col);
    }
    v
}

/// Consolidation outcome for one two-cell rook group.
#[derive(Clone, Copy, Debug, PartialEq, Eq, Structural)]
pub struct PairResult {
    pub square1: u8,
    pub square2: u8,
    pub choice: PairChoice,
}

/// Consolidates the rook tables: every cell of an even row is paired
/// with its partner cell, and for each pair the minimal shared range is
/// chosen from the two candidate pools.
pub fn consolidate_rook_tables(tables: &Vec<Vec<MagicEntry>>) -> (r: Result<
    Vec<PairResult>,
    EmptyPool,
>)
    requires
        tables@.len() == 64,
        forall|s: int| 0 <= s < 64 ==> pool_fits((#[trigger] tables@[s])@),
    ensures
        r matches Ok(res) ==> res@.len() == 32 && forall|k: int|
            0 <= k < 32 ==> (#[trigger] res@[k]).square1 <= 63 && res@[k].square2 <= 63
                && res@[k].square1 as int == 16 * (k / 8) + k % 8 && res@[k].square2 as int
                == rook_partner_spec(res@[k].square1 as int) && pair_minimal(
                res@[k].choice,
                tables@[res@[k].square1 as int]@,
                tables@[res@[k].square2 as int]@,
            ),
        r.is_err() ==> exists|s: int| 0 <= s < 64 && (#[trigger] tables@[s])@.len() == 0,
{
    let mut res: Vec<PairResult> = Vec::new();
    let mut row: u8 = 0;
    while row < 8
        invariant
            tables@.len() == 64,
            forall|s: int| 0 <= s < 64 ==> pool_fits((#[trigger] tables@[s])@),
            row % 2 == 0,
            row <= 8,
            res@.len() == (row as int / 2) * 8,
            forall|k: int|
                0 <= k < res@.len() ==> (#[trigger] res@[k]).square1 <= 63 && res@[k].square2
                    <= 63 && res@[k].square1 as int == 16 * (k / 8) + k % 8 && res@[
                k].square2 as int == rook_partner_spec(res@[k].square1 as int) && pair_minimal(
                    res@[k].choice,
                    tables@[res@[k].square1 as int]@,
                    tables@[res@[k].square2 as int]@,
                ),
        decreases 8 - row,
    {
        let mut col: u8 = 0;
        while col < 8
            invariant
                tables@.len() == 64,
                forall|s: int| 0 <= s < 64 ==> pool_fits((#[trigger] tables@[s])@),
                row % 2 == 0,
                row < 8,
                col <= 8,
                res@.len() == (row as int / 2) * 8 + col as int,
                forall|k: int|
                    0 <= k < res@.len() ==> (#[trigger] res@[k]).square1 <= 63 && res@[k].square2
                        <= 63 && res@[k].square1 as int == 16 * (k / 8) + k % 8 && res@[
                    k].square2 as int == rook_partner_spec(res@[k].square1 as int)
                        && pair_minimal(
                        res@[k].choice,
                        tables@[res@[k].square1 as int]@,
                        tables@[res@[k].square2 as int]@,
                    ),
            decreases 8 - col,
        {
            let sq: u8 = 8 * row + col;
            let partner: u8 = if sq % 2 == 0 {
                sq + 9
            } else {
                sq + 7
            };
            match consolidate_pair(&tables[sq as usize], &tables[partner as usize]) {
                Ok(choice) => {
                    res.push(PairResult { square1: sq, square2: partner, choice });
                },
                Err(e) => {
                    proof {
                        assert(tables@[sq as int]@.len() == 0 || tables@[partner as int]@.len()
                            == 0);
                    }
                    return Err(e);
                },
            }
            col = col + 1;
        }
        row = row + 2;
    }
    Ok(res)
}

/// Sum of the shared sizes chosen for a list of pair results.
pub open spec fn total_shared_spec(res: Seq<PairResult>) -> int
    decreases res.len(),
{
    if res.len() == 0 {
        0
    } else {
        total_shared_spec(res.drop_last()) + res.last().choice.shared_size
    }
}

/// Total backing-array size predicted by a list of pair choices.
pub fn predicted_total(res: &Vec<PairResult>) -> (total: u64)
    requires
        res@.len() <= 64,
    ensures
        total == total_shared_spec(res@),
{
    let mut total: u64 = 0;
    let mut i: usize = 0;
    while i < res.len()
        invariant
            i <= res@.len(),
            res@.len() <= 64,
            total == total_shared_spec(res@.take(i as int)),
            total <= (i as int) * 0x1_0000_0000,
        decreases res@.len() - i,
    {
        proof {
            assert(res@.take(i as int + 1).drop_last() =~= res@.take(i as int));
            assert(res@.take(i as int + 1).last() == res@[i as int]);
        }
        total = total + res[i].choice.shared_size as u64;
        i = i + 1;
    }
    proof {
        assert(res@.take(res@.len() as int) =~= res@);
    }
    total
}

/// Consolidation outcome for one four-cell bishop group.
pub struct GroupResult {
    pub group: u8,
    pub squares: Vec<u8>,
    pub choice: GroupChoice,
}

/// Consolidates the bishop tables: for each of the 16 fixed sharing
/// groups, the minimal shared range over the cartesian product of the
/// four member pools is chosen.
pub fn consolidate_bishop_tables(tables: &Vec<Vec<MagicEntry>>) -> (r: Result<
    Vec<GroupResult>,
    EmptyPool,
>)
    requires
        tables@.len() == 64,
        forall|s: int| 0 <= s < 64 ==> pool_fits((#[trigger] tables@[s])@),
    ensures
        r matches Ok(res) ==> res@.len() == 16 && forall|g: int|
            0 <= g < 16 ==> (#[trigger] res@[g]).group == g && res@[g].squares@.len() == 4 && (
            forall|k: int|
                0 <= k < 4 ==> (#[trigger] res@[g].squares@[k]) <= 63 && bishop_sharing_spec(
                    res@[g].squares@[k] as int,
                ) == g) && res@[g].squares@[0] < res@[g].squares@[1] && res@[g].squares@[1] < res@[
            g].squares@[2] && res@[g].squares@[2] < res@[g].squares@[3] && group_minimal(
                res@[g].choice,
                tables@[res@[g].squares@[0] as int]@,
                tables@[res@[g].squares@[1] as int]@,
                tables@[res@[g].squares@[2] as int]@,
                tables@[res@[g].squares@[3] as int]@,
            ),
        r.is_err() ==> exists|s: int| 0 <= s < 64 && (#[trigger] tables@[s])@.len() == 0,
{
    let mut res: Vec<GroupResult> = Vec::new();
    let mut g: u8 = 0;
    while g < 16
        invariant
            tables@.len() == 64,
            forall|s: int| 0 <= s < 64 ==> pool_fits((#[trigger] tables@[s])@),
            g <= 16,
            res@.len() == g as int,
            forall|g0: int|
                0 <= g0 < res@.len() ==> (#[trigger] res@[g0]).group == g0 && res@[g0].squares@.len()
                    == 4 && (forall|k: int|
                    0 <= k < 4 ==> (#[trigger] res@[g0].squares@[k]) <= 63 && bishop_sharing_spec(
                        res@[g0].squares@[k] as int,
                    ) == g0) && res@[g0].squares@[0] < res@[g0].squares@[1] && res@[g0].squares@[1]
                    < res@[g0].squares@[2] && res@[g0].squares@[2] < res@[g0].squares@[3]
                    && group_minimal(
                    res@[g0].choice,
                    tables@[res@[g0].squares@[0] as int]@,
                    tables@[res@[g0].squares@[1] as int]@,
                    tables@[res@[g0].squares@[2] as int]@,
                    tables@[res@[g0].squares@[3] as int]@,
                ),
        decreases 16 - g,
    {
        let squares = bishop_group(g);
        let s0: u8 = squares[0];
        let s1: u8 = squares[1];
        let s2: u8 = squares[2];
        let s3: u8 = squares[3];
        match consolidate_group4(
            &tables[s0 as usize],
            &tables[s1 as usize],
            &tables[s2 as usize],
            &tables[s3 as usize],
        ) {
            Ok(choice) => {
                res.push(GroupResult { group: g, squares, choice });
            },
            Err(e) => {
                proof {
                    assert(tables@[s0 as int]@.len() == 0 || tables@[s1 as int]@.len() == 0
                        || tables@[s2 as int]@.len() == 0 || tables@[s3 as int]@.len() == 0);
                }
                return Err(e);
            },
        }
        g = g + 1;
    }
    Ok(res)
}

} // verus!
