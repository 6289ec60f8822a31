use magic_tables::geometry::PieceFamily;
use magic_tables::geometry::attacks;
use magic_tables::geometry::bishop_bits;
use magic_tables::geometry::direction_blockers_mask;
use magic_tables::geometry::get_bishop_attack;
use magic_tables::geometry::get_bishop_mask;
use magic_tables::geometry::get_rook_attack;
use magic_tables::geometry::get_rook_key;
use magic_tables::geometry::get_rook_mask;
use magic_tables::geometry::mask;
use magic_tables::geometry::rook_bits;

#[test]
fn corner_rook_mask_has_twelve_cells() {
    // Cell 0, orthogonal family: rows 1..=6 of column 0 and columns 1..=6
    // of row 0 are the only cells whose blockers matter.
    let m = get_rook_mask(0);
    assert_eq!(m.count_ones(), 12);
    assert_eq!(m, 0x0001_0101_0101_017E);
}

#[test]
fn corner_rook_capacity_is_twelve_bits() {
    assert!(rook_bits(0) >= 12);
    assert_eq!(rook_bits(0), 12);
}

#[test]
fn corner_rook_attack_on_empty_board() {
    // The two full edge rays from the corner: 14 reachable cells.
    let a = get_rook_attack(0, 0);
    assert_eq!(a.count_ones(), 14);
    assert_eq!(a, 0x0101_0101_0101_01FE);
    assert_eq!(attacks(0, PieceFamily::Orthogonal, 0), a);
}

#[test]
fn corner_bishop_mask_has_six_cells() {
    // Cell 0, diagonal family: the corner bishop mask excludes the edge
    // ring on both axes, leaving the six interior diagonal cells.
    let m = get_bishop_mask(0);
    assert_eq!(m.count_ones(), 6);
    assert_eq!(m, 0x0040_2010_0804_0200);
    assert_eq!(mask(0, PieceFamily::Diagonal), m);
}

#[test]
fn corner_bishop_attack_on_empty_board() {
    let a = get_bishop_attack(0, 0);
    assert_eq!(a, 0x8040_2010_0804_0200);
    assert_eq!(a.count_ones(), 7);
}

#[test]
fn blocker_stops_the_ray_but_is_included() {
    // A blocker directly above the corner rook: the vertical ray is cut
    // to that single capturable cell.
    let a = get_rook_attack(0, 1u64 << 8);
    assert_eq!(a, 0x1FE);
    // A blocker in the middle of a ray.
    let b = get_rook_attack(0, 1u64 << 24);
    assert_eq!(b, 0x0101_01FE);
}

#[test]
fn central_rook_key_excludes_edges() {
    // Cell 27 (row 3, col 3): the clipped variant has 10 relevant cells.
    let m = get_rook_key(27, 0);
    assert_eq!(m.count_ones(), 10);
    assert_eq!(rook_bits(27), 10);
}

#[test]
fn bishop_capacity_matches_board_zones() {
    assert_eq!(bishop_bits(0), 6);
    assert_eq!(bishop_bits(7), 6);
    assert_eq!(bishop_bits(56), 6);
    assert_eq!(bishop_bits(63), 6);
    assert_eq!(bishop_bits(27), 9);
    assert_eq!(bishop_bits(28), 9);
    assert_eq!(bishop_bits(35), 9);
    assert_eq!(bishop_bits(36), 9);
    assert_eq!(bishop_bits(18), 7);
    assert_eq!(bishop_bits(1), 5);
    assert_eq!(bishop_bits(8), 5);
}

#[test]
fn masks_sit_strictly_inside_attacks_everywhere() {
    for square in 0u8..64 {
        for &family in &[PieceFamily::Diagonal, PieceFamily::Orthogonal] {
            let m = mask(square, family);
            let a = attacks(square, family, 0);
            assert_eq!(m & a, m, "mask not inside attacks at {square}");
            assert_ne!(m, a, "mask equals attacks at {square}");
        }
    }
}

#[test]
fn direction_walker_accumulates_into_result() {
    let mut result: u64 = 1 << 60;
    // Walk up from (0, 0) over the full board with no blockers.
    direction_blockers_mask(&mut result, 0, 0, 0, 1, 0, 0, 7);
    assert_eq!(result, (1 << 60) | 0x0101_0101_0101_0100);
}
