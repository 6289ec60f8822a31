use magic_tables::consolidate::MagicEntry;
use magic_tables::consolidate::bishop_group;
use magic_tables::consolidate::bishop_sharing;
use magic_tables::consolidate::consolidate_bishop_tables;
use magic_tables::consolidate::consolidate_group4;
use magic_tables::consolidate::consolidate_pair;
use magic_tables::consolidate::consolidate_rook_tables;
use magic_tables::consolidate::predicted_total;
use magic_tables::holes::find_holes;
use magic_tables::geometry::PieceFamily;
use magic_tables::names::bitboard_rows;
use magic_tables::names::get_square_name;
use magic_tables::names::square_from_name;
use magic_tables::names::stream_file_name;
use magic_tables::record::min_width;
use magic_tables::search::search_candidates;

fn entry(min: u32, width: u32, magic_factor: u64) -> MagicEntry {
    MagicEntry { magic_factor, min, width }
}

#[test]
fn shared_size_covers_both_ranges() {
    let a = entry(0, 10, 1);
    let b = entry(8, 4, 2);
    assert_eq!(a.shared_size(&b), 12);
    assert_eq!(b.shared_size(&a), 12);
    let c = entry(3, 2, 3);
    assert_eq!(a.shared_size(&c), 10);
    assert_eq!(c.shared_size(&c), 2);
}

#[test]
fn pair_consolidation_picks_the_minimum_over_all_pairs() {
    let pool1 = vec![entry(0, 10, 1), entry(5, 2, 2)];
    let pool2 = vec![entry(8, 4, 3), entry(0, 3, 4)];
    let choice = consolidate_pair(&pool1, &pool2).unwrap();
    assert_eq!(choice.shared_size, 7);
    assert_eq!(choice.magic1, 2);
    assert_eq!(choice.magic2, 3);
    assert_eq!(choice.start_offset, 5);
    for a in &pool1 {
        for b in &pool2 {
            assert!(choice.shared_size <= a.shared_size(b));
        }
    }
}

#[test]
fn pair_consolidation_rejects_an_empty_pool() {
    let pool1 = vec![entry(0, 1, 1)];
    let empty: Vec<MagicEntry> = Vec::new();
    assert!(consolidate_pair(&pool1, &empty).is_err());
    assert!(consolidate_pair(&empty, &pool1).is_err());
}

#[test]
fn group_consolidation_scans_the_cartesian_product() {
    let p0 = vec![entry(0, 4, 10)];
    let p1 = vec![entry(2, 4, 11)];
    let p2 = vec![entry(1, 1, 12)];
    let p3 = vec![entry(3, 5, 13), entry(0, 2, 14)];
    let choice = consolidate_group4(&p0, &p1, &p2, &p3).unwrap();
    assert_eq!(choice.shared_size, 6);
    assert_eq!(choice.start_offset, 0);
    assert_eq!(choice.magic0, 10);
    assert_eq!(choice.magic1, 11);
    assert_eq!(choice.magic2, 12);
    assert_eq!(choice.magic3, 14);
}

#[test]
fn group_consolidation_rejects_an_empty_pool() {
    let p = vec![entry(0, 1, 1)];
    let empty: Vec<MagicEntry> = Vec::new();
    assert!(consolidate_group4(&p, &p, &p, &empty).is_err());
}

#[test]
fn bishop_sharing_matches_the_fixed_partition() {
    assert_eq!(bishop_sharing(0), 0);
    assert_eq!(bishop_sharing(7), 14);
    assert_eq!(bishop_sharing(18), 6);
    assert_eq!(bishop_sharing(36), 8);
    assert_eq!(bishop_sharing(32), 1);
    assert_eq!(bishop_sharing(63), 15);
    for g in 0u8..16 {
        let squares = bishop_group(g);
        assert_eq!(squares.len(), 4);
        for &s in &squares {
            assert_eq!(bishop_sharing(s), g, "square {s} in group {g}");
        }
    }
}

#[test]
fn drivers_walk_every_pair_and_group() {
    let mut tables: Vec<Vec<MagicEntry>> = Vec::new();
    for s in 0..64u32 {
        tables.push(vec![entry(s, 10, s as u64), entry(0, 5, 1000 + s as u64)]);
    }
    let pairs = consolidate_rook_tables(&tables).unwrap();
    assert_eq!(pairs.len(), 32);
    assert_eq!(pairs[0].square1, 0);
    assert_eq!(pairs[0].square2, 9);
    assert_eq!(pairs[1].square1, 1);
    assert_eq!(pairs[1].square2, 8);
    let total = predicted_total(&pairs);
    assert!(total >= 32 * 5);
    let groups = consolidate_bishop_tables(&tables).unwrap();
    assert_eq!(groups.len(), 16);
    assert_eq!(groups[8].squares, vec![34, 35, 36, 37]);

    let empty_one: Vec<Vec<MagicEntry>> = (0..64)
        .map(|s| if s == 9 { Vec::new() } else { vec![entry(0, 1, 1)] })
        .collect();
    assert!(consolidate_rook_tables(&empty_one).is_err());
}

#[test]
fn square_names_round_trip() {
    assert_eq!(get_square_name(0), b"a1".to_vec());
    assert_eq!(get_square_name(63), b"h8".to_vec());
    assert_eq!(get_square_name(8), b"a2".to_vec());
    assert_eq!(square_from_name(&b"h8".to_vec()), 63);
    for s in 0..64u8 {
        assert_eq!(square_from_name(&get_square_name(s)), s);
    }
    assert_eq!(stream_file_name(8, false), b"r_a2.csv".to_vec());
    assert_eq!(stream_file_name(0, true), b"b_a1.csv".to_vec());
}

#[test]
fn bitboard_rows_render_bottom_row_last() {
    let rows = bitboard_rows(1);
    assert_eq!(rows.len(), 8);
    assert_eq!(rows[7], b"10000000".to_vec());
    assert_eq!(rows[0], b"00000000".to_vec());
    let rows_hi = bitboard_rows(1u64 << 63);
    assert_eq!(rows_hi[0], b"00000001".to_vec());
}

#[test]
fn min_width_reports_the_smallest_candidate() {
    assert_eq!(min_width(&Vec::new()), None);
    let pool = vec![entry(0, 9, 1), entry(4, 3, 2), entry(1, 7, 3)];
    assert_eq!(min_width(&pool), Some(3));
}

fn lcg_candidates(seed: u64, count: usize) -> Vec<u64> {
    let mut x = seed;
    let mut step = || {
        x = x
            .wrapping_mul(6364136223846793005)
            .wrapping_add(1442695040888963407);
        x
    };
    let mut v = Vec::with_capacity(count);
    for _ in 0..count {
        let m = step() & step() & step();
        v.push(m);
    }
    v
}

#[test]
fn holes_are_maximal_untouched_runs() {
    let cands = lcg_candidates(7, 20000);
    let cand = search_candidates(0, PieceFamily::Diagonal, 6, &cands)
        .expect("no candidate accepted from the fixed sequence");
    let holes = find_holes(0, PieceFamily::Diagonal, 6, cand.multiplier, 2);
    // Recompute the touched set and check each reported hole against it.
    let m = magic_tables::geometry::mask(0, PieceFamily::Diagonal);
    let n = magic_tables::occupancy::popcount64(m);
    let mut touched = vec![false; 64];
    for i in 0..(1usize << n) {
        let occ = magic_tables::occupancy::index_to_u64(i, n, m);
        touched[magic_tables::search::get_offset(occ | !m, cand.multiplier, 6)] = true;
    }
    for h in &holes {
        assert!(h.size > 2);
        assert!(h.position + h.size <= 64);
        for s in h.position..h.position + h.size {
            assert!(!touched[s]);
        }
        assert!(h.position == 0 || touched[h.position - 1]);
        assert!(h.position + h.size == 64 || touched[h.position + h.size]);
    }
}
