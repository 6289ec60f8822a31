use magic_tables::geometry::PieceFamily;
use magic_tables::geometry::attacks;
use magic_tables::geometry::mask;
use magic_tables::occupancy::index_to_u64;
use magic_tables::occupancy::pop_1st_bit;
use magic_tables::occupancy::popcount64;
use magic_tables::record::encode_record;
use magic_tables::record::parse_records;
use magic_tables::record::parse_u32;
use magic_tables::record::parse_u64;
use magic_tables::record::split_fields;
use magic_tables::record::u64_to_dec;
use magic_tables::search::MagicCandidate;
use magic_tables::search::get_fixed_offset;
use magic_tables::search::get_offset;
use magic_tables::search::search;
use magic_tables::search::search_candidates;

#[test]
fn pop_1st_bit_removes_the_lowest_bit() {
    let mut m: u64 = 0b1100;
    assert_eq!(pop_1st_bit(&mut m), 2);
    assert_eq!(m, 0b1000);
    assert_eq!(pop_1st_bit(&mut m), 3);
    assert_eq!(m, 0);
}

#[test]
fn popcount_counts_bits() {
    assert_eq!(popcount64(0), 0);
    assert_eq!(popcount64(u64::MAX), 64);
    assert_eq!(popcount64(0x8000_0000_0000_0001), 2);
}

#[test]
fn enumeration_is_a_bijection_on_a_small_mask() {
    // Mask with set bits 0, 1 and 3: eight subsets, pairwise distinct.
    let m: u64 = 0b1011;
    let bits = popcount64(m);
    assert_eq!(bits, 3);
    let mut seen = Vec::new();
    for i in 0..8usize {
        let occ = index_to_u64(i, bits, m);
        assert_eq!(occ & m, occ, "not a subset at {i}");
        assert!(!seen.contains(&occ), "duplicate at {i}");
        seen.push(occ);
    }
    assert_eq!(index_to_u64(0, bits, m), 0);
    assert_eq!(index_to_u64(1, bits, m), 0b0001);
    assert_eq!(index_to_u64(2, bits, m), 0b0010);
    assert_eq!(index_to_u64(4, bits, m), 0b1000);
    assert_eq!(index_to_u64(7, bits, m), 0b1011);
}

#[test]
fn offsets_take_the_top_product_bits() {
    assert_eq!(get_offset(1, 1u64 << 63, 1), 1);
    assert_eq!(get_offset(2, 1u64 << 63, 1), 0);
    assert_eq!(get_offset(1, 0xF000_0000_0000_0000, 4), 0xF);
    assert_eq!(get_fixed_offset(1, 0xFFF0_0000_0000_0000), 0xFFF);
}

fn lcg_candidates(seed: u64, count: usize) -> Vec<u64> {
    let mut x = seed;
    let mut step = || {
        x = x
            .wrapping_mul(6364136223846793005)
            .wrapping_add(1442695040888963407);
        x
    };
    let mut v = Vec::with_capacity(count);
    for _ in 0..count {
        let m = step() & step() & step();
        v.push(m);
    }
    v
}

#[test]
fn fixed_candidate_sequence_reproduces_the_same_magic() {
    // Determinism of the search given a deterministic multiplier source:
    // two runs over the same sequence accept the same record.
    let cands = lcg_candidates(42, 20000);
    let first = search_candidates(0, PieceFamily::Diagonal, 6, &cands);
    let second = search_candidates(0, PieceFamily::Diagonal, 6, &cands);
    assert_eq!(first, second);
    let cand = first.expect("no candidate accepted from the fixed sequence");
    assert_eq!(cand.width, cand.max_hash - cand.min_hash);
    assert_no_collision(0, PieceFamily::Diagonal, 6, &cand);
}

/// Replays every enumerated occupancy and checks that two occupancies
/// with differing attack sets never share a hash slot.
fn assert_no_collision(square: u8, family: PieceFamily, bits: u32, cand: &MagicCandidate) {
    let m = mask(square, family);
    let n = popcount64(m);
    let count = 1usize << n;
    let mut hashes = Vec::with_capacity(count);
    let mut atts = Vec::with_capacity(count);
    for i in 0..count {
        let occ = index_to_u64(i, n, m);
        let key = occ | !m;
        hashes.push(get_offset(key, cand.multiplier, bits));
        atts.push(attacks(square, family, occ));
    }
    let mut min_h = usize::MAX;
    let mut max_h = 0usize;
    for i in 0..count {
        min_h = min_h.min(hashes[i]);
        max_h = max_h.max(hashes[i]);
        for j in 0..count {
            if hashes[i] == hashes[j] {
                assert_eq!(atts[i], atts[j], "collision between {i} and {j}");
            }
        }
    }
    assert_eq!(min_h as u32, cand.min_hash);
    assert_eq!(max_h as u32, cand.max_hash);
}

#[test]
fn enumeration_covers_a_real_mask_without_repeats() {
    let m = mask(0, PieceFamily::Diagonal);
    let bits = popcount64(m);
    assert_eq!(bits, 6);
    let mut seen = Vec::new();
    for i in 0..(1usize << bits) {
        let occ = index_to_u64(i, bits, m);
        assert_eq!(occ & m, occ);
        assert!(!seen.contains(&occ), "duplicate at {i}");
        seen.push(occ);
    }
    assert_eq!(seen.len(), 64);
}

#[test]
fn exhausted_budget_reports_the_error() {
    let result = search(0, PieceFamily::Orthogonal, 12, 0);
    assert!(result.is_err());
}

#[test]
fn full_budget_search_finds_a_magic() {
    let magic = magic_tables::search::find_magic(0, true);
    assert_ne!(magic, 0);
}

#[test]
fn random_search_accepts_only_collision_free_multipliers() {
    let result = search(0, PieceFamily::Diagonal, 6, 500000);
    let cand = result.expect("random search exhausted its budget on the corner bishop");
    assert_eq!(cand.width, cand.max_hash - cand.min_hash);
    assert_no_collision(0, PieceFamily::Diagonal, 6, &cand);
}

#[test]
fn numerals_parse_back_and_forth() {
    assert_eq!(parse_u64(&b"0".to_vec()), Some(0));
    assert_eq!(parse_u64(&b"007".to_vec()), Some(7));
    assert_eq!(parse_u64(&b"18446744073709551615".to_vec()), Some(u64::MAX));
    assert_eq!(parse_u64(&b"18446744073709551616".to_vec()), None);
    assert_eq!(parse_u64(&b"".to_vec()), None);
    assert_eq!(parse_u64(&b"12x".to_vec()), None);
    assert_eq!(parse_u32(&b"4294967295".to_vec()), Some(u32::MAX));
    assert_eq!(parse_u32(&b"4294967296".to_vec()), None);
    assert_eq!(u64_to_dec(0), b"0".to_vec());
    assert_eq!(u64_to_dec(90210), b"90210".to_vec());
    assert_eq!(u64_to_dec(u64::MAX), b"18446744073709551615".to_vec());
}

#[test]
fn split_fields_separates_on_whitespace() {
    let fields = split_fields(&b"  12 7\t 9  ".to_vec());
    assert_eq!(fields.len(), 3);
    assert_eq!(fields[0], b"12".to_vec());
    assert_eq!(fields[1], b"7".to_vec());
    assert_eq!(fields[2], b"9".to_vec());
    assert_eq!(split_fields(&b"".to_vec()).len(), 0);
}

#[test]
fn records_parse_with_the_documented_leniency() {
    // A well-formed line, one with a malformed first field (tolerated by
    // the fallback), one with a malformed multiplier (discarded), and a
    // short line (discarded).
    let contents = b"3 100 97 123456789\nbad 100 97 5\n1 2 3 nope\n1 2\n".to_vec();
    let records = parse_records(&contents);
    assert_eq!(records.len(), 2);
    assert_eq!(records[0].min, 3);
    assert_eq!(records[0].width, 97);
    assert_eq!(records[0].magic_factor, 123456789);
    assert_eq!(records[1].min, 12, "fallback for the malformed first field");
    assert_eq!(records[1].width, 97);
    assert_eq!(records[1].magic_factor, 5);
    assert_eq!(parse_records(&b"".to_vec()).len(), 0);
}

#[test]
fn encoded_records_parse_back_unchanged() {
    let cand = MagicCandidate {
        multiplier: 18446744073709551615,
        min_hash: 17,
        max_hash: 4011,
        width: 3994,
    };
    let line = encode_record(&cand);
    assert_eq!(line, b"17 4011 3994 18446744073709551615\n".to_vec());
    let records = parse_records(&line);
    assert_eq!(records.len(), 1);
    assert_eq!(records[0].min, 17);
    assert_eq!(records[0].width, 3994);
    assert_eq!(records[0].magic_factor, u64::MAX);
}
