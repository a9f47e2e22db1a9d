use constellation_search::hashing::{build_power_table, build_prefix_hashes, combine_hashes};
use constellation_search::index::{CSIHandle, CSIIndex};
use constellation_search::seqs::intersect_sorted;

#[test]
fn combine_of_zeroes_is_zero() {
    assert_eq!(combine_hashes(0, 0, 0), 0);
}

#[test]
fn combine_is_deterministic() {
    let a = combine_hashes(17, 99, 4);
    let b = combine_hashes(17, 99, 4);
    assert_eq!(a, b);
    assert_ne!(combine_hashes(17, 99, 4), combine_hashes(17, 99, 8));
}

#[test]
fn prefix_tables_have_expected_shape() {
    let data = b"abcXXXXabcYYYYabc";
    let ph = build_prefix_hashes(data);
    let pw = build_power_table(data.len());
    assert_eq!(ph.len(), data.len() + 1);
    assert_eq!(pw.len(), data.len() + 1);
    assert_eq!(ph[0], 0);
    assert_eq!(pw[0], 1);
    assert_eq!(pw[1], 1315423911);
    // equal windows carry equal extracted fingerprints
    let k = 3;
    let fp = |a: usize| ph[a + k].wrapping_sub(ph[a].wrapping_mul(pw[k]));
    assert_eq!(fp(0), fp(7));
    assert_eq!(fp(0), fp(14));
    assert_ne!(fp(0), fp(3));
}

#[test]
fn intersect_keeps_common_members_in_order() {
    let a = vec![1usize, 3, 5, 9, 12];
    let b = vec![0usize, 3, 4, 9, 13];
    assert_eq!(intersect_sorted(&a, &b), vec![3, 9]);
    let c: Vec<usize> = Vec::new();
    assert_eq!(intersect_sorted(&a, &c), Vec::<usize>::new());
}

/// A 64-byte buffer over 32 values, each twice: entropy is exactly 5
/// bits, the high band.
fn high_band_buffer() -> Vec<u8> {
    let mut buf: Vec<u8> = Vec::new();
    for _ in 0..2 {
        for v in 1..=12u8 {
            buf.push(v);
        }
    }
    for v in 13..=32u8 {
        buf.push(v);
        buf.push(v);
    }
    buf
}

#[test]
fn entropy_bands_pick_parameters() {
    // 5.0 bits: high band
    let idx = CSIIndex::build_from(&high_band_buffer());
    assert_eq!(idx.k, 4);
    assert_eq!(idx.gaps, vec![4, 8, 16, 32]);

    // 16 values each twice: exactly 4.0 bits, the middle band
    let mut mid: Vec<u8> = Vec::new();
    for v in 0..16u8 {
        mid.push(v);
        mid.push(v);
    }
    let idx = CSIIndex::build_from(&mid);
    assert_eq!(idx.k, 5);
    assert_eq!(idx.gaps, vec![6, 12, 24, 48]);

    // five distinct bytes: about 2.3 bits, the low band
    let idx = CSIIndex::build_from(b"abcXXXXabcYYYYabc");
    assert_eq!(idx.k, 6);
    assert_eq!(idx.gaps, vec![8, 16, 32, 64]);
}

#[test]
fn search_finds_every_occurrence_exactly() {
    let buf = high_band_buffer();
    let idx = CSIIndex::build_from(&buf);
    // the twelve-byte pattern sits at offsets 0 and 12, and minlen is
    // 4 + 4 + 4 = 12, so both must be reported
    let pat: Vec<u8> = (1..=12u8).collect();
    assert_eq!(idx.search(&pat), vec![0, 12]);
}

#[test]
fn search_reports_nothing_for_absent_pattern() {
    let buf = high_band_buffer();
    let idx = CSIIndex::build_from(&buf);
    let pat: Vec<u8> = vec![1, 2, 3, 4, 5, 6, 7, 8, 9, 10, 11, 33];
    assert_eq!(idx.search(&pat), Vec::<usize>::new());
}

#[test]
fn short_pattern_reports_nothing_even_where_it_occurs() {
    let buf = high_band_buffer();
    let idx = CSIIndex::build_from(&buf);
    // eight bytes occur at offsets 0 and 12 but stay under minlen 12
    let pat: Vec<u8> = (1..=8u8).collect();
    assert_eq!(idx.search(&pat), Vec::<usize>::new());

    // the low-band buffer puts minlen at 6 + 8 + 6 = 20, beyond this
    // ten-byte pattern that occurs at offset 0
    let idx = CSIIndex::build_from(b"abcXXXXabcYYYYabc");
    assert_eq!(idx.search(b"abcXXXXabc"), Vec::<usize>::new());
}

#[test]
fn repeated_searches_agree() {
    let buf = high_band_buffer();
    let idx = CSIIndex::build_from(&buf);
    let pat: Vec<u8> = (1..=12u8).collect();
    let first = idx.search(&pat);
    let second = idx.search(&pat);
    assert_eq!(first, second);
}

#[test]
fn capacity_truncates_to_a_prefix() {
    let buf = high_band_buffer();
    let idx = CSIIndex::build_from(&buf);
    let pat: Vec<u8> = (1..=12u8).collect();
    assert_eq!(idx.search_capped(&pat, 5), vec![0, 12]);
    assert_eq!(idx.search_capped(&pat, 1), vec![0]);
}

#[test]
fn capacity_zero_reports_nothing() {
    let buf = high_band_buffer();
    let idx = CSIIndex::build_from(&buf);
    let pat: Vec<u8> = (1..=12u8).collect();
    assert_eq!(idx.search_capped(&pat, 0), Vec::<usize>::new());
}

#[test]
fn create_rejects_empty_buffer() {
    assert!(CSIHandle::create(b"").is_none());
    let handle = CSIHandle::create(b"x");
    assert!(handle.is_some());
    assert_eq!(handle.unwrap().inner.text, b"x".to_vec());
}
