use whichlicense_detection::custom_fuzzy::{
    calc_max_uncommon_blocks, compare_hashes, create_hash, fuzzy_hash, Comparison,
};

#[test]
fn create_hash_is_the_polynomial_in_31() {
    assert_eq!(create_hash(b"", 10), 0);
    assert_eq!(create_hash(b"a", 10), 97);
    assert_eq!(create_hash(b"ab", 10), 97 * 31 + 98);
    assert_eq!(create_hash(b"abc", 10), (97 * 31 + 98) * 31 + 99);
}

#[test]
fn create_hash_reads_no_more_than_the_hash_length() {
    assert_eq!(create_hash(b"abc", 2), 97 * 31 + 98);
    assert_eq!(create_hash(b"abc", 0), 0);
    assert_eq!(create_hash(b"abc", 3), create_hash(b"abc", 300));
}

#[test]
fn create_hash_wraps_instead_of_overflowing() {
    let block = [255u8; 64];
    let mut expected: i64 = 0;
    for b in block.iter() {
        expected = expected.wrapping_mul(31).wrapping_add(*b as i64);
    }
    assert_eq!(create_hash(&block, 64), expected);
}

#[test]
fn fuzzy_hash_cuts_blocks_and_keeps_the_short_tail() {
    let input: Vec<u8> = b"abcdefg".to_vec();
    let blocks = fuzzy_hash(&input, 3, 10);
    assert_eq!(
        blocks,
        vec![create_hash(b"abc", 10), create_hash(b"def", 10), create_hash(b"g", 10)]
    );
    assert_eq!(fuzzy_hash(&input, 7, 10), vec![create_hash(b"abcdefg", 10)]);
    assert_eq!(fuzzy_hash(&input, 100, 10), vec![create_hash(b"abcdefg", 10)]);
    assert_eq!(fuzzy_hash(&Vec::new(), 3, 10), Vec::<i64>::new());
}

#[test]
fn fuzzy_hash_bounds_each_block_by_the_hash_length() {
    let input: Vec<u8> = b"abcdef".to_vec();
    assert_eq!(fuzzy_hash(&input, 3, 1), vec![97, 100]);
}

#[test]
fn the_budget_is_what_the_minimum_leaves() {
    // 10 - ceil(0.5 * 10)
    assert_eq!(calc_max_uncommon_blocks(50, 10), 5);
    // 3 - ceil(0.5 * 3) = 3 - 2
    assert_eq!(calc_max_uncommon_blocks(50, 3), 1);
    assert_eq!(calc_max_uncommon_blocks(100, 10), 0);
    assert_eq!(calc_max_uncommon_blocks(1, 10), 9);
    assert_eq!(calc_max_uncommon_blocks(0, 10), 10);
    assert_eq!(calc_max_uncommon_blocks(200, 10), 0);
    assert_eq!(calc_max_uncommon_blocks(50, 0), 0);
}

#[test]
fn identical_fingerprints_are_a_full_match() {
    for text in ["", "a", "Hello, world!", "some longer text that spans several blocks"] {
        for min_confidence in [0u8, 1, 50, 100, 255] {
            let a = fuzzy_hash(&text.as_bytes().to_vec(), 4, 8);
            let b = fuzzy_hash(&text.as_bytes().to_vec(), 4, 8);
            let n = a.len();
            let outcome = compare_hashes(a, b, min_confidence);
            assert_eq!(outcome, Comparison::Similar { common_blocks: n, max_blocks: n });
            assert_eq!(outcome.confidence(), Some(10000));
        }
    }
}

#[test]
fn comparison_does_not_depend_on_the_order() {
    let a = vec![1i64, 2, 3, 4, 5, 6];
    let b = vec![1i64, 9, 3, 4];
    for min_confidence in [0u8, 10, 30, 50, 90] {
        assert_eq!(
            compare_hashes(a.clone(), b.clone(), min_confidence),
            compare_hashes(b.clone(), a.clone(), min_confidence)
        );
    }
}

#[test]
fn common_blocks_are_counted_out_of_the_longer_fingerprint() {
    let a = vec![1i64, 2, 3, 4];
    let b = vec![1i64, 2, 3, 9];
    let outcome = compare_hashes(a, b, 50);
    assert_eq!(outcome, Comparison::Similar { common_blocks: 3, max_blocks: 4 });
    assert_eq!(outcome.confidence(), Some(7500));

    let outcome = compare_hashes(vec![1, 2, 3], vec![1, 2, 3, 4, 5, 6], 0);
    assert_eq!(outcome, Comparison::Similar { common_blocks: 3, max_blocks: 6 });
    assert_eq!(outcome.confidence(), Some(5000));

    // one of three: 33.33 percent, rounded down
    let outcome = compare_hashes(vec![1, 2, 3], vec![1, 8, 9], 0);
    assert_eq!(outcome.confidence(), Some(3333));
}

#[test]
fn a_difference_in_length_beyond_the_budget_is_no_match() {
    // budget 10 - 9 = 1, lengths differ by 9
    let a = vec![7i64; 10];
    let b = vec![7i64; 1];
    assert_eq!(compare_hashes(a, b, 90), Comparison::NoMatch);
}

#[test]
fn mismatches_beyond_the_budget_are_no_match() {
    // budget 4 - 2 = 2, three positions differ
    assert_eq!(compare_hashes(vec![1, 2, 3, 4], vec![1, 7, 8, 9], 50), Comparison::NoMatch);
    // two differ: within the budget
    assert_eq!(
        compare_hashes(vec![1, 2, 3, 4], vec![1, 2, 8, 9], 50),
        Comparison::Similar { common_blocks: 2, max_blocks: 4 }
    );
}

#[test]
fn a_position_that_one_fingerprint_lacks_counts_as_one_difference() {
    // two of four agree and the budget is two
    assert_eq!(
        compare_hashes(vec![1, 2, 3, 4], vec![1, 2], 50),
        Comparison::Similar { common_blocks: 2, max_blocks: 4 }
    );
    // budget 6 - 3 = 3; one block longer and one mismatch: four of six agree
    assert_eq!(
        compare_hashes(vec![1, 2, 3, 4, 5, 6], vec![1, 2, 3, 4, 9], 50),
        Comparison::Similar { common_blocks: 4, max_blocks: 6 }
    );
    // one block longer and two mismatches: three of six agree, which is the minimum
    assert_eq!(
        compare_hashes(vec![1, 2, 3, 4, 5, 6], vec![1, 2, 3, 8, 9], 50),
        Comparison::Similar { common_blocks: 3, max_blocks: 6 }
    );
    // one more mismatch falls below it
    assert_eq!(compare_hashes(vec![1, 2, 3, 4, 5, 6], vec![1, 2, 7, 8, 9], 50), Comparison::NoMatch);
}

#[test]
fn a_match_is_what_reaches_the_minimum() {
    // the outcome is a match exactly where common / total is at least the minimum
    let longer = vec![1i64, 2, 3, 4, 5, 6, 7, 8, 9, 10];
    for common in 1usize..=10 {
        let mut other = longer.clone();
        for slot in other.iter_mut().skip(common) {
            *slot = -1;
        }
        for min_confidence in [1u8, 10, 33, 50, 67, 90, 100] {
            let outcome = compare_hashes(longer.clone(), other.clone(), min_confidence);
            if common * 100 >= min_confidence as usize * 10 {
                assert_eq!(outcome, Comparison::Similar { common_blocks: common, max_blocks: 10 });
            } else {
                assert_eq!(outcome, Comparison::NoMatch);
            }
        }
    }
}

#[test]
fn disjoint_fingerprints_are_no_match_whatever_the_minimum() {
    assert_eq!(compare_hashes(vec![1, 2, 3], vec![4, 5, 6], 0), Comparison::NoMatch);
    assert_eq!(compare_hashes(vec![1, 2, 3], vec![4, 5, 6], 10), Comparison::NoMatch);
    assert_eq!(compare_hashes(vec![1, 2, 3], vec![], 0), Comparison::NoMatch);
    assert_eq!(Comparison::NoMatch.confidence(), None);
}
