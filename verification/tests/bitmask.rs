use skipfield::bitmask_skipfield::{BitmaskSkipfield, BitmaskSkipfieldIter};

#[test]
fn test_skip_and_unskip_behavior() {
    let mut sf = BitmaskSkipfield::new(100);
    assert_eq!(sf.count_skipped(), 0);
    assert_eq!(sf.count_active(), 100);
    assert_eq!(sf.first_active(), Some(0));

    sf.skip(0);
    sf.skip(64);
    sf.skip(99);

    assert!(sf.is_skipped(0));
    assert!(sf.is_skipped(64));
    assert!(sf.is_skipped(99));
    assert!(!sf.is_skipped(1));
    assert!(!sf.is_skipped(98));

    assert_eq!(sf.count_skipped(), 3);
    assert_eq!(sf.count_active(), 97);

    sf.unskip(64);
    assert!(!sf.is_skipped(64));
    assert_eq!(sf.count_skipped(), 2);
}

#[test]
fn test_first_active_correctness() {
    let mut sf = BitmaskSkipfield::new(5);
    assert_eq!(sf.first_active(), Some(0));

    sf.skip(0);
    assert_eq!(sf.first_active(), Some(1));

    sf.skip(1);
    sf.skip(2);
    sf.skip(3);
    sf.skip(4);
    assert_eq!(sf.first_active(), None);
}

#[test]
fn test_active_indices_1() {
    let mut sf = BitmaskSkipfield::new(8);
    sf.skip(2);
    sf.skip(4);
    sf.skip(7);

    let result: Vec<usize> = sf.active_indices_1();
    assert_eq!(result, vec![0, 1, 3, 5, 6]);
}

#[test]
fn test_active_indices_2() {
    let mut sf = BitmaskSkipfield::new(70);
    sf.skip(1);
    sf.skip(5);
    sf.skip(64);
    sf.skip(69);

    let result: Vec<usize> = sf.active_indices_2();
    let expected: Vec<usize> =
        (0..70).filter(|&i| i != 1 && i != 5 && i != 64 && i != 69).collect();
    assert_eq!(result, expected);
}

#[test]
fn test_chunk_boundary_behavior() {
    let mut sf = BitmaskSkipfield::new(128);
    sf.skip(63);
    sf.skip(64);
    sf.skip(65);

    assert!(sf.is_skipped(63));
    assert!(sf.is_skipped(64));
    assert!(sf.is_skipped(65));
    assert_eq!(sf.count_skipped(), 3);

    let act1: Vec<usize> = sf.active_indices_1();
    let act2: Vec<usize> = sf.active_indices_2();
    assert_eq!(act1, act2);
}

#[test]
fn bitmask_skipfield_test_empty_skipfield() {
    let sf = BitmaskSkipfield::new(0);
    assert_eq!(sf.count_skipped(), 0);
    assert_eq!(sf.count_active(), 0);
    assert_eq!(sf.first_active(), None);
    assert_eq!(sf.active_indices_1().len(), 0);
    assert_eq!(sf.active_indices_2().len(), 0);
}

#[test]
fn test_no_active_indices_beyond_len() {
    let len = 70;
    let num_chunks = (len + 63) / 64;
    let total_bits = num_chunks * 64;
    let extra_bits_start = len;
    let extra_bits_end = total_bits;

    let sf = BitmaskSkipfield::new(len);

    for i in extra_bits_start..extra_bits_end {
        let (chunk_idx, bit_idx) = BitmaskSkipfield::bit_pos(i);
        assert!(
            (sf.chunks()[chunk_idx] & (1 << bit_idx)) != 0,
            "Extra bit at index {} should be set (skipped)",
            i
        );
    }
}

#[test]
fn test_first_active_never_exceeds_len() {
    let len = 70;
    let sf = BitmaskSkipfield::new(len);

    if let Some(i) = sf.first_active() {
        assert!(
            i < len,
            "first_active returned index {} which is out of bounds (len = {})",
            i,
            len
        );
    }
}

#[test]
fn test_active_indices_2_with_tail_bits() {
    let len = 70;
    let mut sf = BitmaskSkipfield::new(len);
    sf.skip(0);
    sf.skip(69);

    let indices: Vec<usize> = sf.active_indices_2();

    assert!(!indices.contains(&0));
    assert!(!indices.contains(&69));
    assert!(indices.iter().all(|&i| i < len));
}

#[test]
fn test_all_bits_skipped_if_len_zero() {
    let sf = BitmaskSkipfield::new(0);
    assert_eq!(sf.first_active(), None);
    assert_eq!(sf.count_active(), 0);
    assert_eq!(sf.count_skipped(), 0);
    assert_eq!(sf.active_indices_2().len(), 0);
}

#[test]
fn test_single_active_bit() {
    let mut skipfield = BitmaskSkipfield::new(64);
    for i in 0..64 {
        skipfield.skip(i);
    }
    skipfield.unskip(7);

    let mut iter = skipfield.iter();
    assert_eq!(iter.next(), Some(7));
    assert_eq!(iter.next(), None);
}

#[test]
fn test_multiple_active_indices() {
    let mut skipfield = BitmaskSkipfield::new(128);
    for i in 0..128 {
        skipfield.skip(i);
    }

    let active = [3, 66, 100];
    for &i in &active {
        skipfield.unskip(i);
    }

    let mut collected: Vec<usize> = Vec::new();
    let mut iter = skipfield.iter();
    while let Some(i) = iter.next() {
        collected.push(i);
    }
    assert_eq!(collected, active);
}

#[test]
fn test_no_active_bits() {
    let mut skipfield = BitmaskSkipfield::new(128);
    for i in 0..128 {
        skipfield.skip(i);
    }

    let mut iter = skipfield.iter();
    assert_eq!(iter.next(), None);
}

#[test]
fn test_all_active_bits() {
    let skipfield = BitmaskSkipfield::new(128);
    let expected: Vec<usize> = (0..128).collect();
    let mut collected: Vec<usize> = Vec::new();
    let mut iter = skipfield.iter();
    while let Some(i) = iter.next() {
        collected.push(i);
    }
    assert_eq!(collected, expected);
}

#[test]
fn test_bounds_handling_on_last_chunk() {
    let len = 70;
    let mut skipfield = BitmaskSkipfield::new(len);
    for i in 0..len {
        if i != 69 {
            skipfield.skip(i);
        }
    }

    let result = skipfield.iter().next();
    assert_eq!(result, Some(69));
}

#[test]
fn bitmask_seventy_slots_four_skipped() {
    let mut sf = BitmaskSkipfield::new(70);
    for i in [1, 5, 64, 69] {
        sf.skip(i);
    }
    let mut expected: Vec<usize> = Vec::new();
    for i in 0..70 {
        if i != 1 && i != 5 && i != 64 && i != 69 {
            expected.push(i);
        }
    }
    assert_eq!(expected.len(), 66);
    assert_eq!(sf.active_indices_1(), expected);
    assert_eq!(sf.active_indices_2(), expected);
    assert_eq!(sf.count_skipped(), 4);
    assert_eq!(sf.count_active(), 66);
}

#[test]
fn bitmask_padding_stays_set_through_skip_and_unskip() {
    let mut sf = BitmaskSkipfield::new(70);
    assert_eq!(sf.chunks().len(), 2);
    assert_eq!(sf.chunks()[0], 0);
    assert_eq!(sf.chunks()[1], u64::MAX << 6);
    sf.skip(69);
    sf.skip(64);
    assert_eq!(sf.chunks()[1], (u64::MAX << 6) | 0b100001);
    sf.unskip(69);
    sf.unskip(64);
    sf.unskip(65);
    assert_eq!(sf.chunks()[1], u64::MAX << 6);
    assert_eq!(sf.count_active(), 70);
    assert_eq!(sf.iter().next(), Some(0));
}

#[test]
fn bitmask_count_skipped_excludes_padding() {
    for len in [1usize, 63, 64, 65, 127, 128, 129, 200] {
        let mut sf = BitmaskSkipfield::new(len);
        assert_eq!(sf.count_skipped(), 0);
        assert_eq!(sf.count_active(), len);
        sf.skip(len - 1);
        assert_eq!(sf.count_skipped(), 1);
        assert_eq!(sf.count_active(), len - 1);
        for i in 0..len {
            sf.skip(i);
        }
        assert_eq!(sf.count_skipped(), len);
        assert_eq!(sf.count_active(), 0);
        assert_eq!(sf.first_active(), None);
        assert!(sf.active_indices_2().is_empty());
    }
}

#[test]
fn bitmask_bit_pos_splits_index() {
    assert_eq!(BitmaskSkipfield::bit_pos(0), (0, 0));
    assert_eq!(BitmaskSkipfield::bit_pos(63), (0, 63));
    assert_eq!(BitmaskSkipfield::bit_pos(64), (1, 0));
    assert_eq!(BitmaskSkipfield::bit_pos(200), (3, 8));
}

#[test]
fn bitmask_unskip_active_slot_changes_nothing() {
    let mut sf = BitmaskSkipfield::new(130);
    sf.skip(3);
    sf.skip(129);
    let before: Vec<u64> = sf.chunks().to_vec();
    sf.unskip(4);
    sf.unskip(128);
    assert_eq!(sf.chunks().to_vec(), before);
    assert_eq!(sf.count_skipped(), 2);
}

#[test]
fn bitmask_iter_resumes_and_skips_full_words() {
    let mut sf = BitmaskSkipfield::new(300);
    for i in 0..300 {
        sf.skip(i);
    }
    for i in [0, 63, 64, 256, 299] {
        sf.unskip(i);
    }
    let mut it = sf.iter();
    assert_eq!(it.next(), Some(0));
    assert_eq!(it.next(), Some(63));
    assert_eq!(it.next(), Some(64));
    assert_eq!(it.next(), Some(256));
    assert_eq!(it.next(), Some(299));
    assert_eq!(it.next(), None);
    assert_eq!(it.next(), None);
}

#[test]
fn bitmask_iter_over_given_words() {
    let words: Vec<u64> = vec![!0b1010u64, u64::MAX, (u64::MAX << 2) | 0b01];
    let mut it = BitmaskSkipfieldIter::new(&words, 130);
    assert_eq!(it.next(), Some(1));
    assert_eq!(it.next(), Some(3));
    assert_eq!(it.next(), Some(129));
    assert_eq!(it.next(), None);
}

#[test]
fn bitmask_first_active_in_later_word() {
    let mut sf = BitmaskSkipfield::new(200);
    for i in 0..130 {
        sf.skip(i);
    }
    assert_eq!(sf.first_active(), Some(130));
    assert_eq!(sf.count_skipped(), 130);
}
