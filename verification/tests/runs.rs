use skipfield::lcjc_skipfield::LCJCSkipfield;

#[test]
fn test_skip_and_counting() {
    let mut sf = LCJCSkipfield::new(10);
    assert_eq!(sf.count_skipped(), 0);
    assert_eq!(sf.count_active(), 10);
    assert_eq!(sf.first_active(), Some(0));

    sf.skip(2);
    assert!(sf.is_skipped(2));
    assert_eq!(sf.count_skipped(), 1);
    assert_eq!(sf.count_active(), 9);

    sf.skip(3);
    sf.skip(4);
    assert!(sf.is_skipped(2));
    assert!(sf.is_skipped(3));
    assert!(sf.is_skipped(4));
    assert_eq!(sf.count_skipped(), 3);
    assert_eq!(sf.count_active(), 7);
}

#[test]
fn test_unskip_middle_node_in_block() {
    let mut sf = LCJCSkipfield::new(10);
    sf.skip(1);
    sf.skip(2);
    sf.skip(3);

    sf.unskip(2, Some(1), Some(3));
    assert!(!sf.is_skipped(2));
    assert!(sf.is_skipped(1));
    assert!(sf.is_skipped(3));
    assert_eq!(sf.count_skipped(), 2);
    assert_eq!(sf.count_active(), 8);
}

#[test]
fn test_unskip_block_start_and_end() {
    let mut sf = LCJCSkipfield::new(10);
    sf.skip(4);
    sf.skip(5);
    sf.skip(6);

    sf.unskip(4, Some(4), None);
    assert!(!sf.is_skipped(4));
    assert!(sf.is_skipped(5));
    assert!(sf.is_skipped(6));

    sf.unskip(6, None, Some(6));
    assert!(!sf.is_skipped(6));
    assert!(sf.is_skipped(5));

    sf.unskip(5, Some(5), Some(5));
    assert!(!sf.is_skipped(5));
    assert_eq!(sf.count_skipped(), 0);
    assert_eq!(sf.count_active(), 10);
}

#[test]
fn test_first_active_edge_cases() {
    let mut sf = LCJCSkipfield::new(4);
    assert_eq!(sf.first_active(), Some(0));

    sf.skip(0);
    assert_eq!(sf.first_active(), Some(1));

    sf.skip(1);
    sf.skip(2);
    sf.skip(3);
    assert_eq!(sf.first_active(), None);
}

#[test]
fn test_active_indices_correctness() {
    let mut sf = LCJCSkipfield::new(8);
    sf.skip(1);
    sf.skip(2);
    sf.skip(5);

    let active: Vec<usize> = sf.active_indices();
    assert_eq!(active, vec![0, 3, 4, 6, 7]);
}

#[test]
fn test_debug_state_shape() {
    let mut sf = LCJCSkipfield::new(6);
    sf.skip(2);
    sf.skip(3);
    sf.skip(4);

    let state = sf.debug();
    assert_eq!(state.len(), 6);
    assert_eq!(state[0], 0);
    assert_eq!(state[1], 0);
    assert!(state[2] > 0);
    assert_eq!(state[2], state[4]);
    assert_eq!(state[5], 0);
}

#[test]
fn runs_three_adjacent_in_every_order() {
    let orders: [[usize; 3]; 6] =
        [[3, 4, 5], [3, 5, 4], [4, 3, 5], [4, 5, 3], [5, 3, 4], [5, 4, 3]];
    for order in orders {
        let mut sf = LCJCSkipfield::new(9);
        for i in order {
            sf.skip(i);
        }
        let state = sf.debug();
        assert_eq!(state[3], 3);
        assert_eq!(state[5], 3);
        assert!(state[4] != 0);
        assert_eq!(state[2], 0);
        assert_eq!(state[6], 0);
        assert_eq!(sf.count_skipped(), 3);
        assert_eq!(sf.active_indices(), vec![0, 1, 2, 6, 7, 8]);
    }
}

#[test]
fn runs_split_in_the_middle_gives_two_runs() {
    let mut sf = LCJCSkipfield::new(10);
    sf.skip(4);
    sf.skip(5);
    sf.skip(6);
    assert_eq!(sf.debug()[4], 3);
    assert_eq!(sf.debug()[6], 3);

    sf.unskip(5, Some(4), Some(6));
    assert_eq!(sf.debug().to_vec(), vec![0, 0, 0, 0, 1, 0, 1, 0, 0, 0]);
    assert_eq!(sf.active_indices(), vec![0, 1, 2, 3, 5, 7, 8, 9]);

    sf.unskip(4, Some(4), Some(4));
    assert!(!sf.is_skipped(4));
    assert!(sf.is_skipped(6));
    sf.unskip(6, None, None);
    assert_eq!(sf.count_skipped(), 0);
}

#[test]
fn runs_merge_through_the_middle_marks_the_slot() {
    let mut sf = LCJCSkipfield::new(7);
    sf.skip(1);
    sf.skip(2);
    sf.skip(4);
    sf.skip(5);
    sf.skip(3);
    assert!(sf.is_skipped(3));
    assert_eq!(sf.debug()[1], 5);
    assert_eq!(sf.debug()[5], 5);
    assert_eq!(sf.count_skipped(), 5);
    assert_eq!(sf.count_active(), 2);
    assert_eq!(sf.first_active(), Some(0));
    assert_eq!(sf.active_indices(), vec![0, 6]);
}

#[test]
fn runs_merge_left_and_right() {
    let mut sf = LCJCSkipfield::new(6);
    sf.skip(3);
    sf.skip(2);
    assert_eq!(sf.debug().to_vec(), vec![0, 0, 2, 2, 0, 0]);
    sf.skip(4);
    assert_eq!(sf.debug()[2], 3);
    assert_eq!(sf.debug()[4], 3);
    sf.skip(0);
    assert_eq!(sf.debug()[0], 1);
    assert_eq!(sf.first_active(), Some(1));
    sf.skip(5);
    assert_eq!(sf.debug()[2], 4);
    assert_eq!(sf.debug()[5], 4);
    assert_eq!(sf.active_indices(), vec![1]);
}

#[test]
fn runs_shrink_from_either_end() {
    let mut sf = LCJCSkipfield::new(8);
    for i in 2..7 {
        sf.skip(i);
    }
    sf.unskip(2, Some(2), None);
    assert_eq!(sf.debug()[3], 4);
    assert_eq!(sf.debug()[6], 4);
    assert_eq!(sf.debug()[2], 0);
    sf.unskip(6, None, Some(6));
    assert_eq!(sf.debug()[3], 3);
    assert_eq!(sf.debug()[5], 3);
    assert_eq!(sf.count_skipped(), 3);
    assert_eq!(sf.active_indices(), vec![0, 1, 2, 6, 7]);
}

#[test]
fn runs_single_slot_run_at_the_last_index() {
    let mut sf = LCJCSkipfield::new(6);
    sf.skip(5);
    sf.unskip(5, Some(5), Some(5));
    assert_eq!(sf.count_skipped(), 0);
    sf.skip(0);
    sf.unskip(0, None, Some(0));
    assert_eq!(sf.count_active(), 6);
}

#[test]
fn runs_unskip_active_slot_changes_nothing() {
    let mut sf = LCJCSkipfield::new(6);
    sf.skip(1);
    sf.skip(2);
    let before: Vec<u8> = sf.debug().to_vec();
    sf.unskip(4, None, None);
    sf.unskip(0, Some(3), Some(5));
    assert_eq!(sf.debug().to_vec(), before);
}

#[test]
fn runs_skip_of_skipped_slot_changes_nothing() {
    let mut sf = LCJCSkipfield::new(6);
    sf.skip(1);
    sf.skip(2);
    sf.skip(3);
    let before: Vec<u8> = sf.debug().to_vec();
    sf.skip(1);
    sf.skip(2);
    sf.skip(3);
    assert_eq!(sf.debug().to_vec(), before);
    assert_eq!(sf.count_skipped(), 3);
}

#[test]
fn runs_longest_run_that_fits_a_counter() {
    let mut sf = LCJCSkipfield::new(300);
    for i in 10..265 {
        sf.skip(i);
    }
    assert_eq!(sf.debug()[10], 255);
    assert_eq!(sf.debug()[264], 255);
    assert_eq!(sf.count_skipped(), 255);
    assert_eq!(sf.count_active(), 45);
    assert_eq!(sf.first_active(), Some(0));
    assert_eq!(sf.active_indices().len(), 45);
}

#[test]
fn runs_empty_space() {
    let sf = LCJCSkipfield::new(0);
    assert_eq!(sf.count_skipped(), 0);
    assert_eq!(sf.count_active(), 0);
    assert_eq!(sf.first_active(), None);
    assert!(sf.active_indices().is_empty());
    assert!(sf.debug().is_empty());
}
