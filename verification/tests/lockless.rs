use skipfield::lockless_bool_skipfield::{alive_in, claims_slot, LockLessBoolSkipfield};

#[test]
fn lockless_new_is_fully_skipped() {
    let sf = LockLessBoolSkipfield::new(10);
    for i in 0..10 {
        assert!(!sf.is_active(i));
    }
    assert!(sf.alive_indices().is_empty());
}

#[test]
fn lockless_swap_reports_prior_state() {
    let sf = LockLessBoolSkipfield::new(10);
    assert!(sf.unskip(2));
    assert!(!sf.unskip(2));
    assert!(sf.unskip(5));

    assert_eq!(sf.is_active(2), true);
    assert_eq!(sf.is_active(3), false);

    assert!(sf.skip(2));
    assert!(!sf.skip(2));
    assert!(!sf.skip(3));
    assert_eq!(sf.is_active(2), false);

    assert_eq!(sf.alive_indices(), vec![5]);
}

#[test]
fn lockless_every_even_slot_skipped() {
    let size = 100000;
    let sf = LockLessBoolSkipfield::new(size);
    for i in 0..size {
        sf.unskip(i);
    }
    let mut i = 0;
    while i < size {
        sf.skip(i);
        i += 2;
    }
    let mut i = 0;
    while i < size {
        assert!(!sf.is_active(i), "Slot {} should have been erased!", i);
        assert!(sf.is_active(i + 1), "Slot {} should still be alive!", i);
        i += 2;
    }
    let alive = sf.alive_indices();
    assert_eq!(alive.len(), size / 2);
    assert_eq!(alive[0], 1);
    assert_eq!(alive[alive.len() - 1], size - 1);
}

#[test]
fn lockless_alive_in_lists_set_flags() {
    assert_eq!(alive_in(&[true, false, true, true, false]), vec![0, 2, 3]);
    assert_eq!(alive_in(&[false, false]), Vec::<usize>::new());
    assert_eq!(alive_in(&[]), Vec::<usize>::new());
}

#[test]
fn lockless_read_all_sees_every_slot() {
    let sf = LockLessBoolSkipfield::new(4);
    sf.unskip(1);
    sf.unskip(3);
    assert_eq!(sf.read_all(), vec![false, true, false, true]);
    assert_eq!(sf.alive_indices(), vec![1, 3]);
}

#[test]
fn lockless_claim_follows_prior_state() {
    assert!(claims_slot(false));
    assert!(!claims_slot(true));
}
