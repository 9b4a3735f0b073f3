use skipfield::{BitmaskSkipfield, BoolSkipfield, LCJCSkipfield, Skipfield};

#[test]
fn encodings_counts_partition_after_every_call() {
    let n = 150;
    let mut flags = BoolSkipfield::new(n);
    let mut mask = BitmaskSkipfield::new(n);
    let mut runs = LCJCSkipfield::new(n);
    let mut step: usize = 7;
    for round in 0..400 {
        let i = step % n;
        step = step.wrapping_mul(31).wrapping_add(11) % 1_000_003;
        if round % 3 == 2 {
            let mut start = i;
            let mut end = i;
            if flags.is_skipped(i) {
                while start > 0 && flags.is_skipped(start - 1) {
                    start -= 1;
                }
                while end + 1 < n && flags.is_skipped(end + 1) {
                    end += 1;
                }
            }
            flags.unskip(i);
            mask.unskip(i);
            runs.unskip(i, Some(start), Some(end));
        } else {
            flags.skip(i);
            mask.skip(i);
            runs.skip(i);
        }
        assert_eq!(flags.count_active() + flags.count_skipped(), n);
        assert_eq!(mask.count_active() + mask.count_skipped(), n);
        assert_eq!(runs.count_active() + runs.count_skipped(), n);
        assert_eq!(flags.count_skipped(), mask.count_skipped());
        assert_eq!(flags.count_skipped(), runs.count_skipped());
        assert_eq!(flags.active_indices(), runs.active_indices());
        assert_eq!(flags.active_indices(), mask.active_indices_2());
        assert_eq!(flags.first_active(), runs.first_active());
    }
    assert!(flags.count_skipped() > 0);
    assert!(flags.count_active() > 0);
}

#[test]
fn encodings_agree_on_active_indices() {
    let n = 200;
    let mut flags = BoolSkipfield::new(n);
    let mut mask = BitmaskSkipfield::new(n);
    let mut runs = LCJCSkipfield::new(n);
    let mut packed = Skipfield::new(n);
    for i in [0, 1, 2, 5, 63, 64, 65, 66, 100, 127, 128, 199, 198, 197, 150, 152, 151] {
        flags.skip(i);
        mask.skip(i);
        runs.skip(i);
        packed.skip(i);
    }
    let expected = flags.active_indices();
    assert_eq!(expected.len(), n - 17);
    assert_eq!(mask.active_indices_1(), expected);
    assert_eq!(mask.active_indices_2(), expected);
    assert_eq!(runs.active_indices(), expected);
    let mut scanned: Vec<usize> = Vec::new();
    let mut it = mask.iter();
    while let Some(i) = it.next() {
        scanned.push(i);
    }
    assert_eq!(scanned, expected);
    assert_eq!(flags.first_active(), Some(3));
    assert_eq!(mask.first_active(), Some(3));
    assert_eq!(runs.first_active(), Some(3));
    assert_eq!(packed.first_free(), Some(3));
    assert_eq!(packed.count_skipped(), 17);
}

#[test]
fn encodings_skip_then_unskip_restores_the_slot() {
    let n = 70;
    let mut flags = BoolSkipfield::new(n);
    let mut mask = BitmaskSkipfield::new(n);
    let mut runs = LCJCSkipfield::new(n);
    for i in [10, 11, 13, 69] {
        flags.skip(i);
        mask.skip(i);
        runs.skip(i);
    }
    let before = flags.active_indices();

    flags.skip(12);
    mask.skip(12);
    runs.skip(12);
    assert_eq!(runs.debug()[10], 4);
    assert_eq!(runs.debug()[13], 4);
    flags.unskip(12);
    mask.unskip(12);
    runs.unskip(12, Some(10), Some(13));

    assert!(!flags.is_skipped(12));
    assert!(!mask.is_skipped(12));
    assert!(!runs.is_skipped(12));
    assert_eq!(flags.active_indices(), before);
    assert_eq!(mask.active_indices_2(), before);
    assert_eq!(runs.active_indices(), before);
    assert_eq!(runs.debug()[10], 2);
    assert_eq!(runs.debug()[11], 2);
    assert_eq!(runs.debug()[13], 1);
}
