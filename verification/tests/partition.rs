use combinations::partition::{
    get_digit_count, Partition, PartitionError, SubRange, DEFAULT_BYTES_PER_FILE,
    DEFAULT_DIGIT_COUNT, MAX_DIGIT_COUNT, MAX_FILE_COUNT,
};

fn check_partition(p: &Partition) {
    let ranges = p.sub_ranges();
    assert_eq!(ranges.len(), p.file_count());
    assert_eq!(ranges[0].start, p.lower_bound());
    assert_eq!(ranges[ranges.len() - 1].end, p.upper_bound());
    for i in 0..ranges.len() {
        assert!(ranges[i].start < ranges[i].end);
        assert!(ranges[i].end - ranges[i].start <= p.group_size());
        assert_eq!(p.sub_range(i), Some(ranges[i]));
        if i + 1 < ranges.len() {
            assert_eq!(ranges[i].end, ranges[i + 1].start);
            assert_eq!(ranges[i].end - ranges[i].start, p.group_size());
        }
    }
}

#[test]
fn constants() {
    assert_eq!(DEFAULT_BYTES_PER_FILE, 140_000_000);
    assert_eq!(DEFAULT_DIGIT_COUNT, 5);
    assert_eq!(MAX_DIGIT_COUNT, 10);
    assert_eq!(MAX_FILE_COUNT, 999);
    assert_eq!(get_digit_count(), 5);
}

#[test]
fn one_digit_starts_at_zero() {
    let p = Partition::new(1, DEFAULT_BYTES_PER_FILE).unwrap();
    assert_eq!(p.digit_count(), 1);
    assert_eq!(p.bytes_per_file(), 140_000_000);
    assert_eq!(p.lower_bound(), 0);
    assert_eq!(p.upper_bound(), 64);
    assert_eq!(p.group_size(), 70_000_000);
    assert_eq!(p.file_count(), 1);
    assert_eq!(p.filename_width(), 1);
    assert_eq!(p.sub_ranges(), vec![SubRange { start: 0, end: 64 }]);
}

#[test]
fn two_digits_in_two_files_of_2016() {
    let p = Partition::new(2, 2016 * 3).unwrap();
    assert_eq!(p.lower_bound(), 64);
    assert_eq!(p.upper_bound(), 4096);
    assert_eq!(p.upper_bound() - p.lower_bound(), 4032);
    assert_eq!(p.group_size(), 2016);
    assert_eq!(p.file_count(), 2);
    assert_eq!(p.filename_width(), 1);
    assert_eq!(
        p.sub_ranges(),
        vec![SubRange { start: 64, end: 2080 }, SubRange { start: 2080, end: 4096 }]
    );
    for r in p.sub_ranges() {
        assert_eq!(r.end - r.start, 2016);
    }
}

#[test]
fn group_size_rounds_down() {
    let p = Partition::new(2, 2016 * 3 + 2).unwrap();
    assert_eq!(p.group_size(), 2016);
    assert_eq!(p.file_count(), 2);
    let p = Partition::new(2, 2016 * 3 - 1).unwrap();
    assert_eq!(p.group_size(), 2015);
    assert_eq!(p.file_count(), 3);
    assert_eq!(
        p.sub_ranges(),
        vec![
            SubRange { start: 64, end: 2079 },
            SubRange { start: 2079, end: 4094 },
            SubRange { start: 4094, end: 4096 }
        ]
    );
}

#[test]
fn five_digits_with_the_default_budget() {
    let p = Partition::new(5, DEFAULT_BYTES_PER_FILE).unwrap();
    assert_eq!(p.lower_bound(), 16_777_216);
    assert_eq!(p.upper_bound(), 1_073_741_824);
    assert_eq!(p.group_size(), 23_333_333);
    assert_eq!(p.file_count(), 46);
    assert_eq!(p.filename_width(), 2);
    assert_eq!(p.sub_range(0), Some(SubRange { start: 16_777_216, end: 40_110_549 }));
    assert_eq!(
        p.sub_range(45),
        Some(SubRange { start: 45 * 23_333_333 + 16_777_216, end: 1_073_741_824 })
    );
    assert_eq!(p.sub_range(46), None);
    check_partition(&p);
}

#[test]
fn sub_ranges_are_disjoint_and_cover_the_space() {
    for (d, b) in [(1u32, 2i64), (1, 3), (1, 7), (1, 127), (1, 128), (1, 129), (2, 123), (2, 1212), (3, 1036), (3, 5000)] {
        let p = Partition::new(d, b).unwrap();
        check_partition(&p);
        let ranges = p.sub_ranges();
        let mut seen = vec![0u32; (p.upper_bound() - p.lower_bound()) as usize];
        for r in &ranges {
            assert!(p.lower_bound() <= r.start && r.end <= p.upper_bound());
            for x in r.start..r.end {
                seen[(x - p.lower_bound()) as usize] += 1;
            }
        }
        assert!(seen.iter().all(|&c| c == 1));
    }
}

#[test]
fn last_sub_range_may_be_short() {
    let p = Partition::new(1, 2 * 10).unwrap();
    assert_eq!(p.group_size(), 10);
    assert_eq!(p.file_count(), 7);
    assert_eq!(p.sub_range(6), Some(SubRange { start: 60, end: 64 }));
}

#[test]
fn largest_digit_count() {
    let p = Partition::new(10, i64::MAX).unwrap();
    assert_eq!(p.lower_bound(), 1i64 << 54);
    assert_eq!(p.upper_bound(), 1i64 << 60);
    assert_eq!(p.group_size(), 838_488_366_986_797_800);
    assert_eq!(p.file_count(), 2);
    assert_eq!(
        p.sub_ranges(),
        vec![
            SubRange { start: 1i64 << 54, end: (1i64 << 54) + 838_488_366_986_797_800 },
            SubRange { start: (1i64 << 54) + 838_488_366_986_797_800, end: 1i64 << 60 }
        ]
    );
}

#[test]
fn filename_width_is_that_of_the_largest_index() {
    assert_eq!(Partition::new(2, 1212).unwrap().file_count(), 10);
    assert_eq!(Partition::new(2, 1212).unwrap().filename_width(), 1);
    assert_eq!(Partition::new(2, 1209).unwrap().file_count(), 11);
    assert_eq!(Partition::new(2, 1209).unwrap().filename_width(), 2);
    assert_eq!(Partition::new(3, 2581 * 4).unwrap().file_count(), 100);
    assert_eq!(Partition::new(3, 2581 * 4).unwrap().filename_width(), 2);
    assert_eq!(Partition::new(2, 120).unwrap().file_count(), 101);
    assert_eq!(Partition::new(2, 120).unwrap().filename_width(), 3);
}

#[test]
fn zero_digits_are_refused() {
    assert_eq!(Partition::new(0, DEFAULT_BYTES_PER_FILE).unwrap_err(), PartitionError::NoDigits);
    assert_eq!(Partition::new(0, 0).unwrap_err(), PartitionError::NoDigits);
}

#[test]
fn too_many_digits_are_refused() {
    assert!(Partition::new(10, i64::MAX).is_ok());
    assert_eq!(Partition::new(11, i64::MAX).unwrap_err(), PartitionError::SpaceTooLarge);
    assert_eq!(Partition::new(u32::MAX, 1).unwrap_err(), PartitionError::SpaceTooLarge);
}

#[test]
fn a_budget_below_one_record_is_refused() {
    assert_eq!(Partition::new(1, 1).unwrap_err(), PartitionError::BudgetTooSmall);
    assert_eq!(Partition::new(1, 0).unwrap_err(), PartitionError::BudgetTooSmall);
    assert_eq!(Partition::new(1, -5).unwrap_err(), PartitionError::BudgetTooSmall);
    assert_eq!(Partition::new(5, 5).unwrap_err(), PartitionError::BudgetTooSmall);
    assert!(Partition::new(1, 2).is_ok());
    assert_eq!(Partition::new(1, 2).unwrap().file_count(), 64);
}

#[test]
fn a_thousand_files_or_more_are_refused() {
    assert_eq!(Partition::new(4, 16532 * 5).unwrap().file_count(), 999);
    assert_eq!(Partition::new(4, 16532 * 5).unwrap().filename_width(), 3);
    assert_eq!(Partition::new(4, 16531 * 5).unwrap_err(), PartitionError::TooManyFiles);
    assert_eq!(Partition::new(2, 12).unwrap_err(), PartitionError::TooManyFiles);
    assert_eq!(Partition::new(3, 258 * 4).unwrap_err(), PartitionError::TooManyFiles);
    assert_eq!(
        Partition::new(10, DEFAULT_BYTES_PER_FILE).unwrap_err(),
        PartitionError::TooManyFiles
    );
}

#[test]
fn errors_say_what_went_wrong() {
    assert_eq!(
        PartitionError::TooManyFiles.message(),
        "Attempting to create 1000 files or more. Probably not intended."
    );
    assert_eq!(PartitionError::NoDigits.message(), "Attempting to generate tokens of no digits.");
    assert_eq!(
        PartitionError::SpaceTooLarge.message(),
        "Attempting to enumerate more tokens than can be counted."
    );
    assert_eq!(
        PartitionError::BudgetTooSmall.message(),
        "Attempting to create files that do not hold a single token."
    );
}
