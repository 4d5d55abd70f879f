use std::ops::Range;

use unix_1972_bits::interval::{IntervalError, IntervalSet};

const M: usize = usize::MAX;

/// The set holding `[1, 3)` and `[7, 10)` inside the bounds `[0, 20)`.
fn sample() -> IntervalSet {
    let mut set = IntervalSet::new(0..20);
    set.insert(1..3).unwrap();
    set.insert(7..10).unwrap();
    assert_eq!(set.intervals().to_vec(), vec![0..0, 1..3, 7..10, 20..M]);
    set
}

#[test]
fn insert() {
    let tests = [
        (0..0, None),
        (0..1, Some(vec![0..3, 7..10, 20..M])),
        (1..3, None),
        (1..5, None),
        (2..6, None),
        (8..9, None),
        (3..5, Some(vec![0..0, 1..5, 7..10, 20..M])),
        (4..6, Some(vec![0..0, 1..3, 4..6, 7..10, 20..M])),
        (5..7, Some(vec![0..0, 1..3, 5..10, 20..M])),
        (10..20, Some(vec![0..0, 1..3, 7..M])),
        (19..21, None),
        (20..20, None),
        (M..M, None),
    ];
    for (interval, expect) in tests {
        let mut set = sample();
        let inserted = set.insert(interval.clone());
        assert_eq!(
            inserted.ok().map(|()| set.intervals().to_vec()),
            expect,
            "insert({interval:?})"
        );
    }
}

#[test]
fn get_disjoint() {
    let set = sample();
    let tests = [
        (0..M, vec![0..1, 3..7, 10..20]),
        (4..6, vec![4..6]),
        (7..9, vec![]),
    ];
    for (interval, expect) in tests {
        let mut got = Vec::new();
        set.get_disjoint(interval.clone(), &mut got);
        assert_eq!(got, expect, "get_disjoint({interval:?})");
    }
}

#[test]
fn insert_errors_name_the_cause() {
    let mut set = sample();
    assert_eq!(set.insert(5..5), Err(IntervalError::Empty));
    assert_eq!(set.insert(6..4), Err(IntervalError::Empty));
    assert_eq!(set.insert(2..4), Err(IntervalError::NotDisjoint));
    assert_eq!(set.insert(25..30), Err(IntervalError::NotDisjoint));
}

#[test]
fn rejected_insert_leaves_set_unchanged() {
    for interval in [0..0, 2..4, 6..8, 15..25, 30..40, 9..8] {
        let mut set = sample();
        let before = set.intervals().to_vec();
        assert!(set.insert(interval).is_err());
        assert_eq!(set.intervals().to_vec(), before);
    }
}

#[test]
fn inserts_stay_sorted_and_merged() {
    let mut set = IntervalSet::new(0..100);
    for interval in [50..60, 10..20, 20..30, 70..80, 60..70, 0..5, 90..100] {
        set.insert(interval).unwrap();
        let stored = set.intervals();
        for pair in stored.windows(2) {
            assert!(pair[0].end < pair[1].start, "{stored:?}");
        }
    }
    assert_eq!(set.intervals().to_vec(), vec![0..5, 10..30, 50..80, 90..M]);
}

#[test]
fn filling_the_bounds_leaves_one_range() {
    let mut set = IntervalSet::new(0..20);
    set.insert(0..20).unwrap();
    assert_eq!(set.intervals().to_vec(), vec![0..M]);
    let mut got: Vec<Range<usize>> = Vec::new();
    set.get_disjoint(0..M, &mut got);
    assert!(got.is_empty());
}

#[test]
fn complement_over_bounds_lists_gaps() {
    let set = sample();
    let mut got = vec![100..101];
    set.get_disjoint(0..20, &mut got);
    assert_eq!(got, vec![100..101, 0..1, 3..7, 10..20]);
}

#[test]
fn complement_of_empty_range_is_empty() {
    let set = sample();
    let mut got = Vec::new();
    set.get_disjoint(5..5, &mut got);
    set.get_disjoint(6..2, &mut got);
    assert!(got.is_empty());
}

#[test]
fn complement_of_partly_claimed_range() {
    let set = sample();
    let mut got = Vec::new();
    set.get_disjoint(2..8, &mut got);
    assert_eq!(got, vec![3..7]);
}
