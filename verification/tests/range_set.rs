use crystal_sphinx::common::utility::vec_sectioned::range_set::RangeSet;
use std::ops::Range;

#[test]
fn can_merge_noncontiguous() {
    let range_set = RangeSet::from_parts(
        vec![Range { start: 0, end: 1 }, Range { start: 2, end: 4 }, Range { start: 7, end: 10 }],
        6,
    );
    assert_eq!(range_set.can_merge(0, 1), false);
    assert_eq!(range_set.can_merge(1, 2), false);
}

#[test]
fn can_merge_contiguous() {
    let range_set = RangeSet::from_parts(
        vec![Range { start: 0, end: 1 }, Range { start: 1, end: 4 }, Range { start: 4, end: 10 }],
        10,
    );
    assert_eq!(range_set.can_merge(0, 1), true);
    assert_eq!(range_set.can_merge(1, 2), true);
}

#[test]
fn merge_noncontiguous() {
    let expected = RangeSet::from_parts(
        vec![Range { start: 0, end: 1 }, Range { start: 2, end: 4 }, Range { start: 7, end: 10 }],
        6,
    );
    let mut range_set = expected.clone();
    range_set.merge(1, 2);
    assert_eq!(range_set, expected);
    range_set.merge(0, 1);
    assert_eq!(range_set, expected);
}

#[test]
fn merge_contiguous() {
    let mut range_set = RangeSet::from_parts(
        vec![Range { start: 0, end: 1 }, Range { start: 1, end: 4 }, Range { start: 4, end: 10 }],
        10,
    );

    let expected1 = RangeSet::from_parts(vec![Range { start: 0, end: 1 }, Range { start: 1, end: 10 }], 10);
    range_set.merge(1, 2);
    assert_eq!(range_set, expected1);

    let expected2 = RangeSet::from_parts(vec![Range { start: 0, end: 10 }], 10);
    range_set.merge(0, 1);
    assert_eq!(range_set, expected2);
}

#[test]
fn merge_around() {
    let mut range_set = RangeSet::from_parts(
        vec![
            Range { start: 0, end: 1 },
            Range { start: 2, end: 5 },
            Range { start: 5, end: 8 },
            Range { start: 8, end: 9 },
            Range { start: 10, end: 15 },
        ],
        13,
    );

    let expected = RangeSet::from_parts(
        vec![Range { start: 0, end: 1 }, Range { start: 2, end: 9 }, Range { start: 10, end: 15 }],
        13,
    );
    range_set.merge_ranges_around(2);
    assert_eq!(range_set, expected);
}

#[test]
fn take() {
    let ranges = vec![Range { start: 0, end: 1 }, Range { start: 2, end: 9 }, Range { start: 10, end: 15 }];
    let mut range_set = RangeSet::from_parts(ranges.clone(), 13);
    assert_eq!(range_set.take(), (ranges, 13));
}

#[test]
fn is_empty() {
    assert_eq!(RangeSet::default().is_empty(), true);
    let range_set = RangeSet::from_parts(vec![Range { start: 0, end: 1 }], 1);
    assert_eq!(range_set.is_empty(), false);
}

#[test]
fn append() {
    let mut range_set = RangeSet::from_parts(Vec::new(), 0);
    range_set.append_at(1, 0);
    assert_eq!(range_set, RangeSet::from_parts(vec![Range { start: 1, end: 2 }], 1));
    range_set.append_at(2, 1);
    assert_eq!(
        range_set,
        RangeSet::from_parts(vec![Range { start: 1, end: 2 }, Range { start: 2, end: 3 }], 2)
    );
    range_set.append_at(5, 2);
    assert_eq!(
        range_set,
        RangeSet::from_parts(
            vec![Range { start: 1, end: 2 }, Range { start: 2, end: 3 }, Range { start: 5, end: 6 }],
            3
        )
    );
}

#[test]
fn find_idx_to_insert_empty() {
    let range_set = RangeSet::from_parts(Vec::new(), 0);
    assert_eq!(range_set.get_uninserted_range_idx(5), Some(0));
}

#[test]
fn find_idx_to_insert_existing() {
    let range_set = RangeSet::from_parts(
        vec![Range { start: 1, end: 2 }, Range { start: 2, end: 3 }, Range { start: 5, end: 6 }],
        3,
    );
    assert_eq!(range_set.get_uninserted_range_idx(2), None);
    assert_eq!(range_set.get_uninserted_range_idx(3), Some(2));
}

#[test]
fn range_set_insert() {
    let mut range_set = RangeSet::from_parts(vec![], 0);
    range_set.insert(2);
    assert_eq!(range_set, RangeSet::from_parts(vec![2..3], 1));
    range_set.insert(3);
    assert_eq!(range_set, RangeSet::from_parts(vec![2..4], 2));
    range_set.insert(5);
    assert_eq!(range_set, RangeSet::from_parts(vec![2..4, 5..6], 3));
    range_set.insert(4);
    assert_eq!(range_set, RangeSet::from_parts(vec![2..6], 4));
    range_set.insert(8);
    assert_eq!(range_set, RangeSet::from_parts(vec![2..6, 8..9], 5));
    range_set.insert(0);
    assert_eq!(range_set, RangeSet::from_parts(vec![0..1, 2..6, 8..9], 6));
    range_set.insert(1);
    assert_eq!(range_set, RangeSet::from_parts(vec![0..6, 8..9], 7));
}

#[test]
fn insert_existing_index_changes_nothing() {
    let mut range_set = RangeSet::from_parts(vec![2..6, 8..9], 5);
    range_set.insert(4);
    assert_eq!(range_set, RangeSet::from_parts(vec![2..6, 8..9], 5));
}

#[test]
fn insert_keeps_ranges_apart() {
    // Inserting the indices in any order gives the same, fully merged ranges.
    let mut forward = RangeSet::new();
    for idx in [0usize, 1, 2, 4, 5, 9] {
        forward.insert(idx);
    }
    let mut backward = RangeSet::new();
    for idx in [9usize, 5, 4, 2, 1, 0] {
        backward.insert(idx);
    }
    assert_eq!(forward, RangeSet::from_parts(vec![0..3, 4..6, 9..10], 6));
    assert_eq!(forward, backward);
}
