use crystal_sphinx::common::utility::vec_sectioned::direction::Direction;
use crystal_sphinx::common::utility::vec_sectioned::ordered_hash_map::OrderedHashMap;
use crystal_sphinx::common::utility::vec_sectioned::range_set::RangeSet;
use crystal_sphinx::common::utility::vec_sectioned::section::Section;
use crystal_sphinx::common::utility::vec_sectioned::vec::VecSectioned;
use std::collections::HashMap;
use std::ops::Range;

type Sectioned<V> = VecSectioned<&'static str, &'static str, V>;

/// A structure with the given sections (in order), items (key, section, position),
/// values and changed ranges.
fn build<V>(
    sections: &[(&'static str, Range<usize>)],
    items: &[(&'static str, &'static str, usize)],
    values: Vec<V>,
    changed: (Vec<Range<usize>>, usize),
) -> Sectioned<V> {
    let idx_map: HashMap<&'static str, usize> = sections.iter().enumerate().map(|(i, (id, _))| (*id, i)).collect();
    let section_values: Vec<(&'static str, Section)> =
        sections.iter().map(|(id, range)| (*id, Section::from_range(range.clone()))).collect();
    let key_to_idx: HashMap<&'static str, (Option<&'static str>, usize)> =
        items.iter().map(|(key, section, idx)| (*key, (Some(*section), *idx))).collect();
    let idx_to_key: HashMap<usize, &'static str> = items.iter().map(|(key, _, idx)| (*idx, *key)).collect();
    VecSectioned::from_parts(
        OrderedHashMap::from_parts(idx_map, section_values),
        key_to_idx,
        idx_to_key,
        values,
        RangeSet::from_parts(changed.0, changed.1),
    )
}

#[test]
fn vec_no_change() {
    let path = VecSectioned::<char, u32, f32>::make_idx_path(Some(3), Some(3), 6);
    assert_eq!(path, None);
}

#[test]
fn right_existing() {
    let path = VecSectioned::<char, u32, f32>::make_idx_path(Some(1), Some(4), 6);
    let expected = vec![Some(1), Some(2), Some(3), Some(4)];
    assert_eq!(path, Some((Direction::Right, expected)));
}

#[test]
fn left_existing() {
    let path = VecSectioned::<char, u32, f32>::make_idx_path(Some(3), Some(1), 6);
    let expected = vec![Some(3), Some(2), Some(1)];
    assert_eq!(path, Some((Direction::Left, expected)));
}

#[test]
fn remove() {
    let path = VecSectioned::<char, u32, f32>::make_idx_path(Some(2), None, 6);
    let expected = vec![Some(2), Some(3), Some(4), Some(5), None];
    assert_eq!(path, Some((Direction::Right, expected)));
}

#[test]
fn vec_insert() {
    let path = VecSectioned::<char, u32, f32>::make_idx_path(None, Some(4), 6);
    let expected = vec![None, Some(5), Some(4)];
    assert_eq!(path, Some((Direction::Left, expected)));
}

#[test]
fn swap_same_section() {
    let mut sectioned = build(
        &[("section1", 0..2)],
        &[("item1", "section1", 0), ("item2", "section1", 1)],
        vec![0, 1],
        (vec![], 0),
    );
    let expected = build(
        &[("section1", 0..2)],
        &[("item1", "section1", 1), ("item2", "section1", 0)],
        vec![1, 0],
        (vec![], 0),
    );
    sectioned.swap_values(0, 1);
    assert_eq!(sectioned, expected);
}

#[test]
fn swap_in_place() {
    let mut sectioned = build(
        &[("section1", 0..2)],
        &[("item1", "section1", 0), ("item2", "section1", 1)],
        vec![0, 1],
        (vec![], 0),
    );
    let expected = sectioned.clone();
    sectioned.swap_values(1, 1);
    assert_eq!(sectioned, expected);
}

#[test]
fn swap_sections() {
    let sections = [("section1", 0..2), ("section2", 2..5), ("section3", 5..6), ("section4", 6..9), ("section5", 9..12)];
    let mut sectioned = build(
        &sections,
        &[
            ("item01", "section1", 0),
            ("item02", "section1", 1),
            ("item03", "section2", 2),
            ("item04", "section2", 3),
            ("item05", "section2", 4),
            ("item06", "section3", 5),
            ("item07", "section4", 6),
            ("item08", "section4", 7),
            ("item09", "section4", 8),
            ("item10", "section5", 9),
            ("item11", "section5", 10),
            ("item12", "section5", 11),
        ],
        vec![0, 1, 2, 3, 4, 5, 6, 7, 8, 9, 10, 11],
        (vec![], 0),
    );
    let expected = build(
        &sections,
        &[
            ("item01", "section1", 0),
            ("item03", "section1", 1),
            ("item11", "section2", 2),
            ("item04", "section2", 3),
            ("item06", "section2", 4),
            ("item05", "section3", 5),
            ("item08", "section4", 6),
            ("item07", "section4", 7),
            ("item10", "section4", 8),
            ("item09", "section5", 9),
            ("item02", "section5", 10),
            ("item12", "section5", 11),
        ],
        vec![0, 2, 10, 3, 5, 4, 7, 6, 9, 8, 1, 11],
        (vec![], 0),
    );
    sectioned.swap_values(1, 2);
    sectioned.swap_values(6, 7);
    sectioned.swap_values(9, 8);
    sectioned.swap_values(4, 5);
    sectioned.swap_values(2, 10);
    assert_eq!(sectioned, expected);
}

#[test]
fn swap_many() {
    let mut sectioned = build(
        &[("section1", 0..1), ("section2", 1..2)],
        &[("item1", "section1", 0), ("item2", "section2", 1)],
        vec![0, 1],
        (vec![], 0),
    );
    let expected = build(
        &[("section1", 0..1), ("section2", 1..2)],
        &[("item1", "section2", 1), ("item2", "section1", 0)],
        vec![1, 0],
        (vec![], 0),
    );
    sectioned.swap_values(0, 1);
    assert_eq!(sectioned, expected);
}

#[test]
fn no_changes() {
    let mut sectioned = build(
        &[("section1", 0..3)],
        &[("item1", "section1", 0), ("item2", "section1", 1), ("item3", "section1", 2)],
        vec![0, 1, 2],
        (vec![], 0),
    );
    assert_eq!(sectioned.take_changed_ranges(), None);
}

#[test]
fn no_empty_sections() {
    let sections = [("section1", 0..1), ("section2", 1..2), ("section3", 2..3)];
    let items = [("item1", "section1", 0), ("item2", "section2", 1), ("item3", "section3", 2)];
    let mut sectioned = build(&sections, &items, vec![0, 1, 2], (vec![0..1], 1));
    assert_eq!(sectioned.take_changed_ranges(), Some((vec![0..1], 1)));

    let mut sectioned = build(&sections, &items, vec![0, 1, 2], (vec![0..1, 4..5, 6..10], 6));
    assert_eq!(sectioned.take_changed_ranges(), Some((vec![0..1, 4..5, 6..10], 6)));
}

#[test]
fn full_prune() {
    let mut sectioned = build(
        &[("section1", 0..2), ("section2", 2..2), ("section3", 2..6), ("section4", 6..6), ("section5", 6..9)],
        &[
            ("itemA", "section1", 0),
            ("itemB", "section1", 1),
            ("itemF", "section3", 2),
            ("itemD", "section3", 3),
            ("itemE", "section3", 4),
            ("itemI", "section3", 5),
            ("itemG", "section5", 6),
            ("itemH", "section5", 7),
            ("itemJ", "section5", 8),
        ],
        vec!['a', 'b', 'f', 'd', 'e', 'i', 'g', 'h', 'j'],
        (vec![2..3, 5..6, 8..10], 4),
    );
    assert_eq!(sectioned.take_changed_ranges(), Some((vec![2..3, 5..6, 8..10], 4)));
    assert_eq!(
        sectioned,
        build(
            &[("section1", 0..2), ("section3", 2..6), ("section5", 6..9)],
            &[
                ("itemA", "section1", 0),
                ("itemB", "section1", 1),
                ("itemF", "section3", 2),
                ("itemD", "section3", 3),
                ("itemE", "section3", 4),
                ("itemI", "section3", 5),
                ("itemG", "section5", 6),
                ("itemH", "section5", 7),
                ("itemJ", "section5", 8),
            ],
            vec!['a', 'b', 'f', 'd', 'e', 'i', 'g', 'h', 'j'],
            (vec![], 0),
        )
    );
}

#[test]
fn same_section() {
    let mut sectioned = build(
        &[("section1", 0..3)],
        &[("item1", "section1", 0), ("item2", "section1", 1), ("item3", "section1", 2)],
        vec![0, 1, 2],
        (vec![], 0),
    );
    let expected = sectioned.clone();
    sectioned.change_section(Some(0), Some(0), &"item2");
    assert_eq!(sectioned, expected);
}

#[test]
fn two_sections_one_item_each() {
    let mut sectioned = build(
        &[("section1", 0..1), ("section2", 1..3)],
        &[("item1", "section1", 0), ("item2", "section2", 1), ("item3", "section2", 2)],
        vec![0, 1, 2],
        (vec![], 0),
    );
    let expected = build(
        &[("section1", 0..2), ("section2", 2..3)],
        &[("item1", "section1", 0), ("item2", "section1", 1), ("item3", "section2", 2)],
        vec![0, 1, 2],
        (vec![], 0),
    );

    let path = VecSectioned::<&str, &str, i32>::make_idx_path(Some(1), Some(0), sectioned.len());
    assert_eq!(path, Some((Direction::Left, vec![Some(1), Some(0)])));

    let removed = sectioned.change_section(Some(1), Some(0), &"item2");
    assert_eq!(removed, None);

    assert_eq!(sectioned, expected);
}

#[test]
fn many_total_length_maintained() {
    let mut sectioned = build(
        &[("section1", 0..1), ("section2", 1..3), ("section3", 3..6), ("section4", 6..9), ("section5", 9..10)],
        &[
            ("itemA", "section1", 0),
            ("itemB", "section2", 1),
            ("itemC", "section2", 2),
            ("itemD", "section3", 3),
            ("itemE", "section3", 4),
            ("itemF", "section3", 5),
            ("itemG", "section4", 6),
            ("itemH", "section4", 7),
            ("itemI", "section4", 8),
            ("itemJ", "section5", 9),
        ],
        vec![10, 11, 12, 13, 14, 15, 16, 17, 18, 19],
        (vec![], 0),
    );

    // No data changes, just change the section id
    let removed = sectioned.change_section(Some(1), Some(0), &"itemB");
    assert_eq!(removed, None);
    let expected_b = build(
        &[("section1", 0..2), ("section2", 2..3), ("section3", 3..6), ("section4", 6..9), ("section5", 9..10)],
        &[
            ("itemA", "section1", 0),
            ("itemB", "section1", 1),
            ("itemC", "section2", 2),
            ("itemD", "section3", 3),
            ("itemE", "section3", 4),
            ("itemF", "section3", 5),
            ("itemG", "section4", 6),
            ("itemH", "section4", 7),
            ("itemI", "section4", 8),
            ("itemJ", "section5", 9),
        ],
        vec![10, 11, 12, 13, 14, 15, 16, 17, 18, 19],
        (vec![], 0),
    );
    assert_eq!(sectioned, expected_b);

    // Move between two adjacent categories, affecting a number of indices along the way
    let removed = sectioned.change_section(Some(2), Some(3), &"itemD");
    assert_eq!(removed, None);
    let expected_d = build(
        &[("section1", 0..2), ("section2", 2..3), ("section3", 3..5), ("section4", 5..9), ("section5", 9..10)],
        &[
            ("itemA", "section1", 0),
            ("itemB", "section1", 1),
            ("itemC", "section2", 2),
            ("itemF", "section3", 3),
            ("itemE", "section3", 4),
            ("itemD", "section4", 5),
            ("itemG", "section4", 6),
            ("itemH", "section4", 7),
            ("itemI", "section4", 8),
            ("itemJ", "section5", 9),
        ],
        vec![10, 11, 12, 15, 14, 13, 16, 17, 18, 19],
        (vec![3..4, 5..6], 2),
    );
    assert_eq!(sectioned, expected_d);

    // Move between non-adjacent categories
    let removed = sectioned.change_section(Some(0), Some(4), &"itemA");
    assert_eq!(removed, None);
    let expected_a = build(
        &[("section1", 0..1), ("section2", 1..2), ("section3", 2..4), ("section4", 4..8), ("section5", 8..10)],
        &[
            ("itemB", "section1", 0),
            ("itemC", "section2", 1),
            ("itemE", "section3", 2),
            ("itemF", "section3", 3),
            ("itemI", "section4", 4),
            ("itemD", "section4", 5),
            ("itemG", "section4", 6),
            ("itemH", "section4", 7),
            ("itemA", "section5", 8),
            ("itemJ", "section5", 9),
        ],
        vec![11, 12, 14, 15, 18, 13, 16, 17, 10, 19],
        (vec![0..6, 8..9], 7),
    );
    assert_eq!(sectioned, expected_a);
}

#[test]
fn many_insert() {
    let mut sectioned: Sectioned<&str> = VecSectioned::new();

    sectioned.insert(&"section1", &"itemA", "a");
    assert_eq!(sectioned, build(&[("section1", 0..1)], &[("itemA", "section1", 0)], vec!["a"], (vec![0..1], 1)));

    sectioned.insert(&"section1", &"itemB", "b");
    assert_eq!(
        sectioned,
        build(
            &[("section1", 0..2)],
            &[("itemA", "section1", 0), ("itemB", "section1", 1)],
            vec!["a", "b"],
            (vec![0..2], 2)
        )
    );

    sectioned.insert(&"section2", &"itemC", "c");
    assert_eq!(
        sectioned,
        build(
            &[("section1", 0..2), ("section2", 2..3)],
            &[("itemA", "section1", 0), ("itemB", "section1", 1), ("itemC", "section2", 2)],
            vec!["a", "b", "c"],
            (vec![0..3], 3)
        )
    );

    sectioned.insert(&"section3", &"itemD", "d");
    assert_eq!(
        sectioned,
        build(
            &[("section1", 0..2), ("section2", 2..3), ("section3", 3..4)],
            &[("itemA", "section1", 0), ("itemB", "section1", 1), ("itemC", "section2", 2), ("itemD", "section3", 3)],
            vec!["a", "b", "c", "d"],
            (vec![0..4], 4)
        )
    );

    sectioned.insert(&"section2", &"itemE", "e");
    assert_eq!(
        sectioned,
        build(
            &[("section1", 0..2), ("section2", 2..4), ("section3", 4..5)],
            &[
                ("itemA", "section1", 0),
                ("itemB", "section1", 1),
                ("itemC", "section2", 2),
                ("itemE", "section2", 3),
                ("itemD", "section3", 4),
            ],
            vec!["a", "b", "c", "e", "d"],
            (vec![0..5], 5)
        )
    );

    sectioned.insert(&"section1", &"itemF", "f");
    assert_eq!(
        sectioned,
        build(
            &[("section1", 0..3), ("section2", 3..5), ("section3", 5..6)],
            &[
                ("itemA", "section1", 0),
                ("itemB", "section1", 1),
                ("itemF", "section1", 2),
                ("itemE", "section2", 3),
                ("itemC", "section2", 4),
                ("itemD", "section3", 5),
            ],
            vec!["a", "b", "f", "e", "c", "d"],
            (vec![0..6], 6)
        )
    );
}

#[test]
fn section_removed() {
    let mut sectioned = build(
        &[("section1", 0..2), ("section2", 2..3), ("section3", 3..6), ("section4", 6..9), ("section5", 9..10)],
        &[
            ("itemA", "section1", 0),
            ("itemB", "section1", 1),
            ("itemC", "section2", 2),
            ("itemD", "section3", 3),
            ("itemE", "section3", 4),
            ("itemF", "section3", 5),
            ("itemG", "section4", 6),
            ("itemH", "section4", 7),
            ("itemI", "section4", 8),
            ("itemJ", "section5", 9),
        ],
        vec!['a', 'b', 'c', 'd', 'e', 'f', 'g', 'h', 'i', 'j'],
        (vec![], 0),
    );

    let removed = sectioned.change_section(Some(1), None, &"itemC");
    assert_eq!(removed, Some('c'));
    assert_eq!(
        sectioned,
        build(
            &[("section1", 0..2), ("section2", 2..2), ("section3", 2..5), ("section4", 5..8), ("section5", 8..9)],
            &[
                ("itemA", "section1", 0),
                ("itemB", "section1", 1),
                ("itemF", "section3", 2),
                ("itemD", "section3", 3),
                ("itemE", "section3", 4),
                ("itemI", "section4", 5),
                ("itemG", "section4", 6),
                ("itemH", "section4", 7),
                ("itemJ", "section5", 8),
            ],
            vec!['a', 'b', 'f', 'd', 'e', 'i', 'g', 'h', 'j'],
            (vec![2..3, 5..6, 8..10], 4),
        )
    );
}

#[test]
fn public_operations_keep_layout() {
    let mut sectioned: Sectioned<u32> = VecSectioned::with_capacity(8);
    sectioned.insert(&"a", &"k1", 1);
    sectioned.insert(&"b", &"k2", 2);
    sectioned.insert(&"a", &"k3", 3);
    assert_eq!(sectioned.len(), 3);
    assert_eq!(sectioned.values(), &vec![1, 3, 2]);
    assert_eq!(sectioned.sections(), HashMap::from([("a", 0..2), ("b", 2..3)]));
    assert_eq!(sectioned.take_changed_ranges(), Some((vec![0..3], 3)));
    assert_eq!(sectioned.take_changed_ranges(), None);

    // Updating marks only the value's position.
    assert!(sectioned.update(&"k3", 30));
    assert!(!sectioned.update(&"missing", 0));
    assert_eq!(sectioned.values(), &vec![1, 30, 2]);
    assert_eq!(sectioned.take_changed_ranges(), Some((vec![1..2], 1)));

    // Moving a value to another section keeps every value, now in its new section.
    sectioned.swap(&"k1", &"b");
    assert_eq!(sectioned.sections(), HashMap::from([("a", 0..1), ("b", 1..3)]));
    let mut values = sectioned.values().clone();
    values.sort();
    assert_eq!(values, vec![1, 2, 30]);
    assert_eq!(sectioned.values()[0], 30);

    // Moving to a new section appends it.
    sectioned.swap(&"k2", &"c");
    assert_eq!(sectioned.sections(), HashMap::from([("a", 0..1), ("b", 1..2), ("c", 2..3)]));
    sectioned.swap(&"missing", &"c");
    assert_eq!(sectioned.len(), 3);

    // Removing gives back the section and value; the buffer shrinks.
    assert_eq!(sectioned.remove(&"k1"), Some(("b", 1)));
    assert_eq!(sectioned.remove(&"k1"), None);
    assert_eq!(sectioned.len(), 2);
    assert_eq!(sectioned.values(), &vec![30, 2]);
    assert_eq!(sectioned.sections(), HashMap::from([("a", 0..1), ("b", 1..1), ("c", 1..2)]));

    // Taking the changes prunes the emptied section.
    assert!(sectioned.take_changed_ranges().is_some());
    assert_eq!(sectioned.sections(), HashMap::from([("a", 0..1), ("c", 1..2)]));
}

#[test]
fn insert_then_remove_restores_values() {
    let mut sectioned: Sectioned<char> = VecSectioned::new();
    sectioned.insert(&"s1", &"x", 'x');
    sectioned.insert(&"s2", &"y", 'y');
    let before = sectioned.values().clone();
    sectioned.insert(&"s1", &"z", 'z');
    assert_eq!(sectioned.remove(&"z"), Some(("s1", 'z')));
    let mut after = sectioned.values().clone();
    after.sort();
    let mut sorted_before = before.clone();
    sorted_before.sort();
    assert_eq!(after, sorted_before);
}

#[test]
fn absent_keys_change_nothing() {
    let mut s: Sectioned<char> = VecSectioned::new();
    s.insert(&"s1", &"a", 'a');
    s.insert(&"s2", &"b", 'b');
    s.take_changed_ranges();
    let before = s.clone();
    assert_eq!(s.remove(&"zzz"), None);
    assert!(s == before);
    s.swap(&"zzz", &"s9");
    assert!(s == before);
    assert!(s.sections().get("s9").is_none());
}

#[test]
fn taking_changes_keeps_slots() {
    let mut s: Sectioned<char> = VecSectioned::new();
    s.insert(&"s1", &"a", 'x');
    s.insert(&"s1", &"b", 'x');
    s.insert(&"s2", &"c", 'y');
    let before = s.clone();
    assert!(s.take_changed_ranges().is_some());
    assert_eq!(s.values(), before.values());
    assert_eq!(s.take_changed_ranges(), None);
    // Removing each key gives back its own section and value.
    assert_eq!(s.remove(&"c"), Some(("s2", 'y')));
    assert_eq!(s.remove(&"a"), Some(("s1", 'x')));
    assert_eq!(s.len(), 1);
}

#[test]
fn len_counts_keys_and_sections_hold_their_keys_values() {
    let mut sectioned: Sectioned<u32> = VecSectioned::new();
    sectioned.insert(&"a", &"k1", 1);
    sectioned.insert(&"b", &"k2", 2);
    sectioned.insert(&"a", &"k3", 3);
    sectioned.insert(&"b", &"k4", 2);
    sectioned.swap(&"k3", &"b");
    assert_eq!(sectioned.remove(&"k2"), Some(("b", 2)));
    assert!(sectioned.update(&"k4", 4));
    // Keys left: k1 in a with 1, k3 in b with 3, k4 in b with 4.
    assert_eq!(sectioned.len(), 3);
    let sections = sectioned.sections();
    let total: usize = sections.values().map(|range| range.end - range.start).sum();
    assert_eq!(total, 3);
    let section_values = |id: &str| {
        let mut values = sectioned.values()[sections[id].clone()].to_vec();
        values.sort();
        values
    };
    assert_eq!(section_values("a"), vec![1]);
    assert_eq!(section_values("b"), vec![3, 4]);
}
