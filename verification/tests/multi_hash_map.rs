use crystal_sphinx::common::utility::multi_hash_map::MultiSet;
use crystal_sphinx::entity::system::replicator::instigator::EntityOperation;
use std::collections::{HashMap, HashSet};

fn multiset(entries: &[(u32, &[char])]) -> MultiSet<u32, char> {
    MultiSet::from(entries.iter().map(|(k, vs)| (*k, vs.iter().cloned().collect::<HashSet<char>>())).collect())
}

fn contents(set: MultiSet<u32, char>) -> HashMap<u32, HashSet<char>> {
    set.into_inner()
}

#[test]
fn insert_and_remove() {
    let mut set: MultiSet<u32, char> = MultiSet::default();
    assert!(set.insert(&1, 'a'));
    assert!(!set.insert(&1, 'a'));
    assert!(set.insert(&1, 'b'));
    assert!(set.insert(&2, 'a'));
    assert!(set.remove(&1, &'a'));
    assert!(!set.remove(&1, &'a'));
    assert!(!set.remove(&3, &'a'));
    // Removing the last value of a key drops the key.
    assert!(set.remove(&2, &'a'));
    assert_eq!(contents(set), HashMap::from([(1, HashSet::from(['b']))]));
}

#[test]
fn insert_all_counts_new_values() {
    let mut set = multiset(&[(1, &['a', 'b'])]);
    assert_eq!(set.insert_all(&1, HashSet::from(['b', 'c', 'd'])), 2);
    assert_eq!(set.insert_all(&2, HashSet::from(['x'])), 1);
    assert_eq!(set.insert_all(&3, HashSet::new()), 0);
    assert_eq!(
        contents(set),
        HashMap::from([(1, HashSet::from(['a', 'b', 'c', 'd'])), (2, HashSet::from(['x']))])
    );
}

#[test]
fn append_keys_adds_value_to_each() {
    let mut set = multiset(&[(1, &['a'])]);
    set.append_keys(vec![1, 2, 2], &'z');
    assert_eq!(
        contents(set),
        HashMap::from([(1, HashSet::from(['a', 'z'])), (2, HashSet::from(['z']))])
    );
}

#[test]
fn remove_key_and_value() {
    let mut set = multiset(&[(1, &['a', 'b']), (2, &['a']), (3, &['c'])]);
    assert_eq!(set.remove_key(&3), Some(HashSet::from(['c'])));
    assert_eq!(set.remove_key(&3), None);
    assert_eq!(set.remove_value(&'a'), HashSet::from([1, 2]));
    // Keys whose set becomes empty stay.
    assert_eq!(contents(set), HashMap::from([(1, HashSet::from(['b'])), (2, HashSet::new())]));
}

#[test]
fn keys_lists_each_key() {
    let set = multiset(&[(1, &['a']), (2, &['b']), (5, &[])]);
    let keys: HashSet<u32> = set.keys().cloned().collect();
    assert_eq!(keys, HashSet::from([1, 2, 5]));
    assert_eq!(set.keys().count(), 3);
}

#[test]
fn difference_and_intersection() {
    let a = multiset(&[(1, &['a', 'b']), (2, &['c']), (3, &['d'])]);
    let b = multiset(&[(1, &['b', 'x']), (2, &['c']), (4, &['e'])]);
    assert_eq!(
        contents(a.difference(&b)),
        HashMap::from([(1, HashSet::from(['a'])), (3, HashSet::from(['d']))])
    );
    assert_eq!(
        contents(a.intersection(&b)),
        HashMap::from([(1, HashSet::from(['b'])), (2, HashSet::from(['c']))])
    );
    // Together they hold each value of `a` once.
    let diff = contents(a.difference(&b));
    let inter = contents(a.intersection(&b));
    for (key, values) in contents(a.clone()) {
        let mut joined: HashSet<char> = diff.get(&key).cloned().unwrap_or_default();
        let common = inter.get(&key).cloned().unwrap_or_default();
        assert!(joined.is_disjoint(&common));
        joined.extend(common);
        assert_eq!(joined, values);
    }
}

#[test]
fn remove_undoes_insert() {
    let initial = multiset(&[(1, &['a']), (2, &['b', 'c'])]);
    let mut set = initial.clone();
    assert!(set.insert(&1, 'z'));
    assert!(set.remove(&1, &'z'));
    assert!(set.insert(&9, 'z'));
    assert!(set.remove(&9, &'z'));
    assert_eq!(contents(set), contents(initial));
}

#[test]
fn entity_operation_from_relevance() {
    assert_eq!(EntityOperation::from_relevance(false, false), None);
    assert_eq!(EntityOperation::from_relevance(false, true), Some(EntityOperation::Relevant));
    assert_eq!(EntityOperation::from_relevance(true, false), Some(EntityOperation::Irrelevant));
    assert_eq!(EntityOperation::from_relevance(true, true), Some(EntityOperation::Update));
}

#[test]
fn entity_operation_record() {
    let mut relevant: MultiSet<u32, u16> = MultiSet::default();
    EntityOperation::Relevant.record(&mut relevant, &7, 80);
    EntityOperation::Relevant.record(&mut relevant, &7, 81);
    EntityOperation::Update.record(&mut relevant, &7, 82);
    EntityOperation::Destroyed.record(&mut relevant, &7, 80);
    assert_eq!(relevant.clone().into_inner(), HashMap::from([(7, HashSet::from([80, 81]))]));
    EntityOperation::Irrelevant.record(&mut relevant, &7, 80);
    EntityOperation::Irrelevant.record(&mut relevant, &7, 81);
    assert_eq!(relevant.into_inner(), HashMap::new());
}
