use crystal_sphinx::common::utility::multi_hash_map::MultiSet;
use crystal_sphinx::common::world::point::Point3;
use crystal_sphinx::entity::component::chunk::relevancy::Relevancy;
use crystal_sphinx::entity::system::owned_by_connection::gather_owned_entities;
use crystal_sphinx::entity::system::replicator::handle::{entity_updates, EntityUpdate, Handle};
use crystal_sphinx::entity::system::replicator::instigator::EntityOperation;
use crystal_sphinx::entity::system::replicator::relevancy::{Area, Relevance, Update, WorldUpdate};
use crystal_sphinx::entity::system::replicator::relevancy::PairedRelevance;
use crystal_sphinx::entity::system::replicator::{
    next_chunk_relevance, route_pending, update_pending, EntityUpdates, OperationGroup, PendingRoute, Replicator,
};
use std::collections::{HashMap, HashSet};

fn relevance(areas: &[(Point3<i64>, u64)]) -> Relevance {
    let mut r = Relevance::default();
    for (center, radius) in areas {
        r.push(Area::new(*center, *radius));
    }
    r
}

fn origin() -> Point3<i64> {
    Point3::new(0, 0, 0)
}

/// Entity 7 leaves the range of address 1 for that of address 2, entity 8 spawns near address 1,
/// and entity 9, relevant to address 2, is gone.
fn scenario() -> (MultiSet<u32, u8>, EntityUpdates<u32, u8>, Vec<(u8, Relevance)>) {
    let mut relevant: MultiSet<u32, u8> = MultiSet::default();
    relevant.insert(&7, 1);
    relevant.insert(&9, 2);
    let mut updates: EntityUpdates<u32, u8> = EntityUpdates::new(&relevant);
    let relevancy = Relevancy::default().with_radius(2).with_entity_radius(1);
    updates.push_relevance(Some(&1), Some(&relevancy), origin());
    updates.push_relevance(Some(&2), Some(&relevancy), Point3::new(10, 0, 0));
    // Entities without an owner or without relevancy add nothing.
    updates.push_relevance(None, Some(&relevancy), Point3::new(50, 0, 0));
    updates.push_relevance(Some(&3), None, Point3::new(50, 0, 0));
    updates.observe_replicated(&7, Some(Point3::new(0, 0, 1)), Point3::new(10, 0, 0));
    updates.observe_replicated(&8, None, origin());
    let handles = vec![(1u8, relevance(&[(origin(), 1)])), (2u8, Relevance::default())];
    (relevant, updates, handles)
}

#[test]
fn gathered_relevance_by_owner() {
    let (_, updates, _) = scenario();
    let relevance = updates.relevance();
    assert_eq!(relevance.len(), 2);
    assert_eq!(relevance[&1].chunk.areas(), &vec![Area::new(origin(), 2)]);
    assert_eq!(relevance[&1].entity.areas(), &vec![Area::new(origin(), 1)]);
    assert_eq!(relevance[&2].entity.areas(), &vec![Area::new(Point3::new(10, 0, 0), 1)]);
}

#[test]
fn operations_of_an_update() {
    let (mut relevant, updates, handles) = scenario();
    let operations = updates.as_operations(&mut relevant, &handles);
    assert_eq!(
        operations.operations(),
        &vec![
            (EntityOperation::Destroyed, 2, 9),
            (EntityOperation::Irrelevant, 1, 7),
            (EntityOperation::Relevant, 2, 7),
            (EntityOperation::Relevant, 1, 8),
        ]
    );
    // The destroyed entity is no longer recorded.
    assert_eq!(relevant.clone().into_inner(), HashMap::from([(7, HashSet::from([1]))]));
    operations.record(&mut relevant);
    assert_eq!(relevant.into_inner(), HashMap::from([(7, HashSet::from([2])), (8, HashSet::from([1]))]));
}

#[test]
fn entity_that_stays_relevant_is_updated() {
    let mut relevant: MultiSet<u32, u8> = MultiSet::default();
    relevant.insert(&4, 1);
    let mut updates: EntityUpdates<u32, u8> = EntityUpdates::new(&relevant);
    let relevancy = Relevancy::default().with_entity_radius(3);
    updates.push_relevance(Some(&1), Some(&relevancy), origin());
    updates.observe_replicated(&4, Some(Point3::new(1, 1, 1)), Point3::new(2, 2, 2));
    // An entity that stays in its chunk has no update.
    updates.observe_replicated(&5, Some(origin()), origin());
    let handles = vec![(1u8, relevance(&[(origin(), 3)]))];
    let operations = updates.as_operations(&mut relevant, &handles);
    assert_eq!(operations.operations(), &vec![(EntityOperation::Update, 1, 4)]);
    operations.record(&mut relevant);
    assert_eq!(relevant.into_inner(), HashMap::from([(4, HashSet::from([1]))]));
}

#[test]
fn operation_group_keeps_order() {
    let mut group: OperationGroup<u32, u8> = OperationGroup::new();
    group.insert(EntityOperation::Relevant, 1, 10);
    group.insert(EntityOperation::Irrelevant, 1, 10);
    assert_eq!(
        group.operations(),
        &vec![(EntityOperation::Relevant, 1, 10), (EntityOperation::Irrelevant, 1, 10)]
    );
    let mut relevant: MultiSet<u32, u8> = MultiSet::default();
    group.record(&mut relevant);
    assert!(relevant.into_inner().is_empty());
}

#[test]
fn items_carry_relevance_and_chunks() {
    let (_, updates, _) = scenario();
    let items = updates.into_items(HashMap::from([(1u8, vec!["a", "b"]), (5u8, vec!["z"])]));
    assert_eq!(items.len(), 2);
    let first = &items[&1];
    assert_eq!(first.len(), 3);
    assert!(matches!(&first[0], Update::Entity(r) if r.areas() == &vec![Area::new(origin(), 1)]));
    assert!(matches!(&first[1], Update::World(WorldUpdate::Relevance(r)) if r.areas() == &vec![Area::new(origin(), 2)]));
    assert!(matches!(&first[2], Update::World(WorldUpdate::Chunks(c)) if c == &vec!["a", "b"]));
    assert_eq!(items[&2].len(), 2);
}

#[test]
fn handle_takes_relevance_updates() {
    let mut handle = Handle::new();
    let chunk = relevance(&[(origin(), 2)]);
    let entity = relevance(&[(origin(), 1)]);
    let updates = vec![
        Update::Entity(entity.duplicate()),
        Update::World(WorldUpdate::Relevance(chunk.duplicate())),
        Update::World(WorldUpdate::Chunks(vec![1u8, 2])),
    ];
    let sent = handle.send_relevance_updates(updates);
    assert_eq!(sent.len(), 2);
    assert!(matches!(&sent[0], WorldUpdate::Relevance(r) if r == &chunk));
    assert!(matches!(&sent[1], WorldUpdate::Chunks(c) if c == &vec![1u8, 2]));
    assert_eq!(handle.chunk_relevance(), &chunk);
    assert_eq!(handle.entity_relevance(), &entity);
    // The same chunk relevance again is not passed on.
    let sent = handle.send_relevance_updates(vec![Update::<u8>::World(WorldUpdate::Relevance(chunk.duplicate()))]);
    assert!(sent.is_empty());
    // A different one is.
    let other = relevance(&[(origin(), 4)]);
    let sent = handle.send_relevance_updates(vec![Update::<u8>::World(WorldUpdate::Relevance(other.duplicate()))]);
    assert_eq!(sent.len(), 1);
    assert_eq!(handle.chunk_relevance(), &other);
}

#[test]
fn same_areas_compares_in_order() {
    let a = relevance(&[(origin(), 1), (Point3::new(1, 0, 0), 2)]);
    let b = relevance(&[(Point3::new(1, 0, 0), 2), (origin(), 1)]);
    assert!(a.same_areas(&a.duplicate()));
    assert!(!a.same_areas(&b));
    assert!(!a.same_areas(&Relevance::default()));
}

#[test]
fn owned_entities_of_dropped_connections() {
    let owned = vec![(1u32, 10u8), (2, 11), (3, 10), (4, 12)];
    let dropped = HashSet::from([10u8, 12]);
    assert_eq!(gather_owned_entities(&owned, &dropped), vec![(1, 10), (3, 10), (4, 12)]);
    assert!(gather_owned_entities(&owned, &HashSet::new()).is_empty());
}

fn operation_set(group: &OperationGroup<u32, u8>) -> HashSet<(EntityOperation, u8, u32)> {
    group.operations().iter().cloned().collect()
}

#[test]
fn replicator_tracks_relevance_over_updates() {
    let mut replicator: Replicator<u32, u8> = Replicator::new();
    replicator.add_connection(1);
    replicator.add_connection(2);
    let relevancy = Relevancy::default().with_radius(2).with_entity_radius(1);

    // Entities 7 and 8 spawn near the entities of connections 1 and 2.
    let mut updates: EntityUpdates<u32, u8> = EntityUpdates::new(replicator.entities_relevant());
    updates.push_relevance(Some(&1), Some(&relevancy), origin());
    updates.push_relevance(Some(&2), Some(&relevancy), Point3::new(10, 0, 0));
    updates.observe_replicated(&7, None, origin());
    updates.observe_replicated(&8, None, Point3::new(10, 0, 0));
    let (operations, sent) = replicator.update(updates, HashMap::from([(2u8, vec!["c"])]));
    assert_eq!(
        operation_set(&operations),
        HashSet::from([(EntityOperation::Relevant, 1, 7), (EntityOperation::Relevant, 2, 8)])
    );
    assert_eq!(
        replicator.entities_relevant().clone().into_inner(),
        HashMap::from([(7, HashSet::from([1])), (8, HashSet::from([2]))])
    );
    assert_eq!(sent[&1].len(), 1);
    assert!(matches!(&sent[&1][0], WorldUpdate::Relevance(r) if r.areas() == &vec![Area::new(origin(), 2)]));
    assert_eq!(sent[&2].len(), 2);
    assert!(matches!(&sent[&2][1], WorldUpdate::Chunks(c) if c == &vec!["c"]));
    assert_eq!(replicator.handle(&1).unwrap().entity_relevance().areas(), &vec![Area::new(origin(), 1)]);

    // Entity 7 moves over to connection 2, and entity 8 is gone.
    let mut updates: EntityUpdates<u32, u8> = EntityUpdates::new(replicator.entities_relevant());
    updates.push_relevance(Some(&1), Some(&relevancy), origin());
    updates.push_relevance(Some(&2), Some(&relevancy), Point3::new(10, 0, 0));
    updates.observe_replicated(&7, Some(origin()), Point3::new(10, 0, 0));
    let (operations, sent) = replicator.update::<&str>(updates, HashMap::new());
    assert_eq!(operations.operations()[0], (EntityOperation::Destroyed, 2, 8));
    assert_eq!(
        operation_set(&operations),
        HashSet::from([
            (EntityOperation::Destroyed, 2, 8),
            (EntityOperation::Irrelevant, 1, 7),
            (EntityOperation::Relevant, 2, 7),
        ])
    );
    assert_eq!(replicator.entities_relevant().clone().into_inner(), HashMap::from([(7, HashSet::from([2]))]));
    // The chunk relevance did not change, so nothing is passed on.
    assert!(sent[&1].is_empty() && sent[&2].is_empty());

    // Dropping connection 2 takes it out of the record.
    replicator.remove_connection(&2);
    assert!(replicator.handle(&2).is_none());
    assert_eq!(replicator.entities_relevant().clone().into_inner(), HashMap::from([(7, HashSet::new())]));
}

#[test]
fn operations_grouped_by_address_and_entity() {
    let mut group: OperationGroup<u32, u8> = OperationGroup::new();
    group.insert(EntityOperation::Relevant, 1, 10);
    group.insert(EntityOperation::Destroyed, 2, 11);
    group.insert(EntityOperation::Update, 1, 12);
    group.insert(EntityOperation::Irrelevant, 1, 10);
    let grouped = group.by_address();
    assert_eq!(grouped.len(), 2);
    assert_eq!(
        grouped[&1],
        vec![(EntityOperation::Relevant, 10), (EntityOperation::Update, 12), (EntityOperation::Irrelevant, 10)]
    );
    assert_eq!(grouped[&2], vec![(EntityOperation::Destroyed, 11)]);
    assert_eq!(group.entities(), HashSet::from([10, 11, 12]));
    assert!(OperationGroup::<u32, u8>::new().by_address().is_empty());
}

#[test]
fn entity_updates_carry_serialized_data() {
    let operations = vec![
        (EntityOperation::Relevant, 10u32),
        (EntityOperation::Update, 12),
        (EntityOperation::Irrelevant, 13),
        (EntityOperation::Destroyed, 14),
    ];
    let serialized = HashMap::from([(10u32, "ten"), (12, "twelve")]);
    assert_eq!(
        entity_updates(&operations, &serialized),
        vec![
            EntityUpdate::Relevant("ten"),
            EntityUpdate::Update("twelve"),
            EntityUpdate::Irrelevant(13),
            EntityUpdate::Destroyed(14),
        ]
    );
}

#[test]
fn pending_chunks_route_and_relevance_change() {
    let c = Point3::new(1, 2, 3);
    assert_eq!(route_pending(c, true), PendingRoute::Send(c));
    assert_eq!(route_pending(c, false), PendingRoute::Requeue(c));
    let current = relevance(&[(origin(), 1)]);
    let same = PairedRelevance { chunk: current.duplicate(), entity: Relevance::default() };
    let other = PairedRelevance { chunk: relevance(&[(origin(), 2)]), entity: Relevance::default() };
    assert!(next_chunk_relevance(None, &current).is_none());
    assert!(next_chunk_relevance(Some(&same), &current).is_none());
    assert_eq!(next_chunk_relevance(Some(&other), &current), Some(&other.chunk));
}

#[test]
fn pending_chunks_follow_the_relevance() {
    let current = relevance(&[]);
    let next = relevance(&[(Point3::new(0, 0, 0), 1)]);
    let pending = vec![Point3::new(5, 5, 5), Point3::new(0, 0, 0), Point3::new(1, 1, 1)];
    let updated = update_pending(&pending, &next, &current);
    let as_set: HashSet<Point3<i64>> = updated.iter().copied().collect();
    assert_eq!(as_set.len(), updated.len());
    let mut expected: HashSet<Point3<i64>> = HashSet::new();
    for x in -1..1 {
        for y in -1..1 {
            for z in -1..1 {
                expected.insert(Point3::new(x, y, z));
            }
        }
    }
    // Still held by the next relevance, though outside its cuboid.
    expected.insert(Point3::new(1, 1, 1));
    assert_eq!(as_set, expected);

    // Nothing new comes in where the relevance stays the same; what it no longer holds leaves.
    let same = update_pending(&vec![Point3::new(5, 5, 5), Point3::new(-1, 0, 0)], &next, &next);
    assert_eq!(same, vec![Point3::new(-1, 0, 0)]);
}
