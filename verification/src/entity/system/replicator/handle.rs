use super::instigator::EntityOperation;
use super::relevancy::{Area, Relevance, Update, WorldUpdate};
use crate::common::utility::{clone_faithful, clone_of, key_type};
use std::collections::HashMap;
use std::hash::Hash;
use vstd::prelude::*;
use vstd::std_specs::hash::group_hash_axioms;

verus! {

broadcast use group_hash_axioms;

/// An update of an entity told to a connection: an entity that became relevant, or whose data
/// changed, with its serialized data of type `D`; or an entity, of type `E`, that is no longer
/// relevant or was destroyed.
#[derive(Clone, Debug, PartialEq, Eq)]
pub enum EntityUpdate<E, D> {
    Relevant(D),
    Update(D),
    Irrelevant(E),
    Destroyed(E),
}

/// The update told for operation `t` on an entity, from the serialized data of each entity.
pub open spec fn entity_update<E, D>(t: (EntityOperation, E), serialized: Map<E, D>) -> EntityUpdate<E, D> {
    match t.0 {
        EntityOperation::Relevant => EntityUpdate::Relevant(serialized[t.1]),
        EntityOperation::Update => EntityUpdate::Update(serialized[t.1]),
        EntityOperation::Irrelevant => EntityUpdate::Irrelevant(t.1),
        EntityOperation::Destroyed => EntityUpdate::Destroyed(t.1),
    }
}

/// The updates to tell a connection for its `operations`, in order: an entity that became
/// relevant or changed goes with its data from `serialized`, which holds data for each of them.
pub fn entity_updates<E: Hash + Eq + Clone, D: Clone>(
    operations: &Vec<(EntityOperation, E)>,
    serialized: &HashMap<E, D>,
) -> (r: Vec<EntityUpdate<E, D>>)
    requires
        key_type::<E>(),
        clone_faithful::<D>(),
        forall|i: int| 0 <= i < operations@.len() && ((#[trigger] operations@[i]).0 == EntityOperation::Relevant
            || operations@[i].0 == EntityOperation::Update) ==> serialized@.contains_key(operations@[i].1),
    ensures
        r@ == operations@.map_values(|t: (EntityOperation, E)| entity_update(t, serialized@)),
{
    let mut updates: Vec<EntityUpdate<E, D>> = Vec::new();
    for i in 0..operations.len()
        invariant
            key_type::<E>(),
            clone_faithful::<D>(),
            forall|i: int| 0 <= i < operations@.len() && ((#[trigger] operations@[i]).0 == EntityOperation::Relevant
                || operations@[i].0 == EntityOperation::Update) ==> serialized@.contains_key(operations@[i].1),
            updates@ == operations@.take(i as int).map_values(|t: (EntityOperation, E)| entity_update(t, serialized@)),
    {
        let (operation, entity) = &operations[i];
        proof {
            assert(operations@[i as int] == (*operation, *entity));
        }
        let update = match operation {
            EntityOperation::Relevant => EntityUpdate::Relevant(clone_of(serialized.get(entity).unwrap())),
            EntityOperation::Update => EntityUpdate::Update(clone_of(serialized.get(entity).unwrap())),
            EntityOperation::Irrelevant => EntityUpdate::Irrelevant(clone_of(entity)),
            EntityOperation::Destroyed => EntityUpdate::Destroyed(clone_of(entity)),
        };
        updates.push(update);
        proof {
            assert(updates@ =~= operations@.take(i + 1).map_values(|t: (EntityOperation, E)| entity_update(t, serialized@)));
        }
    }
    proof {
        assert(operations@.take(operations@.len() as int) =~= operations@);
    }
    updates
}

/// The chunk areas relevant to a connection after each update of `updates`, from `chunk`.
pub open spec fn chunk_after<C>(chunk: Seq<Area>, updates: Seq<Update<C>>) -> Seq<Area>
    decreases updates.len(),
{
    if updates.len() == 0 {
        chunk
    } else {
        match updates.last() {
            Update::World(WorldUpdate::Relevance(r)) => r.spec_areas(),
            _ => chunk_after(chunk, updates.drop_last()),
        }
    }
}

/// The entity areas relevant to a connection after each update of `updates`, from `entity`.
pub open spec fn entity_after<C>(entity: Seq<Area>, updates: Seq<Update<C>>) -> Seq<Area>
    decreases updates.len(),
{
    if updates.len() == 0 {
        entity
    } else {
        match updates.last() {
            Update::Entity(r) => r.spec_areas(),
            _ => entity_after(entity, updates.drop_last()),
        }
    }
}

/// The world updates passed on to a connection whose chunk areas were `chunk`, for each update
/// of `updates` in turn: each update of chunks, and each change of chunk relevance that differs
/// from the one before.
pub open spec fn world_updates_sent<C>(chunk: Seq<Area>, updates: Seq<Update<C>>) -> Seq<WorldUpdate<C>>
    decreases updates.len(),
{
    if updates.len() == 0 {
        Seq::empty()
    } else {
        let before = world_updates_sent(chunk, updates.drop_last());
        match updates.last() {
            Update::World(WorldUpdate::Relevance(r)) => {
                if r.spec_areas() == chunk_after(chunk, updates.drop_last()) {
                    before
                } else {
                    before.push(WorldUpdate::Relevance(r))
                }
            },
            Update::World(w) => before.push(w),
            Update::Entity(_) => before,
        }
    }
}

/// What a connection has been told is relevant to it, of chunks and of entities.
pub struct Handle {
    chunk_relevance: Relevance,
    entity_relevance: Relevance,
}

impl Handle {
    pub closed spec fn spec_chunk_relevance(&self) -> Seq<Area> {
        self.chunk_relevance.spec_areas()
    }

    pub closed spec fn spec_entity_relevance(&self) -> Seq<Area> {
        self.entity_relevance.spec_areas()
    }

    /// Nothing is relevant yet.
    pub fn new() -> (r: Self)
        ensures
            r.spec_chunk_relevance() == Seq::<Area>::empty(),
            r.spec_entity_relevance() == Seq::<Area>::empty(),
    {
        Handle { chunk_relevance: Relevance::default(), entity_relevance: Relevance::default() }
    }

    pub fn chunk_relevance(&self) -> (r: &Relevance)
        ensures
            r.spec_areas() == self.spec_chunk_relevance(),
    {
        &self.chunk_relevance
    }

    pub fn entity_relevance(&self) -> (r: &Relevance)
        ensures
            r.spec_areas() == self.spec_entity_relevance(),
    {
        &self.entity_relevance
    }

    /// Takes in each update of what is relevant to the connection, in turn; returns the world
    /// updates to pass on to it, in order: each update of chunks, and each change of chunk
    /// relevance that differs from what it was.
    pub fn send_relevance_updates<C>(&mut self, updates: Vec<Update<C>>) -> (r: Vec<WorldUpdate<C>>)
        ensures
            r@ == world_updates_sent(old(self).spec_chunk_relevance(), updates@),
            final(self).spec_chunk_relevance() == chunk_after(old(self).spec_chunk_relevance(), updates@),
            final(self).spec_entity_relevance() == entity_after(old(self).spec_entity_relevance(), updates@),
    {
        let ghost chunk0 = self.spec_chunk_relevance();
        let ghost entity0 = self.spec_entity_relevance();
        let ghost all = updates@;
        let mut sent: Vec<WorldUpdate<C>> = Vec::new();
        let mut updates = updates;
        let ghost mut done: Seq<Update<C>> = Seq::empty();
        while updates.len() > 0
            invariant
                all == done + updates@,
                sent@ == world_updates_sent(chunk0, done),
                self.spec_chunk_relevance() == chunk_after(chunk0, done),
                self.spec_entity_relevance() == entity_after(entity0, done),
            decreases updates.len(),
        {
            let update = updates.remove(0);
            let ghost prev = done;
            proof {
                done = done.push(update);
                assert(done.drop_last() =~= prev);
                assert(all =~= done + updates@);
            }
            match update {
                Update::World(update) => {
                    if let WorldUpdate::Relevance(relevance) = &update {
                        if relevance.same_areas(&self.chunk_relevance) {
                            continue;
                        }
                        self.chunk_relevance = relevance.duplicate();
                    }
                    sent.push(update);
                },
                Update::Entity(relevance) => {
                    self.entity_relevance = relevance;
                },
            }
        }
        proof {
            assert(updates@ =~= Seq::<Update<C>>::empty());
            assert(all =~= done);
        }
        sent
    }
}

} // verus!
