use crate::common::utility::multi_hash_map::{with_value, without_value, MultiSet};
use crate::common::world::point::Point3;
use std::hash::Hash;
use vstd::prelude::*;

verus! {

/// An entity, of type `E`, whose chunk has changed since it was last acknowledged.
#[derive(Clone, Copy, Debug, PartialEq, Eq)]
pub struct UpdatedEntity<E> {
    pub entity: E,
    pub old_chunk: Option<Point3<i64>>,
    pub new_chunk: Point3<i64>,
}

impl<E> UpdatedEntity<E> {
    /// The update of `entity`, which moved from `old_chunk` (`None` where it had none yet) to
    /// `new_chunk`; `None` where it stayed in the same chunk.
    pub open spec fn spec_acknowledged(entity: E, old_chunk: Option<Point3<i64>>, new_chunk: Point3<i64>) -> Option<Self> {
        if old_chunk == Some(new_chunk) {
            None
        } else {
            Some(UpdatedEntity { entity, old_chunk, new_chunk })
        }
    }

    /// An entity gets an update exactly where it did not stay in its chunk: where it had no chunk
    /// yet, or its new chunk differs from the old one on any axis; the update carries the entity
    /// and both chunks.
    pub proof fn lemma_acknowledged_moves(entity: E, old_chunk: Option<Point3<i64>>, new_chunk: Point3<i64>)
        ensures
            Self::spec_acknowledged(entity, old_chunk, new_chunk) is None <==> (old_chunk matches Some(o)
                && o.x == new_chunk.x && o.y == new_chunk.y && o.z == new_chunk.z),
            Self::spec_acknowledged(entity, old_chunk, new_chunk) matches Some(u) ==> u.entity == entity
                && u.old_chunk == old_chunk && u.new_chunk == new_chunk,
    {
    }

    /// The update of `entity`, which moved from `old_chunk` (`None` where it had none yet) to
    /// `new_chunk`; `None` where it stayed in the same chunk.
    pub fn acknowledged(entity: E, old_chunk: Option<Point3<i64>>, new_chunk: Point3<i64>) -> (r: Option<Self>)
        ensures
            r == Self::spec_acknowledged(entity, old_chunk, new_chunk),
            r is None <==> old_chunk == Some(new_chunk),
            r matches Some(u) ==> u.entity == entity && u.old_chunk == old_chunk && u.new_chunk == new_chunk,
    {
        if let Some(old) = &old_chunk {
            if new_chunk == *old {
                return None;
            }
        }
        Some(UpdatedEntity { entity, old_chunk, new_chunk })
    }
}

/// What happened to an entity, as far as a connection that replicates it is concerned.
#[derive(Clone, Copy, Debug, PartialEq, Eq, Hash)]
pub enum EntityOperation {
    /// Entity was spawned within relevancy range, or has entered relevancy range.
    /// Entities can enter range when relevancy-owning entities move, changing what chunks are relevant,
    /// or when an entity moves into range of relevancy-owning entities.
    Relevant,
    /// Entity was already relevant, but its data has changed.
    Update,
    /// Entity is no longer in relevancy range.
    Irrelevant,
    /// Entity was destroyed while in relevancy range.
    Destroyed,
}

impl EntityOperation {
    /// The operation a connection is sent for an updated entity, from whether the entity was
    /// relevant to the connection before the update and whether it is after.
    pub open spec fn spec_from_relevance(was_relevant: bool, is_relevant: bool) -> Option<EntityOperation> {
        match (was_relevant, is_relevant) {
            (false, false) => None,
            (false, true) => Some(EntityOperation::Relevant),
            (true, false) => Some(EntityOperation::Irrelevant),
            (true, true) => Some(EntityOperation::Update),
        }
    }

    pub fn from_relevance(was_relevant: bool, is_relevant: bool) -> (r: Option<EntityOperation>)
        ensures
            r == Self::spec_from_relevance(was_relevant, is_relevant),
    {
        match (was_relevant, is_relevant) {
            // NO-OP: entity wasn't relevant and still isn't relevant
            (false, false) => None,
            // Is newly relevant with this set of updates
            (false, true) => Some(EntityOperation::Relevant),
            // Is no longer relevant with this set of updates
            (true, false) => Some(EntityOperation::Irrelevant),
            // Is still relevant and addr needs entity updates
            (true, true) => Some(EntityOperation::Update),
        }
    }

    /// The record of which addresses each entity is relevant to, after this operation on `entity`
    /// for `address`.
    pub open spec fn spec_record<E, A>(self, relevant: Map<E, Set<A>>, entity: E, address: A) -> Map<E, Set<A>> {
        match self {
            EntityOperation::Relevant => with_value(relevant, entity, address),
            EntityOperation::Irrelevant => without_value(relevant, entity, address),
            EntityOperation::Update | EntityOperation::Destroyed => relevant,
        }
    }

    /// Records in `relevant` what this operation on `entity` for `address` changes of which
    /// addresses each entity is relevant to.
    pub fn record<E: Hash + Eq + Clone, A: Hash + Eq + Clone>(
        &self,
        relevant: &mut MultiSet<E, A>,
        entity: &E,
        address: A,
    )
        requires
            MultiSet::<E, A>::usable(),
        ensures
            final(relevant)@ == self.spec_record(old(relevant)@, *entity, address),
    {
        match self {
            EntityOperation::Relevant => {
                relevant.insert(entity, address);
            },
            // NO-OP: Entity has not changed relevancy
            EntityOperation::Update => {},
            EntityOperation::Irrelevant => {
                relevant.remove(entity, &address);
            },
            // NO-OP, addresses for dropped are gathered by removing them from the relevant entities
            EntityOperation::Destroyed => {},
        }
    }

    /// An entity that enters and then leaves relevancy range of an address leaves the record as
    /// it was, where it was not relevant to the address before and its set of addresses was not empty.
    pub proof fn lemma_enter_leave<E, A>(relevant: Map<E, Set<A>>, entity: E, address: A)
        requires
            !crate::common::utility::multi_hash_map::set_of(relevant, entity).contains(address),
            relevant.contains_key(entity) ==> !relevant[entity].is_empty(),
        ensures
            EntityOperation::Irrelevant.spec_record(
                EntityOperation::Relevant.spec_record(relevant, entity, address),
                entity,
                address,
            ) == relevant,
    {
        crate::common::utility::multi_hash_map::lemma_remove_undoes_insert(relevant, entity, address);
    }
}

} // verus!
