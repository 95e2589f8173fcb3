use crate::common::utility::{clone_faithful, clone_of, key_type};
use std::collections::HashSet;
use std::hash::Hash;
use vstd::prelude::*;
use vstd::std_specs::hash::group_hash_axioms;

verus! {

broadcast use group_hash_axioms;

/// The entities of `owned`, each with the address of the connection that owns it, whose owner
/// is among `owners` (connections that dropped), in the order given; they are to be removed
/// from the world.
pub fn gather_owned_entities<E: Clone, A: Hash + Eq + Clone>(owned: &Vec<(E, A)>, owners: &HashSet<A>) -> (r: Vec<(E, A)>)
    requires
        key_type::<A>(),
        clone_faithful::<E>(),
    ensures
        r@ == owned@.filter(|p: (E, A)| owners@.contains(p.1)),
{
    let mut entities: Vec<(E, A)> = Vec::new();
    for i in 0..owned.len()
        invariant
            key_type::<A>(),
            clone_faithful::<E>(),
            entities@ == owned@.take(i as int).filter(|p: (E, A)| owners@.contains(p.1)),
    {
        let (entity, address) = &owned[i];
        proof {
            let f = |p: (E, A)| owners@.contains(p.1);
            assert(owned@.take(i + 1) =~= owned@.take(i as int).push(owned@[i as int]));
            owned@.take(i as int).lemma_filter_push(owned@[i as int], f);
        }
        if owners.contains(address) {
            entities.push((clone_of(entity), clone_of(address)));
        }
    }
    proof {
        assert(owned@.take(owned@.len() as int) =~= owned@);
    }
    entities
}

} // verus!
