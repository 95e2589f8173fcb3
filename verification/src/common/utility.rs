use std::collections::HashMap;
use std::hash::Hash;
use vstd::prelude::*;
use vstd::std_specs::hash::{group_hash_axioms, obeys_key_model};
use vstd::std_specs::iter::IteratorSpec;

pub mod multi_hash_map;
pub mod vec_sectioned;

verus! {

/// Every clone of a value of `T` equals the value.
pub open spec fn clone_faithful<T: Clone>() -> bool {
    forall|a: T, b: T| #[trigger] vstd::pervasive::strictly_cloned(a, b) ==> a == b
}

/// `T` behaves as a key of a hash table: hashing and equality agree with spec equality,
/// and cloning yields an equal value.
pub open spec fn key_type<T: Clone>() -> bool {
    obeys_key_model::<T>() && clone_faithful::<T>()
}

/// A clone of `t`, which equals `t` where cloning is faithful.
pub fn clone_of<T: Clone>(t: &T) -> (r: T)
    requires
        clone_faithful::<T>(),
    ensures
        r == *t,
{
    let f = T::clone;
    let r = f(t);
    assert(vstd::pervasive::strictly_cloned(*t, r));
    r
}

/// The keys of `m`, each once, in no particular order.
pub fn keys_of<K: Hash + Eq + Clone, V>(m: &HashMap<K, V>) -> (r: Vec<K>)
    requires
        key_type::<K>(),
    ensures
        r@.to_set() == m@.dom(),
        r@.no_duplicates(),
{
    broadcast use group_hash_axioms;

    let mut r: Vec<K> = Vec::new();
    for k in it: m.keys()
        invariant
            key_type::<K>(),
            it.seq().unref().to_set() == m@.dom(),
            it.seq().unref().no_duplicates(),
            r@ == it.seq().unref().take(it.index()),
            r@.no_duplicates(),
            it.index() == it.seq().len() ==> r@.to_set() == m@.dom(),
    {
        let ghost i = it.index();
        let ghost q = it.seq().unref();
        r.push(clone_of(k));
        proof {
            assert(r@ =~= q.take(i + 1));
            assert(i + 1 == q.len() ==> q.take(i + 1) =~= q);
            assert(r@.no_duplicates()) by {
                assert forall|a: int, b: int| 0 <= a < b < r@.len() implies r@[a] != r@[b] by {
                    assert(r@[a] == q[a] && r@[b] == q[b]);
                }
            }
        }
    }
    r
}

} // verus!
