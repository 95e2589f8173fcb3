use crate::common::utility::{clone_faithful, clone_of, key_type};
use std::collections::HashMap;
use std::hash::Hash;
use vstd::prelude::*;
use vstd::std_specs::hash::{group_hash_axioms, obeys_key_model};

verus! {

broadcast use group_hash_axioms;

/// Entries in insertion order, each also found by its key.
#[derive(Clone, Debug, PartialEq, Eq)]
pub struct OrderedHashMap<K: Eq + Hash + Clone, V> {
    idx_map: HashMap<K, usize>,
    values: Vec<(K, V)>,
}

impl<K: Eq + Hash + Clone, V> OrderedHashMap<K, V> {
    /// The entries in order.
    pub closed spec fn entries(&self) -> Seq<(K, V)> {
        self.values@
    }

    /// The position of each key among the entries.
    pub closed spec fn index_map(&self) -> Map<K, usize> {
        self.idx_map@
    }

    /// Each key appears once among the entries, and the index map finds it there.
    pub open spec fn wf(&self) -> bool {
        &&& key_type::<K>()
        &&& forall|i: int|
            0 <= i < self.entries().len() ==> #[trigger] self.index_map().contains_key(
                self.entries()[i].0,
            ) && self.index_map()[self.entries()[i].0] == i
        &&& forall|k: K| #[trigger]
            self.index_map().contains_key(k) ==> self.index_map()[k] < self.entries().len()
                && self.entries()[self.index_map()[k] as int].0 == k
    }

    /// Whether some entry has key `k`.
    pub open spec fn has_key(&self, k: K) -> bool {
        self.index_map().contains_key(k)
    }

    /// A map made of the given parts, as they are.
    pub fn from_parts(idx_map: HashMap<K, usize>, values: Vec<(K, V)>) -> (r: Self)
        ensures
            r.index_map() == idx_map@,
            r.entries() == values@,
    {
        OrderedHashMap { idx_map, values }
    }

    pub fn new() -> (r: Self)
        requires
            key_type::<K>(),
        ensures
            r.wf(),
            r.entries() == Seq::<(K, V)>::empty(),
            r.index_map() == Map::<K, usize>::empty(),
    {
        OrderedHashMap { idx_map: HashMap::new(), values: Vec::new() }
    }

    pub fn len(&self) -> (r: usize)
        ensures
            r == self.entries().len(),
    {
        self.values.len()
    }

    /// The value of the last entry.
    pub fn last(&self) -> (r: Option<&V>)
        ensures
            r == if self.entries().len() == 0 {
                None
            } else {
                Some(&self.entries().last().1)
            },
    {
        if self.values.len() == 0 {
            None
        } else {
            Some(&self.values[self.values.len() - 1].1)
        }
    }

    /// Appends an entry for a key that has none, and returns its position.
    pub fn push(&mut self, key: K, value: V) -> (idx: usize)
        requires
            old(self).wf(),
            !old(self).has_key(key),
        ensures
            final(self).wf(),
            idx == old(self).entries().len(),
            final(self).entries() == old(self).entries().push((key, value)),
            final(self).index_map() == old(self).index_map().insert(key, idx),
    {
        let idx = self.values.len();
        let k = clone_of(&key);
        self.values.push((k, value));
        self.idx_map.insert(key, idx);
        proof {
            assert forall|i: int| 0 <= i < self.entries().len() implies #[trigger] self.index_map().contains_key(
                self.entries()[i].0,
            ) && self.index_map()[self.entries()[i].0] == i by {
                if i < idx {
                    assert(old(self).index_map().contains_key(old(self).entries()[i].0));
                }
            }
        }
        idx
    }

    /// The position of the entry with key `key`.
    pub fn idx(&self, key: &K) -> (r: Option<usize>)
        requires
            obeys_key_model::<K>(),
        ensures
            r == if self.has_key(*key) {
                Some(self.index_map()[*key])
            } else {
                None
            },
    {
        match self.idx_map.get(key) {
            Some(i) => Some(*i),
            None => None,
        }
    }

    pub fn key(&self, idx: usize) -> (r: &K)
        requires
            idx < self.entries().len(),
        ensures
            *r == self.entries()[idx as int].0,
    {
        &self.values[idx].0
    }

    pub fn value(&self, idx: usize) -> (r: &V)
        requires
            idx < self.entries().len(),
        ensures
            *r == self.entries()[idx as int].1,
    {
        &self.values[idx].1
    }

    /// Replaces the value of the entry at `idx`.
    pub fn set_value(&mut self, idx: usize, value: V)
        requires
            old(self).wf(),
            idx < old(self).entries().len(),
        ensures
            final(self).wf(),
            final(self).index_map() == old(self).index_map(),
            final(self).entries() == old(self).entries().update(
                idx as int,
                (old(self).entries()[idx as int].0, value),
            ),
    {
        let k = clone_of(&self.values[idx].0);
        self.values.set(idx, (k, value));
        proof {
            assert forall|i: int| 0 <= i < self.entries().len() implies #[trigger] self.index_map().contains_key(
                self.entries()[i].0,
            ) && self.index_map()[self.entries()[i].0] == i by {
                assert(old(self).index_map().contains_key(old(self).entries()[i].0));
            }
            assert forall|k: K| #[trigger] self.index_map().contains_key(k) implies self.index_map()[k]
                < self.entries().len() && self.entries()[self.index_map()[k] as int].0 == k by {
                assert(old(self).index_map().contains_key(k));
            }
        }
    }

    /// Keeps only the entries whose value `should_keep` accepts, in order.
    /// `keep` states what `should_keep` decides.
    pub fn retain<F: Fn(&V) -> bool>(&mut self, should_keep: F, Ghost(keep): Ghost<spec_fn(V) -> bool>)
        requires
            old(self).wf(),
            forall|v: &V| #[trigger] should_keep.requires((v,)),
            forall|v: &V, b: bool| #[trigger] should_keep.ensures((v,), b) ==> b == keep(*v),
        ensures
            final(self).wf(),
            final(self).entries() == old(self).entries().filter(|e: (K, V)| keep(e.1)),
    {
        let ghost o = self.entries();
        let ghost pred = |e: (K, V)| keep(e.1);
        let mut idx: usize = 0;
        let ghost mut done: int = 0;
        let ghost mut f: Seq<(K, V)> = Seq::empty();
        let ghost mut srcs: Seq<int> = Seq::empty();
        proof {
            assert(o.take(0).filter(pred) =~= Seq::<(K, V)>::empty()) by {
                reveal_with_fuel(Seq::filter, 1);
            }
            assert(self.entries() =~= f + o.skip(0));
            assert forall|i: int, j: int| 0 <= i < j < o.len() implies #[trigger] o[i].0 != #[trigger] o[j].0 by {
                assert(self.index_map().contains_key(self.entries()[i].0));
                assert(self.index_map().contains_key(self.entries()[j].0));
            }
        }
        while idx < self.values.len()
            invariant
                key_type::<K>(),
                0 <= done <= o.len(),
                forall|v: &V| #[trigger] should_keep.requires((v,)),
                forall|v: &V, b: bool| #[trigger] should_keep.ensures((v,), b) ==> b == keep(*v),
                pred == (|e: (K, V)| keep(e.1)),
                f == o.take(done).filter(pred),
                idx == f.len(),
                self.entries() == f + o.skip(done),
                retain_state(o, f, srcs, done, self.index_map()),
            decreases self.values.len() - idx,
        {
            proof {
                lemma_filter_step(o, pred, done);
                assert(self.entries()[idx as int] == o[done]);
            }
            let ghost m0 = self.index_map();
            if should_keep(&self.values[idx].1) {
                let key = clone_of(&self.values[idx].0);
                self.idx_map.insert(key, idx);
                proof {
                    retain_keep_step(o, f, srcs, done, m0, self.index_map());
                    f = f.push(o[done]);
                    srcs = srcs.push(done);
                    done = done + 1;
                    assert(self.entries() =~= f + o.skip(done));
                }
                idx = idx + 1;
            } else {
                let (key, _) = self.values.remove(idx);
                self.idx_map.remove(&key);
                proof {
                    retain_drop_step(o, f, srcs, done, m0, self.index_map());
                    done = done + 1;
                    assert(self.entries() =~= f + o.skip(done));
                }
            }
        }
        proof {
            assert(done == o.len()) by {
                if done < o.len() {
                    assert(self.entries().len() > idx);
                }
            }
            assert(o.take(done) =~= o);
            assert forall|k: K| #[trigger] self.index_map().contains_key(k) implies self.index_map()[k]
                < self.entries().len() && self.entries()[self.index_map()[k] as int].0 == k by {}
            assert forall|i: int| 0 <= i < self.entries().len() implies #[trigger] self.index_map().contains_key(
                self.entries()[i].0,
            ) && self.index_map()[self.entries()[i].0] == i by {
                assert(f[i] == self.entries()[i]);
            }
        }
    }
}

/// While retaining: `f` holds the kept entries of the first `done` of `o`, `srcs` where each came from,
/// and the index map `m` finds each kept entry at its new position and each pending one at its old one.
pub open spec fn retain_state<K, V>(o: Seq<(K, V)>, f: Seq<(K, V)>, srcs: Seq<int>, done: int, m: Map<K, usize>) -> bool {
    &&& srcs.len() == f.len()
    &&& forall|i: int, j: int| 0 <= i < j < o.len() ==> #[trigger] o[i].0 != #[trigger] o[j].0
    &&& forall|i: int| 0 <= i < f.len() ==> 0 <= #[trigger] srcs[i] < done && o[srcs[i]] == f[i]
    &&& forall|i: int| 0 <= i < f.len() ==> #[trigger] m.contains_key(f[i].0) && m[f[i].0] == i
    &&& forall|j: int| done <= j < o.len() ==> #[trigger] m.contains_key(o[j].0) && m[o[j].0] == j
    &&& forall|k: K| #[trigger]
        m.contains_key(k) ==> (m[k] < f.len() && f[m[k] as int].0 == k) || (done <= m[k] < o.len()
            && o[m[k] as int].0 == k)
}

/// Keeping the entry at `d` while retaining: the index map gains its new position.
proof fn retain_keep_step<K, V>(o: Seq<(K, V)>, f: Seq<(K, V)>, srcs: Seq<int>, d: int, m0: Map<K, usize>, m1: Map<K, usize>)
    requires
        0 <= d < o.len(),
        retain_state(o, f, srcs, d, m0),
        m1 == m0.insert(o[d].0, m1[o[d].0]),
        m1[o[d].0] == f.len(),
    ensures
        retain_state(o, f.push(o[d]), srcs.push(d), d + 1, m1),
{
    let f2 = f.push(o[d]);
    let s2 = srcs.push(d);
    assert forall|i: int| 0 <= i < f2.len() implies 0 <= #[trigger] s2[i] < d + 1 && o[s2[i]] == f2[i] by {
        if i < f.len() {
            assert(srcs[i] < d);
        }
    }
    assert forall|i: int| 0 <= i < f2.len() implies #[trigger] m1.contains_key(f2[i].0) && m1[f2[i].0] == i by {
        if i < f.len() {
            assert(srcs[i] < d);
            assert(o[srcs[i]].0 != o[d].0);
            assert(f2[i] == f[i]);
        }
    }
    assert forall|j: int| d + 1 <= j < o.len() implies #[trigger] m1.contains_key(o[j].0) && m1[o[j].0] == j by {
        assert(o[d].0 != o[j].0);
    }
    assert forall|k: K| #[trigger] m1.contains_key(k) implies (m1[k] < f2.len() && f2[m1[k] as int].0 == k)
        || (d + 1 <= m1[k] < o.len() && o[m1[k] as int].0 == k) by {
        if k != o[d].0 {
            assert(m0.contains_key(k));
        }
    }
}

/// Dropping the entry at `d` while retaining: the index map loses its key.
proof fn retain_drop_step<K, V>(o: Seq<(K, V)>, f: Seq<(K, V)>, srcs: Seq<int>, d: int, m0: Map<K, usize>, m1: Map<K, usize>)
    requires
        0 <= d < o.len(),
        retain_state(o, f, srcs, d, m0),
        m1 == m0.remove(o[d].0),
    ensures
        retain_state(o, f, srcs, d + 1, m1),
{
    assert forall|i: int| 0 <= i < f.len() implies #[trigger] m1.contains_key(f[i].0) && m1[f[i].0] == i by {
        assert(srcs[i] < d);
        assert(o[srcs[i]].0 != o[d].0);
        assert(m0.contains_key(f[i].0));
    }
    assert forall|j: int| d + 1 <= j < o.len() implies #[trigger] m1.contains_key(o[j].0) && m1[o[j].0] == j by {
        assert(o[d].0 != o[j].0);
    }
    assert forall|k: K| #[trigger] m1.contains_key(k) implies (m1[k] < f.len() && f[m1[k] as int].0 == k)
        || (d + 1 <= m1[k] < o.len() && o[m1[k] as int].0 == k) by {
        assert(m0.contains_key(k));
    }
}

/// Every element of a filtered sequence comes from the sequence.
pub proof fn lemma_filter_from<A>(s: Seq<A>, pred: spec_fn(A) -> bool)
    ensures
        forall|i: int|
            0 <= i < s.filter(pred).len() ==> exists|m: int| 0 <= m < s.len() && s[m] == #[trigger] s.filter(pred)[i],
    decreases s.len(),
{
    reveal_with_fuel(Seq::filter, 1);
    if s.len() > 0 {
        let init = s.drop_last();
        lemma_filter_from(init, pred);
        assert forall|i: int| 0 <= i < s.filter(pred).len() implies exists|m: int|
            0 <= m < s.len() && s[m] == #[trigger] s.filter(pred)[i] by {
            if i < init.filter(pred).len() {
                let m = choose|m: int| 0 <= m < init.len() && init[m] == #[trigger] init.filter(pred)[i];
                assert(s[m] == init[m]);
            } else {
                assert(s[s.len() - 1] == s.filter(pred)[i]);
            }
        }
    }
}

/// Filtering one element more of a sequence's prefix.
pub proof fn lemma_filter_step<A>(s: Seq<A>, pred: spec_fn(A) -> bool, d: int)
    requires
        0 <= d < s.len(),
    ensures
        s.take(d + 1).filter(pred) == if pred(s[d]) {
            s.take(d).filter(pred).push(s[d])
        } else {
            s.take(d).filter(pred)
        },
{
    reveal_with_fuel(Seq::filter, 1);
    assert(s.take(d + 1).drop_last() =~= s.take(d));
}

} // verus!
