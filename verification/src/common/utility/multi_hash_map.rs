use crate::common::utility::{clone_of, key_type, keys_of};
use std::collections::hash_map::Keys;
use std::collections::{HashMap, HashSet};
use std::hash::Hash;
use vstd::prelude::*;
use vstd::std_specs::hash::group_hash_axioms;
use vstd::std_specs::iter::IteratorSpec;

verus! {

broadcast use group_hash_axioms;

/// The set held for `k` in `m`, or the empty set where `m` holds none.
pub open spec fn set_of<K, V>(m: Map<K, Set<V>>, k: K) -> Set<V> {
    if m.contains_key(k) {
        m[k]
    } else {
        Set::empty()
    }
}

/// The first `i + 1` elements of `s` are its first `i` and the one at `i`, which, where `s`
/// has no duplicates, is not among the first `i`.
pub proof fn lemma_prefix_step<V>(s: Seq<V>, i: int)
    requires
        0 <= i < s.len(),
    ensures
        s.take(i + 1).to_set() == s.take(i).to_set().insert(s[i]),
        s.no_duplicates() ==> !s.take(i).to_set().contains(s[i]),
        s.take(i).to_set().finite(),
{
    assert(s.take(i + 1) =~= s.take(i).push(s[i]));
    s.take(i).lemma_push_to_set_commute(s[i]);
    vstd::seq_lib::seq_to_set_is_finite(s.take(i));
    if s.no_duplicates() && s.take(i).to_set().contains(s[i]) {
        let j = choose|j: int| 0 <= j < s.take(i).len() && s.take(i)[j] == s[i];
        assert(s[j] == s[i]);
    }
}

/// Adding an element that is new to a finite set adds one to its difference with `t`,
/// unless `t` holds the element.
pub proof fn lemma_difference_insert_len<V>(p: Set<V>, t: Set<V>, x: V)
    requires
        p.finite(),
        !p.contains(x),
    ensures
        p.insert(x).difference(t).len() == p.difference(t).len() + (if t.contains(x) { 0int } else { 1 }),
        p.difference(t).finite(),
{
    if t.contains(x) {
        assert(p.insert(x).difference(t) =~= p.difference(t));
    } else {
        assert(p.insert(x).difference(t) =~= p.difference(t).insert(x));
    }
}

/// The first `i + 1` elements of `s` hold `x` where the first `i` do or `x` is at `i`.
pub proof fn lemma_take_next_contains<A>(s: Seq<A>, i: int, x: A)
    requires
        0 <= i < s.len(),
    ensures
        s.take(i + 1).contains(x) <==> (s.take(i).contains(x) || x == s[i]),
{
    if s.take(i + 1).contains(x) && x != s[i] {
        let j = choose|j: int| 0 <= j < s.take(i + 1).len() && #[trigger] s.take(i + 1)[j] == x;
        assert(s.take(i)[j] == x);
    }
    if s.take(i).contains(x) {
        let j = choose|j: int| 0 <= j < s.take(i).len() && #[trigger] s.take(i)[j] == x;
        assert(s.take(i + 1)[j] == x);
    }
    if x == s[i] {
        assert(s.take(i + 1)[i] == x);
    }
}

/// `m` with `v` added to the set of `k`.
pub open spec fn with_value<K, V>(m: Map<K, Set<V>>, k: K, v: V) -> Map<K, Set<V>> {
    m.insert(k, set_of(m, k).insert(v))
}

/// `m` with `v` taken from the set of `k`, and `k` dropped where its set becomes empty.
pub open spec fn without_value<K, V>(m: Map<K, Set<V>>, k: K, v: V) -> Map<K, Set<V>> {
    if !set_of(m, k).contains(v) {
        m
    } else if m[k].remove(v).is_empty() {
        m.remove(k)
    } else {
        m.insert(k, m[k].remove(v))
    }
}

/// For each key of `a`, its values that `b` does not hold for it, where there are any.
pub open spec fn difference_of<K, V>(a: Map<K, Set<V>>, b: Map<K, Set<V>>) -> Map<K, Set<V>> {
    Map::new(
        |k: K| a.contains_key(k) && !a[k].difference(set_of(b, k)).is_empty(),
        |k: K| a[k].difference(set_of(b, k)),
    )
}

/// For each key of both `a` and `b`, the values both hold for it, where there are any.
pub open spec fn intersection_of<K, V>(a: Map<K, Set<V>>, b: Map<K, Set<V>>) -> Map<K, Set<V>> {
    Map::new(
        |k: K| a.contains_key(k) && b.contains_key(k) && !a[k].intersect(b[k]).is_empty(),
        |k: K| a[k].intersect(b[k]),
    )
}

/// Removing a value just added to a key undoes the addition, where the key held no empty set.
pub proof fn lemma_remove_undoes_insert<K, V>(m: Map<K, Set<V>>, k: K, v: V)
    requires
        !set_of(m, k).contains(v),
        m.contains_key(k) ==> !m[k].is_empty(),
    ensures
        without_value(with_value(m, k, v), k, v) == m,
{
    let w = with_value(m, k, v);
    assert(w[k].remove(v) =~= set_of(m, k));
    if m.contains_key(k) {
        assert(w.insert(k, w[k].remove(v)) =~= m);
    } else {
        assert(w.remove(k) =~= m);
    }
}

/// The difference and the intersection of two multisets split the values of each key of
/// the first between them.
pub proof fn lemma_difference_intersection_split<K, V>(a: Map<K, Set<V>>, b: Map<K, Set<V>>, k: K)
    requires
        a.contains_key(k),
    ensures
        set_of(difference_of(a, b), k).union(set_of(intersection_of(a, b), k)) == a[k],
        set_of(difference_of(a, b), k).disjoint(set_of(intersection_of(a, b), k)),
{
    let d = set_of(difference_of(a, b), k);
    let i = set_of(intersection_of(a, b), k);
    assert(d =~= a[k].difference(set_of(b, k)));
    assert(i =~= a[k].intersect(set_of(b, k)));
    assert(d.union(i) =~= a[k]);
}

/// A map from keys to sets of values.
#[derive(Clone)]
pub struct MultiSet<K: Hash, V: Hash>(HashMap<K, HashSet<V>>);

impl<K: Hash, V: Hash> View for MultiSet<K, V> {
    type V = Map<K, Set<V>>;

    open spec fn view(&self) -> Map<K, Set<V>> {
        self.sets()
    }
}

impl<K: Hash, V: Hash> Default for MultiSet<K, V> {
    fn default() -> (r: Self)
        ensures
            r@ == Map::<K, Set<V>>::empty(),
    {
        let r = MultiSet(HashMap::new());
        assert(r@ =~= Map::<K, Set<V>>::empty());
        r
    }
}

impl<K: Hash, V: Hash> MultiSet<K, V> {
    /// Each key with the set of its values.
    pub closed spec fn sets(&self) -> Map<K, Set<V>> {
        self.0@.map_values(|s: HashSet<V>| s@)
    }
}

impl<K: Hash + Eq + Clone, V: Hash + Eq + Clone> MultiSet<K, V> {
    /// Keys and values behave as the keys of a hash table.
    pub open spec fn usable() -> bool {
        key_type::<K>() && key_type::<V>()
    }

    pub fn from(inner: HashMap<K, HashSet<V>>) -> (r: Self)
        ensures
            r@ == inner@.map_values(|s: HashSet<V>| s@),
    {
        MultiSet(inner)
    }

    /// Adds `value` to the set of `key`; returns whether it was not there yet.
    pub fn insert(&mut self, key: &K, value: V) -> (r: bool)
        requires
            Self::usable(),
        ensures
            r == !set_of(old(self)@, *key).contains(value),
            final(self)@ == with_value(old(self)@, *key, value),
    {
        if !self.0.contains_key(key) {
            self.0.insert(clone_of(key), HashSet::with_capacity(1));
        }
        let ghost mid = self.0@;
        let mut set = self.0.remove(key).unwrap();
        let r = set.insert(value);
        self.0.insert(clone_of(key), set);
        proof {
            assert(self@ =~= old(self)@.insert(*key, set_of(old(self)@, *key).insert(value)));
        }
        r
    }

    /// Adds every value of `values` to the set of `key`; returns how many were not there yet.
    /// Nothing is added, not even the key, where `values` is empty.
    pub fn insert_all(&mut self, key: &K, values: HashSet<V>) -> (r: usize)
        requires
            Self::usable(),
        ensures
            values@.is_empty() ==> final(self)@ == old(self)@,
            !values@.is_empty() ==> final(self)@ == old(self)@.insert(*key, set_of(old(self)@, *key).union(values@)),
            r == values@.difference(set_of(old(self)@, *key)).len(),
    {
        if values.is_empty() {
            proof {
                assert(values@.difference(set_of(old(self)@, *key)) =~= Set::<V>::empty());
            }
            return 0;
        }
        match self.0.remove(key) {
            Some(set) => {
                let mut set = set;
                let ghost s0 = set@;
                let mut count: usize = 0;
                let ghost mut done: Set<V> = Set::empty();
                let n = values.len();
                proof {
                    assert(set@ =~= s0.union(done));
                    assert(done.difference(s0) =~= Set::<V>::empty());
                    assert(n == values@.len());
                }
                for v in it: values.iter()
                    invariant
                        Self::usable(),
                        it.seq().unref().to_set() == values@,
                        it.seq().unref().no_duplicates(),
                        it.seq().len() == values@.len(),
                        done == it.seq().unref().take(it.index()).to_set(),
                        it.index() == it.seq().len() ==> done == values@,
                        set@ == s0.union(done),
                        count == done.difference(s0).len(),
                        count <= it.index(),
                        values@.len() <= usize::MAX,
                {
                    let ghost i = it.index();
                    let ghost q = it.seq().unref();
                    proof {
                        lemma_prefix_step(q, i);
                    }
                    if set.insert(clone_of(v)) {
                        proof {
                            lemma_difference_insert_len(q.take(i).to_set(), s0, q[i]);
                        }
                        count = count + 1;
                    } else {
                        proof {
                            lemma_difference_insert_len(q.take(i).to_set(), s0, q[i]);
                        }
                    }
                    proof {
                        done = done.insert(*v);
                    }
                    proof {
                        assert(set@ =~= s0.union(done));
                        assert(i + 1 == q.len() ==> q.take(i + 1) =~= q);
                    }
                }
                self.0.insert(clone_of(key), set);
                proof {
                    assert(self@ =~= old(self)@.insert(*key, set_of(old(self)@, *key).union(values@)));
                }
                count
            },
            None => {
                let count = values.len();
                proof {
                    assert(values@.difference(set_of(old(self)@, *key)) =~= values@);
                    assert(values@ =~= set_of(old(self)@, *key).union(values@));
                }
                self.0.insert(clone_of(key), values);
                proof {
                    assert(self@ =~= old(self)@.insert(*key, set_of(old(self)@, *key).union(values@)));
                }
                count
            },
        }
    }

    /// Removes `key` with its set, which is returned.
    pub fn remove_key(&mut self, key: &K) -> (r: Option<HashSet<V>>)
        requires
            Self::usable(),
        ensures
            final(self)@ == old(self)@.remove(*key),
            r is Some <==> old(self)@.contains_key(*key),
            r matches Some(s) ==> s@ == old(self)@[*key],
    {
        let r = self.0.remove(key);
        proof {
            assert(self@ =~= old(self)@.remove(*key));
        }
        r
    }

    /// Removes `value` from the set of `key`, dropping the key where its set becomes empty;
    /// returns whether the value was there.
    pub fn remove(&mut self, key: &K, value: &V) -> (r: bool)
        requires
            Self::usable(),
        ensures
            r == set_of(old(self)@, *key).contains(*value),
            final(self)@ == without_value(old(self)@, *key, *value),
    {
        let (success, is_empty) = match self.0.remove(key) {
            Some(set) => {
                let mut set = set;
                let success = set.remove(value);
                let is_empty = set.is_empty();
                self.0.insert(clone_of(key), set);
                (success, is_empty)
            },
            None => (false, false),
        };
        if success && is_empty {
            self.0.remove(key);
        }
        proof {
            if !success {
                if old(self)@.contains_key(*key) {
                    assert(old(self)@[*key].remove(*value) =~= old(self)@[*key]);
                }
                assert(self@ =~= old(self)@);
            } else if is_empty {
                assert(self@ =~= old(self)@.remove(*key));
            } else {
                assert(self@ =~= old(self)@.insert(*key, old(self)@[*key].remove(*value)));
            }
        }
        success
    }

    /// The keys, each once, in no particular order.
    pub fn keys<'a>(&'a self) -> (r: Keys<'a, K, HashSet<V>>)
        requires
            Self::usable(),
        ensures
            r.remaining().unref().to_set() == self@.dom(),
            r.remaining().no_duplicates(),
    {
        self.0.keys()
    }

    pub fn into_inner(self) -> (r: HashMap<K, HashSet<V>>)
        ensures
            r@.map_values(|s: HashSet<V>| s@) == self@,
    {
        self.0
    }
    /// Adds `value` to the set of each of `keys`.
    pub fn append_keys(&mut self, keys: Vec<K>, value: &V)
        requires
            Self::usable(),
        ensures
            final(self)@ == Map::new(
                |k: K| old(self)@.contains_key(k) || keys@.contains(k),
                |k: K|
                    if keys@.contains(k) {
                        set_of(old(self)@, k).insert(*value)
                    } else {
                        old(self)@[k]
                    },
            ),
    {
        let ghost o = self@;
        for i in 0..keys.len()
            invariant
                Self::usable(),
                self@ == Map::new(
                    |k: K| o.contains_key(k) || keys@.take(i as int).contains(k),
                    |k: K|
                        if keys@.take(i as int).contains(k) {
                            set_of(o, k).insert(*value)
                        } else {
                            o[k]
                        },
                ),
        {
            let ghost before = self@;
            self.insert(&keys[i], clone_of(value));
            proof {
                assert(keys@.take(i + 1) =~= keys@.take(i as int).push(keys@[i as int]));
                assert forall|k: K| #[trigger] self@.contains_key(k) <==> (o.contains_key(k) || keys@.take(i + 1).contains(k)) by {
                    lemma_take_next_contains(keys@, i as int, k);
                }
                assert forall|k: K| #[trigger] self@.contains_key(k) implies self@[k] == (if keys@.take(i + 1).contains(k) {
                    set_of(o, k).insert(*value)
                } else {
                    o[k]
                }) by {
                    lemma_take_next_contains(keys@, i as int, k);
                    if k == keys@[i as int] && keys@.take(i as int).contains(k) {
                        assert(set_of(o, k).insert(*value).insert(*value) =~= set_of(o, k).insert(*value));
                    }
                }
                assert(self@ =~= Map::new(
                    |k: K| o.contains_key(k) || keys@.take(i + 1).contains(k),
                    |k: K|
                        if keys@.take(i + 1).contains(k) {
                            set_of(o, k).insert(*value)
                        } else {
                            o[k]
                        },
                ));
            }
        }
        proof {
            assert(keys@.take(keys@.len() as int) =~= keys@);
        }
    }

    /// The keys of the map, each once.
    pub(crate) fn key_list(&self) -> (r: Vec<K>)
        requires
            Self::usable(),
        ensures
            r@.to_set() == self@.dom(),
            r@.no_duplicates(),
    {
        keys_of(&self.0)
    }

    /// Removes `value` from the set of every key; returns the keys whose set held it.
    /// Keys whose set becomes empty stay, with the empty set.
    #[verifier::spinoff_prover]
    pub fn remove_value(&mut self, value: &V) -> (r: HashSet<K>)
        requires
            Self::usable(),
        ensures
            r@ == Set::new(|k: K| old(self)@.contains_key(k) && old(self)@[k].contains(*value)),
            final(self)@ == old(self)@.map_values(|s: Set<V>| s.remove(*value)),
    {
        let ghost o = self@;
        let mut found_in: HashSet<K> = HashSet::with_capacity(self.0.len());
        let keys = self.key_list();
        for i in 0..keys.len()
            invariant
                Self::usable(),
                keys@.to_set() == o.dom(),
                keys@.no_duplicates(),
                self@ == Map::new(
                    |k: K| o.contains_key(k),
                    |k: K|
                        if keys@.take(i as int).contains(k) {
                            o[k].remove(*value)
                        } else {
                            o[k]
                        },
                ),
                found_in@ == Set::new(|k: K| keys@.take(i as int).contains(k) && o[k].contains(*value)),
        {
            let key = &keys[i];
            proof {
                assert(keys@.contains(keys@[i as int]));
                assert(keys@.to_set().contains(*key));
                assert(o.dom().contains(*key));
                assert(self@.contains_key(*key));
                assert(self.0@.contains_key(*key));
            }
            let ghost before = self@;
            let ghost found_before = found_in@;
            let mut set = self.0.remove(key).unwrap();
            let ghost sv = set@;
            let had = set.remove(value);
            if had {
                found_in.insert(clone_of(key));
            }
            self.0.insert(clone_of(key), set);
            proof {
                assert(sv == before[*key]);
                assert(had == sv.contains(*value));
                assert(self@ =~= before.insert(*key, sv.remove(*value)));
                assert(found_in@ =~= if had { found_before.insert(*key) } else { found_before });
                assert forall|k: K| #[trigger] keys@.take(i + 1).contains(k) <==> (keys@.take(i as int).contains(k) || k == keys@[i as int]) by {
                    lemma_take_next_contains(keys@, i as int, k);
                }
                assert(!keys@.take(i as int).contains(*key)) by {
                    if keys@.take(i as int).contains(*key) {
                        let j = choose|j: int| 0 <= j < i && #[trigger] keys@.take(i as int)[j] == *key;
                        assert(keys@[j] == keys@[i as int]);
                    }
                }
                assert forall|k: K| #[trigger] self@.contains_key(k) implies self@[k] == (if keys@.take(i + 1).contains(k) {
                    o[k].remove(*value)
                } else {
                    o[k]
                }) by {
                    lemma_take_next_contains(keys@, i as int, k);
                }
                assert(self@ =~= Map::new(
                    |k: K| o.contains_key(k),
                    |k: K|
                        if keys@.take(i + 1).contains(k) {
                            o[k].remove(*value)
                        } else {
                            o[k]
                        },
                ));
                assert(found_in@ =~= Set::new(|k: K| keys@.take(i + 1).contains(k) && o[k].contains(*value)));
            }
        }
        proof {
            assert(keys@.take(keys@.len() as int) =~= keys@);
            assert forall|k: K| #[trigger] keys@.contains(k) <==> o.contains_key(k) by {
                assert(keys@.to_set().contains(k) <==> keys@.contains(k));
            }
            assert(self@ =~= o.map_values(|s: Set<V>| s.remove(*value)));
            assert(found_in@ =~= Set::new(|k: K| o.contains_key(k) && o[k].contains(*value)));
        }
        found_in
    }

    /// The values of `set` that `other` does not hold; all of them where there is no `other`.
    fn set_minus(set: &HashSet<V>, other: Option<&HashSet<V>>) -> (r: HashSet<V>)
        requires
            Self::usable(),
        ensures
            r@ == match other {
                Some(o) => set@.difference(o@),
                None => set@,
            },
    {
        let mut r: HashSet<V> = HashSet::new();
        let ghost excluded = match other {
            Some(o) => o@,
            None => Set::<V>::empty(),
        };
        for v in it: set.iter()
            invariant
                Self::usable(),
                it.seq().unref().to_set() == set@,
                excluded == match other {
                    Some(o) => o@,
                    None => Set::<V>::empty(),
                },
                r@ == it.seq().unref().take(it.index()).to_set().difference(excluded),
                it.index() == it.seq().len() ==> r@ == set@.difference(excluded),
        {
            let ghost i = it.index();
            let ghost q = it.seq().unref();
            proof {
                lemma_prefix_step(q, i);
            }
            let keep = match other {
                Some(o) => !o.contains(v),
                None => true,
            };
            if keep {
                r.insert(clone_of(v));
            }
            proof {
                assert(r@ =~= q.take(i + 1).to_set().difference(excluded));
                assert(i + 1 == q.len() ==> q.take(i + 1) =~= q);
            }
        }
        proof {
            assert(set@.difference(Set::<V>::empty()) =~= set@);
        }
        r
    }
    /// The values of `set` that `other` holds too.
    fn set_common(set: &HashSet<V>, other: &HashSet<V>) -> (r: HashSet<V>)
        requires
            Self::usable(),
        ensures
            r@ == set@.intersect(other@),
    {
        let mut r: HashSet<V> = HashSet::new();
        for v in it: set.iter()
            invariant
                Self::usable(),
                it.seq().unref().to_set() == set@,
                r@ == it.seq().unref().take(it.index()).to_set().intersect(other@),
                it.index() == it.seq().len() ==> r@ == set@.intersect(other@),
        {
            let ghost i = it.index();
            let ghost q = it.seq().unref();
            proof {
                lemma_prefix_step(q, i);
            }
            if other.contains(v) {
                r.insert(clone_of(v));
            }
            proof {
                assert(r@ =~= q.take(i + 1).to_set().intersect(other@));
                assert(i + 1 == q.len() ==> q.take(i + 1) =~= q);
            }
        }
        r
    }

    /// For each key, the values that `other` does not hold for it; keys left with none are left out.
    #[verifier::spinoff_prover]
    pub fn difference(&self, other: &Self) -> (r: Self)
        requires
            Self::usable(),
        ensures
            r@ == difference_of(self@, other@),
    {
        let mut diff = Self::default();
        let keys = self.key_list();
        for i in 0..keys.len()
            invariant
                Self::usable(),
                keys@.to_set() == self@.dom(),
                keys@.no_duplicates(),
                diff@ == Map::new(
                    |k: K| keys@.take(i as int).contains(k) && !self@[k].difference(set_of(other@, k)).is_empty(),
                    |k: K| self@[k].difference(set_of(other@, k)),
                ),
        {
            let key = &keys[i];
            proof {
                assert(keys@.contains(keys@[i as int]));
                assert(keys@.to_set().contains(*key));
                assert(self.0@.contains_key(*key));
            }
            let set = self.0.get(key).unwrap();
            let other_set = other.0.get(key);
            let part = Self::set_minus(set, other_set);
            let ghost before = diff@;
            proof {
                assert(part@ == self@[*key].difference(set_of(other@, *key))) by {
                    if other_set is None {
                        assert(self@[*key].difference(Set::<V>::empty()) =~= self@[*key]);
                    }
                }
                assert(!keys@.take(i as int).contains(*key)) by {
                    if keys@.take(i as int).contains(*key) {
                        let j = choose|j: int| 0 <= j < i && #[trigger] keys@.take(i as int)[j] == *key;
                        assert(keys@[j] == keys@[i as int]);
                    }
                }
                assert(set_of(before, *key) =~= Set::<V>::empty());
                assert(Set::<V>::empty().union(part@) =~= part@);
            }
            diff.insert_all(key, part);
            proof {
                assert forall|k: K| #[trigger] diff@.contains_key(k) <==> (keys@.take(i + 1).contains(k) && !self@[k].difference(set_of(other@, k)).is_empty()) by {
                    lemma_take_next_contains(keys@, i as int, k);
                }
                assert(diff@ =~= Map::new(
                    |k: K| keys@.take(i + 1).contains(k) && !self@[k].difference(set_of(other@, k)).is_empty(),
                    |k: K| self@[k].difference(set_of(other@, k)),
                ));
            }
        }
        proof {
            assert(keys@.take(keys@.len() as int) =~= keys@);
            assert forall|k: K| #[trigger] keys@.contains(k) <==> self@.contains_key(k) by {
                assert(keys@.to_set().contains(k) <==> keys@.contains(k));
            }
            assert(diff@ =~= Map::new(
                |k: K| self@.contains_key(k) && !self@[k].difference(set_of(other@, k)).is_empty(),
                |k: K| self@[k].difference(set_of(other@, k)),
            ));
        }
        diff
    }

    /// For each key of both, the values that both hold for it; keys left with none are left out.
    #[verifier::spinoff_prover]
    pub fn intersection(&self, other: &Self) -> (r: Self)
        requires
            Self::usable(),
        ensures
            r@ == intersection_of(self@, other@),
    {
        let mut diff = Self::default();
        let keys = self.key_list();
        for i in 0..keys.len()
            invariant
                Self::usable(),
                keys@.to_set() == self@.dom(),
                keys@.no_duplicates(),
                diff@ == Map::new(
                    |k: K| keys@.take(i as int).contains(k) && other@.contains_key(k) && !self@[k].intersect(other@[k]).is_empty(),
                    |k: K| self@[k].intersect(other@[k]),
                ),
        {
            let key = &keys[i];
            proof {
                assert(keys@.contains(keys@[i as int]));
                assert(keys@.to_set().contains(*key));
                assert(self.0@.contains_key(*key));
                assert(!keys@.take(i as int).contains(*key)) by {
                    if keys@.take(i as int).contains(*key) {
                        let j = choose|j: int| 0 <= j < i && #[trigger] keys@.take(i as int)[j] == *key;
                        assert(keys@[j] == keys@[i as int]);
                    }
                }
            }
            let set = self.0.get(key).unwrap();
            // If our key is not in other, then the entire subset is not intersected.
            if let Some(other_set) = other.0.get(key) {
                // If a key is in both, then only the intersection of items is relevant.
                let part = Self::set_common(set, other_set);
                proof {
                    assert(set_of(diff@, *key) =~= Set::<V>::empty());
                    assert(Set::<V>::empty().union(part@) =~= part@);
                }
                diff.insert_all(key, part);
            }
            proof {
                assert forall|k: K| #[trigger] diff@.contains_key(k) <==> (keys@.take(i + 1).contains(k) && other@.contains_key(k) && !self@[k].intersect(other@[k]).is_empty()) by {
                    lemma_take_next_contains(keys@, i as int, k);
                }
                assert(diff@ =~= Map::new(
                    |k: K| keys@.take(i + 1).contains(k) && other@.contains_key(k) && !self@[k].intersect(other@[k]).is_empty(),
                    |k: K| self@[k].intersect(other@[k]),
                ));
            }
        }
        proof {
            assert(keys@.take(keys@.len() as int) =~= keys@);
            assert forall|k: K| #[trigger] keys@.contains(k) <==> self@.contains_key(k) by {
                assert(keys@.to_set().contains(k) <==> keys@.contains(k));
            }
            assert(diff@ =~= Map::new(
                |k: K| self@.contains_key(k) && other@.contains_key(k) && !self@[k].intersect(other@[k]).is_empty(),
                |k: K| self@[k].intersect(other@[k]),
            ));
        }
        diff
    }
}

} // verus!
