use super::direction::Direction;
use super::ordered_hash_map::OrderedHashMap;
use super::range_set::{canonical, covered, RangeSet};
use super::section::Section;
use super::{Operation, TargetPosition};
use crate::common::utility::{clone_of, key_type};
use std::collections::HashMap;
use std::hash::Hash;
use std::ops::Range;
use vstd::prelude::*;
use vstd::std_specs::hash::group_hash_axioms;

verus! {

broadcast use group_hash_axioms;

/// Swaps two elements of a vector.
/// Calls `<[T]>::swap`, which exchanges the elements at the two indices and panics
/// where either index is out of bounds (ruled out here by `requires`).
#[verifier::external_body]
fn vec_swap<T>(v: &mut Vec<T>, a: usize, b: usize)
    requires
        a < old(v).len(),
        b < old(v).len(),
    ensures
        final(v)@ == old(v)@.update(a as int, old(v)@[b as int]).update(b as int, old(v)@[a as int]),
{
    v.swap(a, b);
}

/// The sections tile `[0, covered)`: each starts where the previous one ends,
/// the first at 0 and the last at `covered`.
pub open spec fn partitioned<S>(secs: Seq<(S, Section)>, covered: int) -> bool {
    &&& secs.len() == 0 ==> covered == 0
    &&& secs.len() > 0 ==> secs[0].1.spec_start() == 0 && secs.last().1.spec_end() == covered
    &&& forall|i: int| 0 <= i < secs.len() ==> #[trigger] secs[i].1.spec_start() <= secs[i].1.spec_end()
    &&& forall|i: int| 0 < i < secs.len() ==> #[trigger] secs[i].1.spec_start() == secs[i - 1].1.spec_end()
}

/// Sections that tile a range are ordered, lie inside it and do not overlap.
pub proof fn lemma_partitioned_order<S>(secs: Seq<(S, Section)>, covered: int)
    requires
        partitioned(secs, covered),
    ensures
        forall|i: int, j: int| 0 <= i < j < secs.len() ==> #[trigger] secs[i].1.spec_end() <= #[trigger] secs[j].1.spec_start(),
        forall|i: int| 0 <= i < secs.len() ==> #[trigger] secs[i].1.spec_end() <= covered,
    decreases secs.len(),
{
    if secs.len() > 0 {
        let init = secs.drop_last();
        let c2 = secs.last().1.spec_start() as int;
        assert(partitioned(init, c2)) by {
            assert forall|i: int| 0 < i < init.len() implies #[trigger] init[i].1.spec_start() == init[i - 1].1.spec_end() by {
                assert(init[i] == secs[i] && init[i - 1] == secs[i - 1]);
            }
            assert forall|i: int| 0 <= i < init.len() implies #[trigger] init[i].1.spec_start() <= init[i].1.spec_end() by {
                assert(init[i] == secs[i]);
            }
            if init.len() > 0 {
                assert(init.last() == secs[secs.len() - 2]);
                assert(secs[secs.len() - 1].1.spec_start() == secs[secs.len() - 2].1.spec_end());
            }
        }
        lemma_partitioned_order(init, c2);
        assert forall|i: int, j: int| 0 <= i < j < secs.len() implies #[trigger] secs[i].1.spec_end()
            <= #[trigger] secs[j].1.spec_start() by {
            assert(init[i] == secs[i]);
            if j < secs.len() - 1 {
                assert(init[j] == secs[j]);
            }
        }
        assert forall|i: int| 0 <= i < secs.len() implies #[trigger] secs[i].1.spec_end() <= covered by {
            if i < secs.len() - 1 {
                assert(init[i] == secs[i]);
            }
        }
    }
}

/// Every position below `covered` lies in some section of a tiling.
pub proof fn lemma_partitioned_covers<S>(secs: Seq<(S, Section)>, covered: int, p: int)
    requires
        partitioned(secs, covered),
        0 <= p < covered,
    ensures
        exists|i: int| 0 <= i < secs.len() && #[trigger] secs[i].1.holds(p),
    decreases secs.len(),
{
    let l = secs.len() - 1;
    if secs[l].1.spec_start() <= p {
        assert(secs[l].1.holds(p));
    } else {
        let init = secs.drop_last();
        let c2 = secs[l].1.spec_start() as int;
        assert(partitioned(init, c2)) by {
            assert forall|i: int| 0 < i < init.len() implies #[trigger] init[i].1.spec_start() == init[i - 1].1.spec_end() by {
                assert(init[i] == secs[i] && init[i - 1] == secs[i - 1]);
            }
            assert forall|i: int| 0 <= i < init.len() implies #[trigger] init[i].1.spec_start() <= init[i].1.spec_end() by {
                assert(init[i] == secs[i]);
            }
            if init.len() > 0 {
                assert(init.last() == secs[secs.len() - 2]);
                assert(secs[secs.len() - 1].1.spec_start() == secs[secs.len() - 2].1.spec_end());
            } else {
                assert(secs[0].1.spec_start() == 0);
            }
        }
        lemma_partitioned_covers(init, c2, p);
        let i = choose|i: int| 0 <= i < init.len() && #[trigger] init[i].1.holds(p);
        assert(secs[i] == init[i]);
    }
}

/// The sections before the last one tile the range up to where the last one starts.
pub proof fn lemma_partitioned_init<S>(secs: Seq<(S, Section)>, covered: int)
    requires
        partitioned(secs, covered),
        secs.len() > 0,
    ensures
        partitioned(secs.drop_last(), secs.last().1.spec_start() as int),
{
    let init = secs.drop_last();
    assert forall|i: int| 0 < i < init.len() implies #[trigger] init[i].1.spec_start() == init[i - 1].1.spec_end() by {
        assert(init[i] == secs[i] && init[i - 1] == secs[i - 1]);
    }
    assert forall|i: int| 0 <= i < init.len() implies #[trigger] init[i].1.spec_start() <= init[i].1.spec_end() by {
        assert(init[i] == secs[i]);
    }
    if init.len() > 0 {
        assert(init.last() == secs[secs.len() - 2]);
        assert(secs[secs.len() - 1].1.spec_start() == secs[secs.len() - 2].1.spec_end());
    } else {
        assert(secs[0].1.spec_start() == 0);
    }
}

/// Leaving out the empty sections of a tiling leaves a tiling of the same range.
pub proof fn lemma_partitioned_filter<S>(secs: Seq<(S, Section)>, covered: int)
    requires
        partitioned(secs, covered),
    ensures
        partitioned(secs.filter(|e: (S, Section)| e.1.spec_start() != e.1.spec_end()), covered),
    decreases secs.len(),
{
    let pred = |e: (S, Section)| e.1.spec_start() != e.1.spec_end();
    if secs.len() == 0 {
        reveal(Seq::filter);
    } else {
        let init = secs.drop_last();
        let x = secs.last();
        lemma_partitioned_init(secs, covered);
        lemma_partitioned_filter(init, x.1.spec_start() as int);
        assert(init.push(x) =~= secs);
        init.lemma_filter_push(x, pred);
        let fi = init.filter(pred);
        if pred(x) {
            let f = fi.push(x);
            assert forall|i: int| 0 < i < f.len() implies #[trigger] f[i].1.spec_start() == f[i - 1].1.spec_end() by {
                if i < f.len() - 1 {
                    assert(f[i] == fi[i] && f[i - 1] == fi[i - 1]);
                } else {
                    assert(f[i - 1] == fi.last());
                }
            }
            assert forall|i: int| 0 <= i < f.len() implies #[trigger] f[i].1.spec_start() <= f[i].1.spec_end() by {
                if i < f.len() - 1 {
                    assert(f[i] == fi[i]);
                }
            }
            if fi.len() > 0 {
                assert(f[0] == fi[0]);
            }
        }
    }
}

/// The number of positions the sections span, all together.
pub open spec fn sections_total<S>(secs: Seq<(S, Section)>) -> int
    decreases secs.len(),
{
    if secs.len() == 0 {
        0
    } else {
        sections_total(secs.drop_last()) + secs.last().1.spec_count()
    }
}

/// Sections that tile a range span, all together, as many positions as the range holds.
pub proof fn lemma_partitioned_total<S>(secs: Seq<(S, Section)>, covered: int)
    requires
        partitioned(secs, covered),
    ensures
        sections_total(secs) == covered,
    decreases secs.len(),
{
    if secs.len() > 0 {
        lemma_partitioned_init(secs, covered);
        lemma_partitioned_total(secs.drop_last(), secs.last().1.spec_start() as int);
    }
}

/// Whether a section holds any position.
fn in_use(section: &Section) -> (r: bool)
    ensures
        r == (section.spec_start() != section.spec_end()),
{
    !section.is_empty()
}

/// What `transfer` needs: the slot `pv` that moves, and the sections it moves between.
pub open spec fn transfer_ok<S>(secs: Seq<(S, Section)>, direction: Direction, prev: Option<usize>, next: Option<usize>, pv: int, len: int) -> bool {
    &&& direction == Direction::Right ==> prev is Some && ({
        let i = opt_idx(prev);
        &&& i < secs.len()
        &&& pv == secs[i].1.spec_end() - 1
        &&& secs[i].1.spec_start() <= pv
        &&& opt_idx(next) == (if i + 1 < secs.len() { i + 1 } else { -1 })
    })
    &&& direction == Direction::Left ==> next is Some && ({
        let j = opt_idx(next);
        &&& 0 <= j < secs.len()
        &&& prev is Some ==> opt_idx(prev) == j + 1 && j + 1 < secs.len() && pv == secs[j + 1].1.spec_start() && pv
            < secs[j + 1].1.spec_end()
        &&& prev is None ==> j == secs.len() - 1 && pv == len - 1
    })
}

/// The index an optional section index stands for: the index, or -1 for none.
pub open spec fn opt_idx(x: Option<usize>) -> int {
    match x {
        Some(i) => i as int,
        None => -1,
    }
}

/// The bounds of the section at `k` once the boundary slot has moved from section `pi` to section `ni`.
pub open spec fn transfer_bounds<S>(secs: Seq<(S, Section)>, direction: Direction, pi: int, ni: int, k: int) -> (int, int) {
    let s = secs[k].1.spec_start() as int;
    let e = secs[k].1.spec_end() as int;
    match direction {
        Direction::Right => if k == pi {
            (s, e - 1)
        } else if k == ni {
            (s - 1, e)
        } else {
            (s, e)
        },
        Direction::Left => if k == pi {
            (s + 1, e)
        } else if k == ni {
            (s, e + 1)
        } else {
            (s, e)
        },
    }
}

/// Moving the boundary slot keeps the sections tiling the buffer, up to the end of the buffer
/// where the slot leaves or joins the sections, and leaves every other slot in its section.
pub proof fn lemma_transfer<S>(o: Seq<(S, Section)>, n: Seq<(S, Section)>, direction: Direction, prev: Option<usize>, next: Option<usize>, pv: int, len: int)
    requires
        partitioned(o, if prev is None { len - 1 } else { len }),
        0 <= pv < len,
        transfer_ok(o, direction, prev, next, pv, len),
        n.len() == o.len(),
        forall|k: int| 0 <= k < n.len() ==> #[trigger] n[k].0 == o[k].0
            && n[k].1.spec_start() == transfer_bounds(o, direction, opt_idx(prev), opt_idx(next), k).0
            && n[k].1.spec_end() == transfer_bounds(o, direction, opt_idx(prev), opt_idx(next), k).1,
    ensures
        partitioned(n, if next is None { len - 1 } else { len }),
        forall|k: int, p: int| 0 <= k < n.len() && p != pv ==> (#[trigger] n[k].1.holds(p) <==> #[trigger] o[k].1.holds(p)),
        next matches Some(j) ==> n[j as int].1.holds(pv),
        forall|k: int| 0 <= k < n.len() ==> #[trigger] n[k].1.spec_count() == o[k].1.spec_count()
            - (if k == opt_idx(prev) { 1int } else { 0 }) + (if k == opt_idx(next) { 1int } else { 0 }),
{
    let cov0 = if prev is None { len - 1 } else { len };
    let pi = opt_idx(prev);
    let ni = opt_idx(next);
    lemma_partitioned_order(o, cov0);
    if direction == Direction::Right {
        assert(ni == -1 || ni == pi + 1);
        if ni >= 0 {
            assert(o[ni].1.spec_start() == o[pi].1.spec_end());
        }
    } else {
        assert(pi == -1 || ni == pi - 1);
        if pi >= 0 {
            assert(o[pi].1.spec_start() == o[ni].1.spec_end());
        } else {
            assert(o[ni].1.spec_end() == len - 1);
        }
    }
    assert forall|i: int| 0 < i < n.len() implies #[trigger] n[i].1.spec_start() == n[i - 1].1.spec_end() by {
        assert(o[i].1.spec_start() == o[i - 1].1.spec_end());
        assert(n[i - 1].0 == o[i - 1].0);
        assert(n[i].0 == o[i].0);
    }
    assert forall|i: int| 0 <= i < n.len() implies #[trigger] n[i].1.spec_start() <= n[i].1.spec_end() by {
        assert(o[i].1.spec_start() <= o[i].1.spec_end());
        assert(n[i].0 == o[i].0);
    }
    if n.len() > 0 {
        assert(n[0].0 == o[0].0);
        assert(n[n.len() - 1].0 == o[n.len() - 1].0);
    }
    assert forall|k: int, p: int| 0 <= k < n.len() && p != pv implies (#[trigger] n[k].1.holds(p) <==> #[trigger] o[k].1.holds(p)) by {
        assert(n[k].0 == o[k].0);
    }
    if next is Some {
        assert(n[ni].0 == o[ni].0);
    }
    assert forall|k: int| 0 <= k < n.len() implies #[trigger] n[k].1.spec_count() == o[k].1.spec_count()
        - (if k == pi { 1int } else { 0 }) + (if k == ni { 1int } else { 0 }) by {
        assert(n[k].0 == o[k].0);
    }
}

/// The slot of section `k` from which a value travelling in `direction` crosses on: the last
/// slot going right, the first slot going left, and `last` (the end of the buffer) for the
/// place past the last section.
pub open spec fn boundary_slot<S>(secs: Seq<(S, Section)>, direction: Direction, k: int, last: int) -> int {
    if direction == Direction::Right {
        secs[k].1.spec_end() - 1
    } else if k < secs.len() {
        secs[k].1.spec_start() as int
    } else {
        last
    }
}

/// The slots a value visits travelling from section `a` to section `b` (where the number of
/// sections stands for no section): the slot `p0` it starts at, then the boundary slot of each
/// section it crosses on from, in order; the value is swapped from each slot to the next.
pub open spec fn travel_slots<S>(secs: Seq<(S, Section)>, a: int, b: int, p0: int, last: int) -> Seq<int> {
    Seq::new(
        ((if a <= b { b - a } else { a - b }) + 1) as nat,
        |t: int|
            if t == 0 {
                p0
            } else if a <= b {
                boundary_slot(secs, Direction::Right, a + t - 1, last)
            } else {
                boundary_slot(secs, Direction::Left, a - t + 1, last)
            },
    )
}

/// `s` with the elements at the first two slots of `slots` swapped, then those at the second
/// and third, and so on along the slots.
pub open spec fn swap_along<T>(s: Seq<T>, slots: Seq<int>) -> Seq<T>
    decreases slots.len(),
{
    if slots.len() <= 1 {
        s
    } else {
        let r = swap_along(s, slots.drop_last());
        let x = slots[slots.len() - 2];
        let y = slots[slots.len() - 1];
        r.update(x, r[y]).update(y, r[x])
    }
}

/// A linear vec, sorted into subsections by key association.
/// Operates similar to a MultiMap, except the values are kept in a single vec.
/// Operations are optimized for minimal changes to the underlying vec (which is especially useful for copying to GPU for graphics buffers).
/// Unused/unfilled entries are kept at the end of the vec.
///
/// S: Type of the section identifier
/// K: Type of the value identifier (for reference in operations to refer to the value)
/// V: Type of the actual values
#[derive(Clone, Debug, PartialEq, Eq)]
pub struct VecSectioned<S: Eq + Hash + Clone, K: Eq + Hash, V> {
    sections: OrderedHashMap<S, Section>,
    value_key_to_idx: HashMap<K, (Option<S>, usize)>,
    value_idx_to_key: HashMap<usize, K>,
    values: Vec<V>,
    /// Values which have been mutated since the last `take_changed_ranges`.
    changed_ranges: RangeSet,
}

impl<S: Eq + Hash + Clone, K: Eq + Hash + Clone, V> View for VecSectioned<S, K, V> {
    type V = Map<K, (S, V)>;

    /// Each value's key, with the section it is in and the value.
    open spec fn view(&self) -> Map<K, (S, V)> {
        Map::new(
            |k: K| self.key_to_idx().contains_key(k),
            |k: K| (self.key_to_idx()[k].0.unwrap(), self.vals()[self.pos_of(k)]),
        )
    }
}

impl<S: Eq + Hash + Clone, K: Eq + Hash + Clone, V> VecSectioned<S, K, V> {
    pub closed spec fn section_map(&self) -> OrderedHashMap<S, Section> {
        self.sections
    }

    /// The sections in buffer order, each with its identifier.
    pub open spec fn secs(&self) -> Seq<(S, Section)> {
        self.section_map().entries()
    }

    /// The value buffer.
    pub closed spec fn vals(&self) -> Seq<V> {
        self.values@
    }

    /// For each key, the section recorded for its value and the value's position.
    pub closed spec fn key_to_idx(&self) -> Map<K, (Option<S>, usize)> {
        self.value_key_to_idx@
    }

    /// For each position of the buffer, the key of the value there.
    pub closed spec fn idx_to_key(&self) -> Map<usize, K> {
        self.value_idx_to_key@
    }

    /// The positions changed since the last `take_changed_ranges`.
    pub closed spec fn changed(&self) -> RangeSet {
        self.changed_ranges
    }

    pub open spec fn key_at(&self, p: int) -> K {
        self.idx_to_key()[p as usize]
    }

    pub open spec fn pos_of(&self, k: K) -> int {
        self.key_to_idx()[k].1 as int
    }

    /// The section recorded for the value at position `p`.
    pub open spec fn meta_at(&self, p: int) -> Option<S> {
        self.key_to_idx()[self.key_at(p)].0
    }

    /// Positions and keys correspond one to one.
    pub open spec fn bijective(&self) -> bool {
        &&& forall|p: usize| #[trigger] self.idx_to_key().contains_key(p) <==> p < self.vals().len()
        &&& forall|p: int|
            0 <= p < self.vals().len() ==> #[trigger] self.key_to_idx().contains_key(self.key_at(p))
                && self.pos_of(self.key_at(p)) == p
        &&& forall|k: K| #[trigger]
            self.key_to_idx().contains_key(k) ==> 0 <= self.pos_of(k) < self.vals().len() && self.key_at(
                self.pos_of(k),
            ) == k
    }

    /// The section recorded for each value is the section whose range holds its position;
    /// values at or past `covered` are in no section.
    pub open spec fn placed(&self, covered: int) -> bool {
        &&& forall|i: int, p: int|
            #![trigger self.secs()[i], self.meta_at(p)]
            0 <= i < self.secs().len() && self.secs()[i].1.spec_start() <= p < self.secs()[i].1.spec_end()
                ==> self.meta_at(p) == Some(self.secs()[i].0)
        &&& forall|p: int| covered <= p < self.vals().len() ==> #[trigger] self.meta_at(p) == None::<S>
    }

    /// The changed positions are tracked in a well-formed set of positions an `i32` can express.
    pub open spec fn changes_wf(&self) -> bool {
        &&& self.changed().wf()
        &&& canonical(self.changed().spec_ranges())
        &&& forall|i: int| #[trigger] self.changed()@.contains(i) ==> 0 <= i < i32::MAX
    }

    /// The structure holds together with the first `covered` positions tiled by the sections.
    pub open spec fn consistent(&self, covered: int) -> bool {
        &&& key_type::<S>()
        &&& key_type::<K>()
        &&& self.section_map().wf()
        &&& self.vals().len() < i32::MAX
        &&& partitioned(self.secs(), covered)
        &&& self.bijective()
        &&& self.placed(covered)
        &&& self.changes_wf()
    }

    /// The structure holds together: the sections tile the whole buffer.
    pub open spec fn wf(&self) -> bool {
        self.consistent(self.vals().len() as int)
    }

    /// A structure made of the given parts, as they are.
    pub fn from_parts(
        sections: OrderedHashMap<S, Section>,
        value_key_to_idx: HashMap<K, (Option<S>, usize)>,
        value_idx_to_key: HashMap<usize, K>,
        values: Vec<V>,
        changed_ranges: RangeSet,
    ) -> (r: Self)
        ensures
            r.section_map() == sections,
            r.key_to_idx() == value_key_to_idx@,
            r.idx_to_key() == value_idx_to_key@,
            r.vals() == values@,
            r.changed() == changed_ranges,
    {
        VecSectioned { sections, value_key_to_idx, value_idx_to_key, values, changed_ranges }
    }

    pub fn new() -> (r: Self)
        requires
            key_type::<S>(),
            key_type::<K>(),
        ensures
            r.wf(),
            r@ == Map::<K, (S, V)>::empty(),
            r.secs() == Seq::<(S, Section)>::empty(),
            r.vals() == Seq::<V>::empty(),
            r.changed()@ == Set::<int>::empty(),
    {
        let r = VecSectioned {
            sections: OrderedHashMap::new(),
            value_key_to_idx: HashMap::new(),
            value_idx_to_key: HashMap::new(),
            values: Vec::new(),
            changed_ranges: RangeSet::new(),
        };
        assert(r@ =~= Map::<K, (S, V)>::empty());
        r
    }

    pub fn with_capacity(capacity: usize) -> (r: Self)
        requires
            key_type::<S>(),
            key_type::<K>(),
        ensures
            r.wf(),
            r@ == Map::<K, (S, V)>::empty(),
            r.secs() == Seq::<(S, Section)>::empty(),
            r.vals() == Seq::<V>::empty(),
            r.changed()@ == Set::<int>::empty(),
    {
        let r = VecSectioned {
            sections: OrderedHashMap::new(),
            value_key_to_idx: HashMap::with_capacity(capacity),
            value_idx_to_key: HashMap::with_capacity(capacity),
            values: Vec::with_capacity(capacity),
            changed_ranges: RangeSet::new(),
        };
        assert(r@ =~= Map::<K, (S, V)>::empty());
        r
    }

    /// Returns the length of the value vec, including all idle/unused values.
    /// In a well-formed structure this is also the number of keys held and the sum of the
    /// lengths of the sections.
    pub fn len(&self) -> (r: usize)
        ensures
            r == self.vals().len(),
            self.wf() ==> r == self@.len() && r == sections_total(self.secs()),
    {
        proof {
            if self.wf() {
                self.lemma_one_slot_per_key();
            }
        }
        self.values.len()
    }

    pub fn values(&self) -> (r: &Vec<V>)
        ensures
            r@ == self.vals(),
    {
        &self.values
    }

    /// Each section's identifier and range.
    pub open spec fn section_ranges(&self) -> Map<S, Range<usize>> {
        Map::new(
            |s: S| self.section_map().has_key(s),
            |s: S|
                {
                    let sec = self.secs()[self.section_map().index_map()[s] as int].1;
                    Range { start: sec.spec_start(), end: sec.spec_end() }
                },
        )
    }

    pub fn sections(&self) -> (r: HashMap<S, Range<usize>>)
        requires
            self.section_map().wf(),
        ensures
            r@ == self.section_ranges(),
    {
        let mut r: HashMap<S, Range<usize>> = HashMap::new();
        let mut i: usize = 0;
        let ghost secs = self.secs();
        while i < self.sections.len()
            invariant
                self.section_map().wf(),
                secs == self.secs(),
                i <= secs.len(),
                r@ == Map::new(
                    |s: S| exists|j: int| 0 <= j < i && #[trigger] secs[j].0 == s,
                    |s: S|
                        {
                            let sec = secs[self.section_map().index_map()[s] as int].1;
                            Range { start: sec.spec_start(), end: sec.spec_end() }
                        },
                ),
            decreases secs.len() - i,
        {
            let id = clone_of(self.sections.key(i));
            let range = self.sections.value(i).inner();
            r.insert(id, range);
            proof {
                assert(self.section_map().index_map().contains_key(secs[i as int].0));
                assert(r@ =~= Map::new(
                    |s: S| exists|j: int| 0 <= j < i + 1 && #[trigger] secs[j].0 == s,
                    |s: S|
                        {
                            let sec = secs[self.section_map().index_map()[s] as int].1;
                            Range { start: sec.spec_start(), end: sec.spec_end() }
                        },
                )) by {
                    assert forall|s: S| (exists|j: int| 0 <= j < i + 1 && #[trigger] secs[j].0 == s) implies r@.contains_key(s) by {
                        let j = choose|j: int| 0 <= j < i + 1 && #[trigger] secs[j].0 == s;
                        if j < i {
                        }
                    }
                    assert forall|s: S| r@.contains_key(s) implies (exists|j: int| 0 <= j < i + 1 && #[trigger] secs[j].0 == s) by {
                        if s == secs[i as int].0 {
                        }
                    }
                    assert forall|s: S| r@.contains_key(s) implies r@[s] == ({
                            let sec = secs[self.section_map().index_map()[s] as int].1;
                            Range { start: sec.spec_start(), end: sec.spec_end() }
                        }) by {
                        if s != secs[i as int].0 {
                            let j = choose|j: int| 0 <= j < i && #[trigger] secs[j].0 == s;
                            assert(self.section_map().index_map().contains_key(secs[j].0));
                        }
                    }
                }
            }
            i = i + 1;
        }
        proof {
            assert(r@ =~= self.section_ranges()) by {
                assert forall|s: S| r@.contains_key(s) <==> self.section_map().has_key(s) by {
                    if self.section_map().has_key(s) {
                        let j = self.section_map().index_map()[s] as int;
                        assert(secs[j].0 == s);
                    }
                    if r@.contains_key(s) {
                        let j = choose|j: int| 0 <= j < i && #[trigger] secs[j].0 == s;
                        assert(self.section_map().index_map().contains_key(secs[j].0));
                    }
                }
            }
        }
        r
    }

    /// Two structures with the same sections, keys and values are consistent alike.
    pub proof fn lemma_consistent_same(a: Self, b: Self, covered: int)
        requires
            a.consistent(covered),
            b.section_map() == a.section_map(),
            b.key_to_idx() == a.key_to_idx(),
            b.idx_to_key() == a.idx_to_key(),
            b.vals().len() == a.vals().len(),
            b.changes_wf(),
        ensures
            b.consistent(covered),
    {
        assert forall|p: int| true implies #[trigger] b.key_at(p) == a.key_at(p) by {}
        assert forall|p: int| true implies #[trigger] b.meta_at(p) == a.meta_at(p) by {}
        assert forall|k: K| true implies #[trigger] b.pos_of(k) == a.pos_of(k) by {}
    }

    /// In a consistent structure, the value of a key that is recorded in section `i`
    /// lies in section `i`.
    pub proof fn lemma_locate(&self, covered: int, k: K, i: int)
        requires
            self.consistent(covered),
            self.key_to_idx().contains_key(k),
            0 <= i < self.secs().len(),
            self.key_to_idx()[k].0 == Some(self.secs()[i].0),
        ensures
            self.secs()[i].1.holds(self.pos_of(k)),
    {
        let p = self.pos_of(k);
        assert(self.key_at(p) == k);
        lemma_partitioned_order(self.secs(), covered);
        if p >= covered {
            assert(self.meta_at(p) == None::<S>);
        } else {
            lemma_partitioned_covers(self.secs(), covered, p);
            let j = choose|j: int| 0 <= j < self.secs().len() && #[trigger] self.secs()[j].1.holds(p);
            assert(self.meta_at(p) == Some(self.secs()[j].0));
            assert(self.section_map().index_map().contains_key(self.secs()[j].0));
            assert(self.section_map().index_map().contains_key(self.secs()[i].0));
        }
    }

    /// The number of changed positions is below `usize::MAX`.
    pub proof fn lemma_changes_bounded(&self)
        requires
            self.changes_wf(),
        ensures
            self.changed().spec_total_size() < usize::MAX,
            self.changed()@.finite(),
    {
        vstd::set_lib::lemma_int_range(0, i32::MAX as int);
        assert(self.changed()@.subset_of(vstd::set_lib::set_int_range(0, i32::MAX as int)));
        vstd::set_lib::lemma_len_subset(self.changed()@, vstd::set_lib::set_int_range(0, i32::MAX as int));
    }

    /// Marks position `idx` as changed.
    fn mark_changed(&mut self, idx: usize)
        requires
            old(self).changes_wf(),
            idx < i32::MAX,
        ensures
            final(self).changes_wf(),
            final(self).changed()@ == old(self).changed()@.insert(idx as int),
            final(self).section_map() == old(self).section_map(),
            final(self).key_to_idx() == old(self).key_to_idx(),
            final(self).idx_to_key() == old(self).idx_to_key(),
            final(self).vals() == old(self).vals(),
    {
        proof {
            self.lemma_changes_bounded();
        }
        self.changed_ranges.insert(idx);
    }

    /// Replaces the value of `key`, if there is one, and marks its position as changed.
    pub fn update(&mut self, key: &K, value: V) -> (r: bool)
        requires
            old(self).wf(),
        ensures
            final(self).wf(),
            r == old(self)@.contains_key(*key),
            final(self)@ == if r {
                old(self)@.insert(*key, (old(self)@[*key].0, value))
            } else {
                old(self)@
            },
            final(self).section_map() == old(self).section_map(),
            final(self).key_to_idx() == old(self).key_to_idx(),
            final(self).idx_to_key() == old(self).idx_to_key(),
            final(self).vals() == if r {
                old(self).vals().update(old(self).pos_of(*key), value)
            } else {
                old(self).vals()
            },
            final(self).changed()@ == if r {
                old(self).changed()@.insert(old(self).pos_of(*key))
            } else {
                old(self).changed()@
            },
    {
        let value_idx = match self.value_key_to_idx.get(key) {
            Some(meta) => meta.1,
            None => {
                return false;
            },
        };
        if value_idx >= self.values.len() {
            return false;
        }
        self.values.set(value_idx, value);
        self.mark_changed(value_idx);
        proof {
            assert(self.idx_to_key() == old(self).idx_to_key());
            assert(self.key_to_idx() == old(self).key_to_idx());
            assert(self.vals().len() == old(self).vals().len());
            assert(self.secs() == old(self).secs());
            assert forall|p: int| true implies #[trigger] self.key_at(p) == old(self).key_at(p) by {}
            assert forall|p: int| true implies #[trigger] self.meta_at(p) == old(self).meta_at(p) by {}
            assert forall|k: K| true implies #[trigger] self.pos_of(k) == old(self).pos_of(k) by {}
            assert(self.bijective());
            assert(self.placed(self.vals().len() as int));
            assert(partitioned(self.secs(), self.vals().len() as int));
            assert(self.changes_wf());
            assert(self@ =~= old(self)@.insert(*key, (old(self)@[*key].0, value))) by {
                assert forall|k: K| #[trigger] self.key_to_idx().contains_key(k) && k != *key implies self.pos_of(k)
                    != self.pos_of(*key) by {
                    assert(self.key_at(self.pos_of(k)) == k);
                }
            }
        }
        true
    }

    /// The position of section `id`, which is added, empty, after the last section where there is none.
    fn get_or_insert_section(&mut self, id: &S) -> (r: usize)
        requires
            old(self).section_map().wf(),
            old(self).secs().len() > 0 ==> old(self).secs().last().1.spec_start() <= old(self).secs().last().1.spec_end(),
        ensures
            final(self).section_map().wf(),
            r < final(self).secs().len(),
            final(self).secs()[r as int].0 == *id,
            final(self).section_map().index_map()[*id] == r,
            old(self).section_map().has_key(*id) ==> final(self).section_map() == old(self).section_map(),
            !old(self).section_map().has_key(*id) ==> {
                let end = if old(self).secs().len() == 0 {
                    0
                } else {
                    old(self).secs().last().1.spec_end()
                };
                &&& final(self).secs() == old(self).secs().push((*id, final(self).secs().last().1))
                &&& final(self).secs().last().1.spec_start() == end
                &&& final(self).secs().last().1.spec_end() == end
                &&& final(self).section_map().index_map() == old(self).section_map().index_map().insert(*id, r)
            },
            final(self).key_to_idx() == old(self).key_to_idx(),
            final(self).idx_to_key() == old(self).idx_to_key(),
            final(self).vals() == old(self).vals(),
            final(self).changed() == old(self).changed(),
    {
        match self.sections.idx(id) {
            Some(idx) => idx,
            None => {
                let section = match self.sections.last() {
                    Some(prev) => Section::new(prev.end(), 0),
                    None => Section::default(),
                };
                let key = clone_of(id);
                self.sections.push(key, section)
            },
        }
    }

    /// The section recorded for the value of `key`.
    fn get_value_section(&self, key: &K) -> (r: Option<S>)
        requires
            key_type::<K>(),
            key_type::<S>(),
            self.key_to_idx().contains_key(*key) ==> self.key_to_idx()[*key].0 is Some,
        ensures
            r == if self.key_to_idx().contains_key(*key) {
                self.key_to_idx()[*key].0
            } else {
                None
            },
    {
        match self.value_key_to_idx.get(key) {
            Some(meta) => match &meta.0 {
                Some(section_id) => Some(clone_of(section_id)),
                None => None,
            },
            None => None,
        }
    }

    /// The position at `position` of the section at `section_idx`;
    /// outside any section, the last position of the buffer.
    fn value_index_in_section(&self, section_idx: Option<usize>, position: TargetPosition) -> (r: usize)
        requires
            section_idx matches Some(i) ==> i < self.secs().len() && (position == TargetPosition::Last
                ==> self.secs()[i as int].1.spec_end() >= 1),
            section_idx is None ==> self.vals().len() >= 1,
        ensures
            r == match section_idx {
                Some(i) => match position {
                    TargetPosition::First => self.secs()[i as int].1.spec_start() as int,
                    TargetPosition::Last => self.secs()[i as int].1.spec_end() - 1,
                },
                None => self.vals().len() - 1,
            },
    {
        match section_idx {
            // Get the position in the section.
            Some(section_idx) => self.sections.value(section_idx).index_at_position(position),
            // The "not in a section" always has 1 item and its at the end of the vec.
            None => self.values.len() - 1,
        }
    }

    /// Records `section` as the section of the value at position `value_idx`.
    fn set_value_section(&mut self, value_idx: usize, section: Option<S>)
        requires
            old(self).bijective(),
            key_type::<K>(),
            value_idx < old(self).vals().len(),
        ensures
            final(self).key_to_idx() == old(self).key_to_idx().insert(
                old(self).key_at(value_idx as int),
                (section, old(self).key_to_idx()[old(self).key_at(value_idx as int)].1),
            ),
            final(self).bijective(),
            final(self).section_map() == old(self).section_map(),
            final(self).idx_to_key() == old(self).idx_to_key(),
            final(self).vals() == old(self).vals(),
            final(self).changed() == old(self).changed(),
            forall|p: int| 0 <= p < final(self).vals().len() && p != value_idx ==> #[trigger] final(self).meta_at(p) == old(self).meta_at(p),
            final(self).meta_at(value_idx as int) == section,
    {
        let key = clone_of(self.value_idx_to_key.get(&value_idx).unwrap());
        let pos = self.value_key_to_idx.get(&key).unwrap().1;
        self.value_key_to_idx.insert(key, (section, pos));
        proof {
            assert(old(self).idx_to_key().contains_key(value_idx));
            assert forall|p: int| 0 <= p < self.vals().len() && p != value_idx implies #[trigger] self.meta_at(p) == old(self).meta_at(p) by {
                assert(old(self).key_to_idx().contains_key(old(self).key_at(p)));
                assert(old(self).key_at(p) != old(self).key_at(value_idx as int));
            }
            assert forall|p: int| 0 <= p < self.vals().len() implies #[trigger] self.key_to_idx().contains_key(self.key_at(p))
                && self.pos_of(self.key_at(p)) == p by {
                assert(old(self).key_to_idx().contains_key(old(self).key_at(p)));
            }
        }
    }

    /// Swaps the values at two positions, with their keys; the section recorded for each
    /// position stays with the position. Returns whether the positions differ.
    #[verifier::spinoff_prover]
    pub fn swap_values(&mut self, a_idx: usize, b_idx: usize) -> (r: bool)
        requires
            old(self).bijective(),
            key_type::<K>(),
            a_idx < old(self).vals().len(),
            b_idx < old(self).vals().len(),
        ensures
            r == (a_idx != b_idx),
            !r ==> *final(self) == *old(self),
            final(self).bijective(),
            final(self).section_map() == old(self).section_map(),
            final(self).changed() == old(self).changed(),
            final(self).vals() == old(self).vals().update(a_idx as int, old(self).vals()[b_idx as int]).update(
                b_idx as int,
                old(self).vals()[a_idx as int],
            ),
            final(self).idx_to_key() == old(self).idx_to_key().insert(a_idx, old(self).key_at(b_idx as int)).insert(
                b_idx,
                old(self).key_at(a_idx as int),
            ),
            forall|p: int| 0 <= p < final(self).vals().len() ==> #[trigger] final(self).meta_at(p) == old(self).meta_at(p),
            final(self).key_to_idx().dom() == old(self).key_to_idx().dom(),
    {
        if a_idx == b_idx {
            return false;
        }
        proof {
            assert(old(self).idx_to_key().contains_key(a_idx));
            assert(old(self).idx_to_key().contains_key(b_idx));
            assert(old(self).key_to_idx().contains_key(old(self).key_at(a_idx as int)));
            assert(old(self).key_to_idx().contains_key(old(self).key_at(b_idx as int)));
            assert(old(self).key_at(a_idx as int) != old(self).key_at(b_idx as int));
        }
        vec_swap(&mut self.values, a_idx, b_idx);

        // Update metadata about the two items which were just swapped
        let a_key = clone_of(self.value_idx_to_key.get(&a_idx).unwrap());
        let a_meta = self.value_key_to_idx.remove(&a_key).unwrap();
        let b_key = clone_of(self.value_idx_to_key.get(&b_idx).unwrap());
        let b_meta = self.value_key_to_idx.remove(&b_key).unwrap();

        // value prev at b is now at a
        self.value_key_to_idx.insert(clone_of(&b_key), (a_meta.0, a_idx));
        self.value_idx_to_key.insert(a_idx, b_key);

        // value prev at a is now at b
        self.value_key_to_idx.insert(clone_of(&a_key), (b_meta.0, b_idx));
        self.value_idx_to_key.insert(b_idx, a_key);
        proof {
            let ka = old(self).key_at(a_idx as int);
            let kb = old(self).key_at(b_idx as int);
            assert(old(self).idx_to_key().contains_key(a_idx));
            assert(old(self).idx_to_key().contains_key(b_idx));
            assert(old(self).key_to_idx().contains_key(ka));
            assert(old(self).key_to_idx().contains_key(kb));
            assert(ka != kb);
            assert forall|p: int| 0 <= p < self.vals().len() implies #[trigger] self.meta_at(p) == old(self).meta_at(p) by {
                if p != a_idx && p != b_idx {
                    assert(old(self).key_to_idx().contains_key(old(self).key_at(p)));
                    assert(old(self).key_at(p) != ka && old(self).key_at(p) != kb);
                }
            }
            assert forall|p: usize| #[trigger] self.idx_to_key().contains_key(p) <==> p < self.vals().len() by {
                assert(old(self).idx_to_key().contains_key(p) <==> p < old(self).vals().len());
            }
            assert forall|p: int| 0 <= p < self.vals().len() implies #[trigger] self.key_to_idx().contains_key(self.key_at(p))
                && self.pos_of(self.key_at(p)) == p by {
                if p != a_idx && p != b_idx {
                    assert(old(self).key_to_idx().contains_key(old(self).key_at(p)));
                    assert(old(self).key_at(p) != ka && old(self).key_at(p) != kb);
                }
            }
            assert forall|k: K| #[trigger] self.key_to_idx().contains_key(k) implies 0 <= self.pos_of(k) < self.vals().len()
                && self.key_at(self.pos_of(k)) == k by {
                if k != ka && k != kb {
                    assert(old(self).key_to_idx().contains_key(k));
                    assert(old(self).pos_of(k) != a_idx && old(self).pos_of(k) != b_idx);
                }
            }
            assert(self.key_to_idx().dom() =~= old(self).key_to_idx().dom());
        }
        true
    }

    /// Where a path of sections starts or ends: the section index, or `len` for "in no section".
    pub open spec fn path_end(x: Option<usize>, len: usize) -> int {
        match x {
            Some(i) => i as int,
            None => len as int,
        }
    }

    /// The section at index `x` of a path, or `None` past the last section.
    pub open spec fn path_entry(x: int, len: usize) -> Option<usize> {
        if x < len {
            Some(x as usize)
        } else {
            None
        }
    }

    /// The sections visited when moving a value from section `src` to section `dst`, in order,
    /// both included, and the direction of travel; `None` where they are the same.
    pub fn make_idx_path(src: Option<usize>, dst: Option<usize>, len: usize) -> (r: Option<(Direction, Vec<Option<usize>>)>)
        requires
            src != dst ==> Self::path_end(src, len) != Self::path_end(dst, len),
        ensures
            r is None <==> src == dst,
            r matches Some((d, path)) ==> {
                let a = Self::path_end(src, len);
                let b = Self::path_end(dst, len);
                &&& d == Direction::between(a, b)
                &&& path@.len() == (if a <= b { b - a } else { a - b }) + 1
                &&& forall|t: int| 0 <= t < path@.len() ==> #[trigger] path@[t] == Self::path_entry(
                    if a <= b { a + t } else { a - t },
                    len,
                )
            },
    {
        if src == dst {
            return None;
        }
        let mut touched_sections: Vec<Option<usize>> = Vec::new();
        let mut current = match src {
            Some(i) => i,
            None => len,
        };
        let dst_num = match dst {
            Some(i) => i,
            None => len,
        };
        let direction = Direction::from(&current, &dst_num);
        let ghost a: int = Self::path_end(src, len);
        let ghost b: int = Self::path_end(dst, len);
        while current != dst_num
            invariant
                a == Self::path_end(src, len),
                b == Self::path_end(dst, len),
                a != b,
                dst_num == b,
                direction == Direction::between(a, b),
                if a <= b { a <= current <= b } else { b <= current <= a },
                touched_sections@.len() == (if a <= b { current - a } else { a - current }),
                forall|t: int| 0 <= t < touched_sections@.len() ==> #[trigger] touched_sections@[t] == Self::path_entry(
                    if a <= b { a + t } else { a - t },
                    len,
                ),
            decreases if a <= b { b - current } else { current - b },
        {
            touched_sections.push(if current < len { Some(current) } else { None });
            current = direction.advance(current);
        }
        // Current is now dst, and the path should include the final destination.
        touched_sections.push(if current < len { Some(current) } else { None });
        Some((direction, touched_sections))
    }

    /// Whether position `p` lies in the section at index `i`.
    pub open spec fn in_section(&self, i: int, p: int) -> bool {
        self.secs()[i].1.spec_start() <= p < self.secs()[i].1.spec_end()
    }

    /// The identifiers of the sections, in order.
    pub open spec fn section_ids(&self) -> Seq<S> {
        self.secs().map_values(|e: (S, Section)| e.0)
    }

    /// The key at each position of the buffer, in order.
    pub open spec fn key_seq(&self) -> Seq<K> {
        Seq::new(self.vals().len(), |p: int| self.key_at(p))
    }

    /// The slots the value of `key` visits when `change_section` moves it from section `src` to
    /// section `dst`.
    pub open spec fn change_slots(&self, src: Option<usize>, dst: Option<usize>, key: K) -> Seq<int> {
        let n = self.secs().len() as int;
        travel_slots(
            self.secs(),
            match src {
                Some(i) => i as int,
                None => n,
            },
            match dst {
                Some(j) => j as int,
                None => n,
            },
            self.pos_of(key),
            self.vals().len() - 1,
        )
    }

    /// The index of section `id`, or, where there is none, the index it gets when it is added.
    pub open spec fn section_index_of(&self, id: S) -> int {
        if self.section_map().has_key(id) {
            self.section_map().index_map()[id] as int
        } else {
            self.secs().len() as int
        }
    }

    /// The slots a value inserted into section `id` visits: it starts past the end of the buffer,
    /// then crosses, from the last section down to the one after `id`, to the first slot of each.
    pub open spec fn insert_slots(&self, id: S) -> Seq<int> {
        let n = self.secs().len() as int;
        let len = self.vals().len() as int;
        travel_slots(self.secs(), if self.section_map().has_key(id) { n } else { n + 1 }, self.section_index_of(id), len, len)
    }

    /// The slots the value of `key` visits when it is removed: from its slot to the last slot of
    /// its section, then to the last slot of each section after it.
    pub open spec fn remove_slots(&self, key: K) -> Seq<int> {
        let n = self.secs().len() as int;
        travel_slots(self.secs(), self.section_index_of(self@[key].0), n, self.pos_of(key), self.vals().len() - 1)
    }

    /// The slots the value of `key` visits when it moves to section `id`.
    pub open spec fn swap_slots(&self, key: K, id: S) -> Seq<int> {
        travel_slots(
            self.secs(),
            self.section_index_of(self@[key].0),
            self.section_index_of(id),
            self.pos_of(key),
            self.vals().len() - 1,
        )
    }

    /// The sections a value travelling in `direction` from section `prev` has still to cross
    /// keep, from `o`, the bound it crosses at.
    pub open spec fn ahead_intact(&self, o: Self, direction: Direction, prev: Option<usize>) -> bool {
        let n = o.secs().len();
        &&& direction == Direction::Right ==> forall|k: int|
            0 <= k < n && prev is Some && opt_idx(prev) <= k ==> #[trigger] self.secs()[k].1.spec_end() == o.secs()[k].1.spec_end()
        &&& direction == Direction::Left ==> forall|k: int|
            0 <= k < n && (prev is Some ==> k <= opt_idx(prev)) ==> #[trigger] self.secs()[k].1.spec_start() == o.secs()[k].1.spec_start()
    }

    /// Applies `operation` to the section at `section_idx`, if there is one.
    fn apply_operation(&mut self, section_idx: Option<usize>, operation: Operation)
        requires
            old(self).section_map().wf(),
            section_idx matches Some(i) ==> i < old(self).secs().len() && old(self).secs()[i as int].1.can_apply(
                operation,
            ),
        ensures
            final(self).section_map().wf(),
            final(self).section_map().index_map() == old(self).section_map().index_map(),
            final(self).secs().len() == old(self).secs().len(),
            forall|k: int|
                0 <= k < final(self).secs().len() ==> #[trigger] final(self).secs()[k].0 == old(self).secs()[k].0,
            forall|k: int|
                0 <= k < final(self).secs().len() && k != opt_idx(section_idx) ==> #[trigger] final(self).secs()[k].1
                    == old(self).secs()[k].1,
            section_idx matches Some(i) ==> final(self).secs()[i as int].1.spec_start() == old(self).secs()[i as int].1.applied(
                operation,
            ).0 && final(self).secs()[i as int].1.spec_end() == old(self).secs()[i as int].1.applied(operation).1,
            final(self).key_to_idx() == old(self).key_to_idx(),
            final(self).idx_to_key() == old(self).idx_to_key(),
            final(self).vals() == old(self).vals(),
            final(self).changed() == old(self).changed(),
    {
        if let Some(idx) = section_idx {
            let mut section = *self.sections.value(idx);
            section.apply(operation);
            self.sections.set_value(idx, section);
        }
    }

    /// Moves the boundary slot of section `prev` (or, where `prev` is `None`, the slot at the
    /// end of the buffer) into the neighbouring section `next` (or out of all sections), and
    /// records `next` as the section of the value in that slot.
    #[verifier::spinoff_prover]
    fn transfer(&mut self, direction: Direction, prev: Option<usize>, next: Option<usize>, Ghost(pv): Ghost<int>)
        requires
            old(self).consistent(if prev is None { old(self).vals().len() - 1 } else { old(self).vals().len() as int }),
            0 <= pv < old(self).vals().len(),
            transfer_ok(old(self).secs(), direction, prev, next, pv, old(self).vals().len() as int),
        ensures
            final(self).consistent(if next is None { old(self).vals().len() - 1 } else { old(self).vals().len() as int }),
            final(self).section_map().index_map() == old(self).section_map().index_map(),
            final(self).secs().len() == old(self).secs().len(),
            forall|k: int|
                0 <= k < final(self).secs().len() ==> #[trigger] final(self).secs()[k].0 == old(self).secs()[k].0,
            forall|k: int|
                0 <= k < final(self).secs().len() ==> #[trigger] final(self).secs()[k].1.spec_count()
                    == old(self).secs()[k].1.spec_count() - (if k == opt_idx(prev) { 1int } else { 0 })
                    + (if k == opt_idx(next) { 1int } else { 0 }),
            final(self).idx_to_key() == old(self).idx_to_key(),
            final(self).vals() == old(self).vals(),
            final(self).changed() == old(self).changed(),
            final(self).key_to_idx() == old(self).key_to_idx().insert(
                old(self).key_at(pv),
                (
                    match next {
                        Some(j) => Some(old(self).secs()[j as int].0),
                        None => None,
                    },
                    old(self).key_to_idx()[old(self).key_at(pv)].1,
                ),
            ),
            next matches Some(j) ==> (direction == Direction::Right ==> pv == final(self).secs()[j as int].1.spec_start())
                && (direction == Direction::Left ==> pv == final(self).secs()[j as int].1.spec_end() - 1)
                && final(self).secs()[j as int].1.holds(pv),
            forall|k: int|
                0 <= k < final(self).secs().len() ==> #[trigger] final(self).secs()[k].1.spec_start() == transfer_bounds(
                    old(self).secs(),
                    direction,
                    opt_idx(prev),
                    opt_idx(next),
                    k,
                ).0 && final(self).secs()[k].1.spec_end() == transfer_bounds(old(self).secs(), direction, opt_idx(prev), opt_idx(next), k).1,
    {
        let ghost o = *self;
        let ghost cov0 = if prev is None { o.vals().len() - 1 } else { o.vals().len() as int };
        let ghost cov1 = if next is None { o.vals().len() - 1 } else { o.vals().len() as int };
        proof {
            lemma_partitioned_order(o.secs(), cov0);
        }
        let (operations, position_newly_in_next) = direction.operations(prev, next);
        let op0 = operations[0];
        let op1 = operations[1];
        let op2 = operations[2];
        proof {
            if direction == Direction::Right {
                let i = prev->0 as int;
                assert(o.secs()[i].1.spec_end() <= o.vals().len());
                if next is Some {
                    assert(o.secs()[i + 1].1.spec_start() == o.secs()[i].1.spec_end());
                    assert(o.secs()[i + 1].1.spec_end() <= o.vals().len());
                }
            } else {
                let j = next->0 as int;
                assert(o.secs()[j].1.spec_end() <= o.vals().len());
                if prev is Some {
                    assert(o.secs()[j + 1].1.spec_start() == o.secs()[j].1.spec_end());
                }
            }
        }
        self.apply_operation(op0.0, op0.1);
        let ghost s1 = self.secs();
        self.apply_operation(op1.0, op1.1);
        let ghost s2 = self.secs();
        self.apply_operation(op2.0, op2.1);
        proof {
            let pi = opt_idx(prev);
            let ni = opt_idx(next);
            assert forall|k: int| 0 <= k < self.secs().len() implies #[trigger] self.secs()[k].0 == o.secs()[k].0
                && self.secs()[k].1.spec_start() == transfer_bounds(o.secs(), direction, pi, ni, k).0
                && self.secs()[k].1.spec_end() == transfer_bounds(o.secs(), direction, pi, ni, k).1 by {
                assert(s1[k].0 == o.secs()[k].0);
                assert(s2[k].0 == s1[k].0);
                if k != pi && k != ni {
                    assert(s1[k].1 == o.secs()[k].1);
                    assert(s2[k].1 == s1[k].1);
                    assert(self.secs()[k].1 == s2[k].1);
                } else if k == pi {
                    if direction == Direction::Right {
                        assert(s2[k].1 == s1[k].1);
                        assert(self.secs()[k].1 == s2[k].1);
                    } else {
                        assert(self.secs()[k].1 == s2[k].1);
                    }
                } else {
                    if direction == Direction::Right {
                        assert(s1[k].1 == o.secs()[k].1);
                    } else {
                        assert(s1[k].1 == o.secs()[k].1);
                        assert(s2[k].1 == s1[k].1);
                    }
                }
            }
            lemma_transfer(o.secs(), self.secs(), direction, prev, next, pv, o.vals().len() as int);
        }
        let ghost bounded = self.secs();
        let value_idx = self.value_index_in_section(next, position_newly_in_next);
        let section = match next {
            Some(sidx) => Some(clone_of(self.sections.key(sidx))),
            None => None,
        };
        proof {
            assert(value_idx == pv);
            assert(self.bijective()) by {
                assert forall|p: int| true implies #[trigger] self.key_at(p) == o.key_at(p) by {}
                assert forall|k: K| true implies #[trigger] self.pos_of(k) == o.pos_of(k) by {}
            }
        }
        self.set_value_section(value_idx, section);
        proof {
            lemma_partitioned_order(self.secs(), cov1);
            assert(self.placed(cov1)) by {
                assert forall|k: int, p: int|
                    0 <= k < self.secs().len() && self.secs()[k].1.spec_start() <= p < self.secs()[k].1.spec_end()
                    implies #[trigger] self.meta_at(p) == Some(#[trigger] self.secs()[k].0) by {
                    if p != pv {
                        assert(self.secs()[k].1.holds(p));
                        assert(o.secs()[k].1.holds(p));
                        assert(o.meta_at(p) == Some(o.secs()[k].0));
                    } else {
                        let j = next->0 as int;
                        assert(self.secs()[j].1.spec_start() <= pv < self.secs()[j].1.spec_end());
                        if k != j {
                            if k < j {
                                assert(self.secs()[k].1.spec_end() <= self.secs()[j].1.spec_start());
                            } else {
                                assert(self.secs()[j].1.spec_end() <= self.secs()[k].1.spec_start());
                            }
                        }
                    }
                }
                assert forall|p: int| cov1 <= p < self.vals().len() implies #[trigger] self.meta_at(p) == None::<S> by {
                    if p != pv {
                        assert(o.meta_at(p) == None::<S>);
                    }
                }
            }
            assert(self.secs() == bounded);
        }
    }

    /// Every position marked changed in `o` is still marked, and so is every position of `self`
    /// whose value is new or differs from the value there in `o`.
    pub open spec fn changes_marked(&self, o: Self) -> bool {
        &&& o.changed()@.subset_of(self.changed()@)
        &&& forall|p: int|
            0 <= p < self.vals().len() && (p >= o.vals().len() || self.vals()[p] != o.vals()[p])
                ==> #[trigger] self.changed()@.contains(p)
    }

    /// The positions whose key differs between `o` and `self`: those of `self` that hold another
    /// key than in `o` or lie past its end, and those past the end of `self` that held another key
    /// than `gone` in `o`.
    pub open spec fn moved_since(&self, o: Self, gone: K) -> Set<int> {
        Set::new(
            |p: int|
                (0 <= p < self.vals().len() && (p >= o.vals().len() || self.key_at(p) != o.key_at(p))) || (self.vals().len()
                    <= p < o.vals().len() && o.key_at(p) != gone),
        )
    }

    /// Where each key present after a change kept its value, a position whose value differs
    /// holds another key than before.
    pub proof fn lemma_value_changes(o: Self, f: Self, ks: K)
        requires
            o.bijective(),
            f.bijective(),
            f.vals().len() <= o.vals().len(),
            f.key_to_idx().dom().subset_of(o.key_to_idx().dom()),
            forall|k: K|
                #[trigger] f.key_to_idx().contains_key(k) && k != ks ==> f.vals()[f.pos_of(k)] == o.vals()[o.pos_of(k)],
            f.key_to_idx().contains_key(ks) ==> f.vals()[f.pos_of(ks)] == o.vals()[o.pos_of(ks)],
            o.changed()@.subset_of(f.changed()@),
            forall|p: int| 0 <= p < f.vals().len() && #[trigger] f.key_at(p) != o.key_at(p) ==> f.changed()@.contains(p),
        ensures
            f.changes_marked(o),
    {
        assert forall|p: int|
            0 <= p < f.vals().len() && (p >= o.vals().len() || f.vals()[p] != o.vals()[p]) implies #[trigger] f.changed()@.contains(
            p,
        ) by {
            let k = f.key_at(p);
            assert(f.key_to_idx().contains_key(k));
            if k == o.key_at(p) {
                assert(o.key_to_idx().contains_key(o.key_at(p)));
            }
        }
    }

    /// The positions where `self` holds a different key than `o` are all in `affected`, which
    /// holds positions of the buffer only.
    pub open spec fn tracked_changes(&self, o: Self, affected: Seq<usize>) -> bool {
        &&& forall|p: int| 0 <= p < self.vals().len() && #[trigger] self.key_at(p) != o.key_at(p) ==> affected.contains(p as usize)
        &&& forall|e: int| 0 <= e < affected.len() ==> #[trigger] affected[e] < self.vals().len()
    }

    /// Where `change_section` may start: the value of `key` is in section `src`, or, where
    /// `src` is `None`, in no section at the end of the buffer; `dst` is a section or `None`.
    pub open spec fn can_change_section(&self, src: Option<usize>, dst: Option<usize>, key: K) -> bool {
        &&& self.consistent(if src is None { self.vals().len() - 1 } else { self.vals().len() as int })
        &&& self.key_to_idx().contains_key(key)
        &&& src matches Some(i) ==> i < self.secs().len() && self.key_to_idx()[key].0 == Some(self.secs()[i as int].0)
        &&& src is None ==> self.pos_of(key) == self.vals().len() - 1
        &&& dst matches Some(j) ==> j < self.secs().len()
    }

    /// The state while the value of `ks` travels away from section `src`: it is at `pv` and
    /// recorded in section `prev` (or, where `prev` is `None`, at the end of the buffer in no
    /// section); every other key keeps its section and value; the value has left `src` for
    /// `prev` where they differ; the positions whose key changed are in `affected`.
    pub open spec fn en_route(&self, o: Self, ks: K, src: Option<usize>, prev: Option<usize>, pv: int, affected: Seq<usize>) -> bool {
        let len = o.vals().len() as int;
        let nsec = o.secs().len();
        &&& o.bijective()
        &&& self.consistent(if prev is None { len - 1 } else { len })
        &&& self.vals().len() == len
        &&& self.secs().len() == nsec
        &&& self.section_map().index_map() == o.section_map().index_map()
        &&& forall|k: int| 0 <= k < nsec ==> #[trigger] self.secs()[k].0 == o.secs()[k].0
        &&& forall|k: int|
            0 <= k < nsec ==> #[trigger] self.secs()[k].1.spec_count() == o.secs()[k].1.spec_count()
                - (if prev != src && k == opt_idx(src) { 1int } else { 0 })
                + (if prev != src && k == opt_idx(prev) { 1int } else { 0 })
        &&& self.key_to_idx().dom() == o.key_to_idx().dom()
        &&& 0 <= pv < len
        &&& self.key_at(pv) == ks
        &&& self.key_to_idx()[ks].0 == match prev {
            Some(i) => Some(o.secs()[i as int].0),
            None => None,
        }
        &&& prev matches Some(i) ==> i < nsec && self.secs()[i as int].1.holds(pv)
        &&& prev is None ==> pv == len - 1
        &&& forall|k: K|
            #[trigger] self.key_to_idx().contains_key(k) && k != ks ==> self.key_to_idx()[k].0 == o.key_to_idx()[k].0
                && self.vals()[self.pos_of(k)] == o.vals()[o.pos_of(k)]
        &&& self.vals()[pv] == o.vals()[o.pos_of(ks)]
        &&& self.tracked_changes(o, affected)
        &&& affected.len() > 0 ==> affected.contains(pv as usize)
        &&& forall|e: int| 0 <= e < affected.len() ==> #[trigger] self.key_at(affected[e] as int) != o.key_at(affected[e] as int)
        &&& self.changed() == o.changed()
    }

    /// Every position in `affected` but `pv` lies behind `pv`, seen in `direction`.
    pub open spec fn behind(direction: Direction, pv: int, affected: Seq<usize>) -> bool {
        forall|e: int|
            0 <= e < affected.len() && #[trigger] affected[e] != pv ==> (direction == Direction::Right ==> affected[e] < pv)
                && (direction == Direction::Left ==> affected[e] > pv)
    }

    /// Whether `pv` is the slot of section `i` from which a value crosses on in `direction`.
    pub open spec fn at_boundary(&self, direction: Direction, i: usize, pv: int) -> bool {
        &&& direction == Direction::Right ==> pv == self.secs()[i as int].1.spec_end() - 1
        &&& direction == Direction::Left ==> pv == self.secs()[i as int].1.spec_start()
    }

    /// `en_route`, with the value, once it has moved, at the slot from which it crosses on,
    /// unless it has arrived at `dst`.
    pub open spec fn travelling(
        &self,
        o: Self,
        ks: K,
        src: Option<usize>,
        dst: Option<usize>,
        direction: Direction,
        prev: Option<usize>,
        pv: int,
        moved: bool,
        affected: Seq<usize>,
    ) -> bool {
        &&& self.en_route(o, ks, src, prev, pv, affected)
        &&& Self::behind(direction, pv, affected)
        &&& moved && prev != dst ==> (prev matches Some(i) ==> self.at_boundary(direction, i, pv))
    }

    /// Two structures with the same sections and changes, with keys swapped between positions
    /// but each position keeping its section, are consistent alike.
    pub proof fn lemma_swap_consistent(a: Self, b: Self, covered: int)
        requires
            a.consistent(covered),
            covered <= a.vals().len(),
            b.bijective(),
            b.section_map() == a.section_map(),
            b.vals().len() == a.vals().len(),
            b.changed() == a.changed(),
            forall|p: int| 0 <= p < b.vals().len() ==> #[trigger] b.meta_at(p) == a.meta_at(p),
        ensures
            b.consistent(covered),
    {
        lemma_partitioned_order(a.secs(), covered);
        assert forall|i: int, p: int|
            #![trigger b.secs()[i], b.meta_at(p)]
            0 <= i < b.secs().len() && b.secs()[i].1.spec_start() <= p < b.secs()[i].1.spec_end()
            implies b.meta_at(p) == Some(b.secs()[i].0) by {
            assert(a.meta_at(p) == Some(a.secs()[i].0));
        }
    }

    /// Moves the travelling value of `ks` from section `prev` into the neighbouring section `next`.
    #[verifier::spinoff_prover]
    fn enter_section(
        &mut self,
        direction: Direction,
        src: Option<usize>,
        prev: Option<usize>,
        next: Option<usize>,
        pv: usize,
        Ghost(o): Ghost<Self>,
        Ghost(ks): Ghost<K>,
        Ghost(affected): Ghost<Seq<usize>>,
    )
        requires
            old(self).en_route(o, ks, src, prev, pv as int, affected),
            next != src,
            transfer_ok(old(self).secs(), direction, prev, next, pv as int, o.vals().len() as int),
        ensures
            final(self).en_route(o, ks, src, next, pv as int, affected),
            next matches Some(j) ==> (direction == Direction::Right ==> pv == final(self).secs()[j as int].1.spec_start())
                && (direction == Direction::Left ==> pv == final(self).secs()[j as int].1.spec_end() - 1),
            final(self).vals() == old(self).vals(),
            final(self).idx_to_key() == old(self).idx_to_key(),
            final(self).secs().len() == old(self).secs().len(),
            forall|k: int|
                0 <= k < old(self).secs().len() ==> #[trigger] final(self).secs()[k].1.spec_start() == transfer_bounds(
                    old(self).secs(),
                    direction,
                    opt_idx(prev),
                    opt_idx(next),
                    k,
                ).0,
            forall|k: int|
                0 <= k < old(self).secs().len() ==> #[trigger] final(self).secs()[k].1.spec_end() == transfer_bounds(
                    old(self).secs(),
                    direction,
                    opt_idx(prev),
                    opt_idx(next),
                    k,
                ).1,
    {
        let ghost s0 = *self;
        let ghost len = o.vals().len() as int;
        proof {
            lemma_partitioned_order(s0.secs(), if prev is None { len - 1 } else { len });
            if direction == Direction::Right && next is None {
                let i = prev->0 as int;
                assert(i == s0.secs().len() - 1);
                assert(s0.secs().last() == s0.secs()[i]);
            }
        }
        self.transfer(direction, prev, next, Ghost(pv as int));
        proof {
            assert forall|k: int| 0 <= k < s0.secs().len() implies #[trigger] self.secs()[k].1.spec_end()
                == transfer_bounds(s0.secs(), direction, opt_idx(prev), opt_idx(next), k).1 by {
                assert(self.secs()[k].1.spec_start() == transfer_bounds(s0.secs(), direction, opt_idx(prev), opt_idx(next), k).0);
            }
            assert(self.key_to_idx().dom() =~= o.key_to_idx().dom());
            assert forall|k: int| 0 <= k < o.secs().len() implies #[trigger] self.secs()[k].1.spec_count()
                == o.secs()[k].1.spec_count() - (if next != src && k == opt_idx(src) { 1int } else { 0 }) + (if next
                != src && k == opt_idx(next) { 1int } else { 0 }) by {
                assert(s0.secs()[k].1.spec_count() == o.secs()[k].1.spec_count() - (if prev != src && k == opt_idx(src) {
                    1int
                } else {
                    0
                }) + (if prev != src && k == opt_idx(prev) { 1int } else { 0 }));
            }
            assert forall|k: int| 0 <= k < o.secs().len() implies #[trigger] self.secs()[k].0 == o.secs()[k].0 by {
                assert(s0.secs()[k].0 == o.secs()[k].0);
            }
            assert forall|k: K| #[trigger] self.key_to_idx().contains_key(k) && k != ks implies self.key_to_idx()[k].0
                == o.key_to_idx()[k].0 && self.vals()[self.pos_of(k)] == o.vals()[o.pos_of(k)] by {
                assert(s0.key_to_idx().contains_key(k));
            }
            assert forall|p: int| 0 <= p < self.vals().len() && #[trigger] self.key_at(p) != o.key_at(p) implies affected.contains(p as usize) by {
                assert(s0.key_at(p) == self.key_at(p));
            }
            assert forall|e: int| 0 <= e < affected.len() implies #[trigger] self.key_at(affected[e] as int) != o.key_at(affected[e] as int) by {
                assert(s0.key_at(affected[e] as int) == self.key_at(affected[e] as int));
            }
            if next is Some {
                let j = next->0 as int;
                assert(s0.secs()[j].0 == o.secs()[j].0);
            }
        }
    }

    /// Moves the travelling value of `ks`, in section `sec`, to the slot of `sec` from which it
    /// crosses on in `direction`, swapping it with the value there; returns its new position.
    #[verifier::spinoff_prover]
    fn align_in_section(
        &mut self,
        direction: Direction,
        src: Option<usize>,
        sec: usize,
        pv: usize,
        affected: &mut Vec<usize>,
        Ghost(o): Ghost<Self>,
        Ghost(ks): Ghost<K>,
    ) -> (r: usize)
        requires
            old(self).en_route(o, ks, src, Some(sec), pv as int, old(affected)@),
            Self::behind(direction, pv as int, old(affected)@),
        ensures
            final(self).en_route(o, ks, src, Some(sec), r as int, final(affected)@),
            Self::behind(direction, r as int, final(affected)@),
            final(self).section_map() == old(self).section_map(),
            final(self).at_boundary(direction, sec, r as int),
            r < old(self).vals().len(),
            final(self).vals() == old(self).vals().update(pv as int, old(self).vals()[r as int]).update(
                r as int,
                old(self).vals()[pv as int],
            ),
            final(self).key_seq() == old(self).key_seq().update(pv as int, old(self).key_at(r as int)).update(
                r as int,
                old(self).key_at(pv as int),
            ),
    {
        let ghost s0 = *self;
        let ghost len = o.vals().len() as int;
        let ghost aff0 = affected@;
        let next_value_idx = self.sections.value(sec).index_at_position(direction.target_position());
        proof {
            lemma_partitioned_order(s0.secs(), len);
            assert(s0.secs()[sec as int].1.holds(next_value_idx as int));
            assert(s0.meta_at(next_value_idx as int) == Some(s0.secs()[sec as int].0));
            assert(s0.meta_at(pv as int) == Some(s0.secs()[sec as int].0));
        }
        if !self.swap_values(pv, next_value_idx) {
            proof {
                assert(s0.vals().update(pv as int, s0.vals()[pv as int]).update(pv as int, s0.vals()[pv as int]) =~= s0.vals());
                assert(s0.key_seq().update(pv as int, s0.key_at(pv as int)).update(pv as int, s0.key_at(pv as int))
                    =~= s0.key_seq());
            }
            return pv;
        }
        proof {
            assert(self.key_seq() =~= s0.key_seq().update(pv as int, s0.key_at(next_value_idx as int)).update(
                next_value_idx as int,
                s0.key_at(pv as int),
            ));
        }
        let ghost p0 = o.pos_of(ks);
        proof {
            let nv = next_value_idx as int;
            // The target slot lies ahead of the value, where no changed position lies yet.
            assert(!aff0.contains(next_value_idx)) by {
                if aff0.contains(next_value_idx) {
                    let w = choose|w: int| 0 <= w < aff0.len() && aff0[w] == next_value_idx;
                    assert(aff0[w] != pv);
                }
            }
            assert(s0.key_at(nv) == o.key_at(nv));
            assert(o.key_to_idx().contains_key(o.key_at(nv)));
            assert(o.key_to_idx().contains_key(o.key_at(pv as int)));
            assert(o.key_at(nv) != o.key_at(pv as int));
            // The value has not started where the target slot is.
            assert(o.key_at(nv) != ks) by {
                assert(s0.key_to_idx().contains_key(s0.key_at(pv as int)));
                assert(o.key_to_idx().contains_key(ks));
                assert(0 <= p0 < len && o.key_at(p0) == ks);
                if aff0.len() == 0 {
                    assert(s0.key_at(pv as int) == o.key_at(pv as int));
                } else if p0 != pv {
                    assert(s0.key_to_idx().contains_key(s0.key_at(p0)));
                    assert(s0.pos_of(s0.key_at(p0)) == p0);
                    assert(s0.key_at(p0) != ks);
                    assert(s0.key_at(p0) != o.key_at(p0));
                    assert(aff0.contains(p0 as usize));
                }
            }
        }
        if affected.len() == 0 {
            affected.push(pv);
        }
        affected.push(next_value_idx);
        proof {
            let nv = next_value_idx as int;
            let kb = s0.key_at(nv);
            assert forall|e: int| 0 <= e < affected@.len() implies #[trigger] self.key_at(affected@[e] as int) != o.key_at(affected@[e] as int) by {
                if e < aff0.len() {
                    assert(affected@[e] == aff0[e]);
                    assert(s0.key_at(aff0[e] as int) != o.key_at(aff0[e] as int));
                }
            }
            assert(Self::behind(direction, nv, affected@)) by {
                assert forall|e: int| 0 <= e < affected@.len() && #[trigger] affected@[e] != nv implies (direction
                    == Direction::Right ==> affected@[e] < nv) && (direction == Direction::Left ==> affected@[e] > nv) by {
                    if e < aff0.len() {
                        assert(affected@[e] == aff0[e]);
                    }
                }
            }
            Self::lemma_swap_consistent(s0, *self, len);
            assert(s0.idx_to_key().contains_key(next_value_idx));
            assert(s0.key_to_idx().contains_key(kb));
            assert(kb != ks);
            assert(self.key_at(nv) == ks);
            assert(self.key_at(pv as int) == kb);
            assert(self.meta_at(nv) == s0.meta_at(nv));
            assert(self.meta_at(pv as int) == s0.meta_at(pv as int));
            assert(self.key_to_idx().dom() =~= o.key_to_idx().dom());
            assert forall|k: K| #[trigger] self.key_to_idx().contains_key(k) && k != ks implies self.key_to_idx()[k].0
                == o.key_to_idx()[k].0 && self.vals()[self.pos_of(k)] == o.vals()[o.pos_of(k)] by {
                assert(s0.key_to_idx().contains_key(k));
                let p = s0.pos_of(k);
                assert(s0.key_at(p) == k);
                if k == kb {
                    assert(self.key_to_idx().contains_key(self.key_at(pv as int)));
                    assert(self.pos_of(k) == pv);
                    assert(self.meta_at(pv as int) == s0.meta_at(pv as int));
                } else {
                    assert(p != pv && p != nv);
                    assert(self.key_at(p) == k);
                    assert(self.key_to_idx().contains_key(self.key_at(p)));
                    assert(self.pos_of(k) == p);
                    assert(self.meta_at(p) == s0.meta_at(p));
                }
            }
            assert forall|p: int| 0 <= p < self.vals().len() && #[trigger] self.key_at(p) != o.key_at(p) implies affected@.contains(
                p as usize,
            ) by {
                if p == nv {
                    assert(affected@.last() == next_value_idx);
                } else if p == pv {
                    if aff0.len() == 0 {
                        assert(affected@[0] == pv);
                    } else {
                        let w = choose|w: int| 0 <= w < aff0.len() && aff0[w] == pv;
                        assert(affected@[w] == pv);
                    }
                } else {
                    assert(self.key_at(p) == s0.key_at(p));
                    let w = choose|w: int| 0 <= w < aff0.len() && aff0[w] == p as usize;
                    assert(affected@[w] == p as usize);
                }
            }
            assert(affected@.last() == next_value_idx);
            assert(affected@.contains(next_value_idx));
        }
        next_value_idx
    }

    /// One step of a value's travel: into section `next` (unless `next` is where it starts),
    /// then, unless `next` is where it ends, to the slot of `next` from which it crosses on.
    fn travel_step(
        &mut self,
        direction: Direction,
        src: Option<usize>,
        dst: Option<usize>,
        prev_section: Option<usize>,
        next_section: Option<usize>,
        prev_value_idx: usize,
        affected: &mut Vec<usize>,
        Ghost(o): Ghost<Self>,
        Ghost(ks): Ghost<K>,
        Ghost(moved): Ghost<bool>,
    ) -> (r: usize)
        requires
            old(self).travelling(o, ks, src, dst, direction, prev_section, prev_value_idx as int, moved, old(affected)@),
            !moved ==> prev_section == src && next_section == src,
            moved ==> next_section != src && prev_section != dst && transfer_ok(
                old(self).secs(),
                direction,
                prev_section,
                next_section,
                prev_value_idx as int,
                o.vals().len() as int,
            ),
            old(self).ahead_intact(o, direction, prev_section),
        ensures
            final(self).travelling(o, ks, src, dst, direction, next_section, r as int, true, final(affected)@),
            final(self).ahead_intact(o, direction, next_section),
            r < o.vals().len(),
            next_section == dst || next_section is None ==> r == prev_value_idx,
            final(self).vals() == old(self).vals().update(prev_value_idx as int, old(self).vals()[r as int]).update(
                r as int,
                old(self).vals()[prev_value_idx as int],
            ),
            final(self).key_seq() == old(self).key_seq().update(prev_value_idx as int, old(self).key_at(r as int)).update(
                r as int,
                old(self).key_at(prev_value_idx as int),
            ),
    {
        let ghost s0 = *self;
        let ghost n = o.secs().len();
        if next_section != src {
            let ghost aff = affected@;
            self.enter_section(direction, src, prev_section, next_section, prev_value_idx, Ghost(o), Ghost(ks), Ghost(aff));
            proof {
                let pi = opt_idx(prev_section);
                let ni = opt_idx(next_section);
                assert(s0.secs().len() == n);
                if direction == Direction::Right {
                    assert(prev_section is Some);
                    assert(next_section is Some ==> ni == pi + 1);
                    assert forall|k: int| 0 <= k < n && next_section is Some && ni <= k implies #[trigger] self.secs()[k].1.spec_end()
                        == o.secs()[k].1.spec_end() by {
                        assert(self.secs()[k].1.spec_end() == transfer_bounds(s0.secs(), direction, pi, ni, k).1);
                        assert(k != pi);
                        assert(s0.secs()[k].1.spec_end() == o.secs()[k].1.spec_end());
                    }
                } else {
                    assert(next_section is Some);
                    assert(0 <= ni < n);
                    if prev_section is Some {
                        assert(pi == ni + 1);
                    }
                    assert forall|k: int| 0 <= k < n && (next_section is Some ==> k <= ni) implies #[trigger] self.secs()[k].1.spec_start()
                        == o.secs()[k].1.spec_start() by {
                        assert(self.secs()[k].1.spec_start() == transfer_bounds(s0.secs(), direction, pi, ni, k).0);
                        assert(k != pi);
                        assert(s0.secs()[k].1.spec_start() == o.secs()[k].1.spec_start());
                    }
                }
                assert(self.key_seq() =~= s0.key_seq());
            }
        }
        if next_section != dst {
            if let Some(next_section_idx) = next_section {
                return self.align_in_section(direction, src, next_section_idx, prev_value_idx, affected, Ghost(o), Ghost(ks));
            }
        }
        proof {
            let pv = prev_value_idx as int;
            assert(self.vals() =~= s0.vals().update(pv, s0.vals()[pv]).update(pv, s0.vals()[pv]));
            assert(self.key_seq() =~= s0.key_seq().update(pv, s0.key_at(pv)).update(pv, s0.key_at(pv)));
        }
        prev_value_idx
    }
    /// Moves the value at `key` from the section at the index of `src` to the section at index of `dst`.
    /// If `src` is None, the value at `key` is moved into `dst` from the end of the `values` vec.
    /// If `dst` is None, the value at `key` is moved from `src` to the end of the `values` vec,
    /// and then removed from the vec and returned (the key is removed from the maps as well).
    /// The value first swaps with the boundary slot of its section, then, at each section it enters,
    /// with that section's boundary slot, so that one swap is made per boundary crossed.
    /// Any changes to the underlying `values` vec is marked in the changed ranges, and section boundaries are updated as well.
    #[verifier::spinoff_prover]
    #[verifier::rlimit(80)]
    pub fn change_section(&mut self, src: Option<usize>, dst: Option<usize>, key: &K) -> (r: Option<V>)
        requires
            old(self).can_change_section(src, dst, *key),
        ensures
            src == dst ==> *final(self) == *old(self) && r is None,
            src != dst ==> {
                let o = *old(self);
                let f = *final(self);
                let removed = dst is None;
                &&& f.wf()
                &&& r == if removed { Some(o.vals()[o.pos_of(*key)]) } else { None }
                &&& f.vals().len() == o.vals().len() - (if removed { 1int } else { 0 })
                &&& f.section_map().index_map() == o.section_map().index_map()
                &&& f.secs().len() == o.secs().len()
                &&& forall|k: int| 0 <= k < f.secs().len() ==> #[trigger] f.secs()[k].0 == o.secs()[k].0
                &&& forall|k: int|
                    0 <= k < f.secs().len() ==> #[trigger] f.secs()[k].1.spec_count() == o.secs()[k].1.spec_count()
                        - (if k == opt_idx(src) { 1int } else { 0 }) + (if k == opt_idx(dst) { 1int } else { 0 })
                &&& f.key_to_idx().dom() == if removed {
                    o.key_to_idx().dom().remove(*key)
                } else {
                    o.key_to_idx().dom()
                }
                &&& forall|k: K|
                    #[trigger] f.key_to_idx().contains_key(k) && k != *key ==> f.key_to_idx()[k].0
                        == o.key_to_idx()[k].0 && f.vals()[f.pos_of(k)] == o.vals()[o.pos_of(k)]
                &&& dst matches Some(j) ==> f.key_to_idx()[*key].0 == Some(o.secs()[j as int].0)
                    && f.vals()[f.pos_of(*key)] == o.vals()[o.pos_of(*key)]
                &&& forall|p: int|
                    0 <= p < f.vals().len() && #[trigger] f.key_at(p) != o.key_at(p) ==> f.changed()@.contains(p)
                &&& f.changes_marked(o)
                &&& f.changed()@ == o.changed()@.union(f.moved_since(o, *key))
                &&& f.vals() == if removed {
                    swap_along(o.vals(), o.change_slots(src, dst, *key)).drop_last()
                } else {
                    swap_along(o.vals(), o.change_slots(src, dst, *key))
                }
                &&& forall|p: int|
                    0 <= p < f.vals().len() ==> #[trigger] f.key_at(p) == swap_along(o.key_seq(), o.change_slots(src, dst, *key))[p]
            },
    {
        let ghost o = *self;
        let ghost len = o.vals().len() as int;
        let nsections = self.sections.len();
        let ghost ks = *key;
        let (direction, touched_sections) = match Self::make_idx_path(src, dst, nsections) {
            Some((direction, sections)) => (direction, sections),
            None => {
                return None;
            },
        };
        let ghost a = Self::path_end(src, nsections);
        let ghost b = Self::path_end(dst, nsections);
        let mut prev_value_idx = self.value_key_to_idx.get(key).unwrap().1;
        let mut prev_section = src;
        let mut affected: Vec<usize> = Vec::new();
        let mut t: usize = 0;
        let ghost slots = o.change_slots(src, dst, ks);
        proof {
            assert(slots.take(1) =~= seq![o.pos_of(ks)]);
            assert(self.key_seq() =~= o.key_seq());

            assert(o.key_at(o.pos_of(ks)) == ks);
            if src is None {
                assert(o.meta_at(o.pos_of(ks)) == None::<S>);
            } else {
                o.lemma_locate(len, ks, src->0 as int);
            }
            assert(o.key_to_idx().dom() =~= o.key_to_idx().dom());
        }
        while t < touched_sections.len()
            invariant
                o.can_change_section(src, dst, ks),
                src != dst,
                len == o.vals().len(),
                nsections == o.secs().len(),
                a == Self::path_end(src, nsections),
                b == Self::path_end(dst, nsections),
                direction == Direction::between(a, b),
                touched_sections@.len() == (if a <= b { b - a } else { a - b }) + 1,
                forall|q: int| 0 <= q < touched_sections@.len() ==> #[trigger] touched_sections@[q] == Self::path_entry(
                    if a <= b { a + q } else { a - q },
                    nsections,
                ),
                t <= touched_sections@.len(),
                t == 0 ==> prev_section == src,
                t > 0 ==> prev_section == touched_sections@[t - 1],
                self.travelling(o, ks, src, dst, direction, prev_section, prev_value_idx as int, t > 0, affected@),
                self.ahead_intact(o, direction, prev_section),
                slots == o.change_slots(src, dst, ks),
                slots.len() == touched_sections@.len(),
                prev_value_idx == slots[if t < touched_sections@.len() { t as int } else { t - 1 }],
                self.vals() == swap_along(o.vals(), slots.take((if t < touched_sections@.len() { t as int } else { t - 1 }) + 1)),
                self.key_seq() == swap_along(o.key_seq(), slots.take((if t < touched_sections@.len() { t as int } else { t - 1 }) + 1)),
            decreases touched_sections@.len() - t,
        {
            let next_section = touched_sections[t];
            let ghost x: int = if a <= b { a + t } else { a - t };
            proof {
                assert(next_section == Self::path_entry(x, nsections));
                assert(dst == Self::path_entry(b, nsections));
                assert(src == Self::path_entry(a, nsections));
                if t > 0 {
                    let y: int = if a <= b { a + t - 1 } else { a - t + 1 };
                    assert(prev_section == Self::path_entry(y, nsections));
                    assert(prev_section != dst);
                    assert(next_section != src);
                    if direction == Direction::Right {
                        assert(opt_idx(prev_section) == y);
                    } else {
                        assert(opt_idx(next_section) == x);
                        if y < nsections {
                            assert(opt_idx(prev_section) == y);
                        }
                    }
                }
            }
            prev_value_idx = self.travel_step(
                direction,
                src,
                dst,
                prev_section,
                next_section,
                prev_value_idx,
                &mut affected,
                Ghost(o),
                Ghost(ks),
                Ghost(t > 0),
            );
            proof {
                let m = touched_sections@.len() - 1;
                let pv = slots[t as int];
                let r = prev_value_idx as int;
                if t < m {
                    // The value crossed on to the next boundary slot of its path.
                    if t == 0 {
                        if src is None {
                            assert(r == pv);
                            assert(a == nsections);
                            assert(slots[1] == len - 1);
                        } else {
                            let i = src->0 as int;
                            assert(next_section == src);
                            assert(next_section != dst);
                            assert(self.at_boundary(direction, i as usize, r));
                        }
                    } else {
                        assert(next_section != dst) by {
                            assert(dst == Self::path_entry(b, nsections));
                        }
                        if direction == Direction::Right {
                            assert(x < nsections);
                            assert(next_section == Some(x as usize));
                            assert(self.at_boundary(direction, x as usize, r));
                        } else {
                            assert(0 <= x < nsections);
                            assert(next_section == Some(x as usize));
                            assert(self.at_boundary(direction, x as usize, r));
                        }
                    }
                    assert(r == slots[t + 1]);
                    assert(slots.take(t + 2).drop_last() =~= slots.take(t + 1));
                } else {
                    assert(next_section == dst) by {
                        assert(dst == Self::path_entry(b, nsections));
                    }
                    assert(r == pv);
                    let sv = swap_along(o.vals(), slots.take(t + 1));
                    let sk = swap_along(o.key_seq(), slots.take(t + 1));
                    assert(sv.update(pv, sv[pv]).update(pv, sv[pv]) =~= sv);
                    assert(sk.update(pv, sk[pv]).update(pv, sk[pv]) =~= sk);
                }
            }
            prev_section = next_section;
            t = t + 1;
        }
        proof {
            assert(prev_section == Self::path_entry(b, nsections));
            assert(prev_section == dst);
            assert(slots.take(slots.len() as int) =~= slots);
            assert(self.vals() == swap_along(o.vals(), slots));
            assert(self.key_seq() == swap_along(o.key_seq(), slots));
        }
        let ghost laid = *self;
        // Append all changed indices to the changed index ranges.
        let ghost s_end = *self;
        let ghost cov = if dst is None { len - 1 } else { len };
        let mut e: usize = 0;
        while e < affected.len()
            invariant
                s_end.consistent(cov),
                self.consistent(cov),
                self.section_map() == s_end.section_map(),
                self.key_to_idx() == s_end.key_to_idx(),
                self.idx_to_key() == s_end.idx_to_key(),
                self.vals() == s_end.vals(),
                s_end.changed()@.subset_of(self.changed()@),
                forall|q: int| 0 <= q < affected@.len() ==> #[trigger] affected@[q] < len,
                len == s_end.vals().len(),
                e <= affected@.len(),
                forall|q: int| 0 <= q < e ==> self.changed()@.contains(#[trigger] affected@[q] as int),
                self.changed()@ == s_end.changed()@.union(
                    Set::new(|p: int| exists|q: int| 0 <= q < e && #[trigger] affected@[q] == p),
                ),
            decreases affected@.len() - e,
        {
            self.mark_changed(affected[e]);
            proof {
                Self::lemma_consistent_same(s_end, *self, cov);
                assert(self.changed()@ =~= s_end.changed()@.union(
                    Set::new(|p: int| exists|q: int| 0 <= q < e + 1 && #[trigger] affected@[q] == p),
                )) by {
                    assert forall|p: int| #![trigger self.changed()@.contains(p)]
                        self.changed()@.contains(p) <==> s_end.changed()@.union(
                            Set::new(|p: int| exists|q: int| 0 <= q < e + 1 && #[trigger] affected@[q] == p),
                        ).contains(p) by {
                        if p == affected@[e as int] {
                            assert(exists|q: int| 0 <= q < e + 1 && #[trigger] affected@[q] == p);
                        }
                    }
                }
            }
            e = e + 1;
        }
        proof {
            // The marked positions are exactly those whose key moved.
            assert(Set::new(|p: int| exists|q: int| 0 <= q < affected@.len() && #[trigger] affected@[q] == p) =~= Set::new(
                |p: int| 0 <= p < len && s_end.key_at(p) != o.key_at(p),
            )) by {
                assert forall|p: int| 0 <= p < len && s_end.key_at(p) != o.key_at(p) implies (exists|q: int|
                    0 <= q < affected@.len() && #[trigger] affected@[q] == p) by {
                    assert(affected@.contains(p as usize));
                    let q = choose|q: int| 0 <= q < affected@.len() && affected@[q] == p as usize;
                    assert(affected@[q] == p);
                }
                assert forall|p: int| (exists|q: int| 0 <= q < affected@.len() && #[trigger] affected@[q] == p) implies 0 <= p
                    < len && s_end.key_at(p) != o.key_at(p) by {
                    let q = choose|q: int| 0 <= q < affected@.len() && #[trigger] affected@[q] == p;
                    assert(s_end.key_at(affected@[q] as int) != o.key_at(affected@[q] as int));
                }
            }
        }
        proof {
            assert forall|p: int| 0 <= p < len && #[trigger] self.key_at(p) != o.key_at(p) implies self.changed()@.contains(p) by {
                assert(s_end.key_at(p) == self.key_at(p));
                assert(affected@.contains(p as usize));
                let q = choose|q: int| 0 <= q < affected@.len() && affected@[q] == p as usize;
                assert(self.changed()@.contains(affected@[q] as int));
            }
            assert(self.key_to_idx().contains_key(self.key_at(prev_value_idx as int)));
            assert(self.pos_of(ks) == prev_value_idx);
            assert forall|k: K| #[trigger] self.key_to_idx().contains_key(k) && k != ks implies self.key_to_idx()[k].0
                == o.key_to_idx()[k].0 && self.vals()[self.pos_of(k)] == o.vals()[o.pos_of(k)] by {
                assert(s_end.key_to_idx().contains_key(k));
            }
        }
        // If the destination is remove-from-sections, remove the value and return it.
        let ghost s_fin = *self;
        match dst {
            Some(_) => {
                proof {
                    assert(self.vals().len() == len);
                    assert(self.wf());
                    assert(self.key_to_idx().dom() == o.key_to_idx().dom());
                    assert(self.vals()[self.pos_of(ks)] == o.vals()[o.pos_of(ks)]);
                    Self::lemma_value_changes(o, *self, ks);
                    assert(self.moved_since(o, ks) =~= Set::new(|p: int| 0 <= p < len && s_end.key_at(p) != o.key_at(p)));
                    assert forall|p: int| 0 <= p < self.vals().len() implies #[trigger] self.key_at(p) == swap_along(
                        o.key_seq(),
                        slots,
                    )[p] by {
                        assert(laid.key_seq()[p] == laid.key_at(p));
                    }
                }
                None
            },
            None => {
                let value = self.remove_last_value(key);
                proof {
                    let last = len - 1;
                    assert(value == o.vals()[o.pos_of(ks)]);
                    assert(self.key_to_idx().dom() =~= o.key_to_idx().dom().remove(ks));
                    assert forall|p: int| 0 <= p < self.vals().len() && #[trigger] self.key_at(p) != o.key_at(p)
                        implies self.changed()@.contains(p) by {
                        assert(self.key_at(p) == s_fin.key_at(p));
                    }
                    assert forall|k: K| #[trigger] self.key_to_idx().contains_key(k) && k != ks implies self.key_to_idx()[k].0
                        == o.key_to_idx()[k].0 && self.vals()[self.pos_of(k)] == o.vals()[o.pos_of(k)] by {
                        assert(s_fin.key_to_idx().contains_key(k));
                        assert(self.pos_of(k) == s_fin.pos_of(k));
                        assert(s_fin.key_at(s_fin.pos_of(k)) == k);
                        assert(s_fin.pos_of(k) < last);
                    }
                    Self::lemma_value_changes(o, *self, ks);
                    assert(self.moved_since(o, ks) =~= Set::new(|p: int| 0 <= p < len && s_end.key_at(p) != o.key_at(p))) by {
                        assert forall|p: int| 0 <= p < last implies #[trigger] self.key_at(p) == s_end.key_at(p) by {
                            assert(self.key_at(p) == s_fin.key_at(p));
                        }
                        assert(s_end.key_at(last) == ks);
                    }
                    assert forall|p: int| 0 <= p < self.vals().len() implies #[trigger] self.key_at(p) == swap_along(
                        o.key_seq(),
                        slots,
                    )[p] by {
                        assert(self.key_at(p) == s_fin.key_at(p));
                        assert(laid.key_seq()[p] == laid.key_at(p));
                    }
                }
                Some(value)
            },
        }
    }

    /// Removes the last value of the buffer, which belongs to `key` and to no section.
    fn remove_last_value(&mut self, key: &K) -> (r: V)
        requires
            old(self).vals().len() >= 1,
            old(self).consistent(old(self).vals().len() - 1),
            old(self).key_to_idx().contains_key(*key),
            old(self).pos_of(*key) == old(self).vals().len() - 1,
        ensures
            final(self).wf(),
            r == old(self).vals().last(),
            final(self).vals() == old(self).vals().drop_last(),
            final(self).key_to_idx() == old(self).key_to_idx().remove(*key),
            final(self).idx_to_key() == old(self).idx_to_key().remove((old(self).vals().len() - 1) as usize),
            final(self).section_map() == old(self).section_map(),
            final(self).changed() == old(self).changed(),
    {
        let ghost s = *self;
        let ghost last = (s.vals().len() - 1) as int;
        let value_idx = self.value_key_to_idx.get(key).unwrap().1;
        let value = self.values.remove(value_idx);
        self.value_key_to_idx.remove(key);
        self.value_idx_to_key.remove(&value_idx);
        proof {
            assert(self.vals() =~= s.vals().drop_last());
            assert(s.key_at(last) == *key);
            assert forall|p: int| 0 <= p < last implies #[trigger] self.key_at(p) == s.key_at(p) && s.key_at(p) != *key by {
                assert(s.key_to_idx().contains_key(s.key_at(p)));
            }
            assert forall|p: usize| #[trigger] self.idx_to_key().contains_key(p) <==> p < self.vals().len() by {
                assert(s.idx_to_key().contains_key(p) <==> p < s.vals().len());
            }
            assert forall|p: int| 0 <= p < self.vals().len() implies #[trigger] self.key_to_idx().contains_key(self.key_at(p))
                && self.pos_of(self.key_at(p)) == p by {
                assert(self.key_at(p) == s.key_at(p) && s.key_at(p) != *key);
                assert(s.key_to_idx().contains_key(s.key_at(p)));
            }
            assert forall|k: K| #[trigger] self.key_to_idx().contains_key(k) implies 0 <= self.pos_of(k) < self.vals().len()
                && self.key_at(self.pos_of(k)) == k by {
                assert(s.key_to_idx().contains_key(k));
                assert(s.key_at(s.pos_of(k)) == k);
                assert(s.pos_of(k) != last);
                assert(self.key_at(s.pos_of(k)) == s.key_at(s.pos_of(k)));
            }
            assert forall|p: int| 0 <= p < self.vals().len() implies #[trigger] self.meta_at(p) == s.meta_at(p) by {
                assert(self.key_at(p) == s.key_at(p) && s.key_at(p) != *key);
            }
            lemma_partitioned_order(s.secs(), last);
            assert forall|i: int, p: int|
                #![trigger self.secs()[i], self.meta_at(p)]
                0 <= i < self.secs().len() && self.secs()[i].1.spec_start() <= p < self.secs()[i].1.spec_end()
                implies self.meta_at(p) == Some(self.secs()[i].0) by {
                assert(s.meta_at(p) == Some(s.secs()[i].0));
            }
        }
        value
    }
    /// Appending an empty section where the sections end keeps a structure consistent.
    pub proof fn lemma_new_section_consistent(a: Self, b: Self, covered: int)
        requires
            a.consistent(covered),
            b.section_map().wf(),
            b.secs().len() == a.secs().len() + 1,
            b.secs().drop_last() == a.secs(),
            b.secs().last().1.spec_start() == b.secs().last().1.spec_end(),
            b.secs().last().1.spec_start() == if a.secs().len() == 0 { 0 } else { a.secs().last().1.spec_end() as int },
            b.key_to_idx() == a.key_to_idx(),
            b.idx_to_key() == a.idx_to_key(),
            b.vals() == a.vals(),
            b.changed() == a.changed(),
        ensures
            b.consistent(covered),
    {
        let n = a.secs().len() as int;
        assert forall|i: int| 0 <= i < n implies #[trigger] b.secs()[i] == a.secs()[i] by {
            assert(b.secs().drop_last()[i] == b.secs()[i]);
        }
        assert forall|p: int| true implies #[trigger] b.key_at(p) == a.key_at(p) by {}
        assert forall|p: int| true implies #[trigger] b.meta_at(p) == a.meta_at(p) by {}
        assert forall|k: K| true implies #[trigger] b.pos_of(k) == a.pos_of(k) by {}
        assert(b.bijective());
        assert(b.changes_wf());
        assert(partitioned(b.secs(), covered)) by {
            assert forall|i: int| 0 < i < b.secs().len() implies #[trigger] b.secs()[i].1.spec_start() == b.secs()[i
                - 1].1.spec_end() by {
                if i < n {
                    assert(a.secs()[i].1.spec_start() == a.secs()[i - 1].1.spec_end());
                } else {
                    assert(a.secs().last() == a.secs()[n - 1]);
                }
            }
            assert forall|i: int| 0 <= i < b.secs().len() implies #[trigger] b.secs()[i].1.spec_start() <= b.secs()[i].1.spec_end() by {
                if i < n {
                    assert(a.secs()[i].1.spec_start() <= a.secs()[i].1.spec_end());
                }
            }
            if n > 0 {
                assert(b.secs()[0] == a.secs()[0]);
            }
        }
        assert forall|i: int, p: int|
            #![trigger b.secs()[i], b.meta_at(p)]
            0 <= i < b.secs().len() && b.secs()[i].1.spec_start() <= p < b.secs()[i].1.spec_end()
            implies b.meta_at(p) == Some(b.secs()[i].0) by {
            assert(i < n);
            assert(a.meta_at(p) == Some(a.secs()[i].0));
        }
    }

    /// The position of section `id` in a consistent structure, which gains it, empty, after
    /// the last section where it has none.
    fn section_index(&mut self, id: &S, Ghost(covered): Ghost<int>) -> (r: usize)
        requires
            old(self).consistent(covered),
        ensures
            final(self).consistent(covered),
            r < final(self).secs().len(),
            final(self).secs()[r as int].0 == *id,
            old(self).section_map().has_key(*id) ==> final(self).section_map() == old(self).section_map(),
            !old(self).section_map().has_key(*id) ==> {
                &&& final(self).secs().drop_last() == old(self).secs()
                &&& final(self).secs().len() == old(self).secs().len() + 1
                &&& final(self).secs().last().1.spec_count() == 0
                &&& final(self).section_map().index_map() == old(self).section_map().index_map().insert(*id, r)
            },
            final(self).key_to_idx() == old(self).key_to_idx(),
            final(self).idx_to_key() == old(self).idx_to_key(),
            final(self).vals() == old(self).vals(),
            final(self).changed() == old(self).changed(),
    {
        let ghost a = *self;
        proof {
            if a.secs().len() > 0 {
                assert(a.secs().last() == a.secs()[a.secs().len() - 1]);
            }
        }
        let r = self.get_or_insert_section(id);
        proof {
            if !a.section_map().has_key(*id) {
                assert(self.secs().drop_last() =~= a.secs());
                Self::lemma_new_section_consistent(a, *self, covered);
            } else {
                Self::lemma_consistent_same(a, *self, covered);
            }
        }
        r
    }

    /// Appends `value`, for `key`, at the end of the buffer in no section, marking its position changed.
    fn append_value(&mut self, key: &K, value: V)
        requires
            old(self).wf(),
            !old(self).key_to_idx().contains_key(*key),
            old(self).vals().len() + 1 < i32::MAX,
        ensures
            final(self).consistent(old(self).vals().len() as int),
            final(self).vals() == old(self).vals().push(value),
            final(self).key_to_idx() == old(self).key_to_idx().insert(*key, (None, old(self).vals().len() as usize)),
            final(self).idx_to_key() == old(self).idx_to_key().insert(old(self).vals().len() as usize, *key),
            final(self).section_map() == old(self).section_map(),
            final(self).changed()@ == old(self).changed()@.insert(old(self).vals().len() as int),
    {
        let ghost a = *self;
        let value_idx = self.values.len();
        self.value_key_to_idx.insert(clone_of(key), (None, value_idx));
        self.value_idx_to_key.insert(value_idx, clone_of(key));
        self.values.push(value);
        self.mark_changed(value_idx);
        proof {
            let l = value_idx as int;
            assert forall|p: int| 0 <= p < l implies #[trigger] self.key_at(p) == a.key_at(p) && a.key_at(p) != *key by {
                assert(a.key_to_idx().contains_key(a.key_at(p)));
            }
            assert(self.key_at(l) == *key);
            assert forall|p: usize| #[trigger] self.idx_to_key().contains_key(p) <==> p < self.vals().len() by {
                assert(a.idx_to_key().contains_key(p) <==> p < a.vals().len());
            }
            assert forall|p: int| 0 <= p < self.vals().len() implies #[trigger] self.key_to_idx().contains_key(self.key_at(p))
                && self.pos_of(self.key_at(p)) == p by {
                if p < l {
                    assert(a.key_to_idx().contains_key(a.key_at(p)));
                }
            }
            assert forall|k: K| #[trigger] self.key_to_idx().contains_key(k) implies 0 <= self.pos_of(k) < self.vals().len()
                && self.key_at(self.pos_of(k)) == k by {
                if k != *key {
                    assert(a.key_to_idx().contains_key(k));
                    assert(a.key_at(a.pos_of(k)) == k);
                }
            }
            assert forall|p: int| 0 <= p < l implies #[trigger] self.meta_at(p) == a.meta_at(p) by {
                assert(self.key_at(p) == a.key_at(p) && a.key_at(p) != *key);
            }
            assert(self.meta_at(l) == None::<S>);
            lemma_partitioned_order(a.secs(), l);
            assert forall|i: int, p: int|
                #![trigger self.secs()[i], self.meta_at(p)]
                0 <= i < self.secs().len() && self.secs()[i].1.spec_start() <= p < self.secs()[i].1.spec_end()
                implies self.meta_at(p) == Some(self.secs()[i].0) by {
                assert(a.meta_at(p) == Some(a.secs()[i].0));
            }
        }
    }

    /// Adds `value` for `key` to the section `section_id`, which is created, empty, after the
    /// last section where it does not exist yet. The values of the sections after it shift
    /// right by one slot each, their first value moving to the end of the section.
    #[verifier::spinoff_prover]
    pub fn insert(&mut self, section_id: &S, key: &K, value: V)
        requires
            old(self).wf(),
            !old(self)@.contains_key(*key),
            old(self).vals().len() + 1 < i32::MAX,
        ensures
            final(self).wf(),
            final(self)@ == old(self)@.insert(*key, (*section_id, value)),
            final(self).vals().len() == old(self).vals().len() + 1,
            final(self).section_ids() == if old(self).section_map().has_key(*section_id) {
                old(self).section_ids()
            } else {
                old(self).section_ids().push(*section_id)
            },
            forall|k: int|
                0 <= k < final(self).secs().len() ==> #[trigger] final(self).secs()[k].1.spec_count() == (if k < old(
                    self,
                ).secs().len() {
                    old(self).secs()[k].1.spec_count()
                } else {
                    0
                }) + (if final(self).secs()[k].0 == *section_id { 1int } else { 0 }),
            final(self).changes_marked(*old(self)),
            final(self).changed()@ == old(self).changed()@.union(final(self).moved_since(*old(self), *key)),
            final(self).vals() == swap_along(old(self).vals().push(value), old(self).insert_slots(*section_id)),
            forall|p: int|
                0 <= p < final(self).vals().len() ==> #[trigger] final(self).key_at(p) == swap_along(
                    old(self).key_seq().push(*key),
                    old(self).insert_slots(*section_id),
                )[p],
    {
        let ghost o = *self;
        let ghost l = o.vals().len() as int;
        let section_idx = self.section_index(section_id, Ghost(l));
        let ghost mid = *self;
        self.append_value(key, value);
        let ghost pre = *self;
        proof {
            assert(pre.key_at(l) == *key);
            assert(pre.secs()[section_idx as int].0 == *section_id);
        }
        self.change_section(None, Some(section_idx), key);
        proof {
            let f = *self;
            let n = o.secs().len() as int;
            assert(pre.vals() == o.vals().push(value));
            assert(pre.key_seq() =~= o.key_seq().push(*key)) by {
                assert forall|p: int| 0 <= p < l implies #[trigger] pre.key_at(p) == o.key_at(p) by {}
            }
            assert(mid.section_map().wf());
            assert(mid.section_map().index_map()[*section_id] == section_idx) by {
                assert(mid.section_map().index_map().contains_key(mid.secs()[section_idx as int].0));
            }
            if !o.section_map().has_key(*section_id) {
                assert(section_idx == n) by {
                    if section_idx < n {
                        assert(mid.secs().drop_last()[section_idx as int] == mid.secs()[section_idx as int]);
                        assert(o.secs()[section_idx as int].0 == *section_id);
                        assert(o.section_map().index_map().contains_key(o.secs()[section_idx as int].0));
                    }
                }
            } else {
                assert(mid.section_map() == o.section_map());
            }
            assert(pre.change_slots(None, Some(section_idx), *key) =~= o.insert_slots(*section_id)) by {
                if !o.section_map().has_key(*section_id) {
                    assert(pre.secs().len() == n + 1);
                }
            }
            assert forall|k: int| 0 <= k < mid.secs().len() && mid.secs()[k].0 == *section_id implies k == section_idx by {
                assert(mid.section_map().index_map().contains_key(mid.secs()[k].0));
                assert(mid.section_map().index_map().contains_key(mid.secs()[section_idx as int].0));
            }
            if !o.section_map().has_key(*section_id) {
                assert forall|k: int| 0 <= k < o.secs().len() implies #[trigger] mid.secs()[k] == o.secs()[k] by {
                    assert(mid.secs().drop_last()[k] == mid.secs()[k]);
                }
                assert(section_idx == o.secs().len()) by {
                    if section_idx < o.secs().len() {
                        assert(o.secs()[section_idx as int].0 == *section_id);
                        assert(o.section_map().index_map().contains_key(o.secs()[section_idx as int].0));
                    }
                }
                assert(f.section_ids() =~= o.section_ids().push(*section_id)) by {
                    assert forall|k: int| 0 <= k < f.secs().len() implies #[trigger] f.section_ids()[k] == o.section_ids().push(
                        *section_id,
                    )[k] by {
                        assert(f.secs()[k].0 == pre.secs()[k].0);
                    }
                }
            } else {
                assert(f.section_ids() =~= o.section_ids()) by {
                    assert forall|k: int| 0 <= k < f.secs().len() implies #[trigger] f.section_ids()[k] == o.section_ids()[k] by {
                        assert(f.secs()[k].0 == pre.secs()[k].0);
                    }
                }
            }
            assert forall|k: int| 0 <= k < f.secs().len() implies #[trigger] f.secs()[k].1.spec_count() == (if k < o.secs().len() {
                o.secs()[k].1.spec_count()
            } else {
                0
            }) + (if f.secs()[k].0 == *section_id { 1int } else { 0 }) by {
                assert(f.secs()[k].0 == pre.secs()[k].0);
                if k < o.secs().len() && !o.section_map().has_key(*section_id) {
                    assert(mid.secs().drop_last()[k] == mid.secs()[k]);
                }
                if k >= o.secs().len() {
                    assert(mid.secs().last() == mid.secs()[k]);
                }
            }
            assert(f@ =~= o@.insert(*key, (*section_id, value))) by {
                assert forall|k: K| #[trigger] f@.contains_key(k) <==> o@.insert(*key, (*section_id, value)).contains_key(k) by {}
                assert forall|k: K| #[trigger] f@.contains_key(k) implies f@[k] == o@.insert(*key, (*section_id, value))[k] by {
                    if k != *key {
                        assert(pre.key_to_idx().contains_key(k));
                        assert(o.key_to_idx().contains_key(k));
                        assert(o.pos_of(k) < l);
                    } else {
                        assert(pre.pos_of(*key) == l);
                    }
                }
            }
            assert(f.changes_marked(o)) by {
                assert forall|p: int| 0 <= p < f.vals().len() && (p >= o.vals().len() || f.vals()[p] != o.vals()[p])
                    implies #[trigger] f.changed()@.contains(p) by {
                    assert(pre.changed()@.contains(l));
                    if p < l {
                        assert(pre.vals()[p] == o.vals()[p]);
                    }
                }
            }
            assert(f.changed()@ =~= o.changed()@.union(f.moved_since(o, *key))) by {
                assert forall|p: int| 0 <= p < l implies #[trigger] pre.key_at(p) == o.key_at(p) by {}
                assert(f.moved_since(o, *key).contains(l));
            }
        }
    }
    /// In a well-formed structure, the value of each key lies in a section, and the key is
    /// recorded in that section.
    pub proof fn lemma_key_sectioned(&self, k: K) -> (j: int)
        requires
            self.wf(),
            self.key_to_idx().contains_key(k),
        ensures
            0 <= j < self.secs().len(),
            self.key_to_idx()[k].0 == Some(self.secs()[j].0),
            self.secs()[j].1.holds(self.pos_of(k)),
            self.section_map().index_map()[self.secs()[j].0] == j,
    {
        let p = self.pos_of(k);
        assert(self.key_at(p) == k);
        lemma_partitioned_covers(self.secs(), self.vals().len() as int, p);
        let j = choose|j: int| 0 <= j < self.secs().len() && #[trigger] self.secs()[j].1.holds(p);
        assert(self.meta_at(p) == Some(self.secs()[j].0));
        assert(self.section_map().index_map().contains_key(self.secs()[j].0));
        j
    }

    /// The section indices of a well-formed structure have distinct identifiers.
    pub proof fn lemma_section_ids_distinct(&self, i: int, j: int)
        requires
            self.section_map().wf(),
            0 <= i < self.secs().len(),
            0 <= j < self.secs().len(),
            self.secs()[i].0 == self.secs()[j].0,
        ensures
            i == j,
    {
        assert(self.section_map().index_map().contains_key(self.secs()[i].0));
        assert(self.section_map().index_map().contains_key(self.secs()[j].0));
    }

    /// Removes the value of `key` from its section, returning the section and the value.
    /// The value travels to the end of the buffer, each section after it shifting left by one
    /// slot, and the buffer shrinks by one.
    #[verifier::spinoff_prover]
    pub fn remove(&mut self, key: &K) -> (r: Option<(S, V)>)
        requires
            old(self).wf(),
        ensures
            final(self).wf(),
            r == if old(self)@.contains_key(*key) {
                Some(old(self)@[*key])
            } else {
                None
            },
            r is None ==> *final(self) == *old(self),
            r is Some ==> final(self).vals() == swap_along(old(self).vals(), old(self).remove_slots(*key)).drop_last(),
            r is Some ==> forall|p: int|
                0 <= p < final(self).vals().len() ==> #[trigger] final(self).key_at(p) == swap_along(
                    old(self).key_seq(),
                    old(self).remove_slots(*key),
                )[p],
            final(self)@ == old(self)@.remove(*key),
            final(self).vals().len() == old(self).vals().len() - (if r is Some { 1int } else { 0 }),
            final(self).section_ids() == old(self).section_ids(),
            forall|k: int|
                0 <= k < final(self).secs().len() ==> #[trigger] final(self).secs()[k].1.spec_count() == old(
                    self,
                ).secs()[k].1.spec_count() - (if r is Some && final(self).secs()[k].0 == old(self)@[*key].0 {
                    1int
                } else {
                    0
                }),
            final(self).changes_marked(*old(self)),
            final(self).changed()@ == old(self).changed()@.union(final(self).moved_since(*old(self), *key)),
    {
        let ghost o = *self;
        let ghost mut j: int = 0;
        proof {
            if o.key_to_idx().contains_key(*key) {
                j = o.lemma_key_sectioned(*key);
            }
        }
        let section_id = match self.get_value_section(key) {
            Some(section_id) => section_id,
            None => {
                proof {
                    assert(o.moved_since(o, *key) =~= Set::<int>::empty());
                    assert(o.changed()@.union(Set::<int>::empty()) =~= o.changed()@);
                }
                return None;
            },
        };
        let section_idx = self.sections.idx(&section_id);
        proof {
            assert(o.section_map().index_map().contains_key(o.secs()[j].0));
            assert(section_idx == Some(j as usize));
        }
        let value = self.change_section(section_idx, None, key);
        proof {
            let f = *self;
            assert(o.section_map().index_map()[o@[*key].0] == j);
            assert(o.change_slots(section_idx, None, *key) =~= o.remove_slots(*key));
            assert(f.section_ids() =~= o.section_ids()) by {
                assert forall|k: int| 0 <= k < f.secs().len() implies #[trigger] f.section_ids()[k] == o.section_ids()[k] by {
                    assert(f.secs()[k].0 == o.secs()[k].0);
                }
            }
            assert forall|k: int| 0 <= k < f.secs().len() implies #[trigger] f.secs()[k].1.spec_count() == o.secs()[k].1.spec_count()
                - (if f.secs()[k].0 == o@[*key].0 { 1int } else { 0 }) by {
                assert(f.secs()[k].0 == o.secs()[k].0);
                if o.secs()[k].0 == o.secs()[j].0 {
                    o.lemma_section_ids_distinct(k, j);
                }
            }
            assert(f@ =~= o@.remove(*key)) by {
                assert forall|k: K| #[trigger] f@.contains_key(k) implies f@[k] == o@[k] by {
                    assert(f.key_to_idx().contains_key(k));
                }
            }
        }
        match value {
            Some(v) => Some((section_id, v)),
            None => None,
        }
    }

    /// Moves the value of `key` to the section `new_section`, which is created, empty, after the
    /// last section where it does not exist yet; nothing happens where `key` has no value.
    #[verifier::spinoff_prover]
    pub fn swap(&mut self, key: &K, new_section: &S)
        requires
            old(self).wf(),
        ensures
            final(self).wf(),
            final(self)@ == if old(self)@.contains_key(*key) {
                old(self)@.insert(*key, (*new_section, old(self)@[*key].1))
            } else {
                old(self)@
            },
            !old(self)@.contains_key(*key) ==> *final(self) == *old(self),
            old(self)@.contains_key(*key) ==> final(self).vals() == swap_along(old(self).vals(), old(self).swap_slots(*key, *new_section)),
            old(self)@.contains_key(*key) ==> forall|p: int|
                0 <= p < final(self).vals().len() ==> #[trigger] final(self).key_at(p) == swap_along(
                    old(self).key_seq(),
                    old(self).swap_slots(*key, *new_section),
                )[p],
            final(self).vals().len() == old(self).vals().len(),
            final(self).section_ids() == if !old(self)@.contains_key(*key) || old(self).section_map().has_key(*new_section) {
                old(self).section_ids()
            } else {
                old(self).section_ids().push(*new_section)
            },
            forall|k: int|
                0 <= k < final(self).secs().len() ==> #[trigger] final(self).secs()[k].1.spec_count() == (if k < old(
                    self,
                ).secs().len() {
                    old(self).secs()[k].1.spec_count()
                } else {
                    0
                }) - (if old(self)@.contains_key(*key) && final(self).secs()[k].0 == old(self)@[*key].0 {
                    1int
                } else {
                    0
                }) + (if old(self)@.contains_key(*key) && final(self).secs()[k].0 == *new_section {
                    1int
                } else {
                    0
                }),
            final(self).changes_marked(*old(self)),
            final(self).changed()@ == old(self).changed()@.union(final(self).moved_since(*old(self), *key)),
    {
        let ghost o = *self;
        let ghost l = o.vals().len() as int;
        let ghost mut j: int = 0;
        proof {
            if o.key_to_idx().contains_key(*key) {
                j = o.lemma_key_sectioned(*key);
            }
        }
        let src_section_idx = match self.get_value_section(key) {
            Some(section_id) => self.sections.idx(&section_id),
            None => {
                proof {
                    assert(self.section_ids() =~= o.section_ids());
                    assert(o.moved_since(o, *key) =~= Set::<int>::empty());
                    assert(o.changed()@.union(Set::<int>::empty()) =~= o.changed()@);
                }
                return;
            },
        };
        proof {
            assert(o.section_map().index_map().contains_key(o.secs()[j].0));
            assert(src_section_idx == Some(j as usize));
        }
        let dst_idx = self.section_index(new_section, Ghost(l));
        let dst_section_idx = Some(dst_idx);
        let ghost mid = *self;
        proof {
            assert(mid.key_at(mid.pos_of(*key)) == *key);
            if !o.section_map().has_key(*new_section) {
                assert(mid.secs()[j] == o.secs()[j]) by {
                    assert(mid.secs().drop_last()[j] == mid.secs()[j]);
                }
            }
            if src_section_idx != dst_section_idx {
                assert(Self::path_end(src_section_idx, mid.secs().len() as usize) == j);
            }
        }
        self.change_section(src_section_idx, dst_section_idx, key);
        proof {
            let f = *self;
            let n = o.secs().len() as int;
            assert(o.section_map().index_map()[o@[*key].0] == j);
            assert(mid.section_map().index_map()[*new_section] == dst_idx) by {
                assert(mid.section_map().index_map().contains_key(mid.secs()[dst_idx as int].0));
            }
            if !o.section_map().has_key(*new_section) {
                assert(dst_idx == n) by {
                    if dst_idx < n {
                        assert(mid.secs().drop_last()[dst_idx as int] == mid.secs()[dst_idx as int]);
                        assert(o.secs()[dst_idx as int].0 == *new_section);
                        assert(o.section_map().index_map().contains_key(o.secs()[dst_idx as int].0));
                    }
                }
            } else {
                assert(mid.section_map() == o.section_map());
            }
            assert(mid.key_seq() =~= o.key_seq());
            if src_section_idx == dst_section_idx {
                assert(o.swap_slots(*key, *new_section).len() == 1);
                assert(f.vals() =~= swap_along(o.vals(), o.swap_slots(*key, *new_section)));
                assert forall|p: int| 0 <= p < f.vals().len() implies #[trigger] f.key_at(p) == swap_along(
                    o.key_seq(),
                    o.swap_slots(*key, *new_section),
                )[p] by {
                    assert(mid.key_seq()[p] == mid.key_at(p));
                }
            } else {
                assert(mid.change_slots(src_section_idx, dst_section_idx, *key) =~= o.swap_slots(*key, *new_section)) by {
                    assert forall|k: int| 0 <= k < n implies #[trigger] mid.secs()[k] == o.secs()[k] by {
                        if !o.section_map().has_key(*new_section) {
                            assert(mid.secs().drop_last()[k] == mid.secs()[k]);
                        }
                    }
                }
            }
            assert forall|k: int| 0 <= k < n implies #[trigger] mid.secs()[k] == o.secs()[k] by {
                if !o.section_map().has_key(*new_section) {
                    assert(mid.secs().drop_last()[k] == mid.secs()[k]);
                }
            }
            if !o.section_map().has_key(*new_section) {
                assert(dst_idx == n) by {
                    if dst_idx < n {
                        assert(o.section_map().index_map().contains_key(o.secs()[dst_idx as int].0));
                    }
                }
                assert(f.section_ids() =~= o.section_ids().push(*new_section)) by {
                    assert forall|k: int| 0 <= k < f.secs().len() implies #[trigger] f.section_ids()[k] == o.section_ids().push(
                        *new_section,
                    )[k] by {
                        assert(f.secs()[k].0 == mid.secs()[k].0);
                    }
                }
            } else {
                assert(f.section_ids() =~= o.section_ids()) by {
                    assert forall|k: int| 0 <= k < f.secs().len() implies #[trigger] f.section_ids()[k] == o.section_ids()[k] by {
                        assert(f.secs()[k].0 == mid.secs()[k].0);
                    }
                }
            }
            assert forall|k: int| 0 <= k < f.secs().len() implies #[trigger] f.secs()[k].1.spec_count() == (if k < n {
                o.secs()[k].1.spec_count()
            } else {
                0
            }) - (if f.secs()[k].0 == o@[*key].0 { 1int } else { 0 }) + (if f.secs()[k].0 == *new_section {
                1int
            } else {
                0
            }) by {
                assert(f.secs()[k].0 == mid.secs()[k].0);
                if mid.secs()[k].0 == mid.secs()[j].0 {
                    mid.lemma_section_ids_distinct(k, j);
                }
                if mid.secs()[k].0 == mid.secs()[dst_idx as int].0 {
                    mid.lemma_section_ids_distinct(k, dst_idx as int);
                }
                if k >= n {
                    assert(mid.secs().last() == mid.secs()[k]);
                }
            }
            assert(f.changed()@ =~= o.changed()@.union(f.moved_since(o, *key))) by {
                assert forall|p: int| true implies #[trigger] mid.key_at(p) == o.key_at(p) by {}
                if src_section_idx == dst_section_idx {
                    assert(f.moved_since(o, *key) =~= Set::<int>::empty());
                } else {
                    assert(f.moved_since(mid, *key) =~= f.moved_since(o, *key));
                }
            }
            assert(f@ =~= o@.insert(*key, (*new_section, o@[*key].1))) by {
                assert forall|k: K| #[trigger] f@.contains_key(k) implies f@[k] == o@.insert(*key, (*new_section, o@[*key].1))[k] by {
                    assert(f.key_to_idx().contains_key(k));
                }
            }
        }
    }
    /// Returns the positions changed since the last call, as sorted ranges that neither
    /// overlap nor touch, with their number of positions, or `None` where none changed;
    /// the changes are then forgotten. Also drops the empty sections.
    #[verifier::spinoff_prover]
    pub fn take_changed_ranges(&mut self) -> (r: Option<(Vec<Range<usize>>, usize)>)
        requires
            old(self).wf(),
        ensures
            final(self).wf(),
            final(self)@ == old(self)@,
            final(self).vals() == old(self).vals(),
            final(self).key_to_idx() == old(self).key_to_idx(),
            final(self).idx_to_key() == old(self).idx_to_key(),
            final(self).secs() == old(self).secs().filter(|e: (S, Section)| e.1.spec_start() != e.1.spec_end()),
            r is Some <==> old(self).changed()@ != Set::<int>::empty(),
            r matches Some((ranges, total)) ==> covered(ranges@) == old(self).changed()@ && canonical(ranges@) && total
                == old(self).changed()@.len(),
            final(self).changed()@ == Set::<int>::empty(),
    {
        let ghost o = *self;
        let ghost keep = |s: Section| s.spec_start() != s.spec_end();
        self.sections.retain(in_use, Ghost(keep));
        let ghost mid = *self;
        proof {
            let pred = |e: (S, Section)| e.1.spec_start() != e.1.spec_end();
            assert((|e: (S, Section)| keep(e.1)) =~= pred);
            assert(mid.secs() == o.secs().filter(pred));
            lemma_partitioned_filter(o.secs(), o.vals().len() as int);
            broadcast use Seq::lemma_filter_contains_rev;
            assert forall|p: int| true implies #[trigger] mid.meta_at(p) == o.meta_at(p) by {}
            assert forall|i: int, p: int|
                #![trigger mid.secs()[i], mid.meta_at(p)]
                0 <= i < mid.secs().len() && mid.secs()[i].1.spec_start() <= p < mid.secs()[i].1.spec_end()
                implies mid.meta_at(p) == Some(mid.secs()[i].0) by {
                assert(o.secs().filter(pred).contains(mid.secs()[i]));
                let j = choose|j: int| 0 <= j < o.secs().len() && o.secs()[j] == mid.secs()[i];
                assert(o.meta_at(p) == Some(o.secs()[j].0));
            }
            assert forall|p: int| true implies #[trigger] mid.key_at(p) == o.key_at(p) by {}
            assert forall|k: K| true implies #[trigger] mid.pos_of(k) == o.pos_of(k) by {}
            assert(mid.idx_to_key() == o.idx_to_key());
            assert(mid.key_to_idx() == o.key_to_idx());
            assert(mid.vals() == o.vals());
            assert(mid.bijective());
            assert(mid@ =~= o@);
        }
        if self.changed_ranges.is_empty() {
            return None;
        }
        let taken = self.changed_ranges.take();
        proof {
            assert(self.changed()@ =~= Set::<int>::empty());
            assert(self.changed().wf());
            assert(canonical(self.changed().spec_ranges()));
            assert(self.changes_wf());
            assert(mid.wf());
            Self::lemma_consistent_same(mid, *self, mid.vals().len() as int);
            assert forall|p: int| true implies #[trigger] self.key_at(p) == mid.key_at(p) by {}
            assert forall|p: int| true implies #[trigger] self.meta_at(p) == mid.meta_at(p) by {}
            assert forall|k: K| true implies #[trigger] self.pos_of(k) == mid.pos_of(k) by {}
            assert(self@ =~= mid@);
        }
        Some(taken)
    }
    /// The layout of the buffer: the sections tile it in order, each value lies in the range
    /// of its own section, and each position of a section holds the value of a key of that section.
    pub proof fn lemma_layout(&self)
        requires
            self.wf(),
        ensures
            partitioned(self.secs(), self.vals().len() as int),
            forall|k: K| #[trigger]
                self@.contains_key(k) ==> self.section_ranges().contains_key(self@[k].0)
                    && self.section_ranges()[self@[k].0].start <= self.pos_of(k) < self.section_ranges()[self@[k].0].end
                    && self.vals()[self.pos_of(k)] == self@[k].1,
            forall|i: int, p: int|
                #![trigger self.secs()[i], self.key_at(p)]
                0 <= i < self.secs().len() && self.secs()[i].1.spec_start() <= p < self.secs()[i].1.spec_end()
                    ==> self@.contains_key(self.key_at(p)) && self@[self.key_at(p)].0 == self.secs()[i].0 && self.pos_of(
                    self.key_at(p),
                ) == p,
    {
        assert forall|k: K| #[trigger]
            self@.contains_key(k) implies self.section_ranges().contains_key(self@[k].0)
                && self.section_ranges()[self@[k].0].start <= self.pos_of(k) < self.section_ranges()[self@[k].0].end
                && self.vals()[self.pos_of(k)] == self@[k].1 by {
            let j = self.lemma_key_sectioned(k);
        }
        assert forall|i: int, p: int|
            #![trigger self.secs()[i], self.key_at(p)]
            0 <= i < self.secs().len() && self.secs()[i].1.spec_start() <= p < self.secs()[i].1.spec_end()
                implies self@.contains_key(self.key_at(p)) && self@[self.key_at(p)].0 == self.secs()[i].0 && self.pos_of(
                self.key_at(p),
            ) == p by {
            lemma_partitioned_order(self.secs(), self.vals().len() as int);
            assert(self.meta_at(p) == Some(self.secs()[i].0));
        }
    }
    /// Each section spans exactly as many positions as it has keys.
    pub proof fn lemma_section_counts(&self, i: int)
        requires
            self.wf(),
            0 <= i < self.secs().len(),
        ensures
            self@.dom().filter(|k: K| self@[k].0 == self.secs()[i].0).len() == self.secs()[i].1.spec_count(),
    {
        let sec = self.secs()[i].1;
        let id = self.secs()[i].0;
        let positions = vstd::set_lib::set_int_range(sec.spec_start() as int, sec.spec_end() as int);
        let keys = self@.dom().filter(|k: K| self@[k].0 == id);
        let f = |p: int| self.key_at(p);
        self.lemma_layout();
        lemma_partitioned_order(self.secs(), self.vals().len() as int);
        vstd::set_lib::lemma_int_range(sec.spec_start() as int, sec.spec_end() as int);
        assert(vstd::relations::injective_on(f, positions)) by {
            assert forall|a: int, b: int| positions.contains(a) && positions.contains(b) && #[trigger] f(a) == #[trigger] f(b)
                implies a == b by {
                assert(self.secs()[i] == self.secs()[i]);
                assert(self.pos_of(self.key_at(a)) == a);
                assert(self.pos_of(self.key_at(b)) == b);
            }
        }
        assert(positions.map(f) =~= keys) by {
            assert forall|k: K| #[trigger] keys.contains(k) implies positions.map(f).contains(k) by {
                let p = self.pos_of(k);
                let j = self.lemma_key_sectioned(k);
                assert(self.section_map().index_map().contains_key(self.secs()[i].0));
                assert(j == i);
                assert(self.key_at(p) == k);
                assert(positions.contains(p) && f(p) == k);
            }
            assert forall|k: K| positions.map(f).contains(k) implies #[trigger] keys.contains(k) by {
                let p = choose|p: int| positions.contains(p) && k == f(p);
                assert(self.secs()[i] == self.secs()[i]);
                assert(self@.contains_key(self.key_at(p)));
            }
        }
        vstd::set_lib::lemma_map_size(positions, keys, f);
    }

    /// The keys of section `i`, in the order their values stand in the buffer.
    pub open spec fn section_keys(&self, i: int) -> Seq<K> {
        let sec = self.secs()[i].1;
        Seq::new(sec.spec_count() as nat, |j: int| self.key_at(sec.spec_start() + j))
    }

    /// The values of a section are the values of the keys in that section, each once: the
    /// section's part of the buffer lists the section's keys without repeats, and for every
    /// value it holds that value as many times as the section has keys with that value.
    pub proof fn lemma_section_values(&self, id: S)
        requires
            self.wf(),
            self.section_ranges().contains_key(id),
        ensures
            ({
                let i = self.section_map().index_map()[id] as int;
                let range = self.section_ranges()[id];
                let part = self.vals().subrange(range.start as int, range.end as int);
                &&& 0 <= i < self.secs().len() && self.secs()[i].0 == id
                &&& self.section_keys(i).no_duplicates()
                &&& self.section_keys(i).to_set() == self@.dom().filter(|k: K| self@[k].0 == id)
                &&& part == self.section_keys(i).map_values(|k: K| self@[k].1)
                &&& forall|v: V| #[trigger] part.to_multiset().count(v)
                    == self@.dom().filter(|k: K| self@[k] == (id, v)).len()
            }),
    {
        let i = self.section_map().index_map()[id] as int;
        let sec = self.secs()[i].1;
        let range = self.section_ranges()[id];
        let part = self.vals().subrange(range.start as int, range.end as int);
        let ks = self.section_keys(i);
        let g = |k: K| self@[k].1;
        self.lemma_layout();
        lemma_partitioned_order(self.secs(), self.vals().len() as int);
        assert(0 <= i < self.secs().len() && self.secs()[i].0 == id);
        assert(ks.no_duplicates()) by {
            assert forall|a: int, b: int| 0 <= a < ks.len() && 0 <= b < ks.len() && a != b
                implies ks[a] != ks[b] by {
                assert(self.secs()[i] == self.secs()[i]);
                assert(self.pos_of(self.key_at(sec.spec_start() + a)) == sec.spec_start() + a);
                assert(self.pos_of(self.key_at(sec.spec_start() + b)) == sec.spec_start() + b);
            }
        }
        assert(ks.to_set() =~= self@.dom().filter(|k: K| self@[k].0 == id)) by {
            assert forall|k: K| #[trigger] ks.to_set().contains(k) implies self@.dom().filter(
                |k: K| self@[k].0 == id,
            ).contains(k) by {
                let j = choose|j: int| 0 <= j < ks.len() && ks[j] == k;
                assert(self.secs()[i] == self.secs()[i]);
                assert(self@.contains_key(self.key_at(sec.spec_start() + j)));
            }
            assert forall|k: K| self@.dom().filter(|k: K| self@[k].0 == id).contains(k) implies #[trigger] ks.to_set().contains(
                k,
            ) by {
                let p = self.pos_of(k);
                let j = self.lemma_key_sectioned(k);
                assert(self.section_map().index_map().contains_key(self.secs()[i].0));
                assert(j == i);
                assert(self.key_at(p) == k);
                assert(ks[p - sec.spec_start()] == k);
            }
        }
        assert(part =~= ks.map_values(g)) by {
            assert forall|j: int| 0 <= j < part.len() implies part[j] == #[trigger] ks.map_values(g)[j] by {
                assert(self.secs()[i] == self.secs()[i]);
                assert(self@.contains_key(self.key_at(sec.spec_start() + j)));
                assert(self.pos_of(self.key_at(sec.spec_start() + j)) == sec.spec_start() + j);
            }
        }
        assert forall|v: V| #[trigger] part.to_multiset().count(v)
            == self@.dom().filter(|k: K| self@[k] == (id, v)).len() by {
            lemma_mapped_count(ks, g, v);
            assert(ks.to_set().filter(|k: K| g(k) == v) =~= self@.dom().filter(|k: K| self@[k] == (id, v)));
        }
    }

    /// The number of keys held equals the length of the value buffer, and the sum of the
    /// lengths of the sections: the buffer holds one value per key and nothing else.
    pub proof fn lemma_one_slot_per_key(&self)
        requires
            self.wf(),
        ensures
            self@.dom().finite(),
            self@.len() == self.vals().len(),
            sections_total(self.secs()) == self.vals().len(),
    {
        lemma_partitioned_total(self.secs(), self.vals().len() as int);
        let n = self.vals().len() as int;
        let positions = vstd::set_lib::set_int_range(0, n);
        let f = |p: int| self.key_at(p);
        vstd::set_lib::lemma_int_range(0, n);
        assert(vstd::relations::injective_on(f, positions)) by {
            assert forall|a: int, b: int| positions.contains(a) && positions.contains(b) && #[trigger] f(a) == #[trigger] f(b)
                implies a == b by {
                assert(0 <= a < n && 0 <= b < n);
                assert(self.key_to_idx().contains_key(self.key_at(a)));
                assert(self.key_to_idx().contains_key(self.key_at(b)));
            }
        }
        assert(positions.map(f) =~= self@.dom()) by {
            assert forall|k: K| #[trigger] self@.dom().contains(k) implies positions.map(f).contains(k) by {
                let p = self.pos_of(k);
                assert(positions.contains(p) && f(p) == k);
            }
            assert forall|k: K| positions.map(f).contains(k) implies #[trigger] self@.dom().contains(k) by {
                let p = choose|p: int| positions.contains(p) && k == f(p);
                assert(self.key_to_idx().contains_key(self.key_at(p)));
            }
        }
        vstd::set_lib::lemma_map_size(positions, self@.dom(), f);
    }
}

/// In a sequence without repeats, a value occurs among the images of the items once for each
/// item that maps to it.
proof fn lemma_mapped_count<A, B>(ks: Seq<A>, g: spec_fn(A) -> B, v: B)
    requires
        ks.no_duplicates(),
    ensures
        ks.map_values(g).to_multiset().count(v) == ks.to_set().filter(|k: A| g(k) == v).len(),
    decreases ks.len(),
{
    broadcast use vstd::seq_lib::group_to_multiset_ensures;
    broadcast use vstd::multiset::group_multiset_axioms;
    if ks.len() == 0 {
        assert(ks.map_values(g).len() == 0);
        vstd::multiset::lemma_multiset_empty_len(ks.map_values(g).to_multiset());
        assert(ks.to_set().filter(|k: A| g(k) == v) =~= Set::<A>::empty());
    } else {
        let init = ks.drop_last();
        let x = ks.last();
        lemma_mapped_count(init, g, v);
        assert(ks.map_values(g) =~= init.map_values(g).push(g(x)));
        assert(ks =~= init.push(x));
        assert(ks.to_set() =~= init.to_set().insert(x)) by {
            assert forall|k: A| #[trigger] ks.contains(k) implies init.contains(k) || k == x by {
                let j = choose|j: int| 0 <= j < ks.len() && ks[j] == k;
                if j < init.len() {
                    assert(init[j] == k);
                }
            }
            assert forall|k: A| #[trigger] init.contains(k) implies ks.contains(k) by {
                let j = choose|j: int| 0 <= j < init.len() && init[j] == k;
                assert(ks[j] == k);
            }
            assert(ks[ks.len() - 1] == x);
        }
        assert(!init.to_set().contains(x));
        vstd::seq_lib::seq_to_set_is_finite(init);
        let fi = init.to_set().filter(|k: A| g(k) == v);
        let fk = ks.to_set().filter(|k: A| g(k) == v);
        if g(x) == v {
            assert(fk =~= fi.insert(x));
        } else {
            assert(fk =~= fi);
        }
    }
}

/// Removing a key just inserted gives back the value it was inserted with, in its section, and
/// the contents as they were.
pub proof fn lemma_remove_undoes_insert<K, S, V>(contents: Map<K, (S, V)>, key: K, section: S, value: V)
    requires
        !contents.contains_key(key),
    ensures
        contents.insert(key, (section, value))[key] == (section, value),
        contents.insert(key, (section, value)).remove(key) == contents,
{
    assert(contents.insert(key, (section, value)).remove(key) =~= contents);
}

} // verus!
