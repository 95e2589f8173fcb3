pub mod handle;
pub mod instigator;
pub mod relevancy;

use crate::common::utility::multi_hash_map::{set_of, MultiSet};
use crate::common::utility::{clone_of, keys_of};
use crate::common::world::point::Point3;
use crate::entity::component::chunk::relevancy::Relevancy;
use handle::{chunk_after, entity_after, world_updates_sent, Handle};
use instigator::{EntityOperation, UpdatedEntity};
use relevancy::{areas_tested_fit, Area, AxisAlignedBoundingBox, PairedRelevance, Relevance, Update, WorldUpdate};
use std::collections::{HashMap, HashSet};
use std::hash::Hash;
use vstd::prelude::*;
use vstd::std_specs::hash::group_hash_axioms;

verus! {

broadcast use group_hash_axioms;

/// The record of which addresses each entity is relevant to, after each operation of `ops` in turn.
pub open spec fn record_all<E, A>(relevant: Map<E, Set<A>>, ops: Seq<(EntityOperation, A, E)>) -> Map<E, Set<A>>
    decreases ops.len(),
{
    if ops.len() == 0 {
        relevant
    } else {
        let t = ops.last();
        t.0.spec_record(record_all(relevant, ops.drop_last()), t.2, t.1)
    }
}

/// Whether `relevant` records entity `e` as relevant to address `a`.
pub open spec fn records<E, A>(relevant: Map<E, Set<A>>, e: E, a: A) -> bool {
    set_of(relevant, e).contains(a)
}

/// Recording an operation on `e` for `a` decides whether `e` is relevant to `a` where it is
/// `Relevant` or `Irrelevant`, and leaves every other entity and address as it was.
#[verifier::spinoff_prover]
pub proof fn lemma_record_records<E, A>(op: EntityOperation, m: Map<E, Set<A>>, e: E, a: A, e2: E, a2: A)
    ensures
        records(op.spec_record(m, e, a), e2, a2) == if e2 == e && a2 == a {
            match op {
                EntityOperation::Relevant => true,
                EntityOperation::Irrelevant => false,
                _ => records(m, e2, a2),
            }
        } else {
            records(m, e2, a2)
        },
{
    let r = op.spec_record(m, e, a);
    match op {
        EntityOperation::Relevant => {
            assert(r == m.insert(e, set_of(m, e).insert(a)));
            assert(set_of(r, e) == set_of(m, e).insert(a));
            if e2 != e {
                assert(set_of(r, e2) == set_of(m, e2));
            }
        },
        EntityOperation::Irrelevant => {
            if !set_of(m, e).contains(a) {
                assert(r == m);
            } else if m[e].remove(a).is_empty() {
                assert(r == m.remove(e));
                assert(!m[e].remove(a).contains(a2));
                if e2 != e {
                    assert(set_of(r, e2) == set_of(m, e2));
                }
            } else {
                assert(r == m.insert(e, m[e].remove(a)));
                if e2 != e {
                    assert(set_of(r, e2) == set_of(m, e2));
                }
            }
        },
        _ => {},
    }
}

/// The operations of `ops` for address `a`, each with its entity, in order.
pub open spec fn ops_for<E, A>(ops: Seq<(EntityOperation, A, E)>, a: A) -> Seq<(EntityOperation, E)> {
    ops.filter(|t: (EntityOperation, A, E)| t.1 == a).map_values(|t: (EntityOperation, A, E)| (t.0, t.2))
}

/// Whether some operation of `ops` is for address `a`.
pub open spec fn has_op_for<E, A>(ops: Seq<(EntityOperation, A, E)>, a: A) -> bool {
    exists|k: int| 0 <= k < ops.len() && #[trigger] ops[k].1 == a
}

/// Whether some operation of `ops` is on entity `e`.
pub open spec fn has_op_on<E, A>(ops: Seq<(EntityOperation, A, E)>, e: E) -> bool {
    exists|k: int| 0 <= k < ops.len() && #[trigger] ops[k].2 == e
}

/// Operations on entities, each for the address of a connection, in the order they were gathered.
pub struct OperationGroup<E, A> {
    ops: Vec<(EntityOperation, A, E)>,
}

impl<E, A> OperationGroup<E, A> {
    pub closed spec fn spec_ops(&self) -> Seq<(EntityOperation, A, E)> {
        self.ops@
    }

    pub fn new() -> (r: Self)
        ensures
            r.spec_ops() == Seq::<(EntityOperation, A, E)>::empty(),
    {
        OperationGroup { ops: Vec::new() }
    }

    /// Adds `operation` on `entity` for `address`.
    pub fn insert(&mut self, operation: EntityOperation, address: A, entity: E)
        ensures
            final(self).spec_ops() == old(self).spec_ops().push((operation, address, entity)),
    {
        self.ops.push((operation, address, entity));
    }

    pub fn operations(&self) -> (r: &Vec<(EntityOperation, A, E)>)
        ensures
            r@ == self.spec_ops(),
    {
        &self.ops
    }
}

impl<E: Hash + Eq + Clone, A: Hash + Eq + Clone> OperationGroup<E, A> {
    /// The operations for each address, each with its entity, in the order they were gathered.
    pub fn by_address(&self) -> (r: HashMap<A, Vec<(EntityOperation, E)>>)
        requires
            MultiSet::<E, A>::usable(),
        ensures
            forall|a: A| #[trigger] r@.contains_key(a) <==> has_op_for(self.spec_ops(), a),
            forall|a: A| #[trigger] r@.contains_key(a) ==> r@[a]@ == ops_for(self.spec_ops(), a),
    {
        let ghost ops = self.spec_ops();
        let mut grouped: HashMap<A, Vec<(EntityOperation, E)>> = HashMap::new();
        for i in 0..self.ops.len()
            invariant
                MultiSet::<E, A>::usable(),
                ops == self.spec_ops(),
                forall|a: A| #[trigger] grouped@.contains_key(a) <==> has_op_for(ops.take(i as int), a),
                forall|a: A| #[trigger] grouped@.contains_key(a) ==> grouped@[a]@ == ops_for(ops.take(i as int), a),
        {
            let (operation, address, entity) = &self.ops[i];
            let ghost t = ops[i as int];
            let mut list = match grouped.remove(address) {
                Some(list) => list,
                None => Vec::new(),
            };
            list.push((*operation, clone_of(entity)));
            grouped.insert(clone_of(address), list);
            proof {
                let p = |x: (EntityOperation, A, E)| x.1 == *address;
                let q = |x: (EntityOperation, A, E)| (x.0, x.2);
                let before = ops.take(i as int);
                assert(ops.take(i + 1) =~= before.push(t));
                assert forall|a: A| #[trigger] has_op_for(ops.take(i + 1), a) <==> (has_op_for(before, a) || a == *address) by {
                    if has_op_for(ops.take(i + 1), a) {
                        let k = choose|k: int| 0 <= k < ops.take(i + 1).len() && #[trigger] ops.take(i + 1)[k].1 == a;
                        if k < i {
                            assert(before[k].1 == a);
                        }
                    }
                    if has_op_for(before, a) {
                        let k = choose|k: int| 0 <= k < before.len() && #[trigger] before[k].1 == a;
                        assert(ops.take(i + 1)[k].1 == a);
                    }
                    if a == *address {
                        assert(ops.take(i + 1)[i as int].1 == a);
                    }
                }
                assert forall|a: A| #[trigger] grouped@.contains_key(a) implies grouped@[a]@ == ops_for(ops.take(i + 1), a) by {
                    let f = |x: (EntityOperation, A, E)| x.1 == a;
                    before.lemma_filter_push(t, f);
                    if a == *address {
                        assert(before.filter(f).push(t).map_values(q) =~= before.filter(f).map_values(q).push(q(t)));
                        if !has_op_for(before, a) {
                            assert(before.filter(f) =~= Seq::<(EntityOperation, A, E)>::empty()) by {
                                before.filter_lemma(f);
                                if before.filter(f).len() > 0 {
                                    let x = before.filter(f)[0];
                                    assert(f(x));
                                    assert(before.filter(f).contains(x));
                                    before.lemma_filter_contains_rev(f, x);
                                    let k = choose|k: int| 0 <= k < before.len() && before[k] == x;
                                    assert(before[k].1 == a);
                                }
                            }
                        }
                    }
                }
            }
        }
        proof {
            assert(ops.take(ops.len() as int) =~= ops);
        }
        grouped
    }

    /// The entities the operations are on, each once.
    pub fn entities(&self) -> (r: HashSet<E>)
        requires
            MultiSet::<E, A>::usable(),
        ensures
            forall|e: E| #[trigger] r@.contains(e) <==> has_op_on(self.spec_ops(), e),
    {
        let ghost ops = self.spec_ops();
        let mut entities: HashSet<E> = HashSet::new();
        for i in 0..self.ops.len()
            invariant
                MultiSet::<E, A>::usable(),
                ops == self.spec_ops(),
                forall|e: E| #[trigger] entities@.contains(e) <==> has_op_on(ops.take(i as int), e),
        {
            entities.insert(clone_of(&self.ops[i].2));
            proof {
                assert forall|e: E| #[trigger] entities@.contains(e) <==> has_op_on(ops.take(i + 1), e) by {
                    if has_op_on(ops.take(i + 1), e) {
                        let k = choose|k: int| 0 <= k < ops.take(i + 1).len() && #[trigger] ops.take(i + 1)[k].2 == e;
                        if k < i {
                            assert(ops.take(i as int)[k].2 == e);
                        }
                    }
                    if has_op_on(ops.take(i as int), e) {
                        let k = choose|k: int| 0 <= k < ops.take(i as int).len() && #[trigger] ops.take(i as int)[k].2 == e;
                        assert(ops.take(i + 1)[k].2 == e);
                    }
                    if e == ops[i as int].2 {
                        assert(ops.take(i + 1)[i as int].2 == e);
                    }
                }
            }
        }
        proof {
            assert(ops.take(ops.len() as int) =~= ops);
        }
        entities
    }

    /// Records in `relevant` what each operation, in turn, changes of which addresses each
    /// entity is relevant to.
    pub fn record(&self, relevant: &mut MultiSet<E, A>)
        requires
            MultiSet::<E, A>::usable(),
        ensures
            final(relevant)@ == record_all(old(relevant)@, self.spec_ops()),
    {
        for i in 0..self.ops.len()
            invariant
                MultiSet::<E, A>::usable(),
                relevant@ == record_all(old(relevant)@, self.spec_ops().take(i as int)),
        {
            let (operation, address, entity) = &self.ops[i];
            operation.record(relevant, entity, clone_of(address));
            proof {
                assert(self.spec_ops().take(i + 1).drop_last() =~= self.spec_ops().take(i as int));
            }
        }
        proof {
            assert(self.spec_ops().take(self.spec_ops().len() as int) =~= self.spec_ops());
        }
    }
}

/// Whether entity update `u` was relevant to a connection whose entity relevance was `old`.
pub open spec fn was_relevant<E>(u: UpdatedEntity<E>, old: Relevance) -> bool {
    match u.old_chunk {
        Some(c) => old.holds(c),
        None => false,
    }
}

/// Whether entity update `u` is relevant to address `a` by the entity relevance gathered for it.
pub open spec fn now_relevant<E, A>(u: UpdatedEntity<E>, relevance: Map<A, PairedRelevance>, a: A) -> bool {
    relevance.contains_key(a) && relevance[a].entity.holds(u.new_chunk)
}

/// An update was relevant to a connection exactly where the entity had a chunk before and some
/// area, whichever, of the entity relevance the connection had holds that chunk.
pub proof fn lemma_was_relevant_any_area<E>(u: UpdatedEntity<E>, old: Relevance)
    ensures
        was_relevant(u, old) == (u.old_chunk matches Some(c) && exists|i: int|
            0 <= i < old.spec_areas().len() && #[trigger] old.spec_areas()[i].holds(c)),
{
}

/// An update is relevant to a connection now exactly where the connection has gathered an
/// entity relevance and some area of it, whichever, holds the update's new chunk.
pub proof fn lemma_now_relevant_any_area<E, A>(u: UpdatedEntity<E>, relevance: Map<A, PairedRelevance>, a: A)
    ensures
        now_relevant(u, relevance, a) == (relevance.contains_key(a) && exists|i: int|
            0 <= i < relevance[a].entity.spec_areas().len() && #[trigger] relevance[a].entity.spec_areas()[i].holds(
                u.new_chunk,
            )),
{
}

/// The operation, if any, that update `u` makes for connection `h`, an address and the entity
/// relevance it had.
pub open spec fn diff_op<E, A>(u: UpdatedEntity<E>, h: (A, Relevance), relevance: Map<A, PairedRelevance>) -> Seq<(EntityOperation, A, E)> {
    match EntityOperation::spec_from_relevance(was_relevant(u, h.1), now_relevant(u, relevance, h.0)) {
        Some(op) => seq![(op, h.0, u.entity)],
        None => Seq::empty(),
    }
}

/// The operations update `u` makes for each connection of `hs`, in turn.
pub open spec fn row_ops<E, A>(u: UpdatedEntity<E>, hs: Seq<(A, Relevance)>, relevance: Map<A, PairedRelevance>) -> Seq<(EntityOperation, A, E)>
    decreases hs.len(),
{
    if hs.len() == 0 {
        Seq::empty()
    } else {
        row_ops(u, hs.drop_last(), relevance) + diff_op(u, hs.last(), relevance)
    }
}

/// The operations each update of `us`, in turn, makes for the connections of `hs`.
pub open spec fn diff_ops<E, A>(us: Seq<UpdatedEntity<E>>, hs: Seq<(A, Relevance)>, relevance: Map<A, PairedRelevance>) -> Seq<(EntityOperation, A, E)>
    decreases us.len(),
{
    if us.len() == 0 {
        Seq::empty()
    } else {
        diff_ops(us.drop_last(), hs, relevance) + row_ops(us.last(), hs, relevance)
    }
}

/// Whether testing chunk `c` against the areas of `r`, in order until one holds it, stays within
/// `i64` bounds.
pub open spec fn areas_fit(r: Relevance, c: Point3<i64>) -> bool {
    r.tested_fit(c)
}

/// Whether the relevance tests of update `u` for connection `h` stay within `i64` bounds.
pub open spec fn diff_fits<E, A>(u: UpdatedEntity<E>, h: (A, Relevance), relevance: Map<A, PairedRelevance>) -> bool {
    &&& (u.old_chunk matches Some(c) ==> areas_fit(h.1, c))
    &&& (relevance.contains_key(h.0) ==> areas_fit(relevance[h.0].entity, u.new_chunk))
}

/// Whether the relevance tests of each update of `us` for each connection of `hs` stay within `i64` bounds.
pub open spec fn diffs_fit<E, A>(us: Seq<UpdatedEntity<E>>, hs: Seq<(A, Relevance)>, relevance: Map<A, PairedRelevance>) -> bool {
    forall|i: int, j: int| 0 <= i < us.len() && 0 <= j < hs.len() ==> #[trigger] diff_fits(us[i], #[trigger] hs[j], relevance)
}

/// The destroyed operations for each entity of `destroyed`, one for each address `relevant`
/// records it as relevant to.
pub open spec fn destroyed_ops<E, A>(relevant: Map<E, Set<A>>, destroyed: Set<E>) -> Set<(EntityOperation, A, E)> {
    Set::new(
        |t: (EntityOperation, A, E)|
            t.0 == EntityOperation::Destroyed && destroyed.contains(t.2) && records(relevant, t.2, t.1),
    )
}

/// Whether `ops` are destroyed operations for each address `relevant` records each entity of
/// `destroyed` as relevant to, each once in some order, followed by `diffs`.
pub open spec fn destroyed_then_diffs<E, A>(
    ops: Seq<(EntityOperation, A, E)>,
    relevant: Map<E, Set<A>>,
    destroyed: Set<E>,
    diffs: Seq<(EntityOperation, A, E)>,
) -> bool {
    let n = ops.len() - diffs.len();
    &&& n >= 0
    &&& ops.skip(n) == diffs
    &&& ops.take(n).to_set() == destroyed_ops(relevant, destroyed)
    &&& ops.take(n).no_duplicates()
}

/// The updates of what is relevant to a connection, from the relevance `p` gathered for it and
/// the chunks `new_chunks` to send it, if any: its entity relevance, then its chunk relevance,
/// then the chunks.
pub open spec fn relevance_updates<C>(p: PairedRelevance, new_chunks: Option<Vec<C>>) -> Seq<Update<C>> {
    let head = seq![Update::Entity(p.entity), Update::World(WorldUpdate::Relevance(p.chunk))];
    match new_chunks {
        Some(chunks) => head.push(Update::World(WorldUpdate::Chunks(chunks))),
        None => head,
    }
}

/// The chunk areas gathered for address `a`, none where there are none.
pub open spec fn chunk_areas<A>(relevance: Map<A, PairedRelevance>, a: A) -> Seq<Area> {
    if relevance.contains_key(a) {
        relevance[a].chunk.spec_areas()
    } else {
        Seq::empty()
    }
}

/// The entity areas gathered for address `a`, none where there are none.
pub open spec fn entity_areas<A>(relevance: Map<A, PairedRelevance>, a: A) -> Seq<Area> {
    if relevance.contains_key(a) {
        relevance[a].entity.spec_areas()
    } else {
        Seq::empty()
    }
}

/// Where a pending chunk of a connection goes when the replicator comes to it: sent to the
/// connection, where the server has it loaded, or back among the pending chunks until it is.
#[derive(Clone, Copy, Debug, PartialEq, Eq)]
pub enum PendingRoute {
    Send(Point3<i64>),
    Requeue(Point3<i64>),
}

/// The route of the pending chunk at `coordinate`, from whether the server has it `loaded`.
pub fn route_pending(coordinate: Point3<i64>, loaded: bool) -> (r: PendingRoute)
    ensures
        loaded ==> r == PendingRoute::Send(coordinate),
        !loaded ==> r == PendingRoute::Requeue(coordinate),
{
    if loaded {
        PendingRoute::Send(coordinate)
    } else {
        PendingRoute::Requeue(coordinate)
    }
}

/// The chunk relevance a connection's pending chunks are to follow: the one gathered for it,
/// where one was gathered and it differs from `current`, the relevance the connection has.
pub fn next_chunk_relevance<'a>(gathered: Option<&'a PairedRelevance>, current: &Relevance) -> (r: Option<&'a Relevance>)
    ensures
        r is Some <==> (gathered is Some && gathered->0.chunk.spec_areas() != current.spec_areas()),
        r matches Some(c) ==> *c == gathered->0.chunk,
{
    match gathered {
        Some(paired) => {
            if paired.chunk.same_areas(current) {
                None
            } else {
                Some(&paired.chunk)
            }
        },
        None => None,
    }
}

/// The chunks that moving from chunk relevance `current` to `next` brings in: those of the
/// cuboids of `next` that no cuboid of `current` holds.
pub open spec fn added_chunks(next: Relevance, current: Relevance) -> Set<Point3<i64>> {
    Set::new(
        |q: Point3<i64>|
            AxisAlignedBoundingBox::union_cells(next.cuboids()).difference(
                AxisAlignedBoundingBox::union_cells(current.cuboids()),
            ).contains(q.triple()),
    )
}

/// Every chunk that moving from chunk relevance `current` to `next` brings in is one that an
/// area of `next` holds, and none of the cuboids of `current` holds it.
pub proof fn lemma_added_chunks_held(next: Relevance, current: Relevance, q: Point3<i64>)
    requires
        next.cuboids_fit(),
        added_chunks(next, current).contains(q),
    ensures
        exists|i: int| 0 <= i < next.spec_areas().len() && #[trigger] next.spec_areas()[i].holds(q),
        !AxisAlignedBoundingBox::union_cells(current.cuboids()).contains(q.triple()),
{
    let b = choose|b: AxisAlignedBoundingBox| #[trigger] next.cuboids().contains(b) && b.holds(q.triple());
    let i = choose|i: int| 0 <= i < next.spec_areas().len() && b == #[trigger] next.spec_areas()[i].spec_cuboid();
    next.spec_areas()[i].lemma_cuboid_around_center();
    assert(next.spec_areas()[i].holds(q));
}

/// A chunk is brought in by moving from chunk relevance `current` to `next` exactly where the
/// cuboid of some area of `next` holds it and the cuboid of no area of `current` does.
pub proof fn lemma_added_chunks_exact(next: Relevance, current: Relevance, q: Point3<i64>)
    ensures
        added_chunks(next, current).contains(q) <==> (exists|i: int|
            0 <= i < next.spec_areas().len() && #[trigger] next.spec_areas()[i].spec_cuboid().holds(q.triple()))
            && !(exists|j: int|
            0 <= j < current.spec_areas().len() && #[trigger] current.spec_areas()[j].spec_cuboid().holds(q.triple())),
{
    next.lemma_cuboids_of_areas();
    current.lemma_cuboids_of_areas();
    if exists|i: int| 0 <= i < next.spec_areas().len() && #[trigger] next.spec_areas()[i].spec_cuboid().holds(q.triple()) {
        let i = choose|i: int| 0 <= i < next.spec_areas().len() && #[trigger] next.spec_areas()[i].spec_cuboid().holds(q.triple());
        assert(next.cuboids().contains(next.spec_areas()[i].spec_cuboid()));
    }
    if exists|j: int| 0 <= j < current.spec_areas().len() && #[trigger] current.spec_areas()[j].spec_cuboid().holds(q.triple()) {
        let j = choose|j: int| 0 <= j < current.spec_areas().len() && #[trigger] current.spec_areas()[j].spec_cuboid().holds(q.triple());
        assert(current.cuboids().contains(current.spec_areas()[j].spec_cuboid()));
    }
}

/// Whether `c` is among `chunks`.
fn has_chunk(chunks: &Vec<Point3<i64>>, c: &Point3<i64>) -> (r: bool)
    ensures
        r == chunks@.contains(*c),
{
    let mut i: usize = 0;
    while i < chunks.len()
        invariant
            i <= chunks@.len(),
            forall|j: int| 0 <= j < i ==> chunks@[j] != *c,
        decreases chunks@.len() - i,
    {
        if chunks[i] == *c {
            return true;
        }
        i = i + 1;
    }
    false
}

/// Appends `c` to `chunks` unless it is there already.
fn add_chunk(chunks: &mut Vec<Point3<i64>>, c: Point3<i64>)
    requires
        old(chunks)@.no_duplicates(),
    ensures
        final(chunks)@.no_duplicates(),
        final(chunks)@.to_set() == old(chunks)@.to_set().insert(c),
{
    if !has_chunk(chunks, &c) {
        chunks.push(c);
        proof {
            assert(final(chunks)@.to_set() =~= old(chunks)@.to_set().insert(c)) by {
                assert forall|q: Point3<i64>| #[trigger] final(chunks)@.contains(q) implies old(chunks)@.contains(q) || q == c by {
                    let j = choose|j: int| 0 <= j < final(chunks)@.len() && #[trigger] final(chunks)@[j] == q;
                    if j < old(chunks)@.len() {
                        assert(old(chunks)@[j] == q);
                    }
                }
                assert forall|q: Point3<i64>| #[trigger] old(chunks)@.contains(q) implies final(chunks)@.contains(q) by {
                    let j = choose|j: int| 0 <= j < old(chunks)@.len() && #[trigger] old(chunks)@[j] == q;
                    assert(final(chunks)@[j] == q);
                }
                assert(final(chunks)@[old(chunks)@.len() as int] == c);
            }
        }
    } else {
        proof {
            assert(old(chunks)@.to_set() =~= old(chunks)@.to_set().insert(c));
        }
    }
}

/// The chunks a connection still waits for once its chunk relevance changes from `current` to
/// `next`: the waiting chunks that `next` still holds, and the chunks that the change brings in,
/// each once. The order in which they are sent is the caller's to set.
pub fn update_pending(pending: &Vec<Point3<i64>>, next: &Relevance, current: &Relevance) -> (r: Vec<Point3<i64>>)
    requires
        forall|i: int| 0 <= i < pending@.len() ==> next.tested_fit(#[trigger] pending@[i]),
        next.cuboids_fit(),
        current.cuboids_fit(),
        next.can_take_away(current),
    ensures
        r@.no_duplicates(),
        r@.to_set() == pending@.to_set().filter(|c: Point3<i64>| next.holds(c)).union(
            added_chunks(*next, *current),
        ),
{
    let mut r: Vec<Point3<i64>> = Vec::new();
    let mut i: usize = 0;
    while i < pending.len()
        invariant
            i <= pending@.len(),
            forall|j: int| 0 <= j < pending@.len() ==> next.tested_fit(#[trigger] pending@[j]),
            r@.no_duplicates(),
            r@.to_set() == pending@.take(i as int).to_set().filter(|c: Point3<i64>| next.holds(c)),
        decreases pending@.len() - i,
    {
        let c = pending[i];
        let keep = next.is_relevant(&c);
        let ghost before = r@;
        if keep {
            add_chunk(&mut r, c);
        }
        proof {
            let f = |c: Point3<i64>| next.holds(c);
            assert(pending@.take(i + 1) =~= pending@.take(i as int).push(c));
            assert(pending@.take(i + 1).to_set().filter(f) =~= if keep {
                pending@.take(i as int).to_set().filter(f).insert(c)
            } else {
                pending@.take(i as int).to_set().filter(f)
            }) by {
                assert forall|q: Point3<i64>| #[trigger] pending@.take(i + 1).contains(q)
                    <==> pending@.take(i as int).contains(q) || q == c by {
                    if pending@.take(i + 1).contains(q) {
                        let j = choose|j: int| 0 <= j < i + 1 && #[trigger] pending@.take(i + 1)[j] == q;
                        if j < i {
                            assert(pending@.take(i as int)[j] == q);
                        }
                    }
                    if pending@.take(i as int).contains(q) {
                        let j = choose|j: int| 0 <= j < i && #[trigger] pending@.take(i as int)[j] == q;
                        assert(pending@.take(i + 1)[j] == q);
                    }
                    if q == c {
                        assert(pending@.take(i + 1)[i as int] == q);
                    }
                }
            }
        }
        i = i + 1;
    }
    proof {
        assert(pending@.take(pending@.len() as int) =~= pending@);
    }
    let ghost kept = r@.to_set();
    let cuboids = next.difference(current);
    let mut m: usize = 0;
    while m < cuboids.len()
        invariant
            m <= cuboids@.len(),
            r@.no_duplicates(),
            r@.to_set() == kept.union(
                Set::new(|q: Point3<i64>| AxisAlignedBoundingBox::seq_cells(cuboids@.take(m as int)).contains(q.triple())),
            ),
        decreases cuboids@.len() - m,
    {
        let points = cuboids[m].points();
        let ghost start = r@.to_set();
        let mut k: usize = 0;
        while k < points.len()
            invariant
                k <= points@.len(),
                r@.no_duplicates(),
                r@.to_set() == start.union(points@.take(k as int).to_set()),
            decreases points@.len() - k,
        {
            add_chunk(&mut r, points[k]);
            proof {
                assert(points@.take(k + 1).to_set() =~= points@.take(k as int).to_set().insert(points@[k as int])) by {
                    assert forall|q: Point3<i64>| #[trigger] points@.take(k + 1).contains(q)
                        <==> points@.take(k as int).contains(q) || q == points@[k as int] by {
                        if points@.take(k + 1).contains(q) {
                            let j = choose|j: int| 0 <= j < k + 1 && #[trigger] points@.take(k + 1)[j] == q;
                            if j < k {
                                assert(points@.take(k as int)[j] == q);
                            }
                        }
                        if points@.take(k as int).contains(q) {
                            let j = choose|j: int| 0 <= j < k && #[trigger] points@.take(k as int)[j] == q;
                            assert(points@.take(k + 1)[j] == q);
                        }
                        if q == points@[k as int] {
                            assert(points@.take(k + 1)[k as int] == q);
                        }
                    }
                }
                assert(r@.to_set() =~= start.union(points@.take(k + 1).to_set()));
            }
            k = k + 1;
        }
        proof {
            assert(points@.take(points@.len() as int) =~= points@);
            AxisAlignedBoundingBox::lemma_seq_cells_step(cuboids@, m as int);
            assert(r@.to_set() =~= kept.union(
                Set::new(|q: Point3<i64>| AxisAlignedBoundingBox::seq_cells(cuboids@.take(m + 1)).contains(q.triple())),
            ));
        }
        m = m + 1;
    }
    proof {
        assert(cuboids@.take(cuboids@.len() as int) =~= cuboids@);
        AxisAlignedBoundingBox::lemma_seq_cells(cuboids@);
        assert(r@.to_set() =~= pending@.to_set().filter(|c: Point3<i64>| next.holds(c)).union(
            added_chunks(*next, *current),
        ));
    }
    r
}

/// What the replicator gathers of the world in one update: the relevance of chunks and entities to
/// each connection, the entities that moved, and the entities that were relevant somewhere and
/// are gone.
pub struct EntityUpdates<E, A> {
    relevance: HashMap<A, PairedRelevance>,
    updates: Vec<UpdatedEntity<E>>,
    destroyed: HashSet<E>,
}

impl<E, A> EntityUpdates<E, A> {
    pub closed spec fn spec_relevance(&self) -> Map<A, PairedRelevance> {
        self.relevance@
    }

    pub closed spec fn spec_updates(&self) -> Seq<UpdatedEntity<E>> {
        self.updates@
    }

    pub closed spec fn spec_destroyed(&self) -> Set<E> {
        self.destroyed@
    }
}

impl<E: Hash + Eq + Clone, A: Hash + Eq + Clone> EntityUpdates<E, A> {
    /// Nothing gathered yet; every entity `relevant_entities` records counts as destroyed until
    /// it is observed.
    pub fn new(relevant_entities: &MultiSet<E, A>) -> (r: Self)
        requires
            MultiSet::<E, A>::usable(),
        ensures
            r.spec_relevance() == Map::<A, PairedRelevance>::empty(),
            r.spec_updates() == Seq::<UpdatedEntity<E>>::empty(),
            r.spec_destroyed() == relevant_entities@.dom(),
    {
        let keys = relevant_entities.key_list();
        let mut destroyed: HashSet<E> = HashSet::new();
        for i in 0..keys.len()
            invariant
                MultiSet::<E, A>::usable(),
                destroyed@ == keys@.take(i as int).to_set(),
        {
            destroyed.insert(clone_of(&keys[i]));
            proof {
                assert(keys@.take(i + 1) =~= keys@.take(i as int).push(keys@[i as int]));
                keys@.take(i as int).lemma_push_to_set_commute(keys@[i as int]);
            }
        }
        proof {
            assert(keys@.take(keys@.len() as int) =~= keys@);
        }
        EntityUpdates { relevance: HashMap::new(), updates: Vec::new(), destroyed }
    }

    /// Adds, for an entity in `chunk` owned by the connection at `owner` and with `relevancy`,
    /// the area of chunks and the area of entities around it to what is relevant to that
    /// connection; nothing where the entity has no owner or no relevancy.
    pub fn push_relevance(&mut self, owner: Option<&A>, relevancy: Option<&Relevancy>, chunk: Point3<i64>)
        requires
            MultiSet::<E, A>::usable(),
        ensures
            final(self).spec_updates() == old(self).spec_updates(),
            final(self).spec_destroyed() == old(self).spec_destroyed(),
            match (owner, relevancy) {
                (Some(a), Some(r)) => {
                    let (o, f) = (old(self).spec_relevance(), final(self).spec_relevance());
                    &&& f.dom() == o.dom().insert(*a)
                    &&& f.remove(*a) == o.remove(*a)
                    &&& f[*a].chunk.spec_areas().len() == chunk_areas(o, *a).len() + 1
                    &&& f[*a].chunk.spec_areas().drop_last() == chunk_areas(o, *a)
                    &&& f[*a].chunk.spec_areas().last().spec_center() == chunk
                    &&& f[*a].chunk.spec_areas().last().spec_radius() == r.spec_radius()
                    &&& f[*a].entity.spec_areas().len() == entity_areas(o, *a).len() + 1
                    &&& f[*a].entity.spec_areas().drop_last() == entity_areas(o, *a)
                    &&& f[*a].entity.spec_areas().last().spec_center() == chunk
                    &&& f[*a].entity.spec_areas().last().spec_radius() == r.spec_entity_radius()
                },
                _ => final(self).spec_relevance() == old(self).spec_relevance(),
            },
    {
        let (address, relevancy) = match (owner, relevancy) {
            (Some(address), Some(relevancy)) => (address, relevancy),
            _ => return,
        };
        let mut paired = match self.relevance.remove(address) {
            Some(paired) => paired,
            None => PairedRelevance::default(),
        };
        paired.chunk.push(Area::new(chunk, relevancy.radius()));
        paired.entity.push(Area::new(chunk, relevancy.entity_radius()));
        self.relevance.insert(clone_of(address), paired);
        proof {
            assert(self.spec_relevance().remove(*address) =~= old(self).spec_relevance().remove(*address));
            assert(self.spec_relevance().dom() =~= old(self).spec_relevance().dom().insert(*address));
        }
    }

    /// Notes that replicated `entity` still exists, so it is not destroyed, and adds its update
    /// where it moved from `old_chunk` to `new_chunk`.
    pub fn observe_replicated(&mut self, entity: &E, old_chunk: Option<Point3<i64>>, new_chunk: Point3<i64>)
        requires
            MultiSet::<E, A>::usable(),
        ensures
            final(self).spec_relevance() == old(self).spec_relevance(),
            final(self).spec_destroyed() == old(self).spec_destroyed().remove(*entity),
            final(self).spec_updates() == match UpdatedEntity::spec_acknowledged(*entity, old_chunk, new_chunk) {
                Some(u) => old(self).spec_updates().push(u),
                None => old(self).spec_updates(),
            },
    {
        self.destroyed.remove(entity);
        if let Some(update) = UpdatedEntity::acknowledged(clone_of(entity), old_chunk, new_chunk) {
            self.updates.push(update);
        }
    }

    /// Removes each destroyed entity from `relevant_entities`, and adds a destroyed operation for
    /// each address it was relevant to, in no particular order.
    pub fn gather_destroyed_operations(&self, relevant_entities: &mut MultiSet<E, A>, operations: &mut OperationGroup<E, A>)
        requires
            MultiSet::<E, A>::usable(),
        ensures
            final(relevant_entities)@ == old(relevant_entities)@.remove_keys(self.spec_destroyed()),
            old(operations).spec_ops().len() <= final(operations).spec_ops().len(),
            final(operations).spec_ops().take(old(operations).spec_ops().len() as int) == old(operations).spec_ops(),
            final(operations).spec_ops().skip(old(operations).spec_ops().len() as int).to_set()
                == destroyed_ops(old(relevant_entities)@, self.spec_destroyed()),
            final(operations).spec_ops().skip(old(operations).spec_ops().len() as int).no_duplicates(),
    {
        let ghost o = relevant_entities@;
        let ghost start = operations.spec_ops();
        let ghost mut added: Seq<(EntityOperation, A, E)> = Seq::empty();
        for entity in it: self.destroyed.iter()
            invariant
                MultiSet::<E, A>::usable(),
                it.seq().unref().to_set() == self.spec_destroyed(),
                it.seq().unref().no_duplicates(),
                relevant_entities@ == o.remove_keys(it.seq().unref().take(it.index()).to_set()),
                operations.spec_ops() == start + added,
                added.to_set() == destroyed_ops(o, it.seq().unref().take(it.index()).to_set()),
                added.no_duplicates(),
                it.index() == it.seq().len() ==> it.seq().unref().take(it.index()) == it.seq().unref(),
        {
            let ghost i = it.index();
            let ghost q = it.seq().unref();
            let ghost done = q.take(i).to_set();
            proof {
                crate::common::utility::multi_hash_map::lemma_prefix_step(q, i);
            }
            if let Some(addresses) = relevant_entities.remove_key(entity) {
                let ghost added_before = added;
                let ghost mut taken: Set<A> = Set::empty();
                for address in jt: addresses.iter()
                    invariant
                        MultiSet::<E, A>::usable(),
                        jt.seq().unref().to_set() == addresses@,
                        jt.seq().unref().no_duplicates(),
                        addresses@ == o[*entity],
                        !done.contains(*entity),
                        taken == jt.seq().unref().take(jt.index()).to_set(),
                        jt.index() == jt.seq().len() ==> taken == addresses@,
                        operations.spec_ops() == start + added,
                        added_before.to_set() == destroyed_ops(o, done),
                        added.to_set() == added_before.to_set().union(
                            Set::new(|t: (EntityOperation, A, E)| t.0 == EntityOperation::Destroyed && t.2 == *entity && taken.contains(t.1)),
                        ),
                        added.no_duplicates(),
                {
                    let ghost j = jt.index();
                    let ghost p = jt.seq().unref();
                    proof {
                        crate::common::utility::multi_hash_map::lemma_prefix_step(p, j);
                    }
                    operations.insert(EntityOperation::Destroyed, clone_of(address), clone_of(entity));
                    proof {
                        let t = (EntityOperation::Destroyed, *address, *entity);
                        assert(!added.to_set().contains(t));
                        let next = added.push(t);
                        assert(next.no_duplicates()) by {
                            assert forall|x: int, y: int| 0 <= x < y < next.len() implies next[x] != next[y] by {
                                if y == next.len() - 1 {
                                    assert(added.to_set().contains(next[x]));
                                }
                            }
                        }
                        added.lemma_push_to_set_commute(t);
                        added = next;
                        taken = taken.insert(*address);
                        assert(added.to_set() =~= added_before.to_set().union(
                            Set::new(|t: (EntityOperation, A, E)| t.0 == EntityOperation::Destroyed && t.2 == *entity && taken.contains(t.1)),
                        ));
                        assert(operations.spec_ops() =~= start + added);
                        assert(j + 1 == p.len() ==> p.take(j + 1) =~= p);
                    }
                }
                proof {
                    assert(added.to_set() =~= destroyed_ops(o, done.insert(*entity)));
                }
            } else {
                proof {
                    assert(destroyed_ops(o, done.insert(*entity)) =~= destroyed_ops(o, done)) by {
                        assert(!o.contains_key(*entity));
                    }
                }
            }
            proof {
                assert(relevant_entities@ =~= o.remove_keys(done.insert(*entity)));
                assert(q.take(i + 1).to_set() == done.insert(*entity));
                assert(i + 1 == q.len() ==> q.take(i + 1) =~= q);
            }
        }
        proof {
            assert(operations.spec_ops().take(start.len() as int) =~= start);
            assert(operations.spec_ops().skip(start.len() as int) =~= added);
        }
    }

    /// Adds, for each update and each connection of `handles` in turn, the operation that tells
    /// the connection whether the entity became relevant, stayed relevant, or stopped being
    /// relevant to it; each handle is the address of a connection and the entity relevance it had.
    pub fn gather_relevancy_diffs(&self, handles: &Vec<(A, Relevance)>, operations: &mut OperationGroup<E, A>)
        requires
            MultiSet::<E, A>::usable(),
            diffs_fit(self.spec_updates(), handles@, self.spec_relevance()),
        ensures
            final(operations).spec_ops() == old(operations).spec_ops() + diff_ops(
                self.spec_updates(),
                handles@,
                self.spec_relevance(),
            ),
    {
        let ghost start = operations.spec_ops();
        let ghost rel = self.spec_relevance();
        for i in 0..self.updates.len()
            invariant
                MultiSet::<E, A>::usable(),
                rel == self.spec_relevance(),
                diffs_fit(self.spec_updates(), handles@, rel),
                operations.spec_ops() == start + diff_ops(self.spec_updates().take(i as int), handles@, rel),
        {
            let updated = &self.updates[i];
            let ghost mid = operations.spec_ops();
            for j in 0..handles.len()
                invariant
                    MultiSet::<E, A>::usable(),
                    rel == self.spec_relevance(),
                    diffs_fit(self.spec_updates(), handles@, rel),
                    i < self.spec_updates().len(),
                    *updated == self.spec_updates()[i as int],
                    operations.spec_ops() == mid + row_ops(*updated, handles@.take(j as int), rel),
            {
                let address = &handles[j].0;
                let entity_relevance = &handles[j].1;
                proof {
                    assert(diff_fits(self.spec_updates()[i as int], handles@[j as int], rel));
                }
                let was = match updated.old_chunk {
                    Some(c) => entity_relevance.is_relevant(&c),
                    None => false,
                };
                let is = match self.relevance.get(address) {
                    Some(paired) => paired.entity.is_relevant(&updated.new_chunk),
                    None => false,
                };
                let ghost before = operations.spec_ops();
                match EntityOperation::from_relevance(was, is) {
                    Some(op) => {
                        operations.insert(op, clone_of(address), clone_of(&updated.entity));
                    },
                    None => {},
                }
                proof {
                    let hs = handles@.take(j + 1);
                    assert(hs.drop_last() =~= handles@.take(j as int));
                    assert(operations.spec_ops() =~= before + diff_op(*updated, handles@[j as int], rel));
                    assert(mid + row_ops(*updated, hs, rel) =~= mid + row_ops(*updated, handles@.take(j as int), rel)
                        + diff_op(*updated, handles@[j as int], rel));
                }
            }
            proof {
                let us = self.spec_updates().take(i + 1);
                assert(us.drop_last() =~= self.spec_updates().take(i as int));
                assert(handles@.take(handles@.len() as int) =~= handles@);
                assert(start + diff_ops(us, handles@, rel) =~= start + diff_ops(self.spec_updates().take(i as int), handles@, rel)
                    + row_ops(*updated, handles@, rel));
            }
        }
        proof {
            assert(self.spec_updates().take(self.spec_updates().len() as int) =~= self.spec_updates());
        }
    }

    /// The operations of this update: a destroyed operation for each address each destroyed
    /// entity was relevant to, in no particular order, which also drops destroyed entities
    /// from `relevant_entities`; then the relevancy diffs of each update for each connection of
    /// `handles`.
    pub fn as_operations(&self, relevant_entities: &mut MultiSet<E, A>, handles: &Vec<(A, Relevance)>) -> (r: OperationGroup<E, A>)
        requires
            MultiSet::<E, A>::usable(),
            diffs_fit(self.spec_updates(), handles@, self.spec_relevance()),
        ensures
            final(relevant_entities)@ == old(relevant_entities)@.remove_keys(self.spec_destroyed()),
            destroyed_then_diffs(
                r.spec_ops(),
                old(relevant_entities)@,
                self.spec_destroyed(),
                diff_ops(self.spec_updates(), handles@, self.spec_relevance()),
            ),
    {
        let mut operations = OperationGroup::new();
        self.gather_destroyed_operations(relevant_entities, &mut operations);
        let ghost d = operations.spec_ops();
        self.gather_relevancy_diffs(handles, &mut operations);
        proof {
            let diffs = diff_ops(self.spec_updates(), handles@, self.spec_relevance());
            assert(d.skip(0) =~= d);
            assert(operations.spec_ops().take(d.len() as int) =~= d);
            assert(operations.spec_ops().skip(d.len() as int) =~= diffs);
        }
        operations
    }

    /// For each address relevance was gathered for, the updates of what is relevant to it: its
    /// entity relevance, its chunk relevance, and the chunks `new_chunks` holds for it, if any.
    pub fn into_items<C>(self, new_chunks: HashMap<A, Vec<C>>) -> (r: HashMap<A, Vec<Update<C>>>)
        requires
            MultiSet::<E, A>::usable(),
        ensures
            r@.dom() == self.spec_relevance().dom(),
            forall|a: A| #[trigger] r@.contains_key(a) ==> r@[a]@ == relevance_updates(
                self.spec_relevance()[a],
                if new_chunks@.contains_key(a) { Some(new_chunks@[a]) } else { None },
            ),
    {
        let ghost rel = self.spec_relevance();
        let ghost chunks0 = new_chunks@;
        let keys = keys_of(&self.relevance);
        let mut relevance = self.relevance;
        let mut new_chunks = new_chunks;
        let mut items: HashMap<A, Vec<Update<C>>> = HashMap::new();
        for i in 0..keys.len()
            invariant
                MultiSet::<E, A>::usable(),
                keys@.to_set() == rel.dom(),
                keys@.no_duplicates(),
                relevance@ == rel.remove_keys(keys@.take(i as int).to_set()),
                new_chunks@ == chunks0.remove_keys(keys@.take(i as int).to_set()),
                items@.dom() == keys@.take(i as int).to_set(),
                forall|a: A| #[trigger] items@.contains_key(a) ==> items@[a]@ == relevance_updates(
                    rel[a],
                    if chunks0.contains_key(a) { Some(chunks0[a]) } else { None },
                ),
        {
            let key = &keys[i];
            proof {
                crate::common::utility::multi_hash_map::lemma_prefix_step(keys@, i as int);
                assert(keys@.to_set().contains(keys@[i as int]));
            }
            let paired = relevance.remove(key).unwrap();
            let mut updates: Vec<Update<C>> = Vec::new();
            updates.push(Update::Entity(paired.entity));
            updates.push(Update::World(WorldUpdate::Relevance(paired.chunk)));
            if let Some(chunks) = new_chunks.remove(key) {
                updates.push(Update::World(WorldUpdate::Chunks(chunks)));
            }
            items.insert(clone_of(key), updates);
            proof {
                let done = keys@.take(i as int).to_set();
                assert(keys@.take(i + 1).to_set() == done.insert(*key));
                assert(relevance@ =~= rel.remove_keys(done.insert(*key)));
                assert(new_chunks@ =~= chunks0.remove_keys(done.insert(*key)));
                assert(items@.dom() =~= done.insert(*key));
                assert(items@[*key]@ =~= relevance_updates(
                    rel[*key],
                    if chunks0.contains_key(*key) { Some(chunks0[*key]) } else { None },
                ));
            }
        }
        proof {
            assert(keys@.take(keys@.len() as int) =~= keys@);
        }
        items
    }

    /// What is relevant to each connection, by address, as gathered.
    pub fn relevance(&self) -> (r: &HashMap<A, PairedRelevance>)
        ensures
            r@ == self.spec_relevance(),
    {
        &self.relevance
    }
}

/// Whether some connection of `hs` has address `a`.
pub open spec fn has_address<A>(hs: Seq<(A, Relevance)>, a: A) -> bool {
    exists|j: int| 0 <= j < hs.len() && #[trigger] hs[j].0 == a
}

/// Whether some update of `us` is of entity `e`.
pub open spec fn has_entity<E>(us: Seq<UpdatedEntity<E>>, e: E) -> bool {
    exists|i: int| 0 <= i < us.len() && #[trigger] us[i].entity == e
}

/// Whether the connections of `hs` have distinct addresses.
pub open spec fn distinct_addresses<A>(hs: Seq<(A, Relevance)>) -> bool {
    forall|x: int, y: int| 0 <= x < y < hs.len() ==> #[trigger] hs[x].0 != #[trigger] hs[y].0
}

/// Whether the updates of `us` are of distinct entities.
pub open spec fn distinct_entities<E>(us: Seq<UpdatedEntity<E>>) -> bool {
    forall|x: int, y: int| 0 <= x < y < us.len() ==> #[trigger] us[x].entity != #[trigger] us[y].entity
}

/// Whether update `u` is recorded as relevant to the address of connection `h` after its
/// diff is recorded, where it was recorded so or not as `before` says.
pub open spec fn after_diff<E, A>(u: UpdatedEntity<E>, h: (A, Relevance), relevance: Map<A, PairedRelevance>, before: bool) -> bool {
    match EntityOperation::spec_from_relevance(was_relevant(u, h.1), now_relevant(u, relevance, h.0)) {
        Some(EntityOperation::Relevant) => true,
        Some(EntityOperation::Irrelevant) => false,
        _ => before,
    }
}

/// Recording `s1` and then `s2` is recording `s1 + s2`.
pub proof fn lemma_record_all_append<E, A>(m: Map<E, Set<A>>, s1: Seq<(EntityOperation, A, E)>, s2: Seq<(EntityOperation, A, E)>)
    ensures
        record_all(m, s1 + s2) == record_all(record_all(m, s1), s2),
    decreases s2.len(),
{
    if s2.len() == 0 {
        assert(s1 + s2 =~= s1);
    } else {
        lemma_record_all_append(m, s1, s2.drop_last());
        assert((s1 + s2).drop_last() =~= s1 + s2.drop_last());
    }
}

/// Destroyed operations change no record.
pub proof fn lemma_record_all_destroyed<E, A>(m: Map<E, Set<A>>, d: Seq<(EntityOperation, A, E)>)
    requires
        forall|k: int| 0 <= k < d.len() ==> (#[trigger] d[k]).0 == EntityOperation::Destroyed,
    ensures
        record_all(m, d) == m,
    decreases d.len(),
{
    if d.len() > 0 {
        lemma_record_all_destroyed(m, d.drop_last());
    }
}

proof fn lemma_record_diff_op<E, A>(m: Map<E, Set<A>>, u: UpdatedEntity<E>, h: (A, Relevance), relevance: Map<A, PairedRelevance>)
    ensures
        records(record_all(m, diff_op(u, h, relevance)), u.entity, h.0) == after_diff(u, h, relevance, records(m, u.entity, h.0)),
        forall|e: E, a: A| !(e == u.entity && a == h.0) ==> #[trigger] records(record_all(m, diff_op(u, h, relevance)), e, a) == records(m, e, a),
{
    let s = diff_op(u, h, relevance);
    match EntityOperation::spec_from_relevance(was_relevant(u, h.1), now_relevant(u, relevance, h.0)) {
        Some(op) => {
            assert(s.drop_last() =~= Seq::<(EntityOperation, A, E)>::empty());
            assert(s.last() == (op, h.0, u.entity));
            assert(record_all(m, s.drop_last()) == m);
            assert(record_all(m, s) == op.spec_record(m, u.entity, h.0));
            lemma_record_records(op, m, u.entity, h.0, u.entity, h.0);
            assert forall|e: E, a: A| !(e == u.entity && a == h.0) implies #[trigger] records(record_all(m, s), e, a) == records(m, e, a) by {
                lemma_record_records(op, m, u.entity, h.0, e, a);
            }
        },
        None => {},
    }
}

proof fn lemma_row_records<E, A>(m: Map<E, Set<A>>, u: UpdatedEntity<E>, hs: Seq<(A, Relevance)>, relevance: Map<A, PairedRelevance>)
    requires
        distinct_addresses(hs),
    ensures
        forall|j: int| 0 <= j < hs.len() ==> #[trigger] records(record_all(m, row_ops(u, hs, relevance)), u.entity, hs[j].0)
            == after_diff(u, hs[j], relevance, records(m, u.entity, hs[j].0)),
        forall|e: E, a: A| (e != u.entity || !has_address(hs, a)) ==> #[trigger] records(record_all(m, row_ops(u, hs, relevance)), e, a)
            == records(m, e, a),
    decreases hs.len(),
{
    if hs.len() > 0 {
        let init = hs.drop_last();
        let h = hs.last();
        lemma_row_records(m, u, init, relevance);
        let m1 = record_all(m, row_ops(u, init, relevance));
        lemma_record_all_append(m, row_ops(u, init, relevance), diff_op(u, h, relevance));
        lemma_record_diff_op(m1, u, h, relevance);
        assert(!has_address(init, h.0)) by {
            if has_address(init, h.0) {
                let j = choose|j: int| 0 <= j < init.len() && #[trigger] init[j].0 == h.0;
                assert(hs[j].0 == hs[hs.len() - 1].0);
            }
        }
        assert forall|j: int| 0 <= j < hs.len() implies #[trigger] records(record_all(m, row_ops(u, hs, relevance)), u.entity, hs[j].0)
            == after_diff(u, hs[j], relevance, records(m, u.entity, hs[j].0)) by {
            if j < hs.len() - 1 {
                assert(hs[j] == init[j]);
                assert(hs[j].0 != h.0);
            }
        }
        assert forall|e: E, a: A| (e != u.entity || !has_address(hs, a)) implies #[trigger] records(record_all(m, row_ops(u, hs, relevance)), e, a)
            == records(m, e, a) by {
            if !has_address(hs, a) {
                assert(a != h.0) by {
                    assert(hs[hs.len() - 1].0 == h.0);
                }
                assert(!has_address(init, a)) by {
                    if has_address(init, a) {
                        let j = choose|j: int| 0 <= j < init.len() && #[trigger] init[j].0 == a;
                        assert(hs[j].0 == a);
                    }
                }
            }
        }
    }
}

proof fn lemma_diffs_records<E, A>(m: Map<E, Set<A>>, us: Seq<UpdatedEntity<E>>, hs: Seq<(A, Relevance)>, relevance: Map<A, PairedRelevance>)
    requires
        distinct_entities(us),
        distinct_addresses(hs),
    ensures
        forall|i: int, j: int| 0 <= i < us.len() && 0 <= j < hs.len() ==>
            #[trigger] records(record_all(m, diff_ops(us, hs, relevance)), us[i].entity, #[trigger] hs[j].0)
            == after_diff(us[i], hs[j], relevance, records(m, us[i].entity, hs[j].0)),
        forall|e: E, a: A| (!has_entity(us, e) || !has_address(hs, a)) ==> #[trigger] records(record_all(m, diff_ops(us, hs, relevance)), e, a)
            == records(m, e, a),
    decreases us.len(),
{
    if us.len() > 0 {
        let init = us.drop_last();
        let u = us.last();
        lemma_diffs_records(m, init, hs, relevance);
        let m1 = record_all(m, diff_ops(init, hs, relevance));
        lemma_record_all_append(m, diff_ops(init, hs, relevance), row_ops(u, hs, relevance));
        lemma_row_records(m1, u, hs, relevance);
        assert(!has_entity(init, u.entity)) by {
            if has_entity(init, u.entity) {
                let i = choose|i: int| 0 <= i < init.len() && #[trigger] init[i].entity == u.entity;
                assert(us[i].entity == us[us.len() - 1].entity);
            }
        }
        assert forall|i: int, j: int| 0 <= i < us.len() && 0 <= j < hs.len() implies
            #[trigger] records(record_all(m, diff_ops(us, hs, relevance)), us[i].entity, #[trigger] hs[j].0)
            == after_diff(us[i], hs[j], relevance, records(m, us[i].entity, hs[j].0)) by {
            if i < us.len() - 1 {
                assert(us[i] == init[i]);
                assert(us[i].entity != u.entity);
                assert(records(m1, init[i].entity, hs[j].0) == after_diff(init[i], hs[j], relevance, records(m, init[i].entity, hs[j].0)));
            } else {
                assert(records(record_all(m1, row_ops(u, hs, relevance)), u.entity, hs[j].0)
                    == after_diff(u, hs[j], relevance, records(m1, u.entity, hs[j].0)));
                assert(records(m1, u.entity, hs[j].0) == records(m, u.entity, hs[j].0));
            }
        }
        assert forall|e: E, a: A| (!has_entity(us, e) || !has_address(hs, a)) implies #[trigger] records(record_all(m, diff_ops(us, hs, relevance)), e, a)
            == records(m, e, a) by {
            if !has_entity(us, e) {
                assert(e != u.entity) by {
                    assert(us[us.len() - 1].entity == u.entity);
                }
                assert(!has_entity(init, e)) by {
                    if has_entity(init, e) {
                        let i = choose|i: int| 0 <= i < init.len() && #[trigger] init[i].entity == e;
                        assert(us[i].entity == e);
                    }
                }
            }
            assert(records(m1, e, a) == records(m, e, a));
        }
    }
}

/// The record of relevance follows the relevance gathered in an update. After the operations
/// of an update are recorded, each updated entity is recorded as relevant to the address of a
/// connection exactly when its new chunk is relevant by the entity relevance gathered for that
/// address, each destroyed entity is recorded as relevant to no address, and every other entity
/// and address keeps its record; this where the updates are of distinct entities that are not
/// destroyed, the connections have distinct addresses, and the record agreed beforehand with the
/// entity relevance each connection had.
pub proof fn lemma_operations_record_relevance<E, A>(
    relevant: Map<E, Set<A>>,
    destroyed: Set<E>,
    ops: Seq<(EntityOperation, A, E)>,
    us: Seq<UpdatedEntity<E>>,
    hs: Seq<(A, Relevance)>,
    relevance: Map<A, PairedRelevance>,
)
    requires
        destroyed_then_diffs(ops, relevant, destroyed, diff_ops(us, hs, relevance)),
        distinct_entities(us),
        distinct_addresses(hs),
        forall|i: int| 0 <= i < us.len() ==> !destroyed.contains(#[trigger] us[i].entity),
        forall|i: int, j: int| 0 <= i < us.len() && 0 <= j < hs.len() ==>
            #[trigger] records(relevant, us[i].entity, #[trigger] hs[j].0) == was_relevant(us[i], hs[j].1),
    ensures
        forall|i: int, j: int| 0 <= i < us.len() && 0 <= j < hs.len() ==>
            #[trigger] records(record_all(relevant.remove_keys(destroyed), ops), us[i].entity, #[trigger] hs[j].0)
            == now_relevant(us[i], relevance, hs[j].0),
        forall|e: E, a: A| destroyed.contains(e) ==> !#[trigger] records(record_all(relevant.remove_keys(destroyed), ops), e, a),
        forall|e: E, a: A| !destroyed.contains(e) && (!has_entity(us, e) || !has_address(hs, a)) ==>
            #[trigger] records(record_all(relevant.remove_keys(destroyed), ops), e, a) == records(relevant, e, a),
{
    let diffs = diff_ops(us, hs, relevance);
    let n = ops.len() - diffs.len();
    let d = ops.take(n);
    let m = relevant.remove_keys(destroyed);
    assert(ops =~= d + diffs);
    lemma_record_all_append(m, d, diffs);
    assert forall|k: int| 0 <= k < d.len() implies (#[trigger] d[k]).0 == EntityOperation::Destroyed by {
        assert(d.to_set().contains(d[k]));
    }
    lemma_record_all_destroyed(m, d);
    lemma_diffs_records(m, us, hs, relevance);
    assert forall|i: int, j: int| 0 <= i < us.len() && 0 <= j < hs.len() implies
        #[trigger] records(record_all(m, ops), us[i].entity, #[trigger] hs[j].0) == now_relevant(us[i], relevance, hs[j].0) by {
        assert(records(m, us[i].entity, hs[j].0) == records(relevant, us[i].entity, hs[j].0));
        assert(records(record_all(m, diffs), us[i].entity, hs[j].0) == after_diff(us[i], hs[j], relevance, records(m, us[i].entity, hs[j].0)));
    }
    assert forall|e: E, a: A| destroyed.contains(e) implies !#[trigger] records(record_all(m, ops), e, a) by {
        assert(!has_entity(us, e)) by {
            if has_entity(us, e) {
                let i = choose|i: int| 0 <= i < us.len() && #[trigger] us[i].entity == e;
            }
        }
        assert(records(record_all(m, diffs), e, a) == records(m, e, a));
    }
    assert forall|e: E, a: A| !destroyed.contains(e) && (!has_entity(us, e) || !has_address(hs, a)) implies
        #[trigger] records(record_all(m, ops), e, a) == records(relevant, e, a) by {
        assert(records(record_all(m, diffs), e, a) == records(m, e, a));
    }
}

/// Whether update `u` was relevant to a connection whose entity relevance had the areas `areas`.
pub open spec fn was_relevant_in<E>(u: UpdatedEntity<E>, areas: Seq<Area>) -> bool {
    match u.old_chunk {
        Some(c) => exists|k: int| 0 <= k < areas.len() && #[trigger] areas[k].holds(c),
        None => false,
    }
}

/// Whether the relevance tests of update `u` for the connection at `a`, whose entity relevance
/// had the areas `areas`, stay within `i64` bounds.
pub open spec fn update_fits<E, A>(u: UpdatedEntity<E>, a: A, areas: Seq<Area>, relevance: Map<A, PairedRelevance>) -> bool {
    &&& (u.old_chunk matches Some(c) ==> areas_tested_fit(areas, c))
    &&& (relevance.contains_key(a) ==> areas_fit(relevance[a].entity, u.new_chunk))
}

/// The chunks `new_chunks` holds for address `a`, if any.
pub open spec fn chunks_for<A, C>(new_chunks: Map<A, Vec<C>>, a: A) -> Option<Vec<C>> {
    if new_chunks.contains_key(a) {
        Some(new_chunks[a])
    } else {
        None
    }
}

/// Whether `hs` lists each connection of `handles` once, each with the entity relevance of its
/// handle.
pub open spec fn lists_handles<A>(hs: Seq<(A, Relevance)>, handles: Map<A, Handle>) -> bool {
    &&& distinct_addresses(hs)
    &&& forall|a: A| #[trigger] handles.contains_key(a) <==> has_address(hs, a)
    &&& forall|j: int| 0 <= j < hs.len() ==> handles.contains_key(#[trigger] hs[j].0)
        && hs[j].1.spec_areas() == handles[hs[j].0].spec_entity_relevance()
}

/// Replicates entities to connections while they are relevant to them: the handle of each
/// connection, by address, and which addresses each entity is relevant to.
pub struct Replicator<E: Hash, A: Hash> {
    connection_handles: HashMap<A, Handle>,
    entities_relevant: MultiSet<E, A>,
}

impl<E: Hash, A: Hash> Replicator<E, A> {
    pub closed spec fn spec_handles(&self) -> Map<A, Handle> {
        self.connection_handles@
    }

    pub closed spec fn spec_relevant(&self) -> Map<E, Set<A>> {
        self.entities_relevant@
    }
}

impl<E: Hash + Eq + Clone, A: Hash + Eq + Clone> Replicator<E, A> {
    /// No connection, and nothing relevant.
    pub fn new() -> (r: Self)
        ensures
            r.spec_handles() == Map::<A, Handle>::empty(),
            r.spec_relevant() == Map::<E, Set<A>>::empty(),
    {
        Replicator { connection_handles: HashMap::new(), entities_relevant: MultiSet::default() }
    }

    /// Adds the connection at `address`, to which nothing is relevant yet; it replaces a
    /// connection there was at that address.
    pub fn add_connection(&mut self, address: A)
        requires
            MultiSet::<E, A>::usable(),
        ensures
            final(self).spec_relevant() == old(self).spec_relevant(),
            final(self).spec_handles().dom() == old(self).spec_handles().dom().insert(address),
            final(self).spec_handles().remove(address) == old(self).spec_handles().remove(address),
            final(self).spec_handles()[address].spec_chunk_relevance() == Seq::<Area>::empty(),
            final(self).spec_handles()[address].spec_entity_relevance() == Seq::<Area>::empty(),
    {
        self.connection_handles.insert(address, Handle::new());
        proof {
            assert(self.spec_handles().remove(address) =~= old(self).spec_handles().remove(address));
        }
    }

    /// Which addresses each entity is relevant to.
    pub fn entities_relevant(&self) -> (r: &MultiSet<E, A>)
        ensures
            r@ == self.spec_relevant(),
    {
        &self.entities_relevant
    }

    /// The handle of the connection at `address`, if there is one.
    pub fn handle(&self, address: &A) -> (r: Option<&Handle>)
        requires
            MultiSet::<E, A>::usable(),
        ensures
            r is Some <==> self.spec_handles().contains_key(*address),
            r matches Some(h) ==> *h == self.spec_handles()[*address],
    {
        self.connection_handles.get(address)
    }

    /// Drops the connection at `address`, and takes its address from the addresses each entity
    /// is relevant to.
    pub fn remove_connection(&mut self, address: &A)
        requires
            MultiSet::<E, A>::usable(),
        ensures
            final(self).spec_handles() == old(self).spec_handles().remove(*address),
            final(self).spec_relevant() == old(self).spec_relevant().map_values(|s: Set<A>| s.remove(*address)),
    {
        self.connection_handles.remove(address);
        self.entities_relevant.remove_value(address);
    }
}

impl<E: Hash + Eq + Clone, A: Hash + Eq + Clone> Replicator<E, A> {
    /// One update of replication, from what was gathered of the world in `updates` and the
    /// chunks to send each connection in `new_chunks`. Destroyed entities are dropped from the
    /// record of relevance; each connection's handle takes in what is now relevant to it, and
    /// returns the world updates to pass on to it; the record takes in the operations, which are
    /// returned to be sent: those of destroyed entities, in no particular order, then the
    /// relevancy diffs of each update for each connection, the connections in no particular order.
    pub fn update<C>(&mut self, updates: EntityUpdates<E, A>, new_chunks: HashMap<A, Vec<C>>) -> (r: (
        OperationGroup<E, A>,
        HashMap<A, Vec<WorldUpdate<C>>>,
    ))
        requires
            MultiSet::<E, A>::usable(),
            forall|i: int, a: A| 0 <= i < updates.spec_updates().len() && old(self).spec_handles().contains_key(a) ==>
                #[trigger] update_fits(updates.spec_updates()[i], a, old(self).spec_handles()[a].spec_entity_relevance(), updates.spec_relevance()),
        ensures
            exists|hs: Seq<(A, Relevance)>| #[trigger] lists_handles(hs, old(self).spec_handles()) && destroyed_then_diffs(
                r.0.spec_ops(),
                old(self).spec_relevant(),
                updates.spec_destroyed(),
                diff_ops(updates.spec_updates(), hs, updates.spec_relevance()),
            ),
            final(self).spec_relevant() == record_all(old(self).spec_relevant().remove_keys(updates.spec_destroyed()), r.0.spec_ops()),
            final(self).spec_handles().dom() == old(self).spec_handles().dom(),
            r.1@.dom() == old(self).spec_handles().dom().intersect(updates.spec_relevance().dom()),
            forall|a: A| #[trigger] final(self).spec_handles().contains_key(a) ==> if updates.spec_relevance().contains_key(a) {
                let u = relevance_updates(updates.spec_relevance()[a], chunks_for(new_chunks@, a));
                let h = old(self).spec_handles()[a];
                &&& final(self).spec_handles()[a].spec_chunk_relevance() == chunk_after(h.spec_chunk_relevance(), u)
                &&& final(self).spec_handles()[a].spec_entity_relevance() == entity_after(h.spec_entity_relevance(), u)
                &&& r.1@[a]@ == world_updates_sent(h.spec_chunk_relevance(), u)
            } else {
                final(self).spec_handles()[a] == old(self).spec_handles()[a]
            },
    {
        let ghost h0 = self.spec_handles();
        let ghost rel = updates.spec_relevance();
        let ghost us = updates.spec_updates();
        let ghost destroyed = updates.spec_destroyed();
        let ghost nc0 = new_chunks@;
        let keys = keys_of(&self.connection_handles);
        let mut handle_list: Vec<(A, Relevance)> = Vec::new();
        for i in 0..keys.len()
            invariant
                MultiSet::<E, A>::usable(),
                self.spec_handles() == h0,
                keys@.to_set() == h0.dom(),
                handle_list@.len() == i,
                forall|j: int| 0 <= j < i ==> (#[trigger] handle_list@[j]).0 == keys@[j]
                    && handle_list@[j].1.spec_areas() == h0[keys@[j]].spec_entity_relevance(),
        {
            proof {
                assert(keys@.to_set().contains(keys@[i as int]));
            }
            let handle = self.connection_handles.get(&keys[i]).unwrap();
            handle_list.push((clone_of(&keys[i]), handle.entity_relevance().duplicate()));
        }
        proof {
            let hs = handle_list@;
            assert forall|x: int, y: int| 0 <= x < y < hs.len() implies #[trigger] hs[x].0 != #[trigger] hs[y].0 by {
                assert(hs[x].0 == keys@[x] && hs[y].0 == keys@[y]);
            }
            assert forall|a: A| #[trigger] h0.contains_key(a) <==> has_address(hs, a) by {
                if h0.contains_key(a) {
                    assert(keys@.to_set().contains(a));
                    let j = choose|j: int| 0 <= j < keys@.len() && keys@[j] == a;
                    assert(hs[j].0 == a);
                }
                if has_address(hs, a) {
                    let j = choose|j: int| 0 <= j < hs.len() && #[trigger] hs[j].0 == a;
                    assert(keys@.to_set().contains(keys@[j]));
                }
            }
            assert forall|j: int| 0 <= j < hs.len() implies h0.contains_key(#[trigger] hs[j].0)
                && hs[j].1.spec_areas() == h0[hs[j].0].spec_entity_relevance() by {
                assert(hs[j].0 == keys@[j]);
                assert(keys@.to_set().contains(keys@[j]));
            }
            assert(lists_handles(hs, h0));
            assert forall|i: int, j: int| 0 <= i < us.len() && 0 <= j < hs.len() implies #[trigger] diff_fits(us[i], #[trigger] hs[j], rel) by {
                assert(update_fits(us[i], hs[j].0, h0[hs[j].0].spec_entity_relevance(), rel));
            }
        }
        let operations = updates.as_operations(&mut self.entities_relevant, &handle_list);
        let ghost recorded_from = self.spec_relevant();
        let mut items = updates.into_items(new_chunks);
        let ghost items0 = items@;
        let mut sent: HashMap<A, Vec<WorldUpdate<C>>> = HashMap::new();
        for i in 0..keys.len()
            invariant
                MultiSet::<E, A>::usable(),
                keys@.to_set() == h0.dom(),
                keys@.no_duplicates(),
                self.spec_relevant() == recorded_from,
                items0.dom() == rel.dom(),
                forall|a: A| #[trigger] items0.contains_key(a) ==> items0[a]@ == relevance_updates(rel[a], chunks_for(nc0, a)),
                items@ == items0.remove_keys(keys@.take(i as int).to_set()),
                self.spec_handles().dom() == h0.dom(),
                sent@.dom() == keys@.take(i as int).to_set().intersect(rel.dom()),
                forall|a: A| #[trigger] self.spec_handles().contains_key(a) ==> if keys@.take(i as int).contains(a) && rel.contains_key(a) {
                    let u = relevance_updates(rel[a], chunks_for(nc0, a));
                    &&& self.spec_handles()[a].spec_chunk_relevance() == chunk_after(h0[a].spec_chunk_relevance(), u)
                    &&& self.spec_handles()[a].spec_entity_relevance() == entity_after(h0[a].spec_entity_relevance(), u)
                    &&& sent@[a]@ == world_updates_sent(h0[a].spec_chunk_relevance(), u)
                } else {
                    self.spec_handles()[a] == h0[a]
                },
        {
            let key = &keys[i];
            let ghost done = keys@.take(i as int).to_set();
            proof {
                crate::common::utility::multi_hash_map::lemma_prefix_step(keys@, i as int);
                assert(keys@.to_set().contains(*key));
                assert(keys@.take(i as int).to_set().contains(*key) == keys@.take(i as int).contains(*key));
            }
            if let Some(relevance_updates) = items.remove(key) {
                let mut handle = self.connection_handles.remove(key).unwrap();
                let world_updates = handle.send_relevance_updates(relevance_updates);
                self.connection_handles.insert(clone_of(key), handle);
                sent.insert(clone_of(key), world_updates);
            }
            proof {
                assert(keys@.take(i + 1).to_set() == done.insert(*key));
                assert(items@ =~= items0.remove_keys(done.insert(*key)));
                assert(self.spec_handles().dom() =~= h0.dom());
                assert(sent@.dom() =~= done.insert(*key).intersect(rel.dom()));
                assert forall|a: A| #[trigger] keys@.take(i + 1).contains(a) <==> (keys@.take(i as int).contains(a) || a == *key) by {
                    crate::common::utility::multi_hash_map::lemma_take_next_contains(keys@, i as int, a);
                }
            }
        }
        proof {
            assert(keys@.take(keys@.len() as int) =~= keys@);
            assert(sent@.dom() =~= h0.dom().intersect(rel.dom()));
        }
        operations.record(&mut self.entities_relevant);
        proof {
            assert(lists_handles(handle_list@, h0));
        }
        (operations, sent)
    }
}

/// A connection's handle that takes in the updates of what is relevant to it, from the relevance
/// `p` gathered for it and the chunks to send it, ends up holding that relevance; it passes on
/// the chunk relevance only where it changed, and then the chunks.
pub proof fn lemma_handle_takes_relevance<C>(chunk: Seq<Area>, entity: Seq<Area>, p: PairedRelevance, new_chunks: Option<Vec<C>>)
    ensures
        chunk_after(chunk, relevance_updates(p, new_chunks)) == p.chunk.spec_areas(),
        entity_after(entity, relevance_updates(p, new_chunks)) == p.entity.spec_areas(),
        world_updates_sent(chunk, relevance_updates(p, new_chunks)) == (if p.chunk.spec_areas() == chunk {
            Seq::<WorldUpdate<C>>::empty()
        } else {
            seq![WorldUpdate::Relevance(p.chunk)]
        }) + match new_chunks {
            Some(c) => seq![WorldUpdate::Chunks(c)],
            None => Seq::<WorldUpdate<C>>::empty(),
        },
{
    let u = relevance_updates(p, new_chunks);
    let one = seq![Update::<C>::Entity(p.entity)];
    let two = seq![Update::Entity(p.entity), Update::World(WorldUpdate::Relevance(p.chunk))];
    assert(one.drop_last() =~= Seq::<Update<C>>::empty());
    assert(chunk_after(chunk, Seq::<Update<C>>::empty()) == chunk);
    assert(world_updates_sent(chunk, Seq::<Update<C>>::empty()) == Seq::<WorldUpdate<C>>::empty());
    assert(two.drop_last() =~= one);
    assert(chunk_after(chunk, one) == chunk);
    assert(entity_after(entity, one) == p.entity.spec_areas());
    assert(world_updates_sent(chunk, one) =~= Seq::<WorldUpdate<C>>::empty());
    assert(chunk_after(chunk, two) == p.chunk.spec_areas());
    assert(entity_after(entity, two) == p.entity.spec_areas());
    let sent_two = if p.chunk.spec_areas() == chunk {
        Seq::<WorldUpdate<C>>::empty()
    } else {
        seq![WorldUpdate::Relevance(p.chunk)]
    };
    assert(world_updates_sent(chunk, two) =~= sent_two);
    match new_chunks {
        Some(c) => {
            assert(u.drop_last() =~= two);
            assert(world_updates_sent(chunk, u) =~= sent_two + seq![WorldUpdate::Chunks(c)]);
        },
        None => {
            assert(u =~= two);
            assert(sent_two + Seq::<WorldUpdate<C>>::empty() =~= sent_two);
        },
    }
}

/// The record of relevance follows the connections over an update of the replicator. After an
/// update, each updated entity is recorded as relevant to the address of each connection exactly
/// when its new chunk is relevant by the entity relevance gathered for that address, each
/// destroyed entity is recorded as relevant to no address, and every other entity and address
/// keeps its record; this where the updates are of distinct entities that are not destroyed, and
/// the record agreed beforehand with the entity relevance of each connection's handle at the old
/// chunk of each updated entity.
pub proof fn lemma_update_tracks_relevance<E, A>(
    relevant: Map<E, Set<A>>,
    handles: Map<A, Handle>,
    destroyed: Set<E>,
    ops: Seq<(EntityOperation, A, E)>,
    us: Seq<UpdatedEntity<E>>,
    relevance: Map<A, PairedRelevance>,
)
    requires
        exists|hs: Seq<(A, Relevance)>| #[trigger] lists_handles(hs, handles)
            && destroyed_then_diffs(ops, relevant, destroyed, diff_ops(us, hs, relevance)),
        distinct_entities(us),
        forall|i: int| 0 <= i < us.len() ==> !destroyed.contains(#[trigger] us[i].entity),
        forall|i: int, a: A| 0 <= i < us.len() && handles.contains_key(a) ==>
            #[trigger] records(relevant, us[i].entity, a) == was_relevant_in(us[i], handles[a].spec_entity_relevance()),
    ensures
        forall|i: int, a: A| 0 <= i < us.len() && handles.contains_key(a) ==>
            #[trigger] records(record_all(relevant.remove_keys(destroyed), ops), us[i].entity, a) == now_relevant(us[i], relevance, a),
        forall|e: E, a: A| destroyed.contains(e) ==> !#[trigger] records(record_all(relevant.remove_keys(destroyed), ops), e, a),
        forall|e: E, a: A| !destroyed.contains(e) && (!has_entity(us, e) || !handles.contains_key(a)) ==>
            #[trigger] records(record_all(relevant.remove_keys(destroyed), ops), e, a) == records(relevant, e, a),
{
    let hs = choose|hs: Seq<(A, Relevance)>| #[trigger] lists_handles(hs, handles)
        && destroyed_then_diffs(ops, relevant, destroyed, diff_ops(us, hs, relevance));
    assert forall|i: int, j: int| 0 <= i < us.len() && 0 <= j < hs.len() implies
        #[trigger] records(relevant, us[i].entity, #[trigger] hs[j].0) == was_relevant(us[i], hs[j].1) by {
        assert(handles.contains_key(hs[j].0));
        assert(records(relevant, us[i].entity, hs[j].0) == was_relevant_in(us[i], handles[hs[j].0].spec_entity_relevance()));
    }
    lemma_operations_record_relevance(relevant, destroyed, ops, us, hs, relevance);
    let after = record_all(relevant.remove_keys(destroyed), ops);
    assert forall|i: int, a: A| 0 <= i < us.len() && handles.contains_key(a) implies
        #[trigger] records(after, us[i].entity, a) == now_relevant(us[i], relevance, a) by {
        assert(has_address(hs, a));
        let j = choose|j: int| 0 <= j < hs.len() && #[trigger] hs[j].0 == a;
        assert(records(after, us[i].entity, hs[j].0) == now_relevant(us[i], relevance, hs[j].0));
    }
    assert forall|e: E, a: A| !destroyed.contains(e) && (!has_entity(us, e) || !handles.contains_key(a)) implies
        #[trigger] records(after, e, a) == records(relevant, e, a) by {
        if handles.contains_key(a) {
        } else {
            assert(!has_address(hs, a));
        }
    }
}

} // verus!
