use crate::common::world::point::Point3;
use vstd::prelude::*;

verus! {

/// Whether no two blocks of `blocks` share an offset.
pub open spec fn unique_offsets<P, Id>(blocks: Seq<(P, Id)>) -> bool {
    forall|i: int, j: int| 0 <= i < j < blocks.len() ==> #[trigger] blocks[i].0 != #[trigger] blocks[j].0
}

/// Whether some block of `blocks` is at `offset`.
pub open spec fn has_offset<P, Id>(blocks: Seq<(P, Id)>, offset: P) -> bool {
    exists|i: int| 0 <= i < blocks.len() && #[trigger] blocks[i].0 == offset
}

/// The id of each block of `blocks`, by offset.
pub open spec fn block_map<P, Id>(blocks: Seq<(P, Id)>) -> Map<P, Id> {
    Map::new(
        |p: P| has_offset(blocks, p),
        |p: P| blocks[choose|i: int| 0 <= i < blocks.len() && #[trigger] blocks[i].0 == p].1,
    )
}

/// A block of `blocks` is what the map holds at its offset, where no offset repeats.
pub proof fn lemma_block_map_index<P, Id>(blocks: Seq<(P, Id)>, i: int)
    requires
        unique_offsets(blocks),
        0 <= i < blocks.len(),
    ensures
        block_map(blocks).contains_key(blocks[i].0),
        block_map(blocks)[blocks[i].0] == blocks[i].1,
{
    let p = blocks[i].0;
    assert(has_offset(blocks, p));
    let k = choose|k: int| 0 <= k < blocks.len() && #[trigger] blocks[k].0 == p;
    if k != i {
        if k < i {
            assert(blocks[k].0 != blocks[i].0);
        } else {
            assert(blocks[i].0 != blocks[k].0);
        }
    }
}

/// Giving the block at index `i` another id gives that id to its offset in the map.
pub proof fn lemma_block_map_set<P, Id>(blocks: Seq<(P, Id)>, i: int, id: Id)
    requires
        unique_offsets(blocks),
        0 <= i < blocks.len(),
    ensures
        unique_offsets(blocks.update(i, (blocks[i].0, id))),
        block_map(blocks.update(i, (blocks[i].0, id))) == block_map(blocks).insert(blocks[i].0, id),
{
    let n = blocks.update(i, (blocks[i].0, id));
    assert(unique_offsets(n)) by {
        assert forall|a: int, b: int| 0 <= a < b < n.len() implies #[trigger] n[a].0 != #[trigger] n[b].0 by {
            assert(n[a].0 == blocks[a].0 && n[b].0 == blocks[b].0);
        }
    }
    assert forall|q: P| #[trigger] has_offset(n, q) == (has_offset(blocks, q) || q == blocks[i].0) by {
        if has_offset(n, q) {
            let k = choose|k: int| 0 <= k < n.len() && #[trigger] n[k].0 == q;
            assert(blocks[k].0 == q);
        }
        if has_offset(blocks, q) {
            let k = choose|k: int| 0 <= k < blocks.len() && #[trigger] blocks[k].0 == q;
            assert(n[k].0 == q);
        }
        if q == blocks[i].0 {
            assert(n[i].0 == q);
        }
    }
    assert forall|q: P| #[trigger] block_map(n).contains_key(q) implies block_map(n)[q] == block_map(blocks).insert(blocks[i].0, id)[q] by {
        let k = choose|k: int| 0 <= k < n.len() && #[trigger] n[k].0 == q;
        lemma_block_map_index(n, k);
        if k != i {
            lemma_block_map_index(blocks, k);
        }
    }
    assert(block_map(n) =~= block_map(blocks).insert(blocks[i].0, id));
}

/// Adding a block at an offset no block has adds its id at that offset to the map.
pub proof fn lemma_block_map_push<P, Id>(blocks: Seq<(P, Id)>, offset: P, id: Id)
    requires
        unique_offsets(blocks),
        !has_offset(blocks, offset),
    ensures
        unique_offsets(blocks.push((offset, id))),
        block_map(blocks.push((offset, id))) == block_map(blocks).insert(offset, id),
{
    let n = blocks.push((offset, id));
    assert(unique_offsets(n)) by {
        assert forall|a: int, b: int| 0 <= a < b < n.len() implies #[trigger] n[a].0 != #[trigger] n[b].0 by {
            if b == blocks.len() {
                assert(blocks[a].0 != offset);
            } else {
                assert(n[a].0 == blocks[a].0 && n[b].0 == blocks[b].0);
            }
        }
    }
    assert forall|q: P| #[trigger] has_offset(n, q) == (has_offset(blocks, q) || q == offset) by {
        if has_offset(n, q) {
            let k = choose|k: int| 0 <= k < n.len() && #[trigger] n[k].0 == q;
            if k < blocks.len() {
                assert(blocks[k].0 == q);
            }
        }
        if has_offset(blocks, q) {
            let k = choose|k: int| 0 <= k < blocks.len() && #[trigger] blocks[k].0 == q;
            assert(n[k].0 == q);
        }
        if q == offset {
            assert(n[blocks.len() as int].0 == q);
        }
    }
    assert forall|q: P| #[trigger] block_map(n).contains_key(q) implies block_map(n)[q] == block_map(blocks).insert(offset, id)[q] by {
        let k = choose|k: int| 0 <= k < n.len() && #[trigger] n[k].0 == q;
        lemma_block_map_index(n, k);
        if k < blocks.len() {
            lemma_block_map_index(blocks, k);
        }
    }
    assert(block_map(n) =~= block_map(blocks).insert(offset, id));
}

/// Taking away the block at index `i` takes its offset out of the map.
pub proof fn lemma_block_map_remove<P, Id>(blocks: Seq<(P, Id)>, i: int)
    requires
        unique_offsets(blocks),
        0 <= i < blocks.len(),
    ensures
        unique_offsets(blocks.remove(i)),
        block_map(blocks.remove(i)) == block_map(blocks).remove(blocks[i].0),
{
    let n = blocks.remove(i);
    let old_index = |k: int| if k < i { k } else { k + 1 };
    assert(unique_offsets(n)) by {
        assert forall|a: int, b: int| 0 <= a < b < n.len() implies #[trigger] n[a].0 != #[trigger] n[b].0 by {
            assert(n[a] == blocks[old_index(a)] && n[b] == blocks[old_index(b)]);
        }
    }
    assert forall|q: P| #[trigger] has_offset(n, q) == (has_offset(blocks, q) && q != blocks[i].0) by {
        if has_offset(n, q) {
            let k = choose|k: int| 0 <= k < n.len() && #[trigger] n[k].0 == q;
            assert(n[k] == blocks[old_index(k)]);
            assert(blocks[old_index(k)].0 == q);
            if old_index(k) < i {
                assert(blocks[old_index(k)].0 != blocks[i].0);
            } else {
                assert(blocks[i].0 != blocks[old_index(k)].0);
            }
        }
        if has_offset(blocks, q) && q != blocks[i].0 {
            let k = choose|k: int| 0 <= k < blocks.len() && #[trigger] blocks[k].0 == q;
            if k < i {
                assert(n[k].0 == q);
            } else {
                assert(k != i);
                assert(n[k - 1].0 == q);
            }
        }
    }
    assert forall|q: P| #[trigger] block_map(n).contains_key(q) implies block_map(n)[q] == block_map(blocks)[q] by {
        let k = choose|k: int| 0 <= k < n.len() && #[trigger] n[k].0 == q;
        lemma_block_map_index(n, k);
        assert(n[k] == blocks[old_index(k)]);
        lemma_block_map_index(blocks, old_index(k));
    }
    assert(block_map(n) =~= block_map(blocks).remove(blocks[i].0));
}

/// A change of the blocks of a chunk, told to whoever listens to the chunk.
#[derive(Clone, Debug, PartialEq, Eq)]
pub enum WorldDelta<Id> {
    ChunkInserted(Point3<i64>, Vec<(Point3<usize>, Id)>),
    ChunkDropped(Point3<i64>, Vec<(Point3<usize>, Id)>),
    BlockInserted(Point3<i64>, Point3<usize>, Id),
    BlockDropped(Point3<i64>, Point3<usize>, Id),
}

/// The blocks `m` with the block at `point` set to `id`, or taken away where `id` is `None`.
pub open spec fn with_block<Id>(m: Map<Point3<usize>, Id>, point: Point3<usize>, id: Option<Id>) -> Map<Point3<usize>, Id> {
    match id {
        Some(block_id) => m.insert(point, block_id),
        None => m.remove(point),
    }
}

/// The change told to a listener, where there is one (`listened`), of a chunk at `coordinate`
/// with blocks `m` when the block at `point` is set to `id`: the block inserted, or the block
/// dropped where there was one.
pub open spec fn block_delta<Id>(
    m: Map<Point3<usize>, Id>,
    coordinate: Point3<i64>,
    listened: bool,
    point: Point3<usize>,
    id: Option<Id>,
) -> Option<WorldDelta<Id>> {
    if !listened {
        None
    } else {
        match id {
            Some(block_id) => Some(WorldDelta::BlockInserted(coordinate, point, block_id)),
            None => if m.contains_key(point) {
                Some(WorldDelta::BlockDropped(coordinate, point, m[point]))
            } else {
                None
            },
        }
    }
}

/// The blocks a listener holds after it applies `delta` to the blocks `m` it held.
pub open spec fn apply_delta<Id>(m: Map<Point3<usize>, Id>, delta: Option<WorldDelta<Id>>) -> Map<Point3<usize>, Id> {
    match delta {
        Some(WorldDelta::ChunkInserted(_, blocks)) => block_map(blocks@),
        Some(WorldDelta::ChunkDropped(_, _)) => Map::empty(),
        Some(WorldDelta::BlockInserted(_, point, block_id)) => m.insert(point, block_id),
        Some(WorldDelta::BlockDropped(_, point, _)) => m.remove(point),
        None => m,
    }
}

/// A listener that holds the blocks of a chunk it listens to, and applies the change it is told
/// when a block is set, holds the blocks of the chunk after.
pub proof fn lemma_listener_follows_block<Id>(m: Map<Point3<usize>, Id>, coordinate: Point3<i64>, point: Point3<usize>, id: Option<Id>)
    ensures
        apply_delta(m, block_delta(m, coordinate, true, point, id)) == with_block(m, point, id),
{
    if id is None && !m.contains_key(point) {
        assert(m.remove(point) =~= m);
    }
}

/// What is saved of a chunk: its coordinate and the id of each of its blocks, by offset.
#[derive(Clone, Debug, PartialEq, Eq)]
pub struct ChunkSaveData<Id> {
    pub coordinate: Point3<i64>,
    pub block_ids: Vec<(Point3<usize>, Id)>,
}

/// A chunk of the world: its coordinate, and the id, of type `Id`, of each block it holds, by
/// offset within the chunk. Once something listens to it, each change of its blocks is told as
/// a delta.
#[derive(Clone, Debug)]
pub struct Chunk<Id> {
    coordinate: Point3<i64>,
    blocks: Vec<(Point3<usize>, Id)>,
    listened: bool,
}

impl<Id> View for Chunk<Id> {
    type V = Map<Point3<usize>, Id>;

    /// The id of each block, by offset.
    closed spec fn view(&self) -> Map<Point3<usize>, Id> {
        block_map(self.blocks@)
    }
}

impl<Id> Chunk<Id> {
    /// No offset holds two blocks.
    pub closed spec fn wf(&self) -> bool {
        unique_offsets(self.blocks@)
    }

    pub closed spec fn spec_coordinate(&self) -> Point3<i64> {
        self.coordinate
    }

    /// Whether something listens to the changes of the chunk.
    pub closed spec fn spec_listened(&self) -> bool {
        self.listened
    }

    /// An empty chunk at `coordinate`, which nothing listens to.
    pub fn new(coordinate: Point3<i64>) -> (r: Self)
        ensures
            r.wf(),
            r@ == Map::<Point3<usize>, Id>::empty(),
            r.spec_coordinate() == coordinate,
            !r.spec_listened(),
    {
        let r = Chunk { coordinate, blocks: Vec::new(), listened: false };
        proof {
            assert(r@ =~= Map::<Point3<usize>, Id>::empty());
        }
        r
    }

    pub fn coordinate(&self) -> (r: &Point3<i64>)
        ensures
            *r == self.spec_coordinate(),
    {
        &self.coordinate
    }

    /// The index of the block at `offset`, if there is one.
    fn find(&self, offset: &Point3<usize>) -> (r: Option<usize>)
        requires
            self.wf(),
        ensures
            r matches Some(i) ==> i < self.blocks@.len() && self.blocks@[i as int].0 == *offset,
            r is None ==> !self@.contains_key(*offset),
    {
        let mut i: usize = 0;
        while i < self.blocks.len()
            invariant
                i <= self.blocks@.len(),
                forall|j: int| 0 <= j < i ==> #[trigger] self.blocks@[j].0 != *offset,
            decreases self.blocks@.len() - i,
        {
            if self.blocks[i].0 == *offset {
                return Some(i);
            }
            i = i + 1;
        }
        None
    }
}

impl<Id: Copy> Chunk<Id> {
    /// Each block with its id, no offset twice, in no particular order.
    pub fn block_ids(&self) -> (r: Vec<(Point3<usize>, Id)>)
        requires
            self.wf(),
        ensures
            unique_offsets(r@),
            block_map(r@) == self@,
    {
        let mut r: Vec<(Point3<usize>, Id)> = Vec::with_capacity(self.blocks.len());
        for i in 0..self.blocks.len()
            invariant
                r@ == self.blocks@.take(i as int),
        {
            r.push(self.blocks[i]);
            proof {
                assert(r@ =~= self.blocks@.take(i + 1));
            }
        }
        proof {
            assert(r@ =~= self.blocks@);
        }
        r
    }

    /// Sets the block at `point` to `id`, or takes it away where `id` is `None`. Where something
    /// listens to the chunk, returns the change to tell it: the block inserted, or the block
    /// dropped where there was one.
    pub fn set_block_id(&mut self, point: Point3<usize>, id: Option<Id>) -> (r: Option<WorldDelta<Id>>)
        requires
            old(self).wf(),
        ensures
            final(self).wf(),
            final(self).spec_coordinate() == old(self).spec_coordinate(),
            final(self).spec_listened() == old(self).spec_listened(),
            final(self)@ == with_block(old(self)@, point, id),
            r == block_delta(old(self)@, old(self).spec_coordinate(), old(self).spec_listened(), point, id),
    {
        match id {
            Some(block_id) => {
                match self.find(&point) {
                    Some(i) => {
                        proof {
                            lemma_block_map_set(self.blocks@, i as int, block_id);
                        }
                        self.blocks.set(i, (point, block_id));
                    },
                    None => {
                        proof {
                            lemma_block_map_push(self.blocks@, point, block_id);
                        }
                        self.blocks.push((point, block_id));
                    },
                }
                if self.listened {
                    Some(WorldDelta::BlockInserted(self.coordinate, point, block_id))
                } else {
                    None
                }
            },
            None => {
                match self.find(&point) {
                    Some(i) => {
                        proof {
                            lemma_block_map_index(self.blocks@, i as int);
                            lemma_block_map_remove(self.blocks@, i as int);
                        }
                        let (_, dropped) = self.blocks.remove(i);
                        if self.listened {
                            Some(WorldDelta::BlockDropped(self.coordinate, point, dropped))
                        } else {
                            None
                        }
                    },
                    None => {
                        proof {
                            assert(self@ =~= old(self)@.remove(point));
                        }
                        None
                    },
                }
            },
        }
    }

    /// What is saved of the chunk.
    pub fn to_save_data(&self) -> (r: ChunkSaveData<Id>)
        requires
            self.wf(),
        ensures
            r.coordinate == self.spec_coordinate(),
            unique_offsets(r.block_ids@),
            block_map(r.block_ids@) == self@,
    {
        ChunkSaveData { coordinate: self.coordinate, block_ids: self.block_ids() }
    }

    /// The chunk that was saved as `save_data`, which nothing listens to.
    pub fn from_save_data(save_data: ChunkSaveData<Id>) -> (r: Self)
        requires
            unique_offsets(save_data.block_ids@),
        ensures
            r.wf(),
            r.spec_coordinate() == save_data.coordinate,
            r@ == block_map(save_data.block_ids@),
            !r.spec_listened(),
    {
        Chunk { coordinate: save_data.coordinate, blocks: save_data.block_ids, listened: false }
    }

    /// Starts telling the changes of the chunk to a listener; returns the first change to tell
    /// it, the chunk inserted with all its blocks.
    pub fn listen(&mut self) -> (r: WorldDelta<Id>)
        requires
            old(self).wf(),
        ensures
            final(self).wf(),
            final(self)@ == old(self)@,
            final(self).spec_coordinate() == old(self).spec_coordinate(),
            final(self).spec_listened(),
            r matches WorldDelta::ChunkInserted(c, blocks) && c == old(self).spec_coordinate()
                && unique_offsets(blocks@) && block_map(blocks@) == old(self)@,
    {
        let blocks = self.block_ids();
        self.listened = true;
        WorldDelta::ChunkInserted(self.coordinate, blocks)
    }

    /// The change to tell a listener when the chunk is dropped, the chunk dropped with all its
    /// blocks; none where nothing listens.
    pub fn dropped(&self) -> (r: Option<WorldDelta<Id>>)
        requires
            self.wf(),
        ensures
            !self.spec_listened() ==> r is None,
            self.spec_listened() ==> (r matches Some(WorldDelta::ChunkDropped(c, blocks)) && c == self.spec_coordinate()
                && unique_offsets(blocks@) && block_map(blocks@) == self@),
    {
        if self.listened {
            Some(WorldDelta::ChunkDropped(self.coordinate, self.block_ids()))
        } else {
            None
        }
    }
}

} // verus!
