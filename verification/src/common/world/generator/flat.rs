use crate::common::world::chunk::Chunk;
use crate::common::world::point::Point3;
use std::collections::HashMap;
use vstd::prelude::*;
use vstd::std_specs::hash::group_hash_axioms;

verus! {

broadcast use group_hash_axioms;

/// A random `usize`, from the generator of the current thread: `rand::random`. Nothing is
/// claimed of the value.
#[verifier::external_body]
fn random_usize() -> usize {
    rand::random::<usize>()
}

/// Whether the flat generator places a block at offset `p` of a chunk whose block layers, by
/// height, are `layer`: at each height with a layer, in a square that leaves a border of one
/// block on each side.
pub open spec fn in_flat_layer<Id>(layer: Map<usize, Id>, p: Point3<usize>) -> bool {
    &&& layer.contains_key(p.y)
    &&& p.y < 16
    &&& 1 <= p.x < 15
    &&& 1 <= p.z < 15
}

/// Whether `id` may be the block the flat generator places at offset `p`: the block of its
/// layer, or glass at any block height above 0.
pub open spec fn flat_block<Id>(layer: Map<usize, Id>, glass_id: Id, p: Point3<usize>, id: Id) -> bool {
    id == layer[p.y] || (p.y > 0 && id == glass_id)
}

/// Whether the flat generator has placed the block at offset `p` before it comes to block
/// height `y`, row `x`, column `z` of its layers, which it goes through in that order.
pub open spec fn placed_before<Id>(layer: Map<usize, Id>, p: Point3<usize>, y: int, x: int, z: int) -> bool {
    &&& in_flat_layer(layer, p)
    &&& (p.y < y || (p.y == y && (p.x < x || (p.x == x && p.z < z))))
}

/// The offset of the debug block in the chunk at the origin.
pub open spec fn debug_offset() -> Point3<usize> {
    Point3 { x: 8, y: 10, z: 8 }
}

/// Whether offset `p` of the chunk at `coordinate` is the debug block, which the chunk at the
/// origin gets.
pub open spec fn is_debug_block(coordinate: Point3<i64>, p: Point3<usize>) -> bool {
    coordinate == (Point3::<i64> { x: 0, y: 0, z: 0 }) && p == debug_offset()
}

/// Only the chunk at the origin gets a debug block, and only at offset (8, 10, 8).
pub proof fn lemma_debug_block_only_at_origin(coordinate: Point3<i64>, p: Point3<usize>)
    ensures
        is_debug_block(coordinate, p) <==> (coordinate.x == 0 && coordinate.y == 0 && coordinate.z == 0 && p.x == 8
            && p.y == 10 && p.z == 8),
{
}

/// A world generator of flat layers of blocks, of type `Id`, by chunk height and block height,
/// with random glass blocks, and a debug block in the chunk at the origin.
pub struct Flat<Id> {
    layers: HashMap<i64, HashMap<usize, Id>>,
    glass_id: Id,
    debug_id: Id,
}

impl<Id> Flat<Id> {
    /// For each chunk height with layers, the block of each layer by block height.
    pub closed spec fn spec_layers(&self) -> Map<i64, Map<usize, Id>> {
        self.layers@.map_values(|m: HashMap<usize, Id>| m@)
    }

    pub closed spec fn spec_glass_id(&self) -> Id {
        self.glass_id
    }

    pub closed spec fn spec_debug_id(&self) -> Id {
        self.debug_id
    }

    /// The layers of chunks at height `y`, none where there are none.
    pub open spec fn layers_at(&self, y: i64) -> Map<usize, Id> {
        if self.spec_layers().contains_key(y) {
            self.spec_layers()[y]
        } else {
            Map::empty()
        }
    }

    /// A generator with no layers, which places `glass_id` for glass and `debug_id` for the
    /// debug block.
    pub fn new(glass_id: Id, debug_id: Id) -> (r: Self)
        ensures
            r.spec_layers() == Map::<i64, Map<usize, Id>>::empty(),
            r.spec_glass_id() == glass_id,
            r.spec_debug_id() == debug_id,
    {
        let r = Flat { layers: HashMap::new(), glass_id, debug_id };
        proof {
            assert(r.spec_layers() =~= Map::<i64, Map<usize, Id>>::empty());
        }
        r
    }

    /// Sets the block of the layer at block height `layer.1` of chunks at height `layer.0` to
    /// `id`, the block looked up; nothing where the lookup found none.
    pub fn insert(&mut self, layer: (i64, usize), id: Option<Id>)
        ensures
            final(self).spec_glass_id() == old(self).spec_glass_id(),
            final(self).spec_debug_id() == old(self).spec_debug_id(),
            final(self).spec_layers() == match id {
                Some(block_id) => old(self).spec_layers().insert(layer.0, old(self).layers_at(layer.0).insert(layer.1, block_id)),
                None => old(self).spec_layers(),
            },
    {
        let block_id = match id {
            Some(block_id) => block_id,
            None => return,
        };
        let mut chunk_layer = match self.layers.remove(&layer.0) {
            Some(chunk_layer) => chunk_layer,
            None => HashMap::new(),
        };
        chunk_layer.insert(layer.1, block_id);
        self.layers.insert(layer.0, chunk_layer);
        proof {
            assert(self.spec_layers() =~= old(self).spec_layers().insert(layer.0, old(self).layers_at(layer.0).insert(layer.1, block_id)));
        }
    }

    /// The block placed in a layer whose block is `layer_id`, at a block height above 0, from a
    /// random draw `roll`: glass, where the draw falls in its chance of 15 in 100, else the
    /// block of the layer.
    pub fn pick_block(&self, layer_id: Id, roll: usize) -> (r: Id)
        where Id: Copy,
        ensures
            r == (if roll % 100 < 15 {
                self.spec_glass_id()
            } else {
                layer_id
            }),
    {
        let chance = roll % 100;
        if chance < 15 {
            self.glass_id
        } else {
            layer_id
        }
    }

    /// A chunk at `coordinate`, which nothing listens to, with a block at each offset of each
    /// layer of its height, in a square that leaves a border of one block on each side; at block
    /// heights above 0 each block is glass by a random chance of 15 in 100. The chunk at the
    /// origin also gets the debug block.
    pub fn generate_chunk(&self, coordinate: Point3<i64>) -> (r: Chunk<Id>)
        where Id: Copy,
        ensures
            r.wf(),
            r.spec_coordinate() == coordinate,
            !r.spec_listened(),
            forall|p: Point3<usize>| #[trigger] r@.contains_key(p) <==> (in_flat_layer(self.layers_at(coordinate.y), p)
                || is_debug_block(coordinate, p)),
            forall|p: Point3<usize>| #[trigger] r@.contains_key(p) ==> (if is_debug_block(coordinate, p) {
                r@[p] == self.spec_debug_id()
            } else {
                flat_block(self.layers_at(coordinate.y), self.spec_glass_id(), p, r@[p])
            }),
            coordinate.x != 0 || coordinate.y != 0 || coordinate.z != 0 ==> forall|p: Point3<usize>| #[trigger]
                r@.contains_key(p) ==> in_flat_layer(self.layers_at(coordinate.y), p)
                    && flat_block(self.layers_at(coordinate.y), self.spec_glass_id(), p, r@[p]),
            coordinate.x == 0 && coordinate.y == 0 && coordinate.z == 0 ==> r@.contains_key(
                Point3 { x: 8usize, y: 10usize, z: 8usize },
            ) && r@[Point3 { x: 8usize, y: 10usize, z: 8usize }] == self.spec_debug_id(),
    {
        let mut chunk: Chunk<Id> = Chunk::new(coordinate);
        let ghost layer = self.layers_at(coordinate.y);
        let ghost glass = self.spec_glass_id();
        if let Some(layers) = self.layers.get(&coordinate.y) {
            proof {
                assert(layers@ == layer);
            }
            for y in 0..16usize
                invariant
                    layers@ == layer,
                    glass == self.spec_glass_id(),
                    chunk.wf(),
                    chunk.spec_coordinate() == coordinate,
                    !chunk.spec_listened(),
                    forall|p: Point3<usize>| #[trigger] chunk@.contains_key(p) <==> placed_before(layer, p, y as int, 0, 0),
                    forall|p: Point3<usize>| #[trigger] chunk@.contains_key(p) ==> flat_block(layer, glass, p, chunk@[p]),
            {
                if let Some(block_id) = layers.get(&y) {
                    let block_id = *block_id;
                    for x in 1..15usize
                        invariant
                            layers@ == layer,
                            glass == self.spec_glass_id(),
                            y < 16,
                            layer.contains_key(y),
                            layer[y] == block_id,
                            chunk.wf(),
                            chunk.spec_coordinate() == coordinate,
                            !chunk.spec_listened(),
                            forall|p: Point3<usize>| #[trigger] chunk@.contains_key(p) <==> placed_before(layer, p, y as int, x as int, 0),
                            forall|p: Point3<usize>| #[trigger] chunk@.contains_key(p) ==> flat_block(layer, glass, p, chunk@[p]),
                    {
                        for z in 1..15usize
                            invariant
                                layers@ == layer,
                                glass == self.spec_glass_id(),
                                y < 16,
                                1 <= x < 15,
                                layer.contains_key(y),
                                layer[y] == block_id,
                                chunk.wf(),
                                chunk.spec_coordinate() == coordinate,
                                !chunk.spec_listened(),
                                forall|p: Point3<usize>| #[trigger] chunk@.contains_key(p) <==> placed_before(layer, p, y as int, x as int, z as int),
                                forall|p: Point3<usize>| #[trigger] chunk@.contains_key(p) ==> flat_block(layer, glass, p, chunk@[p]),
                        {
                            let block = if y > 0 {
                                self.pick_block(block_id, random_usize())
                            } else {
                                block_id
                            };
                            let point = Point3::new(x, y, z);
                            chunk.set_block_id(point, Some(block));
                            proof {
                                assert forall|p: Point3<usize>| #[trigger] chunk@.contains_key(p) <==> placed_before(layer, p, y as int, x as int, z + 1) by {
                                    if p == point {
                                        assert(placed_before(layer, p, y as int, x as int, z + 1));
                                    }
                                }
                            }
                        }
                        proof {
                            assert forall|p: Point3<usize>| #[trigger] chunk@.contains_key(p) <==> placed_before(layer, p, y as int, x + 1, 0) by {
                                assert(placed_before(layer, p, y as int, x as int, 15) == placed_before(layer, p, y as int, x + 1, 0));
                            }
                        }
                    }
                    proof {
                        assert forall|p: Point3<usize>| #[trigger] chunk@.contains_key(p) <==> placed_before(layer, p, y + 1, 0, 0) by {
                            assert(placed_before(layer, p, y as int, 15, 0) == placed_before(layer, p, y + 1, 0, 0));
                        }
                    }
                } else {
                    proof {
                        assert forall|p: Point3<usize>| #[trigger] chunk@.contains_key(p) <==> placed_before(layer, p, y + 1, 0, 0) by {
                            assert(placed_before(layer, p, y as int, 0, 0) == placed_before(layer, p, y + 1, 0, 0));
                        }
                    }
                }
            }
            proof {
                assert forall|p: Point3<usize>| #[trigger] chunk@.contains_key(p) <==> in_flat_layer(layer, p) by {
                    assert(placed_before(layer, p, 16, 0, 0) == in_flat_layer(layer, p));
                }
            }
        } else {
            proof {
                assert(layer =~= Map::<usize, Id>::empty());
            }
        }
        let origin = Point3::new(0i64, 0i64, 0i64);
        if coordinate == origin {
            chunk.set_block_id(Point3::new(8, 10, 8), Some(self.debug_id));
        }
        chunk
    }

    /// The classic flat world, from the blocks looked up for it: bedrock at the bottom of the
    /// chunks at height 0, three layers of stone, two of dirt and one of grass above it; a block
    /// whose lookup found none is left out.
    pub fn classic(bedrock: Option<Id>, stone: Option<Id>, dirt: Option<Id>, grass: Option<Id>, glass_id: Id, debug_id: Id) -> (r: Self)
        where Id: Copy,
        ensures
            r.spec_glass_id() == glass_id,
            r.spec_debug_id() == debug_id,
            r.spec_layers() == classic_layers(bedrock, stone, dirt, grass),
    {
        let mut cfg = Flat::new(glass_id, debug_id);
        cfg.insert((0, 0), bedrock);
        cfg.insert((0, 1), stone);
        cfg.insert((0, 2), stone);
        cfg.insert((0, 3), stone);
        cfg.insert((0, 4), dirt);
        cfg.insert((0, 5), dirt);
        cfg.insert((0, 6), grass);
        proof {
            let layer = classic_layer(bedrock, stone, dirt, grass);
            if bedrock is None && stone is None && dirt is None && grass is None {
                assert(cfg.spec_layers() =~= Map::<i64, Map<usize, Id>>::empty());
            } else {
                assert(cfg.spec_layers().contains_key(0));
                assert(cfg.layers_at(0) =~= layer);
                assert(cfg.spec_layers() =~= map![0i64 => layer]);
            }
        }
        cfg
    }
}

/// The block of the classic flat world at block height `y` of the chunks at height 0, where it
/// was found: bedrock at 0, stone at 1 to 3, dirt at 4 and 5, grass at 6.
pub open spec fn classic_block<Id>(bedrock: Option<Id>, stone: Option<Id>, dirt: Option<Id>, grass: Option<Id>, y: usize) -> Option<Id> {
    if y == 0 {
        bedrock
    } else if 1 <= y <= 3 {
        stone
    } else if 4 <= y <= 5 {
        dirt
    } else if y == 6 {
        grass
    } else {
        None
    }
}

/// The blocks of the classic flat world by block height, in the chunks at height 0.
pub open spec fn classic_layer<Id>(bedrock: Option<Id>, stone: Option<Id>, dirt: Option<Id>, grass: Option<Id>) -> Map<usize, Id> {
    Map::new(
        |y: usize| classic_block(bedrock, stone, dirt, grass, y) is Some,
        |y: usize| classic_block(bedrock, stone, dirt, grass, y)->Some_0,
    )
}

/// The layers of the classic flat world: its blocks at chunk height 0, where any was found.
pub open spec fn classic_layers<Id>(bedrock: Option<Id>, stone: Option<Id>, dirt: Option<Id>, grass: Option<Id>) -> Map<i64, Map<usize, Id>> {
    if bedrock is None && stone is None && dirt is None && grass is None {
        Map::empty()
    } else {
        map![0i64 => classic_layer(bedrock, stone, dirt, grass)]
    }
}

} // verus!
