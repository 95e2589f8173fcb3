use crystal_sphinx::common::world::chunk::{Chunk, WorldDelta};
use crystal_sphinx::common::world::generator::flat::Flat;
use crystal_sphinx::common::world::point::Point3;
use std::collections::HashMap;

fn blocks(chunk: &Chunk<u16>) -> HashMap<Point3<usize>, u16> {
    chunk.block_ids().into_iter().collect()
}

#[test]
fn chunk_blocks_and_deltas() {
    let coordinate = Point3::new(1, -2, 3);
    let a = Point3::new(0, 0, 0);
    let b = Point3::new(4, 5, 6);
    let mut chunk: Chunk<u16> = Chunk::new(coordinate);
    assert_eq!(chunk.coordinate(), &coordinate);
    // Nothing listens yet: no deltas.
    assert_eq!(chunk.set_block_id(a, Some(5)), None);
    assert_eq!(chunk.dropped(), None);
    match chunk.listen() {
        WorldDelta::ChunkInserted(c, inserted) => {
            assert_eq!(c, coordinate);
            assert_eq!(inserted, vec![(a, 5)]);
        }
        other => panic!("unexpected {:?}", other),
    }
    assert_eq!(chunk.set_block_id(b, Some(6)), Some(WorldDelta::BlockInserted(coordinate, b, 6)));
    assert_eq!(chunk.set_block_id(b, Some(7)), Some(WorldDelta::BlockInserted(coordinate, b, 7)));
    assert_eq!(blocks(&chunk), HashMap::from([(a, 5), (b, 7)]));
    // Taking away a block that is not there tells nothing.
    assert_eq!(chunk.set_block_id(Point3::new(9, 9, 9), None), None);
    assert_eq!(chunk.set_block_id(a, None), Some(WorldDelta::BlockDropped(coordinate, a, 5)));
    assert_eq!(chunk.dropped(), Some(WorldDelta::ChunkDropped(coordinate, vec![(b, 7)])));
}

#[test]
fn chunk_save_data_round_trip() {
    let mut chunk: Chunk<u16> = Chunk::new(Point3::new(0, 1, 0));
    chunk.set_block_id(Point3::new(1, 2, 3), Some(8));
    chunk.set_block_id(Point3::new(3, 2, 1), Some(9));
    let saved = chunk.to_save_data();
    assert_eq!(saved.coordinate, Point3::new(0, 1, 0));
    let loaded = Chunk::from_save_data(saved);
    assert_eq!(blocks(&loaded), blocks(&chunk));
    assert_eq!(loaded.dropped(), None);
}

#[test]
fn classic_flat_chunk_at_origin() {
    let flat = Flat::classic(Some(1u16), Some(2), Some(3), Some(4), 9, 7);
    let chunk = flat.generate_chunk(Point3::new(0, 0, 0));
    let placed = blocks(&chunk);
    assert_eq!(placed.len(), 14 * 14 * 7 + 1);
    assert_eq!(placed[&Point3::new(8, 10, 8)], 7);
    let layer = [1u16, 2, 2, 2, 3, 3, 4];
    for (p, id) in placed.iter() {
        if *p == Point3::new(8, 10, 8) {
            continue;
        }
        assert!(1 <= p.x && p.x < 15 && 1 <= p.z && p.z < 15 && p.y < 7);
        if p.y == 0 {
            assert_eq!(*id, 1);
        } else {
            assert!(*id == layer[p.y] || *id == 9);
        }
    }
    // The border of the chunk stays empty.
    assert!(!placed.contains_key(&Point3::new(0, 3, 5)));
    assert!(!placed.contains_key(&Point3::new(15, 3, 5)));
}

#[test]
fn flat_chunks_elsewhere() {
    let flat = Flat::classic(Some(1u16), Some(2), Some(3), Some(4), 9, 7);
    let side = flat.generate_chunk(Point3::new(3, 0, -2));
    assert_eq!(blocks(&side).len(), 14 * 14 * 7);
    assert!(!blocks(&side).contains_key(&Point3::new(8, 10, 8)));
    let above = flat.generate_chunk(Point3::new(0, 1, 0));
    assert!(blocks(&above).is_empty());
    let below = flat.generate_chunk(Point3::new(1, -1, 0));
    assert!(blocks(&below).is_empty());
}

#[test]
fn flat_layers_left_out_where_not_found() {
    let flat = Flat::classic(None, Some(2u16), None, None, 9, 7);
    let placed = blocks(&flat.generate_chunk(Point3::new(2, 0, 2)));
    assert_eq!(placed.len(), 14 * 14 * 3);
    assert!(placed.keys().all(|p| 1 <= p.y && p.y <= 3));
    let mut empty = Flat::new(9u16, 7);
    empty.insert((0, 0), None);
    assert!(blocks(&empty.generate_chunk(Point3::new(2, 0, 2))).is_empty());
    empty.insert((-1, 15), Some(5));
    let placed = blocks(&empty.generate_chunk(Point3::new(2, -1, 2)));
    assert_eq!(placed.len(), 14 * 14);
    assert!(placed.iter().all(|(p, id)| p.y == 15 && (*id == 5 || *id == 9)));
}

#[test]
fn glass_chance() {
    let flat = Flat::new(9u16, 7);
    assert_eq!(flat.pick_block(1, 0), 9);
    assert_eq!(flat.pick_block(1, 14), 9);
    assert_eq!(flat.pick_block(1, 15), 1);
    assert_eq!(flat.pick_block(1, 99), 1);
    assert_eq!(flat.pick_block(1, 114), 9);
    assert_eq!(flat.pick_block(1, 215), 1);
}
