use std::sync::Arc;

use voxel_world::{
    border_block_light_changed, compute_light, propagate_block_light, propagate_skylight, Block,
    BlockId, BlockKind, ChunkDataInner, IVec3, LightDataInner, PackedData, Registry,
    RelevantChunks, RelevantLights, USizeVec3,
};

const ORIGIN: IVec3 = IVec3 { x: 0, y: 0, z: 0 };

struct Blocks {
    registry: Registry,
    rock: Block,
    glass: Block,
    glowstone: Block,
}

fn blocks() -> Blocks {
    let mut registry = Registry::new();
    let rock = Block::new(registry.register_block(BlockKind::Rock), PackedData(0));
    let glass = Block::new(registry.register_block(BlockKind::Glass), PackedData(0));
    let glowstone = Block::new(registry.register_block(BlockKind::Glowstone), PackedData(0));
    Blocks { registry, rock, glass, glowstone }
}

fn chunks_with(center: ChunkDataInner) -> RelevantChunks {
    let mut chunks = RelevantChunks::new();
    chunks.insert(ORIGIN, Arc::new(center));
    chunks
}

fn no_neighbors() -> RelevantLights {
    RelevantLights::new(ORIGIN, Arc::new(LightDataInner::new()))
}

/// A chunk closed in by rock on all six sides, with air inside.
fn sealed_chunk(rock: Block) -> ChunkDataInner {
    let mut chunk = ChunkDataInner::new();
    for a in 0..32 {
        for b in 0..32 {
            for pos in [
                USizeVec3::new(0, a, b),
                USizeVec3::new(31, a, b),
                USizeVec3::new(a, 0, b),
                USizeVec3::new(a, 31, b),
                USizeVec3::new(a, b, 0),
                USizeVec3::new(a, b, 31),
            ] {
                chunk.set_block(pos, Some(rock)).unwrap();
            }
        }
    }
    chunk
}

fn manhattan(a: (usize, usize, usize), b: (usize, usize, usize)) -> i32 {
    (a.0 as i32 - b.0 as i32).abs() + (a.1 as i32 - b.1 as i32).abs() + (a.2 as i32 - b.2 as i32).abs()
}

#[test]
fn block_light_falls_by_one_for_each_step() {
    let b = blocks();
    let mut chunk = ChunkDataInner::new();
    chunk.set_block(USizeVec3::new(16, 16, 16), Some(b.glowstone)).unwrap();
    let chunks = chunks_with(chunk);
    let mut light = LightDataInner::new();
    propagate_block_light(&mut light, ORIGIN, &chunks, &no_neighbors(), &b.registry);
    for x in 0..32 {
        for y in 0..32 {
            for z in 0..32 {
                let expected = (15 - manhattan((x, y, z), (16, 16, 16))).max(0) as u8;
                assert_eq!(light.get_block_light(USizeVec3::new(x, y, z)), expected);
                assert_eq!(light.get_sky_light(USizeVec3::new(x, y, z)), 0);
            }
        }
    }
    assert_eq!(light.get_block_light(USizeVec3::new(16, 16, 16)), 15);
    assert_eq!(light.get_block_light(USizeVec3::new(16, 16, 17)), 14);
    assert_eq!(light.get_block_light(USizeVec3::new(16, 1, 16)), 0);
    assert_eq!(light.get_block_light(USizeVec3::new(16, 2, 16)), 1);
}

#[test]
fn block_light_goes_around_what_stops_it() {
    let b = blocks();
    let mut chunk = ChunkDataInner::new();
    chunk.set_block(USizeVec3::new(10, 10, 10), Some(b.glowstone)).unwrap();
    // A wall of rock right next to the source, with a pane of glass in it.
    for y in 0..32 {
        for z in 0..32 {
            chunk.set_block(USizeVec3::new(11, y, z), Some(b.rock)).unwrap();
        }
    }
    chunk.set_block(USizeVec3::new(11, 10, 14), Some(b.glass)).unwrap();
    let chunks = chunks_with(chunk);
    let mut light = LightDataInner::new();
    propagate_block_light(&mut light, ORIGIN, &chunks, &no_neighbors(), &b.registry);
    // Rock stays dark.
    assert_eq!(light.get_block_light(USizeVec3::new(11, 10, 10)), 0);
    assert_eq!(light.get_block_light(USizeVec3::new(11, 10, 13)), 0);
    // Light passes through the glass: 4 steps to (10,10,14), one into the pane.
    assert_eq!(light.get_block_light(USizeVec3::new(10, 10, 14)), 11);
    assert_eq!(light.get_block_light(USizeVec3::new(11, 10, 14)), 10);
    assert_eq!(light.get_block_light(USizeVec3::new(12, 10, 14)), 9);
    // Behind the wall light has to come from the pane.
    assert_eq!(light.get_block_light(USizeVec3::new(12, 10, 10)), 5);
    assert_eq!(light.get_block_light(USizeVec3::new(12, 10, 18)), 5);
    assert_eq!(light.get_block_light(USizeVec3::new(20, 10, 14)), 1);
    assert_eq!(light.get_block_light(USizeVec3::new(21, 10, 14)), 0);
}

#[test]
fn the_brightest_source_wins() {
    let b = blocks();
    let mut chunk = ChunkDataInner::new();
    chunk.set_block(USizeVec3::new(5, 5, 5), Some(b.glowstone)).unwrap();
    chunk.set_block(USizeVec3::new(9, 5, 5), Some(b.glowstone)).unwrap();
    let chunks = chunks_with(chunk);
    let mut light = LightDataInner::new();
    propagate_block_light(&mut light, ORIGIN, &chunks, &no_neighbors(), &b.registry);
    assert_eq!(light.get_block_light(USizeVec3::new(6, 5, 5)), 14);
    assert_eq!(light.get_block_light(USizeVec3::new(7, 5, 5)), 13);
    assert_eq!(light.get_block_light(USizeVec3::new(8, 5, 5)), 14);
    assert_eq!(light.get_block_light(USizeVec3::new(7, 6, 5)), 12);
}

#[test]
fn block_light_comes_in_from_lit_neighbors() {
    let b = blocks();
    let chunks = chunks_with(ChunkDataInner::new());
    let east = IVec3::new(1, 0, 0);
    let below = IVec3::new(0, -1, 0);
    let mut east_light = LightDataInner::new();
    east_light.set_block_light(USizeVec3::new(0, 5, 5), 10);
    east_light.set_block_light(USizeVec3::new(1, 5, 5), 11);
    east_light.set_block_light(USizeVec3::new(0, 20, 20), 1);
    let mut below_light = LightDataInner::new();
    below_light.set_block_light(USizeVec3::new(7, 31, 7), 2);
    let mut neighbors = no_neighbors();
    neighbors.add_neighbor(east, Arc::new(east_light));
    neighbors.add_neighbor(below, Arc::new(below_light));
    let mut light = LightDataInner::new();
    propagate_block_light(&mut light, ORIGIN, &chunks, &neighbors, &b.registry);
    assert_eq!(light.get_block_light(USizeVec3::new(31, 5, 5)), 9);
    assert_eq!(light.get_block_light(USizeVec3::new(30, 5, 5)), 8);
    assert_eq!(light.get_block_light(USizeVec3::new(31, 6, 5)), 8);
    assert_eq!(light.get_block_light(USizeVec3::new(23, 5, 5)), 1);
    assert_eq!(light.get_block_light(USizeVec3::new(22, 5, 5)), 0);
    // A level of 1 next to the face does not come in; one of 2 does.
    assert_eq!(light.get_block_light(USizeVec3::new(31, 20, 20)), 0);
    assert_eq!(light.get_block_light(USizeVec3::new(7, 0, 7)), 1);
    assert_eq!(light.get_block_light(USizeVec3::new(7, 1, 7)), 0);
}

#[test]
fn block_light_keeps_what_is_brighter_already() {
    let b = blocks();
    let mut chunk = ChunkDataInner::new();
    chunk.set_block(USizeVec3::new(5, 5, 5), Some(b.glowstone)).unwrap();
    let chunks = chunks_with(chunk);
    let mut light = LightDataInner::new();
    light.set_sky_light(USizeVec3::new(1, 2, 3), 12);
    light.set_block_light(USizeVec3::new(7, 5, 5), 14);
    light.set_block_light(USizeVec3::new(25, 25, 25), 6);
    propagate_block_light(&mut light, ORIGIN, &chunks, &no_neighbors(), &b.registry);
    assert_eq!(light.get_sky_light(USizeVec3::new(1, 2, 3)), 12);
    assert_eq!(light.get_block_light(USizeVec3::new(7, 5, 5)), 14);
    assert_eq!(light.get_block_light(USizeVec3::new(6, 5, 5)), 14);
    // A level that was there before stays, and does not spread.
    assert_eq!(light.get_block_light(USizeVec3::new(25, 25, 25)), 6);
    assert_eq!(light.get_block_light(USizeVec3::new(25, 25, 26)), 0);
}

#[test]
fn open_sky_is_fully_lit() {
    let b = blocks();
    let chunks = chunks_with(ChunkDataInner::new());
    let light = propagate_skylight(ORIGIN, &chunks, &b.registry);
    assert!(light.sky_levels().iter().all(|level| *level == 15));
    assert!(light.block_levels().iter().all(|level| *level == 0));
    // Without any chunk at hand everything reads as air too.
    let light = propagate_skylight(IVec3::new(7, -3, 2), &RelevantChunks::new(), &b.registry);
    assert!(light.sky_levels().iter().all(|level| *level == 15));
}

#[test]
fn sky_light_stops_at_the_first_block_and_creeps_in_from_the_sides() {
    let b = blocks();
    let mut chunk = ChunkDataInner::new();
    // A roof over the whole chunk.
    for x in 0..32 {
        for z in 0..32 {
            chunk.set_block(USizeVec3::new(x, 31, z), Some(b.rock)).unwrap();
        }
    }
    let chunks = chunks_with(chunk);
    let light = propagate_skylight(ORIGIN, &chunks, &b.registry);
    for x in 0..32usize {
        for z in 0..32usize {
            assert_eq!(light.get_sky_light(USizeVec3::new(x, 31, z)), 0);
            let steps = (x + 1).min(32 - x).min(z + 1).min(32 - z) as i32;
            for y in [0, 10, 30] {
                assert_eq!(
                    light.get_sky_light(USizeVec3::new(x, y, z)),
                    (15 - steps).max(0) as u8
                );
            }
        }
    }
}

#[test]
fn a_block_in_the_chunk_above_shades_its_column() {
    let b = blocks();
    let mut above = ChunkDataInner::new();
    above.set_block(USizeVec3::new(5, 0, 5), Some(b.rock)).unwrap();
    above.set_block(USizeVec3::new(9, 31, 9), Some(b.glass)).unwrap();
    let mut chunks = chunks_with(ChunkDataInner::new());
    chunks.insert(IVec3::new(0, 1, 0), Arc::new(above));
    let light = propagate_skylight(ORIGIN, &chunks, &b.registry);
    // The shaded column gets its light from the columns next to it.
    for y in 0..32 {
        assert_eq!(light.get_sky_light(USizeVec3::new(5, y, 5)), 14);
        assert_eq!(light.get_sky_light(USizeVec3::new(4, y, 5)), 15);
        // Glass does not shade.
        assert_eq!(light.get_sky_light(USizeVec3::new(9, y, 9)), 15);
    }
}

#[test]
fn a_sealed_chunk_is_dark_inside() {
    let b = blocks();
    let chunks = chunks_with(sealed_chunk(b.rock));
    let light = compute_light(ORIGIN, &chunks, &no_neighbors(), &b.registry);
    assert!(light.sky_levels().iter().all(|level| *level == 0));
    assert!(light.block_levels().iter().all(|level| *level == 0));
}

fn scattered_chunk(b: &Blocks) -> ChunkDataInner {
    let mut chunk = ChunkDataInner::new();
    let mut state: u32 = 12345;
    for x in 0..32 {
        for y in 0..32 {
            for z in 0..32 {
                state = state.wrapping_mul(1664525).wrapping_add(1013904223);
                let block = match (state >> 24) % 16 {
                    0..=4 => Some(b.rock),
                    5 => Some(b.glass),
                    6 if (state >> 16) % 64 == 0 => Some(b.glowstone),
                    _ => None,
                };
                chunk.set_block(USizeVec3::new(x, y, z), block).unwrap();
            }
        }
    }
    chunk
}

#[test]
fn light_falls_by_at_most_one_between_neighbors() {
    let b = blocks();
    let chunk = scattered_chunk(&b);
    let chunks = chunks_with(chunk.clone());
    let light = compute_light(ORIGIN, &chunks, &no_neighbors(), &b.registry);
    let opaque = |x: usize, y: usize, z: usize| {
        chunk.get_block(USizeVec3::new(x, y, z)).is_some_and(|block| b.registry.is_opaque(block))
    };
    let steps: [(i32, i32, i32); 6] =
        [(1, 0, 0), (-1, 0, 0), (0, 1, 0), (0, -1, 0), (0, 0, 1), (0, 0, -1)];
    let mut lit = 0;
    for x in 0..32usize {
        for y in 0..32usize {
            for z in 0..32usize {
                let here = USizeVec3::new(x, y, z);
                let sky = light.get_sky_light(here);
                let block = light.get_block_light(here);
                assert!(sky <= 15 && block <= 15);
                if opaque(x, y, z) {
                    assert_eq!(sky, 0);
                    let emits = chunk.get_block(here) == Some(b.glowstone);
                    assert_eq!(block, if emits { 15 } else { 0 });
                    continue;
                }
                if block > 0 {
                    lit += 1;
                }
                for (dx, dy, dz) in steps {
                    let (nx, ny, nz) = (x as i32 + dx, y as i32 + dy, z as i32 + dz);
                    if !(0..32).contains(&nx) || !(0..32).contains(&ny) || !(0..32).contains(&nz) {
                        continue;
                    }
                    let (nx, ny, nz) = (nx as usize, ny as usize, nz as usize);
                    if opaque(nx, ny, nz) {
                        continue;
                    }
                    let there = USizeVec3::new(nx, ny, nz);
                    assert!(light.get_sky_light(here) + 1 >= light.get_sky_light(there));
                    assert!(light.get_block_light(here) + 1 >= light.get_block_light(there));
                }
            }
        }
    }
    assert!(lit > 100);
}

#[test]
fn light_is_the_same_when_it_is_computed_again() {
    let b = blocks();
    let chunks = chunks_with(scattered_chunk(&b));
    let mut east = LightDataInner::new();
    east.set_block_light(USizeVec3::new(0, 3, 3), 12);
    let mut neighbors = no_neighbors();
    neighbors.add_neighbor(IVec3::new(1, 0, 0), Arc::new(east));
    let first = compute_light(ORIGIN, &chunks, &neighbors, &b.registry);
    let second = compute_light(ORIGIN, &chunks, &neighbors, &b.registry);
    assert_eq!(first.sky_levels(), second.sky_levels());
    assert_eq!(first.block_levels(), second.block_levels());
    // Both passes one after the other give the same as the two in one.
    let mut stepwise = propagate_skylight(ORIGIN, &chunks, &b.registry);
    propagate_block_light(Arc::make_mut(&mut stepwise), ORIGIN, &chunks, &neighbors, &b.registry);
    assert_eq!(first.sky_levels(), stepwise.sky_levels());
    assert_eq!(first.block_levels(), stepwise.block_levels());
}

#[test]
fn only_the_outermost_layer_counts_as_border() {
    let old = Arc::new(LightDataInner::new());
    let mut inner = LightDataInner::new();
    inner.set_block_light(USizeVec3::new(1, 1, 1), 9);
    inner.set_block_light(USizeVec3::new(30, 30, 30), 9);
    inner.set_sky_light(USizeVec3::new(0, 0, 0), 9);
    let inner = Arc::new(inner);
    assert!(!border_block_light_changed(&old, &inner));
    assert!(!border_block_light_changed(&old, &old));
    for pos in [
        USizeVec3::new(0, 5, 6),
        USizeVec3::new(31, 5, 6),
        USizeVec3::new(5, 0, 6),
        USizeVec3::new(5, 31, 6),
        USizeVec3::new(5, 6, 0),
        USizeVec3::new(5, 6, 31),
        USizeVec3::new(31, 31, 31),
    ] {
        let mut edge = LightDataInner::new();
        edge.set_block_light(pos, 1);
        let edge = Arc::new(edge);
        assert!(border_block_light_changed(&old, &edge));
        assert!(border_block_light_changed(&edge, &old));
        assert!(!border_block_light_changed(&edge, &edge));
    }
}

#[test]
fn lights_are_read_by_world_position() {
    let mut center = LightDataInner::new();
    center.set_sky_light(USizeVec3::new(1, 2, 3), 7);
    center.set_block_light(USizeVec3::new(1, 2, 3), 4);
    let mut west = LightDataInner::new();
    west.set_block_light(USizeVec3::new(31, 0, 0), 9);
    let mut other_west = LightDataInner::new();
    other_west.set_block_light(USizeVec3::new(31, 0, 0), 3);
    let mut lights = RelevantLights::new(IVec3::new(2, 0, 0), Arc::new(center));
    lights.add_neighbor(IVec3::new(1, 0, 0), Arc::new(west));
    // Of two lights at one position the first is the one that is read.
    lights.add_neighbor(IVec3::new(1, 0, 0), Arc::new(other_west));
    assert_eq!(lights.get_light(IVec3::new(65, 2, 3)), (7, 4));
    assert_eq!(lights.get_light(IVec3::new(63, 0, 0)), (0, 9));
    assert_eq!(lights.get_light(IVec3::new(64, 0, 0)), (0, 0));
    // No light is held for the chunk at (3, 0, 0).
    assert_eq!(lights.get_light(IVec3::new(97, 2, 3)), (0, 0));
    assert_eq!(lights.get_light_rel(IVec3::new(2, 0, 0), 1, 2, 3), (7, 4));
    assert_eq!(lights.get_light_rel(IVec3::new(2, 0, 0), -1, 0, 0), (0, 9));
    assert_eq!(
        lights.get_light_in(IVec3::new(1, 0, 0), USizeVec3::new(31, 0, 0)),
        (0, 9)
    );
}

#[test]
fn no_more_than_26_neighbor_lights_are_held() {
    let mut lights = RelevantLights::new(ORIGIN, Arc::new(LightDataInner::new()));
    for n in 1..=27 {
        let mut light = LightDataInner::new();
        light.set_block_light(USizeVec3::new(0, 0, 0), 5);
        lights.add_neighbor(IVec3::new(n, 0, 0), Arc::new(light));
    }
    assert_eq!(lights.get_light(IVec3::new(26 * 32, 0, 0)), (0, 5));
    assert_eq!(lights.get_light(IVec3::new(27 * 32, 0, 0)), (0, 0));
}

#[test]
fn blocks_are_read_by_world_position() {
    let b = blocks();
    let mut chunk = ChunkDataInner::new();
    chunk.set_block(USizeVec3::new(31, 0, 1), Some(b.rock)).unwrap();
    let mut chunks = RelevantChunks::new();
    chunks.insert(IVec3::new(-1, 0, 2), Arc::new(chunk));
    assert_eq!(chunks.get_block(IVec3::new(-1, 0, 65)), Some(b.rock));
    assert_eq!(chunks.get_block(IVec3::new(-1, 0, 64)), None);
    assert_eq!(chunks.get_block(IVec3::new(31, 0, 1)), None);
    assert_eq!(chunks.get_block_rel(IVec3::new(0, 0, 2), -1, 0, 1), Some(b.rock));
    assert_eq!(chunks.get_block_rel(IVec3::new(-1, 0, 1), 31, 0, 33), Some(b.rock));
    assert_eq!(
        chunks.get_block_in(IVec3::new(-1, 0, 2), USizeVec3::new(31, 0, 1)),
        Some(b.rock)
    );
}
