use std::sync::Arc;

use voxel_world::{
    compute_light, generate_mesh, get_face_neighbors, get_neighbors, Block, BlockId, BlockKind,
    ChunkData, ChunkDataError, ChunkDataInner, GenerationResult, IVec3, LightData, LightDataInner,
    LightStatus, MeshStatus, PackedData, PosMap, PosSet, Registry, RelevantChunks, USizeVec3,
    World,
};

fn no_light() -> LightData {
    Arc::new(LightDataInner::new())
}

fn registry() -> (Registry, Block, Block) {
    let mut registry = Registry::new();
    let rock = Block::new(registry.register_block(BlockKind::Rock), PackedData(0));
    let glowstone = Block::new(registry.register_block(BlockKind::Glowstone), PackedData(0));
    (registry, rock, glowstone)
}

fn ground(rock: Block) -> ChunkData {
    let mut chunk = ChunkDataInner::new();
    for x in 0..32 {
        for z in 0..32 {
            chunk.set_block(USizeVec3::new(x, 0, z), Some(rock)).unwrap();
        }
    }
    Arc::new(chunk)
}

/// Generates every chunk that the world asks for until it asks for none.
fn generate_all(world: &mut World, rock: Block) -> Vec<IVec3> {
    let mut order = Vec::new();
    let mut entity = 1000;
    loop {
        let spawned = world.plan_generation();
        if spawned.is_empty() {
            return order;
        }
        for pos in spawned {
            entity += 1;
            assert!(world.has_generation_task(pos));
            assert!(world.complete_generation(pos, GenerationResult::generated(ground(rock)), entity));
            assert!(!world.has_generation_task(pos));
            order.push(pos);
        }
    }
}

/// Runs light tasks until the world asks for none.
fn light_all(world: &mut World, registry: &Registry) -> usize {
    let mut count = 0;
    loop {
        let spawned = world.plan_lighting();
        if spawned.is_empty() {
            return count;
        }
        for pos in spawned {
            let chunks = RelevantChunks::from_world(world, pos);
            let lights = world.lights_around(pos, no_light());
            let light = compute_light(pos, &chunks, &lights, registry);
            assert!(world.complete_light(pos, light));
            count += 1;
        }
    }
}

/// Runs mesh tasks until the world asks for none; returns the handles of the
/// chunks whose meshes went to the renderer.
fn mesh_all(world: &mut World, registry: &Registry) -> Vec<u64> {
    let mut shown = Vec::new();
    loop {
        let spawned = world.plan_meshing();
        if spawned.is_empty() {
            return shown;
        }
        for pos in spawned {
            let chunks = world.relevant_chunks(pos);
            let lights = world.mesh_lights(pos).unwrap();
            let mesh = generate_mesh(pos, &chunks, &lights, registry);
            if let Some(update) = world.complete_mesh(pos, mesh) {
                shown.push(update.entity);
            }
        }
        shown.extend(world.flush_pending().iter().map(|update| update.entity));
    }
}

#[test]
fn the_streaming_window_is_a_cylinder() {
    let mut world = World::new(2);
    world.update_center_pos(IVec3::new(32 * 10 + 5, -1, 3));
    let center = IVec3::new(10, -1, 0);
    assert!(world.is_visible_chunk(center));
    assert!(world.is_visible_chunk(IVec3::new(12, -1, 0)));
    assert!(world.is_visible_chunk(IVec3::new(11, 1, 1)));
    assert!(world.is_visible_chunk(IVec3::new(10, -3, -2)));
    assert!(!world.is_visible_chunk(IVec3::new(13, -1, 0)));
    assert!(!world.is_visible_chunk(IVec3::new(12, -1, 1)));
    assert!(!world.is_visible_chunk(IVec3::new(10, 2, 0)));
    assert!(!world.is_visible_chunk(IVec3::new(10, -4, 0)));
    assert!(!world.is_visible_chunk(IVec3::new(i32::MAX, i32::MIN, i32::MAX)));
    world.set_generation_radius(-1);
    assert!(!world.is_visible_chunk(center));
    world.set_generation_radius(0);
    assert!(world.is_visible_chunk(center));
    assert!(!world.is_visible_chunk(IVec3::new(10, 0, 0)));
}

#[test]
fn chunks_are_ordered_by_distance_then_height() {
    let mut world = World::new(4);
    world.update_center_pos(IVec3::new(64, 64, 64));
    assert_eq!(world.chunk_sort_key(IVec3::new(2, 2, 2)), (0, 0));
    assert_eq!(world.chunk_sort_key(IVec3::new(5, 2, -2)), (25, 0));
    assert_eq!(world.chunk_sort_key(IVec3::new(2, -5, 2)), (0, 7));
    assert_eq!(world.chunk_sort_key(IVec3::new(1, 3, 3)), (2, 1));
    let far = World::new(1).chunk_sort_key(IVec3::new(i32::MIN, i32::MIN, i32::MAX));
    assert_eq!(far, ((1u128 << 62) + (((1u128 << 31) - 1) * ((1u128 << 31) - 1)), 1 << 31));
}

#[test]
fn neighbors() {
    let around = get_neighbors(IVec3::new(5, -5, 0));
    assert_eq!(around.len(), 26);
    assert_eq!(around[0], IVec3::new(4, -6, -1));
    assert_eq!(around[1], IVec3::new(4, -6, 0));
    assert_eq!(around[12], IVec3::new(5, -5, -1));
    assert_eq!(around[13], IVec3::new(5, -5, 1));
    assert_eq!(around[25], IVec3::new(6, -4, 1));
    assert!(!around.contains(&IVec3::new(5, -5, 0)));
    assert_eq!(
        get_face_neighbors(IVec3::new(0, 0, 0)),
        vec![
            IVec3::new(1, 0, 0),
            IVec3::new(-1, 0, 0),
            IVec3::new(0, 1, 0),
            IVec3::new(0, -1, 0),
            IVec3::new(0, 0, 1),
            IVec3::new(0, 0, -1),
        ]
    );
    // At the edge of the grid a chunk has fewer neighbors.
    assert_eq!(get_neighbors(IVec3::new(i32::MAX, 0, 0)).len(), 17);
    assert_eq!(get_face_neighbors(IVec3::new(i32::MAX, i32::MIN, 0)).len(), 4);
}

#[test]
fn the_nearest_chunks_are_generated_first() {
    let mut world = World::new(1);
    let spawned = world.plan_generation();
    assert_eq!(
        spawned,
        vec![
            IVec3::new(0, 0, 0),
            IVec3::new(0, -1, 0),
            IVec3::new(0, 1, 0),
            IVec3::new(-1, 0, 0),
            IVec3::new(0, 0, -1),
            IVec3::new(0, 0, 1),
            IVec3::new(1, 0, 0),
            IVec3::new(-1, -1, 0),
            IVec3::new(-1, 1, 0),
            IVec3::new(0, -1, -1),
            IVec3::new(0, -1, 1),
            IVec3::new(0, 1, -1),
            IVec3::new(0, 1, 1),
            IVec3::new(1, -1, 0),
            IVec3::new(1, 1, 0),
        ]
    );
    // All of the window is being generated now.
    assert!(world.plan_generation().is_empty());
}

#[test]
fn no_more_than_sixteen_tasks_run_and_none_runs_twice() {
    let (_, rock, _) = registry();
    let mut world = World::new(3);
    let first = world.plan_generation();
    assert_eq!(first.len(), 16);
    assert_eq!(first[0], IVec3::new(0, 0, 0));
    assert!(world.plan_generation().is_empty());
    // A result for a chunk that is not being generated is dropped.
    let stranger = IVec3::new(3, 0, 0);
    assert!(!first.contains(&stranger));
    assert!(!world.complete_generation(stranger, GenerationResult::generated(ground(rock)), 1));
    assert_eq!(world.loaded_count(), 0);
    // One task ends: exactly one new one is started, for another chunk.
    assert!(world.complete_generation(first[3], GenerationResult::generated(ground(rock)), 2));
    assert!(!world.complete_generation(first[3], GenerationResult::generated(ground(rock)), 3));
    let next = world.plan_generation();
    assert_eq!(next.len(), 1);
    assert!(!first.contains(&next[0]));
    let mut seen = first.clone();
    seen.extend(next);
    let rest = generate_all(&mut world, rock);
    // 29 columns within the radius, 7 chunks in each.
    assert_eq!(world.loaded_count(), 1 + rest.len());
    for pos in &rest {
        assert!(world.is_visible_chunk(*pos));
    }
    let mut all = rest.clone();
    all.sort_by_key(|pos| (pos.x, pos.y, pos.z));
    all.dedup();
    assert_eq!(all.len(), rest.len());
}

#[test]
fn a_generated_chunk_waits_for_light_and_mesh() {
    let (_, rock, _) = registry();
    let mut world = World::new(0);
    assert_eq!(world.plan_generation(), vec![IVec3::new(0, 0, 0)]);
    let pos = IVec3::new(0, 0, 0);
    assert!(world.complete_generation(pos, GenerationResult::generated(ground(rock)), 42));
    assert_eq!(world.chunk_status(pos), Some((LightStatus::Pending, MeshStatus::Queued)));
    assert_eq!(world.loaded_count(), 1);
    assert_eq!(world.get_block(IVec3::new(3, 0, 3)), Some(rock));
    assert_eq!(world.get_block(IVec3::new(3, 1, 3)), None);
    assert_eq!(world.get_block(IVec3::new(3, -1, 3)), None);
    let light = world.get_light_data(pos).unwrap();
    assert!(light.sky_levels().iter().all(|level| *level == 0));
    assert_eq!(
        world.get_chunk_data(pos).unwrap().clone_data(),
        ground(rock).clone_data()
    );
    assert!(world.get_chunk_data(IVec3::new(1, 0, 0)).is_none());
    assert!(world.chunk_status(IVec3::new(1, 0, 0)).is_none());
    // The chunk is new, so it waits for a save.
    let (positions, chunks) = world.plan_save(3, false).unwrap();
    assert_eq!(positions, vec![pos]);
    assert_eq!(chunks[0].clone_data(), ground(rock).clone_data());
}

#[test]
fn a_chunk_that_was_read_from_its_region_is_not_saved_again() {
    let (_, rock, _) = registry();
    let mut world = World::new(0);
    let pos = IVec3::new(0, 0, 0);
    world.plan_generation();
    assert!(world.complete_generation(pos, GenerationResult::loaded(ground(rock)), 42));
    assert!(world.plan_save(1000, false).is_none());
}

#[test]
fn generation_then_light_then_mesh() {
    let (registry, rock, _) = registry();
    let mut world = World::new(0);
    generate_all(&mut world, rock);
    let pos = IVec3::new(0, 0, 0);
    // No mesh before the light is there.
    assert!(world.plan_meshing().is_empty());
    assert_eq!(world.plan_lighting(), vec![pos]);
    assert!(world.has_light_task(pos));
    // No second task for the same chunk.
    assert!(world.plan_lighting().is_empty());
    assert!(world.plan_meshing().is_empty());
    let chunks = RelevantChunks::from_world(&world, pos);
    let lights = world.lights_around(pos, no_light());
    let light = compute_light(pos, &chunks, &lights, &registry);
    assert!(world.complete_light(pos, light));
    assert!(!world.has_light_task(pos));
    assert!(!world.complete_light(pos, no_light()));
    assert_eq!(world.chunk_status(pos), Some((LightStatus::Complete, MeshStatus::Queued)));
    assert_eq!(world.get_light_data(pos).unwrap().get_sky_light(USizeVec3::new(4, 1, 4)), 15);
    assert_eq!(world.get_light_data(pos).unwrap().get_sky_light(USizeVec3::new(4, 0, 4)), 0);
    assert!(world.plan_lighting().is_empty());

    assert_eq!(world.plan_meshing(), vec![pos]);
    assert!(world.has_mesh_task(pos));
    assert!(world.plan_meshing().is_empty());
    let mesh = generate_mesh(pos, &world.relevant_chunks(pos), &world.mesh_lights(pos).unwrap(), &registry);
    // The ground is seen from above, from below and from the four sides.
    assert_eq!(mesh.as_ref().unwrap().vertices.len(), (2 * 1024 + 4 * 32) * 4);
    let update = world.complete_mesh(pos, mesh).unwrap();
    assert_eq!(update.entity, 1001);
    assert!(update.mesh.is_some());
    assert!(!world.has_mesh_task(pos));
    assert_eq!(world.chunk_status(pos), Some((LightStatus::Complete, MeshStatus::Complete)));
    assert!(world.complete_mesh(pos, None).is_none());
    assert!(world.plan_meshing().is_empty());
    assert!(world.flush_pending().is_empty());
}

#[test]
fn light_waits_for_the_neighbors_and_mesh_for_their_light() {
    let (registry, rock, _) = registry();
    let mut world = World::new(1);
    let spawned = world.plan_generation();
    assert_eq!(spawned.len(), 15);
    let center = IVec3::new(0, 0, 0);
    assert!(world.complete_generation(center, GenerationResult::generated(ground(rock)), 1));
    // (1, 0, 0) is in the window and not loaded: the center cannot be lit.
    assert!(world.plan_lighting().is_empty());
    for (n, pos) in spawned.iter().enumerate().skip(1) {
        assert!(world.complete_generation(*pos, GenerationResult::generated(ground(rock)), n as u64 + 1));
    }
    assert_eq!(world.loaded_count(), 15);
    // The nearest chunks are lit first.
    let lit = world.plan_lighting();
    assert_eq!(lit.len(), 15);
    assert_eq!(lit[0], center);
    assert_eq!(lit[1], IVec3::new(0, -1, 0));
    // Light of the center alone does not make its mesh possible.
    let chunks = RelevantChunks::from_world(&world, center);
    let light = compute_light(center, &chunks, &world.lights_around(center, no_light()), &registry);
    assert!(world.complete_light(center, light));
    assert!(world.plan_meshing().is_empty());
    for pos in lit.iter().skip(1) {
        let chunks = RelevantChunks::from_world(&world, *pos);
        let light = compute_light(*pos, &chunks, &world.lights_around(*pos, no_light()), &registry);
        assert!(world.complete_light(*pos, light));
    }
    assert_eq!(light_all(&mut world, &registry), 0);
    let meshed = world.plan_meshing();
    assert_eq!(meshed.len(), 15);
    assert_eq!(meshed[0], center);
}

fn settled_world(registry: &Registry, rock: Block, radius: i32) -> World {
    let mut world = World::new(radius);
    generate_all(&mut world, rock);
    light_all(&mut world, registry);
    mesh_all(&mut world, registry);
    // Everything that was generated is saved.
    assert_eq!(world.plan_save(3, false).unwrap().0.len(), world.loaded_count());
    world
}

#[test]
fn everything_settles() {
    let (registry, rock, _) = registry();
    let world = settled_world(&registry, rock, 1);
    assert_eq!(world.loaded_count(), 15);
    for pos in get_neighbors(IVec3::new(0, 0, 0)) {
        if world.is_visible_chunk(pos) {
            assert_eq!(
                world.chunk_status(pos),
                Some((LightStatus::Complete, MeshStatus::Complete))
            );
            assert!(!world.has_light_task(pos) && !world.has_mesh_task(pos));
        } else {
            assert!(world.chunk_status(pos).is_none());
        }
    }
    assert!(!world.any_urgent());
    assert!(world.all_urgent_ready());
}

#[test]
fn an_edit_invalidates_the_chunk_and_all_chunks_around_it() {
    let (registry, rock, glowstone) = registry();
    let mut world = settled_world(&registry, rock, 1);
    // Start some work that the edit has to cancel.
    let target = IVec3::new(5, 33, 5);
    assert_eq!(world.get_block(target), None);
    assert_eq!(world.set_block(target, Some(glowstone)), Ok(true));
    assert_eq!(world.get_block(target), Some(glowstone));
    let owner = IVec3::new(0, 1, 0);
    let mut affected = get_neighbors(owner);
    affected.push(owner);
    let mut loaded = 0;
    for pos in &affected {
        if let Some(status) = world.chunk_status(*pos) {
            loaded += 1;
            assert_eq!(status, (LightStatus::Pending, MeshStatus::Urgent));
            assert!(!world.has_light_task(*pos) && !world.has_mesh_task(*pos));
        }
    }
    // (0,1,0), the 4 chunks beside it, and the 5 chunks below them.
    assert_eq!(loaded, 10);
    // Chunks further away keep their state.
    assert_eq!(
        world.chunk_status(IVec3::new(0, -1, 0)),
        Some((LightStatus::Complete, MeshStatus::Complete))
    );
    assert!(world.any_urgent());
    // The edited chunk waits for the next save, the others do not.
    assert!(world.plan_save(5, false).is_none());
    let (positions, chunks) = world.plan_save(6, false).unwrap();
    assert_eq!(positions, vec![owner]);
    assert_eq!(chunks[0].get_block(USizeVec3::new(5, 1, 5)), Some(glowstone));
}

#[test]
fn an_edit_that_the_palette_refuses_invalidates_all_the_same() {
    let (registry, rock, glowstone) = registry();
    // The chunk at the center has seen so many different blocks that its
    // palette is full.
    let mut crowded = ChunkDataInner::new();
    let cell = USizeVec3::new(3, 3, 3);
    for n in 0..65535u64 {
        crowded.set_block(cell, Some(Block::new(rock.id, PackedData(n + 1)))).unwrap();
    }
    crowded.set_block(cell, None).unwrap();
    let crowded: ChunkData = Arc::new(crowded);
    let center = IVec3::new(0, 0, 0);
    let mut world = World::new(1);
    loop {
        let spawned = world.plan_generation();
        if spawned.is_empty() {
            break;
        }
        for pos in spawned {
            let data = if pos == center { crowded.clone() } else { ground(rock) };
            assert!(world.complete_generation(pos, GenerationResult::generated(data), 7));
        }
    }
    light_all(&mut world, &registry);
    mesh_all(&mut world, &registry);
    assert_eq!(world.plan_save(3, false).unwrap().0.len(), 15);
    for pos in get_neighbors(center) {
        if let Some(status) = world.chunk_status(pos) {
            assert_eq!(status, (LightStatus::Complete, MeshStatus::Complete));
        }
    }
    // A block that the palette does not hold is refused.
    let target = IVec3::new(3, 3, 3);
    assert_eq!(world.set_block(target, Some(glowstone)), Err(ChunkDataError::PaletteFull));
    assert_eq!(world.get_block(target), None);
    // No mesh of the chunk or of a chunk around it counts as up to date.
    let mut loaded = 0;
    for pos in get_neighbors(center).into_iter().chain([center]) {
        if let Some(status) = world.chunk_status(pos) {
            loaded += 1;
            assert_eq!(status, (LightStatus::Pending, MeshStatus::Urgent));
        }
    }
    assert_eq!(loaded, 15);
    // Nothing was written, so nothing waits for a save.
    assert!(world.plan_save(10, false).is_none());
    // A block of the palette is still taken.
    let known = Block::new(rock.id, PackedData(9));
    assert_eq!(world.set_block(target, Some(known)), Ok(true));
    assert_eq!(world.get_block(target), Some(known));
    assert_eq!(world.plan_save(20, false).unwrap().0, vec![center]);
}

#[test]
fn an_edit_outside_the_loaded_chunks_does_nothing() {
    let (registry, rock, glowstone) = registry();
    let mut world = settled_world(&registry, rock, 0);
    assert_eq!(world.set_block(IVec3::new(40, 0, 0), Some(glowstone)), Ok(false));
    assert_eq!(world.get_block(IVec3::new(40, 0, 0)), None);
    assert_eq!(
        world.chunk_status(IVec3::new(0, 0, 0)),
        Some((LightStatus::Complete, MeshStatus::Complete))
    );
    assert!(world.plan_save(10, false).is_none());
    // Taking a block away works like putting one.
    assert_eq!(world.set_block(IVec3::new(1, 0, 1), None), Ok(true));
    assert_eq!(world.get_block(IVec3::new(1, 0, 1)), None);
    assert_eq!(
        world.chunk_status(IVec3::new(0, 0, 0)),
        Some((LightStatus::Pending, MeshStatus::Urgent))
    );
}

#[test]
fn urgent_meshes_are_shown_together() {
    let (registry, rock, glowstone) = registry();
    let mut world = settled_world(&registry, rock, 1);
    assert_eq!(world.set_block(IVec3::new(5, 5, 5), Some(glowstone)), Ok(true));
    // All 15 chunks are around the edit; chunks across a face whose light
    // changed are lit once more.
    assert!(light_all(&mut world, &registry) >= 15);
    let spawned = world.plan_meshing();
    assert_eq!(spawned.len(), 15);
    for (n, pos) in spawned.iter().enumerate() {
        // Nothing is shown while a result is missing.
        assert!(world.flush_pending().is_empty());
        assert!(!world.all_urgent_ready());
        let mesh = generate_mesh(*pos, &world.relevant_chunks(*pos), &world.mesh_lights(*pos).unwrap(), &registry);
        assert!(world.complete_mesh(*pos, mesh).is_none());
        assert_eq!(world.chunk_status(*pos).unwrap().1, MeshStatus::Urgent);
        assert_eq!(n + 1 < 15, !world.all_urgent_ready());
    }
    let updates = world.flush_pending();
    assert_eq!(updates.len(), 15);
    // The results come in the order in which they arrived.
    let center = updates.iter().find(|update| update.entity == 1001).unwrap();
    assert!(center.mesh.is_some());
    for pos in &spawned {
        assert_eq!(world.chunk_status(*pos), Some((LightStatus::Complete, MeshStatus::Complete)));
    }
    assert!(world.flush_pending().is_empty());
    assert!(!world.any_urgent());
    // The light of the new block has reached the chunk.
    let light = world.get_light_data(IVec3::new(0, 0, 0)).unwrap();
    assert_eq!(light.get_block_light(USizeVec3::new(5, 5, 5)), 15);
    assert_eq!(light.get_block_light(USizeVec3::new(5, 9, 5)), 11);
}

#[test]
fn urgent_chunks_push_the_others_aside() {
    let (registry, rock, glowstone) = registry();
    let mut world = World::new(1);
    generate_all(&mut world, rock);
    light_all(&mut world, &registry);
    // All 15 chunks are queued; their mesh tasks start.
    let queued = world.plan_meshing();
    assert_eq!(queued.len(), 15);
    // An edit far up touches only the upper chunks.
    assert_eq!(world.set_block(IVec3::new(5, 60, 5), Some(glowstone)), Ok(true));
    let urgent: Vec<IVec3> = queued
        .iter()
        .copied()
        .filter(|pos| world.chunk_status(*pos).unwrap().1 == MeshStatus::Urgent)
        .collect();
    assert_eq!(urgent.len(), 10);
    for pos in &queued {
        assert_eq!(world.has_mesh_task(*pos), !urgent.contains(pos));
    }
    light_all(&mut world, &registry);
    // With urgent chunks waiting, the tasks of the others are cancelled and
    // only urgent chunks get a task.
    let spawned = world.plan_meshing();
    assert_eq!(spawned.len(), 10);
    for pos in &queued {
        assert_eq!(world.has_mesh_task(*pos), urgent.contains(pos));
    }
    // A result of a cancelled task is dropped.
    assert!(world.complete_mesh(IVec3::new(0, -1, 0), None).is_none());
    assert_eq!(world.chunk_status(IVec3::new(0, -1, 0)).unwrap().1, MeshStatus::Queued);
    let shown = mesh_all_from(&mut world, &registry, spawned);
    assert_eq!(shown.len(), 15);
}

fn mesh_all_from(world: &mut World, registry: &Registry, first: Vec<IVec3>) -> Vec<u64> {
    let mut shown = Vec::new();
    for pos in first {
        let mesh = generate_mesh(pos, &world.relevant_chunks(pos), &world.mesh_lights(pos).unwrap(), registry);
        if let Some(update) = world.complete_mesh(pos, mesh) {
            shown.push(update.entity);
        }
    }
    shown.extend(world.flush_pending().iter().map(|update| update.entity));
    shown.extend(mesh_all(world, registry));
    shown
}

#[test]
fn light_that_changes_at_a_face_reaches_the_chunk_across() {
    let (registry, rock, glowstone) = registry();
    let mut world = settled_world(&registry, rock, 1);
    // A light source one cell away from the face towards (1, 0, 0).
    assert_eq!(world.set_block(IVec3::new(30, 5, 5), Some(glowstone)), Ok(true));
    light_all(&mut world, &registry);
    let center = world.get_light_data(IVec3::new(0, 0, 0)).unwrap();
    assert_eq!(center.get_block_light(USizeVec3::new(31, 5, 5)), 14);
    let east = world.get_light_data(IVec3::new(1, 0, 0)).unwrap();
    assert_eq!(east.get_block_light(USizeVec3::new(0, 5, 5)), 13);
    assert_eq!(east.get_block_light(USizeVec3::new(5, 5, 5)), 8);
    assert_eq!(east.get_block_light(USizeVec3::new(12, 5, 5)), 1);
    let west = world.get_light_data(IVec3::new(-1, 0, 0)).unwrap();
    assert_eq!(west.get_block_light(USizeVec3::new(31, 5, 5)), 0);
    assert!(light_all(&mut world, &registry) == 0);
    let shown = mesh_all(&mut world, &registry);
    assert_eq!(shown.len(), 15);
}

#[test]
fn chunks_that_leave_the_window_are_unloaded() {
    let (registry, rock, _) = registry();
    let mut world = settled_world(&registry, rock, 1);
    world.update_center_pos(IVec3::new(64, 0, 0));
    let gone = world.chunks_to_unload();
    // What is left is the column at x = 1.
    assert_eq!(gone.len(), 12);
    let entities = world.unload_far_chunks();
    assert_eq!(entities.len(), 12);
    assert_eq!(entities[0], 1001);
    assert_eq!(world.loaded_count(), 3);
    assert!(world.chunks_to_unload().is_empty());
    assert!(world.unload_far_chunks().is_empty());
    for y in -1..=1 {
        // The chunks that stay have lost neighbors: their light is pending.
        assert_eq!(
            world.chunk_status(IVec3::new(1, y, 0)),
            Some((LightStatus::Pending, MeshStatus::Queued))
        );
    }
    assert!(world.chunk_status(IVec3::new(0, 0, 0)).is_none());
    assert_eq!(world.get_block(IVec3::new(0, 0, 0)), None);
    // The window is filled again around the new center.
    let spawned = world.plan_generation();
    assert_eq!(spawned.len(), 12);
    assert_eq!(spawned[0], IVec3::new(2, 0, 0));
}

#[test]
fn saves_are_three_seconds_apart_and_one_at_a_time() {
    let (_, rock, glowstone) = registry();
    let mut world = World::new(0);
    assert!(world.plan_save(100, false).is_none());
    generate_all(&mut world, rock);
    // The first save can be made three seconds after the start.
    assert!(world.plan_save(2, false).is_none());
    assert!(world.plan_save(3, true).is_none());
    let (positions, _) = world.plan_save(3, false).unwrap();
    assert_eq!(positions.len(), 1);
    assert!(world.plan_save(100, false).is_none());
    world.set_block(IVec3::new(1, 1, 1), Some(glowstone)).unwrap();
    world.set_block(IVec3::new(2, 1, 1), Some(glowstone)).unwrap();
    assert!(world.plan_save(5, false).is_none());
    assert!(world.plan_save(0, false).is_none());
    assert!(world.plan_save(6, true).is_none());
    let (positions, chunks) = world.plan_save(6, false).unwrap();
    // Both edits are in one batch, with the chunk as it is now.
    assert_eq!(positions, vec![IVec3::new(0, 0, 0)]);
    assert_eq!(chunks[0].get_block(USizeVec3::new(1, 1, 1)), Some(glowstone));
    assert_eq!(chunks[0].get_block(USizeVec3::new(2, 1, 1)), Some(glowstone));
    assert!(world.plan_save(1000, false).is_none());
}

#[test]
fn chunks_of_a_save_that_went_wrong_wait_again() {
    let (_, rock, glowstone) = registry();
    let mut world = World::new(0);
    generate_all(&mut world, rock);
    let origin = IVec3::new(0, 0, 0);
    let (positions, chunks) = world.plan_save(3, false).unwrap();
    assert!(world.plan_save(100, false).is_none());
    // The chunk is edited while the save runs, and then the save fails.
    world.set_block(IVec3::new(1, 1, 1), Some(glowstone)).unwrap();
    let stranger = IVec3::new(9, 9, 9);
    let mut positions = positions;
    let mut chunks = chunks;
    positions.push(stranger);
    chunks.push(ground(glowstone));
    positions.push(stranger);
    chunks.push(ground(rock));
    world.restore_unsaved(positions, chunks);
    let (positions, chunks) = world.plan_save(6, false).unwrap();
    assert_eq!(positions, vec![origin, stranger]);
    // The newer state of the edited chunk counts, not the one of the batch.
    assert_eq!(chunks[0].get_block(USizeVec3::new(1, 1, 1)), Some(glowstone));
    // Of two entries at one position the first counts.
    assert_eq!(chunks[1].get_block(USizeVec3::new(0, 0, 0)), Some(glowstone));
}

#[test]
fn an_edit_leaves_what_others_hold_as_it_was() {
    let (_, rock, glowstone) = registry();
    let mut world = World::new(0);
    generate_all(&mut world, rock);
    let origin = IVec3::new(0, 0, 0);
    let held = world.get_chunk_data(origin).unwrap();
    let snapshot = world.relevant_chunks(origin);
    // Nothing is copied for a snapshot.
    assert!(Arc::ptr_eq(&held, &world.get_chunk_data(origin).unwrap()));
    world.set_block(IVec3::new(1, 1, 1), Some(glowstone)).unwrap();
    assert_eq!(world.get_block(IVec3::new(1, 1, 1)), Some(glowstone));
    assert_eq!(held.get_block(USizeVec3::new(1, 1, 1)), None);
    assert_eq!(snapshot.get_block(IVec3::new(1, 1, 1)), None);
    assert!(!Arc::ptr_eq(&held, &world.get_chunk_data(origin).unwrap()));
    assert_eq!(
        world.get_chunk_data(origin).unwrap().get_block(USizeVec3::new(1, 1, 1)),
        Some(glowstone)
    );
}

#[test]
fn position_sets_keep_their_order() {
    let mut set = PosSet::new();
    let a = IVec3::new(1, 0, 0);
    let b = IVec3::new(2, 0, 0);
    let c = IVec3::new(3, 0, 0);
    assert!(set.is_empty());
    assert!(set.insert(a));
    assert!(set.insert(b));
    assert!(set.insert(c));
    assert!(!set.insert(a));
    assert_eq!(set.len(), 3);
    assert_eq!(set.get_index(0), Some(a));
    assert_eq!(set.get_index_of(c), Some(2));
    assert!(set.contains(b));
    // Taking the first out moves the last into its place.
    assert_eq!(set.swap_remove(a), Some(0));
    assert_eq!(set.swap_remove(a), None);
    assert_eq!(set.get_index(0), Some(c));
    assert_eq!(set.get_index(1), Some(b));
    assert_eq!(set.get_index(2), None);
    assert!(!set.contains(a));
    assert_eq!(set.len(), 2);
}

#[test]
fn position_maps_keep_their_order() {
    let mut map: PosMap<u32> = PosMap::new();
    let a = IVec3::new(1, 0, 0);
    let b = IVec3::new(2, 0, 0);
    let c = IVec3::new(3, 0, 0);
    assert_eq!(map.insert(a, 10), 0);
    assert_eq!(map.insert(b, 20), 1);
    assert_eq!(map.insert(c, 30), 2);
    assert_eq!(map.insert(a, 11), 0);
    assert_eq!(map.len(), 3);
    assert_eq!(map.get(a), Some(&11));
    assert_eq!(map.get(IVec3::new(9, 9, 9)), None);
    assert_eq!((map.key_at(1), *map.value_at(1)), (b, 20));
    *map.value_at_mut(1) = 21;
    assert_eq!(map.get(b), Some(&21));
    assert_eq!(map.swap_remove(a), Some(11));
    assert_eq!(map.swap_remove(a), None);
    assert!(!map.contains_key(a));
    assert_eq!((map.key_at(0), *map.value_at(0)), (c, 30));
    assert_eq!(map.get_index_of(b), Some(1));
    let (keys, values) = map.take_all();
    assert_eq!(keys, vec![c, b]);
    assert_eq!(values, vec![30, 21]);
    assert_eq!(map.len(), 0);
}
