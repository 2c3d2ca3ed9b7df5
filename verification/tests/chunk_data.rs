use voxel_world::{
    Block, BlockId, ChunkDataError, ChunkDataInner, LightDataInner, PackedData, USizeVec3,
    CHUNK_SIZE, CHUNK_VOLUME,
};

fn block(id: u16, data: u64) -> Block {
    Block::new(BlockId(id), PackedData(data))
}

#[test]
fn a_new_chunk_is_air() {
    let chunk = ChunkDataInner::new();
    assert_eq!(chunk.palette_len(), 0);
    for x in [0, 1, 15, 31] {
        for y in [0, 7, 31] {
            for z in [0, 30, 31] {
                assert_eq!(chunk.get_block(USizeVec3::new(x, y, z)), None);
            }
        }
    }
    assert!(chunk.clone_data().iter().all(|cell| cell.is_none()));
    assert_eq!(chunk.clone_data().len(), CHUNK_VOLUME);
}

#[test]
fn a_block_is_read_back_where_it_was_put() {
    let mut chunk = ChunkDataInner::new();
    let rock = block(1, 77);
    assert_eq!(chunk.set_block(USizeVec3::new(3, 4, 5), Some(rock)), Ok(()));
    assert_eq!(chunk.get_block(USizeVec3::new(3, 4, 5)), Some(rock));
    assert_eq!(chunk.get_block(USizeVec3::new(4, 3, 5)), None);
    assert_eq!(chunk.get_block(USizeVec3::new(5, 4, 3)), None);
    let cells = chunk.clone_data();
    assert_eq!(cells[3 + 4 * CHUNK_SIZE + 5 * CHUNK_SIZE * CHUNK_SIZE], Some(rock));
    assert_eq!(cells.iter().filter(|cell| cell.is_some()).count(), 1);
}

#[test]
fn blocks_differ_by_id_and_by_data() {
    let mut chunk = ChunkDataInner::new();
    chunk.set_block(USizeVec3::new(0, 0, 0), Some(block(1, 5))).unwrap();
    chunk.set_block(USizeVec3::new(1, 0, 0), Some(block(1, 6))).unwrap();
    chunk.set_block(USizeVec3::new(2, 0, 0), Some(block(2, 5))).unwrap();
    assert_eq!(chunk.palette_len(), 3);
    assert_eq!(chunk.get_block(USizeVec3::new(0, 0, 0)), Some(block(1, 5)));
    assert_eq!(chunk.get_block(USizeVec3::new(1, 0, 0)), Some(block(1, 6)));
    assert_eq!(chunk.get_block(USizeVec3::new(2, 0, 0)), Some(block(2, 5)));
}

#[test]
fn the_palette_reuses_entries_and_never_shrinks() {
    let mut chunk = ChunkDataInner::new();
    let a = block(1, 0);
    let b = block(2, 0);
    chunk.set_block(USizeVec3::new(0, 0, 0), Some(a)).unwrap();
    chunk.set_block(USizeVec3::new(1, 0, 0), Some(b)).unwrap();
    chunk.set_block(USizeVec3::new(2, 0, 0), Some(a)).unwrap();
    assert_eq!(chunk.palette_len(), 2);
    assert_eq!(chunk.palette_entry(0), Some(a));
    assert_eq!(chunk.palette_entry(1), Some(b));
    assert_eq!(chunk.palette_entry(2), None);
    // Removing every use of a block leaves its entry in place.
    chunk.set_block(USizeVec3::new(0, 0, 0), None).unwrap();
    chunk.set_block(USizeVec3::new(2, 0, 0), None).unwrap();
    assert_eq!(chunk.palette_len(), 2);
    assert_eq!(chunk.palette_entry(0), Some(a));
    assert_eq!(chunk.get_block(USizeVec3::new(0, 0, 0)), None);
    assert_eq!(chunk.get_block(USizeVec3::new(1, 0, 0)), Some(b));
}

#[test]
fn from_data_keeps_cells_and_orders_the_palette_by_first_use() {
    let mut cells = vec![None; CHUNK_VOLUME];
    cells[0] = Some(block(9, 1));
    cells[1] = Some(block(3, 1));
    cells[2] = Some(block(9, 1));
    cells[CHUNK_VOLUME - 1] = Some(block(5, 2));
    let chunk = ChunkDataInner::from_data(cells.clone());
    assert_eq!(chunk.clone_data(), cells);
    assert_eq!(chunk.palette_len(), 3);
    assert_eq!(chunk.palette_entry(0), Some(block(9, 1)));
    assert_eq!(chunk.palette_entry(1), Some(block(3, 1)));
    assert_eq!(chunk.palette_entry(2), Some(block(5, 2)));
    assert_eq!(chunk.get_block(USizeVec3::new(31, 31, 31)), Some(block(5, 2)));
    assert_eq!(chunk.get_block(USizeVec3::new(1, 0, 0)), Some(block(3, 1)));
}

#[test]
fn cells_are_flattened_with_x_fastest() {
    let mut chunk = ChunkDataInner::new();
    chunk.set_block(USizeVec3::new(1, 0, 0), Some(block(1, 0))).unwrap();
    chunk.set_block(USizeVec3::new(0, 1, 0), Some(block(2, 0))).unwrap();
    chunk.set_block(USizeVec3::new(0, 0, 1), Some(block(3, 0))).unwrap();
    let cells = chunk.clone_data();
    assert_eq!(cells[1], Some(block(1, 0)));
    assert_eq!(cells[32], Some(block(2, 0)));
    assert_eq!(cells[1024], Some(block(3, 0)));
}

#[test]
fn a_copy_is_independent_of_its_source() {
    let mut chunk = ChunkDataInner::new();
    chunk.set_block(USizeVec3::new(1, 2, 3), Some(block(1, 0))).unwrap();
    let copy = chunk.duplicate();
    chunk.set_block(USizeVec3::new(1, 2, 3), Some(block(2, 0))).unwrap();
    assert_eq!(copy.get_block(USizeVec3::new(1, 2, 3)), Some(block(1, 0)));
    assert_eq!(chunk.get_block(USizeVec3::new(1, 2, 3)), Some(block(2, 0)));
    let cloned = chunk.clone();
    assert_eq!(cloned.clone_data(), chunk.clone_data());
}

#[test]
fn a_full_palette_refuses_new_blocks_only() {
    let mut chunk = ChunkDataInner::new();
    let pos = USizeVec3::new(0, 0, 0);
    for n in 0..65535u64 {
        assert!(chunk.accepts(Some(block(1, n))));
        assert_eq!(chunk.set_block(pos, Some(block(1, n))), Ok(()));
    }
    assert_eq!(chunk.palette_len(), 65535);
    assert!(!chunk.accepts(Some(block(1, 65535))));
    assert_eq!(
        chunk.set_block(pos, Some(block(1, 65535))),
        Err(ChunkDataError::PaletteFull)
    );
    // Nothing changed.
    assert_eq!(chunk.get_block(pos), Some(block(1, 65534)));
    assert_eq!(chunk.palette_len(), 65535);
    // Known blocks and air are still accepted.
    assert!(chunk.accepts(Some(block(1, 12))));
    assert_eq!(chunk.set_block(pos, Some(block(1, 12))), Ok(()));
    assert_eq!(chunk.get_block(pos), Some(block(1, 12)));
    assert!(chunk.accepts(None));
    assert_eq!(chunk.set_block(pos, None), Ok(()));
    assert_eq!(chunk.get_block(pos), None);
}

#[test]
fn new_light_is_dark() {
    let light = LightDataInner::new();
    for pos in [USizeVec3::new(0, 0, 0), USizeVec3::new(31, 31, 31), USizeVec3::new(5, 6, 7)] {
        assert_eq!(light.get_sky_light(pos), 0);
        assert_eq!(light.get_block_light(pos), 0);
    }
    assert!(light.sky_levels().iter().all(|level| *level == 0));
    assert!(light.block_levels().iter().all(|level| *level == 0));
}

#[test]
fn the_two_light_channels_are_independent() {
    let mut light = LightDataInner::new();
    let pos = USizeVec3::new(4, 5, 6);
    light.set_sky_light(pos, 15);
    assert_eq!(light.get_sky_light(pos), 15);
    assert_eq!(light.get_block_light(pos), 0);
    light.set_block_light(pos, 9);
    assert_eq!(light.get_sky_light(pos), 15);
    assert_eq!(light.get_block_light(pos), 9);
    light.set_sky_light(pos, 3);
    assert_eq!(light.get_sky_light(pos), 3);
    assert_eq!(light.get_block_light(pos), 9);
    light.set_block_light(pos, 0);
    assert_eq!(light.get_sky_light(pos), 3);
    assert_eq!(light.get_block_light(pos), 0);
    // Other cells are untouched.
    assert_eq!(light.get_sky_light(USizeVec3::new(5, 5, 6)), 0);
    assert_eq!(light.get_block_light(USizeVec3::new(4, 5, 7)), 0);
}

#[test]
fn light_levels_keep_their_low_four_bits() {
    let mut light = LightDataInner::new();
    let pos = USizeVec3::new(0, 0, 0);
    light.set_sky_light(pos, 0x27);
    light.set_block_light(pos, 0x3a);
    assert_eq!(light.get_sky_light(pos), 7);
    assert_eq!(light.get_block_light(pos), 10);
}

#[test]
fn whole_channels_can_be_written_and_read() {
    let mut light = LightDataInner::new();
    let sky: Vec<u8> = (0..CHUNK_VOLUME).map(|i| (i % 16) as u8).collect();
    let block: Vec<u8> = (0..CHUNK_VOLUME).map(|i| ((i / 16) % 16) as u8).collect();
    light.set_sky_levels(&sky);
    light.set_block_levels(&block);
    assert_eq!(light.sky_levels(), sky);
    assert_eq!(light.block_levels(), block);
    assert_eq!(light.get_sky_light(USizeVec3::new(5, 0, 0)), 5);
    assert_eq!(light.get_block_light(USizeVec3::new(0, 1, 0)), 2);
    let copy = light.duplicate();
    assert_eq!(copy.sky_levels(), sky);
    assert_eq!(copy.block_levels(), block);
}
