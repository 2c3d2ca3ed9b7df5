use std::sync::Arc;

use voxel_world::{
    Block, BlockId, ChunkData, ChunkDataInner, CompressedChunk, IVec3, PackedData,
    PaletteBuilder, Region, RegionError, RegionManager, USizeVec3, CHUNK_VOLUME,
};

fn block(id: u16, data: u64) -> Block {
    Block::new(BlockId(id), PackedData(data))
}

fn air_chunk() -> ChunkData {
    Arc::new(ChunkDataInner::new())
}

fn single_block_chunk() -> ChunkData {
    let mut chunk = ChunkDataInner::new();
    chunk.set_block(USizeVec3::new(0, 0, 0), Some(block(1, 7))).unwrap();
    Arc::new(chunk)
}

fn full_chunk() -> ChunkData {
    let mut cells = Vec::with_capacity(CHUNK_VOLUME);
    for i in 0..CHUNK_VOLUME {
        cells.push(Some(block((i % 5) as u16, (i / 1000) as u64)));
    }
    Arc::new(ChunkDataInner::from_data(cells))
}

fn striped_chunk() -> ChunkData {
    let mut cells = vec![None; CHUNK_VOLUME];
    for (i, cell) in cells.iter_mut().enumerate() {
        *cell = match (i / 100) % 3 {
            0 => None,
            1 => Some(block(4, 4)),
            _ => Some(block(2, 9)),
        };
    }
    Arc::new(ChunkDataInner::from_data(cells))
}

#[test]
fn an_air_chunk_is_one_run() {
    let compressed = CompressedChunk::compress(&air_chunk());
    assert!(compressed.palette.is_empty());
    assert_eq!(compressed.rle_data, vec![32768, 0]);
}

#[test]
fn a_single_block_is_a_run_of_one() {
    let compressed = CompressedChunk::compress(&single_block_chunk());
    assert_eq!(compressed.palette, vec![block(1, 7)]);
    assert_eq!(compressed.rle_data, vec![1, 1, 32767, 0]);
}

#[test]
fn runs_join_equal_cells_and_number_blocks_by_first_occurrence() {
    let mut cells = vec![None; CHUNK_VOLUME];
    for cell in cells.iter_mut().take(10).skip(5) {
        *cell = Some(block(8, 0));
    }
    for cell in cells.iter_mut().take(12).skip(10) {
        *cell = Some(block(3, 0));
    }
    cells[12] = Some(block(8, 0));
    let compressed = CompressedChunk::compress(&Arc::new(ChunkDataInner::from_data(cells)));
    assert_eq!(compressed.palette, vec![block(8, 0), block(3, 0)]);
    assert_eq!(compressed.rle_data, vec![5, 0, 5, 1, 2, 2, 1, 1, 32755, 0]);
}

#[test]
fn a_chunk_of_one_block_is_one_run() {
    let chunk = Arc::new(ChunkDataInner::from_data(vec![Some(block(2, 2)); CHUNK_VOLUME]));
    let compressed = CompressedChunk::compress(&chunk);
    assert_eq!(compressed.palette, vec![block(2, 2)]);
    assert_eq!(compressed.rle_data, vec![32768, 1]);
}

#[test]
fn unused_palette_entries_are_not_stored() {
    let mut chunk = ChunkDataInner::new();
    let pos = USizeVec3::new(1, 1, 1);
    chunk.set_block(pos, Some(block(1, 1))).unwrap();
    chunk.set_block(pos, Some(block(2, 2))).unwrap();
    let compressed = CompressedChunk::compress(&Arc::new(chunk));
    assert_eq!(compressed.palette, vec![block(2, 2)]);
}

#[test]
fn compression_round_trips() {
    for chunk in [air_chunk(), single_block_chunk(), full_chunk(), striped_chunk()] {
        let compressed = CompressedChunk::compress(&chunk);
        let total: usize = compressed.rle_data.iter().step_by(2).map(|n| *n as usize).sum();
        assert_eq!(total, CHUNK_VOLUME);
        let restored = compressed.decompress().unwrap();
        assert_eq!(restored.clone_data(), chunk.clone_data());
    }
}

#[test]
fn stored_indices_start_at_one() {
    let compressed = CompressedChunk {
        palette: vec![block(5, 5), block(6, 6)],
        rle_data: vec![32768, 2],
    };
    assert_eq!(compressed.get_block(0), None);
    assert_eq!(compressed.get_block(1), Some(block(5, 5)));
    assert_eq!(compressed.get_block(2), Some(block(6, 6)));
    let chunk = compressed.decompress().unwrap();
    assert_eq!(chunk.get_block(USizeVec3::new(9, 9, 9)), Some(block(6, 6)));
}

#[test]
fn defects_are_refused() {
    let odd = CompressedChunk { palette: vec![], rle_data: vec![32768] };
    assert_eq!(odd.decompress().err(), Some(RegionError::OddLength));

    let unknown = CompressedChunk { palette: vec![block(1, 1)], rle_data: vec![32768, 2] };
    assert_eq!(unknown.decompress().err(), Some(RegionError::UnknownPaletteIndex));

    let short = CompressedChunk { palette: vec![], rle_data: vec![32767, 0] };
    assert_eq!(short.decompress().err(), Some(RegionError::WrongCellCount));

    let long = CompressedChunk { palette: vec![], rle_data: vec![32768, 0, 1, 0] };
    assert_eq!(long.decompress().err(), Some(RegionError::WrongCellCount));

    let empty = CompressedChunk { palette: vec![], rle_data: vec![] };
    assert_eq!(empty.decompress().err(), Some(RegionError::WrongCellCount));

    // The first defect that applies is reported.
    let odd_and_unknown = CompressedChunk { palette: vec![], rle_data: vec![1, 9, 3] };
    assert_eq!(odd_and_unknown.decompress().err(), Some(RegionError::OddLength));
    let unknown_and_long =
        CompressedChunk { palette: vec![], rle_data: vec![60000, 0, 60000, 1] };
    assert_eq!(unknown_and_long.decompress().err(), Some(RegionError::UnknownPaletteIndex));
}

#[test]
fn empty_runs_are_read() {
    let compressed = CompressedChunk {
        palette: vec![block(1, 1)],
        rle_data: vec![0, 1, 32768, 0, 0, 1],
    };
    let chunk = compressed.decompress().unwrap();
    assert!(chunk.clone_data().iter().all(|cell| cell.is_none()));
}

#[test]
fn the_palette_builder_numbers_blocks_from_one() {
    let mut builder = PaletteBuilder::new();
    assert_eq!(builder.get_index(None), 0);
    assert_eq!(builder.get_index(Some(block(4, 0))), 1);
    assert_eq!(builder.get_index(Some(block(4, 1))), 2);
    assert_eq!(builder.get_index(Some(block(4, 0))), 1);
    assert_eq!(builder.get_index(None), 0);
    assert_eq!(builder.get_index(Some(block(5, 0))), 3);
}

#[test]
fn region_file_names() {
    assert_eq!(RegionManager::file_name(IVec3::new(0, 0, 0)), "region_0_0_0.bin");
    assert_eq!(RegionManager::file_name(IVec3::new(1, -2, 3)), "region_1_-2_3.bin");
    assert_eq!(
        RegionManager::file_name(IVec3::new(i32::MAX, i32::MIN, 7)),
        "region_2147483647_-2147483648_7.bin"
    );
}

#[test]
fn a_chunk_that_was_never_saved_is_not_found() {
    let mut manager = RegionManager::new();
    let pos = IVec3::new(3, 4, 5);
    assert_eq!(manager.region_to_read(pos), Some(IVec3::new(0, 0, 0)));
    // There is no file for the region.
    assert!(manager.load_chunk(pos, None).unwrap().is_none());
    // The region is still not held in memory.
    assert_eq!(manager.region_to_read(pos), Some(IVec3::new(0, 0, 0)));
    assert!(manager.region(IVec3::new(0, 0, 0)).is_none());
}

#[test]
fn saved_chunks_are_loaded_again() {
    let mut manager = RegionManager::new();
    let chunks = vec![
        (IVec3::new(0, 0, 0), single_block_chunk()),
        (IVec3::new(1, 0, 0), full_chunk()),
        (IVec3::new(-1, 0, 0), striped_chunk()),
        (IVec3::new(40, -3, 17), air_chunk()),
    ];
    let modified = manager.save_chunks(&chunks);
    assert_eq!(
        modified,
        vec![IVec3::new(0, 0, 0), IVec3::new(-1, 0, 0), IVec3::new(2, -1, 1)]
    );
    for (pos, chunk) in &chunks {
        assert_eq!(manager.region_to_read(*pos), None);
        let loaded = manager.load_chunk(*pos, None).unwrap().unwrap();
        assert_eq!(loaded.clone_data(), chunk.clone_data());
    }
    // A chunk of a region that is held, but that was never saved.
    assert!(manager.load_chunk(IVec3::new(5, 5, 5), None).unwrap().is_none());
}

#[test]
fn a_later_save_replaces_an_earlier_one() {
    let mut manager = RegionManager::new();
    let pos = IVec3::new(2, 2, 2);
    manager.save_chunks(&vec![(pos, single_block_chunk()), (pos, striped_chunk())]);
    let loaded = manager.load_chunk(pos, None).unwrap().unwrap();
    assert_eq!(loaded.clone_data(), striped_chunk().clone_data());
    manager.save_chunk(pos, &full_chunk());
    let loaded = manager.load_chunk(pos, None).unwrap().unwrap();
    assert_eq!(loaded.clone_data(), full_chunk().clone_data());
    let region = manager.region(IVec3::new(0, 0, 0)).unwrap();
    assert_eq!(region.len(), 1);
    assert_eq!(region.position_at(0), pos);
}

#[test]
fn a_region_file_is_used_once() {
    let mut manager = RegionManager::new();
    let pos = IVec3::new(17, 0, 0);
    let mut file = Region::new();
    file.insert(pos, CompressedChunk::compress(&single_block_chunk()));
    file.insert(IVec3::new(18, 0, 0), CompressedChunk::compress(&full_chunk()));
    assert_eq!(manager.region_to_read(pos), Some(IVec3::new(1, 0, 0)));
    let loaded = manager.load_chunk(pos, Some(file)).unwrap().unwrap();
    assert_eq!(loaded.clone_data(), single_block_chunk().clone_data());
    assert_eq!(manager.region_to_read(pos), None);
    // The region is held now: another file is ignored.
    let mut other = Region::new();
    other.insert(pos, CompressedChunk::compress(&striped_chunk()));
    let loaded = manager.load_chunk(pos, Some(other)).unwrap().unwrap();
    assert_eq!(loaded.clone_data(), single_block_chunk().clone_data());
    let loaded = manager.load_chunk(IVec3::new(18, 0, 0), None).unwrap().unwrap();
    assert_eq!(loaded.clone_data(), full_chunk().clone_data());
}

#[test]
fn a_stored_chunk_with_a_defect_gives_the_defect() {
    let mut manager = RegionManager::new();
    let pos = IVec3::new(0, 0, 0);
    let mut file = Region::new();
    file.insert(pos, CompressedChunk { palette: vec![], rle_data: vec![5, 0] });
    assert_eq!(manager.load_chunk(pos, Some(file)).err(), Some(RegionError::WrongCellCount));
}

#[test]
fn regions_keep_their_chunks_in_the_order_of_first_saving() {
    let mut region = Region::new();
    let a = IVec3::new(1, 1, 1);
    let b = IVec3::new(0, 0, 0);
    region.insert(a, CompressedChunk::compress(&single_block_chunk()));
    region.insert(b, CompressedChunk::compress(&air_chunk()));
    region.insert(a, CompressedChunk::compress(&full_chunk()));
    assert_eq!(region.len(), 2);
    assert_eq!(region.position_at(0), a);
    assert_eq!(region.position_at(1), b);
    assert_eq!(region.entry_at(1).rle_data, vec![32768, 0]);
    assert_eq!(
        region.get(a).unwrap().decompress().unwrap().clone_data(),
        full_chunk().clone_data()
    );
    assert!(region.get(IVec3::new(9, 9, 9)).is_none());
}
