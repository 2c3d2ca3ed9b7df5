use voxel_world::{
    Block, BlockId, Column, IVec3, PackedData, USizeVec3, WorldGenerator,
};

fn generator() -> WorldGenerator {
    WorldGenerator::new(
        Block::new(BlockId(0), PackedData(1)),
        Block::new(BlockId(2), PackedData(2)),
        Block::new(BlockId(2), PackedData(3)),
    )
}

#[test]
fn a_column_is_rock_soil_grass_and_air() {
    let generator = generator();
    let column = Column { rock_top: 10, surface: 13 };
    assert_eq!(generator.block_at(column, -100), Some(generator.rock));
    assert_eq!(generator.block_at(column, 9), Some(generator.rock));
    assert_eq!(generator.block_at(column, 10), Some(generator.soil));
    assert_eq!(generator.block_at(column, 11), Some(generator.soil));
    assert_eq!(generator.block_at(column, 12), Some(generator.grass));
    assert_eq!(generator.block_at(column, 13), None);
    assert_eq!(generator.block_at(column, 1000), None);
}

#[test]
fn rock_that_reaches_the_surface_has_no_soil_on_it() {
    let generator = generator();
    let column = Column { rock_top: 5, surface: 5 };
    assert_eq!(generator.block_at(column, 4), Some(generator.rock));
    assert_eq!(generator.block_at(column, 5), None);
    let column = Column { rock_top: 7, surface: 5 };
    assert_eq!(generator.block_at(column, 6), Some(generator.rock));
    assert_eq!(generator.block_at(column, 7), None);
}

#[test]
fn the_same_terrain_gives_the_same_chunk() {
    let generator = generator();
    let columns: Vec<Column> = (0..1024)
        .map(|i| Column { rock_top: 30 + (i % 7) as i64, surface: 33 + (i % 11) as i64 })
        .collect();
    let first = generator.generate_chunk(IVec3::new(0, 1, 0), &columns);
    let second = generator.generate_chunk(IVec3::new(0, 1, 0), &columns);
    assert_eq!(first.clone_data(), second.clone_data());
    for x in 0..32usize {
        for z in 0..32usize {
            let column = columns[x + 32 * z];
            for y in 0..32usize {
                assert_eq!(
                    first.get_block(USizeVec3::new(x, y, z)),
                    generator.block_at(column, 32 + y as i64)
                );
            }
        }
    }
    // The chunk below is rock throughout.
    let below = generator.generate_chunk(IVec3::new(5, 0, -5), &columns);
    assert!(below.clone_data()[..30 * 32].iter().all(|cell| *cell == Some(generator.rock)));
    // The chunk above is air.
    let above = generator.generate_chunk(IVec3::new(0, 2, 0), &columns);
    assert!(above.clone_data().iter().all(|cell| cell.is_none()));
}
