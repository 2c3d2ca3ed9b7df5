use voxel_world::{
    Block, BlockFace, BlockId, BlockKind, BlockTextureKey, Cube, FaceRect, Glass, Glowstone, Loam,
    LushGrass, Material, ModelKind, Oak, PackedData, Registry, Rock, RockSlab, Shale, Slab, Soil,
    Wood,
};

fn registry() -> Registry {
    let mut registry = Registry::new();
    registry.register_block(BlockKind::Rock);
    registry.register_block(BlockKind::RockSlab);
    registry.register_block(BlockKind::Soil);
    registry.register_block(BlockKind::Wood);
    registry.register_block(BlockKind::Glass);
    registry.register_block(BlockKind::Glowstone);
    registry
}

#[test]
fn block_types_get_ids_in_the_order_of_registration() {
    let mut registry = Registry::new();
    assert_eq!(registry.block_id(BlockKind::Soil), None);
    assert_eq!(registry.block_type(BlockId(0)), None);
    assert_eq!(registry.register_block(BlockKind::Soil), BlockId(0));
    assert_eq!(registry.register_block(BlockKind::Glass), BlockId(1));
    // A type that is registered already keeps its id.
    assert_eq!(registry.register_block(BlockKind::Soil), BlockId(0));
    assert_eq!(registry.register_block(BlockKind::Rock), BlockId(2));
    assert_eq!(registry.block_id(BlockKind::Glass), Some(BlockId(1)));
    assert_eq!(registry.block_type(BlockId(2)), Some(BlockKind::Rock));
    assert_eq!(registry.block_type(BlockId(3)), None);
    assert_eq!(registry.block_id(BlockKind::Wood), None);
}

#[test]
fn names() {
    assert_eq!(Glass.unique_name(), "glass");
    assert_eq!(Glowstone.unique_name(), "glowstone");
    assert_eq!(Rock.unique_name(), "rock");
    assert_eq!(RockSlab.unique_name(), "rock_slab");
    assert_eq!(Soil.unique_name(), "soil");
    assert_eq!(Wood.unique_name(), "wood");
    assert_eq!(Cube.unique_name(), "cube");
    assert_eq!(Slab.unique_name(), "slab");
    assert_eq!(Loam.unique_name(), "loam");
    assert_eq!(LushGrass.unique_name(), "lush_grass");
    assert_eq!(Oak.unique_name(), "oak");
    assert_eq!(Shale.unique_name(), "shale");
    assert_eq!(BlockKind::RockSlab.unique_name(), "rock_slab");
    assert_eq!(Loam.tag(), "soil");
    assert_eq!(LushGrass.tag(), "grass");
    assert_eq!(Oak.tag(), "wood");
    assert_eq!(Shale.tag(), "rock");
    assert_eq!(Loam.material(), Material::Loam);
    assert_eq!(LushGrass.material(), Material::LushGrass);
    assert_eq!(Shale.material(), Material::Shale);
}

#[test]
fn what_block_types_are_like() {
    let data = PackedData(0);
    let full = FaceRect { min_x: 0, min_y: 0, max_x: 16, max_y: 16, is_transparent: false };
    assert_eq!(BlockKind::Rock.face_rect(BlockFace::Left, data), Some(full));
    assert_eq!(BlockKind::Soil.face_rect(BlockFace::Top, data), Some(full));
    assert_eq!(
        BlockKind::Glass.face_rect(BlockFace::Top, data),
        Some(FaceRect { is_transparent: true, ..full })
    );
    assert_eq!(BlockKind::RockSlab.face_rect(BlockFace::Top, data), None);
    assert_eq!(BlockKind::RockSlab.face_rect(BlockFace::Bottom, data), Some(full));
    assert_eq!(
        BlockKind::RockSlab.face_rect(BlockFace::Front, data),
        Some(FaceRect { max_y: 8, ..full })
    );
    assert!(!RockSlab.occludes_vertex_shading(BlockFace::Top, data));

    assert!(BlockKind::Rock.is_opaque(data));
    assert!(BlockKind::Soil.is_opaque(data));
    assert!(BlockKind::Wood.is_opaque(data));
    assert!(BlockKind::Glowstone.is_opaque(data));
    assert!(!BlockKind::Glass.is_opaque(data));
    assert!(!BlockKind::RockSlab.is_opaque(data));

    assert_eq!(BlockKind::Glowstone.light_emission(data), 15);
    assert_eq!(BlockKind::Rock.light_emission(data), 0);
    assert_eq!(BlockKind::Glass.light_emission(data), 0);

    assert!(BlockKind::Rock.is_solid());
    assert!(!BlockKind::Glass.is_solid());

    assert_eq!(BlockKind::RockSlab.model(), ModelKind::Slab);
    assert_eq!(BlockKind::Rock.model(), ModelKind::Cube);
    assert_eq!(ModelKind::Cube.offset(), 0);
    assert_eq!(ModelKind::Slab.offset(), 24);
}

#[test]
fn face_rectangles_cover_smaller_ones() {
    let full = FaceRect::full(false);
    let half = FaceRect { min_x: 0, min_y: 0, max_x: 16, max_y: 8, is_transparent: false };
    assert!(full.covers(&half));
    assert!(full.covers(&full));
    assert!(half.covers(&half));
    assert!(!half.covers(&full));
}

#[test]
fn faces() {
    let all = [
        BlockFace::Front,
        BlockFace::Back,
        BlockFace::Left,
        BlockFace::Right,
        BlockFace::Top,
        BlockFace::Bottom,
    ];
    for (index, face) in all.iter().enumerate() {
        assert_eq!(face.index(), index as u32);
        assert_eq!(BlockFace::from_index(index as u32), *face);
        assert_eq!(face.opposite().opposite(), *face);
        let n = face.normal();
        let m = face.opposite().normal();
        assert_eq!((n.0 + m.0, n.1 + m.1, n.2 + m.2), (0, 0, 0));
        assert_eq!(n.0.abs() + n.1.abs() + n.2.abs(), 1);
    }
    assert_eq!(BlockFace::Top.normal(), (0, 1, 0));
    assert_eq!(BlockFace::Left.normal(), (-1, 0, 0));
    assert_eq!(BlockFace::Front.normal(), (0, 0, 1));
    assert_eq!(BlockFace::Top.opposite(), BlockFace::Bottom);
}

#[test]
fn unknown_blocks_neither_stop_light_nor_give_it_off() {
    let registry = registry();
    let unknown = Block::new(BlockId(99), PackedData(0));
    assert!(!registry.is_opaque(unknown));
    assert_eq!(registry.light_emission(unknown), 0);
    assert_eq!(registry.face_texture(unknown, BlockFace::Top), 0);
    let glowstone = Block::new(registry.block_id(BlockKind::Glowstone).unwrap(), PackedData(0));
    assert!(registry.is_opaque(glowstone));
    assert_eq!(registry.light_emission(glowstone), 15);
}

#[test]
fn textures_are_found_under_block_type_and_key() {
    let mut registry = registry();
    assert_eq!(registry.add_image(), Some(0));
    assert_eq!(registry.add_image(), Some(1));
    assert_eq!(registry.add_image(), Some(2));
    let rock = registry.block_id(BlockKind::Rock).unwrap();
    let glass = registry.block_id(BlockKind::Glass).unwrap();
    registry.register_texture(Block::new(rock, PackedData(3)), 1);
    registry.register_texture(Block::new(glass, PackedData(3)), 2);
    assert_eq!(registry.texture_index(Block::new(rock, PackedData(3))), Some(1));
    assert_eq!(registry.texture_index(Block::new(glass, PackedData(3))), Some(2));
    assert_eq!(registry.texture_index(Block::new(rock, PackedData(4))), None);
    registry.register_texture(Block::new(rock, PackedData(3)), 7);
    assert_eq!(registry.texture_index(Block::new(rock, PackedData(3))), Some(7));
    // For most types the key of every face is the block's payload.
    for face in [BlockFace::Top, BlockFace::Bottom, BlockFace::Left] {
        assert_eq!(registry.face_texture(Block::new(rock, PackedData(3)), face), 7);
        assert_eq!(registry.face_texture(Block::new(rock, PackedData(5)), face), 0);
    }
    assert_eq!(BlockTextureKey::new(3, 9), BlockTextureKey { block_id: 3, texture_data: 9 });
}

#[test]
fn soil_has_a_texture_for_top_bottom_and_sides() {
    let mut registry = registry();
    let soil = registry.block_id(BlockKind::Soil).unwrap();
    let bare = PackedData::builder().with_bool(false).with_u16(2).with_bool(false).build();
    let top = PackedData::builder().with_bool(true).with_u16(5).build();
    let side = PackedData::builder().with_bool(false).with_u16(2).with_bool(true).with_u16(5).build();
    registry.register_texture(Block::new(soil, bare), 10);
    registry.register_texture(Block::new(soil, top), 11);
    registry.register_texture(Block::new(soil, side), 12);

    // Loam (2) without grass: the flag byte after the material is 0.
    let plain = Block::new(soil, PackedData::builder().with_u16(2).with_bool(false).build());
    assert_eq!(Soil.texture_set(&registry, plain), (10, 10, 10));
    assert_eq!(Soil.texture_data(BlockFace::Top, plain.data), bare);
    assert_eq!(registry.face_texture(plain, BlockFace::Back), 10);

    // Loam (2) under lush grass (5).
    let grown = Block::new(
        soil,
        PackedData::builder().with_u16(2).with_bool(true).with_u16(5).build(),
    );
    assert_eq!(Soil.texture_set(&registry, grown), (11, 10, 12));
    assert_eq!(Soil.texture_data(BlockFace::Top, grown.data), top);
    assert_eq!(Soil.texture_data(BlockFace::Bottom, grown.data), bare);
    assert_eq!(Soil.texture_data(BlockFace::Right, grown.data), side);
    assert_eq!(registry.face_texture(grown, BlockFace::Top), 11);
    assert_eq!(registry.face_texture(grown, BlockFace::Bottom), 10);
    assert_eq!(registry.face_texture(grown, BlockFace::Left), 12);
}

#[test]
fn wood_has_a_texture_for_ends_and_bark() {
    let mut registry = registry();
    let wood = registry.block_id(BlockKind::Wood).unwrap();
    let ends = PackedData::builder().with_bool(true).with_u16(3).build();
    let bark = PackedData::builder().with_bool(false).with_u16(3).build();
    registry.register_texture(Block::new(wood, ends), 20);
    registry.register_texture(Block::new(wood, bark), 21);
    let log = Block::new(wood, PackedData::builder().with_u16(3).build());
    assert_eq!(Wood.texture_data(BlockFace::Top, log.data), ends);
    assert_eq!(Wood.texture_data(BlockFace::Front, log.data), bark);
    assert_eq!(registry.face_texture(log, BlockFace::Top), 20);
    assert_eq!(registry.face_texture(log, BlockFace::Bottom), 20);
    assert_eq!(registry.face_texture(log, BlockFace::Left), 21);
    assert_eq!(registry.face_texture(log, BlockFace::Back), 21);
}
