use voxel_world::{BlockData, Material, RockData, RockType, SoilData, WoodLogData};

#[test]
fn rock_holds_its_form_and_its_material() {
    let rock = RockData { rock_type: RockType::Stone, material: Material::Chalk };
    assert_eq!(rock.encode(), 0x0101);
    assert_eq!(RockData::decode(0x0101), rock);
    assert_eq!(
        RockData { rock_type: RockType::Rock, material: Material::Shale }.encode(),
        0
    );
    assert_eq!(
        RockData::decode(0x0500),
        RockData { rock_type: RockType::Rock, material: Material::LushGrass }
    );
    // Bits above the three bytes are not read.
    assert_eq!(RockData::decode(0xffff_ff00_0201).material, Material::Loam);
    assert_eq!(RockType::Stone.to_u8(), 1);
    assert_eq!(RockType::from_u8(0), Some(RockType::Rock));
    assert_eq!(RockType::from_u8(2), None);
}

#[test]
fn soil_holds_its_material_and_the_grass_on_it() {
    let bare = SoilData { material: Material::Loam, grass_material: None };
    assert_eq!(bare.encode(), 0xffff_0002);
    assert_eq!(SoilData::decode(0xffff_0002), bare);
    let grown = SoilData { material: Material::Clay, grass_material: Some(Material::LushGrass) };
    assert_eq!(grown.encode(), 0x0005_0004);
    assert_eq!(SoilData::decode(0x0005_0004), grown);
}

#[test]
fn a_log_holds_its_material() {
    let log = WoodLogData { wood_material: Material::Silt };
    assert_eq!(log.encode(), 3);
    assert_eq!(WoodLogData::decode(3), log);
    assert_eq!(WoodLogData::decode(0xabcd_0000_0004).wood_material, Material::Clay);
}

#[test]
fn payloads_round_trip() {
    let materials = [
        Material::Shale,
        Material::Chalk,
        Material::Loam,
        Material::Silt,
        Material::Clay,
        Material::LushGrass,
    ];
    for material in materials {
        for rock_type in [RockType::Rock, RockType::Stone] {
            let rock = RockData { rock_type, material };
            assert_eq!(RockData::decode(rock.encode()), rock);
        }
        for grass_material in materials.iter().map(|m| Some(*m)).chain([None]) {
            let soil = SoilData { material, grass_material };
            assert_eq!(SoilData::decode(soil.encode()), soil);
        }
        let log = WoodLogData { wood_material: material };
        assert_eq!(WoodLogData::decode(log.encode()), log);
    }
}

#[test]
fn material_colors() {
    assert_eq!(
        Material::Shale.palette(),
        [
            [0x9D, 0x9D, 0x9D, 0xFF],
            [0x83, 0x83, 0x83, 0xFF],
            [0x71, 0x71, 0x71, 0xFF],
            [0x5B, 0x5B, 0x5B, 0xFF]
        ]
    );
    assert_eq!(Material::LushGrass.palette()[0], [0x34, 0x72, 0x34, 0xFF]);
    assert_eq!(Material::Clay.palette()[3], [0x7D, 0x47, 0x38, 0xFF]);
    assert_eq!(Material::Chalk.palette()[1], [0xD8, 0xD8, 0xCC, 0xFF]);
    assert_eq!(Material::Loam.palette()[2], [0x6B, 0x59, 0x3E, 0xFF]);
    assert_eq!(Material::Silt.palette()[0], [0xAF, 0x92, 0x6A, 0xFF]);
}

#[test]
fn textures_are_colored_by_material() {
    let base = Material::Shale.palette();
    for material in [Material::Loam, Material::LushGrass, Material::Chalk] {
        let palette = material.palette();
        for i in 0..4 {
            assert_eq!(material.color_pixel(base[i]), palette[i]);
        }
        // Other colors stay, also those that differ in opacity only.
        assert_eq!(material.color_pixel([1, 2, 3, 4]), [1, 2, 3, 4]);
        assert_eq!(material.color_pixel([0x9D, 0x9D, 0x9D, 0x00]), [0x9D, 0x9D, 0x9D, 0x00]);
    }
    assert_eq!(Material::Clay.color_pixel([0x71, 0x71, 0x71, 0xFF]), [0x88, 0x4E, 0x3E, 0xFF]);
    // Shale has the colors that textures are drawn in.
    assert_eq!(Material::Shale.color_pixel(base[2]), base[2]);
}
