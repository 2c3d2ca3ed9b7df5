use voxel_world::{Material, MaterialKind, PackedData, PackedDataDecoder};

#[test]
fn test_block_data() {
    // Empty block data is 0
    assert_eq!(PackedData::builder().build().decode().take_u64(), 0);

    let mut data = PackedData::builder()
        .with_u16(123)
        .with_u16(456)
        .build()
        .decode();
    assert_eq!(data.take_u16(), 123);
    assert_eq!(data.take_u16(), 456);

    let mut data = PackedData::builder().with_u8(255).build().decode();
    assert_eq!(data.take_u8(), 255);
}

#[test]
fn fields_are_laid_out_lowest_bits_first() {
    let data = PackedData::builder()
        .with_u8(0x12)
        .with_u16(0x3456)
        .with_u32(0x789a_bcde)
        .with_u8(0xf0)
        .build();
    assert_eq!(data, PackedData(0xf0_789a_bcde_3456_12));
}

#[test]
fn fields_come_back_in_the_order_written() {
    let mut decoder = PackedData::builder()
        .with_u8(7)
        .with_u16(65535)
        .with_u32(4_000_000_000)
        .with_u8(9)
        .build()
        .decode();
    assert_eq!(decoder.take_u8(), 7);
    assert_eq!(decoder.take_u16(), 65535);
    assert_eq!(decoder.take_u32(), 4_000_000_000);
    assert_eq!(decoder.take_u8(), 9);
}

#[test]
fn a_64_bit_field_fills_the_payload() {
    let data = PackedData::builder().with_u64(0xdead_beef_0123_4567).build();
    assert_eq!(data, PackedData(0xdead_beef_0123_4567));
    assert_eq!(PackedDataDecoder::new(data).take_u64(), 0xdead_beef_0123_4567);
}

#[test]
fn flags_take_a_byte() {
    let data = PackedData::builder().with_bool(true).with_bool(false).with_bool(true).build();
    assert_eq!(data, PackedData(0x01_00_01));
    let mut decoder = data.decode();
    assert!(decoder.take_bool());
    assert!(!decoder.take_bool());
    assert!(decoder.take_bool());
}

#[test]
fn materials_are_written_as_their_numbers() {
    let data = PackedData::builder()
        .with_material(Material::LushGrass)
        .with_material(Material::Shale)
        .with_material(Material::Clay)
        .build();
    assert_eq!(data, PackedData(0x0004_0000_0005));
    let mut decoder = data.decode();
    assert_eq!(decoder.take_material(), Material::LushGrass);
    assert_eq!(decoder.take_material(), Material::Shale);
    assert_eq!(decoder.take_material(), Material::Clay);
}

#[test]
fn material_numbers_round_trip() {
    let all = [
        Material::Shale,
        Material::Chalk,
        Material::Loam,
        Material::Silt,
        Material::Clay,
        Material::LushGrass,
    ];
    for (number, material) in all.iter().enumerate() {
        assert_eq!(material.to_u16(), number as u16);
        assert_eq!(Material::from_u16(number as u16), Some(*material));
    }
    assert_eq!(Material::from_u16(6), None);
    assert_eq!(Material::from_u16(65535), None);
}

#[test]
fn material_kinds() {
    assert_eq!(Material::Shale.kind(), MaterialKind::Rock);
    assert_eq!(Material::Chalk.kind(), MaterialKind::Rock);
    assert_eq!(Material::Loam.kind(), MaterialKind::Soil);
    assert_eq!(Material::Silt.kind(), MaterialKind::Soil);
    assert_eq!(Material::Clay.kind(), MaterialKind::Soil);
    assert_eq!(Material::LushGrass.kind(), MaterialKind::Grass);
}
