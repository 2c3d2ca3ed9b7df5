use vstd::prelude::*;

use crate::block::{BlockFace, FaceRect};
use crate::packed_data::PackedData;

verus! {

/// The block types of the world.
#[derive(Debug, Clone, Copy, PartialEq, Eq, Hash, Structural)]
pub enum BlockKind {
    Rock,
    RockSlab,
    Soil,
    Wood,
    Glass,
    Glowstone,
}

/// The shapes a block can be drawn with. The shared vertex table lists the
/// cube's vertices first and the slab's behind them, four for each face.
#[derive(Debug, Clone, Copy, PartialEq, Eq, Hash, Structural)]
pub enum ModelKind {
    Cube,
    Slab,
}

/// Number of vertices that a model has in the vertex table.
pub const MODEL_VERTICES: u32 = 24;

pub struct Glass;

pub struct Glowstone;

pub struct Rock;

pub struct RockSlab;

pub struct Soil;

pub struct Wood;

pub struct Cube;

pub struct Slab;

/// A payload with `value` written at bit `at`.
pub open spec fn put(bits: u64, at: nat, value: u64) -> u64 {
    bits | (value << (at as u64))
}

/// Texture key of bare soil of one material: a cleared flag, the material,
/// and a cleared flag.
pub open spec fn soil_key(material: u16) -> u64 {
    put(put(put(0, 0, 0), 8, material as u64), 24, 0)
}

/// Texture key of a grass top: a set flag and the grass material.
pub open spec fn grass_key(grass: u16) -> u64 {
    put(put(0, 0, 1), 8, grass as u64)
}

/// Texture key of the side of grown-over soil: a cleared flag, the soil
/// material, a set flag, and the grass material.
pub open spec fn grassy_side_key(material: u16, grass: u16) -> u64 {
    put(put(put(put(0, 0, 0), 8, material as u64), 24, 1), 32, grass as u64)
}

/// Texture key of a wood face: a flag that is set for the end grain (top
/// and bottom) and cleared for the bark, and the material.
pub open spec fn wood_key(end_grain: bool, material: u16) -> u64 {
    put(put(0, 0, if end_grain { 1u64 } else { 0u64 }), 8, material as u64)
}

/// The texture key of a face of a soil block with payload `data`. The
/// payload holds the soil material, a flag byte that is 1 where grass grows
/// on the block, and then the grass material.
pub open spec fn soil_texture_key(face: BlockFace, data: u64) -> u64 {
    let material = crate::packed_data::field(data, 0, 16) as u16;
    let is_grass = crate::packed_data::field(data, 16, 8) == 1;
    let grass = crate::packed_data::field(data, 24, 16) as u16;
    if !is_grass {
        soil_key(material)
    } else {
        match face {
            BlockFace::Top => grass_key(grass),
            BlockFace::Bottom => soil_key(material),
            _ => grassy_side_key(material, grass),
        }
    }
}

/// The texture key of a face of a wood block with payload `data`, which
/// holds the material.
pub open spec fn wood_texture_key(face: BlockFace, data: u64) -> u64 {
    let material = crate::packed_data::field(data, 0, 16) as u16;
    wood_key(face == BlockFace::Top || face == BlockFace::Bottom, material)
}

impl Glass {
    pub fn unique_name(&self) -> (name: String)
        ensures
            name@ == "glass"@,
    {
        "glass".to_owned()
    }

    /// Glass fills every face and lets light through.
    pub fn face_rect(&self, _face: BlockFace, _data: PackedData) -> (rect: Option<FaceRect>)
        ensures
            rect == Some(FaceRect::spec_full(true)),
    {
        Some(FaceRect::full(true))
    }
}

impl Glowstone {
    pub fn unique_name(&self) -> (name: String)
        ensures
            name@ == "glowstone"@,
    {
        "glowstone".to_owned()
    }

    pub fn light_emission(&self, _data: PackedData) -> (level: u8)
        ensures
            level == 15,
    {
        15
    }
}

impl Rock {
    pub fn unique_name(&self) -> (name: String)
        ensures
            name@ == "rock"@,
    {
        "rock".to_owned()
    }
}

impl RockSlab {
    pub open spec fn spec_face_rect(face: BlockFace) -> Option<FaceRect> {
        match face {
            BlockFace::Top => None,
            BlockFace::Bottom => Some(FaceRect::spec_full(false)),
            _ => Some(
                FaceRect { min_x: 0, min_y: 0, max_x: 16, max_y: 8, is_transparent: false },
            ),
        }
    }

    pub fn unique_name(&self) -> (name: String)
        ensures
            name@ == "rock_slab"@,
    {
        "rock_slab".to_owned()
    }

    /// A slab fills the bottom face, the lower half of the four side faces,
    /// and nothing of the top face.
    pub fn face_rect(&self, face: BlockFace, _data: PackedData) -> (rect: Option<FaceRect>)
        ensures
            rect == RockSlab::spec_face_rect(face),
    {
        match face {
            BlockFace::Top => None,
            BlockFace::Bottom => Some(FaceRect::full(false)),
            _ => Some(FaceRect { min_x: 0, min_y: 0, max_x: 16, max_y: 8, is_transparent: false }),
        }
    }

    pub fn occludes_vertex_shading(&self, _face: BlockFace, _data: PackedData) -> (occludes: bool)
        ensures
            !occludes,
    {
        false
    }
}

impl Soil {
    pub fn unique_name(&self) -> (name: String)
        ensures
            name@ == "soil"@,
    {
        "soil".to_owned()
    }

    /// The key under which the texture of a face is registered.
    pub fn texture_data(&self, face: BlockFace, data: PackedData) -> (key: PackedData)
        ensures
            key.bits() == soil_texture_key(face, data.bits()),
    {
        let mut decoder = data.decode();
        let material = decoder.take_u16();
        let is_grass = decoder.take_u8() == 1;
        if !is_grass {
            return PackedData::builder().with_bool(false).with_u16(material).with_bool(false).build();
        }
        let grass = decoder.take_u16();
        match face {
            BlockFace::Top => PackedData::builder().with_bool(true).with_u16(grass).build(),
            BlockFace::Bottom => PackedData::builder().with_bool(false).with_u16(material).with_bool(
                false,
            ).build(),
            _ => PackedData::builder().with_bool(false).with_u16(material).with_bool(true).with_u16(
                grass,
            ).build(),
        }
    }
}

impl Wood {
    pub fn unique_name(&self) -> (name: String)
        ensures
            name@ == "wood"@,
    {
        "wood".to_owned()
    }

    /// The key under which the texture of a face is registered.
    pub fn texture_data(&self, face: BlockFace, data: PackedData) -> (key: PackedData)
        ensures
            key.bits() == wood_texture_key(face, data.bits()),
    {
        let mut decoder = data.decode();
        let material = decoder.take_u16();
        match face {
            BlockFace::Top | BlockFace::Bottom => PackedData::builder().with_bool(true).with_u16(
                material,
            ).build(),
            _ => PackedData::builder().with_bool(false).with_u16(material).build(),
        }
    }
}

impl Cube {
    pub fn unique_name(&self) -> (name: String)
        ensures
            name@ == "cube"@,
    {
        "cube".to_owned()
    }
}

impl Slab {
    pub fn unique_name(&self) -> (name: String)
        ensures
            name@ == "slab"@,
    {
        "slab".to_owned()
    }
}

impl ModelKind {
    /// Place of the model's first vertex in the vertex table.
    pub open spec fn spec_offset(self) -> u32 {
        match self {
            ModelKind::Cube => 0,
            ModelKind::Slab => 24,
        }
    }

    pub fn offset(self) -> (offset: u32)
        ensures
            offset == self.spec_offset(),
    {
        match self {
            ModelKind::Cube => 0,
            ModelKind::Slab => MODEL_VERTICES,
        }
    }
}

impl BlockKind {
    /// The part of a face that a block of this type fills, or `None` where
    /// it does not reach the face.
    pub open spec fn spec_face_rect(self, face: BlockFace) -> Option<FaceRect> {
        match self {
            BlockKind::Glass => Some(FaceRect::spec_full(true)),
            BlockKind::RockSlab => RockSlab::spec_face_rect(face),
            _ => Some(FaceRect::spec_full(false)),
        }
    }

    pub fn face_rect(self, face: BlockFace, data: PackedData) -> (rect: Option<FaceRect>)
        ensures
            rect == self.spec_face_rect(face),
    {
        match self {
            BlockKind::Glass => Glass.face_rect(face, data),
            BlockKind::RockSlab => RockSlab.face_rect(face, data),
            _ => Some(FaceRect::full(false)),
        }
    }

    /// Light that a block of this type gives off, `0..=15`.
    pub open spec fn spec_light_emission(self) -> u8 {
        match self {
            BlockKind::Glowstone => 15,
            _ => 0,
        }
    }

    pub fn light_emission(self, data: PackedData) -> (level: u8)
        ensures
            level == self.spec_light_emission(),
            level <= 15,
    {
        match self {
            BlockKind::Glowstone => Glowstone.light_emission(data),
            _ => 0,
        }
    }

    /// A block of this type stops light: its top face is filled and not
    /// transparent.
    pub open spec fn spec_is_opaque(self) -> bool {
        self.spec_face_rect(BlockFace::Top) matches Some(rect) && !rect.is_transparent
    }

    pub fn is_opaque(self, data: PackedData) -> (opaque: bool)
        ensures
            opaque == self.spec_is_opaque(),
    {
        match self.face_rect(BlockFace::Top, data) {
            Some(rect) => !rect.is_transparent,
            None => false,
        }
    }

    /// A block of this type is seen from outside only; one that is not
    /// solid, such as glass, is drawn from both sides.
    pub open spec fn spec_is_solid(self) -> bool {
        self != BlockKind::Glass
    }

    pub fn is_solid(self) -> (solid: bool)
        ensures
            solid == self.spec_is_solid(),
    {
        match self {
            BlockKind::Glass => false,
            _ => true,
        }
    }

    /// The model a block of this type is drawn with.
    pub open spec fn spec_model(self) -> ModelKind {
        match self {
            BlockKind::RockSlab => ModelKind::Slab,
            _ => ModelKind::Cube,
        }
    }

    pub fn model(self) -> (model: ModelKind)
        ensures
            model == self.spec_model(),
    {
        match self {
            BlockKind::RockSlab => ModelKind::Slab,
            _ => ModelKind::Cube,
        }
    }

    /// The key under which the texture of a face is registered: for soil
    /// and wood it depends on the face, for the others it is the block's
    /// payload.
    pub open spec fn spec_texture_data(self, face: BlockFace, data: u64) -> u64 {
        match self {
            BlockKind::Soil => soil_texture_key(face, data),
            BlockKind::Wood => wood_texture_key(face, data),
            _ => data,
        }
    }

    pub fn texture_data(self, face: BlockFace, data: PackedData) -> (key: PackedData)
        ensures
            key.bits() == self.spec_texture_data(face, data.bits()),
    {
        match self {
            BlockKind::Soil => Soil.texture_data(face, data),
            BlockKind::Wood => Wood.texture_data(face, data),
            _ => data,
        }
    }

    pub fn unique_name(self) -> (name: String)
        ensures
            name@ == (match self {
                BlockKind::Rock => "rock"@,
                BlockKind::RockSlab => "rock_slab"@,
                BlockKind::Soil => "soil"@,
                BlockKind::Wood => "wood"@,
                BlockKind::Glass => "glass"@,
                BlockKind::Glowstone => "glowstone"@,
            }),
    {
        match self {
            BlockKind::Rock => Rock.unique_name(),
            BlockKind::RockSlab => RockSlab.unique_name(),
            BlockKind::Soil => Soil.unique_name(),
            BlockKind::Wood => Wood.unique_name(),
            BlockKind::Glass => Glass.unique_name(),
            BlockKind::Glowstone => Glowstone.unique_name(),
        }
    }
}

} // verus!
