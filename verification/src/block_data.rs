use vstd::prelude::*;

use crate::material::Material;

verus! {

/// A block payload with a fixed layout: it is written into a 64-bit word
/// and read back from one.
pub trait BlockData: Sized {
    /// The word that the payload is written as.
    spec fn spec_encode(&self) -> u64;

    /// The word holds a payload of this kind.
    spec fn readable(data: u64) -> bool;

    /// The payload that a readable word holds.
    spec fn spec_decode(data: u64) -> Self;

    fn encode(&self) -> (data: u64)
        ensures
            data == self.spec_encode(),
            Self::readable(data),
            Self::spec_decode(data) == *self,
    ;

    fn decode(data: u64) -> (payload: Self)
        requires
            Self::readable(data),
        ensures
            payload == Self::spec_decode(data),
    ;
}

/// The two forms of rock.
#[derive(Debug, Clone, Copy, PartialEq, Eq, Hash, Structural)]
pub enum RockType {
    Rock,
    Stone,
}

impl RockType {
    pub open spec fn number(self) -> u8 {
        match self {
            RockType::Rock => 0,
            RockType::Stone => 1,
        }
    }

    pub open spec fn of_number(value: u8) -> Option<RockType> {
        if value == 0 {
            Some(RockType::Rock)
        } else if value == 1 {
            Some(RockType::Stone)
        } else {
            None
        }
    }

    pub fn to_u8(&self) -> (value: u8)
        ensures
            value == self.number(),
    {
        match self {
            RockType::Rock => 0,
            RockType::Stone => 1,
        }
    }

    pub fn from_u8(value: u8) -> (rock_type: Option<RockType>)
        ensures
            rock_type == RockType::of_number(value),
    {
        match value {
            0 => Some(RockType::Rock),
            1 => Some(RockType::Stone),
            _ => None,
        }
    }
}

/// Rock: its form in the lowest byte, its material in the two bytes above.
#[derive(Debug, Clone, Copy, PartialEq, Eq, Structural)]
pub struct RockData {
    pub rock_type: RockType,
    pub material: Material,
}

/// Soil: its material in the lowest two bytes, and in the two bytes above
/// the material of the grass on it, or `0xffff` where none grows.
#[derive(Debug, Clone, Copy, PartialEq, Eq, Structural)]
pub struct SoilData {
    pub material: Material,
    pub grass_material: Option<Material>,
}

/// A log of wood: its material in the lowest two bytes.
#[derive(Debug, Clone, Copy, PartialEq, Eq, Structural)]
pub struct WoodLogData {
    pub wood_material: Material,
}

proof fn lemma_two_fields(low: u64, high: u64)
    by (bit_vector)
    requires
        low < 0x100,
        high < 0x10000,
    ensures
        ((low | (high << 8)) & 0xFF) == low,
        (((low | (high << 8)) >> 8) & 0xFFFF) == high,
{
}

proof fn lemma_two_halves(low: u64, high: u64)
    by (bit_vector)
    requires
        low < 0x10000,
        high < 0x10000,
    ensures
        ((low | (high << 16)) & 0xFFFF) == low,
        (((low | (high << 16)) >> 16) & 0xFFFF) == high,
{
}

proof fn lemma_one_half(low: u64)
    by (bit_vector)
    requires
        low < 0x10000,
    ensures
        (low & 0xFFFF) == low,
{
}

proof fn lemma_masked(data: u64)
    by (bit_vector)
    ensures
        (data & 0xFF) < 0x100,
        ((data >> 8) & 0xFFFF) < 0x10000,
        (data & 0xFFFF) < 0x10000,
        ((data >> 16) & 0xFFFF) < 0x10000,
{
}

impl BlockData for RockData {
    open spec fn spec_encode(&self) -> u64 {
        (self.rock_type.number() as u64) | ((self.material.number() as u64) << 8)
    }

    open spec fn readable(data: u64) -> bool {
        &&& RockType::of_number((data & 0xFF) as u8) is Some
        &&& Material::of_number(((data >> 8) & 0xFFFF) as u16) is Some
    }

    open spec fn spec_decode(data: u64) -> RockData {
        RockData {
            rock_type: RockType::of_number((data & 0xFF) as u8)->0,
            material: Material::of_number(((data >> 8) & 0xFFFF) as u16)->0,
        }
    }

    fn encode(&self) -> (data: u64) {
        let rock_type = self.rock_type.to_u8() as u64;
        let material = self.material.to_u16() as u64;
        proof {
            lemma_two_fields(rock_type, material);
        }
        rock_type | (material << 8)
    }

    fn decode(data: u64) -> (payload: RockData) {
        proof {
            lemma_masked(data);
        }
        let rock_type = match RockType::from_u8((data & 0xFF) as u8) {
            Some(rock_type) => rock_type,
            None => RockType::Rock,
        };
        let material = match Material::from_u16(((data >> 8) & 0xFFFF) as u16) {
            Some(material) => material,
            None => Material::Shale,
        };
        RockData { rock_type, material }
    }
}

impl BlockData for SoilData {
    open spec fn spec_encode(&self) -> u64 {
        (self.material.number() as u64) | (((match self.grass_material {
            Some(grass) => grass.number(),
            None => 0xffffu16,
        }) as u64) << 16)
    }

    open spec fn readable(data: u64) -> bool {
        &&& Material::of_number((data & 0xFFFF) as u16) is Some
        &&& ((data >> 16) & 0xFFFF) == 0xffff || Material::of_number(
            ((data >> 16) & 0xFFFF) as u16,
        ) is Some
    }

    open spec fn spec_decode(data: u64) -> SoilData {
        SoilData {
            material: Material::of_number((data & 0xFFFF) as u16)->0,
            grass_material: if ((data >> 16) & 0xFFFF) == 0xffff {
                None
            } else {
                Some(Material::of_number(((data >> 16) & 0xFFFF) as u16)->0)
            },
        }
    }

    fn encode(&self) -> (data: u64) {
        let material = self.material.to_u16() as u64;
        let grass_material = match self.grass_material {
            Some(grass) => grass.to_u16(),
            None => u16::MAX,
        } as u64;
        proof {
            lemma_two_halves(material, grass_material);
        }
        material | (grass_material << 16)
    }

    fn decode(data: u64) -> (payload: SoilData) {
        proof {
            lemma_masked(data);
        }
        let material = match Material::from_u16((data & 0xFFFF) as u16) {
            Some(material) => material,
            None => Material::Shale,
        };
        let grass_material_value = ((data >> 16) & 0xFFFF) as u16;
        let grass_material = if grass_material_value == u16::MAX {
            None
        } else {
            Material::from_u16(grass_material_value)
        };
        SoilData { material, grass_material }
    }
}

impl BlockData for WoodLogData {
    open spec fn spec_encode(&self) -> u64 {
        self.wood_material.number() as u64
    }

    open spec fn readable(data: u64) -> bool {
        Material::of_number((data & 0xFFFF) as u16) is Some
    }

    open spec fn spec_decode(data: u64) -> WoodLogData {
        WoodLogData { wood_material: Material::of_number((data & 0xFFFF) as u16)->0 }
    }

    fn encode(&self) -> (data: u64) {
        let data = self.wood_material.to_u16() as u64;
        proof {
            lemma_one_half(data);
        }
        data
    }

    fn decode(data: u64) -> (payload: WoodLogData) {
        proof {
            lemma_masked(data);
        }
        let wood_material = match Material::from_u16((data & 0xFFFF) as u16) {
            Some(material) => material,
            None => Material::Shale,
        };
        WoodLogData { wood_material }
    }
}

} // verus!
