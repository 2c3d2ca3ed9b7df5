use vstd::prelude::*;

verus! {

/// Broad family a material belongs to.
#[derive(Debug, Clone, Copy, PartialEq, Eq, Hash, Structural)]
pub enum MaterialKind {
    Rock,
    Soil,
    Grass,
}

/// The materials a block can be made of. Each has a stable 16-bit number
/// under which it is stored in packed block data.
#[derive(Debug, Clone, Copy, PartialEq, Eq, Hash, Structural)]
pub enum Material {
    Shale,
    Chalk,
    Loam,
    Silt,
    Clay,
    LushGrass,
}

/// Two colors are the same in red, green, blue and opacity.
pub open spec fn same_color(a: [u8; 4], b: [u8; 4]) -> bool {
    a[0] == b[0] && a[1] == b[1] && a[2] == b[2] && a[3] == b[3]
}

/// The four colors that block textures are drawn in, from light to dark.
pub open spec fn base_palette_colors() -> [[u8; 4]; 4] {
    [
        [0x9D, 0x9D, 0x9D, 0xFF],
        [0x83, 0x83, 0x83, 0xFF],
        [0x71, 0x71, 0x71, 0xFF],
        [0x5B, 0x5B, 0x5B, 0xFF],
    ]
}

/// Number of materials; valid material numbers are `0..MATERIAL_COUNT`.
pub const MATERIAL_COUNT: u16 = 6;

impl Material {
    /// The number a material is stored under.
    pub open spec fn number(self) -> u16 {
        match self {
            Material::Shale => 0,
            Material::Chalk => 1,
            Material::Loam => 2,
            Material::Silt => 3,
            Material::Clay => 4,
            Material::LushGrass => 5,
        }
    }

    /// The material stored under `value`, if there is one.
    pub open spec fn of_number(value: u16) -> Option<Material> {
        if value == 0 {
            Some(Material::Shale)
        } else if value == 1 {
            Some(Material::Chalk)
        } else if value == 2 {
            Some(Material::Loam)
        } else if value == 3 {
            Some(Material::Silt)
        } else if value == 4 {
            Some(Material::Clay)
        } else if value == 5 {
            Some(Material::LushGrass)
        } else {
            None
        }
    }

    pub open spec fn spec_kind(&self) -> MaterialKind {
        match self {
            Material::Shale | Material::Chalk => MaterialKind::Rock,
            Material::Loam | Material::Silt | Material::Clay => MaterialKind::Soil,
            Material::LushGrass => MaterialKind::Grass,
        }
    }

    #[verifier::when_used_as_spec(spec_kind)]
    pub fn kind(&self) -> (kind: MaterialKind)
        ensures
            kind == self.spec_kind(),
    {
        match self {
            Material::Shale => MaterialKind::Rock,
            Material::Chalk => MaterialKind::Rock,
            Material::Loam => MaterialKind::Soil,
            Material::Silt => MaterialKind::Soil,
            Material::Clay => MaterialKind::Soil,
            Material::LushGrass => MaterialKind::Grass,
        }
    }

    pub fn to_u16(&self) -> (value: u16)
        ensures
            value == self.number(),
            value < MATERIAL_COUNT,
    {
        match self {
            Material::Shale => 0,
            Material::Chalk => 1,
            Material::Loam => 2,
            Material::Silt => 3,
            Material::Clay => 4,
            Material::LushGrass => 5,
        }
    }

    pub fn from_u16(value: u16) -> (material: Option<Material>)
        ensures
            material == Material::of_number(value),
            material is Some <==> value < MATERIAL_COUNT,
    {
        match value {
            0 => Some(Material::Shale),
            1 => Some(Material::Chalk),
            2 => Some(Material::Loam),
            3 => Some(Material::Silt),
            4 => Some(Material::Clay),
            5 => Some(Material::LushGrass),
            _ => None,
        }
    }

    /// The four colors of a material, from light to dark, as red, green,
    /// blue and opacity.
    pub open spec fn spec_palette(self) -> [[u8; 4]; 4] {
        match self {
            Material::Shale => [
                [0x9D, 0x9D, 0x9D, 0xFF],
                [0x83, 0x83, 0x83, 0xFF],
                [0x71, 0x71, 0x71, 0xFF],
                [0x5B, 0x5B, 0x5B, 0xFF],
            ],
            Material::Chalk => [
                [0xE5, 0xE5, 0xD8, 0xFF],
                [0xD8, 0xD8, 0xCC, 0xFF],
                [0xCC, 0xCC, 0xC0, 0xFF],
                [0xC0, 0xC0, 0xB5, 0xFF],
            ],
            Material::Loam => [
                [0x7F, 0x69, 0x47, 0xFF],
                [0x76, 0x62, 0x44, 0xFF],
                [0x6B, 0x59, 0x3E, 0xFF],
                [0x64, 0x54, 0x3C, 0xFF],
            ],
            Material::Silt => [
                [0xAF, 0x92, 0x6A, 0xFF],
                [0xA3, 0x88, 0x62, 0xFF],
                [0x98, 0x7E, 0x5A, 0xFF],
                [0x8D, 0x74, 0x53, 0xFF],
            ],
            Material::Clay => [
                [0xA0, 0x5E, 0x4C, 0xFF],
                [0x94, 0x56, 0x45, 0xFF],
                [0x88, 0x4E, 0x3E, 0xFF],
                [0x7D, 0x47, 0x38, 0xFF],
            ],
            Material::LushGrass => [
                [0x34, 0x72, 0x34, 0xFF],
                [0x2E, 0x66, 0x2E, 0xFF],
                [0x28, 0x5A, 0x28, 0xFF],
                [0x22, 0x4E, 0x22, 0xFF],
            ],
        }
    }

    /// The color that a pixel of a block texture gets for this material:
    /// each of the four colors that textures are drawn in stands for the
    /// color of the material at the same place of its palette, and any other
    /// color stays as it is.
    pub open spec fn spec_color_pixel(self, pixel: [u8; 4]) -> [u8; 4] {
        let base = base_palette_colors();
        if same_color(pixel, base[0]) {
            self.spec_palette()[0]
        } else if same_color(pixel, base[1]) {
            self.spec_palette()[1]
        } else if same_color(pixel, base[2]) {
            self.spec_palette()[2]
        } else if same_color(pixel, base[3]) {
            self.spec_palette()[3]
        } else {
            pixel
        }
    }

    pub fn color_pixel(&self, pixel: [u8; 4]) -> (colored: [u8; 4])
        ensures
            colored == self.spec_color_pixel(pixel),
    {
        let palette = self.palette();
        let base = Material::Shale.palette();
        let mut i: usize = 0;
        while i < 4
            invariant
                i <= 4,
                palette == self.spec_palette(),
                base == base_palette_colors(),
                forall|k: int| 0 <= k < i ==> !same_color(pixel, #[trigger] base[k]),
            decreases 4 - i,
        {
            if base[i][0] == pixel[0] && base[i][1] == pixel[1] && base[i][2] == pixel[2]
                && base[i][3] == pixel[3] {
                return palette[i];
            }
            i += 1;
        }
        pixel
    }

    pub fn palette(&self) -> (colors: [[u8; 4]; 4])
        ensures
            colors == self.spec_palette(),
    {
        match self {
            Material::Shale => [
                [0x9D, 0x9D, 0x9D, 0xFF],
                [0x83, 0x83, 0x83, 0xFF],
                [0x71, 0x71, 0x71, 0xFF],
                [0x5B, 0x5B, 0x5B, 0xFF],
            ],
            Material::Chalk => [
                [0xE5, 0xE5, 0xD8, 0xFF],
                [0xD8, 0xD8, 0xCC, 0xFF],
                [0xCC, 0xCC, 0xC0, 0xFF],
                [0xC0, 0xC0, 0xB5, 0xFF],
            ],
            Material::Loam => [
                [0x7F, 0x69, 0x47, 0xFF],
                [0x76, 0x62, 0x44, 0xFF],
                [0x6B, 0x59, 0x3E, 0xFF],
                [0x64, 0x54, 0x3C, 0xFF],
            ],
            Material::Silt => [
                [0xAF, 0x92, 0x6A, 0xFF],
                [0xA3, 0x88, 0x62, 0xFF],
                [0x98, 0x7E, 0x5A, 0xFF],
                [0x8D, 0x74, 0x53, 0xFF],
            ],
            Material::Clay => [
                [0xA0, 0x5E, 0x4C, 0xFF],
                [0x94, 0x56, 0x45, 0xFF],
                [0x88, 0x4E, 0x3E, 0xFF],
                [0x7D, 0x47, 0x38, 0xFF],
            ],
            Material::LushGrass => [
                [0x34, 0x72, 0x34, 0xFF],
                [0x2E, 0x66, 0x2E, 0xFF],
                [0x28, 0x5A, 0x28, 0xFF],
                [0x22, 0x4E, 0x22, 0xFF],
            ],
        }
    }
}

} // verus!
