use vstd::prelude::*;

use crate::material::{Material, MaterialKind};

verus! {

pub struct Loam;

pub struct LushGrass;

pub struct Oak;

pub struct Shale;

impl Loam {
    pub fn unique_name(&self) -> (name: String)
        ensures
            name@ == "loam"@,
    {
        "loam".to_owned()
    }

    /// The family that textures are picked by.
    pub fn tag(&self) -> (tag: String)
        ensures
            tag@ == "soil"@,
    {
        "soil".to_owned()
    }

    pub fn material(&self) -> (material: Material)
        ensures
            material == Material::Loam,
            material.spec_kind() == MaterialKind::Soil,
    {
        Material::Loam
    }
}

impl LushGrass {
    pub fn unique_name(&self) -> (name: String)
        ensures
            name@ == "lush_grass"@,
    {
        "lush_grass".to_owned()
    }

    /// The family that textures are picked by.
    pub fn tag(&self) -> (tag: String)
        ensures
            tag@ == "grass"@,
    {
        "grass".to_owned()
    }

    pub fn material(&self) -> (material: Material)
        ensures
            material == Material::LushGrass,
            material.spec_kind() == MaterialKind::Grass,
    {
        Material::LushGrass
    }
}

impl Oak {
    pub fn unique_name(&self) -> (name: String)
        ensures
            name@ == "oak"@,
    {
        "oak".to_owned()
    }

    /// The family that textures are picked by.
    pub fn tag(&self) -> (tag: String)
        ensures
            tag@ == "wood"@,
    {
        "wood".to_owned()
    }
}

impl Shale {
    pub fn unique_name(&self) -> (name: String)
        ensures
            name@ == "shale"@,
    {
        "shale".to_owned()
    }

    /// The family that textures are picked by.
    pub fn tag(&self) -> (tag: String)
        ensures
            tag@ == "rock"@,
    {
        "rock".to_owned()
    }

    pub fn material(&self) -> (material: Material)
        ensures
            material == Material::Shale,
            material.spec_kind() == MaterialKind::Rock,
    {
        Material::Shale
    }
}

} // verus!
