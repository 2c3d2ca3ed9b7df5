use std::collections::HashMap;
use vstd::prelude::*;

use crate::block::{Block, BlockFace, BlockId};
use crate::blocks::{BlockKind, Soil};
use crate::packed_data::PackedData;

verus! {

/// What a texture is registered under: a block type and the key that the
/// type makes of a block's payload and face.
#[derive(Debug, Clone, Copy, PartialEq, Eq, Hash, Structural)]
pub struct BlockTextureKey {
    pub block_id: u16,
    pub texture_data: u64,
}

impl BlockTextureKey {
    pub fn new(block_id: u16, texture_data: u64) -> (key: BlockTextureKey)
        ensures
            key == (BlockTextureKey { block_id, texture_data }),
    {
        BlockTextureKey { block_id, texture_data }
    }

    /// The key as one integer, the form in which it is looked up.
    pub open spec fn number(self) -> u128 {
        (self.block_id as int * 0x1_0000_0000_0000_0000 + self.texture_data as int) as u128
    }

    fn to_number(self) -> (number: u128)
        ensures
            number == self.number(),
    {
        (self.block_id as u128) * 0x1_0000_0000_0000_0000u128 + (self.texture_data as u128)
    }

    /// The key that an integer stands for.
    pub open spec fn of_number(number: u128) -> BlockTextureKey {
        BlockTextureKey {
            block_id: (number as int / 0x1_0000_0000_0000_0000) as u16,
            texture_data: (number as int % 0x1_0000_0000_0000_0000) as u64,
        }
    }

    pub proof fn lemma_number(self)
        ensures
            BlockTextureKey::of_number(self.number()) == self,
    {
    }
}

/// Texture that stands in where none is registered.
pub const MISSING_TEXTURE: u32 = 0;

/// The block types and textures that the world knows, set up once and then
/// only read.
pub struct Registry {
    block_types: Vec<BlockKind>,
    block_texture_indices: HashMap<u128, u32>,
    texture_count: u32,
}

impl Registry {
    /// The registered block types; a type's place is its block id.
    pub closed spec fn kinds(&self) -> Seq<BlockKind> {
        self.block_types@
    }

    /// The registered texture indices.
    pub closed spec fn textures(&self) -> Map<BlockTextureKey, u32> {
        Map::new(
            |key: BlockTextureKey| self.block_texture_indices@.contains_key(key.number()),
            |key: BlockTextureKey| self.block_texture_indices@[key.number()],
        )
    }

    /// Number of textures handed out so far.
    pub closed spec fn texture_count(&self) -> u32 {
        self.texture_count
    }

    /// No block type is registered twice.
    pub closed spec fn wf(&self) -> bool {
        &&& self.block_types@.no_duplicates()
        &&& self.block_types@.len() <= 6
    }

    /// The type registered under a block id, if there is one.
    pub open spec fn spec_block_type(&self, id: BlockId) -> Option<BlockKind> {
        if id.0 < self.kinds().len() {
            Some(self.kinds()[id.0 as int])
        } else {
            None
        }
    }

    /// A block stops light: its type is registered and opaque.
    pub open spec fn spec_is_opaque(&self, block: Block) -> bool {
        match self.spec_block_type(block.id) {
            Some(kind) => kind.spec_is_opaque(),
            None => false,
        }
    }

    /// Light that a block gives off; none where its type is not registered.
    pub open spec fn spec_light_emission(&self, block: Block) -> u8 {
        match self.spec_block_type(block.id) {
            Some(kind) => kind.spec_light_emission(),
            None => 0,
        }
    }

    /// The texture index registered for a block type and key, if any.
    pub open spec fn spec_texture_index(&self, block: Block) -> Option<u32> {
        let key = BlockTextureKey { block_id: block.id.0, texture_data: block.data.0 };
        if self.textures().contains_key(key) {
            Some(self.textures()[key])
        } else {
            None
        }
    }

    /// The texture of a face of a block: what is registered under the key
    /// that the block's type makes of payload and face, and
    /// [`MISSING_TEXTURE`] where the type or the texture is not registered.
    pub open spec fn spec_face_texture(&self, block: Block, face: BlockFace) -> u32 {
        match self.spec_block_type(block.id) {
            Some(kind) => match self.spec_texture_index(
                Block { id: block.id, data: PackedData(kind.spec_texture_data(face, block.data.0)) },
            ) {
                Some(index) => index,
                None => MISSING_TEXTURE,
            },
            None => MISSING_TEXTURE,
        }
    }

    pub fn new() -> (registry: Registry)
        ensures
            registry.wf(),
            registry.kinds() == Seq::<BlockKind>::empty(),
            registry.textures() == Map::<BlockTextureKey, u32>::empty(),
            registry.texture_count() == 0,
    {
        let registry = Registry {
            block_types: Vec::new(),
            block_texture_indices: HashMap::new(),
            texture_count: 0,
        };
        proof {
            assert(registry.textures() =~= Map::<BlockTextureKey, u32>::empty());
        }
        registry
    }

    /// The id of a block type, if it is registered.
    pub fn block_id(&self, kind: BlockKind) -> (id: Option<BlockId>)
        requires
            self.wf(),
        ensures
            match id {
                Some(id) => self.spec_block_type(id) == Some(kind),
                None => !self.kinds().contains(kind),
            },
    {
        let mut i: usize = 0;
        while i < self.block_types.len()
            invariant
                i <= self.block_types@.len(),
                self.block_types@.len() <= 6,
                forall|j: int| 0 <= j < i ==> self.block_types@[j] != kind,
            decreases self.block_types@.len() - i,
        {
            if self.block_types[i] == kind {
                return Some(BlockId(i as u16));
            }
            i += 1;
        }
        None
    }

    /// Registers a block type under the next free id and returns the id; a
    /// type that is registered already keeps its id.
    pub fn register_block(&mut self, kind: BlockKind) -> (id: BlockId)
        requires
            old(self).wf(),
        ensures
            final(self).wf(),
            final(self).kinds() == if old(self).kinds().contains(kind) {
                old(self).kinds()
            } else {
                old(self).kinds().push(kind)
            },
            final(self).spec_block_type(id) == Some(kind),
            final(self).textures() == old(self).textures(),
            final(self).texture_count() == old(self).texture_count(),
    {
        match self.block_id(kind) {
            Some(id) => id,
            None => {
                proof {
                    crate::pos_map::lemma_push_fresh(self.block_types@, kind);
                    lemma_six_kinds(self.block_types@, kind);
                }
                let id = BlockId(self.block_types.len() as u16);
                self.block_types.push(kind);
                id
            },
        }
    }

    pub fn block_type(&self, id: BlockId) -> (kind: Option<BlockKind>)
        ensures
            kind == self.spec_block_type(id),
    {
        if (id.0 as usize) < self.block_types.len() {
            Some(self.block_types[id.0 as usize])
        } else {
            None
        }
    }

    /// Whether a block stops light.
    pub fn is_opaque(&self, block: Block) -> (opaque: bool)
        ensures
            opaque == self.spec_is_opaque(block),
    {
        match self.block_type(block.id) {
            Some(kind) => kind.is_opaque(block.data),
            None => false,
        }
    }

    /// Light that a block gives off.
    pub fn light_emission(&self, block: Block) -> (level: u8)
        ensures
            level == self.spec_light_emission(block),
            level <= 15,
    {
        match self.block_type(block.id) {
            Some(kind) => kind.light_emission(block.data),
            None => 0,
        }
    }

    /// Hands out the index of the next texture; `None` once all indices are
    /// taken.
    pub fn add_image(&mut self) -> (index: Option<u32>)
        ensures
            final(self).kinds() == old(self).kinds(),
            final(self).textures() == old(self).textures(),
            old(self).wf() ==> final(self).wf(),
            match index {
                Some(i) => i == old(self).texture_count() && final(self).texture_count() == i + 1,
                None => old(self).texture_count() == u32::MAX && final(self).texture_count()
                    == u32::MAX,
            },
    {
        if self.texture_count == u32::MAX {
            return None;
        }
        let index = self.texture_count;
        self.texture_count = index + 1;
        Some(index)
    }

    /// Registers a texture index under a block type and key; an index
    /// registered there before is replaced.
    pub fn register_texture(&mut self, block: Block, texture_index: u32)
        ensures
            final(self).kinds() == old(self).kinds(),
            final(self).texture_count() == old(self).texture_count(),
            old(self).wf() ==> final(self).wf(),
            final(self).textures() == old(self).textures().insert(
                BlockTextureKey { block_id: block.id.0, texture_data: block.data.0 },
                texture_index,
            ),
    {
        broadcast use vstd::std_specs::hash::group_hash_axioms;

        let key = BlockTextureKey::new(block.id.0, block.data.0);
        self.block_texture_indices.insert(key.to_number(), texture_index);
        proof {
            assert forall|other: BlockTextureKey| other != key implies other.number()
                != key.number() by {
                other.lemma_number();
                key.lemma_number();
            }
            assert(self.textures() =~= old(self).textures().insert(key, texture_index));
        }
    }

    /// The texture index registered under a block type and key.
    pub fn texture_index(&self, block: Block) -> (index: Option<u32>)
        ensures
            index == self.spec_texture_index(block),
    {
        broadcast use vstd::std_specs::hash::group_hash_axioms;

        let key = BlockTextureKey::new(block.id.0, block.data.0);
        match self.block_texture_indices.get(&key.to_number()) {
            Some(index) => Some(*index),
            None => None,
        }
    }

    /// The texture of a face of a block.
    pub fn face_texture(&self, block: Block, face: BlockFace) -> (index: u32)
        ensures
            index == self.spec_face_texture(block, face),
    {
        match self.block_type(block.id) {
            Some(kind) => {
                let key = kind.texture_data(face, block.data);
                match self.texture_index(Block::new(block.id, key)) {
                    Some(index) => index,
                    None => MISSING_TEXTURE,
                }
            },
            None => MISSING_TEXTURE,
        }
    }
}

/// A list of block types without repetition that lacks one type has fewer
/// than six entries.
proof fn lemma_six_kinds(kinds: Seq<BlockKind>, missing: BlockKind)
    requires
        kinds.no_duplicates(),
        !kinds.contains(missing),
    ensures
        kinds.len() < 6,
{
    let all = set![
        BlockKind::Rock,
        BlockKind::RockSlab,
        BlockKind::Soil,
        BlockKind::Wood,
        BlockKind::Glass,
        BlockKind::Glowstone,
    ];
    let present = kinds.to_set();
    kinds.unique_seq_to_set();
    assert(present.subset_of(all.remove(missing))) by {
        assert forall|k: BlockKind| present.contains(k) implies all.remove(missing).contains(k) by {
            assert(kinds.contains(k));
        }
    }
    vstd::set_lib::lemma_len_subset(present, all.remove(missing));
}

impl Soil {
    /// The textures of a soil block's top, bottom and sides.
    pub fn texture_set(&self, registry: &Registry, block: Block) -> (textures: (u32, u32, u32))
        ensures
            textures.0 == registry.spec_soil_texture(block, BlockFace::Top),
            textures.1 == registry.spec_soil_texture(block, BlockFace::Bottom),
            textures.2 == registry.spec_soil_texture(block, BlockFace::Front),
    {
        (
            registry.soil_texture(block, BlockFace::Top),
            registry.soil_texture(block, BlockFace::Bottom),
            registry.soil_texture(block, BlockFace::Front),
        )
    }
}

impl Registry {
    /// The texture of a face of a block when the block is read as soil.
    pub open spec fn spec_soil_texture(&self, block: Block, face: BlockFace) -> u32 {
        match self.spec_texture_index(
            Block {
                id: block.id,
                data: PackedData(crate::blocks::soil_texture_key(face, block.data.0)),
            },
        ) {
            Some(index) => index,
            None => MISSING_TEXTURE,
        }
    }

    pub fn soil_texture(&self, block: Block, face: BlockFace) -> (index: u32)
        ensures
            index == self.spec_soil_texture(block, face),
    {
        let key = Soil.texture_data(face, block.data);
        match self.texture_index(Block::new(block.id, key)) {
            Some(index) => index,
            None => MISSING_TEXTURE,
        }
    }
}

} // verus!
