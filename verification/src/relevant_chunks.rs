use vstd::prelude::*;

use crate::block::Block;
use crate::chunk_data::ChunkData;
use crate::coords::{
    cell_index, chunk_pos_of, div_floor, local_pos_of, rem_floor, spec_chunk_pos, spec_local_pos,
    IVec3, USizeVec3, CHUNK_VOLUME,
};
use crate::pos_map::PosMap;

verus! {

/// The chunks around one chunk, by position: what a light or mesh pass reads
/// blocks from. A position without a chunk reads as air.
pub struct RelevantChunks {
    chunks: PosMap<ChunkData>,
}

/// The chunk that holds the cell `(x, y, z)` counted from the origin of the
/// chunk at `center`, where that chunk's position can be written down.
pub open spec fn rel_chunk(center: IVec3, x: int, y: int, z: int) -> Option<IVec3> {
    center.spec_offset(x / 32, y / 32, z / 32)
}

/// Place of the cell `(x, y, z)`, counted from a chunk's origin, in the
/// flattened cell order of the chunk that holds it.
pub open spec fn rel_index(x: int, y: int, z: int) -> int {
    cell_index(x % 32, y % 32, z % 32)
}

impl RelevantChunks {
    pub closed spec fn wf(&self) -> bool {
        &&& self.chunks.wf()
        &&& forall|i: int|
            0 <= i < self.chunks.values().len() ==> (#[trigger] self.chunks.values()[i]).wf()
    }

    /// The chunk at a position, if one is held.
    pub closed spec fn chunk(&self, chunk_pos: IVec3) -> Option<ChunkData> {
        self.chunks.spec_get(chunk_pos)
    }

    /// The block in a cell of the chunk at `chunk_pos`; air where no chunk
    /// is held there.
    pub open spec fn block_at(&self, chunk_pos: IVec3, index: int) -> Option<Block> {
        match self.chunk(chunk_pos) {
            Some(chunk) => chunk.cells()[index],
            None => None,
        }
    }

    /// The block at a cell of the world grid.
    pub open spec fn spec_get_block(&self, world_pos: IVec3) -> Option<Block> {
        let local = spec_local_pos(world_pos);
        self.block_at(
            spec_chunk_pos(world_pos),
            cell_index(local.x as int, local.y as int, local.z as int),
        )
    }

    /// The block in the cell `(x, y, z)` counted from the origin of the
    /// chunk at `center`.
    pub open spec fn rel_block(&self, center: IVec3, x: int, y: int, z: int) -> Option<Block> {
        match rel_chunk(center, x, y, z) {
            Some(chunk_pos) => self.block_at(chunk_pos, rel_index(x, y, z)),
            None => None,
        }
    }

    pub proof fn lemma_wf(&self)
        requires
            self.wf(),
        ensures
            forall|p: IVec3| #[trigger] self.chunk(p) is Some ==> self.chunk(p)->0.wf(),
    {
        self.chunks.lemma_wf();
        assert forall|p: IVec3| #[trigger] self.chunk(p) is Some implies self.chunk(p)->0.wf() by {
            let i = crate::pos_map::place_of(self.chunks.keys(), p);
            assert(self.chunks.values()[i].wf());
        }
    }

    pub fn new() -> (chunks: RelevantChunks)
        ensures
            chunks.wf(),
            forall|p: IVec3| #[trigger] chunks.chunk(p) is None,
    {
        RelevantChunks { chunks: PosMap::new() }
    }

    /// Puts a chunk at a position, in place of one held there before.
    pub fn insert(&mut self, chunk_pos: IVec3, data: ChunkData)
        requires
            old(self).wf(),
            data.wf(),
        ensures
            final(self).wf(),
            final(self).chunk(chunk_pos) == Some(data),
            forall|p: IVec3| p != chunk_pos ==> #[trigger] final(self).chunk(p) == old(self).chunk(p),
    {
        let index = self.chunks.insert(chunk_pos, data);
        proof {
            old(self).chunks.lemma_wf();
            self.chunks.lemma_wf();
            if old(self).chunks.keys().contains(chunk_pos) {
                assert(self.chunks.values() == old(self).chunks.values().update(index as int, data));
            } else {
                assert(self.chunks.values() == old(self).chunks.values().push(data));
            }
            assert forall|i: int| 0 <= i < self.chunks.values().len() implies (
            #[trigger] self.chunks.values()[i]).wf() by {
                if old(self).chunks.keys().contains(chunk_pos) {
                    if i != index {
                        assert(self.chunks.values()[i] == old(self).chunks.values()[i]);
                    }
                } else {
                    old(self).chunks.lemma_wf();
                    if i != index {
                        assert(self.chunks.values()[i] == old(self).chunks.values()[i]);
                    }
                }
            }
        }
    }

    /// The block in a cell of the chunk at `chunk_pos`.
    pub fn get_block_in(&self, chunk_pos: IVec3, local_pos: USizeVec3) -> (block: Option<Block>)
        requires
            self.wf(),
            local_pos.in_chunk(),
        ensures
            block == self.block_at(
                chunk_pos,
                cell_index(local_pos.x as int, local_pos.y as int, local_pos.z as int),
            ),
    {
        proof {
            self.lemma_wf();
        }
        match self.chunks.get(chunk_pos) {
            Some(chunk) => chunk.get_block(local_pos),
            None => None,
        }
    }

    pub fn get_block(&self, world_pos: IVec3) -> (block: Option<Block>)
        requires
            self.wf(),
        ensures
            block == self.spec_get_block(world_pos),
    {
        let chunk_pos = chunk_pos_of(world_pos);
        let local_pos = local_pos_of(world_pos);
        self.get_block_in(chunk_pos, local_pos)
    }

    /// The block in the cell `(x, y, z)` counted from the origin of the
    /// chunk at `center`.
    pub fn get_block_rel(&self, center: IVec3, x: i32, y: i32, z: i32) -> (block: Option<Block>)
        requires
            self.wf(),
        ensures
            block == self.rel_block(center, x as int, y as int, z as int),
    {
        let chunk_pos = center.offset(div_floor(x, 32), div_floor(y, 32), div_floor(z, 32));
        match chunk_pos {
            Some(chunk_pos) => {
                let local_pos = USizeVec3 {
                    x: rem_floor(x, 32) as usize,
                    y: rem_floor(y, 32) as usize,
                    z: rem_floor(z, 32) as usize,
                };
                self.get_block_in(chunk_pos, local_pos)
            },
            None => None,
        }
    }
}

/// Counting cells from the origin of a chunk is the same as naming them by
/// their position in the world grid: the cell `(x, y, z)` counted from the
/// origin of the chunk at `center` is the cell of the world grid at 32 times
/// `center` plus `(x, y, z)`, in the same chunk and at the same place of it.
pub proof fn lemma_rel_is_world(center: IVec3, x: int, y: int, z: int, world_pos: IVec3)
    requires
        world_pos.x == center.x * 32 + x,
        world_pos.y == center.y * 32 + y,
        world_pos.z == center.z * 32 + z,
    ensures
        rel_chunk(center, x, y, z) == Some(spec_chunk_pos(world_pos)),
        rel_index(x, y, z) == cell_index(
            spec_local_pos(world_pos).x as int,
            spec_local_pos(world_pos).y as int,
            spec_local_pos(world_pos).z as int,
        ),
{
}

/// A block that is read by counting cells from the origin of a chunk is
/// the block at the cell's position in the world grid.
pub proof fn lemma_rel_block_is_world_block(
    chunks: &RelevantChunks,
    center: IVec3,
    x: int,
    y: int,
    z: int,
    world_pos: IVec3,
)
    requires
        world_pos.x == center.x * 32 + x,
        world_pos.y == center.y * 32 + y,
        world_pos.z == center.z * 32 + z,
    ensures
        chunks.rel_block(center, x, y, z) == chunks.spec_get_block(world_pos),
{
    lemma_rel_is_world(center, x, y, z, world_pos);
}

} // verus!
