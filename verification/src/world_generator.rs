use std::sync::Arc;
use vstd::prelude::*;

use crate::block::Block;
use crate::chunk_data::{ChunkData, ChunkDataInner};
use crate::coords::{cell_index, cell_x, cell_y, cell_z, lemma_cell_coords, IVec3, CHUNK_VOLUME};

verus! {

/// Number of columns in a chunk.
pub const CHUNK_COLUMNS: usize = 1024;

/// The terrain of one column of cells: rock lies below `rock_top`, and the
/// ground ends below `surface`. Both are heights in the world grid.
#[derive(Debug, Clone, Copy, PartialEq, Eq, Structural)]
pub struct Column {
    pub rock_top: i64,
    pub surface: i64,
}

/// Turns the terrain of columns into the blocks of chunks.
#[derive(Debug, Clone, Copy)]
pub struct WorldGenerator {
    pub rock: Block,
    pub soil: Block,
    pub grass: Block,
}

impl WorldGenerator {
    /// The block at height `y` of a column: rock below the rock's top, soil
    /// from there up to the surface, with grass on the topmost layer of the
    /// ground, and air above.
    pub open spec fn spec_block_at(&self, column: Column, y: int) -> Option<Block> {
        if y < column.rock_top {
            Some(self.rock)
        } else if y < column.surface {
            if y == column.surface - 1 {
                Some(self.grass)
            } else {
                Some(self.soil)
            }
        } else {
            None
        }
    }

    pub fn new(rock: Block, soil: Block, grass: Block) -> (generator: WorldGenerator)
        ensures
            generator.rock == rock,
            generator.soil == soil,
            generator.grass == grass,
    {
        WorldGenerator { rock, soil, grass }
    }

    pub fn block_at(&self, column: Column, y: i64) -> (block: Option<Block>)
        ensures
            block == self.spec_block_at(column, y as int),
    {
        if y < column.rock_top {
            Some(self.rock)
        } else if y < column.surface {
            if column.surface > i64::MIN && y == column.surface - 1 {
                Some(self.grass)
            } else {
                Some(self.soil)
            }
        } else {
            None
        }
    }

    /// The blocks of the chunk at `chunk_pos`, where `columns` gives the
    /// terrain of the chunk's columns: that of the column at `(x, z)` stands
    /// at place `x + 32 * z`.
    pub fn generate_chunk(&self, chunk_pos: IVec3, columns: &Vec<Column>) -> (data: ChunkData)
        requires
            columns@.len() == CHUNK_COLUMNS,
        ensures
            data.wf(),
            data.cells().len() == CHUNK_VOLUME,
            forall|i: int|
                0 <= i < CHUNK_VOLUME ==> #[trigger] data.cells()[i] == self.spec_block_at(
                    columns@[cell_x(i) + 32 * cell_z(i)],
                    chunk_pos.y * 32 + cell_y(i),
                ),
    {
        let mut cells: Vec<Option<Block>> = Vec::with_capacity(CHUNK_VOLUME);
        let base_y = chunk_pos.y as i64 * 32;
        let mut i: usize = 0;
        while i < CHUNK_VOLUME
            invariant
                i <= CHUNK_VOLUME,
                columns@.len() == CHUNK_COLUMNS,
                base_y == chunk_pos.y * 32,
                cells@.len() == i,
                forall|j: int|
                    0 <= j < i ==> #[trigger] cells@[j] == self.spec_block_at(
                        columns@[cell_x(j) + 32 * cell_z(j)],
                        chunk_pos.y * 32 + cell_y(j),
                    ),
            decreases CHUNK_VOLUME - i,
        {
            let x = i % 32;
            let y = (i / 32) % 32;
            let z = i / 1024;
            proof {
                lemma_cell_coords(i as int);
            }
            let block = self.block_at(columns[x + 32 * z], base_y + y as i64);
            cells.push(block);
            i += 1;
        }
        Arc::new(ChunkDataInner::from_data(cells))
    }
}

} // verus!
