use indexmap::IndexSet;
use std::sync::Arc;
use vstd::prelude::*;

use crate::block::{blocks_of_keys, Block};
use crate::coords::{cell_index, local_index, USizeVec3, CHUNK_VOLUME};
use crate::ordered_set::{
    block_set_clone, block_set_get_index, block_set_get_index_of, block_set_insert,
    block_set_items, block_set_len, block_set_new,
};

verus! {

/// Highest light level of either channel.
pub const MAX_LIGHT: u8 = 15;

/// Cell index that stands for "no block".
pub const AIR_INDEX: u16 = 0xffff;

/// Largest number of entries a palette can hold: every entry needs a cell
/// index of its own below [`AIR_INDEX`].
pub const PALETTE_CAPACITY: usize = 0xffff;

/// Light of one chunk, shared between its holders.
pub type LightData = Arc<LightDataInner>;

/// Block content of one chunk, shared between its holders until one of
/// them writes to it.
pub type ChunkData = Arc<ChunkDataInner>;

/// Light of one chunk: for each cell a sky light level and a block light
/// level, both in `0..=15`.
#[derive(Debug)]
pub struct LightDataInner {
    /// Per byte: high 4 bits = sky light, low 4 bits = block light.
    data: Vec<u8>,
}

proof fn lemma_nibbles(byte: u8, level: u8)
    by (bit_vector)
    ensures
        (byte >> 4) < 16,
        (byte & 0x0F) < 16,
        ((level << 4) | (byte & 0x0F)) >> 4 == level % 16,
        ((level << 4) | (byte & 0x0F)) & 0x0F == byte & 0x0F,
        ((byte & 0xF0) | (level & 0x0F)) >> 4 == byte >> 4,
        ((byte & 0xF0) | (level & 0x0F)) & 0x0F == level % 16,
        0u8 >> 4 == 0,
        0u8 & 0x0F == 0,
{
}

impl LightDataInner {
    /// One byte for every cell.
    pub closed spec fn wf(&self) -> bool {
        self.data@.len() == CHUNK_VOLUME
    }

    /// Sky light of every cell, in flattened cell order.
    pub closed spec fn sky(&self) -> Seq<u8> {
        Seq::new(self.data@.len(), |i: int| self.data@[i] >> 4)
    }

    /// Block light of every cell, in flattened cell order.
    pub closed spec fn block(&self) -> Seq<u8> {
        Seq::new(self.data@.len(), |i: int| self.data@[i] & 0x0F)
    }

    /// Both channels have a level for every cell, and no level is above 15.
    pub proof fn lemma_levels(&self)
        requires
            self.wf(),
        ensures
            self.sky().len() == CHUNK_VOLUME,
            self.block().len() == CHUNK_VOLUME,
            forall|i: int| 0 <= i < CHUNK_VOLUME ==> #[trigger] self.sky()[i] <= MAX_LIGHT,
            forall|i: int| 0 <= i < CHUNK_VOLUME ==> #[trigger] self.block()[i] <= MAX_LIGHT,
    {
        assert forall|i: int| 0 <= i < CHUNK_VOLUME implies #[trigger] self.sky()[i] <= MAX_LIGHT by {
            lemma_nibbles(self.data@[i], 0);
        }
        assert forall|i: int| 0 <= i < CHUNK_VOLUME implies #[trigger] self.block()[i]
            <= MAX_LIGHT by {
            lemma_nibbles(self.data@[i], 0);
        }
    }

    /// The stored bytes, one for every cell, in flattened cell order.
    pub closed spec fn bytes(&self) -> Seq<u8> {
        self.data@
    }

    /// Two light values with the same levels in both channels hold the same
    /// bytes.
    pub proof fn lemma_equal(&self, other: &LightDataInner)
        requires
            self.wf(),
            other.wf(),
            self.sky() == other.sky(),
            self.block() == other.block(),
        ensures
            self.bytes() == other.bytes(),
    {
        assert forall|i: int| 0 <= i < CHUNK_VOLUME implies self.data@[i] == other.data@[i] by {
            let a = self.data@[i];
            let b = other.data@[i];
            assert(self.sky()[i] == a >> 4);
            assert(other.sky()[i] == b >> 4);
            assert(self.block()[i] == a & 0x0F);
            assert(other.block()[i] == b & 0x0F);
            assert(a >> 4 == b >> 4 && a & 0x0F == b & 0x0F ==> a == b) by (bit_vector);
        }
        assert(self.data@ =~= other.data@);
    }

    /// A chunk without light: both channels are 0 in every cell.
    pub fn new() -> (light: LightDataInner)
        ensures
            light.wf(),
            light.sky() == Seq::new(CHUNK_VOLUME as nat, |i: int| 0u8),
            light.block() == Seq::new(CHUNK_VOLUME as nat, |i: int| 0u8),
    {
        let data = vec![0u8; CHUNK_VOLUME];
        let light = LightDataInner { data };
        proof {
            lemma_nibbles(0, 0);
            assert(light.sky() =~= Seq::new(CHUNK_VOLUME as nat, |i: int| 0u8));
            assert(light.block() =~= Seq::new(CHUNK_VOLUME as nat, |i: int| 0u8));
        }
        light
    }

    pub fn get_sky_light(&self, local_pos: USizeVec3) -> (level: u8)
        requires
            self.wf(),
            local_pos.in_chunk(),
        ensures
            level == self.sky()[cell_index(local_pos.x as int, local_pos.y as int, local_pos.z as int)],
            level <= MAX_LIGHT,
    {
        let idx = local_index(local_pos);
        proof {
            lemma_nibbles(self.data@[idx as int], 0);
        }
        self.data[idx] >> 4
    }

    pub fn get_block_light(&self, local_pos: USizeVec3) -> (level: u8)
        requires
            self.wf(),
            local_pos.in_chunk(),
        ensures
            level == self.block()[cell_index(
                local_pos.x as int,
                local_pos.y as int,
                local_pos.z as int,
            )],
            level <= MAX_LIGHT,
    {
        let idx = local_index(local_pos);
        proof {
            lemma_nibbles(self.data@[idx as int], 0);
        }
        self.data[idx] & 0x0F
    }

    /// Sets the sky light of a cell to the low four bits of `level` and
    /// leaves everything else as it is.
    pub fn set_sky_light(&mut self, local_pos: USizeVec3, level: u8)
        requires
            old(self).wf(),
            local_pos.in_chunk(),
        ensures
            final(self).wf(),
            final(self).sky() == old(self).sky().update(
                cell_index(local_pos.x as int, local_pos.y as int, local_pos.z as int),
                level % 16,
            ),
            final(self).block() == old(self).block(),
    {
        let idx = local_index(local_pos);
        let byte = self.data[idx];
        proof {
            lemma_nibbles(byte, level);
        }
        self.data[idx] = (level << 4) | (byte & 0x0F);
        proof {
            assert(self.sky() =~= old(self).sky().update(idx as int, level % 16));
            assert(self.block() =~= old(self).block());
        }
    }

    /// Sets the block light of a cell to the low four bits of `level` and
    /// leaves everything else as it is.
    pub fn set_block_light(&mut self, local_pos: USizeVec3, level: u8)
        requires
            old(self).wf(),
            local_pos.in_chunk(),
        ensures
            final(self).wf(),
            final(self).block() == old(self).block().update(
                cell_index(local_pos.x as int, local_pos.y as int, local_pos.z as int),
                level % 16,
            ),
            final(self).sky() == old(self).sky(),
    {
        let idx = local_index(local_pos);
        let byte = self.data[idx];
        proof {
            lemma_nibbles(byte, level);
        }
        self.data[idx] = (byte & 0xF0) | (level & 0x0F);
        proof {
            assert(self.block() =~= old(self).block().update(idx as int, level % 16));
            assert(self.sky() =~= old(self).sky());
        }
    }

    /// The block light of every cell, in flattened cell order.
    pub fn block_levels(&self) -> (levels: Vec<u8>)
        requires
            self.wf(),
        ensures
            levels@ == self.block(),
            levels@.len() == CHUNK_VOLUME,
            forall|i: int| 0 <= i < CHUNK_VOLUME ==> levels@[i] <= MAX_LIGHT,
    {
        let mut levels: Vec<u8> = Vec::with_capacity(CHUNK_VOLUME);
        let mut i: usize = 0;
        while i < CHUNK_VOLUME
            invariant
                i <= CHUNK_VOLUME,
                self.wf(),
                levels@.len() == i,
                forall|j: int| 0 <= j < i ==> levels@[j] == self.block()[j] && levels@[j] <= 15,
            decreases CHUNK_VOLUME - i,
        {
            proof {
                lemma_nibbles(self.data@[i as int], 0);
            }
            levels.push(self.data[i] & 0x0F);
            i += 1;
        }
        proof {
            assert(levels@ =~= self.block());
        }
        levels
    }

    /// The sky light of every cell, in flattened cell order.
    pub fn sky_levels(&self) -> (levels: Vec<u8>)
        requires
            self.wf(),
        ensures
            levels@ == self.sky(),
            levels@.len() == CHUNK_VOLUME,
            forall|i: int| 0 <= i < CHUNK_VOLUME ==> levels@[i] <= MAX_LIGHT,
    {
        let mut levels: Vec<u8> = Vec::with_capacity(CHUNK_VOLUME);
        let mut i: usize = 0;
        while i < CHUNK_VOLUME
            invariant
                i <= CHUNK_VOLUME,
                self.wf(),
                levels@.len() == i,
                forall|j: int| 0 <= j < i ==> levels@[j] == self.sky()[j] && levels@[j] <= 15,
            decreases CHUNK_VOLUME - i,
        {
            proof {
                lemma_nibbles(self.data@[i as int], 0);
            }
            levels.push(self.data[i] >> 4);
            i += 1;
        }
        proof {
            assert(levels@ =~= self.sky());
        }
        levels
    }

    /// Sets the block light of every cell and leaves the sky light as it is.
    pub fn set_block_levels(&mut self, levels: &Vec<u8>)
        requires
            old(self).wf(),
            levels@.len() == CHUNK_VOLUME,
            forall|i: int| 0 <= i < CHUNK_VOLUME ==> levels@[i] <= MAX_LIGHT,
        ensures
            final(self).wf(),
            final(self).block() == levels@,
            final(self).sky() == old(self).sky(),
    {
        let mut i: usize = 0;
        while i < CHUNK_VOLUME
            invariant
                i <= CHUNK_VOLUME,
                self.wf(),
                levels@.len() == CHUNK_VOLUME,
                forall|j: int| 0 <= j < CHUNK_VOLUME ==> levels@[j] <= MAX_LIGHT,
                forall|j: int| 0 <= j < i ==> self.data@[j] & 0x0F == levels@[j],
                forall|j: int| 0 <= j < CHUNK_VOLUME ==> self.data@[j] >> 4 == old(self).data@[j] >> 4,
            decreases CHUNK_VOLUME - i,
        {
            let byte = self.data[i];
            let level = levels[i];
            proof {
                lemma_nibbles(byte, level);
            }
            self.data[i] = (byte & 0xF0) | (level & 0x0F);
            i += 1;
        }
        proof {
            assert(self.block() =~= levels@);
            assert(self.sky() =~= old(self).sky());
        }
    }

    /// Sets the sky light of every cell and leaves the block light as it is.
    pub fn set_sky_levels(&mut self, levels: &Vec<u8>)
        requires
            old(self).wf(),
            levels@.len() == CHUNK_VOLUME,
            forall|i: int| 0 <= i < CHUNK_VOLUME ==> levels@[i] <= MAX_LIGHT,
        ensures
            final(self).wf(),
            final(self).sky() == levels@,
            final(self).block() == old(self).block(),
    {
        let mut i: usize = 0;
        while i < CHUNK_VOLUME
            invariant
                i <= CHUNK_VOLUME,
                self.wf(),
                levels@.len() == CHUNK_VOLUME,
                forall|j: int| 0 <= j < CHUNK_VOLUME ==> levels@[j] <= MAX_LIGHT,
                forall|j: int| 0 <= j < i ==> self.data@[j] >> 4 == levels@[j],
                forall|j: int|
                    0 <= j < CHUNK_VOLUME ==> self.data@[j] & 0x0F == old(self).data@[j] & 0x0F,
            decreases CHUNK_VOLUME - i,
        {
            let byte = self.data[i];
            let level = levels[i];
            proof {
                lemma_nibbles(byte, level);
            }
            self.data[i] = (level << 4) | (byte & 0x0F);
            i += 1;
        }
        proof {
            assert(self.sky() =~= levels@);
            assert(self.block() =~= old(self).block());
        }
    }

    /// A copy with the same levels in both channels.
    pub fn duplicate(&self) -> (copy: LightDataInner)
        requires
            self.wf(),
        ensures
            copy.wf(),
            copy.bytes() == self.bytes(),
            copy.sky() == self.sky(),
            copy.block() == self.block(),
    {
        let copy = LightDataInner { data: self.data.clone() };
        proof {
            assert(copy.data@ =~= self.data@);
        }
        copy
    }
}

impl Clone for LightDataInner {
    fn clone(&self) -> (copy: Self)
        ensures
            copy.bytes() == self.bytes(),
            copy.sky() == self.sky(),
            copy.block() == self.block(),
            self.wf() ==> copy.wf(),
    {
        let copy = LightDataInner { data: self.data.clone() };
        proof {
            assert(copy.data@ =~= self.data@);
        }
        copy
    }
}

impl Default for LightDataInner {
    fn default() -> (light: Self)
        ensures
            light.wf(),
            light.sky() == Seq::new(CHUNK_VOLUME as nat, |i: int| 0u8),
            light.block() == Seq::new(CHUNK_VOLUME as nat, |i: int| 0u8),
    {
        LightDataInner::new()
    }
}

/// Why a chunk could not take an edit.
#[derive(Debug, Clone, Copy, PartialEq, Eq, Structural)]
pub enum ChunkDataError {
    /// The block is not in the palette yet and the palette has no free entry.
    PaletteFull,
}

/// The distinct blocks of a run of cells, each at the place of its first
/// occurrence.
pub open spec fn distinct_blocks(cells: Seq<Option<Block>>) -> Seq<Block>
    decreases cells.len(),
{
    if cells.len() == 0 {
        Seq::empty()
    } else {
        let rest = distinct_blocks(cells.drop_last());
        match cells.last() {
            Some(block) => if rest.contains(block) {
                rest
            } else {
                rest.push(block)
            },
            None => rest,
        }
    }
}

/// A run of cells has no more distinct blocks than cells, none of them
/// twice, and exactly those that occur in it.
pub proof fn lemma_distinct_blocks(cells: Seq<Option<Block>>)
    ensures
        distinct_blocks(cells).len() <= cells.len(),
        distinct_blocks(cells).no_duplicates(),
        forall|b: Block| #[trigger]
            distinct_blocks(cells).contains(b) <==> cells.contains(Some(b)),
    decreases cells.len(),
{
    if cells.len() > 0 {
        let front = cells.drop_last();
        lemma_distinct_blocks(front);
        let rest = distinct_blocks(front);
        assert forall|b: Block| #[trigger]
            distinct_blocks(cells).contains(b) <==> cells.contains(Some(b)) by {
            if cells.contains(Some(b)) {
                let i = choose|i: int| 0 <= i < cells.len() && cells[i] == Some(b);
                if i < cells.len() - 1 {
                    assert(front[i] == Some(b));
                    assert(rest.contains(b));
                }
                if cells.last() == Some(b) && !rest.contains(b) {
                    assert(rest.push(b)[rest.len() as int] == b);
                }
                if rest.contains(b) && cells.last() is Some && !rest.contains(cells.last()->0) {
                    let j = choose|j: int| 0 <= j < rest.len() && rest[j] == b;
                    assert(rest.push(cells.last()->0)[j] == b);
                }
            }
            if distinct_blocks(cells).contains(b) {
                let j = choose|j: int|
                    0 <= j < distinct_blocks(cells).len() && distinct_blocks(cells)[j] == b;
                if j < rest.len() {
                    assert(rest[j] == b);
                    assert(rest.contains(b));
                    let i = choose|i: int| 0 <= i < front.len() && front[i] == Some(b);
                    assert(cells[i] == Some(b));
                } else {
                    assert(cells[cells.len() - 1] == Some(b));
                }
            }
        }
    }
}

/// Block content of one chunk: for every cell either no block or a block.
/// The distinct blocks are kept once, in a palette, and each cell holds the
/// place of its block there.
#[derive(Debug)]
pub struct ChunkDataInner {
    blocks: Vec<u16>,
    palette: IndexSet<(u16, u64)>,
}

impl ChunkDataInner {
    /// The palette: the blocks that cells can refer to, in the order in
    /// which they were first used. Entries are never removed.
    pub closed spec fn palette(&self) -> Seq<Block> {
        blocks_of_keys(block_set_items(self.palette))
    }

    /// The content of every cell, in flattened cell order.
    pub closed spec fn cells(&self) -> Seq<Option<Block>> {
        Seq::new(
            self.blocks@.len(),
            |i: int|
                if self.blocks@[i] == AIR_INDEX {
                    None
                } else {
                    Some(Block::of_key(block_set_items(self.palette)[self.blocks@[i] as int]))
                },
        )
    }

    /// Every cell has an entry, every entry that is not air refers to the
    /// palette, and the palette holds no block twice.
    pub closed spec fn wf(&self) -> bool {
        &&& self.blocks@.len() == CHUNK_VOLUME
        &&& block_set_items(self.palette).len() <= PALETTE_CAPACITY
        &&& block_set_items(self.palette).no_duplicates()
        &&& forall|i: int|
            0 <= i < CHUNK_VOLUME && self.blocks@[i] != AIR_INDEX ==> (#[trigger] self.blocks@[i])
                < block_set_items(self.palette).len()
    }

    /// What well-formedness means for the cells and the palette.
    pub proof fn lemma_wf(&self)
        requires
            self.wf(),
        ensures
            self.cells().len() == CHUNK_VOLUME,
            self.palette().len() <= PALETTE_CAPACITY,
            self.palette().no_duplicates(),
            forall|i: int|
                0 <= i < CHUNK_VOLUME && (#[trigger] self.cells()[i]) is Some
                    ==> self.palette().contains(self.cells()[i]->0),
    {
        let items = block_set_items(self.palette);
        assert forall|i: int, j: int|
            0 <= i < self.palette().len() && 0 <= j < self.palette().len() && i != j implies self.palette()[i]
            != self.palette()[j] by {
            assert(items[i] != items[j]);
        }
        assert forall|i: int|
            0 <= i < CHUNK_VOLUME && (#[trigger] self.cells()[i]) is Some implies self.palette().contains(
            self.cells()[i]->0,
        ) by {
            let k = self.blocks@[i] as int;
            assert(self.palette()[k] == self.cells()[i]->0);
        }
    }

    proof fn lemma_palette_contains(items: Seq<(u16, u64)>, block: Block)
        ensures
            blocks_of_keys(items).contains(block) <==> items.contains(block.key()),
    {
        if items.contains(block.key()) {
            let i = choose|i: int| 0 <= i < items.len() && items[i] == block.key();
            assert(blocks_of_keys(items)[i] == block);
        }
        if blocks_of_keys(items).contains(block) {
            let i = choose|i: int|
                0 <= i < blocks_of_keys(items).len() && blocks_of_keys(items)[i] == block;
            assert(items[i] == block.key());
        }
    }

    /// A chunk of air with an empty palette.
    pub fn new() -> (chunk: ChunkDataInner)
        ensures
            chunk.wf(),
            chunk.cells() == Seq::new(CHUNK_VOLUME as nat, |i: int| None::<Block>),
            chunk.palette() == Seq::<Block>::empty(),
    {
        let chunk = ChunkDataInner { blocks: vec![AIR_INDEX; CHUNK_VOLUME], palette: block_set_new() };
        proof {
            assert(chunk.cells() =~= Seq::new(CHUNK_VOLUME as nat, |i: int| None::<Block>));
            assert(chunk.palette() =~= Seq::<Block>::empty());
        }
        chunk
    }

    /// The chunk with the given cells, listed in flattened cell order. Its
    /// palette holds each distinct block at the place of its first occurrence.
    pub fn from_data(data: Vec<Option<Block>>) -> (chunk: ChunkDataInner)
        requires
            data@.len() == CHUNK_VOLUME,
        ensures
            chunk.wf(),
            chunk.cells() == data@,
            chunk.palette() == distinct_blocks(data@),
    {
        let mut blocks = vec![0u16; CHUNK_VOLUME];
        let mut palette = block_set_new();
        let mut i: usize = 0;
        proof {
            assert(data@.take(0) =~= Seq::<Option<Block>>::empty());
            assert(blocks_of_keys(block_set_items(palette)) =~= distinct_blocks(data@.take(0)));
        }
        while i < CHUNK_VOLUME
            invariant
                i <= CHUNK_VOLUME,
                data@.len() == CHUNK_VOLUME,
                blocks@.len() == CHUNK_VOLUME,
                block_set_items(palette).len() <= i,
                block_set_items(palette).no_duplicates(),
                blocks_of_keys(block_set_items(palette)) == distinct_blocks(data@.take(i as int)),
                forall|j: int|
                    0 <= j < i ==> (match data@[j] {
                        Some(b) => (#[trigger] blocks@[j]) < block_set_items(palette).len()
                            && block_set_items(palette)[blocks@[j] as int] == b.key(),
                        None => blocks@[j] == AIR_INDEX,
                    }),
            decreases CHUNK_VOLUME - i,
        {
            let ghost before = block_set_items(palette);
            proof {
                assert(data@.take(i as int + 1).drop_last() =~= data@.take(i as int));
                assert(data@.take(i as int + 1).last() == data@[i as int]);
            }
            match data[i] {
                Some(block) => {
                    let key = block.to_key();
                    proof {
                        Self::lemma_palette_contains(before, block);
                    }
                    let added = block_set_insert(&mut palette, key);
                    proof {
                        let after = block_set_items(palette);
                        if added {
                            assert(after[before.len() as int] == key);
                            assert(blocks_of_keys(after) =~= blocks_of_keys(before).push(block));
                            assert forall|a: int, b: int|
                                0 <= a < after.len() && 0 <= b < after.len() && a != b implies after[a]
                                != after[b] by {
                                if a == before.len() {
                                    assert(before[b] == after[b]);
                                } else if b == before.len() {
                                    assert(before[a] == after[a]);
                                } else {
                                    assert(before[a] == after[a]);
                                    assert(before[b] == after[b]);
                                }
                            }
                        }
                        assert(after.contains(key));
                    }
                    let index = match block_set_get_index_of(&palette, key) {
                        Some(index) => index,
                        None => 0,
                    };
                    blocks.set(i, index as u16);
                },
                None => {
                    blocks.set(i, AIR_INDEX);
                },
            }
            i += 1;
        }
        let chunk = ChunkDataInner { blocks, palette };
        proof {
            assert(data@.take(CHUNK_VOLUME as int) =~= data@);
            assert(chunk.cells() =~= data@);
        }
        chunk
    }

    pub fn get_block(&self, local_pos: USizeVec3) -> (block: Option<Block>)
        requires
            self.wf(),
            local_pos.in_chunk(),
        ensures
            block == self.cells()[cell_index(
                local_pos.x as int,
                local_pos.y as int,
                local_pos.z as int,
            )],
    {
        let index = self.blocks[local_index(local_pos)];
        if index == AIR_INDEX {
            None
        } else {
            match block_set_get_index(&self.palette, index as usize) {
                Some(key) => Some(Block::from_key(key)),
                None => None,
            }
        }
    }

    /// Whether the chunk can take `block` into a cell: air and blocks of the
    /// palette always, a new block while the palette has a free entry.
    pub fn accepts(&self, block: Option<Block>) -> (accepted: bool)
        requires
            self.wf(),
        ensures
            accepted == (block matches Some(b) ==> self.palette().contains(b)
                || self.palette().len() < PALETTE_CAPACITY),
    {
        match block {
            Some(b) => {
                proof {
                    Self::lemma_palette_contains(block_set_items(self.palette), b);
                }
                match block_set_get_index_of(&self.palette, b.to_key()) {
                    Some(_) => true,
                    None => block_set_len(&self.palette) < PALETTE_CAPACITY,
                }
            },
            None => true,
        }
    }

    /// Puts `block` into a cell. A block that the palette already holds
    /// reuses its entry; any other is added behind the last entry. The edit
    /// is refused, and nothing changes, only where a new entry is needed and
    /// the palette is full.
    pub fn set_block(&mut self, local_pos: USizeVec3, block: Option<Block>) -> (result: Result<
        (),
        ChunkDataError,
    >)
        requires
            old(self).wf(),
            local_pos.in_chunk(),
        ensures
            final(self).wf(),
            result is Ok <==> (block matches Some(b) ==> old(self).palette().contains(b) || old(
                self,
            ).palette().len() < PALETTE_CAPACITY),
            result is Ok ==> final(self).cells() == old(self).cells().update(
                cell_index(local_pos.x as int, local_pos.y as int, local_pos.z as int),
                block,
            ),
            result is Ok ==> final(self).palette() == (match block {
                Some(b) => if old(self).palette().contains(b) {
                    old(self).palette()
                } else {
                    old(self).palette().push(b)
                },
                None => old(self).palette(),
            }),
            result is Err ==> final(self).cells() == old(self).cells() && final(self).palette() == old(
                self,
            ).palette(),
    {
        let index = local_index(local_pos);
        let ghost before = block_set_items(self.palette);
        match block {
            Some(b) => {
                let key = b.to_key();
                proof {
                    Self::lemma_palette_contains(before, b);
                }
                let entry = match block_set_get_index_of(&self.palette, key) {
                    Some(entry) => entry,
                    None => {
                        let len = block_set_len(&self.palette);
                        if len >= PALETTE_CAPACITY {
                            return Err(ChunkDataError::PaletteFull);
                        }
                        block_set_insert(&mut self.palette, key);
                        proof {
                            let after = block_set_items(self.palette);
                            assert(after[before.len() as int] == key);
                            assert(blocks_of_keys(after) =~= blocks_of_keys(before).push(b));
                            assert forall|x: int, y: int|
                                0 <= x < after.len() && 0 <= y < after.len() && x != y implies after[x]
                                != after[y] by {
                                if x == before.len() {
                                    assert(before[y] == after[y]);
                                } else if y == before.len() {
                                    assert(before[x] == after[x]);
                                } else {
                                    assert(before[x] == after[x]);
                                    assert(before[y] == after[y]);
                                }
                            }
                            assert forall|i: int|
                                0 <= i < CHUNK_VOLUME && self.blocks@[i] != AIR_INDEX implies (
                            #[trigger] self.blocks@[i]) < after.len() by {}
                        }
                        len
                    },
                };
                self.blocks.set(index, entry as u16);
                proof {
                    let after = block_set_items(self.palette);
                    assert forall|i: int| 0 <= i < CHUNK_VOLUME implies self.cells()[i] == old(
                        self,
                    ).cells().update(index as int, block)[i] by {
                        if i != index && old(self).blocks@[i] != AIR_INDEX {
                            assert(after[old(self).blocks@[i] as int] == before[old(
                                self,
                            ).blocks@[i] as int]);
                        }
                    }
                    assert(self.cells() =~= old(self).cells().update(index as int, block));
                }
                Ok(())
            },
            None => {
                self.blocks.set(index, AIR_INDEX);
                proof {
                    assert(self.cells() =~= old(self).cells().update(index as int, block));
                }
                Ok(())
            },
        }
    }

    /// The content of every cell, in flattened cell order.
    pub fn clone_data(&self) -> (data: Vec<Option<Block>>)
        requires
            self.wf(),
        ensures
            data@ == self.cells(),
    {
        let mut data: Vec<Option<Block>> = Vec::with_capacity(CHUNK_VOLUME);
        let mut i: usize = 0;
        while i < CHUNK_VOLUME
            invariant
                i <= CHUNK_VOLUME,
                self.wf(),
                data@.len() == i,
                forall|j: int| 0 <= j < i ==> data@[j] == self.cells()[j],
            decreases CHUNK_VOLUME - i,
        {
            let index = self.blocks[i];
            let cell = if index == AIR_INDEX {
                None
            } else {
                match block_set_get_index(&self.palette, index as usize) {
                    Some(key) => Some(Block::from_key(key)),
                    None => None,
                }
            };
            data.push(cell);
            i += 1;
        }
        proof {
            assert(data@ =~= self.cells());
        }
        data
    }

    /// Number of entries in the palette.
    pub fn palette_len(&self) -> (len: usize)
        ensures
            len == self.palette().len(),
    {
        block_set_len(&self.palette)
    }

    /// The palette entry at place `index`.
    pub fn palette_entry(&self, index: usize) -> (entry: Option<Block>)
        ensures
            entry == if index < self.palette().len() {
                Some(self.palette()[index as int])
            } else {
                None
            },
    {
        match block_set_get_index(&self.palette, index) {
            Some(key) => Some(Block::from_key(key)),
            None => None,
        }
    }

    /// A copy with the same cells and the same palette.
    pub fn duplicate(&self) -> (copy: ChunkDataInner)
        requires
            self.wf(),
        ensures
            copy.wf(),
            copy.cells() == self.cells(),
            copy.palette() == self.palette(),
    {
        let copy = ChunkDataInner {
            blocks: self.blocks.clone(),
            palette: block_set_clone(&self.palette),
        };
        proof {
            assert(copy.blocks@ =~= self.blocks@);
            assert(copy.cells() =~= self.cells());
        }
        copy
    }
}

impl Clone for ChunkDataInner {
    fn clone(&self) -> (copy: Self)
        ensures
            copy.cells() == self.cells(),
            copy.palette() == self.palette(),
            self.wf() ==> copy.wf(),
    {
        let copy = ChunkDataInner {
            blocks: self.blocks.clone(),
            palette: block_set_clone(&self.palette),
        };
        proof {
            assert(copy.blocks@ =~= self.blocks@);
            assert(copy.cells() =~= self.cells());
        }
        copy
    }
}

impl Default for ChunkDataInner {
    fn default() -> (chunk: Self)
        ensures
            chunk.wf(),
            chunk.cells() == Seq::new(CHUNK_VOLUME as nat, |i: int| None::<Block>),
            chunk.palette() == Seq::<Block>::empty(),
    {
        ChunkDataInner::new()
    }
}

} // verus!
