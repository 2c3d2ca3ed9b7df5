use std::collections::HashMap;
use std::sync::Arc;
use vstd::prelude::*;

use crate::block::Block;
use crate::chunk_data::{distinct_blocks, lemma_distinct_blocks, ChunkData, ChunkDataInner};
use crate::coords::{region_pos_of, spec_region_pos, IVec3, CHUNK_VOLUME};
use crate::pos_map::{PosMap, PosSet};

verus! {

/// Why a stored chunk cannot be read back.
#[derive(Debug, Clone, Copy, PartialEq, Eq, Structural)]
pub enum RegionError {
    /// The run data does not consist of whole `(length, index)` pairs.
    OddLength,
    /// A run refers to a palette entry that the stored palette lacks.
    UnknownPaletteIndex,
    /// The run lengths do not add up to the number of cells of a chunk.
    WrongCellCount,
}

/// The cell that a stored palette index stands for: 0 is air, and `i + 1`
/// is entry `i` of the palette.
pub open spec fn cell_of(palette: Seq<Block>, index: u16) -> Option<Block> {
    if index == 0 {
        None
    } else {
        Some(palette[index as int - 1])
    }
}

/// The cells that run data stands for: each `(length, index)` pair gives
/// `length` copies of the cell of `index`, one pair after the other.
pub open spec fn expand(palette: Seq<Block>, rle: Seq<u16>) -> Seq<Option<Block>>
    decreases rle.len(),
{
    if rle.len() < 2 {
        Seq::empty()
    } else {
        expand(palette, rle.take(rle.len() - 2)) + Seq::new(
            rle[rle.len() - 2] as nat,
            |k: int| cell_of(palette, rle[rle.len() - 1]),
        )
    }
}

/// Every run of the run data refers to air or to an entry of a palette of
/// `palette_len` entries.
pub open spec fn indices_known(palette_len: nat, rle: Seq<u16>) -> bool {
    forall|k: int| 0 <= k < rle.len() && k % 2 == 1 ==> #[trigger] rle[k] <= palette_len
}

/// Run data as compression writes it: no run is empty, and no two runs in
/// a row stand for the same cell.
pub open spec fn runs_maximal(rle: Seq<u16>) -> bool {
    &&& forall|k: int| 0 <= k < rle.len() && k % 2 == 0 ==> #[trigger] rle[k] >= 1
    &&& forall|k: int| 1 <= k < rle.len() - 2 && k % 2 == 1 ==> #[trigger] rle[k] != rle[k + 2]
}

/// One more pair at the end of the run data adds its run at the end of the
/// cells.
pub proof fn lemma_expand_push(palette: Seq<Block>, rle: Seq<u16>, length: u16, index: u16)
    requires
        rle.len() % 2 == 0,
    ensures
        expand(palette, rle.push(length).push(index)) == expand(palette, rle) + Seq::new(
            length as nat,
            |k: int| cell_of(palette, index),
        ),
{
    let longer = rle.push(length).push(index);
    assert(longer.take(longer.len() - 2) =~= rle);
}

/// Entries added behind a palette do not change what run data stands for.
pub proof fn lemma_expand_grown(palette: Seq<Block>, block: Block, rle: Seq<u16>)
    requires
        rle.len() % 2 == 0,
        indices_known(palette.len(), rle),
    ensures
        expand(palette.push(block), rle) == expand(palette, rle),
    decreases rle.len(),
{
    if rle.len() >= 2 {
        let front = rle.take(rle.len() - 2);
        assert forall|k: int| 0 <= k < front.len() && k % 2 == 1 implies #[trigger] front[k]
            <= palette.len() by {
            assert(front[k] == rle[k]);
        }
        lemma_expand_grown(palette, block, front);
        let index = rle[rle.len() - 1];
        assert(index <= palette.len());
        assert(cell_of(palette.push(block), index) == cell_of(palette, index));
        assert(Seq::new(rle[rle.len() - 2] as nat, |k: int| cell_of(palette.push(block), index))
            =~= Seq::new(rle[rle.len() - 2] as nat, |k: int| cell_of(palette, index)));
    }
}

/// The first pairs of run data stand for the first cells of the whole.
pub proof fn lemma_expand_prefix(palette: Seq<Block>, rle: Seq<u16>, pairs: int)
    requires
        rle.len() % 2 == 0,
        0 <= 2 * pairs <= rle.len(),
    ensures
        expand(palette, rle.take(2 * pairs)).len() <= expand(palette, rle).len(),
        expand(palette, rle.take(2 * pairs)) == expand(palette, rle).take(
            expand(palette, rle.take(2 * pairs)).len() as int,
        ),
    decreases rle.len(),
{
    if 2 * pairs == rle.len() {
        assert(rle.take(2 * pairs) =~= rle);
        assert(expand(palette, rle).take(expand(palette, rle).len() as int) =~= expand(palette, rle));
    } else {
        let front = rle.take(rle.len() - 2);
        lemma_expand_prefix(palette, front, pairs);
        assert(front.take(2 * pairs) =~= rle.take(2 * pairs));
        let short = expand(palette, rle.take(2 * pairs));
        assert(short =~= expand(palette, rle).take(short.len() as int));
    }
}

/// A chunk as it is stored: the palette of its distinct blocks, and its
/// cells in flattened order as runs of equal cells.
#[derive(Debug)]
pub struct CompressedChunk {
    pub palette: Vec<Block>,
    pub rle_data: Vec<u16>,
}

/// Most blocks that a palette builder can number: each needs a 16-bit
/// number of its own above 0.
pub const PALETTE_LIMIT: usize = 0xffff;

/// Collects the distinct blocks of a chunk and numbers them from 1 in the
/// order in which they are first asked for.
pub struct PaletteBuilder {
    palette: Vec<Block>,
    palette_map: HashMap<u128, u16>,
}

/// A block as one integer, the form in which the palette builder looks it
/// up.
pub open spec fn block_number(block: Block) -> u128 {
    (block.id.0 as int * 0x1_0000_0000_0000_0000 + block.data.0 as int) as u128
}

fn block_to_number(block: Block) -> (number: u128)
    ensures
        number == block_number(block),
{
    (block.id.0 as u128) * 0x1_0000_0000_0000_0000u128 + (block.data.0 as u128)
}

proof fn lemma_block_number_injective(a: Block, b: Block)
    ensures
        block_number(a) == block_number(b) ==> a == b,
{
}

impl PaletteBuilder {
    pub closed spec fn palette(&self) -> Seq<Block> {
        self.palette@
    }

    /// The lookup table knows exactly the blocks of the palette, each under
    /// its number, and the numbers fit the stored form.
    pub closed spec fn wf(&self) -> bool {
        &&& self.palette@.len() <= PALETTE_LIMIT
        &&& self.palette@.no_duplicates()
        &&& forall|i: int|
            0 <= i < self.palette@.len() ==> self.palette_map@.contains_key(
                #[trigger] block_number(self.palette@[i]),
            ) && self.palette_map@[block_number(self.palette@[i])] == i + 1
        &&& forall|n: u128| #[trigger]
            self.palette_map@.contains_key(n) ==> 1 <= self.palette_map@[n] <= self.palette@.len()
                && block_number(self.palette@[self.palette_map@[n] - 1]) == n
    }

    pub fn new() -> (builder: PaletteBuilder)
        ensures
            builder.wf(),
            builder.palette() == Seq::<Block>::empty(),
    {
        PaletteBuilder { palette: Vec::new(), palette_map: HashMap::new() }
    }

    /// The stored index of a cell: 0 for air, else the block's number in the
    /// palette, to which a block not seen before is added.
    pub fn get_index(&mut self, block: Option<Block>) -> (index: u16)
        requires
            old(self).wf(),
            old(self).palette().len() < PALETTE_LIMIT,
        ensures
            final(self).wf(),
            final(self).palette() == (match block {
                Some(b) => if old(self).palette().contains(b) {
                    old(self).palette()
                } else {
                    old(self).palette().push(b)
                },
                None => old(self).palette(),
            }),
            index <= final(self).palette().len(),
            cell_of(final(self).palette(), index) == block,
    {
        broadcast use vstd::std_specs::hash::group_hash_axioms;

        match block {
            Some(b) => {
                let number = block_to_number(b);
                let known = match self.palette_map.get(&number) {
                    Some(index) => Some(*index),
                    None => None,
                };
                match known {
                    Some(index) => {
                        proof {
                            lemma_block_number_injective(self.palette@[index as int - 1], b);
                        }
                        index
                    },
                    None => {
                        proof {
                            if self.palette@.contains(b) {
                                let i = choose|i: int|
                                    0 <= i < self.palette@.len() && self.palette@[i] == b;
                                assert(self.palette_map@.contains_key(
                                    block_number(self.palette@[i]),
                                ));
                            }
                        }
                        self.palette.push(b);
                        let index = self.palette.len() as u16;
                        self.palette_map.insert(number, index);
                        proof {
                            let before = old(self).palette@;
                            crate::pos_map::lemma_push_fresh(before, b);
                            assert forall|i: int| 0 <= i < self.palette@.len() implies self.palette_map@.contains_key(
                                #[trigger] block_number(self.palette@[i]),
                            ) && self.palette_map@[block_number(self.palette@[i])] == i + 1 by {
                                if i < before.len() {
                                    assert(self.palette@[i] == before[i]);
                                    lemma_block_number_injective(before[i], b);
                                    assert(before.contains(before[i]));
                                }
                            }
                            assert forall|n: u128| #[trigger]
                                self.palette_map@.contains_key(n) implies 1 <= self.palette_map@[n]
                                <= self.palette@.len() && block_number(
                                self.palette@[self.palette_map@[n] - 1],
                            ) == n by {
                                if n != number {
                                    assert(old(self).palette_map@.contains_key(n));
                                    assert(self.palette@[old(self).palette_map@[n] - 1] == before[old(
                                        self,
                                    ).palette_map@[n] - 1]);
                                }
                            }
                        }
                        index
                    },
                }
            },
            None => 0,
        }
    }
}

fn same_cell(a: &Option<Block>, b: &Option<Block>) -> (same: bool)
    ensures
        same == (*a == *b),
{
    match (a, b) {
        (Some(x), Some(y)) => x.id.0 == y.id.0 && x.data.0 == y.data.0,
        (None, None) => true,
        _ => false,
    }
}

impl CompressedChunk {
    /// The run data consists of whole pairs that refer to the palette.
    pub open spec fn well_formed(&self) -> bool {
        &&& self.rle_data@.len() % 2 == 0
        &&& indices_known(self.palette@.len(), self.rle_data@)
    }

    /// The cells that the stored chunk stands for.
    pub open spec fn cells(&self) -> Seq<Option<Block>> {
        expand(self.palette@, self.rle_data@)
    }

    /// What is wrong with the stored chunk, if anything: the first of the
    /// three defects that applies.
    pub open spec fn defect(&self) -> Option<RegionError> {
        if self.rle_data@.len() % 2 != 0 {
            Some(RegionError::OddLength)
        } else if !indices_known(self.palette@.len(), self.rle_data@) {
            Some(RegionError::UnknownPaletteIndex)
        } else if self.cells().len() != CHUNK_VOLUME {
            Some(RegionError::WrongCellCount)
        } else {
            None
        }
    }

    /// The stored chunk is what compression makes of `cells`: the palette
    /// lists the distinct blocks in the order of their first occurrence, and
    /// the run data gives the cells back in as few runs as possible.
    pub open spec fn is_compression_of(&self, cells: Seq<Option<Block>>) -> bool {
        &&& self.palette@ == distinct_blocks(cells)
        &&& self.well_formed()
        &&& runs_maximal(self.rle_data@)
        &&& self.cells() == cells
    }

    /// Compresses a chunk: walks its cells in flattened order, joins equal
    /// cells that follow each other into runs, and numbers the distinct
    /// blocks from 1 in the order in which their first runs come.
    pub fn compress(data: &ChunkData) -> (compressed: CompressedChunk)
        requires
            data.wf(),
        ensures
            compressed.is_compression_of(data.cells()),
    {
        let cells = data.clone_data();
        proof {
            data.lemma_wf();
        }
        let mut builder = PaletteBuilder::new();
        let mut rle_data: Vec<u16> = Vec::new();
        let mut i: usize = 0;
        proof {
            assert(cells@.take(0) =~= Seq::<Option<Block>>::empty());
        }
        while i < CHUNK_VOLUME
            invariant
                i <= CHUNK_VOLUME,
                cells@.len() == CHUNK_VOLUME,
                builder.wf(),
                builder.palette() == distinct_blocks(cells@.take(i as int)),
                rle_data@.len() % 2 == 0,
                indices_known(builder.palette().len(), rle_data@),
                runs_maximal(rle_data@),
                expand(builder.palette(), rle_data@) == cells@.take(i as int),
                i > 0 ==> rle_data@.len() >= 2 && cell_of(builder.palette(), rle_data@.last())
                    == cells@[i - 1],
                0 < i < CHUNK_VOLUME ==> cells@[i as int] != cells@[i - 1],
            decreases CHUNK_VOLUME - i,
        {
            let cell = cells[i];
            let ghost palette_before = builder.palette();
            proof {
                lemma_distinct_blocks(cells@.take(i as int));
                assert(cells@.take(i as int + 1).drop_last() =~= cells@.take(i as int));
            }
            let index = builder.get_index(cell);
            proof {
                if builder.palette() != palette_before {
                    lemma_expand_grown(palette_before, cell->0, rle_data@);
                    if i > 0 {
                        assert(cell_of(builder.palette(), rle_data@.last()) == cell_of(
                            palette_before,
                            rle_data@.last(),
                        ));
                    }
                }
            }
            let mut j: usize = i + 1;
            while j < CHUNK_VOLUME && same_cell(&cells[j], &cell)
                invariant
                    i < j <= CHUNK_VOLUME,
                    cells@.len() == CHUNK_VOLUME,
                    cell == cells@[i as int],
                    builder.palette() == distinct_blocks(cells@.take(j as int)),
                    forall|k: int| i <= k < j ==> cells@[k] == cell,
                    cell matches Some(b) ==> builder.palette().contains(b),
                decreases CHUNK_VOLUME - j,
            {
                proof {
                    assert(cells@.take(j as int + 1).drop_last() =~= cells@.take(j as int));
                }
                j += 1;
            }
            let length = (j - i) as u16;
            proof {
                lemma_expand_push(builder.palette(), rle_data@, length, index);
                let run = Seq::new(length as nat, |k: int| cell_of(builder.palette(), index));
                assert(cells@.take(i as int) + run =~= cells@.take(j as int));
                let longer = rle_data@.push(length).push(index);
                assert forall|k: int| 0 <= k < longer.len() && k % 2 == 1 implies #[trigger] longer[k]
                    <= builder.palette().len() by {
                    if k < rle_data@.len() {
                        assert(longer[k] == rle_data@[k]);
                    }
                }
                assert forall|k: int| 0 <= k < longer.len() && k % 2 == 0 implies #[trigger] longer[k]
                    >= 1 by {
                    if k < rle_data@.len() {
                        assert(longer[k] == rle_data@[k]);
                    }
                }
                assert forall|k: int| 1 <= k < longer.len() - 2 && k % 2 == 1 implies #[trigger] longer[k]
                    != longer[k + 2] by {
                    if k + 2 < rle_data@.len() {
                        assert(longer[k] == rle_data@[k]);
                        assert(longer[k + 2] == rle_data@[k + 2]);
                    } else {
                        assert(longer[k] == rle_data@.last());
                        assert(longer[k + 2] == index);
                    }
                }
            }
            rle_data.push(length);
            rle_data.push(index);
            i = j;
        }
        proof {
            assert(cells@.take(CHUNK_VOLUME as int) =~= cells@);
        }
        let PaletteBuilder { palette, palette_map: _ } = builder;
        CompressedChunk { palette, rle_data }
    }

    /// The cell that a stored palette index stands for.
    pub fn get_block(&self, palette_index: u16) -> (block: Option<Block>)
        requires
            palette_index <= self.palette@.len(),
        ensures
            block == cell_of(self.palette@, palette_index),
    {
        if palette_index == 0 {
            return None;
        }
        Some(self.palette[palette_index as usize - 1])
    }

    /// Reads the chunk back. A stored chunk with a defect is refused; any
    /// other gives the chunk whose cells are the runs written out.
    pub fn decompress(&self) -> (result: Result<ChunkData, RegionError>)
        ensures
            match result {
                Ok(chunk) => self.defect() is None && chunk.wf() && chunk.cells() == self.cells(),
                Err(error) => self.defect() == Some(error),
            },
    {
        let n = self.rle_data.len();
        if n % 2 != 0 {
            return Err(RegionError::OddLength);
        }
        let mut k: usize = 0;
        while k < n
            invariant
                n == self.rle_data@.len(),
                n % 2 == 0,
                k % 2 == 0,
                k <= n,
                forall|m: int| 0 <= m < k && m % 2 == 1 ==> #[trigger] self.rle_data@[m]
                    <= self.palette@.len(),
            decreases n - k,
        {
            if self.rle_data[k + 1] as usize > self.palette.len() {
                return Err(RegionError::UnknownPaletteIndex);
            }
            k += 2;
        }
        let mut data: Vec<Option<Block>> = Vec::new();
        let mut i: usize = 0;
        proof {
            assert(self.rle_data@.take(0) =~= Seq::<u16>::empty());
        }
        while i < n
            invariant
                n == self.rle_data@.len(),
                n % 2 == 0,
                i % 2 == 0,
                i <= n,
                indices_known(self.palette@.len(), self.rle_data@),
                data@ == expand(self.palette@, self.rle_data@.take(i as int)),
                data@.len() <= CHUNK_VOLUME,
            decreases n - i,
        {
            let count = self.rle_data[i] as usize;
            let palette_index = self.rle_data[i + 1];
            let block = self.get_block(palette_index);
            proof {
                let next = self.rle_data@.take(i as int + 2);
                assert(next.take(next.len() - 2) =~= self.rle_data@.take(i as int));
                lemma_expand_prefix(self.palette@, self.rle_data@, (i as int + 2) / 2);
            }
            if data.len() + count > CHUNK_VOLUME {
                return Err(RegionError::WrongCellCount);
            }
            let ghost before = data@;
            let mut c: usize = 0;
            while c < count
                invariant
                    c <= count,
                    data@ == before + Seq::new(c as nat, |k: int| block),
                    before.len() + count <= CHUNK_VOLUME,
                decreases count - c,
            {
                data.push(block);
                proof {
                    assert(data@ =~= before + Seq::new((c + 1) as nat, |k: int| block));
                }
                c += 1;
            }
            i += 2;
        }
        proof {
            assert(self.rle_data@.take(n as int) =~= self.rle_data@);
        }
        if data.len() != CHUNK_VOLUME {
            return Err(RegionError::WrongCellCount);
        }
        Ok(Arc::new(ChunkDataInner::from_data(data)))
    }

    /// A copy with the same palette and the same run data.
    pub fn duplicate(&self) -> (copy: CompressedChunk)
        ensures
            copy.palette@ == self.palette@,
            copy.rle_data@ == self.rle_data@,
    {
        let mut palette: Vec<Block> = Vec::new();
        let mut i: usize = 0;
        while i < self.palette.len()
            invariant
                i <= self.palette@.len(),
                palette@ == self.palette@.take(i as int),
            decreases self.palette@.len() - i,
        {
            palette.push(self.palette[i]);
            proof {
                assert(palette@ =~= self.palette@.take(i as int + 1));
            }
            i += 1;
        }
        proof {
            assert(self.palette@.take(self.palette@.len() as int) =~= self.palette@);
        }
        let rle_data = self.rle_data.clone();
        proof {
            assert(rle_data@ =~= self.rle_data@);
        }
        CompressedChunk { palette, rle_data }
    }
}

/// Compressing a chunk and reading the result back gives the same cells:
/// what compression returns has no defect and stands for the cells it was
/// made from.
pub proof fn lemma_round_trip(cells: Seq<Option<Block>>, compressed: CompressedChunk)
    requires
        cells.len() == CHUNK_VOLUME,
        compressed.is_compression_of(cells),
    ensures
        compressed.defect() is None,
        compressed.cells() == cells,
{
}

/// Two palette indices that stand for the same cell are the same index.
proof fn lemma_cell_of_injective(palette: Seq<Block>, i: u16, j: u16)
    requires
        palette.no_duplicates(),
        i <= palette.len(),
        j <= palette.len(),
        cell_of(palette, i) == cell_of(palette, j),
    ensures
        i == j,
{
    if i != 0 && j != 0 {
        assert(palette[i as int - 1] == palette[j as int - 1]);
    }
}

/// Run data whose runs are not empty stands for cells that end with the
/// last run: its length is at most that of the cells, and the cells of the
/// last run are those of its index.
proof fn lemma_expand_last_run(palette: Seq<Block>, rle: Seq<u16>)
    requires
        rle.len() % 2 == 0,
        rle.len() >= 2,
    ensures
        expand(palette, rle).len() == expand(palette, rle.take(rle.len() - 2)).len()
            + rle[rle.len() - 2],
        forall|k: int|
            0 <= k < expand(palette, rle.take(rle.len() - 2)).len() ==> #[trigger] expand(
                palette,
                rle,
            )[k] == expand(palette, rle.take(rle.len() - 2))[k],
        forall|k: int|
            expand(palette, rle.take(rle.len() - 2)).len() <= k < expand(palette, rle).len()
                ==> #[trigger] expand(palette, rle)[k] == cell_of(palette, rle[rle.len() - 1]),
{
}

/// Run data with maximal runs is determined by the cells that it stands
/// for.
proof fn lemma_runs_unique(palette: Seq<Block>, a: Seq<u16>, b: Seq<u16>)
    requires
        palette.no_duplicates(),
        a.len() % 2 == 0,
        b.len() % 2 == 0,
        indices_known(palette.len(), a),
        indices_known(palette.len(), b),
        runs_maximal(a),
        runs_maximal(b),
        expand(palette, a) == expand(palette, b),
    ensures
        a == b,
    decreases a.len(),
{
    if a.len() == 0 {
        if b.len() > 0 {
            lemma_expand_last_run(palette, b);
            assert(b[b.len() - 2] >= 1);
        }
        assert(a =~= b);
    } else if b.len() == 0 {
        lemma_expand_last_run(palette, a);
        assert(a[a.len() - 2] >= 1);
    } else {
        let front_a = a.take(a.len() - 2);
        let front_b = b.take(b.len() - 2);
        let cells = expand(palette, a);
        let cells_a = expand(palette, front_a);
        let cells_b = expand(palette, front_b);
        let n_a = a[a.len() - 2];
        let n_b = b[b.len() - 2];
        let i_a = a[a.len() - 1];
        let i_b = b[b.len() - 1];
        lemma_expand_last_run(palette, a);
        lemma_expand_last_run(palette, b);
        assert(n_a >= 1 && n_b >= 1);
        assert(i_a <= palette.len() && i_b <= palette.len());
        // Both end with the same cell, so with the same index.
        assert(cells[cells.len() - 1] == cell_of(palette, i_a));
        assert(expand(palette, b)[cells.len() - 1] == cell_of(palette, i_b));
        lemma_cell_of_injective(palette, i_a, i_b);
        // The run before the last one ends with another cell, so the last
        // runs have the same length.
        if n_a < n_b {
            if front_a.len() >= 2 {
                lemma_expand_last_run(palette, front_a);
                assert(front_a[front_a.len() - 2] == a[a.len() - 4]);
                assert(front_a[front_a.len() - 1] == a[a.len() - 3]);
                assert(a[a.len() - 4] >= 1);
                assert(a[a.len() - 3] != a[a.len() - 3 + 2]);
                assert(a[a.len() - 3] <= palette.len());
                let k = cells_a.len() - 1;
                assert(cells[k] == cells_a[k]);
                assert(cells_a[k] == cell_of(palette, a[a.len() - 3]));
                assert(expand(palette, b)[k] == cell_of(palette, i_b));
                lemma_cell_of_injective(palette, a[a.len() - 3], i_b);
            } else {
                assert(front_a =~= Seq::<u16>::empty());
            }
        }
        if n_b < n_a {
            if front_b.len() >= 2 {
                lemma_expand_last_run(palette, front_b);
                assert(front_b[front_b.len() - 2] == b[b.len() - 4]);
                assert(front_b[front_b.len() - 1] == b[b.len() - 3]);
                assert(b[b.len() - 4] >= 1);
                assert(b[b.len() - 3] != b[b.len() - 3 + 2]);
                assert(b[b.len() - 3] <= palette.len());
                let k = cells_b.len() - 1;
                assert(expand(palette, b)[k] == cells_b[k]);
                assert(cells_b[k] == cell_of(palette, b[b.len() - 3]));
                assert(cells[k] == cell_of(palette, i_a));
                lemma_cell_of_injective(palette, b[b.len() - 3], i_a);
            } else {
                assert(front_b =~= Seq::<u16>::empty());
            }
        }
        assert(n_a == n_b);
        assert(cells_a =~= cells_b) by {
            assert forall|k: int| 0 <= k < cells_a.len() implies cells_a[k] == cells_b[k] by {
                assert(cells[k] == cells_a[k]);
                assert(expand(palette, b)[k] == cells_b[k]);
            }
        }
        assert forall|k: int| 0 <= k < front_a.len() && k % 2 == 1 implies #[trigger] front_a[k]
            <= palette.len() by {
            assert(front_a[k] == a[k]);
        }
        assert forall|k: int| 0 <= k < front_b.len() && k % 2 == 1 implies #[trigger] front_b[k]
            <= palette.len() by {
            assert(front_b[k] == b[k]);
        }
        assert(runs_maximal(front_a)) by {
            assert forall|k: int| 0 <= k < front_a.len() && k % 2 == 0 implies #[trigger] front_a[k]
                >= 1 by {
                assert(front_a[k] == a[k]);
            }
            assert forall|k: int| 1 <= k < front_a.len() - 2 && k % 2 == 1 implies #[trigger] front_a[k]
                != front_a[k + 2] by {
                assert(front_a[k] == a[k]);
                assert(front_a[k + 2] == a[k + 2]);
            }
        }
        assert(runs_maximal(front_b)) by {
            assert forall|k: int| 0 <= k < front_b.len() && k % 2 == 0 implies #[trigger] front_b[k]
                >= 1 by {
                assert(front_b[k] == b[k]);
            }
            assert forall|k: int| 1 <= k < front_b.len() - 2 && k % 2 == 1 implies #[trigger] front_b[k]
                != front_b[k + 2] by {
                assert(front_b[k] == b[k]);
                assert(front_b[k + 2] == b[k + 2]);
            }
        }
        lemma_runs_unique(palette, front_a, front_b);
        assert(a =~= front_a.push(n_a).push(i_a));
        assert(b =~= front_b.push(n_b).push(i_b));
    }
}

/// The stored form of a chunk is determined by its cells: two stored
/// chunks that both are what compression makes of the same cells have the
/// same palette and the same run data.
pub proof fn lemma_compression_unique(
    cells: Seq<Option<Block>>,
    first: CompressedChunk,
    second: CompressedChunk,
)
    requires
        first.is_compression_of(cells),
        second.is_compression_of(cells),
    ensures
        first.palette@ == second.palette@,
        first.rle_data@ == second.rle_data@,
{
    lemma_distinct_blocks(cells);
    lemma_runs_unique(first.palette@, first.rle_data@, second.rle_data@);
}

/// The chunks of one region as they are stored, in the order in which they
/// were first saved.
pub struct Region {
    chunks: PosMap<CompressedChunk>,
}

impl Region {
    pub closed spec fn wf(&self) -> bool {
        self.chunks.wf()
    }

    /// The positions of the stored chunks, in storage order.
    pub closed spec fn positions(&self) -> Seq<IVec3> {
        self.chunks.keys()
    }

    /// The stored chunks, each at the place of its position.
    pub closed spec fn entries(&self) -> Seq<CompressedChunk> {
        self.chunks.values()
    }

    /// The stored form of the chunk at `chunk_pos`, if the region has one.
    pub closed spec fn stored(&self, chunk_pos: IVec3) -> Option<CompressedChunk> {
        self.chunks.spec_get(chunk_pos)
    }

    pub fn new() -> (region: Region)
        ensures
            region.wf(),
            region.positions() == Seq::<IVec3>::empty(),
            forall|p: IVec3| #[trigger] region.stored(p) is None,
    {
        Region { chunks: PosMap::new() }
    }

    pub fn len(&self) -> (len: usize)
        requires
            self.wf(),
        ensures
            len == self.positions().len(),
    {
        self.chunks.len()
    }

    /// The position of the chunk at a place of the storage order.
    pub fn position_at(&self, index: usize) -> (chunk_pos: IVec3)
        requires
            self.wf(),
            index < self.positions().len(),
        ensures
            chunk_pos == self.positions()[index as int],
    {
        self.chunks.key_at(index)
    }

    /// The stored chunk at a place of the storage order.
    pub fn entry_at(&self, index: usize) -> (entry: &CompressedChunk)
        requires
            self.wf(),
            index < self.positions().len(),
        ensures
            *entry == self.entries()[index as int],
    {
        proof {
            self.chunks.lemma_wf();
        }
        self.chunks.value_at(index)
    }

    pub fn get(&self, chunk_pos: IVec3) -> (entry: Option<&CompressedChunk>)
        requires
            self.wf(),
        ensures
            match entry {
                Some(c) => self.stored(chunk_pos) == Some(*c),
                None => self.stored(chunk_pos) is None,
            },
    {
        self.chunks.get(chunk_pos)
    }

    /// Stores a chunk under its position. A chunk stored there before is
    /// replaced and keeps its place; a new one goes behind the last.
    pub fn insert(&mut self, chunk_pos: IVec3, compressed: CompressedChunk)
        requires
            old(self).wf(),
        ensures
            final(self).wf(),
            final(self).stored(chunk_pos) == Some(compressed),
            forall|p: IVec3| p != chunk_pos ==> #[trigger] final(self).stored(p) == old(self).stored(p),
            final(self).positions() == if old(self).positions().contains(chunk_pos) {
                old(self).positions()
            } else {
                old(self).positions().push(chunk_pos)
            },
    {
        self.chunks.insert(chunk_pos, compressed);
    }
}

/// The owner of a chunk among the written chunks `(position, data)`: the
/// place of the last one written at `chunk_pos`, if any was.
pub open spec fn last_write(chunks: Seq<(IVec3, ChunkData)>, chunk_pos: IVec3) -> Option<int>
    decreases chunks.len(),
{
    if chunks.len() == 0 {
        None
    } else if chunks.last().0 == chunk_pos {
        Some(chunks.len() - 1)
    } else {
        last_write(chunks.drop_last(), chunk_pos)
    }
}

/// The name of the file that holds a region, as a function of the region's
/// position.
pub uninterp spec fn region_file_name(x: i32, y: i32, z: i32) -> Seq<char>;

/// `format!`: the file name of a region, which is `region_`, the three
/// coordinates in decimal with `_` between them, and `.bin`. The result
/// depends on the coordinates only.
#[verifier::external_body]
fn format_region_file_name(x: i32, y: i32, z: i32) -> (name: String)
    ensures
        name@ == region_file_name(x, y, z),
{
    format!("region_{}_{}_{}.bin", x, y, z)
}

/// The regions that are held in memory: each is kept from the moment it is
/// first read or written, and holds the stored form of its chunks.
pub struct RegionManager {
    loaded_regions: PosMap<Region>,
}

impl RegionManager {
    pub closed spec fn wf(&self) -> bool {
        &&& self.loaded_regions.wf()
        &&& forall|i: int|
            0 <= i < self.loaded_regions.values().len() ==> (
            #[trigger] self.loaded_regions.values()[i]).wf()
    }

    /// The region at `region_pos` is held in memory.
    pub closed spec fn is_loaded(&self, region_pos: IVec3) -> bool {
        self.loaded_regions.keys().contains(region_pos)
    }

    /// The region at `region_pos`, where it is held in memory.
    pub closed spec fn loaded(&self, region_pos: IVec3) -> Option<Region> {
        self.loaded_regions.spec_get(region_pos)
    }

    /// The stored form of the chunk at `chunk_pos` in the regions held in
    /// memory.
    pub open spec fn stored(&self, chunk_pos: IVec3) -> Option<CompressedChunk> {
        match self.loaded(spec_region_pos(chunk_pos)) {
            Some(region) => region.stored(chunk_pos),
            None => None,
        }
    }

    pub proof fn lemma_wf(&self)
        requires
            self.wf(),
        ensures
            forall|r: IVec3| #[trigger] self.is_loaded(r) <==> self.loaded(r) is Some,
            forall|r: IVec3| #[trigger] self.loaded(r) is Some ==> self.loaded(r)->0.wf(),
    {
        self.loaded_regions.lemma_wf();
        assert forall|r: IVec3| #[trigger] self.loaded(r) is Some implies self.loaded(r)->0.wf() by {
            let i = crate::pos_map::place_of(self.loaded_regions.keys(), r);
            assert(self.loaded_regions.values()[i].wf());
        }
    }

    /// A manager that holds no region yet.
    pub fn new() -> (manager: RegionManager)
        ensures
            manager.wf(),
            forall|r: IVec3| !#[trigger] manager.is_loaded(r),
            forall|r: IVec3| #[trigger] manager.loaded(r) is None,
    {
        RegionManager { loaded_regions: PosMap::new() }
    }

    /// The region that holds a chunk.
    pub fn region_pos(chunk_pos: IVec3) -> (region_pos: IVec3)
        ensures
            region_pos == spec_region_pos(chunk_pos),
    {
        region_pos_of(chunk_pos)
    }

    /// The name of the file that holds a region.
    pub fn file_name(region_pos: IVec3) -> (name: String)
        ensures
            name@ == region_file_name(region_pos.x, region_pos.y, region_pos.z),
    {
        format_region_file_name(region_pos.x, region_pos.y, region_pos.z)
    }

    /// The region whose file has to be read before the chunk at `chunk_pos`
    /// can be looked up: the chunk's region, unless it is held in memory.
    pub fn region_to_read(&self, chunk_pos: IVec3) -> (region_pos: Option<IVec3>)
        requires
            self.wf(),
        ensures
            region_pos == if self.is_loaded(spec_region_pos(chunk_pos)) {
                None
            } else {
                Some(spec_region_pos(chunk_pos))
            },
    {
        let region_pos = region_pos_of(chunk_pos);
        if self.loaded_regions.contains_key(region_pos) {
            None
        } else {
            Some(region_pos)
        }
    }

    /// The region at `region_pos`, where it is held in memory.
    pub fn region(&self, region_pos: IVec3) -> (region: Option<&Region>)
        requires
            self.wf(),
        ensures
            match region {
                Some(r) => self.loaded(region_pos) == Some(*r) && r.wf(),
                None => self.loaded(region_pos) is None,
            },
    {
        proof {
            self.lemma_wf();
        }
        self.loaded_regions.get(region_pos)
    }

    /// Looks the chunk at `chunk_pos` up. `region_file` is what the file of
    /// the chunk's region holds, or `None` where there is no such file; it is
    /// used, and then kept in memory, only if the region is not held yet. A
    /// chunk that was never saved gives `Ok(None)`; one whose stored form has
    /// a defect gives the defect.
    pub fn load_chunk(&mut self, chunk_pos: IVec3, region_file: Option<Region>) -> (result: Result<
        Option<ChunkData>,
        RegionError,
    >)
        requires
            old(self).wf(),
            region_file matches Some(region) ==> region.wf(),
        ensures
            final(self).wf(),
            forall|r: IVec3|
                r != spec_region_pos(chunk_pos) ==> #[trigger] final(self).loaded(r) == old(
                    self,
                ).loaded(r),
            final(self).loaded(spec_region_pos(chunk_pos)) == if old(self).is_loaded(
                spec_region_pos(chunk_pos),
            ) {
                old(self).loaded(spec_region_pos(chunk_pos))
            } else {
                region_file
            },
            match final(self).stored(chunk_pos) {
                Some(compressed) => match compressed.defect() {
                    Some(error) => result == Err::<Option<ChunkData>, RegionError>(error),
                    None => result matches Ok(Some(chunk)) && chunk.wf() && chunk.cells()
                        == compressed.cells(),
                },
                None => result matches Ok(None),
            },
    {
        let region_pos = region_pos_of(chunk_pos);
        proof {
            self.lemma_wf();
            self.loaded_regions.lemma_wf();
        }
        if !self.loaded_regions.contains_key(region_pos) {
            match region_file {
                Some(region) => {
                    self.loaded_regions.insert(region_pos, region);
                    proof {
                        assert forall|i: int|
                            0 <= i < self.loaded_regions.values().len() implies (
                        #[trigger] self.loaded_regions.values()[i]).wf() by {
                            if i < old(self).loaded_regions.values().len() {
                                assert(self.loaded_regions.values()[i] == old(
                                    self,
                                ).loaded_regions.values()[i]);
                            }
                        }
                    }
                },
                None => {
                    return Ok(None);
                },
            }
        }
        proof {
            self.lemma_wf();
        }
        match self.loaded_regions.get(region_pos) {
            Some(region) => match region.get(chunk_pos) {
                Some(compressed) => match compressed.decompress() {
                    Ok(chunk) => Ok(Some(chunk)),
                    Err(error) => Err(error),
                },
                None => Ok(None),
            },
            None => Ok(None),
        }
    }

    /// Stores one chunk in its region, which is created if it is not held
    /// in memory yet. Returns the position of the region.
    pub fn save_chunk(&mut self, chunk_pos: IVec3, data: &ChunkData) -> (region_pos: IVec3)
        requires
            old(self).wf(),
            data.wf(),
        ensures
            final(self).wf(),
            region_pos == spec_region_pos(chunk_pos),
            final(self).stored(chunk_pos) matches Some(compressed) && compressed.is_compression_of(
                data.cells(),
            ),
            forall|p: IVec3| p != chunk_pos ==> #[trigger] final(self).stored(p) == old(self).stored(p),
            forall|r: IVec3| #[trigger]
                final(self).is_loaded(r) <==> (old(self).is_loaded(r) || r == region_pos),
    {
        let region_pos = region_pos_of(chunk_pos);
        let compressed = CompressedChunk::compress(data);
        proof {
            self.lemma_wf();
            self.loaded_regions.lemma_wf();
        }
        let index = match self.loaded_regions.get_index_of(region_pos) {
            Some(index) => index,
            None => {
                let index = self.loaded_regions.insert(region_pos, Region::new());
                proof {
                    crate::pos_map::lemma_push_fresh(old(self).loaded_regions.keys(), region_pos);
                    assert forall|i: int|
                        0 <= i < self.loaded_regions.values().len() implies (
                    #[trigger] self.loaded_regions.values()[i]).wf() by {
                        if i < old(self).loaded_regions.values().len() {
                            assert(self.loaded_regions.values()[i] == old(
                                self,
                            ).loaded_regions.values()[i]);
                        }
                    }
                }
                index
            },
        };
        let ghost mid = *self;
        proof {
            mid.loaded_regions.lemma_wf();
            assert(mid.loaded_regions.keys()[index as int] == region_pos);
            assert forall|p: IVec3| #[trigger] mid.stored(p) == old(self).stored(p) by {
                if spec_region_pos(p) != region_pos {
                } else if !old(self).is_loaded(region_pos) {
                }
            }
        }
        let region = self.loaded_regions.value_at_mut(index);
        region.insert(chunk_pos, compressed);
        proof {
            assert forall|i: int| 0 <= i < self.loaded_regions.values().len() implies (
            #[trigger] self.loaded_regions.values()[i]).wf() by {
                if i != index {
                    assert(self.loaded_regions.values()[i] == mid.loaded_regions.values()[i]);
                }
            }
            assert forall|p: IVec3| p != chunk_pos implies #[trigger] self.stored(p) == old(
                self,
            ).stored(p) by {
                assert(mid.stored(p) == old(self).stored(p));
            }
        }
        region_pos
    }

    /// Stores every chunk of `chunks` in its region; of two chunks at one
    /// position the later one stays. Chunks stored before under other
    /// positions are left as they are. Returns the regions that were written
    /// to, each once, in the order in which they were first written to.
    pub fn save_chunks(&mut self, chunks: &Vec<(IVec3, ChunkData)>) -> (modified: Vec<IVec3>)
        requires
            old(self).wf(),
            forall|i: int| 0 <= i < chunks@.len() ==> (#[trigger] chunks@[i]).1.wf(),
        ensures
            final(self).wf(),
            forall|p: IVec3|
                match #[trigger] last_write(chunks@, p) {
                    Some(i) => final(self).stored(p) matches Some(compressed)
                        && compressed.is_compression_of(chunks@[i].1.cells()),
                    None => final(self).stored(p) == old(self).stored(p),
                },
            forall|r: IVec3| #[trigger]
                final(self).is_loaded(r) <==> (old(self).is_loaded(r) || modified@.contains(r)),
            modified@.no_duplicates(),
            forall|r: IVec3| #[trigger]
                modified@.contains(r) <==> exists|i: int|
                    0 <= i < chunks@.len() && spec_region_pos(#[trigger] chunks@[i].0) == r,
    {
        let mut modified_regions = PosSet::new();
        let mut i: usize = 0;
        proof {
            assert(chunks@.take(0) =~= Seq::<(IVec3, ChunkData)>::empty());
        }
        while i < chunks.len()
            invariant
                i <= chunks@.len(),
                self.wf(),
                modified_regions.wf(),
                forall|k: int| 0 <= k < chunks@.len() ==> (#[trigger] chunks@[k]).1.wf(),
                forall|p: IVec3|
                    match #[trigger] last_write(chunks@.take(i as int), p) {
                        Some(k) => self.stored(p) matches Some(compressed)
                            && compressed.is_compression_of(chunks@[k].1.cells()),
                        None => self.stored(p) == old(self).stored(p),
                    },
                forall|r: IVec3| #[trigger]
                    self.is_loaded(r) <==> (old(self).is_loaded(r) || modified_regions@.contains(r)),
                forall|r: IVec3| #[trigger]
                    modified_regions@.contains(r) <==> exists|k: int|
                        0 <= k < i && spec_region_pos(#[trigger] chunks@[k].0) == r,
            decreases chunks@.len() - i,
        {
            let ghost before = *self;
            let ghost marked = modified_regions@;
            let chunk_pos = chunks[i].0;
            let region_pos = self.save_chunk(chunk_pos, &chunks[i].1);
            proof {
                modified_regions.lemma_wf();
            }
            modified_regions.insert(region_pos);
            proof {
                let now = chunks@.take(i as int + 1);
                assert(now.drop_last() =~= chunks@.take(i as int));
                assert(now.last() == chunks@[i as int]);
                assert forall|p: IVec3|
                    match #[trigger] last_write(now, p) {
                        Some(k) => self.stored(p) matches Some(compressed)
                            && compressed.is_compression_of(chunks@[k].1.cells()),
                        None => self.stored(p) == old(self).stored(p),
                    } by {
                    if p != chunk_pos {
                        assert(self.stored(p) == before.stored(p));
                        assert(last_write(now, p) == last_write(chunks@.take(i as int), p));
                    }
                }
                if !marked.contains(region_pos) {
                    crate::pos_map::lemma_push_fresh(marked, region_pos);
                }
                assert forall|r: IVec3| #[trigger]
                    modified_regions@.contains(r) <==> exists|k: int|
                        0 <= k < i + 1 && spec_region_pos(#[trigger] chunks@[k].0) == r by {
                    if modified_regions@.contains(r) {
                        if r == region_pos {
                            assert(spec_region_pos(chunks@[i as int].0) == r);
                        } else {
                            assert(marked.contains(r));
                            let k = choose|k: int|
                                0 <= k < i && spec_region_pos(#[trigger] chunks@[k].0) == r;
                            assert(0 <= k < i + 1 && spec_region_pos(chunks@[k].0) == r);
                        }
                    }
                    if exists|k: int|
                        0 <= k < i + 1 && spec_region_pos(#[trigger] chunks@[k].0) == r {
                        let k = choose|k: int|
                            0 <= k < i + 1 && spec_region_pos(#[trigger] chunks@[k].0) == r;
                        if k < i {
                            assert(marked.contains(r));
                        }
                    }
                }
            }
            i += 1;
        }
        proof {
            assert(chunks@.take(chunks@.len() as int) =~= chunks@);
            modified_regions.lemma_wf();
        }
        let mut modified: Vec<IVec3> = Vec::new();
        let mut k: usize = 0;
        let count = modified_regions.len();
        while k < count
            invariant
                k <= count,
                count == modified_regions@.len(),
                modified@ == modified_regions@.take(k as int),
            decreases count - k,
        {
            match modified_regions.get_index(k) {
                Some(region_pos) => {
                    modified.push(region_pos);
                },
                None => {},
            }
            proof {
                assert(modified@ =~= modified_regions@.take(k as int + 1));
            }
            k += 1;
        }
        proof {
            assert(modified_regions@.take(count as int) =~= modified_regions@);
        }
        modified
    }
}

} // verus!
