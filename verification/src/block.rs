use vstd::prelude::*;

use crate::packed_data::PackedData;

verus! {

/// Number under which a block type is registered.
#[derive(Debug, Clone, Copy, PartialEq, Eq, Hash, Structural)]
pub struct BlockId(pub u16);

/// One block: its type and the payload that the type interprets.
#[derive(Debug, Clone, Copy, PartialEq, Eq, Hash, Structural)]
pub struct Block {
    pub id: BlockId,
    pub data: PackedData,
}

impl Block {
    pub fn new(id: BlockId, data: PackedData) -> (block: Block)
        ensures
            block == (Block { id, data }),
    {
        Block { id, data }
    }

    /// The block as a pair of integers, the form in which palettes keep it.
    pub open spec fn key(self) -> (u16, u64) {
        (self.id.0, self.data.0)
    }

    /// The block that a pair of integers stands for.
    pub open spec fn of_key(key: (u16, u64)) -> Block {
        Block { id: BlockId(key.0), data: PackedData(key.1) }
    }

    pub fn to_key(self) -> (key: (u16, u64))
        ensures
            key == self.key(),
            Block::of_key(key) == self,
    {
        (self.id.0, self.data.0)
    }

    pub fn from_key(key: (u16, u64)) -> (block: Block)
        ensures
            block == Block::of_key(key),
            block.key() == key,
    {
        Block { id: BlockId(key.0), data: PackedData(key.1) }
    }
}

/// The blocks that a sequence of keys stands for.
pub open spec fn blocks_of_keys(keys: Seq<(u16, u64)>) -> Seq<Block> {
    Seq::new(keys.len(), |i: int| Block::of_key(keys[i]))
}

/// The six faces of a cell.
#[derive(Debug, Clone, Copy, PartialEq, Eq, Hash, Structural)]
pub enum BlockFace {
    Top,
    Bottom,
    Left,
    Right,
    Front,
    Back,
}

impl BlockFace {
    /// The face on the other side of the cell.
    pub open spec fn spec_opposite(self) -> BlockFace {
        match self {
            BlockFace::Top => BlockFace::Bottom,
            BlockFace::Bottom => BlockFace::Top,
            BlockFace::Left => BlockFace::Right,
            BlockFace::Right => BlockFace::Left,
            BlockFace::Front => BlockFace::Back,
            BlockFace::Back => BlockFace::Front,
        }
    }

    pub fn opposite(self) -> (face: BlockFace)
        ensures
            face == self.spec_opposite(),
    {
        match self {
            BlockFace::Top => BlockFace::Bottom,
            BlockFace::Bottom => BlockFace::Top,
            BlockFace::Left => BlockFace::Right,
            BlockFace::Right => BlockFace::Left,
            BlockFace::Front => BlockFace::Back,
            BlockFace::Back => BlockFace::Front,
        }
    }

    /// Place of the face in a model's vertex table, which lists four vertices
    /// for each face: front, back, left, right, top, bottom.
    pub open spec fn spec_index(self) -> int {
        match self {
            BlockFace::Front => 0,
            BlockFace::Back => 1,
            BlockFace::Left => 2,
            BlockFace::Right => 3,
            BlockFace::Top => 4,
            BlockFace::Bottom => 5,
        }
    }

    pub fn index(self) -> (index: u32)
        ensures
            index == self.spec_index(),
            index < 6,
    {
        match self {
            BlockFace::Front => 0,
            BlockFace::Back => 1,
            BlockFace::Left => 2,
            BlockFace::Right => 3,
            BlockFace::Top => 4,
            BlockFace::Bottom => 5,
        }
    }

    /// The face at a place of the vertex table's face order.
    pub open spec fn spec_from_index(index: int) -> BlockFace {
        if index == 0 {
            BlockFace::Front
        } else if index == 1 {
            BlockFace::Back
        } else if index == 2 {
            BlockFace::Left
        } else if index == 3 {
            BlockFace::Right
        } else if index == 4 {
            BlockFace::Top
        } else {
            BlockFace::Bottom
        }
    }

    pub fn from_index(index: u32) -> (face: BlockFace)
        ensures
            face == BlockFace::spec_from_index(index as int),
            index < 6 ==> face.spec_index() == index,
    {
        match index {
            0 => BlockFace::Front,
            1 => BlockFace::Back,
            2 => BlockFace::Left,
            3 => BlockFace::Right,
            4 => BlockFace::Top,
            _ => BlockFace::Bottom,
        }
    }

    /// The step from a cell to the cell that the face looks at.
    pub open spec fn spec_normal(self) -> (int, int, int) {
        match self {
            BlockFace::Top => (0, 1, 0),
            BlockFace::Bottom => (0, -1, 0),
            BlockFace::Left => (-1, 0, 0),
            BlockFace::Right => (1, 0, 0),
            BlockFace::Front => (0, 0, 1),
            BlockFace::Back => (0, 0, -1),
        }
    }

    pub fn normal(self) -> (n: (i32, i32, i32))
        ensures
            (n.0 as int, n.1 as int, n.2 as int) == self.spec_normal(),
    {
        match self {
            BlockFace::Top => (0, 1, 0),
            BlockFace::Bottom => (0, -1, 0),
            BlockFace::Left => (-1, 0, 0),
            BlockFace::Right => (1, 0, 0),
            BlockFace::Front => (0, 0, 1),
            BlockFace::Back => (0, 0, -1),
        }
    }
}

/// Side length of a cell face in the units of [`FaceRect`].
pub const FACE_UNITS: u8 = 16;

/// The part of a cell face that a block fills, in sixteenths of the face's
/// side, and whether light passes through it.
#[derive(Debug, Clone, Copy, PartialEq, Eq, Hash, Structural)]
pub struct FaceRect {
    pub min_x: u8,
    pub min_y: u8,
    pub max_x: u8,
    pub max_y: u8,
    pub is_transparent: bool,
}

impl FaceRect {
    /// The whole face.
    pub open spec fn spec_full(is_transparent: bool) -> FaceRect {
        FaceRect { min_x: 0, min_y: 0, max_x: 16, max_y: 16, is_transparent }
    }

    pub fn full(is_transparent: bool) -> (rect: FaceRect)
        ensures
            rect == FaceRect::spec_full(is_transparent),
    {
        FaceRect { min_x: 0, min_y: 0, max_x: FACE_UNITS, max_y: FACE_UNITS, is_transparent }
    }

    /// Every point of `other` lies in `self`.
    pub open spec fn spec_covers(self, other: FaceRect) -> bool {
        &&& self.min_x <= other.min_x
        &&& self.min_y <= other.min_y
        &&& other.max_x <= self.max_x
        &&& other.max_y <= self.max_y
    }

    pub fn covers(&self, other: &FaceRect) -> (covered: bool)
        ensures
            covered == self.spec_covers(*other),
    {
        self.min_x <= other.min_x && self.min_y <= other.min_y && other.max_x <= self.max_x
            && other.max_y <= self.max_y
    }
}

} // verus!
