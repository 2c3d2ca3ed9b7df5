use vstd::prelude::*;

verus! {

/// Edge length of a chunk, in cells.
pub const CHUNK_SIZE: usize = 32;

/// Number of cells in a chunk.
pub const CHUNK_VOLUME: usize = 32768;

/// Edge length of a region, in chunks.
pub const REGION_SIZE: usize = 16;

/// An integer position: a cell of the world grid, a chunk or a region.
#[derive(Debug, Clone, Copy, PartialEq, Eq, Hash, Structural)]
pub struct IVec3 {
    pub x: i32,
    pub y: i32,
    pub z: i32,
}

/// A position inside a chunk.
#[derive(Debug, Clone, Copy, PartialEq, Eq, Hash, Structural)]
pub struct USizeVec3 {
    pub x: usize,
    pub y: usize,
    pub z: usize,
}

impl IVec3 {
    pub fn new(x: i32, y: i32, z: i32) -> (v: IVec3)
        ensures
            v == (IVec3 { x, y, z }),
    {
        IVec3 { x, y, z }
    }

    /// The position as a tuple, the form in which it is kept in ordered sets.
    pub open spec fn key(self) -> (i32, i32, i32) {
        (self.x, self.y, self.z)
    }

    pub fn to_key(self) -> (k: (i32, i32, i32))
        ensures
            k == self.key(),
    {
        (self.x, self.y, self.z)
    }

    pub fn from_key(k: (i32, i32, i32)) -> (v: IVec3)
        ensures
            v.key() == k,
    {
        IVec3 { x: k.0, y: k.1, z: k.2 }
    }

    /// The position moved by `(dx, dy, dz)`, where that is still a position.
    pub open spec fn spec_offset(self, dx: int, dy: int, dz: int) -> Option<IVec3> {
        if i32::MIN <= self.x + dx <= i32::MAX && i32::MIN <= self.y + dy <= i32::MAX && i32::MIN
            <= self.z + dz <= i32::MAX {
            Some(IVec3 { x: (self.x + dx) as i32, y: (self.y + dy) as i32, z: (self.z + dz) as i32 })
        } else {
            None
        }
    }

    /// Moves the position by `(dx, dy, dz)`; `None` where a coordinate would
    /// leave the 32-bit range.
    pub fn offset(self, dx: i32, dy: i32, dz: i32) -> (moved: Option<IVec3>)
        ensures
            moved == self.spec_offset(dx as int, dy as int, dz as int),
    {
        match (self.x.checked_add(dx), self.y.checked_add(dy), self.z.checked_add(dz)) {
            (Some(x), Some(y), Some(z)) => Some(IVec3 { x, y, z }),
            _ => None,
        }
    }
}

impl USizeVec3 {
    pub fn new(x: usize, y: usize, z: usize) -> (v: USizeVec3)
        ensures
            v == (USizeVec3 { x, y, z }),
    {
        USizeVec3 { x, y, z }
    }

    /// The position lies inside a chunk.
    pub open spec fn in_chunk(self) -> bool {
        self.x < CHUNK_SIZE && self.y < CHUNK_SIZE && self.z < CHUNK_SIZE
    }

    pub fn is_in_chunk(&self) -> (inside: bool)
        ensures
            inside == self.in_chunk(),
    {
        self.x < CHUNK_SIZE && self.y < CHUNK_SIZE && self.z < CHUNK_SIZE
    }
}

/// Place of the cell `(x, y, z)` in a chunk's flattened cell order: `x` runs
/// fastest, then `y`, then `z`.
pub open spec fn cell_index(x: int, y: int, z: int) -> int {
    x + y * 32 + z * 1024
}

/// The three coordinates of the cell at place `i` of the flattened order.
pub open spec fn cell_x(i: int) -> int {
    i % 32
}

pub open spec fn cell_y(i: int) -> int {
    (i / 32) % 32
}

pub open spec fn cell_z(i: int) -> int {
    i / 1024
}

/// A triple of coordinates names a cell of a chunk.
pub open spec fn in_chunk(x: int, y: int, z: int) -> bool {
    0 <= x < 32 && 0 <= y < 32 && 0 <= z < 32
}

/// Flattened cell order and coordinates determine each other.
pub proof fn lemma_cell_index(x: int, y: int, z: int)
    requires
        in_chunk(x, y, z),
    ensures
        0 <= cell_index(x, y, z) < CHUNK_VOLUME,
        cell_x(cell_index(x, y, z)) == x,
        cell_y(cell_index(x, y, z)) == y,
        cell_z(cell_index(x, y, z)) == z,
{
}

pub proof fn lemma_cell_coords(i: int)
    requires
        0 <= i < CHUNK_VOLUME,
    ensures
        in_chunk(cell_x(i), cell_y(i), cell_z(i)),
        cell_index(cell_x(i), cell_y(i), cell_z(i)) == i,
{
}

/// Place of a local position in the flattened cell order.
pub fn local_index(local_pos: USizeVec3) -> (index: usize)
    requires
        local_pos.in_chunk(),
    ensures
        index == cell_index(local_pos.x as int, local_pos.y as int, local_pos.z as int),
        index < CHUNK_VOLUME,
{
    local_pos.x + local_pos.y * CHUNK_SIZE + local_pos.z * CHUNK_SIZE * CHUNK_SIZE
}

/// Floor division of a coordinate by a positive grid size.
pub open spec fn grid_div(a: int, size: int) -> int {
    a / size
}

/// Remainder of a coordinate in a grid of positive size, in `0..size`.
pub open spec fn grid_rem(a: int, size: int) -> int {
    a % size
}

/// Floor division by `size`: the grid cell that the coordinate falls in.
pub fn div_floor(a: i32, size: i32) -> (q: i32)
    requires
        size > 0,
    ensures
        q == grid_div(a as int, size as int),
{
    assert(i32::MIN <= (a as int) / (size as int) <= i32::MAX) by (nonlinear_arith)
        requires
            size > 0,
            i32::MIN <= a <= i32::MAX,
    ;
    match a.checked_div_euclid(size) {
        Some(q) => q,
        None => 0,
    }
}

/// Remainder on floor division by `size`: the place inside the grid cell.
pub fn rem_floor(a: i32, size: i32) -> (r: i32)
    requires
        size > 0,
    ensures
        r == grid_rem(a as int, size as int),
        0 <= r < size,
{
    assert(0 <= (a as int) % (size as int) < size) by (nonlinear_arith)
        requires
            size > 0,
    ;
    match a.checked_rem_euclid(size) {
        Some(r) => r,
        None => 0,
    }
}

/// The chunk that holds a cell of the world grid.
pub open spec fn spec_chunk_pos(world_pos: IVec3) -> IVec3 {
    IVec3 {
        x: grid_div(world_pos.x as int, 32) as i32,
        y: grid_div(world_pos.y as int, 32) as i32,
        z: grid_div(world_pos.z as int, 32) as i32,
    }
}

/// The place of a cell of the world grid inside its chunk.
pub open spec fn spec_local_pos(world_pos: IVec3) -> USizeVec3 {
    USizeVec3 {
        x: grid_rem(world_pos.x as int, 32) as usize,
        y: grid_rem(world_pos.y as int, 32) as usize,
        z: grid_rem(world_pos.z as int, 32) as usize,
    }
}

/// The region that holds a chunk.
pub open spec fn spec_region_pos(chunk_pos: IVec3) -> IVec3 {
    IVec3 {
        x: grid_div(chunk_pos.x as int, 16) as i32,
        y: grid_div(chunk_pos.y as int, 16) as i32,
        z: grid_div(chunk_pos.z as int, 16) as i32,
    }
}

pub fn chunk_pos_of(world_pos: IVec3) -> (chunk_pos: IVec3)
    ensures
        chunk_pos == spec_chunk_pos(world_pos),
        chunk_pos.x * 32 <= world_pos.x < chunk_pos.x * 32 + 32,
        chunk_pos.y * 32 <= world_pos.y < chunk_pos.y * 32 + 32,
        chunk_pos.z * 32 <= world_pos.z < chunk_pos.z * 32 + 32,
{
    IVec3 {
        x: div_floor(world_pos.x, 32),
        y: div_floor(world_pos.y, 32),
        z: div_floor(world_pos.z, 32),
    }
}

pub fn local_pos_of(world_pos: IVec3) -> (local_pos: USizeVec3)
    ensures
        local_pos == spec_local_pos(world_pos),
        local_pos.in_chunk(),
        spec_chunk_pos(world_pos).x * 32 + local_pos.x == world_pos.x,
        spec_chunk_pos(world_pos).y * 32 + local_pos.y == world_pos.y,
        spec_chunk_pos(world_pos).z * 32 + local_pos.z == world_pos.z,
{
    USizeVec3 {
        x: rem_floor(world_pos.x, 32) as usize,
        y: rem_floor(world_pos.y, 32) as usize,
        z: rem_floor(world_pos.z, 32) as usize,
    }
}

pub fn region_pos_of(chunk_pos: IVec3) -> (region_pos: IVec3)
    ensures
        region_pos == spec_region_pos(chunk_pos),
        region_pos.x * 16 <= chunk_pos.x < region_pos.x * 16 + 16,
        region_pos.y * 16 <= chunk_pos.y < region_pos.y * 16 + 16,
        region_pos.z * 16 <= chunk_pos.z < region_pos.z * 16 + 16,
{
    IVec3 {
        x: div_floor(chunk_pos.x, 16),
        y: div_floor(chunk_pos.y, 16),
        z: div_floor(chunk_pos.z, 16),
    }
}

} // verus!
