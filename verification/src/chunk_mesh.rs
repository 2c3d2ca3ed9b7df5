use vstd::prelude::*;

use crate::block::{Block, BlockFace};
use crate::blocks::BlockKind;
use crate::coords::{in_chunk, IVec3, CHUNK_VOLUME};
use crate::packed_data::PackedData;
use crate::light::{is_opaque_at, opaque_at, same_blocks, same_lights, RelevantLights};
use crate::registry::Registry;
use crate::relevant_chunks::RelevantChunks;

verus! {

/// A vertex of a chunk mesh: position, texture coordinates and ambient
/// occlusion in one word.
#[derive(Debug, Clone, Copy, PartialEq, Eq, Structural)]
pub struct ChunkVertex {
    pub data: u32,
}

/// The word that holds a corner position (`0..=32` on each axis), texture
/// coordinates (`0..=1`) and ambient occlusion (`0..=3`).
pub open spec fn pack_corner(
    x: u32,
    y: u32,
    z: u32,
    u: u32,
    v: u32,
    ao: u32,
) -> u32 {
    (x << 26) | (y << 20) | (z << 14) | (u << 13) | (v << 12) | (ao << 10)
}

/// What is packed into the word of a [`ChunkVertex`] is read back from it.
pub proof fn lemma_pack_corner(x: u32, y: u32, z: u32, u: u32, v: u32, ao: u32)
    by (bit_vector)
    requires
        x <= 32,
        y <= 32,
        z <= 32,
        u <= 1,
        v <= 1,
        ao <= 3,
    ensures
        (pack_corner(x, y, z, u, v, ao) >> 26) & 0x3f == x,
        (pack_corner(x, y, z, u, v, ao) >> 20) & 0x3f == y,
        (pack_corner(x, y, z, u, v, ao) >> 14) & 0x3f == z,
        (pack_corner(x, y, z, u, v, ao) >> 13) & 1 == u,
        (pack_corner(x, y, z, u, v, ao) >> 12) & 1 == v,
        (pack_corner(x, y, z, u, v, ao) >> 10) & 3 == ao,
{
}

impl ChunkVertex {
    pub fn new(position: [u32; 3], tex_coords: [u32; 2], _normal: [i32; 3], ao: u32) -> (vertex:
        ChunkVertex)
        ensures
            vertex.data == pack_corner(
                position[0],
                position[1],
                position[2],
                tex_coords[0],
                tex_coords[1],
                ao,
            ),
            position[0] <= 32 && position[1] <= 32 && position[2] <= 32 && tex_coords[0] <= 1
                && tex_coords[1] <= 1 && ao <= 3 ==> {
                &&& (vertex.data >> 26) & 0x3f == position[0]
                &&& (vertex.data >> 20) & 0x3f == position[1]
                &&& (vertex.data >> 14) & 0x3f == position[2]
                &&& (vertex.data >> 13) & 1 == tex_coords[0]
                &&& (vertex.data >> 12) & 1 == tex_coords[1]
                &&& (vertex.data >> 10) & 3 == ao
            },
    {
        proof {
            if position[0] <= 32 && position[1] <= 32 && position[2] <= 32 && tex_coords[0] <= 1
                && tex_coords[1] <= 1 && ao <= 3 {
                lemma_pack_corner(
                    position[0],
                    position[1],
                    position[2],
                    tex_coords[0],
                    tex_coords[1],
                    ao,
                );
            }
        }
        ChunkVertex {
            data: (position[0] << 26) | (position[1] << 20) | (position[2] << 14) | (tex_coords[0]
                << 13) | (tex_coords[1] << 12) | (ao << 10),
        }
    }
}

/// Collects the vertices and indices of a mesh.
#[derive(Debug)]
pub struct ChunkMeshBuilder {
    pub vertices: Vec<ChunkVertex>,
    pub indices: Vec<u32>,
}

impl ChunkMeshBuilder {
    pub fn new() -> (builder: ChunkMeshBuilder)
        ensures
            builder.vertices@ == Seq::<ChunkVertex>::empty(),
            builder.indices@ == Seq::<u32>::empty(),
    {
        ChunkMeshBuilder { vertices: Vec::new(), indices: Vec::new() }
    }

    /// The index that the next vertex will get.
    pub fn index(&self) -> (index: u32)
        requires
            self.vertices@.len() <= u32::MAX,
        ensures
            index == self.vertices@.len(),
    {
        self.vertices.len() as u32
    }

    /// The finished vertex and index lists, or `None` for a mesh without a
    /// triangle.
    pub fn build(self) -> (mesh: Option<(Vec<ChunkVertex>, Vec<u32>)>)
        ensures
            mesh is None <==> self.indices@.len() == 0,
            mesh matches Some(lists) ==> lists.0@ == self.vertices@ && lists.1@ == self.indices@,
    {
        if self.indices.len() == 0 {
            return None;
        }
        Some((self.vertices, self.indices))
    }
}

/// Ambient occlusion of a vertex from the three cells around it on the
/// side that the face looks at: 3 with none of them occluding and one less
/// for each that does, but 0, the darkest, whenever both edge cells do,
/// whatever the corner cell holds.
pub open spec fn spec_calculate_ao(side1: bool, side2: bool, corner: bool) -> u32 {
    if side1 && side2 {
        0
    } else {
        (3 - (if side1 { 1int } else { 0int }) - (if side2 { 1int } else { 0int }) - (if corner {
            1int
        } else {
            0int
        })) as u32
    }
}

pub fn calculate_ao(side1: bool, side2: bool, corner: bool) -> (ao: u32)
    ensures
        ao == spec_calculate_ao(side1, side2, corner),
        ao <= 3,
{
    if side1 && side2 {
        return 0;
    }
    let count: u32 = (if side1 { 1u32 } else { 0u32 }) + (if side2 { 1u32 } else { 0u32 }) + (if corner {
        1u32
    } else {
        0u32
    });
    3 - count
}

/// A vertex of a generated mesh: a packed word and the texture to draw
/// with.
#[derive(Debug, Clone, Copy, PartialEq, Eq, Structural)]
pub struct MeshVertex {
    pub data: u32,
    pub texture_index: u32,
}

/// The geometry of one chunk.
#[derive(Debug)]
pub struct Mesh {
    pub vertices: Vec<MeshVertex>,
    pub indices: Vec<u32>,
}

/// The packed word of a mesh vertex. From the lowest bit up: the cell's
/// position in the chunk (three times five bits), the vertex's place in the
/// model vertex table (six bits), ambient occlusion (two bits), sky light
/// and block light (four bits each), and the transparency flag.
pub open spec fn pack_vertex(
    x: u32,
    y: u32,
    z: u32,
    model_vertex: u32,
    ao: u32,
    sky: u32,
    block: u32,
    transparent: bool,
) -> u32 {
    x | (y << 5) | (z << 10) | (model_vertex << 15) | (ao << 21) | (sky << 23) | (block << 27) | ((
    if transparent {
        1u32
    } else {
        0u32
    }) << 31)
}

/// What is packed into the word of a mesh vertex is read back from it.
pub proof fn lemma_pack_vertex(
    x: u32,
    y: u32,
    z: u32,
    model_vertex: u32,
    ao: u32,
    sky: u32,
    block: u32,
    flag: u32,
)
    by (bit_vector)
    requires
        x < 32,
        y < 32,
        z < 32,
        model_vertex < 64,
        ao <= 3,
        sky <= 15,
        block <= 15,
        flag <= 1,
    ensures
        ({
            let word = x | (y << 5) | (z << 10) | (model_vertex << 15) | (ao << 21) | (sky << 23) | (
            block << 27) | (flag << 31);
            &&& word & 31 == x
            &&& (word >> 5) & 31 == y
            &&& (word >> 10) & 31 == z
            &&& (word >> 15) & 63 == model_vertex
            &&& (word >> 21) & 3 == ao
            &&& (word >> 23) & 15 == sky
            &&& (word >> 27) & 15 == block
            &&& (word >> 31) & 1 == flag
        }),
{
}

impl MeshVertex {
    /// The cell's position in the chunk.
    pub open spec fn spec_position(self) -> (u32, u32, u32) {
        (self.data & 31, (self.data >> 5) & 31, (self.data >> 10) & 31)
    }

    /// The vertex's place in the model vertex table.
    pub open spec fn spec_model_vertex(self) -> u32 {
        (self.data >> 15) & 63
    }

    /// Ambient occlusion of the vertex.
    pub open spec fn spec_ao(self) -> u32 {
        (self.data >> 21) & 3
    }

    /// Sky light and block light of the vertex.
    pub open spec fn spec_light(self) -> (u32, u32) {
        ((self.data >> 23) & 15, (self.data >> 27) & 15)
    }

    /// The face that the vertex belongs to is transparent.
    pub open spec fn spec_is_transparent(self) -> bool {
        (self.data >> 31) & 1 == 1
    }

    /// Packs a vertex. Values within the range of their fields are read
    /// back as they were given.
    pub fn new(
        position: (u32, u32, u32),
        model_vertex: u32,
        ao: u32,
        light: (u32, u32),
        transparent: bool,
        texture_index: u32,
    ) -> (vertex: MeshVertex)
        ensures
            vertex.data == pack_vertex(
                position.0,
                position.1,
                position.2,
                model_vertex,
                ao,
                light.0,
                light.1,
                transparent,
            ),
            vertex.texture_index == texture_index,
            position.0 < 32 && position.1 < 32 && position.2 < 32 && model_vertex < 64 && ao <= 3
                && light.0 <= 15 && light.1 <= 15 ==> {
                &&& vertex.spec_position() == position
                &&& vertex.spec_model_vertex() == model_vertex
                &&& vertex.spec_ao() == ao
                &&& vertex.spec_light() == light
                &&& vertex.spec_is_transparent() == transparent
            },
    {
        let flag: u32 = if transparent { 1 } else { 0 };
        proof {
            if position.0 < 32 && position.1 < 32 && position.2 < 32 && model_vertex < 64 && ao <= 3
                && light.0 <= 15 && light.1 <= 15 {
                lemma_pack_vertex(
                    position.0,
                    position.1,
                    position.2,
                    model_vertex,
                    ao,
                    light.0,
                    light.1,
                    flag,
                );
            }
        }
        MeshVertex {
            data: position.0 | (position.1 << 5) | (position.2 << 10) | (model_vertex << 15) | (ao
                << 21) | (light.0 << 23) | (light.1 << 27) | (flag << 31),
            texture_index,
        }
    }

    pub fn position(&self) -> (position: (u32, u32, u32))
        ensures
            position == self.spec_position(),
    {
        (self.data & 31, (self.data >> 5) & 31, (self.data >> 10) & 31)
    }

    pub fn model_vertex(&self) -> (index: u32)
        ensures
            index == self.spec_model_vertex(),
    {
        (self.data >> 15) & 63
    }

    pub fn ao(&self) -> (ao: u32)
        ensures
            ao == self.spec_ao(),
    {
        (self.data >> 21) & 3
    }

    pub fn light(&self) -> (light: (u32, u32))
        ensures
            light == self.spec_light(),
    {
        ((self.data >> 23) & 15, (self.data >> 27) & 15)
    }

    pub fn is_transparent(&self) -> (transparent: bool)
        ensures
            transparent == self.spec_is_transparent(),
    {
        (self.data >> 31) & 1 == 1
    }
}

/// The cell that the walk over a chunk visits at step `t`: `x` changes
/// slowest and `z` fastest.
pub open spec fn visit_cell(t: int) -> (int, int, int) {
    (t / 1024, (t / 32) % 32, t % 32)
}

/// The block of a cell that is drawn, with its type: air and blocks of an
/// unknown type are not drawn.
pub open spec fn drawn_block(
    chunks: &RelevantChunks,
    registry: &Registry,
    chunk_pos: IVec3,
    x: int,
    y: int,
    z: int,
) -> Option<(Block, BlockKind)> {
    match chunks.rel_block(chunk_pos, x, y, z) {
        Some(block) => match registry.spec_block_type(block.id) {
            Some(kind) => Some((block, kind)),
            None => None,
        },
        None => None,
    }
}

/// A face of the block of type `kind` in cell `(x, y, z)` is hidden: the
/// cell it looks at holds a solid block whose facing side fills at least
/// the part that this block's face fills, and both sides agree on
/// transparency. A face that does not reach the cell's boundary is never
/// hidden, and a block that is not solid hides nothing.
pub open spec fn face_culled(
    chunks: &RelevantChunks,
    registry: &Registry,
    chunk_pos: IVec3,
    x: int,
    y: int,
    z: int,
    kind: BlockKind,
    face: BlockFace,
) -> bool {
    let n = face.spec_normal();
    match drawn_block(chunks, registry, chunk_pos, x + n.0, y + n.1, z + n.2) {
        Some((_, neighbor)) => match (
            kind.spec_face_rect(face),
            neighbor.spec_face_rect(face.spec_opposite()),
        ) {
            (Some(mine), Some(theirs)) => neighbor.spec_is_solid() && theirs.spec_covers(mine)
                && theirs.is_transparent == mine.is_transparent,
            _ => false,
        },
        None => false,
    }
}

/// For corner `c` of a face, the direction from the cell's center to the
/// corner: `1` or `-1` on every axis.
pub open spec fn corner_sign(face: BlockFace, c: int) -> (int, int, int) {
    match face {
        BlockFace::Front => if c == 0 {
            (1, 1, 1)
        } else if c == 1 {
            (-1, 1, 1)
        } else if c == 2 {
            (-1, -1, 1)
        } else {
            (1, -1, 1)
        },
        BlockFace::Back => if c == 0 {
            (-1, 1, -1)
        } else if c == 1 {
            (1, 1, -1)
        } else if c == 2 {
            (1, -1, -1)
        } else {
            (-1, -1, -1)
        },
        BlockFace::Left => if c == 0 {
            (-1, 1, 1)
        } else if c == 1 {
            (-1, 1, -1)
        } else if c == 2 {
            (-1, -1, -1)
        } else {
            (-1, -1, 1)
        },
        BlockFace::Right => if c == 0 {
            (1, 1, -1)
        } else if c == 1 {
            (1, 1, 1)
        } else if c == 2 {
            (1, -1, 1)
        } else {
            (1, -1, -1)
        },
        BlockFace::Top => if c == 0 {
            (1, 1, 1)
        } else if c == 1 {
            (1, 1, -1)
        } else if c == 2 {
            (-1, 1, -1)
        } else {
            (-1, 1, 1)
        },
        BlockFace::Bottom => if c == 0 {
            (1, -1, -1)
        } else if c == 1 {
            (1, -1, 1)
        } else if c == 2 {
            (-1, -1, 1)
        } else {
            (-1, -1, -1)
        },
    }
}

fn corner_sign_of(face: BlockFace, c: u32) -> (sign: (i32, i32, i32))
    ensures
        (sign.0 as int, sign.1 as int, sign.2 as int) == corner_sign(face, c as int),
        -1 <= sign.0 <= 1,
        -1 <= sign.1 <= 1,
        -1 <= sign.2 <= 1,
{
    match face {
        BlockFace::Front => if c == 0 {
            (1, 1, 1)
        } else if c == 1 {
            (-1, 1, 1)
        } else if c == 2 {
            (-1, -1, 1)
        } else {
            (1, -1, 1)
        },
        BlockFace::Back => if c == 0 {
            (-1, 1, -1)
        } else if c == 1 {
            (1, 1, -1)
        } else if c == 2 {
            (1, -1, -1)
        } else {
            (-1, -1, -1)
        },
        BlockFace::Left => if c == 0 {
            (-1, 1, 1)
        } else if c == 1 {
            (-1, 1, -1)
        } else if c == 2 {
            (-1, -1, -1)
        } else {
            (-1, -1, 1)
        },
        BlockFace::Right => if c == 0 {
            (1, 1, -1)
        } else if c == 1 {
            (1, 1, 1)
        } else if c == 2 {
            (1, -1, 1)
        } else {
            (1, -1, -1)
        },
        BlockFace::Top => if c == 0 {
            (1, 1, 1)
        } else if c == 1 {
            (1, 1, -1)
        } else if c == 2 {
            (-1, 1, -1)
        } else {
            (-1, 1, 1)
        },
        BlockFace::Bottom => if c == 0 {
            (1, -1, -1)
        } else if c == 1 {
            (1, -1, 1)
        } else if c == 2 {
            (-1, -1, 1)
        } else {
            (-1, -1, -1)
        },
    }
}

/// The two cells that share an edge with corner `c` of a face, on the side
/// that the face looks at, as steps from the cell: the step to the corner
/// with one of the two directions along the face left out.
pub open spec fn edge_steps(face: BlockFace, c: int) -> ((int, int, int), (int, int, int)) {
    let s = corner_sign(face, c);
    match face {
        BlockFace::Left | BlockFace::Right => ((s.0, 0, s.2), (s.0, s.1, 0)),
        BlockFace::Top | BlockFace::Bottom => ((s.0, s.1, 0), (0, s.1, s.2)),
        BlockFace::Front | BlockFace::Back => ((s.0, 0, s.2), (0, s.1, s.2)),
    }
}

/// Ambient occlusion of corner `c` of a face of the cell `(x, y, z)`: what
/// the two edge cells and the corner cell give, where a cell occludes if it
/// holds a block that stops light.
pub open spec fn corner_ao(
    chunks: &RelevantChunks,
    registry: &Registry,
    chunk_pos: IVec3,
    x: int,
    y: int,
    z: int,
    face: BlockFace,
    c: int,
) -> u32 {
    let s = corner_sign(face, c);
    let e = edge_steps(face, c);
    spec_calculate_ao(
        opaque_at(chunks, registry, chunk_pos, x + e.0.0, y + e.0.1, z + e.0.2),
        opaque_at(chunks, registry, chunk_pos, x + e.1.0, y + e.1.1, z + e.1.2),
        opaque_at(chunks, registry, chunk_pos, x + s.0, y + s.1, z + s.2),
    )
}

/// Vertex `c` of a face of the block in cell `(x, y, z)`: it refers to the
/// model's vertex for that face and corner, and carries the corner's
/// ambient occlusion, the light of the cell that the face looks at, the
/// face's texture and whether the face is transparent.
pub open spec fn face_vertex(
    chunks: &RelevantChunks,
    lights: &RelevantLights,
    registry: &Registry,
    chunk_pos: IVec3,
    x: int,
    y: int,
    z: int,
    block: Block,
    kind: BlockKind,
    face: BlockFace,
    c: int,
) -> MeshVertex {
    let n = face.spec_normal();
    let light = lights.rel_light(chunk_pos, x + n.0, y + n.1, z + n.2);
    MeshVertex {
        data: pack_vertex(
            x as u32,
            y as u32,
            z as u32,
            (kind.spec_model().spec_offset() + face.spec_index() * 4 + c) as u32,
            corner_ao(chunks, registry, chunk_pos, x, y, z, face, c),
            light.0 as u32,
            light.1 as u32,
            kind.spec_face_rect(face) matches Some(rect) && rect.is_transparent,
        ),
        texture_index: registry.spec_face_texture(block, face),
    }
}

/// The four vertices of a face.
pub open spec fn face_vertices(
    chunks: &RelevantChunks,
    lights: &RelevantLights,
    registry: &Registry,
    chunk_pos: IVec3,
    x: int,
    y: int,
    z: int,
    block: Block,
    kind: BlockKind,
    face: BlockFace,
) -> Seq<MeshVertex> {
    Seq::new(
        4,
        |c: int| face_vertex(chunks, lights, registry, chunk_pos, x, y, z, block, kind, face, c),
    )
}

/// The indices of a face whose first vertex has index `first`: two
/// triangles, split along the diagonal between corners 1 and 3 where those
/// two corners together are brighter than corners 0 and 2, and along the
/// other diagonal else. A face that is seen from both sides gets the same
/// two triangles once more, wound the other way.
pub open spec fn face_indices(first: u32, ao: (u32, u32, u32, u32), both_sides: bool) -> Seq<u32> {
    let a = first;
    let b = (first + 1) as u32;
    let c = (first + 2) as u32;
    let d = (first + 3) as u32;
    let front = if ao.1 + ao.3 > ao.0 + ao.2 {
        seq![b, c, d, d, a, b]
    } else {
        seq![a, b, c, c, d, a]
    };
    if both_sides {
        front + seq![front[2], front[1], front[0], front[5], front[4], front[3]]
    } else {
        front
    }
}

/// The block, with its type, whose face is drawn at a step of the walk,
/// where step `6 * t + f` handles face `f` of the cell visited at `t`;
/// `None` where the cell holds nothing to draw or the face is hidden.
pub open spec fn step_block(
    chunks: &RelevantChunks,
    registry: &Registry,
    chunk_pos: IVec3,
    step: int,
) -> Option<(Block, BlockKind)> {
    let cell = visit_cell(step / 6);
    let face = BlockFace::spec_from_index(step % 6);
    match drawn_block(chunks, registry, chunk_pos, cell.0, cell.1, cell.2) {
        Some((block, kind)) => if face_culled(
            chunks,
            registry,
            chunk_pos,
            cell.0,
            cell.1,
            cell.2,
            kind,
            face,
        ) {
            None
        } else {
            Some((block, kind))
        },
        None => None,
    }
}

/// The vertices that a step of the walk adds.
pub open spec fn step_vertices(
    chunks: &RelevantChunks,
    lights: &RelevantLights,
    registry: &Registry,
    chunk_pos: IVec3,
    step: int,
) -> Seq<MeshVertex> {
    let cell = visit_cell(step / 6);
    let face = BlockFace::spec_from_index(step % 6);
    match step_block(chunks, registry, chunk_pos, step) {
        Some((block, kind)) => face_vertices(
            chunks,
            lights,
            registry,
            chunk_pos,
            cell.0,
            cell.1,
            cell.2,
            block,
            kind,
            face,
        ),
        None => Seq::empty(),
    }
}

/// The indices that a step of the walk adds when `first` vertices have
/// been produced before it.
pub open spec fn step_indices(
    chunks: &RelevantChunks,
    registry: &Registry,
    chunk_pos: IVec3,
    step: int,
    first: u32,
) -> Seq<u32> {
    let cell = visit_cell(step / 6);
    let face = BlockFace::spec_from_index(step % 6);
    match step_block(chunks, registry, chunk_pos, step) {
        Some((_, kind)) => face_indices(
            first,
            (
                corner_ao(chunks, registry, chunk_pos, cell.0, cell.1, cell.2, face, 0),
                corner_ao(chunks, registry, chunk_pos, cell.0, cell.1, cell.2, face, 1),
                corner_ao(chunks, registry, chunk_pos, cell.0, cell.1, cell.2, face, 2),
                corner_ao(chunks, registry, chunk_pos, cell.0, cell.1, cell.2, face, 3),
            ),
            !kind.spec_is_solid(),
        ),
        None => Seq::empty(),
    }
}

/// Vertices and indices that the walk has produced after `steps` steps.
pub open spec fn mesh_after(
    chunks: &RelevantChunks,
    lights: &RelevantLights,
    registry: &Registry,
    chunk_pos: IVec3,
    steps: int,
) -> (Seq<MeshVertex>, Seq<u32>)
    decreases steps,
{
    if steps <= 0 {
        (Seq::empty(), Seq::empty())
    } else {
        let before = mesh_after(chunks, lights, registry, chunk_pos, steps - 1);
        (
            before.0 + step_vertices(chunks, lights, registry, chunk_pos, steps - 1),
            before.1 + step_indices(chunks, registry, chunk_pos, steps - 1, before.0.len() as u32),
        )
    }
}

/// Number of steps of the walk over a chunk: six faces for every cell.
pub const MESH_STEPS: usize = 196608;

/// The geometry of the chunk at `chunk_pos`: what the walk over all cells
/// and faces produces.
pub open spec fn chunk_mesh(
    chunks: &RelevantChunks,
    lights: &RelevantLights,
    registry: &Registry,
    chunk_pos: IVec3,
) -> (Seq<MeshVertex>, Seq<u32>) {
    mesh_after(chunks, lights, registry, chunk_pos, MESH_STEPS as int)
}

/// A face has six indices, or twelve if it is seen from both sides, and
/// all of them refer to its four vertices.
pub proof fn lemma_face_indices(first: u32, ao: (u32, u32, u32, u32), both_sides: bool)
    requires
        first + 3 <= u32::MAX,
    ensures
        face_indices(first, ao, both_sides).len() == (if both_sides {
            12int
        } else {
            6int
        }),
        forall|i: int|
            0 <= i < face_indices(first, ao, both_sides).len() ==> first <= #[trigger] face_indices(
                first,
                ao,
                both_sides,
            )[i] <= first + 3,
{
}

/// A step adds no vertex and no index, or four vertices and six or twelve
/// indices that refer to them.
pub proof fn lemma_step_size(
    chunks: &RelevantChunks,
    lights: &RelevantLights,
    registry: &Registry,
    chunk_pos: IVec3,
    step: int,
    first: u32,
)
    requires
        first + 3 <= u32::MAX,
    ensures
        step_block(chunks, registry, chunk_pos, step) is None ==> step_vertices(
            chunks,
            lights,
            registry,
            chunk_pos,
            step,
        ).len() == 0 && step_indices(chunks, registry, chunk_pos, step, first).len() == 0,
        step_block(chunks, registry, chunk_pos, step) is Some ==> step_vertices(
            chunks,
            lights,
            registry,
            chunk_pos,
            step,
        ).len() == 4 && (step_indices(chunks, registry, chunk_pos, step, first).len() == 6
            || step_indices(chunks, registry, chunk_pos, step, first).len() == 12),
        forall|i: int|
            0 <= i < step_indices(chunks, registry, chunk_pos, step, first).len() ==> first
                <= #[trigger] step_indices(chunks, registry, chunk_pos, step, first)[i] <= first + 3,
{
    let cell = visit_cell(step / 6);
    let face = BlockFace::spec_from_index(step % 6);
    if let Some((_, kind)) = step_block(chunks, registry, chunk_pos, step) {
        lemma_face_indices(
            first,
            (
                corner_ao(chunks, registry, chunk_pos, cell.0, cell.1, cell.2, face, 0),
                corner_ao(chunks, registry, chunk_pos, cell.0, cell.1, cell.2, face, 1),
                corner_ao(chunks, registry, chunk_pos, cell.0, cell.1, cell.2, face, 2),
                corner_ao(chunks, registry, chunk_pos, cell.0, cell.1, cell.2, face, 3),
            ),
            !kind.spec_is_solid(),
        );
    }
}

/// The walk produces four vertices for every face it draws, with at least
/// six indices for every four vertices, and every index refers to a vertex
/// produced so far.
pub proof fn lemma_mesh_size(
    chunks: &RelevantChunks,
    lights: &RelevantLights,
    registry: &Registry,
    chunk_pos: IVec3,
    steps: int,
)
    requires
        0 <= steps <= MESH_STEPS,
    ensures
        mesh_after(chunks, lights, registry, chunk_pos, steps).0.len() <= 4 * steps,
        mesh_after(chunks, lights, registry, chunk_pos, steps).0.len() % 4 == 0,
        mesh_after(chunks, lights, registry, chunk_pos, steps).1.len() <= 12 * steps,
        mesh_after(chunks, lights, registry, chunk_pos, steps).1.len() * 2 >= 3 * mesh_after(
            chunks,
            lights,
            registry,
            chunk_pos,
            steps,
        ).0.len(),
        forall|i: int|
            0 <= i < mesh_after(chunks, lights, registry, chunk_pos, steps).1.len()
                ==> #[trigger] mesh_after(chunks, lights, registry, chunk_pos, steps).1[i]
                < mesh_after(chunks, lights, registry, chunk_pos, steps).0.len(),
    decreases steps,
{
    if steps > 0 {
        lemma_mesh_size(chunks, lights, registry, chunk_pos, steps - 1);
        let before = mesh_after(chunks, lights, registry, chunk_pos, steps - 1);
        let after = mesh_after(chunks, lights, registry, chunk_pos, steps);
        let first = before.0.len() as u32;
        let added = step_indices(chunks, registry, chunk_pos, steps - 1, first);
        lemma_step_size(chunks, lights, registry, chunk_pos, steps - 1, first);
        assert(after.1 == before.1 + added);
        assert forall|i: int| 0 <= i < after.1.len() implies #[trigger] after.1[i] < after.0.len() by {
            if i < before.1.len() {
                assert(after.1[i] == before.1[i]);
            } else {
                assert(after.1[i] == added[i - before.1.len()]);
            }
        }
    }
}

/// A chunk without a drawn block has no geometry.
pub proof fn lemma_mesh_of_air(
    chunks: &RelevantChunks,
    lights: &RelevantLights,
    registry: &Registry,
    chunk_pos: IVec3,
    steps: int,
)
    requires
        0 <= steps <= MESH_STEPS,
        forall|x: int, y: int, z: int|
            crate::coords::in_chunk(x, y, z) ==> #[trigger] drawn_block(
                chunks,
                registry,
                chunk_pos,
                x,
                y,
                z,
            ) is None,
    ensures
        mesh_after(chunks, lights, registry, chunk_pos, steps).0.len() == 0,
        mesh_after(chunks, lights, registry, chunk_pos, steps).1.len() == 0,
    decreases steps,
{
    if steps > 0 {
        lemma_mesh_of_air(chunks, lights, registry, chunk_pos, steps - 1);
        let cell = visit_cell((steps - 1) / 6);
        assert(crate::coords::in_chunk(cell.0, cell.1, cell.2));
        assert(drawn_block(chunks, registry, chunk_pos, cell.0, cell.1, cell.2) is None);
        assert(step_block(chunks, registry, chunk_pos, steps - 1) is None);
    }
}

/// A cell without a drawn block adds nothing to the mesh.
proof fn lemma_skip_cell(
    chunks: &RelevantChunks,
    lights: &RelevantLights,
    registry: &Registry,
    chunk_pos: IVec3,
    t: int,
    faces: int,
)
    requires
        0 <= t < CHUNK_VOLUME,
        0 <= faces <= 6,
        drawn_block(
            chunks,
            registry,
            chunk_pos,
            visit_cell(t).0,
            visit_cell(t).1,
            visit_cell(t).2,
        ) is None,
    ensures
        mesh_after(chunks, lights, registry, chunk_pos, 6 * t + faces) == mesh_after(
            chunks,
            lights,
            registry,
            chunk_pos,
            6 * t,
        ),
    decreases faces,
{
    if faces > 0 {
        lemma_skip_cell(chunks, lights, registry, chunk_pos, t, faces - 1);
        let step = 6 * t + faces - 1;
        assert(step / 6 == t);
        assert(step_block(chunks, registry, chunk_pos, step) is None);
        let before = mesh_after(chunks, lights, registry, chunk_pos, step);
        assert(before.0 + Seq::<MeshVertex>::empty() =~= before.0);
        assert(before.1 + Seq::<u32>::empty() =~= before.1);
    }
}

fn is_face_culled(
    chunks: &RelevantChunks,
    registry: &Registry,
    chunk_pos: IVec3,
    x: i32,
    y: i32,
    z: i32,
    kind: BlockKind,
    data: PackedData,
    face: BlockFace,
) -> (culled: bool)
    requires
        chunks.wf(),
        in_chunk(x as int, y as int, z as int),
    ensures
        culled == face_culled(chunks, registry, chunk_pos, x as int, y as int, z as int, kind, face),
{
    let n = face.normal();
    match chunks.get_block_rel(chunk_pos, x + n.0, y + n.1, z + n.2) {
        Some(neighbor) => match registry.block_type(neighbor.id) {
            Some(neighbor_kind) => match (
                kind.face_rect(face, data),
                neighbor_kind.face_rect(face.opposite(), neighbor.data),
            ) {
                (Some(mine), Some(theirs)) => neighbor_kind.is_solid() && theirs.covers(&mine)
                    && theirs.is_transparent == mine.is_transparent,
                _ => false,
            },
            None => false,
        },
        None => false,
    }
}

fn corner_ao_of(
    chunks: &RelevantChunks,
    registry: &Registry,
    chunk_pos: IVec3,
    x: i32,
    y: i32,
    z: i32,
    face: BlockFace,
    c: u32,
) -> (ao: u32)
    requires
        chunks.wf(),
        in_chunk(x as int, y as int, z as int),
    ensures
        ao == corner_ao(chunks, registry, chunk_pos, x as int, y as int, z as int, face, c as int),
        ao <= 3,
{
    let s = corner_sign_of(face, c);
    let (e1, e2): ((i32, i32, i32), (i32, i32, i32)) = match face {
        BlockFace::Left | BlockFace::Right => ((s.0, 0, s.2), (s.0, s.1, 0)),
        BlockFace::Top | BlockFace::Bottom => ((s.0, s.1, 0), (0, s.1, s.2)),
        BlockFace::Front | BlockFace::Back => ((s.0, 0, s.2), (0, s.1, s.2)),
    };
    calculate_ao(
        is_opaque_at(chunks, registry, chunk_pos, x + e1.0, y + e1.1, z + e1.2),
        is_opaque_at(chunks, registry, chunk_pos, x + e2.0, y + e2.1, z + e2.2),
        is_opaque_at(chunks, registry, chunk_pos, x + s.0, y + s.1, z + s.2),
    )
}

/// Adds the indices of one face whose first vertex has index `first`.
fn push_face_indices(indices: &mut Vec<u32>, first: u32, ao: (u32, u32, u32, u32), both_sides: bool)
    requires
        first + 3 <= u32::MAX,
        ao.0 <= 3,
        ao.1 <= 3,
        ao.2 <= 3,
        ao.3 <= 3,
    ensures
        final(indices)@ == old(indices)@ + face_indices(first, ao, both_sides),
{
    // Split the quad along the diagonal that keeps the shading smooth.
    let (i0, i1, i2, i3, i4, i5): (u32, u32, u32, u32, u32, u32) = if ao.1 + ao.3 > ao.0 + ao.2 {
        (first + 1, first + 2, first + 3, first + 3, first, first + 1)
    } else {
        (first, first + 1, first + 2, first + 2, first + 3, first)
    };
    indices.push(i0);
    indices.push(i1);
    indices.push(i2);
    indices.push(i3);
    indices.push(i4);
    indices.push(i5);
    if both_sides {
        // Seen from both sides: the same triangles, wound the other way.
        indices.push(i2);
        indices.push(i1);
        indices.push(i0);
        indices.push(i5);
        indices.push(i4);
        indices.push(i3);
    }
    proof {
        assert(indices@ =~= old(indices)@ + face_indices(first, ao, both_sides));
    }
}

/// Vertex `c` of a face.
fn face_vertex_of(
    chunks: &RelevantChunks,
    lights: &RelevantLights,
    registry: &Registry,
    chunk_pos: IVec3,
    x: i32,
    y: i32,
    z: i32,
    block: Block,
    kind: BlockKind,
    face: BlockFace,
    c: u32,
) -> (vertex: MeshVertex)
    requires
        chunks.wf(),
        lights.wf(),
        in_chunk(x as int, y as int, z as int),
        c < 4,
    ensures
        vertex == face_vertex(
            chunks,
            lights,
            registry,
            chunk_pos,
            x as int,
            y as int,
            z as int,
            block,
            kind,
            face,
            c as int,
        ),
{
    let n = face.normal();
    // Light is sampled at the cell that the face looks at.
    let light = lights.get_light_rel(chunk_pos, x + n.0, y + n.1, z + n.2);
    let transparent = match kind.face_rect(face, block.data) {
        Some(rect) => rect.is_transparent,
        None => false,
    };
    let ao = corner_ao_of(chunks, registry, chunk_pos, x, y, z, face, c);
    MeshVertex::new(
        (x as u32, y as u32, z as u32),
        kind.model().offset() + face.index() * 4 + c,
        ao,
        (light.0 as u32, light.1 as u32),
        transparent,
        registry.face_texture(block, face),
    )
}

/// Adds the four vertices and the indices of one face.
fn emit_face(
    vertices: &mut Vec<MeshVertex>,
    indices: &mut Vec<u32>,
    chunks: &RelevantChunks,
    lights: &RelevantLights,
    registry: &Registry,
    chunk_pos: IVec3,
    x: i32,
    y: i32,
    z: i32,
    block: Block,
    kind: BlockKind,
    face: BlockFace,
)
    requires
        chunks.wf(),
        lights.wf(),
        in_chunk(x as int, y as int, z as int),
        old(vertices)@.len() + 4 <= u32::MAX,
    ensures
        final(vertices)@ == old(vertices)@ + face_vertices(
            chunks,
            lights,
            registry,
            chunk_pos,
            x as int,
            y as int,
            z as int,
            block,
            kind,
            face,
        ),
        final(indices)@ == old(indices)@ + face_indices(
            old(vertices)@.len() as u32,
            (
                corner_ao(chunks, registry, chunk_pos, x as int, y as int, z as int, face, 0),
                corner_ao(chunks, registry, chunk_pos, x as int, y as int, z as int, face, 1),
                corner_ao(chunks, registry, chunk_pos, x as int, y as int, z as int, face, 2),
                corner_ao(chunks, registry, chunk_pos, x as int, y as int, z as int, face, 3),
            ),
            !kind.spec_is_solid(),
        ),
{
    let first = vertices.len() as u32;
    let ghost before = vertices@;
    let v0 = face_vertex_of(chunks, lights, registry, chunk_pos, x, y, z, block, kind, face, 0);
    let v1 = face_vertex_of(chunks, lights, registry, chunk_pos, x, y, z, block, kind, face, 1);
    let v2 = face_vertex_of(chunks, lights, registry, chunk_pos, x, y, z, block, kind, face, 2);
    let v3 = face_vertex_of(chunks, lights, registry, chunk_pos, x, y, z, block, kind, face, 3);
    vertices.push(v0);
    vertices.push(v1);
    vertices.push(v2);
    vertices.push(v3);
    proof {
        assert(vertices@ =~= before + face_vertices(
            chunks,
            lights,
            registry,
            chunk_pos,
            x as int,
            y as int,
            z as int,
            block,
            kind,
            face,
        ));
    }
    let ao0 = corner_ao_of(chunks, registry, chunk_pos, x, y, z, face, 0);
    let ao1 = corner_ao_of(chunks, registry, chunk_pos, x, y, z, face, 1);
    let ao2 = corner_ao_of(chunks, registry, chunk_pos, x, y, z, face, 2);
    let ao3 = corner_ao_of(chunks, registry, chunk_pos, x, y, z, face, 3);
    push_face_indices(indices, first, (ao0, ao1, ao2, ao3), !kind.is_solid());
}

/// Builds the geometry of the chunk at `chunk_pos` from the blocks and the
/// light of the chunk and its neighbors. Walks every cell; for each block
/// and each of its six faces that is not hidden by the neighbor it looks
/// at, adds four vertices and two triangles (four for a block that is seen
/// from both sides). A chunk without a visible face gives `None`.
pub fn generate_mesh(
    chunk_pos: IVec3,
    chunks: &RelevantChunks,
    lights: &RelevantLights,
    registry: &Registry,
) -> (mesh: Option<Mesh>)
    requires
        chunks.wf(),
        lights.wf(),
    ensures
        is_mesh_of(mesh, chunks, lights, registry, chunk_pos),
{
    let mut vertices: Vec<MeshVertex> = Vec::new();
    let mut indices: Vec<u32> = Vec::new();
    let mut t: usize = 0;
    while t < CHUNK_VOLUME
        invariant
            t <= CHUNK_VOLUME,
            chunks.wf(),
            lights.wf(),
            vertices@ == mesh_after(chunks, lights, registry, chunk_pos, 6 * t).0,
            indices@ == mesh_after(chunks, lights, registry, chunk_pos, 6 * t).1,
        decreases CHUNK_VOLUME - t,
    {
        let x = (t / 1024) as i32;
        let y = ((t / 32) % 32) as i32;
        let z = (t % 32) as i32;
        let drawn = match chunks.get_block_rel(chunk_pos, x, y, z) {
            Some(block) => match registry.block_type(block.id) {
                Some(kind) => Some((block, kind)),
                None => None,
            },
            None => None,
        };
        match drawn {
            Some((block, kind)) => {
                let mut f: u32 = 0;
                while f < 6
                    invariant
                        f <= 6,
                        t < CHUNK_VOLUME,
                        chunks.wf(),
                        lights.wf(),
                        (x as int, y as int, z as int) == visit_cell(t as int),
                        in_chunk(x as int, y as int, z as int),
                        drawn_block(chunks, registry, chunk_pos, x as int, y as int, z as int)
                            == Some((block, kind)),
                        vertices@ == mesh_after(chunks, lights, registry, chunk_pos, 6 * t + f).0,
                        indices@ == mesh_after(chunks, lights, registry, chunk_pos, 6 * t + f).1,
                    decreases 6 - f,
                {
                    let face = BlockFace::from_index(f);
                    proof {
                        lemma_mesh_size(chunks, lights, registry, chunk_pos, 6 * t + f);
                        assert((6 * t + f) / 6 == t);
                        assert((6 * t + f) % 6 == f);
                    }
                    if !is_face_culled(chunks, registry, chunk_pos, x, y, z, kind, block.data, face) {
                        emit_face(
                            &mut vertices,
                            &mut indices,
                            chunks,
                            lights,
                            registry,
                            chunk_pos,
                            x,
                            y,
                            z,
                            block,
                            kind,
                            face,
                        );
                    } else {
                        proof {
                            assert(vertices@ + Seq::<MeshVertex>::empty() =~= vertices@);
                            assert(indices@ + Seq::<u32>::empty() =~= indices@);
                        }
                    }
                    f += 1;
                }
            },
            None => {
                proof {
                    lemma_skip_cell(chunks, lights, registry, chunk_pos, t as int, 6);
                }
            },
        }
        t += 1;
    }
    if indices.len() == 0 {
        return None;
    }
    Some(Mesh { vertices, indices })
}

/// `mesh` is the geometry of the chunk at `chunk_pos`: nothing where the
/// walk produces no index, else the vertices and indices it produces.
pub open spec fn is_mesh_of(
    mesh: Option<Mesh>,
    chunks: &RelevantChunks,
    lights: &RelevantLights,
    registry: &Registry,
    chunk_pos: IVec3,
) -> bool {
    match mesh {
        Some(m) => {
            &&& chunk_mesh(chunks, lights, registry, chunk_pos).1.len() > 0
            &&& m.vertices@ == chunk_mesh(chunks, lights, registry, chunk_pos).0
            &&& m.indices@ == chunk_mesh(chunks, lights, registry, chunk_pos).1
        },
        None => chunk_mesh(chunks, lights, registry, chunk_pos).1.len() == 0,
    }
}

/// Building the mesh of a chunk again from the same chunks, lights and
/// registry gives the same vertices and indices.
pub proof fn lemma_mesh_recompute(
    first: Option<Mesh>,
    second: Option<Mesh>,
    chunks: &RelevantChunks,
    lights: &RelevantLights,
    registry: &Registry,
    chunk_pos: IVec3,
)
    requires
        is_mesh_of(first, chunks, lights, registry, chunk_pos),
        is_mesh_of(second, chunks, lights, registry, chunk_pos),
    ensures
        first is None <==> second is None,
        first matches Some(a) ==> second matches Some(b) && a.vertices@ == b.vertices@
            && a.indices@ == b.indices@,
{
}

/// A chunk of air has no mesh.
pub proof fn lemma_air_has_no_mesh(
    mesh: Option<Mesh>,
    chunks: &RelevantChunks,
    lights: &RelevantLights,
    registry: &Registry,
    chunk_pos: IVec3,
)
    requires
        is_mesh_of(mesh, chunks, lights, registry, chunk_pos),
        forall|x: int, y: int, z: int|
            in_chunk(x, y, z) ==> #[trigger] chunks.rel_block(chunk_pos, x, y, z) is None,
    ensures
        mesh is None,
{
    assert forall|x: int, y: int, z: int| in_chunk(x, y, z) implies #[trigger] drawn_block(
        chunks,
        registry,
        chunk_pos,
        x,
        y,
        z,
    ) is None by {
        assert(chunks.rel_block(chunk_pos, x, y, z) is None);
    }
    lemma_mesh_of_air(chunks, lights, registry, chunk_pos, MESH_STEPS as int);
}

/// The walk over a chunk produces the same vertices and indices from the
/// same blocks and the same light.
proof fn lemma_mesh_after_same_inputs(
    chunks: &RelevantChunks,
    chunks_again: &RelevantChunks,
    lights: &RelevantLights,
    lights_again: &RelevantLights,
    registry: &Registry,
    chunk_pos: IVec3,
    steps: int,
)
    requires
        same_blocks(chunks, chunks_again, chunk_pos),
        same_lights(lights, lights_again, chunk_pos),
    ensures
        mesh_after(chunks, lights, registry, chunk_pos, steps) == mesh_after(
            chunks_again,
            lights_again,
            registry,
            chunk_pos,
            steps,
        ),
    decreases steps,
{
    if steps > 0 {
        lemma_mesh_after_same_inputs(
            chunks,
            chunks_again,
            lights,
            lights_again,
            registry,
            chunk_pos,
            steps - 1,
        );
        let step = steps - 1;
        let cell = visit_cell(step / 6);
        let face = BlockFace::spec_from_index(step % 6);
        let n = face.spec_normal();
        assert forall|x: int, y: int, z: int|
            drawn_block(chunks, registry, chunk_pos, x, y, z) == drawn_block(
                chunks_again,
                registry,
                chunk_pos,
                x,
                y,
                z,
            ) by {
            assert(chunks.rel_block(chunk_pos, x, y, z) == chunks_again.rel_block(
                chunk_pos,
                x,
                y,
                z,
            ));
        }
        assert forall|x: int, y: int, z: int|
            opaque_at(chunks, registry, chunk_pos, x, y, z) == opaque_at(
                chunks_again,
                registry,
                chunk_pos,
                x,
                y,
                z,
            ) by {
            assert(chunks.rel_block(chunk_pos, x, y, z) == chunks_again.rel_block(
                chunk_pos,
                x,
                y,
                z,
            ));
        }
        assert(step_block(chunks, registry, chunk_pos, step) == step_block(
            chunks_again,
            registry,
            chunk_pos,
            step,
        ));
        assert forall|c: int|
            corner_ao(chunks, registry, chunk_pos, cell.0, cell.1, cell.2, face, c) == corner_ao(
                chunks_again,
                registry,
                chunk_pos,
                cell.0,
                cell.1,
                cell.2,
                face,
                c,
            ) by {}
        assert(lights.rel_light(chunk_pos, cell.0 + n.0, cell.1 + n.1, cell.2 + n.2)
            == lights_again.rel_light(chunk_pos, cell.0 + n.0, cell.1 + n.1, cell.2 + n.2));
        if let Some((block, kind)) = step_block(chunks, registry, chunk_pos, step) {
            assert(face_vertices(
                chunks,
                lights,
                registry,
                chunk_pos,
                cell.0,
                cell.1,
                cell.2,
                block,
                kind,
                face,
            ) =~= face_vertices(
                chunks_again,
                lights_again,
                registry,
                chunk_pos,
                cell.0,
                cell.1,
                cell.2,
                block,
                kind,
                face,
            ));
        }
    }
}

/// Building the mesh of a chunk again when neither the blocks nor the
/// light around it have changed gives the same vertices and indices.
pub proof fn lemma_mesh_same_inputs(
    first: Option<Mesh>,
    second: Option<Mesh>,
    chunks: &RelevantChunks,
    chunks_again: &RelevantChunks,
    lights: &RelevantLights,
    lights_again: &RelevantLights,
    registry: &Registry,
    chunk_pos: IVec3,
)
    requires
        same_blocks(chunks, chunks_again, chunk_pos),
        same_lights(lights, lights_again, chunk_pos),
        is_mesh_of(first, chunks, lights, registry, chunk_pos),
        is_mesh_of(second, chunks_again, lights_again, registry, chunk_pos),
    ensures
        first is None <==> second is None,
        first matches Some(a) ==> second matches Some(b) && a.vertices@ == b.vertices@
            && a.indices@ == b.indices@,
{
    lemma_mesh_after_same_inputs(
        chunks,
        chunks_again,
        lights,
        lights_again,
        registry,
        chunk_pos,
        MESH_STEPS as int,
    );
}

} // verus!
