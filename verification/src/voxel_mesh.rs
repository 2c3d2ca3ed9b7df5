use vstd::prelude::*;

use crate::chunk_mesh::{lemma_pack_corner, pack_corner};

verus! {

/// A vertex of a voxel mesh: position, texture coordinates and ambient
/// occlusion in one word.
#[derive(Debug, Clone, Copy, PartialEq, Eq, Structural)]
pub struct Vertex {
    pub data: u32,
}

impl Vertex {
    pub fn new(position: [u32; 3], tex_coords: [u32; 2], _normal: [i32; 3], ao: u32) -> (vertex:
        Vertex)
        ensures
            vertex.data == pack_corner(
                position[0],
                position[1],
                position[2],
                tex_coords[0],
                tex_coords[1],
                ao,
            ),
            position[0] <= 32 && position[1] <= 32 && position[2] <= 32 && tex_coords[0] <= 1
                && tex_coords[1] <= 1 && ao <= 3 ==> {
                &&& (vertex.data >> 26) & 0x3f == position[0]
                &&& (vertex.data >> 20) & 0x3f == position[1]
                &&& (vertex.data >> 14) & 0x3f == position[2]
                &&& (vertex.data >> 13) & 1 == tex_coords[0]
                &&& (vertex.data >> 12) & 1 == tex_coords[1]
                &&& (vertex.data >> 10) & 3 == ao
            },
    {
        proof {
            if position[0] <= 32 && position[1] <= 32 && position[2] <= 32 && tex_coords[0] <= 1
                && tex_coords[1] <= 1 && ao <= 3 {
                lemma_pack_corner(
                    position[0],
                    position[1],
                    position[2],
                    tex_coords[0],
                    tex_coords[1],
                    ao,
                );
            }
        }
        Vertex {
            data: (position[0] << 26) | (position[1] << 20) | (position[2] << 14) | (tex_coords[0]
                << 13) | (tex_coords[1] << 12) | (ao << 10),
        }
    }
}

/// Collects the vertices and indices of a voxel mesh.
#[derive(Debug)]
pub struct VoxelMeshBuilder {
    pub vertices: Vec<Vertex>,
    pub indices: Vec<u32>,
}

impl VoxelMeshBuilder {
    pub fn new() -> (builder: VoxelMeshBuilder)
        ensures
            builder.vertices@ == Seq::<Vertex>::empty(),
            builder.indices@ == Seq::<u32>::empty(),
    {
        VoxelMeshBuilder { vertices: Vec::new(), indices: Vec::new() }
    }

    /// The index that the next vertex will get.
    pub fn index(&self) -> (index: u32)
        requires
            self.vertices@.len() <= u32::MAX,
        ensures
            index == self.vertices@.len(),
    {
        self.vertices.len() as u32
    }

    /// The finished vertex and index lists, or `None` for a mesh without a
    /// triangle.
    pub fn build(self) -> (mesh: Option<(Vec<Vertex>, Vec<u32>)>)
        ensures
            mesh is None <==> self.indices@.len() == 0,
            mesh matches Some(lists) ==> lists.0@ == self.vertices@ && lists.1@ == self.indices@,
    {
        if self.indices.len() == 0 {
            return None;
        }
        Some((self.vertices, self.indices))
    }
}

} // verus!
