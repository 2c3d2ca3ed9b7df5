use std::sync::Arc;

use voxel_world::{
    calculate_ao, generate_mesh, Block, BlockId, BlockKind, ChunkData, ChunkDataInner,
    ChunkMeshBuilder,
    ChunkVertex, IVec3, LightDataInner, Mesh, MeshVertex, PackedData, Registry, RelevantChunks,
    RelevantLights, USizeVec3, Vertex, VoxelMeshBuilder,
};

const ORIGIN: IVec3 = IVec3 { x: 0, y: 0, z: 0 };

struct Blocks {
    registry: Registry,
    rock: Block,
    slab: Block,
    glass: Block,
}

fn blocks() -> Blocks {
    let mut registry = Registry::new();
    let rock = Block::new(registry.register_block(BlockKind::Rock), PackedData(0));
    let slab = Block::new(registry.register_block(BlockKind::RockSlab), PackedData(0));
    let glass = Block::new(registry.register_block(BlockKind::Glass), PackedData(0));
    registry.register_texture(rock, 3);
    registry.register_texture(slab, 4);
    registry.register_texture(glass, 5);
    Blocks { registry, rock, slab, glass }
}

fn chunk_of(cells: &[((usize, usize, usize), Block)]) -> ChunkData {
    let mut chunk = ChunkDataInner::new();
    for ((x, y, z), block) in cells {
        chunk.set_block(USizeVec3::new(*x, *y, *z), Some(*block)).unwrap();
    }
    Arc::new(chunk)
}

fn mesh_of(b: &Blocks, cells: &[((usize, usize, usize), Block)]) -> Option<Mesh> {
    let mut chunks = RelevantChunks::new();
    chunks.insert(ORIGIN, chunk_of(cells));
    let lights = RelevantLights::new(ORIGIN, Arc::new(LightDataInner::new()));
    generate_mesh(ORIGIN, &chunks, &lights, &b.registry)
}

struct Fields {
    x: u32,
    y: u32,
    z: u32,
    model_vertex: u32,
    ao: u32,
    sky: u32,
    block: u32,
    transparent: bool,
}

fn fields(vertex: &MeshVertex) -> Fields {
    let word = vertex.data;
    Fields {
        x: word & 31,
        y: (word >> 5) & 31,
        z: (word >> 10) & 31,
        model_vertex: (word >> 15) & 63,
        ao: (word >> 21) & 3,
        sky: (word >> 23) & 15,
        block: (word >> 27) & 15,
        transparent: (word >> 31) & 1 == 1,
    }
}

#[test]
fn mesh_vertices_give_their_fields_back() {
    let vertex = MeshVertex::new((31, 0, 17), 47, 2, (15, 9), true, 1234);
    assert_eq!(vertex.position(), (31, 0, 17));
    assert_eq!(vertex.model_vertex(), 47);
    assert_eq!(vertex.ao(), 2);
    assert_eq!(vertex.light(), (15, 9));
    assert!(vertex.is_transparent());
    assert_eq!(vertex.texture_index, 1234);
    assert_eq!(
        vertex.data,
        31 | (17 << 10) | (47 << 15) | (2 << 21) | (15 << 23) | (9 << 27) | (1 << 31)
    );
    let f = fields(&vertex);
    assert_eq!((f.x, f.y, f.z, f.model_vertex, f.ao, f.sky, f.block), (31, 0, 17, 47, 2, 15, 9));
    let plain = MeshVertex::new((1, 2, 3), 0, 3, (0, 0), false, 0);
    assert_eq!(plain.data, 1 | (2 << 5) | (3 << 10) | (3 << 21));
    assert!(!plain.is_transparent());
    assert_eq!(plain.position(), (1, 2, 3));
}

#[test]
fn an_air_chunk_has_no_mesh() {
    let b = blocks();
    assert!(mesh_of(&b, &[]).is_none());
    let lights = RelevantLights::new(ORIGIN, Arc::new(LightDataInner::new()));
    assert!(generate_mesh(ORIGIN, &RelevantChunks::new(), &lights, &b.registry).is_none());
}

#[test]
fn a_single_block_has_six_faces() {
    let b = blocks();
    let mesh = mesh_of(&b, &[((0, 0, 0), b.rock)]).unwrap();
    assert_eq!(mesh.vertices.len(), 24);
    assert_eq!(mesh.indices.len(), 36);
    for (i, vertex) in mesh.vertices.iter().enumerate() {
        let f = fields(vertex);
        assert_eq!((f.x, f.y, f.z), (0, 0, 0));
        assert_eq!(f.model_vertex, i as u32);
        assert_eq!(f.ao, 3);
        assert_eq!((f.sky, f.block), (0, 0));
        assert!(!f.transparent);
        assert_eq!(vertex.texture_index, 3);
    }
    // Two triangles for each face, over the face's four vertices.
    for face in 0..6u32 {
        let first = face * 4;
        assert_eq!(
            mesh.indices[(face * 6) as usize..(face * 6 + 6) as usize],
            [first, first + 1, first + 2, first + 2, first + 3, first]
        );
    }
}

#[test]
fn a_block_is_drawn_where_it_stands() {
    let b = blocks();
    let mesh = mesh_of(&b, &[((31, 7, 19), b.rock)]).unwrap();
    assert_eq!(mesh.vertices.len(), 24);
    for vertex in &mesh.vertices {
        let f = fields(vertex);
        assert_eq!((f.x, f.y, f.z), (31, 7, 19));
    }
}

#[test]
fn the_face_between_two_blocks_is_hidden_on_both() {
    let b = blocks();
    let mesh = mesh_of(&b, &[((4, 4, 4), b.rock), ((5, 4, 4), b.rock)]).unwrap();
    assert_eq!(mesh.vertices.len(), 40);
    assert_eq!(mesh.indices.len(), 60);
    // The first block has no right face (model vertices 12..16), the second
    // no left face (8..12).
    let first: Vec<u32> = mesh.vertices[..20].iter().map(|v| fields(v).model_vertex).collect();
    let second: Vec<u32> = mesh.vertices[20..].iter().map(|v| fields(v).model_vertex).collect();
    assert_eq!(first, [0, 1, 2, 3, 4, 5, 6, 7, 8, 9, 10, 11, 16, 17, 18, 19, 20, 21, 22, 23]);
    assert_eq!(second, [0, 1, 2, 3, 4, 5, 6, 7, 12, 13, 14, 15, 16, 17, 18, 19, 20, 21, 22, 23]);
    assert!(mesh.vertices[..20].iter().all(|v| fields(v).x == 4));
    assert!(mesh.vertices[20..].iter().all(|v| fields(v).x == 5));
}

#[test]
fn a_block_that_is_closed_in_is_not_drawn() {
    let b = blocks();
    let mut cells = Vec::new();
    for x in 0..3 {
        for y in 0..3 {
            for z in 0..3 {
                cells.push(((x + 10, y + 10, z + 10), b.rock));
            }
        }
    }
    let mesh = mesh_of(&b, &cells).unwrap();
    // 9 faces on each of the 6 sides of the cube of 27 blocks.
    assert_eq!(mesh.vertices.len(), 54 * 4);
    assert_eq!(mesh.indices.len(), 54 * 6);
    assert!(mesh.vertices.iter().all(|v| {
        let f = fields(v);
        (f.x, f.y, f.z) != (11, 11, 11)
    }));
    assert!(mesh.indices.iter().all(|i| (*i as usize) < mesh.vertices.len()));
}

#[test]
fn a_chunk_that_is_full_and_closed_in_has_no_mesh() {
    let b = blocks();
    let full = Arc::new(ChunkDataInner::from_data(vec![Some(b.rock); 32768]));
    let mut chunks = RelevantChunks::new();
    for x in -1..=1 {
        for y in -1..=1 {
            for z in -1..=1 {
                chunks.insert(IVec3::new(x, y, z), full.clone());
            }
        }
    }
    let lights = RelevantLights::new(ORIGIN, Arc::new(LightDataInner::new()));
    assert!(generate_mesh(ORIGIN, &chunks, &lights, &b.registry).is_none());
}

#[test]
fn blocks_of_neighbor_chunks_hide_faces_and_shade_corners() {
    let b = blocks();
    let mut chunks = RelevantChunks::new();
    chunks.insert(ORIGIN, chunk_of(&[((0, 0, 0), b.rock)]));
    chunks.insert(IVec3::new(-1, 0, 0), chunk_of(&[((31, 0, 0), b.rock), ((31, 1, 0), b.rock)]));
    let lights = RelevantLights::new(ORIGIN, Arc::new(LightDataInner::new()));
    let mesh = generate_mesh(ORIGIN, &chunks, &lights, &b.registry).unwrap();
    // The left face is hidden.
    assert_eq!(mesh.vertices.len(), 20);
    let drawn: Vec<u32> = mesh.vertices.iter().map(|v| fields(v).model_vertex).collect();
    assert!(!drawn.iter().any(|v| (8..12).contains(v)));
    // The block at (-1, 1, 0) lies at an edge of the top face: the two
    // corners of the top face on the left are shaded by one step.
    let top: Vec<u32> = mesh
        .vertices
        .iter()
        .filter(|v| (16..20).contains(&fields(v).model_vertex))
        .map(|v| fields(v).ao)
        .collect();
    assert_eq!(top, [3, 3, 2, 2]);
}

#[test]
fn vertices_carry_the_light_of_the_cell_that_the_face_looks_at() {
    let b = blocks();
    let mut chunks = RelevantChunks::new();
    chunks.insert(ORIGIN, chunk_of(&[((5, 5, 5), b.rock), ((0, 9, 9), b.rock)]));
    let mut center = LightDataInner::new();
    center.set_sky_light(USizeVec3::new(5, 6, 5), 15);
    center.set_block_light(USizeVec3::new(5, 6, 5), 2);
    center.set_block_light(USizeVec3::new(6, 5, 5), 9);
    // The block's own cell does not count.
    center.set_sky_light(USizeVec3::new(5, 5, 5), 7);
    let mut west = LightDataInner::new();
    west.set_sky_light(USizeVec3::new(31, 9, 9), 11);
    let mut lights = RelevantLights::new(ORIGIN, Arc::new(center));
    lights.add_neighbor(IVec3::new(-1, 0, 0), Arc::new(west));
    let mesh = generate_mesh(ORIGIN, &chunks, &lights, &b.registry).unwrap();
    for vertex in &mesh.vertices {
        let f = fields(vertex);
        let expected = match ((f.x, f.y, f.z), f.model_vertex / 4) {
            ((5, 5, 5), 4) => (15, 2),
            ((5, 5, 5), 3) => (0, 9),
            ((0, 9, 9), 2) => (11, 0),
            _ => (0, 0),
        };
        assert_eq!((f.sky, f.block), expected);
    }
}

#[test]
fn glass_is_drawn_from_both_sides() {
    let b = blocks();
    let mesh = mesh_of(&b, &[((1, 1, 1), b.glass)]).unwrap();
    assert_eq!(mesh.vertices.len(), 24);
    assert_eq!(mesh.indices.len(), 72);
    assert!(mesh.vertices.iter().all(|v| fields(v).transparent && v.texture_index == 5));
    assert_eq!(mesh.indices[..12], [0, 1, 2, 2, 3, 0, 2, 1, 0, 0, 3, 2]);
}

#[test]
fn glass_and_rock_do_not_hide_each_other() {
    let b = blocks();
    let mesh = mesh_of(&b, &[((1, 1, 1), b.glass), ((2, 1, 1), b.rock)]).unwrap();
    assert_eq!(mesh.vertices.len(), 48);
    assert_eq!(mesh.indices.len(), 72 + 36);
    // Glass does not shade corners either.
    assert!(mesh.vertices.iter().filter(|v| !fields(v).transparent).all(|v| fields(v).ao == 3));
}

#[test]
fn glass_does_not_hide_glass() {
    let b = blocks();
    // Glass is not solid, so the two faces between two panes are both drawn.
    let mesh = mesh_of(&b, &[((1, 1, 1), b.glass), ((2, 1, 1), b.glass)]).unwrap();
    assert_eq!(mesh.vertices.len(), 48);
    assert_eq!(mesh.indices.len(), 144);
}

#[test]
fn a_slab_hides_only_what_it_covers() {
    let b = blocks();
    // A slab under a block: the slab's top is never hidden, and it does not
    // hide the bottom of the block above.
    let mesh = mesh_of(&b, &[((3, 3, 3), b.slab), ((3, 4, 3), b.rock)]).unwrap();
    assert_eq!(mesh.vertices.len(), 48);
    // A slab beside a block: the block covers the slab's side, but the slab
    // covers only half of the block's side.
    let mesh = mesh_of(&b, &[((3, 3, 3), b.slab), ((4, 3, 3), b.rock)]).unwrap();
    assert_eq!(mesh.vertices.len(), 44);
    let slab: Vec<u32> = mesh
        .vertices
        .iter()
        .filter(|v| fields(v).x == 3)
        .map(|v| fields(v).model_vertex)
        .collect();
    // The slab's vertices come after the cube's in the model table; its right
    // face (vertices 36..40) is hidden.
    assert_eq!(
        slab,
        [24, 25, 26, 27, 28, 29, 30, 31, 32, 33, 34, 35, 40, 41, 42, 43, 44, 45, 46, 47]
    );
    assert!(mesh.vertices.iter().filter(|v| fields(v).x == 3).all(|v| v.texture_index == 4));
    // A block on a slab's bottom side is hidden by the slab, and hides it.
    let mesh = mesh_of(&b, &[((3, 3, 3), b.slab), ((3, 2, 3), b.rock)]).unwrap();
    assert_eq!(mesh.vertices.len(), 40);
    // Slabs do not shade corners, but rock shades those of a slab.
    let mesh = mesh_of(&b, &[((3, 3, 3), b.rock), ((4, 4, 3), b.slab)]).unwrap();
    assert!(mesh.vertices.iter().filter(|v| fields(v).x == 3).all(|v| fields(v).ao == 3));
    let bottom: Vec<u32> = mesh
        .vertices
        .iter()
        .filter(|v| fields(v).x == 4 && fields(v).model_vertex >= 44)
        .map(|v| fields(v).ao)
        .collect();
    assert_eq!(bottom, [3, 3, 2, 2]);
}

#[test]
fn blocks_of_an_unknown_type_are_not_drawn() {
    let b = blocks();
    let unknown = Block::new(BlockId(77), PackedData(0));
    assert!(mesh_of(&b, &[((1, 1, 1), unknown)]).is_none());
    let mesh = mesh_of(&b, &[((1, 1, 1), unknown), ((2, 1, 1), b.rock)]).unwrap();
    assert_eq!(mesh.vertices.len(), 24);
}

#[test]
fn corners_are_shaded_by_the_blocks_around_them() {
    let b = blocks();
    // One block on the ground plane beside the block, in front of it.
    let mesh = mesh_of(&b, &[((5, 5, 5), b.rock), ((5, 6, 6), b.rock)]).unwrap();
    let ao_of = |x: u32, y: u32, face: u32| -> Vec<u32> {
        mesh.vertices
            .iter()
            .filter(|v| {
                let f = fields(v);
                (f.x, f.y) == (x, y) && f.model_vertex / 4 == face
            })
            .map(|v| fields(v).ao)
            .collect()
    };
    // Top face of the lower block: the block above and in front lies at the
    // front edge, so both front corners lose one step.
    assert_eq!(ao_of(5, 5, 4), [2, 3, 3, 2]);
    // Front face of the lower block: the same block lies at its top edge.
    assert_eq!(ao_of(5, 5, 0), [2, 2, 3, 3]);
    // Its right face is not touched.
    assert_eq!(ao_of(5, 5, 3), [3, 3, 3, 3]);
    // The upper block is shaded by the lower one in the same way.
    assert_eq!(ao_of(5, 6, 5), [2, 3, 3, 2]);
    assert_eq!(ao_of(5, 6, 1), [3, 3, 2, 2]);
}

#[test]
fn the_quad_is_split_along_the_brighter_diagonal() {
    let b = blocks();
    // A block diagonally above darkens corner 0 of the top face only.
    let mesh = mesh_of(&b, &[((5, 5, 5), b.rock), ((6, 6, 6), b.rock)]).unwrap();
    let top: Vec<(usize, u32)> = mesh
        .vertices
        .iter()
        .enumerate()
        .filter(|(_, v)| {
            let f = fields(v);
            (f.x, f.y, f.z) == (5, 5, 5) && f.model_vertex / 4 == 4
        })
        .map(|(i, v)| (i, fields(v).ao))
        .collect();
    assert_eq!(top.iter().map(|(_, ao)| *ao).collect::<Vec<_>>(), [2, 3, 3, 3]);
    let first = top[0].0 as u32;
    let at = mesh.indices.iter().position(|i| *i >= first && *i < first + 4).unwrap();
    assert_eq!(
        mesh.indices[at..at + 6],
        [first + 1, first + 2, first + 3, first + 3, first, first + 1]
    );
    // Corner 1 alone: the other diagonal.
    let mesh = mesh_of(&b, &[((5, 5, 5), b.rock), ((6, 6, 4), b.rock)]).unwrap();
    let first = mesh
        .vertices
        .iter()
        .position(|v| {
            let f = fields(v);
            (f.x, f.y, f.z) == (5, 5, 5) && f.model_vertex == 16
        })
        .unwrap() as u32;
    let at = mesh.indices.iter().position(|i| *i >= first && *i < first + 4).unwrap();
    assert_eq!(
        mesh.indices[at..at + 6],
        [first, first + 1, first + 2, first + 2, first + 3, first]
    );
}

#[test]
fn the_mesh_is_the_same_when_it_is_built_again() {
    let b = blocks();
    let cells = [((0, 0, 0), b.rock), ((1, 0, 0), b.glass), ((1, 1, 0), b.slab), ((9, 9, 9), b.rock)];
    let first = mesh_of(&b, &cells).unwrap();
    let second = mesh_of(&b, &cells).unwrap();
    assert_eq!(first.vertices, second.vertices);
    assert_eq!(first.indices, second.indices);
}

#[test]
fn ambient_occlusion_values() {
    assert_eq!(calculate_ao(false, false, false), 3);
    assert_eq!(calculate_ao(true, false, false), 2);
    assert_eq!(calculate_ao(false, true, false), 2);
    assert_eq!(calculate_ao(false, false, true), 2);
    assert_eq!(calculate_ao(true, false, true), 1);
    assert_eq!(calculate_ao(false, true, true), 1);
    // Two occluding edges give the darkest value, with or without the corner.
    assert_eq!(calculate_ao(true, true, false), 0);
    assert_eq!(calculate_ao(true, true, true), 0);
}

#[test]
fn a_corner_between_two_occluding_edges_is_darkest() {
    let b = blocks();
    // Above the block, one block at the front edge and one at the right edge
    // of its top face; the cell at the corner between them is empty.
    let cells = [((5, 5, 5), b.rock), ((5, 6, 6), b.rock), ((6, 6, 5), b.rock)];
    let mesh = mesh_of(&b, &cells).unwrap();
    let top: Vec<u32> = mesh
        .vertices
        .iter()
        .filter(|v| {
            let f = fields(v);
            (f.x, f.y, f.z) == (5, 5, 5) && f.model_vertex / 4 == 4
        })
        .map(|v| fields(v).ao)
        .collect();
    assert_eq!(top, [0, 2, 3, 2]);
    // With the corner cell filled too the value stays the same.
    let cells =
        [((5, 5, 5), b.rock), ((5, 6, 6), b.rock), ((6, 6, 5), b.rock), ((6, 6, 6), b.rock)];
    let mesh = mesh_of(&b, &cells).unwrap();
    let top: Vec<u32> = mesh
        .vertices
        .iter()
        .filter(|v| {
            let f = fields(v);
            (f.x, f.y, f.z) == (5, 5, 5) && f.model_vertex / 4 == 4
        })
        .map(|v| fields(v).ao)
        .collect();
    assert_eq!(top, [0, 2, 3, 2]);
}

#[test]
fn corner_vertices_pack_position_texture_coordinates_and_shade() {
    let vertex = ChunkVertex::new([32, 1, 17], [1, 0], [0, 0, 1], 2);
    assert_eq!(vertex.data, (32 << 26) | (1 << 20) | (17 << 14) | (1 << 13) | (2 << 10));
    assert_eq!(vertex.data >> 26, 32);
    assert_eq!((vertex.data >> 20) & 63, 1);
    assert_eq!((vertex.data >> 14) & 63, 17);
    assert_eq!((vertex.data >> 13) & 1, 1);
    assert_eq!((vertex.data >> 12) & 1, 0);
    assert_eq!((vertex.data >> 10) & 3, 2);
    assert_eq!(ChunkVertex::new([0, 0, 0], [0, 0], [0, -1, 0], 0).data, 0);
    assert_eq!(Vertex::new([32, 1, 17], [1, 0], [0, 0, 1], 2).data, vertex.data);
    assert_eq!(Vertex::new([1, 2, 3], [0, 1], [1, 0, 0], 3).data, 0x0420_dc00);
}

#[test]
fn builders_number_vertices_and_give_nothing_without_a_triangle() {
    let mut builder = ChunkMeshBuilder::new();
    assert_eq!(builder.index(), 0);
    builder.vertices.push(ChunkVertex::new([0, 0, 0], [0, 0], [0, 0, 1], 3));
    builder.vertices.push(ChunkVertex::new([1, 0, 0], [1, 0], [0, 0, 1], 3));
    assert_eq!(builder.index(), 2);
    assert!(builder.build().is_none());

    let mut builder = ChunkMeshBuilder::new();
    builder.vertices.push(ChunkVertex::new([0, 0, 0], [0, 0], [0, 0, 1], 3));
    builder.vertices.push(ChunkVertex::new([1, 0, 0], [1, 0], [0, 0, 1], 3));
    builder.vertices.push(ChunkVertex::new([1, 1, 0], [1, 1], [0, 0, 1], 3));
    builder.indices.extend_from_slice(&[0, 1, 2]);
    let (vertices, indices) = builder.build().unwrap();
    assert_eq!(vertices.len(), 3);
    assert_eq!(indices, [0, 1, 2]);

    let mut builder = VoxelMeshBuilder::new();
    assert_eq!(builder.index(), 0);
    assert!(VoxelMeshBuilder::new().build().is_none());
    builder.vertices.push(Vertex::new([0, 0, 0], [0, 0], [0, 0, 1], 3));
    assert_eq!(builder.index(), 1);
    builder.indices.push(0);
    let (vertices, indices) = builder.build().unwrap();
    assert_eq!((vertices.len(), indices.len()), (1, 1));
}
