//! Streaming core of a voxel world: chunk storage, persistence encoding,
//! light propagation, mesh construction and the scheduler that ties them
//! together.

pub mod block;
pub mod block_data;
pub mod blocks;
pub mod chunk_data;
pub mod chunk_mesh;
pub mod coords;
pub mod light;
pub mod material;
pub mod materials;
pub mod ordered_set;
pub mod packed_data;
pub mod pos_map;
pub mod region;
pub mod registry;
pub mod relevant_chunks;
pub mod schedule;
mod shared;
pub mod voxel_mesh;
pub mod world;
pub mod world_generator;

pub use block::{Block, BlockFace, BlockId, FaceRect};
pub use block_data::{BlockData, RockData, RockType, SoilData, WoodLogData};
pub use blocks::{
    BlockKind, Cube, Glass, Glowstone, ModelKind, Rock, RockSlab, Slab, Soil, Wood,
};
pub use chunk_data::{
    ChunkData, ChunkDataError, ChunkDataInner, LightData, LightDataInner, MAX_LIGHT,
};
pub use chunk_mesh::{
    calculate_ao, generate_mesh, ChunkMeshBuilder, ChunkVertex, Mesh, MeshVertex,
};
pub use coords::{IVec3, USizeVec3, CHUNK_SIZE, CHUNK_VOLUME, REGION_SIZE};
pub use light::{
    border_block_light_changed, compute_light, propagate_block_light, propagate_skylight,
    RelevantLights,
};
pub use material::{Material, MaterialKind};
pub use materials::{Loam, LushGrass, Oak, Shale};
pub use packed_data::{PackedData, PackedDataDecoder, PackedDataEncoder};
pub use pos_map::{PosMap, PosSet};
pub use region::{CompressedChunk, PaletteBuilder, Region, RegionError, RegionManager};
pub use registry::{BlockTextureKey, Registry};
pub use relevant_chunks::RelevantChunks;
pub use voxel_mesh::{Vertex, VoxelMeshBuilder};
pub use world::{
    get_face_neighbors, get_neighbors, Chunk, GenerationResult, LightStatus, MeshStatus,
    MeshUpdate, World,
};
pub use world_generator::{Column, WorldGenerator};
