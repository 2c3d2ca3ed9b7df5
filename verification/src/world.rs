use std::sync::Arc;
use vstd::prelude::*;

use crate::block::Block;
use crate::chunk_data::{ChunkData, ChunkDataError, LightData, LightDataInner};
use crate::chunk_mesh::Mesh;
use crate::chunk_data::PALETTE_CAPACITY;
use crate::coords::{
    cell_index, chunk_pos_of, local_pos_of, spec_chunk_pos, spec_local_pos, IVec3, USizeVec3,
};
use crate::pos_map::{
    lemma_place_of, lemma_push_fresh, lemma_swap_removed, place_of, PosMap, PosSet,
};
use crate::coords::CHUNK_VOLUME;
use crate::light::{border_block_light_changed, on_chunk_face, RelevantLights};
use crate::relevant_chunks::RelevantChunks;
use crate::schedule::{is_pick, key_less, pick_first, ranks_before, SortKey};
use crate::shared::{arc_clone, arc_make_mut};

verus! {

/// Whether the light of a chunk is up to date.
#[derive(Debug, Clone, Copy, PartialEq, Eq, Structural)]
pub enum LightStatus {
    /// Light needs to be (re)computed.
    Pending,
    /// Light has been computed and is up to date.
    Complete,
}

/// Whether the mesh of a chunk is up to date, and how soon it is needed.
#[derive(Debug, Clone, Copy, PartialEq, Eq, PartialOrd, Ord, Hash, Structural)]
pub enum MeshStatus {
    /// The chunk already has a mesh and hasn't been modified.
    Complete,
    /// The chunk should be meshed based on distance from the player.
    Queued,
    /// The chunk should be remeshed first.
    Urgent,
}

/// One loaded chunk: its blocks, its light, the state of both, and the
/// handle under which the renderer knows it.
pub struct Chunk {
    pub data: ChunkData,
    pub light: LightData,
    pub light_status: LightStatus,
    pub mesh_status: MeshStatus,
    pub entity: u64,
}

/// Most tasks of one kind that run at the same time.
pub const MAX_TASKS: usize = 16;

/// Seconds that pass between two saves at least.
pub const SAVE_INTERVAL: u64 = 3;

/// `b` is one of the 26 chunks around `a`.
pub open spec fn is_neighbor(a: IVec3, b: IVec3) -> bool {
    &&& a != b
    &&& -1 <= b.x - a.x <= 1
    &&& -1 <= b.y - a.y <= 1
    &&& -1 <= b.z - a.z <= 1
}

/// `b` is one of the 6 chunks that share a face with `a`.
pub open spec fn is_face_neighbor(a: IVec3, b: IVec3) -> bool {
    ||| (b.y == a.y && b.z == a.z && (b.x - a.x == 1 || b.x - a.x == -1))
    ||| (b.x == a.x && b.z == a.z && (b.y - a.y == 1 || b.y - a.y == -1))
    ||| (b.x == a.x && b.y == a.y && (b.z - a.z == 1 || b.z - a.z == -1))
}

/// The step from a chunk to the neighbor at place `k` of the walk over the
/// 27 chunks of its neighborhood, in which `x` changes slowest and `z`
/// fastest.
pub open spec fn neighborhood_step(k: int) -> (int, int, int) {
    (k / 9 - 1, (k / 3) % 3 - 1, k % 3 - 1)
}

/// The chunks around `chunk_pos` that the first `steps` steps of the walk
/// over its neighborhood come by: all but the chunk itself and positions
/// that cannot be written down.
pub open spec fn neighbors_upto(chunk_pos: IVec3, steps: int) -> Seq<IVec3>
    decreases steps,
{
    if steps <= 0 {
        Seq::empty()
    } else {
        let before = neighbors_upto(chunk_pos, steps - 1);
        let step = neighborhood_step(steps - 1);
        match chunk_pos.spec_offset(step.0, step.1, step.2) {
            Some(pos) => if pos == chunk_pos {
                before
            } else {
                before.push(pos)
            },
            None => before,
        }
    }
}

/// The step from a chunk to the neighbor across the face at place `k`:
/// `+x`, `-x`, `+y`, `-y`, `+z`, `-z`.
pub open spec fn face_step(k: int) -> (int, int, int) {
    if k == 0 {
        (1, 0, 0)
    } else if k == 1 {
        (-1, 0, 0)
    } else if k == 2 {
        (0, 1, 0)
    } else if k == 3 {
        (0, -1, 0)
    } else if k == 4 {
        (0, 0, 1)
    } else {
        (0, 0, -1)
    }
}

/// The chunks across the first `steps` faces of `chunk_pos` whose positions
/// can be written down.
pub open spec fn face_neighbors_upto(chunk_pos: IVec3, steps: int) -> Seq<IVec3>
    decreases steps,
{
    if steps <= 0 {
        Seq::empty()
    } else {
        let before = face_neighbors_upto(chunk_pos, steps - 1);
        let step = face_step(steps - 1);
        match chunk_pos.spec_offset(step.0, step.1, step.2) {
            Some(pos) => before.push(pos),
            None => before,
        }
    }
}

/// Place of a neighbor in the walk over the neighborhood.
pub open spec fn neighborhood_place(chunk_pos: IVec3, p: IVec3) -> int {
    (p.x - chunk_pos.x + 1) * 9 + (p.y - chunk_pos.y + 1) * 3 + (p.z - chunk_pos.z + 1)
}

/// Place of a face neighbor in the walk over the six faces.
pub open spec fn face_place(chunk_pos: IVec3, p: IVec3) -> int {
    if p.x - chunk_pos.x == 1 {
        0
    } else if p.x - chunk_pos.x == -1 {
        1
    } else if p.y - chunk_pos.y == 1 {
        2
    } else if p.y - chunk_pos.y == -1 {
        3
    } else if p.z - chunk_pos.z == 1 {
        4
    } else {
        5
    }
}

/// The walk over the neighborhood comes by every neighbor once, at the
/// neighbor's place.
pub proof fn lemma_neighbors_upto(chunk_pos: IVec3, steps: int)
    requires
        0 <= steps <= 27,
    ensures
        neighbors_upto(chunk_pos, steps).no_duplicates(),
        neighbors_upto(chunk_pos, steps).len() <= steps,
        steps > 13 ==> neighbors_upto(chunk_pos, steps).len() < steps,
        forall|p: IVec3| #[trigger]
            neighbors_upto(chunk_pos, steps).contains(p) <==> (is_neighbor(chunk_pos, p)
                && neighborhood_place(chunk_pos, p) < steps),
    decreases steps,
{
    if steps > 0 {
        lemma_neighbors_upto(chunk_pos, steps - 1);
        let before = neighbors_upto(chunk_pos, steps - 1);
        let step = neighborhood_step(steps - 1);
        match chunk_pos.spec_offset(step.0, step.1, step.2) {
            Some(pos) => {
                if pos != chunk_pos {
                    assert(neighborhood_place(chunk_pos, pos) == steps - 1);
                    lemma_push_fresh(before, pos);
                }
            },
            None => {},
        }
        assert forall|p: IVec3| #[trigger]
            neighbors_upto(chunk_pos, steps).contains(p) <==> (is_neighbor(chunk_pos, p)
                && neighborhood_place(chunk_pos, p) < steps) by {
            if is_neighbor(chunk_pos, p) && neighborhood_place(chunk_pos, p) == steps - 1 {
                assert(chunk_pos.spec_offset(step.0, step.1, step.2) == Some(p));
            }
        }
    }
}

/// The walk over the six faces comes by every face neighbor once, at the
/// neighbor's place.
pub proof fn lemma_face_neighbors_upto(chunk_pos: IVec3, steps: int)
    requires
        0 <= steps <= 6,
    ensures
        face_neighbors_upto(chunk_pos, steps).no_duplicates(),
        face_neighbors_upto(chunk_pos, steps).len() <= steps,
        forall|p: IVec3| #[trigger]
            face_neighbors_upto(chunk_pos, steps).contains(p) <==> (is_face_neighbor(chunk_pos, p)
                && face_place(chunk_pos, p) < steps),
    decreases steps,
{
    if steps > 0 {
        lemma_face_neighbors_upto(chunk_pos, steps - 1);
        let before = face_neighbors_upto(chunk_pos, steps - 1);
        let step = face_step(steps - 1);
        match chunk_pos.spec_offset(step.0, step.1, step.2) {
            Some(pos) => {
                assert(face_place(chunk_pos, pos) == steps - 1);
                lemma_push_fresh(before, pos);
            },
            None => {},
        }
        assert forall|p: IVec3| #[trigger]
            face_neighbors_upto(chunk_pos, steps).contains(p) <==> (is_face_neighbor(chunk_pos, p)
                && face_place(chunk_pos, p) < steps) by {
            if is_face_neighbor(chunk_pos, p) && face_place(chunk_pos, p) == steps - 1 {
                assert(chunk_pos.spec_offset(step.0, step.1, step.2) == Some(p));
            }
        }
    }
}

/// The chunks around `chunk_pos` whose positions can be written down, in
/// the order of the walk over its neighborhood.
pub fn get_neighbors(chunk_pos: IVec3) -> (neighbors: Vec<IVec3>)
    ensures
        neighbors@ == neighbors_upto(chunk_pos, 27),
        neighbors@.no_duplicates(),
        neighbors@.len() <= 26,
        forall|p: IVec3| #[trigger] neighbors@.contains(p) <==> is_neighbor(chunk_pos, p),
{
    let mut neighbors: Vec<IVec3> = Vec::new();
    let mut k: i32 = 0;
    while k < 27
        invariant
            0 <= k <= 27,
            neighbors@ == neighbors_upto(chunk_pos, k as int),
        decreases 27 - k,
    {
        let dx = k / 9 - 1;
        let dy = (k / 3) % 3 - 1;
        let dz = k % 3 - 1;
        if !(dx == 0 && dy == 0 && dz == 0) {
            match chunk_pos.offset(dx, dy, dz) {
                Some(pos) => {
                    neighbors.push(pos);
                },
                None => {},
            }
        }
        k += 1;
    }
    proof {
        lemma_neighbors_upto(chunk_pos, 27);
    }
    neighbors
}

/// The chunks that share a face with `chunk_pos` and whose positions can
/// be written down: `+x`, `-x`, `+y`, `-y`, `+z`, `-z`.
pub fn get_face_neighbors(chunk_pos: IVec3) -> (neighbors: Vec<IVec3>)
    ensures
        neighbors@ == face_neighbors_upto(chunk_pos, 6),
        neighbors@.no_duplicates(),
        neighbors@.len() <= 6,
        forall|p: IVec3| #[trigger] neighbors@.contains(p) <==> is_face_neighbor(chunk_pos, p),
{
    let mut neighbors: Vec<IVec3> = Vec::new();
    let mut k: i32 = 0;
    while k < 6
        invariant
            0 <= k <= 6,
            neighbors@ == face_neighbors_upto(chunk_pos, k as int),
        decreases 6 - k,
    {
        let step: (i32, i32, i32) = if k == 0 {
            (1, 0, 0)
        } else if k == 1 {
            (-1, 0, 0)
        } else if k == 2 {
            (0, 1, 0)
        } else if k == 3 {
            (0, -1, 0)
        } else if k == 4 {
            (0, 0, 1)
        } else {
            (0, 0, -1)
        };
        match chunk_pos.offset(step.0, step.1, step.2) {
            Some(pos) => {
                neighbors.push(pos);
            },
            None => {},
        }
        k += 1;
    }
    proof {
        lemma_face_neighbors_upto(chunk_pos, 6);
    }
    neighbors
}

/// A chunk after its light was invalidated: the light is pending, and the
/// mesh is queued unless it is urgent already.
pub open spec fn invalidated(chunk: Chunk) -> Chunk {
    Chunk {
        data: chunk.data,
        light: chunk.light,
        light_status: LightStatus::Pending,
        mesh_status: if chunk.mesh_status == MeshStatus::Urgent {
            MeshStatus::Urgent
        } else {
            MeshStatus::Queued
        },
        entity: chunk.entity,
    }
}

/// A chunk whose mesh is needed: queued unless it is urgent already.
pub open spec fn requeued(chunk: Chunk) -> Chunk {
    Chunk {
        data: chunk.data,
        light: chunk.light,
        light_status: chunk.light_status,
        mesh_status: if chunk.mesh_status == MeshStatus::Urgent {
            MeshStatus::Urgent
        } else {
            MeshStatus::Queued
        },
        entity: chunk.entity,
    }
}

/// The loaded chunks around a center, and the work that is under way for
/// them.
pub struct World {
    center_pos: IVec3,
    generation_radius: i32,
    generation_tasks: PosSet,
    light_tasks: PosSet,
    mesh_tasks: PosSet,
    pending_mesh_results: PosMap<Option<Mesh>>,
    chunks: PosMap<Chunk>,
    chunks_to_save: PosMap<ChunkData>,
    last_save_time: u64,
}

impl World {
    /// The chunk at the center of the streaming window.
    pub closed spec fn center(&self) -> IVec3 {
        self.center_pos
    }

    /// Radius of the streaming window, in chunks.
    pub closed spec fn radius(&self) -> i32 {
        self.generation_radius
    }

    /// Time of the last save, in seconds.
    pub closed spec fn last_save_time(&self) -> u64 {
        self.last_save_time
    }

    /// The positions of the loaded chunks, in table order.
    pub closed spec fn loaded(&self) -> Seq<IVec3> {
        self.chunks.keys()
    }

    /// The record of the chunk at `chunk_pos`, if it is loaded.
    pub closed spec fn chunk(&self, chunk_pos: IVec3) -> Option<Chunk> {
        self.chunks.spec_get(chunk_pos)
    }

    /// The positions for which a generation task is under way.
    pub closed spec fn generation_tasks(&self) -> Seq<IVec3> {
        self.generation_tasks@
    }

    /// The positions for which a light task is under way.
    pub closed spec fn light_tasks(&self) -> Seq<IVec3> {
        self.light_tasks@
    }

    /// The positions for which a mesh task is under way.
    pub closed spec fn mesh_tasks(&self) -> Seq<IVec3> {
        self.mesh_tasks@
    }

    /// The mesh result that is held back for the chunk at `chunk_pos`.
    pub closed spec fn pending(&self, chunk_pos: IVec3) -> Option<Option<Mesh>> {
        self.pending_mesh_results.spec_get(chunk_pos)
    }

    /// The positions for which a mesh result is held back, in the order in
    /// which the results came.
    pub closed spec fn pending_positions(&self) -> Seq<IVec3> {
        self.pending_mesh_results.keys()
    }

    /// The data of the chunk at `chunk_pos` that waits for the next save.
    pub closed spec fn dirty(&self, chunk_pos: IVec3) -> Option<ChunkData> {
        self.chunks_to_save.spec_get(chunk_pos)
    }

    /// The positions of the chunks that wait for the next save.
    pub closed spec fn dirty_positions(&self) -> Seq<IVec3> {
        self.chunks_to_save.keys()
    }

    /// The tables are consistent: light and mesh tasks run for loaded chunks
    /// only, generation tasks for chunks that are not loaded, and all chunk
    /// and light data is well-formed.
    pub closed spec fn wf(&self) -> bool {
        &&& self.chunks.wf()
        &&& self.generation_tasks.wf()
        &&& self.light_tasks.wf()
        &&& self.mesh_tasks.wf()
        &&& self.pending_mesh_results.wf()
        &&& self.chunks_to_save.wf()
        &&& forall|i: int|
            0 <= i < self.chunks.values().len() ==> (#[trigger] self.chunks.values()[i]).data.wf()
                && self.chunks.values()[i].light.wf()
        &&& forall|i: int|
            0 <= i < self.chunks_to_save.values().len() ==> (
            #[trigger] self.chunks_to_save.values()[i]).wf()
        &&& forall|p: IVec3| #[trigger] self.light_tasks@.contains(p) ==> self.chunks.keys().contains(p)
        &&& forall|p: IVec3| #[trigger] self.mesh_tasks@.contains(p) ==> self.chunks.keys().contains(p)
        &&& forall|p: IVec3| #[trigger]
            self.generation_tasks@.contains(p) ==> !self.chunks.keys().contains(p)
        &&& self.generation_tasks@.len() <= MAX_TASKS
        &&& self.light_tasks@.len() <= MAX_TASKS
        &&& self.mesh_tasks@.len() <= MAX_TASKS
    }

    /// The chunk at `chunk_pos` is loaded.
    pub open spec fn is_loaded(&self, chunk_pos: IVec3) -> bool {
        self.chunk(chunk_pos) is Some
    }

    /// The chunk at `chunk_pos` lies in the streaming window: within the
    /// radius of the center in the horizontal plane, and within the radius
    /// above or below it.
    pub open spec fn spec_is_visible_chunk(&self, chunk_pos: IVec3) -> bool {
        let dx = chunk_pos.x - self.center().x;
        let dy = chunk_pos.y - self.center().y;
        let dz = chunk_pos.z - self.center().z;
        &&& self.radius() >= 0
        &&& dx * dx + dz * dz <= self.radius() * self.radius()
        &&& -self.radius() <= dy <= self.radius()
    }

    /// The block at a cell of the world grid; `None` for air and for cells
    /// of chunks that are not loaded.
    pub open spec fn spec_get_block(&self, world_pos: IVec3) -> Option<Block> {
        let local = spec_local_pos(world_pos);
        match self.chunk(spec_chunk_pos(world_pos)) {
            Some(chunk) => chunk.data.cells()[cell_index(
                local.x as int,
                local.y as int,
                local.z as int,
            )],
            None => None,
        }
    }

    /// What the table invariant means for the chunks and tasks.
    pub proof fn lemma_wf(&self)
        requires
            self.wf(),
        ensures
            self.loaded().no_duplicates(),
            self.generation_tasks().no_duplicates(),
            self.light_tasks().no_duplicates(),
            self.mesh_tasks().no_duplicates(),
            self.generation_tasks().len() <= MAX_TASKS,
            self.light_tasks().len() <= MAX_TASKS,
            self.mesh_tasks().len() <= MAX_TASKS,
            forall|p: IVec3| #[trigger] self.loaded().contains(p) <==> self.is_loaded(p),
            forall|p: IVec3| #[trigger] self.light_tasks().contains(p) ==> self.is_loaded(p),
            forall|p: IVec3| #[trigger] self.mesh_tasks().contains(p) ==> self.is_loaded(p),
            forall|p: IVec3| #[trigger] self.generation_tasks().contains(p) ==> !self.is_loaded(p),
            forall|p: IVec3| #[trigger]
                self.chunk(p) is Some ==> self.chunk(p)->0.data.wf() && self.chunk(p)->0.light.wf(),
            forall|p: IVec3| #[trigger] self.dirty(p) is Some ==> self.dirty(p)->0.wf(),
    {
        self.chunks.lemma_wf();
        self.chunks_to_save.lemma_wf();
        self.generation_tasks.lemma_wf();
        self.light_tasks.lemma_wf();
        self.mesh_tasks.lemma_wf();
        assert forall|p: IVec3| #[trigger] self.chunk(p) is Some implies self.chunk(p)->0.data.wf()
            && self.chunk(p)->0.light.wf() by {
            let i = place_of(self.chunks.keys(), p);
            assert(self.chunks.values()[i].data.wf());
        }
        assert forall|p: IVec3| #[trigger] self.dirty(p) is Some implies self.dirty(p)->0.wf() by {
            let i = place_of(self.chunks_to_save.keys(), p);
            assert(self.chunks_to_save.values()[i].wf());
        }
    }

    /// A world without chunks, centered at the origin.
    pub fn new(generation_radius: i32) -> (world: World)
        ensures
            world.wf(),
            world.center() == (IVec3 { x: 0, y: 0, z: 0 }),
            world.radius() == generation_radius,
            world.last_save_time() == 0,
            world.loaded() == Seq::<IVec3>::empty(),
            world.generation_tasks() == Seq::<IVec3>::empty(),
            world.light_tasks() == Seq::<IVec3>::empty(),
            world.mesh_tasks() == Seq::<IVec3>::empty(),
            world.dirty_positions() == Seq::<IVec3>::empty(),
            world.pending_positions() == Seq::<IVec3>::empty(),
    {
        World {
            center_pos: IVec3 { x: 0, y: 0, z: 0 },
            generation_radius,
            generation_tasks: PosSet::new(),
            light_tasks: PosSet::new(),
            mesh_tasks: PosSet::new(),
            pending_mesh_results: PosMap::new(),
            chunks: PosMap::new(),
            chunks_to_save: PosMap::new(),
            last_save_time: 0,
        }
    }

    pub fn chunk_pos(world_pos: IVec3) -> (chunk_pos: IVec3)
        ensures
            chunk_pos == spec_chunk_pos(world_pos),
    {
        chunk_pos_of(world_pos)
    }

    pub fn local_pos(world_pos: IVec3) -> (local_pos: USizeVec3)
        ensures
            local_pos == spec_local_pos(world_pos),
            local_pos.in_chunk(),
    {
        local_pos_of(world_pos)
    }

    /// Sets the radius of the streaming window.
    pub fn set_generation_radius(&mut self, generation_radius: i32)
        ensures
            final(self).radius() == generation_radius,
            final(self).center() == old(self).center(),
            final(self).last_save_time() == old(self).last_save_time(),
            final(self).loaded() == old(self).loaded(),
            final(self).generation_tasks() == old(self).generation_tasks(),
            final(self).light_tasks() == old(self).light_tasks(),
            final(self).mesh_tasks() == old(self).mesh_tasks(),
            final(self).dirty_positions() == old(self).dirty_positions(),
            final(self).pending_positions() == old(self).pending_positions(),
            forall|p: IVec3| #[trigger] final(self).chunk(p) == old(self).chunk(p),
            forall|p: IVec3| #[trigger] final(self).dirty(p) == old(self).dirty(p),
            forall|p: IVec3| #[trigger] final(self).pending(p) == old(self).pending(p),
            old(self).wf() ==> final(self).wf(),
    {
        self.generation_radius = generation_radius;
    }

    /// Moves the center of the streaming window to the chunk that holds the
    /// given cell of the world grid.
    pub fn update_center_pos(&mut self, position: IVec3)
        ensures
            final(self).center() == spec_chunk_pos(position),
            final(self).radius() == old(self).radius(),
            final(self).last_save_time() == old(self).last_save_time(),
            final(self).loaded() == old(self).loaded(),
            final(self).generation_tasks() == old(self).generation_tasks(),
            final(self).light_tasks() == old(self).light_tasks(),
            final(self).mesh_tasks() == old(self).mesh_tasks(),
            final(self).dirty_positions() == old(self).dirty_positions(),
            final(self).pending_positions() == old(self).pending_positions(),
            forall|p: IVec3| #[trigger] final(self).chunk(p) == old(self).chunk(p),
            forall|p: IVec3| #[trigger] final(self).dirty(p) == old(self).dirty(p),
            forall|p: IVec3| #[trigger] final(self).pending(p) == old(self).pending(p),
            old(self).wf() ==> final(self).wf(),
    {
        self.center_pos = chunk_pos_of(position);
    }

    pub fn is_visible_chunk(&self, chunk_pos: IVec3) -> (visible: bool)
        ensures
            visible == self.spec_is_visible_chunk(chunk_pos),
    {
        let r = self.generation_radius as i64;
        if r < 0 {
            return false;
        }
        let dx = chunk_pos.x as i64 - self.center_pos.x as i64;
        let dy = chunk_pos.y as i64 - self.center_pos.y as i64;
        let dz = chunk_pos.z as i64 - self.center_pos.z as i64;
        if dx > r || dx < -r || dz > r || dz < -r {
            proof {
                assert(dx * dx > r * r || dz * dz > r * r) by (nonlinear_arith)
                    requires
                        r >= 0,
                        dx > r || dx < -r || dz > r || dz < -r,
                ;
                assert(dx * dx >= 0 && dz * dz >= 0) by (nonlinear_arith);
            }
            return false;
        }
        proof {
            assert(0 <= dx * dx <= r * r && 0 <= dz * dz <= r * r && r * r <= 0x3fff_ffff_0000_0001)
                by (nonlinear_arith)
                requires
                    0 <= r <= 0x7fff_ffff,
                    -r <= dx <= r,
                    -r <= dz <= r,
            ;
        }
        if dx * dx + dz * dz > r * r {
            return false;
        }
        -r <= dy && dy <= r
    }

    /// What candidates are ordered by: the squared horizontal distance from
    /// the center, then the vertical distance.
    pub open spec fn spec_chunk_sort_key(&self, chunk_pos: IVec3) -> (u128, u32) {
        let dx = chunk_pos.x - self.center().x;
        let dy = chunk_pos.y - self.center().y;
        let dz = chunk_pos.z - self.center().z;
        ((dx * dx + dz * dz) as u128, (if dy < 0 { -dy } else { dy }) as u32)
    }

    pub fn chunk_sort_key(&self, chunk_pos: IVec3) -> (key: (u128, u32))
        ensures
            key == self.spec_chunk_sort_key(chunk_pos),
    {
        let dx = chunk_pos.x as i64 - self.center_pos.x as i64;
        let dy = chunk_pos.y as i64 - self.center_pos.y as i64;
        let dz = chunk_pos.z as i64 - self.center_pos.z as i64;
        let ax: u128 = (if dx < 0 { -dx } else { dx }) as u128;
        let az: u128 = (if dz < 0 { -dz } else { dz }) as u128;
        proof {
            assert(ax * ax == dx * dx && az * az == dz * dz && ax * ax <= 0x1_0000_0000_0000_0000
                && az * az <= 0x1_0000_0000_0000_0000) by (nonlinear_arith)
                requires
                    ax == (if dx < 0 { -dx } else { dx as int }),
                    az == (if dz < 0 { -dz } else { dz as int }),
                    0 <= ax <= 0xffff_ffff,
                    0 <= az <= 0xffff_ffff,
            ;
        }
        (ax * ax + az * az, (if dy < 0 { -dy } else { dy }) as u32)
    }

    /// The blocks of the chunk at `chunk_pos`, shared with the world until
    /// the chunk is edited.
    pub fn get_chunk_data(&self, chunk_pos: IVec3) -> (data: Option<ChunkData>)
        requires
            self.wf(),
        ensures
            match data {
                Some(d) => self.chunk(chunk_pos) is Some && d.wf() && d == self.chunk(
                    chunk_pos,
                )->0.data,
                None => self.chunk(chunk_pos) is None,
            },
    {
        proof {
            self.lemma_wf();
        }
        match self.chunks.get(chunk_pos) {
            Some(chunk) => Some(arc_clone(&chunk.data)),
            None => None,
        }
    }

    /// The light of the chunk at `chunk_pos`, shared with the world.
    pub fn get_light_data(&self, chunk_pos: IVec3) -> (light: Option<LightData>)
        requires
            self.wf(),
        ensures
            match light {
                Some(l) => self.chunk(chunk_pos) is Some && l.wf() && l == self.chunk(
                    chunk_pos,
                )->0.light,
                None => self.chunk(chunk_pos) is None,
            },
    {
        proof {
            self.lemma_wf();
        }
        match self.chunks.get(chunk_pos) {
            Some(chunk) => Some(arc_clone(&chunk.light)),
            None => None,
        }
    }

    pub fn get_block(&self, world_pos: IVec3) -> (block: Option<Block>)
        requires
            self.wf(),
        ensures
            block == self.spec_get_block(world_pos),
    {
        let chunk_pos = chunk_pos_of(world_pos);
        let local_pos = local_pos_of(world_pos);
        proof {
            self.lemma_wf();
        }
        match self.chunks.get(chunk_pos) {
            Some(chunk) => chunk.data.get_block(local_pos),
            None => None,
        }
    }

    /// Whether a generation task is under way for `chunk_pos`.
    pub fn has_generation_task(&self, chunk_pos: IVec3) -> (running: bool)
        ensures
            running == self.generation_tasks().contains(chunk_pos),
    {
        self.generation_tasks.contains(chunk_pos)
    }

    /// Whether a light task is under way for `chunk_pos`.
    pub fn has_light_task(&self, chunk_pos: IVec3) -> (running: bool)
        ensures
            running == self.light_tasks().contains(chunk_pos),
    {
        self.light_tasks.contains(chunk_pos)
    }

    /// Whether a mesh task is under way for `chunk_pos`.
    pub fn has_mesh_task(&self, chunk_pos: IVec3) -> (running: bool)
        ensures
            running == self.mesh_tasks().contains(chunk_pos),
    {
        self.mesh_tasks.contains(chunk_pos)
    }

    /// Light status and mesh status of the chunk at `chunk_pos`.
    pub fn chunk_status(&self, chunk_pos: IVec3) -> (status: Option<(LightStatus, MeshStatus)>)
        requires
            self.wf(),
        ensures
            match status {
                Some(s) => self.chunk(chunk_pos) is Some && s.0 == self.chunk(
                    chunk_pos,
                )->0.light_status && s.1 == self.chunk(chunk_pos)->0.mesh_status,
                None => self.chunk(chunk_pos) is None,
            },
    {
        match self.chunks.get(chunk_pos) {
            Some(chunk) => Some((chunk.light_status, chunk.mesh_status)),
            None => None,
        }
    }

    /// Number of loaded chunks.
    pub fn loaded_count(&self) -> (count: usize)
        requires
            self.wf(),
        ensures
            count == self.loaded().len(),
    {
        self.chunks.len()
    }
}

/// A chunk after an edit in it or next to it: the light is pending and the
/// mesh is urgent.
pub open spec fn made_urgent(chunk: Chunk) -> Chunk {
    Chunk {
        data: chunk.data,
        light: chunk.light,
        light_status: LightStatus::Pending,
        mesh_status: MeshStatus::Urgent,
        entity: chunk.entity,
    }
}

/// `b` is `a` or one of the 26 chunks around it.
pub open spec fn in_neighborhood(a: IVec3, b: IVec3) -> bool {
    a == b || is_neighbor(a, b)
}

impl World {
    /// The center, the radius, the time of the last save, the table of
    /// loaded positions, the generation tasks and the chunks that wait for
    /// a save are as in `before`.
    pub open spec fn same_frame(&self, before: &World) -> bool {
        &&& self.center() == before.center()
        &&& self.radius() == before.radius()
        &&& self.last_save_time() == before.last_save_time()
        &&& self.loaded() == before.loaded()
        &&& self.generation_tasks() == before.generation_tasks()
        &&& self.dirty_positions() == before.dirty_positions()
        &&& forall|p: IVec3| #[trigger] self.dirty(p) == before.dirty(p)
    }

    /// Replaces the record of a loaded chunk by one with other states.
    fn set_status(&mut self, index: usize, light_status: LightStatus, mesh_status: MeshStatus)
        requires
            old(self).wf(),
            index < old(self).loaded().len(),
        ensures
            final(self).wf(),
            final(self).same_frame(old(self)),
            final(self).light_tasks() == old(self).light_tasks(),
            final(self).mesh_tasks() == old(self).mesh_tasks(),
            final(self).pending_positions() == old(self).pending_positions(),
            forall|p: IVec3| #[trigger] final(self).pending(p) == old(self).pending(p),
            forall|p: IVec3|
                p != old(self).loaded()[index as int] ==> #[trigger] final(self).chunk(p) == old(
                    self,
                ).chunk(p),
            old(self).chunk(old(self).loaded()[index as int]) matches Some(c) && final(self).chunk(
                old(self).loaded()[index as int],
            ) == Some(
                Chunk {
                    data: c.data,
                    light: c.light,
                    light_status,
                    mesh_status,
                    entity: c.entity,
                },
            ),
    {
        proof {
            self.chunks.lemma_wf();
        }
        let chunk = self.chunks.value_at_mut(index);
        chunk.light_status = light_status;
        chunk.mesh_status = mesh_status;
        proof {
            assert forall|i: int| 0 <= i < self.chunks.values().len() implies (
            #[trigger] self.chunks.values()[i]).data.wf() && self.chunks.values()[i].light.wf() by {
                if i != index {
                    assert(self.chunks.values()[i] == old(self).chunks.values()[i]);
                } else {
                    assert(old(self).chunks.values()[i].data.wf());
                }
            }
        }
    }

    /// Takes the light task, the mesh task and the mesh result that is held
    /// back for a chunk away.
    fn cancel_work(&mut self, chunk_pos: IVec3)
        requires
            old(self).wf(),
        ensures
            final(self).wf(),
            final(self).same_frame(old(self)),
            forall|p: IVec3| #[trigger] final(self).chunk(p) == old(self).chunk(p),
            forall|p: IVec3| #[trigger]
                final(self).light_tasks().contains(p) <==> (old(self).light_tasks().contains(p) && p
                    != chunk_pos),
            forall|p: IVec3| #[trigger]
                final(self).mesh_tasks().contains(p) <==> (old(self).mesh_tasks().contains(p) && p
                    != chunk_pos),
            forall|p: IVec3|
                p != chunk_pos ==> #[trigger] final(self).pending(p) == old(self).pending(p),
            final(self).pending(chunk_pos) is None,
    {
        proof {
            self.light_tasks.lemma_wf();
            self.mesh_tasks.lemma_wf();
            self.pending_mesh_results.lemma_wf();
        }
        match self.light_tasks.swap_remove(chunk_pos) {
            Some(i) => {
                proof {
                    lemma_swap_removed(old(self).light_tasks@, i as int);
                }
            },
            None => {},
        }
        match self.mesh_tasks.swap_remove(chunk_pos) {
            Some(i) => {
                proof {
                    lemma_swap_removed(old(self).mesh_tasks@, i as int);
                }
            },
            None => {},
        }
        self.pending_mesh_results.swap_remove(chunk_pos);
    }

    /// Invalidate a chunk's light, cancelling any in-progress light task and
    /// marking it for recomputation. Also queues it for remeshing.
    fn invalidate_light(&mut self, chunk_pos: IVec3)
        requires
            old(self).wf(),
        ensures
            final(self).wf(),
            final(self).same_frame(old(self)),
            forall|p: IVec3| p != chunk_pos ==> #[trigger] final(self).chunk(p) == old(self).chunk(p),
            final(self).chunk(chunk_pos) == (match old(self).chunk(chunk_pos) {
                Some(c) => Some(invalidated(c)),
                None => None,
            }),
            forall|p: IVec3| #[trigger]
                final(self).light_tasks().contains(p) <==> (old(self).light_tasks().contains(p) && p
                    != chunk_pos),
            forall|p: IVec3| #[trigger]
                final(self).mesh_tasks().contains(p) <==> (old(self).mesh_tasks().contains(p) && p
                    != chunk_pos),
            forall|p: IVec3|
                p != chunk_pos ==> #[trigger] final(self).pending(p) == old(self).pending(p),
            final(self).pending(chunk_pos) is None,
    {
        match self.chunks.get_index_of(chunk_pos) {
            Some(index) => {
                let mesh_status = if self.chunks.value_at(index).mesh_status == MeshStatus::Urgent {
                    MeshStatus::Urgent
                } else {
                    MeshStatus::Queued
                };
                self.set_status(index, LightStatus::Pending, mesh_status);
            },
            None => {},
        }
        self.cancel_work(chunk_pos);
    }

    /// Queues a chunk for remeshing and cancels its mesh task.
    fn force_remesh(&mut self, chunk_pos: IVec3)
        requires
            old(self).wf(),
        ensures
            final(self).wf(),
            final(self).same_frame(old(self)),
            final(self).light_tasks() == old(self).light_tasks(),
            final(self).pending_positions() == old(self).pending_positions(),
            forall|p: IVec3| #[trigger] final(self).pending(p) == old(self).pending(p),
            forall|p: IVec3| p != chunk_pos ==> #[trigger] final(self).chunk(p) == old(self).chunk(p),
            final(self).chunk(chunk_pos) == (match old(self).chunk(chunk_pos) {
                Some(c) => Some(requeued(c)),
                None => None,
            }),
            forall|p: IVec3| #[trigger]
                final(self).mesh_tasks().contains(p) <==> (old(self).mesh_tasks().contains(p) && p
                    != chunk_pos),
    {
        match self.chunks.get_index_of(chunk_pos) {
            Some(index) => {
                let light_status = self.chunks.value_at(index).light_status;
                let mesh_status = if self.chunks.value_at(index).mesh_status == MeshStatus::Urgent {
                    MeshStatus::Urgent
                } else {
                    MeshStatus::Queued
                };
                self.set_status(index, light_status, mesh_status);
            },
            None => {},
        }
        self.cancel_mesh_task(chunk_pos);
    }

    /// Takes the mesh task of a chunk away.
    fn cancel_mesh_task(&mut self, chunk_pos: IVec3)
        requires
            old(self).wf(),
        ensures
            final(self).wf(),
            final(self).same_frame(old(self)),
            final(self).light_tasks() == old(self).light_tasks(),
            final(self).pending_positions() == old(self).pending_positions(),
            forall|p: IVec3| #[trigger] final(self).pending(p) == old(self).pending(p),
            forall|p: IVec3| #[trigger] final(self).chunk(p) == old(self).chunk(p),
            forall|p: IVec3| #[trigger]
                final(self).mesh_tasks().contains(p) <==> (old(self).mesh_tasks().contains(p) && p
                    != chunk_pos),
    {
        proof {
            self.mesh_tasks.lemma_wf();
        }
        match self.mesh_tasks.swap_remove(chunk_pos) {
            Some(i) => {
                proof {
                    lemma_swap_removed(old(self).mesh_tasks@, i as int);
                }
            },
            None => {},
        }
    }

    /// Invalidates the light of a chunk and makes its mesh urgent.
    fn invalidate_urgently(&mut self, chunk_pos: IVec3)
        requires
            old(self).wf(),
        ensures
            final(self).wf(),
            final(self).same_frame(old(self)),
            forall|p: IVec3| p != chunk_pos ==> #[trigger] final(self).chunk(p) == old(self).chunk(p),
            final(self).chunk(chunk_pos) == (match old(self).chunk(chunk_pos) {
                Some(c) => Some(made_urgent(c)),
                None => None,
            }),
            forall|p: IVec3| #[trigger]
                final(self).light_tasks().contains(p) <==> (old(self).light_tasks().contains(p) && p
                    != chunk_pos),
            forall|p: IVec3| #[trigger]
                final(self).mesh_tasks().contains(p) <==> (old(self).mesh_tasks().contains(p) && p
                    != chunk_pos),
            forall|p: IVec3|
                p != chunk_pos ==> #[trigger] final(self).pending(p) == old(self).pending(p),
            final(self).pending(chunk_pos) is None,
    {
        self.invalidate_light(chunk_pos);
        match self.chunks.get_index_of(chunk_pos) {
            Some(index) => {
                self.set_status(index, LightStatus::Pending, MeshStatus::Urgent);
            },
            None => {},
        }
    }

    /// Invalidates the light of a chunk and of the 26 chunks around it and
    /// makes their meshes urgent.
    fn invalidate_around(&mut self, chunk_pos: IVec3)
        requires
            old(self).wf(),
        ensures
            final(self).wf(),
            final(self).same_frame(old(self)),
            forall|p: IVec3|
                #[trigger] final(self).chunk(p) == (if in_neighborhood(chunk_pos, p) {
                    match old(self).chunk(p) {
                        Some(c) => Some(made_urgent(c)),
                        None => None,
                    }
                } else {
                    old(self).chunk(p)
                }),
            forall|p: IVec3| #[trigger]
                final(self).light_tasks().contains(p) <==> (old(self).light_tasks().contains(p)
                    && !in_neighborhood(chunk_pos, p)),
            forall|p: IVec3| #[trigger]
                final(self).mesh_tasks().contains(p) <==> (old(self).mesh_tasks().contains(p)
                    && !in_neighborhood(chunk_pos, p)),
            forall|p: IVec3|
                #[trigger] final(self).pending(p) == (if in_neighborhood(chunk_pos, p) {
                    None
                } else {
                    old(self).pending(p)
                }),
    {
        self.invalidate_urgently(chunk_pos);
        let neighbors = get_neighbors(chunk_pos);
        let mut i: usize = 0;
        proof {
            assert(neighbors@.take(0) =~= Seq::<IVec3>::empty());
        }
        while i < neighbors.len()
            invariant
                i <= neighbors@.len(),
                self.wf(),
                self.same_frame(old(self)),
                neighbors@.no_duplicates(),
                forall|p: IVec3| #[trigger] neighbors@.contains(p) <==> is_neighbor(chunk_pos, p),
                forall|p: IVec3|
                    #[trigger] self.chunk(p) == (if p == chunk_pos || neighbors@.take(
                        i as int,
                    ).contains(p) {
                        match old(self).chunk(p) {
                            Some(c) => Some(made_urgent(c)),
                            None => None,
                        }
                    } else {
                        old(self).chunk(p)
                    }),
                forall|p: IVec3| #[trigger]
                    self.light_tasks().contains(p) <==> (old(self).light_tasks().contains(p) && !(p
                        == chunk_pos || neighbors@.take(i as int).contains(p))),
                forall|p: IVec3| #[trigger]
                    self.mesh_tasks().contains(p) <==> (old(self).mesh_tasks().contains(p) && !(p
                        == chunk_pos || neighbors@.take(i as int).contains(p))),
                forall|p: IVec3|
                    #[trigger] self.pending(p) == (if p == chunk_pos || neighbors@.take(
                        i as int,
                    ).contains(p) {
                        None
                    } else {
                        old(self).pending(p)
                    }),
            decreases neighbors@.len() - i,
        {
            let neighbor_pos = neighbors[i];
            proof {
                lemma_take_next(neighbors@, i as int);
            }
            self.invalidate_urgently(neighbor_pos);
            i += 1;
        }
        proof {
            assert(neighbors@.take(neighbors@.len() as int) =~= neighbors@);
        }
    }

    /// Writes a block into a loaded chunk that has room for it, and lets
    /// the chunk wait for the next save.
    fn write_block(&mut self, index: usize, local_pos: USizeVec3, block: Option<Block>)
        requires
            old(self).wf(),
            index < old(self).loaded().len(),
            local_pos.in_chunk(),
            old(self).chunk(old(self).loaded()[index as int]) matches Some(c) && (block matches Some(
                b,
            ) ==> c.data.palette().contains(b) || c.data.palette().len() < PALETTE_CAPACITY),
        ensures
            final(self).wf(),
            final(self).center() == old(self).center(),
            final(self).radius() == old(self).radius(),
            final(self).last_save_time() == old(self).last_save_time(),
            final(self).loaded() == old(self).loaded(),
            final(self).generation_tasks() == old(self).generation_tasks(),
            final(self).light_tasks() == old(self).light_tasks(),
            final(self).mesh_tasks() == old(self).mesh_tasks(),
            forall|p: IVec3| #[trigger] final(self).pending(p) == old(self).pending(p),
            forall|p: IVec3|
                p != old(self).loaded()[index as int] ==> #[trigger] final(self).chunk(p) == old(
                    self,
                ).chunk(p),
            forall|p: IVec3|
                p != old(self).loaded()[index as int] ==> #[trigger] final(self).dirty(p) == old(
                    self,
                ).dirty(p),
            ({
                let chunk_pos = old(self).loaded()[index as int];
                let before = old(self).chunk(chunk_pos)->0;
                &&& final(self).chunk(chunk_pos) matches Some(n) && n.data.cells()
                    == before.data.cells().update(
                    cell_index(local_pos.x as int, local_pos.y as int, local_pos.z as int),
                    block,
                ) && n.light == before.light && n.entity == before.entity && n.light_status
                    == before.light_status && n.mesh_status == before.mesh_status
                &&& final(self).dirty(chunk_pos) == Some(final(self).chunk(chunk_pos)->0.data)
            }),
    {
        proof {
            self.lemma_wf();
            self.chunks.lemma_wf();
        }
        let chunk_pos = self.chunks.key_at(index);
        let chunk = self.chunks.value_at_mut(index);
        // The chunk is copied first if a task or a save still holds it.
        let written = arc_make_mut(&mut chunk.data).set_block(local_pos, block);
        let snapshot = arc_clone(&chunk.data);
        proof {
            assert forall|i: int| 0 <= i < self.chunks.values().len() implies (
            #[trigger] self.chunks.values()[i]).data.wf() && self.chunks.values()[i].light.wf() by {
                if i != index {
                    assert(self.chunks.values()[i] == old(self).chunks.values()[i]);
                } else {
                    assert(old(self).chunks.values()[i].light.wf());
                }
            }
        }
        let ghost dirty_before = self.chunks_to_save;
        let slot = self.chunks_to_save.insert(chunk_pos, snapshot);
        proof {
            dirty_before.lemma_wf();
            assert forall|i: int| 0 <= i < self.chunks_to_save.values().len() implies (
            #[trigger] self.chunks_to_save.values()[i]).wf() by {
                if i != slot {
                    assert(self.chunks_to_save.values()[i] == dirty_before.values()[i]);
                }
            }
            old(self).chunk(chunk_pos)->0.data.lemma_wf();
            crate::coords::lemma_cell_index(
                local_pos.x as int,
                local_pos.y as int,
                local_pos.z as int,
            );
            assert(self.chunk(chunk_pos) is Some);
            assert forall|p: IVec3| p != chunk_pos implies #[trigger] self.chunk(p) == old(self).chunk(
                p,
            ) by {}
            assert(self.dirty(chunk_pos) == Some(snapshot));
            assert forall|p: IVec3| p != chunk_pos implies #[trigger] self.dirty(p) == old(self).dirty(
                p,
            ) by {}
        }
    }

    /// Puts a block into a cell of the world grid. Nothing happens where the
    /// cell's chunk is not loaded (`Ok(false)`). Where it is loaded, the
    /// chunk and the 26 chunks around it get pending light and an urgent
    /// mesh, and light tasks, mesh tasks and held-back mesh results for them
    /// are dropped. The block is written at once and the chunk waits for the
    /// next save (`Ok(true)`), unless the chunk's palette has no room for a
    /// new block: then the cells stay as they are (the error), and the
    /// chunks are invalidated all the same.
    pub fn set_block(&mut self, world_pos: IVec3, block: Option<Block>) -> (result: Result<
        bool,
        ChunkDataError,
    >)
        requires
            old(self).wf(),
        ensures
            final(self).wf(),
            final(self).center() == old(self).center(),
            final(self).radius() == old(self).radius(),
            final(self).last_save_time() == old(self).last_save_time(),
            final(self).loaded() == old(self).loaded(),
            final(self).generation_tasks() == old(self).generation_tasks(),
            match old(self).chunk(spec_chunk_pos(world_pos)) {
                None => result == Ok::<bool, ChunkDataError>(false),
                Some(c) => if block matches Some(b) && !c.data.palette().contains(b)
                    && c.data.palette().len() >= PALETTE_CAPACITY {
                    result == Err::<bool, ChunkDataError>(ChunkDataError::PaletteFull)
                } else {
                    result == Ok::<bool, ChunkDataError>(true)
                },
            },
            !old(self).is_loaded(spec_chunk_pos(world_pos)) ==> {
                &&& forall|p: IVec3| #[trigger] final(self).chunk(p) == old(self).chunk(p)
                &&& forall|p: IVec3| #[trigger] final(self).dirty(p) == old(self).dirty(p)
                &&& forall|p: IVec3| #[trigger] final(self).pending(p) == old(self).pending(p)
                &&& final(self).light_tasks() == old(self).light_tasks()
                &&& final(self).mesh_tasks() == old(self).mesh_tasks()
            },
            old(self).is_loaded(spec_chunk_pos(world_pos)) ==> {
                let chunk_pos = spec_chunk_pos(world_pos);
                &&& forall|p: IVec3|
                    !in_neighborhood(chunk_pos, p) ==> #[trigger] final(self).chunk(p) == old(
                        self,
                    ).chunk(p)
                &&& forall|p: IVec3|
                    in_neighborhood(chunk_pos, p) && old(self).is_loaded(p) ==> {
                        &&& (#[trigger] final(self).chunk(p)) is Some
                        &&& final(self).chunk(p)->0.mesh_status == MeshStatus::Urgent
                        &&& final(self).chunk(p)->0.light_status == LightStatus::Pending
                        &&& final(self).chunk(p)->0.light == old(self).chunk(p)->0.light
                        &&& final(self).chunk(p)->0.entity == old(self).chunk(p)->0.entity
                        &&& p != chunk_pos ==> final(self).chunk(p)->0.data == old(self).chunk(
                            p,
                        )->0.data
                    }
                &&& forall|p: IVec3| #[trigger]
                    final(self).light_tasks().contains(p) <==> (old(self).light_tasks().contains(p)
                        && !in_neighborhood(chunk_pos, p))
                &&& forall|p: IVec3| #[trigger]
                    final(self).mesh_tasks().contains(p) <==> (old(self).mesh_tasks().contains(p)
                        && !in_neighborhood(chunk_pos, p))
                &&& forall|p: IVec3|
                    #[trigger] final(self).pending(p) == (if in_neighborhood(chunk_pos, p) {
                        None
                    } else {
                        old(self).pending(p)
                    })
            },
            result is Err ==> {
                let chunk_pos = spec_chunk_pos(world_pos);
                &&& final(self).chunk(chunk_pos) matches Some(n) && n.data == old(self).chunk(
                    chunk_pos,
                )->0.data
                &&& forall|p: IVec3| #[trigger] final(self).dirty(p) == old(self).dirty(p)
            },
            result matches Ok(true) ==> {
                let chunk_pos = spec_chunk_pos(world_pos);
                let local = spec_local_pos(world_pos);
                let index = cell_index(local.x as int, local.y as int, local.z as int);
                &&& final(self).spec_get_block(world_pos) == block
                &&& final(self).chunk(chunk_pos) matches Some(n) && n.data.cells() == old(
                    self,
                ).chunk(chunk_pos)->0.data.cells().update(index, block)
                &&& final(self).dirty(chunk_pos) == Some(final(self).chunk(chunk_pos)->0.data)
                &&& forall|p: IVec3|
                    p != chunk_pos ==> #[trigger] final(self).dirty(p) == old(self).dirty(p)
            },
    {
        let chunk_pos = chunk_pos_of(world_pos);
        let local_pos = local_pos_of(world_pos);
        proof {
            self.lemma_wf();
            self.chunks.lemma_wf();
        }
        let index = match self.chunks.get_index_of(chunk_pos) {
            Some(index) => index,
            None => {
                return Ok(false);
            },
        };
        proof {
            assert(old(self).loaded()[index as int] == chunk_pos);
        }
        let accepted = self.chunks.value_at(index).data.accepts(block);
        if accepted {
            self.write_block(index, local_pos, block);
        }
        let ghost mid = *self;
        // A change of a block invalidates this chunk and the chunks around it.
        self.invalidate_around(chunk_pos);
        proof {
            assert(self.chunk(chunk_pos) == Some(made_urgent(mid.chunk(chunk_pos)->0)));
            assert forall|p: IVec3| #[trigger] self.dirty(p) == mid.dirty(p) by {}
            if accepted {
                old(self).chunk(chunk_pos)->0.data.lemma_wf();
                crate::coords::lemma_cell_index(
                    local_pos.x as int,
                    local_pos.y as int,
                    local_pos.z as int,
                );
            }
        }
        if accepted {
            Ok(true)
        } else {
            Err(ChunkDataError::PaletteFull)
        }
    }
}

/// The positions among `keys` that lie outside the streaming window of
/// `world`, in the order of `keys`.
pub open spec fn outside_window(world: &World, keys: Seq<IVec3>) -> Seq<IVec3>
    decreases keys.len(),
{
    if keys.len() == 0 {
        Seq::empty()
    } else if world.spec_is_visible_chunk(keys.last()) {
        outside_window(world, keys.drop_last())
    } else {
        outside_window(world, keys.drop_last()).push(keys.last())
    }
}

/// What is left of `keys` when the positions of `gone` are taken out one
/// after the other, each by moving the last position into its place.
pub open spec fn after_removal(keys: Seq<IVec3>, gone: Seq<IVec3>) -> Seq<IVec3>
    decreases gone.len(),
{
    if gone.len() == 0 {
        keys
    } else {
        let rest = after_removal(keys, gone.drop_last());
        if rest.contains(gone.last()) {
            crate::ordered_set::swap_removed(rest, place_of(rest, gone.last()))
        } else {
            rest
        }
    }
}

/// One of the positions of `gone` is a neighbor of `p`.
pub open spec fn near_any(gone: Seq<IVec3>, p: IVec3) -> bool {
    exists|k: int| 0 <= k < gone.len() && is_neighbor(#[trigger] gone[k], p)
}

proof fn lemma_outside_window(world: &World, keys: Seq<IVec3>)
    requires
        keys.no_duplicates(),
    ensures
        outside_window(world, keys).no_duplicates(),
        forall|p: IVec3| #[trigger]
            outside_window(world, keys).contains(p) <==> (keys.contains(p)
                && !world.spec_is_visible_chunk(p)),
    decreases keys.len(),
{
    if keys.len() > 0 {
        let front = keys.drop_last();
        lemma_outside_window(world, front);
        let rest = outside_window(world, front);
        assert forall|p: IVec3| front.contains(p) implies keys.contains(p) && p != keys.last() by {
            let i = choose|i: int| 0 <= i < front.len() && front[i] == p;
            assert(keys[i] == p);
        }
        assert forall|p: IVec3| keys.contains(p) implies front.contains(p) || p == keys.last() by {
            let i = choose|i: int| 0 <= i < keys.len() && keys[i] == p;
            if i < front.len() {
                assert(front[i] == p);
            }
        }
        if !world.spec_is_visible_chunk(keys.last()) {
            lemma_push_fresh(rest, keys.last());
        }
    }
}

impl World {
    /// The loaded chunks that lie outside the streaming window, in table
    /// order.
    pub fn chunks_to_unload(&self) -> (gone: Vec<IVec3>)
        requires
            self.wf(),
        ensures
            gone@ == outside_window(self, self.loaded()),
            gone@.no_duplicates(),
            forall|p: IVec3| #[trigger]
                gone@.contains(p) <==> (self.is_loaded(p) && !self.spec_is_visible_chunk(p)),
    {
        let mut gone: Vec<IVec3> = Vec::new();
        let count = self.chunks.len();
        let mut i: usize = 0;
        proof {
            assert(self.loaded().take(0) =~= Seq::<IVec3>::empty());
        }
        while i < count
            invariant
                i <= count,
                count == self.loaded().len(),
                self.wf(),
                gone@ == outside_window(self, self.loaded().take(i as int)),
            decreases count - i,
        {
            let chunk_pos = self.chunks.key_at(i);
            proof {
                assert(self.loaded().take(i as int + 1).drop_last() =~= self.loaded().take(i as int));
            }
            if !self.is_visible_chunk(chunk_pos) {
                gone.push(chunk_pos);
            }
            i += 1;
        }
        proof {
            assert(self.loaded().take(count as int) =~= self.loaded());
            self.lemma_wf();
            lemma_outside_window(self, self.loaded());
        }
        gone
    }

    /// Takes a chunk and its light, mesh and generation tasks out of the
    /// tables, and returns the chunk's render handle.
    fn remove_chunk(&mut self, chunk_pos: IVec3) -> (entity: Option<u64>)
        requires
            old(self).wf(),
        ensures
            final(self).wf(),
            final(self).center() == old(self).center(),
            final(self).radius() == old(self).radius(),
            final(self).last_save_time() == old(self).last_save_time(),
            final(self).dirty_positions() == old(self).dirty_positions(),
            forall|p: IVec3| #[trigger] final(self).dirty(p) == old(self).dirty(p),
            final(self).pending_positions() == old(self).pending_positions(),
            forall|p: IVec3| #[trigger] final(self).pending(p) == old(self).pending(p),
            entity == (match old(self).chunk(chunk_pos) {
                Some(c) => Some(c.entity),
                None => None,
            }),
            final(self).loaded() == (if old(self).loaded().contains(chunk_pos) {
                crate::ordered_set::swap_removed(
                    old(self).loaded(),
                    place_of(old(self).loaded(), chunk_pos),
                )
            } else {
                old(self).loaded()
            }),
            final(self).chunk(chunk_pos) is None,
            forall|p: IVec3| p != chunk_pos ==> #[trigger] final(self).chunk(p) == old(self).chunk(p),
            forall|p: IVec3| #[trigger]
                final(self).light_tasks().contains(p) <==> (old(self).light_tasks().contains(p) && p
                    != chunk_pos),
            forall|p: IVec3| #[trigger]
                final(self).mesh_tasks().contains(p) <==> (old(self).mesh_tasks().contains(p) && p
                    != chunk_pos),
            forall|p: IVec3| #[trigger]
                final(self).generation_tasks().contains(p) <==> (old(self).generation_tasks().contains(
                    p,
                ) && p != chunk_pos),
            !old(self).generation_tasks().contains(chunk_pos) ==> final(self).generation_tasks()
                == old(self).generation_tasks(),
    {
        proof {
            self.lemma_wf();
            self.chunks.lemma_wf();
            self.light_tasks.lemma_wf();
            self.mesh_tasks.lemma_wf();
            self.generation_tasks.lemma_wf();
        }
        let removed = self.chunks.swap_remove(chunk_pos);
        proof {
            if removed is Some {
                let i = place_of(old(self).chunks.keys(), chunk_pos);
                lemma_swap_removed(old(self).chunks.keys(), i);
                assert forall|k: int| 0 <= k < self.chunks.values().len() implies (
                #[trigger] self.chunks.values()[k]).data.wf() && self.chunks.values()[k].light.wf() by {
                    if k == i {
                        assert(self.chunks.values()[k] == old(self).chunks.values().last());
                    } else {
                        assert(self.chunks.values()[k] == old(self).chunks.values()[k]);
                    }
                }
            }
        }
        match self.light_tasks.swap_remove(chunk_pos) {
            Some(i) => {
                proof {
                    lemma_swap_removed(old(self).light_tasks@, i as int);
                }
            },
            None => {},
        }
        match self.mesh_tasks.swap_remove(chunk_pos) {
            Some(i) => {
                proof {
                    lemma_swap_removed(old(self).mesh_tasks@, i as int);
                }
            },
            None => {},
        }
        match self.generation_tasks.swap_remove(chunk_pos) {
            Some(i) => {
                proof {
                    lemma_swap_removed(old(self).generation_tasks@, i as int);
                }
            },
            None => {},
        }
        match removed {
            Some(chunk) => Some(chunk.entity),
            None => None,
        }
    }

    /// Invalidates the light of the chunks around `chunk_pos`.
    fn invalidate_neighbors(&mut self, chunk_pos: IVec3)
        requires
            old(self).wf(),
        ensures
            final(self).wf(),
            final(self).same_frame(old(self)),
            forall|p: IVec3|
                #[trigger] final(self).chunk(p) == (if is_neighbor(chunk_pos, p) {
                    match old(self).chunk(p) {
                        Some(c) => Some(invalidated(c)),
                        None => None,
                    }
                } else {
                    old(self).chunk(p)
                }),
            forall|p: IVec3| #[trigger]
                final(self).light_tasks().contains(p) <==> (old(self).light_tasks().contains(p)
                    && !is_neighbor(chunk_pos, p)),
            forall|p: IVec3| #[trigger]
                final(self).mesh_tasks().contains(p) <==> (old(self).mesh_tasks().contains(p)
                    && !is_neighbor(chunk_pos, p)),
            forall|p: IVec3|
                #[trigger] final(self).pending(p) == (if is_neighbor(chunk_pos, p) {
                    None
                } else {
                    old(self).pending(p)
                }),
    {
        let neighbors = get_neighbors(chunk_pos);
        let mut i: usize = 0;
        proof {
            assert(neighbors@.take(0) =~= Seq::<IVec3>::empty());
        }
        while i < neighbors.len()
            invariant
                i <= neighbors@.len(),
                self.wf(),
                self.same_frame(old(self)),
                neighbors@.no_duplicates(),
                forall|p: IVec3| #[trigger] neighbors@.contains(p) <==> is_neighbor(chunk_pos, p),
                forall|p: IVec3|
                    #[trigger] self.chunk(p) == (if neighbors@.take(i as int).contains(p) {
                        match old(self).chunk(p) {
                            Some(c) => Some(invalidated(c)),
                            None => None,
                        }
                    } else {
                        old(self).chunk(p)
                    }),
                forall|p: IVec3| #[trigger]
                    self.light_tasks().contains(p) <==> (old(self).light_tasks().contains(p)
                        && !neighbors@.take(i as int).contains(p)),
                forall|p: IVec3| #[trigger]
                    self.mesh_tasks().contains(p) <==> (old(self).mesh_tasks().contains(p)
                        && !neighbors@.take(i as int).contains(p)),
                forall|p: IVec3|
                    #[trigger] self.pending(p) == (if neighbors@.take(i as int).contains(p) {
                        None
                    } else {
                        old(self).pending(p)
                    }),
            decreases neighbors@.len() - i,
        {
            let neighbor_pos = neighbors[i];
            proof {
                lemma_take_next(neighbors@, i as int);
            }
            self.invalidate_light(neighbor_pos);
            i += 1;
        }
        proof {
            assert(neighbors@.take(neighbors@.len() as int) =~= neighbors@);
        }
    }
}

/// The first `i + 1` items of a sequence without repetition are the first
/// `i` and the item at place `i`, which is not among the first `i`.
pub proof fn lemma_take_next<T>(items: Seq<T>, i: int)
    requires
        0 <= i < items.len(),
        items.no_duplicates(),
    ensures
        items.take(i + 1) == items.take(i).push(items[i]),
        !items.take(i).contains(items[i]),
        items.contains(items[i]),
        forall|x: T| #[trigger]
            items.take(i + 1).contains(x) <==> (items.take(i).contains(x) || x == items[i]),
{
    let done = items.take(i);
    let next = items.take(i + 1);
    assert(next =~= done.push(items[i]));
    assert forall|x: T| #[trigger] next.contains(x) <==> (done.contains(x) || x == items[i]) by {
        if done.contains(x) {
            let k = choose|k: int| 0 <= k < done.len() && done[k] == x;
            assert(next[k] == x);
        }
        if x == items[i] {
            assert(next[i] == x);
        }
        if next.contains(x) {
            let k = choose|k: int| 0 <= k < next.len() && next[k] == x;
            if k < i {
                assert(done[k] == x);
            }
        }
    }
    if done.contains(items[i]) {
        let k = choose|k: int| 0 <= k < done.len() && done[k] == items[i];
        assert(items[k] == items[i]);
    }
}

proof fn lemma_near_any_next(gone: Seq<IVec3>, i: int, p: IVec3)
    requires
        0 <= i < gone.len(),
    ensures
        near_any(gone.take(i + 1), p) <==> (near_any(gone.take(i), p) || is_neighbor(gone[i], p)),
{
    let done = gone.take(i);
    let next = gone.take(i + 1);
    if near_any(done, p) {
        let k = choose|k: int| 0 <= k < done.len() && is_neighbor(#[trigger] done[k], p);
        assert(next[k] == done[k]);
    }
    if is_neighbor(gone[i], p) {
        assert(next[i] == gone[i]);
    }
    if near_any(next, p) {
        let k = choose|k: int| 0 <= k < next.len() && is_neighbor(#[trigger] next[k], p);
        if k < i {
            assert(done[k] == next[k]);
        }
    }
}

impl World {
    /// Unloads the chunks that have left the streaming window: each is taken
    /// out of the table together with its tasks, and the light of the chunks
    /// around it is invalidated. Returns the render handles of the unloaded
    /// chunks, in the order in which they stood in the table.
    pub fn unload_far_chunks(&mut self) -> (entities: Vec<u64>)
        requires
            old(self).wf(),
        ensures
            final(self).wf(),
            final(self).center() == old(self).center(),
            final(self).radius() == old(self).radius(),
            final(self).last_save_time() == old(self).last_save_time(),
            final(self).generation_tasks() == old(self).generation_tasks(),
            final(self).dirty_positions() == old(self).dirty_positions(),
            forall|p: IVec3| #[trigger] final(self).dirty(p) == old(self).dirty(p),
            final(self).loaded() == after_removal(
                old(self).loaded(),
                outside_window(old(self), old(self).loaded()),
            ),
            forall|p: IVec3| #[trigger]
                final(self).is_loaded(p) <==> (old(self).is_loaded(p) && old(
                    self,
                ).spec_is_visible_chunk(p)),
            forall|p: IVec3|
                #[trigger] final(self).is_loaded(p) ==> final(self).chunk(p) == Some(
                    if near_any(outside_window(old(self), old(self).loaded()), p) {
                        invalidated(old(self).chunk(p)->0)
                    } else {
                        old(self).chunk(p)->0
                    },
                ),
            forall|p: IVec3| #[trigger]
                final(self).light_tasks().contains(p) <==> (old(self).light_tasks().contains(p) && old(
                    self,
                ).spec_is_visible_chunk(p) && !near_any(
                    outside_window(old(self), old(self).loaded()),
                    p,
                )),
            forall|p: IVec3| #[trigger]
                final(self).mesh_tasks().contains(p) <==> (old(self).mesh_tasks().contains(p) && old(
                    self,
                ).spec_is_visible_chunk(p) && !near_any(
                    outside_window(old(self), old(self).loaded()),
                    p,
                )),
            forall|p: IVec3|
                #[trigger] final(self).pending(p) == (if near_any(
                    outside_window(old(self), old(self).loaded()),
                    p,
                ) {
                    None
                } else {
                    old(self).pending(p)
                }),
            entities@.len() == outside_window(old(self), old(self).loaded()).len(),
            forall|k: int|
                0 <= k < entities@.len() ==> (#[trigger] entities@[k]) == (old(self).chunk(
                    outside_window(old(self), old(self).loaded())[k],
                )->0).entity,
    {
        let chunks_to_unload = self.chunks_to_unload();
        let ghost gone = chunks_to_unload@;
        let mut entities: Vec<u64> = Vec::new();
        let mut i: usize = 0;
        proof {
            assert(gone.take(0) =~= Seq::<IVec3>::empty());
            self.lemma_wf();
        }
        while i < chunks_to_unload.len()
            invariant
                i <= gone.len(),
                gone == chunks_to_unload@,
                gone.no_duplicates(),
                forall|p: IVec3| #[trigger]
                    gone.contains(p) <==> (old(self).is_loaded(p) && !old(self).spec_is_visible_chunk(
                        p,
                    )),
                old(self).wf(),
                self.wf(),
                self.center() == old(self).center(),
                self.radius() == old(self).radius(),
                self.last_save_time() == old(self).last_save_time(),
                self.generation_tasks() == old(self).generation_tasks(),
                self.dirty_positions() == old(self).dirty_positions(),
                forall|p: IVec3| #[trigger] self.dirty(p) == old(self).dirty(p),
                self.loaded() == after_removal(old(self).loaded(), gone.take(i as int)),
                forall|p: IVec3| #[trigger]
                    self.is_loaded(p) <==> (old(self).is_loaded(p) && !gone.take(i as int).contains(p)),
                forall|p: IVec3|
                    #[trigger] self.is_loaded(p) ==> self.chunk(p) == Some(
                        if near_any(gone.take(i as int), p) {
                            invalidated(old(self).chunk(p)->0)
                        } else {
                            old(self).chunk(p)->0
                        },
                    ),
                forall|p: IVec3| #[trigger]
                    self.light_tasks().contains(p) <==> (old(self).light_tasks().contains(p)
                        && !gone.take(i as int).contains(p) && !near_any(gone.take(i as int), p)),
                forall|p: IVec3| #[trigger]
                    self.mesh_tasks().contains(p) <==> (old(self).mesh_tasks().contains(p)
                        && !gone.take(i as int).contains(p) && !near_any(gone.take(i as int), p)),
                forall|p: IVec3|
                    #[trigger] self.pending(p) == (if near_any(gone.take(i as int), p) {
                        None
                    } else {
                        old(self).pending(p)
                    }),
                entities@.len() == i,
                forall|k: int|
                    0 <= k < i ==> (#[trigger] entities@[k]) == (old(self).chunk(gone[k])->0).entity,
            decreases gone.len() - i,
        {
            let chunk_pos = chunks_to_unload[i];
            let ghost before = *self;
            proof {
                lemma_take_next(gone, i as int);
                before.lemma_wf();
                assert(gone.take(i as int + 1).drop_last() =~= gone.take(i as int));
                assert(before.is_loaded(chunk_pos));
                assert forall|p: IVec3|
                    near_any(gone.take(i as int + 1), p) <==> (near_any(gone.take(i as int), p)
                        || is_neighbor(chunk_pos, p)) by {
                    lemma_near_any_next(gone, i as int, p);
                }
            }
            let ghost listed = entities@;
            match self.remove_chunk(chunk_pos) {
                Some(entity) => {
                    entities.push(entity);
                },
                None => {},
            }
            proof {
                assert(old(self).chunk(chunk_pos) is Some);
                assert(before.chunk(chunk_pos)->0.entity == old(self).chunk(chunk_pos)->0.entity);
                assert(entities@ == listed.push(old(self).chunk(chunk_pos)->0.entity));
                assert forall|k: int| 0 <= k < i + 1 implies (#[trigger] entities@[k]) == (old(
                    self,
                ).chunk(gone[k])->0).entity by {
                    if k < i {
                        assert(entities@[k] == listed[k]);
                    }
                }
            }
            self.invalidate_neighbors(chunk_pos);
            i += 1;
        }
        proof {
            assert(gone.take(gone.len() as int) =~= gone);
            old(self).lemma_wf();
        }
        entities
    }
}

/// `a` comes before `b` when positions are ordered by `x`, then `y`, then
/// `z`.
pub open spec fn lex_less(a: IVec3, b: IVec3) -> bool {
    a.x < b.x || (a.x == b.x && (a.y < b.y || (a.y == b.y && a.z < b.z)))
}

/// Number of tasks that may be started beside those that run.
pub open spec fn free_slots(running: Seq<IVec3>) -> int {
    if running.len() >= MAX_TASKS {
        0
    } else {
        MAX_TASKS - running.len()
    }
}

proof fn lemma_square_bound(d: int, r: int)
    by (nonlinear_arith)
    requires
        r >= 0,
        d * d <= r * r,
    ensures
        -r <= d <= r,
{
}

impl World {
    /// A chunk can be generated: it lies in the streaming window, is not
    /// loaded, and is not being generated.
    pub open spec fn is_generation_candidate(&self, p: IVec3) -> bool {
        &&& self.spec_is_visible_chunk(p)
        &&& !self.is_loaded(p)
        &&& !self.generation_tasks().contains(p)
    }

    /// What chunks are generated in the order of: nearer to the center
    /// first, and among chunks at the same distance the one that comes first
    /// by `x`, then `y`, then `z`.
    pub open spec fn generation_before(&self, p: IVec3, q: IVec3) -> bool {
        let a = self.spec_chunk_sort_key(p);
        let b = self.spec_chunk_sort_key(q);
        key_less((0u8, a.0, a.1), (0u8, b.0, b.1)) || (a == b && lex_less(p, q))
    }

    /// Every chunk of the streaming window lies within the radius of the
    /// center on each axis.
    pub proof fn lemma_visible_bounds(&self, p: IVec3)
        requires
            self.spec_is_visible_chunk(p),
        ensures
            self.radius() >= 0,
            -self.radius() <= p.x - self.center().x <= self.radius(),
            -self.radius() <= p.y - self.center().y <= self.radius(),
            -self.radius() <= p.z - self.center().z <= self.radius(),
    {
        let dx = p.x - self.center().x;
        let dz = p.z - self.center().z;
        let r = self.radius() as int;
        assert(dx * dx >= 0 && dz * dz >= 0) by (nonlinear_arith);
        lemma_square_bound(dx, r);
        lemma_square_bound(dz, r);
    }

    /// The chunks that can be generated, ordered by `x`, then `y`, then `z`.
    fn generation_candidates(&self) -> (candidates: Vec<IVec3>)
        requires
            self.wf(),
        ensures
            forall|a: int, b: int|
                0 <= a < b < candidates@.len() ==> lex_less(
                    #[trigger] candidates@[a],
                    #[trigger] candidates@[b],
                ),
            forall|p: IVec3| #[trigger] candidates@.contains(p) <==> self.is_generation_candidate(p),
    {
        let mut candidates: Vec<IVec3> = Vec::new();
        let r = self.generation_radius as i64;
        let cx = self.center_pos.x as i64;
        let cy = self.center_pos.y as i64;
        let cz = self.center_pos.z as i64;
        if r < 0 {
            return candidates;
        }
        proof {
            self.lemma_wf();
            assert forall|p: IVec3| #[trigger] self.is_generation_candidate(p) implies -r <= p.x - cx
                <= r && -r <= p.y - cy <= r && -r <= p.z - cz <= r by {
                self.lemma_visible_bounds(p);
            }
        }
        // Look for visible chunks in a cube around the center (not all of
        // these are visible)
        let mut x: i64 = -r;
        while x <= r
            invariant
                self.wf(),
                0 <= r <= i32::MAX,
                r == self.radius(),
                cx == self.center().x,
                cy == self.center().y,
                cz == self.center().z,
                -r <= x <= r + 1,
                forall|p: IVec3| #[trigger]
                    self.is_generation_candidate(p) ==> -r <= p.x - cx <= r && -r <= p.y - cy <= r
                        && -r <= p.z - cz <= r,
                forall|a: int, b: int|
                    0 <= a < b < candidates@.len() ==> lex_less(
                        #[trigger] candidates@[a],
                        #[trigger] candidates@[b],
                    ),
                forall|p: IVec3| #[trigger]
                    candidates@.contains(p) <==> (self.is_generation_candidate(p) && p.x - cx < x),
            decreases r + 1 - x,
        {
            let mut y: i64 = -r;
            while y <= r
                invariant
                    self.wf(),
                    0 <= r <= i32::MAX,
                    r == self.radius(),
                    cx == self.center().x,
                    cy == self.center().y,
                    cz == self.center().z,
                    -r <= x <= r,
                    -r <= y <= r + 1,
                forall|p: IVec3| #[trigger]
                    self.is_generation_candidate(p) ==> -r <= p.x - cx <= r && -r <= p.y - cy <= r
                        && -r <= p.z - cz <= r,
                    forall|a: int, b: int|
                        0 <= a < b < candidates@.len() ==> lex_less(
                            #[trigger] candidates@[a],
                            #[trigger] candidates@[b],
                        ),
                    forall|p: IVec3| #[trigger]
                        candidates@.contains(p) <==> (self.is_generation_candidate(p) && (p.x - cx < x
                            || (p.x - cx == x && p.y - cy < y))),
                decreases r + 1 - y,
            {
                let mut z: i64 = -r;
                while z <= r
                    invariant
                        self.wf(),
                        0 <= r <= i32::MAX,
                        r == self.radius(),
                        cx == self.center().x,
                        cy == self.center().y,
                        cz == self.center().z,
                        -r <= x <= r,
                        -r <= y <= r,
                        -r <= z <= r + 1,
                forall|p: IVec3| #[trigger]
                    self.is_generation_candidate(p) ==> -r <= p.x - cx <= r && -r <= p.y - cy <= r
                        && -r <= p.z - cz <= r,
                        forall|a: int, b: int|
                            0 <= a < b < candidates@.len() ==> lex_less(
                                #[trigger] candidates@[a],
                                #[trigger] candidates@[b],
                            ),
                        forall|p: IVec3| #[trigger]
                            candidates@.contains(p) <==> (self.is_generation_candidate(p) && (p.x - cx
                                < x || (p.x - cx == x && (p.y - cy < y || (p.y - cy == y && p.z - cz
                                < z))))),
                    decreases r + 1 - z,
                {
                    let px = cx + x;
                    let py = cy + y;
                    let pz = cz + z;
                    if px >= i32::MIN as i64 && px <= i32::MAX as i64 && py >= i32::MIN as i64 && py
                        <= i32::MAX as i64 && pz >= i32::MIN as i64 && pz <= i32::MAX as i64 {
                        let chunk_pos = IVec3 { x: px as i32, y: py as i32, z: pz as i32 };
                        // Don't load chunks multiple times
                        if self.is_visible_chunk(chunk_pos) && !self.chunks.contains_key(chunk_pos)
                            && !self.generation_tasks.contains(chunk_pos) {
                            let ghost before = candidates@;
                            proof {
                                self.lemma_wf();
                                assert forall|k: int| 0 <= k < before.len() implies lex_less(
                                    #[trigger] before[k],
                                    chunk_pos,
                                ) by {
                                    assert(before.contains(before[k]));
                                }
                                assert(!before.contains(chunk_pos));
                                lemma_push_fresh_any(before, chunk_pos);
                            }
                            candidates.push(chunk_pos);
                        }
                    }
                    proof {
                        self.lemma_wf();
                    }
                    z += 1;
                }
                y += 1;
            }
            x += 1;
        }
        candidates
    }

    /// Starts generation tasks: as many as there are free slots, for the
    /// chunks that can be generated and come first in the order of
    /// generation. Returns the chunks for which a task is to be started, in
    /// that order; they are noted as being generated.
    pub fn plan_generation(&mut self) -> (spawned: Vec<IVec3>)
        requires
            old(self).wf(),
        ensures
            final(self).wf(),
            final(self).same_scene(old(self)),
            final(self).light_tasks() == old(self).light_tasks(),
            final(self).mesh_tasks() == old(self).mesh_tasks(),
            final(self).generation_tasks() == old(self).generation_tasks() + spawned@,
            spawned@.len() <= free_slots(old(self).generation_tasks()),
            spawned@.no_duplicates(),
            forall|k: int|
                0 <= k < spawned@.len() ==> old(self).is_generation_candidate(#[trigger] spawned@[k]),
            forall|a: int, b: int|
                0 <= a < b < spawned@.len() ==> old(self).generation_before(
                    #[trigger] spawned@[a],
                    #[trigger] spawned@[b],
                ),
            forall|p: IVec3, k: int|
                old(self).is_generation_candidate(p) && !spawned@.contains(p) && 0 <= k
                    < spawned@.len() ==> #[trigger] old(self).generation_before(spawned@[k], p),
            spawned@.len() < free_slots(old(self).generation_tasks()) ==> forall|p: IVec3| #[trigger]
                old(self).is_generation_candidate(p) ==> spawned@.contains(p),
    {
        let candidates = self.generation_candidates();
        let mut keys: Vec<SortKey> = Vec::new();
        let mut eligible: Vec<bool> = Vec::new();
        let mut i: usize = 0;
        while i < candidates.len()
            invariant
                i <= candidates@.len(),
                keys@.len() == i,
                eligible@.len() == i,
                forall|k: int| 0 <= k < i ==> #[trigger] eligible@[k],
                forall|k: int|
                    0 <= k < i ==> #[trigger] keys@[k] == (
                        0u8,
                        self.spec_chunk_sort_key(candidates@[k]).0,
                        self.spec_chunk_sort_key(candidates@[k]).1,
                    ),
            decreases candidates@.len() - i,
        {
            let key = self.chunk_sort_key(candidates[i]);
            keys.push((0, key.0, key.1));
            eligible.push(true);
            i += 1;
        }
        let running = self.generation_tasks.len();
        let capacity = if running >= MAX_TASKS { 0 } else { MAX_TASKS - running };
        proof {
            assert forall|a: int, b: int| 0 <= a < b < candidates@.len() implies candidates@[a]
                != candidates@[b] by {
                assert(lex_less(candidates@[a], candidates@[b]));
            }
        }
        let spawned = pick_first(&candidates, &keys, &eligible, capacity);
        proof {
            let base = candidates@;
            assert forall|k: int| 0 <= k < spawned@.len() implies 0 <= place_of(
                base,
                #[trigger] spawned@[k],
            ) < base.len() && base[place_of(base, spawned@[k])] == spawned@[k] by {
                assert(base.contains(spawned@[k]));
            }
            assert forall|a: int, b: int| 0 <= a < b < spawned@.len() implies old(
                self,
            ).generation_before(#[trigger] spawned@[a], #[trigger] spawned@[b]) by {
                let i = place_of(base, spawned@[a]);
                let j = place_of(base, spawned@[b]);
                assert(ranks_before(keys@, i, j));
                if i < j {
                    assert(lex_less(base[i], base[j]));
                }
            }
            assert forall|p: IVec3, k: int|
                old(self).is_generation_candidate(p) && !spawned@.contains(p) && 0 <= k
                    < spawned@.len() implies #[trigger] old(self).generation_before(spawned@[k], p) by {
                assert(base.contains(p));
                let j = place_of(base, p);
                let i = place_of(base, spawned@[k]);
                assert(ranks_before(keys@, i, j));
                if i < j {
                    assert(lex_less(base[i], base[j]));
                }
            }
            if spawned@.len() < capacity {
                assert forall|p: IVec3| #[trigger]
                    old(self).is_generation_candidate(p) implies spawned@.contains(p) by {
                    assert(base.contains(p));
                    let j = place_of(base, p);
                    assert(eligible@[j]);
                }
            }
        }
        let mut k: usize = 0;
        proof {
            assert(spawned@.take(0) =~= Seq::<IVec3>::empty());
            assert(self.generation_tasks@ + Seq::<IVec3>::empty() =~= self.generation_tasks@);
        }
        while k < spawned.len()
            invariant
                k <= spawned@.len(),
                self.wf(),
                self.same_scene(old(self)),
                self.light_tasks() == old(self).light_tasks(),
                self.mesh_tasks() == old(self).mesh_tasks(),
                spawned@.no_duplicates(),
                forall|j: int|
                    0 <= j < spawned@.len() ==> old(self).is_generation_candidate(
                        #[trigger] spawned@[j],
                    ),
                self.generation_tasks() == old(self).generation_tasks() + spawned@.take(k as int),
                spawned@.len() <= free_slots(old(self).generation_tasks()),
            decreases spawned@.len() - k,
        {
            let chunk_pos = spawned[k];
            proof {
                lemma_take_next(spawned@, k as int);
                assert(old(self).is_generation_candidate(spawned@[k as int]));
                let so_far = old(self).generation_tasks() + spawned@.take(k as int);
                if so_far.contains(chunk_pos) {
                    let j = choose|j: int| 0 <= j < so_far.len() && so_far[j] == chunk_pos;
                    if j < old(self).generation_tasks().len() {
                        assert(old(self).generation_tasks()[j] == chunk_pos);
                    } else {
                        assert(spawned@.take(k as int)[j - old(self).generation_tasks().len()]
                            == chunk_pos);
                    }
                }
                assert(so_far.push(chunk_pos) =~= old(self).generation_tasks() + spawned@.take(
                    k as int + 1,
                ));
            }
            self.start_generation_task(chunk_pos);
            k += 1;
        }
        proof {
            assert(spawned@.take(spawned@.len() as int) =~= spawned@);
        }
        spawned
    }

    /// Notes that a generation task runs for a chunk.
    fn start_generation_task(&mut self, chunk_pos: IVec3)
        requires
            old(self).wf(),
            !old(self).is_loaded(chunk_pos),
            !old(self).generation_tasks().contains(chunk_pos),
            old(self).generation_tasks().len() < MAX_TASKS,
        ensures
            final(self).wf(),
            final(self).same_scene(old(self)),
            final(self).light_tasks() == old(self).light_tasks(),
            final(self).mesh_tasks() == old(self).mesh_tasks(),
            final(self).generation_tasks() == old(self).generation_tasks().push(chunk_pos),
    {
        proof {
            self.lemma_wf();
            lemma_push_fresh(self.generation_tasks@, chunk_pos);
        }
        self.generation_tasks.insert(chunk_pos);
    }

    /// Notes that a light task runs for a loaded chunk.
    fn start_light_task(&mut self, chunk_pos: IVec3)
        requires
            old(self).wf(),
            old(self).is_loaded(chunk_pos),
            !old(self).light_tasks().contains(chunk_pos),
            old(self).light_tasks().len() < MAX_TASKS,
        ensures
            final(self).wf(),
            final(self).same_scene(old(self)),
            final(self).generation_tasks() == old(self).generation_tasks(),
            final(self).mesh_tasks() == old(self).mesh_tasks(),
            final(self).light_tasks() == old(self).light_tasks().push(chunk_pos),
    {
        proof {
            self.lemma_wf();
            lemma_push_fresh(self.light_tasks@, chunk_pos);
        }
        self.light_tasks.insert(chunk_pos);
    }

    /// Notes that a mesh task runs for a loaded chunk.
    fn start_mesh_task(&mut self, chunk_pos: IVec3)
        requires
            old(self).wf(),
            old(self).is_loaded(chunk_pos),
            !old(self).mesh_tasks().contains(chunk_pos),
            old(self).mesh_tasks().len() < MAX_TASKS,
        ensures
            final(self).wf(),
            final(self).same_scene(old(self)),
            final(self).generation_tasks() == old(self).generation_tasks(),
            final(self).light_tasks() == old(self).light_tasks(),
            final(self).mesh_tasks() == old(self).mesh_tasks().push(chunk_pos),
    {
        proof {
            self.lemma_wf();
            lemma_push_fresh(self.mesh_tasks@, chunk_pos);
        }
        self.mesh_tasks.insert(chunk_pos);
    }

    /// The center, the radius, the time of the last save, the loaded chunks
    /// with their records, the mesh results that are held back and the
    /// chunks that wait for a save are as in `before`.
    pub open spec fn same_scene(&self, before: &World) -> bool {
        &&& self.center() == before.center()
        &&& self.radius() == before.radius()
        &&& self.last_save_time() == before.last_save_time()
        &&& self.loaded() == before.loaded()
        &&& self.dirty_positions() == before.dirty_positions()
        &&& self.pending_positions() == before.pending_positions()
        &&& forall|p: IVec3| #[trigger] self.chunk(p) == before.chunk(p)
        &&& forall|p: IVec3| #[trigger] self.dirty(p) == before.dirty(p)
        &&& forall|p: IVec3| #[trigger] self.pending(p) == before.pending(p)
    }
}

/// Adding an item that a sequence does not hold adds it to what the
/// sequence holds.
pub proof fn lemma_push_fresh_any<T>(items: Seq<T>, item: T)
    ensures
        forall|x: T| #[trigger] items.push(item).contains(x) <==> (items.contains(x) || x == item),
{
    let out = items.push(item);
    assert forall|x: T| #[trigger] out.contains(x) <==> (items.contains(x) || x == item) by {
        if out.contains(x) {
            let j = choose|j: int| 0 <= j < out.len() && out[j] == x;
            if j < items.len() {
                assert(items[j] == x);
            }
        }
        if items.contains(x) {
            let j = choose|j: int| 0 <= j < items.len() && items[j] == x;
            assert(out[j] == x);
        }
        if x == item {
            assert(out[items.len() as int] == x);
        }
    }
}

/// What a generation task hands back: the blocks of the chunk, and whether
/// they are new and have to be saved.
pub struct GenerationResult {
    pub chunk_data: ChunkData,
    pub needs_saving: bool,
}

impl GenerationResult {
    /// The result for a chunk that was read from its region.
    pub fn loaded(chunk_data: ChunkData) -> (result: GenerationResult)
        ensures
            result.chunk_data == chunk_data,
            !result.needs_saving,
    {
        GenerationResult { chunk_data, needs_saving: false }
    }

    /// The result for a chunk that the generator made.
    pub fn generated(chunk_data: ChunkData) -> (result: GenerationResult)
        ensures
            result.chunk_data == chunk_data,
            result.needs_saving,
    {
        GenerationResult { chunk_data, needs_saving: true }
    }
}

impl World {
    /// Notes that a chunk waits for the next save.
    fn mark_dirty(&mut self, chunk_pos: IVec3, data: ChunkData)
        requires
            old(self).wf(),
            data.wf(),
        ensures
            final(self).wf(),
            final(self).center() == old(self).center(),
            final(self).radius() == old(self).radius(),
            final(self).last_save_time() == old(self).last_save_time(),
            final(self).loaded() == old(self).loaded(),
            final(self).generation_tasks() == old(self).generation_tasks(),
            final(self).light_tasks() == old(self).light_tasks(),
            final(self).mesh_tasks() == old(self).mesh_tasks(),
            final(self).pending_positions() == old(self).pending_positions(),
            forall|p: IVec3| #[trigger] final(self).chunk(p) == old(self).chunk(p),
            forall|p: IVec3| #[trigger] final(self).pending(p) == old(self).pending(p),
            final(self).dirty(chunk_pos) == Some(data),
            forall|p: IVec3| p != chunk_pos ==> #[trigger] final(self).dirty(p) == old(self).dirty(p),
    {
        proof {
            self.chunks_to_save.lemma_wf();
        }
        let slot = self.chunks_to_save.insert(chunk_pos, data);
        proof {
            assert forall|i: int| 0 <= i < self.chunks_to_save.values().len() implies (
            #[trigger] self.chunks_to_save.values()[i]).wf() by {
                if i != slot {
                    assert(self.chunks_to_save.values()[i] == old(self).chunks_to_save.values()[i]);
                }
            }
        }
    }

    /// Puts a chunk that is not loaded yet into the table, behind the last.
    fn install_chunk(&mut self, chunk_pos: IVec3, chunk: Chunk)
        requires
            old(self).wf(),
            !old(self).is_loaded(chunk_pos),
            !old(self).generation_tasks().contains(chunk_pos),
            chunk.data.wf(),
            chunk.light.wf(),
        ensures
            final(self).wf(),
            final(self).center() == old(self).center(),
            final(self).radius() == old(self).radius(),
            final(self).last_save_time() == old(self).last_save_time(),
            final(self).loaded() == old(self).loaded().push(chunk_pos),
            final(self).generation_tasks() == old(self).generation_tasks(),
            final(self).light_tasks() == old(self).light_tasks(),
            final(self).mesh_tasks() == old(self).mesh_tasks(),
            final(self).pending_positions() == old(self).pending_positions(),
            final(self).dirty_positions() == old(self).dirty_positions(),
            forall|p: IVec3| #[trigger] final(self).dirty(p) == old(self).dirty(p),
            forall|p: IVec3| #[trigger] final(self).pending(p) == old(self).pending(p),
            final(self).chunk(chunk_pos) == Some(chunk),
            forall|p: IVec3| p != chunk_pos ==> #[trigger] final(self).chunk(p) == old(self).chunk(p),
    {
        proof {
            self.lemma_wf();
            self.chunks.lemma_wf();
            lemma_push_fresh(self.chunks.keys(), chunk_pos);
        }
        let slot = self.chunks.insert(chunk_pos, chunk);
        proof {
            assert forall|i: int| 0 <= i < self.chunks.values().len() implies (
            #[trigger] self.chunks.values()[i]).data.wf() && self.chunks.values()[i].light.wf() by {
                if i != slot {
                    assert(self.chunks.values()[i] == old(self).chunks.values()[i]);
                }
            }
        }
    }

    /// Takes the generation task of a chunk away.
    fn finish_generation_task(&mut self, chunk_pos: IVec3)
        requires
            old(self).wf(),
        ensures
            final(self).wf(),
            final(self).same_scene(old(self)),
            final(self).light_tasks() == old(self).light_tasks(),
            final(self).mesh_tasks() == old(self).mesh_tasks(),
            !final(self).generation_tasks().contains(chunk_pos),
            forall|p: IVec3|
                p != chunk_pos ==> (#[trigger] final(self).generation_tasks().contains(p) <==> old(
                    self,
                ).generation_tasks().contains(p)),
    {
        proof {
            self.generation_tasks.lemma_wf();
        }
        match self.generation_tasks.swap_remove(chunk_pos) {
            Some(i) => {
                proof {
                    lemma_swap_removed(old(self).generation_tasks@, i as int);
                }
            },
            None => {},
        }
    }

    /// Takes in the result of a generation task. A result for a chunk that
    /// is not being generated is dropped, and nothing changes. Else the chunk
    /// is loaded behind the last chunk of the table, with no light, pending
    /// light and a queued mesh; where the result says so, it waits for the
    /// next save; and the light of the chunks around it is invalidated.
    pub fn complete_generation(&mut self, chunk_pos: IVec3, result: GenerationResult, entity: u64) -> (accepted:
        bool)
        requires
            old(self).wf(),
            result.chunk_data.wf(),
        ensures
            final(self).wf(),
            accepted == old(self).generation_tasks().contains(chunk_pos),
            final(self).center() == old(self).center(),
            final(self).radius() == old(self).radius(),
            final(self).last_save_time() == old(self).last_save_time(),
            !accepted ==> {
                &&& final(self).same_scene(old(self))
                &&& final(self).generation_tasks() == old(self).generation_tasks()
                &&& final(self).light_tasks() == old(self).light_tasks()
                &&& final(self).mesh_tasks() == old(self).mesh_tasks()
            },
            accepted ==> {
                &&& final(self).loaded() == old(self).loaded().push(chunk_pos)
                &&& !final(self).generation_tasks().contains(chunk_pos)
                &&& forall|p: IVec3|
                    p != chunk_pos ==> (#[trigger] final(self).generation_tasks().contains(p) <==> old(
                        self,
                    ).generation_tasks().contains(p))
                &&& final(self).chunk(chunk_pos) matches Some(c) && c.data == result.chunk_data
                    && c.light.sky() == Seq::new(CHUNK_VOLUME as nat, |i: int| 0u8) && c.light.block()
                    == Seq::new(CHUNK_VOLUME as nat, |i: int| 0u8) && c.light_status
                    == LightStatus::Pending && c.mesh_status == MeshStatus::Queued && c.entity
                    == entity
                &&& forall|p: IVec3|
                    p != chunk_pos ==> #[trigger] final(self).chunk(p) == (if is_neighbor(
                        chunk_pos,
                        p,
                    ) {
                        match old(self).chunk(p) {
                            Some(c) => Some(invalidated(c)),
                            None => None,
                        }
                    } else {
                        old(self).chunk(p)
                    })
                &&& forall|p: IVec3| #[trigger]
                    final(self).light_tasks().contains(p) <==> (old(self).light_tasks().contains(p)
                        && !is_neighbor(chunk_pos, p))
                &&& forall|p: IVec3| #[trigger]
                    final(self).mesh_tasks().contains(p) <==> (old(self).mesh_tasks().contains(p)
                        && !is_neighbor(chunk_pos, p))
                &&& forall|p: IVec3|
                    #[trigger] final(self).pending(p) == (if is_neighbor(chunk_pos, p) {
                        None
                    } else {
                        old(self).pending(p)
                    })
                &&& forall|p: IVec3|
                    p != chunk_pos ==> #[trigger] final(self).dirty(p) == old(self).dirty(p)
                &&& if result.needs_saving {
                    final(self).dirty(chunk_pos) == Some(result.chunk_data)
                } else {
                    final(self).dirty(chunk_pos) == old(self).dirty(chunk_pos)
                }
            },
    {
        if !self.generation_tasks.contains(chunk_pos) {
            return false;
        }
        proof {
            self.lemma_wf();
        }
        self.finish_generation_task(chunk_pos);
        // New chunk affects light and meshes of neighbors
        self.invalidate_neighbors(chunk_pos);
        // Insert the data and queue it for meshing
        if result.needs_saving {
            let snapshot = arc_clone(&result.chunk_data);
            self.mark_dirty(chunk_pos, snapshot);
        }
        proof {
            self.lemma_wf();
        }
        self.install_chunk(
            chunk_pos,
            Chunk {
                data: result.chunk_data,
                light: Arc::new(LightDataInner::new()),
                light_status: LightStatus::Pending,
                mesh_status: MeshStatus::Queued,
                entity,
            },
        );
        true
    }

    /// The blocks of the chunk at `center_pos` and of the loaded chunks
    /// around it, as they are now.
    pub fn relevant_chunks(&self, center_pos: IVec3) -> (chunks: RelevantChunks)
        requires
            self.wf(),
        ensures
            chunks.wf(),
            forall|p: IVec3| #[trigger]
                chunks.chunk(p) is Some <==> (in_neighborhood(center_pos, p) && self.is_loaded(p)),
            forall|p: IVec3| #[trigger]
                chunks.chunk(p) is Some ==> chunks.chunk(p)->0 == self.chunk(p)->0.data,
    {
        let mut chunks = RelevantChunks::new();
        proof {
            self.lemma_wf();
        }
        match self.chunks.get(center_pos) {
            Some(chunk) => {
                chunks.insert(center_pos, arc_clone(&chunk.data));
            },
            None => {},
        }
        let neighbors = get_neighbors(center_pos);
        let mut i: usize = 0;
        proof {
            assert(neighbors@.take(0) =~= Seq::<IVec3>::empty());
        }
        while i < neighbors.len()
            invariant
                i <= neighbors@.len(),
                self.wf(),
                chunks.wf(),
                neighbors@.no_duplicates(),
                forall|p: IVec3| #[trigger] neighbors@.contains(p) <==> is_neighbor(center_pos, p),
                forall|p: IVec3| #[trigger]
                    chunks.chunk(p) is Some <==> ((p == center_pos || neighbors@.take(
                        i as int,
                    ).contains(p)) && self.is_loaded(p)),
                forall|p: IVec3| #[trigger]
                    chunks.chunk(p) is Some ==> chunks.chunk(p)->0 == self.chunk(p)->0.data,
            decreases neighbors@.len() - i,
        {
            let pos = neighbors[i];
            proof {
                lemma_take_next(neighbors@, i as int);
                self.lemma_wf();
            }
            match self.chunks.get(pos) {
                Some(chunk) => {
                    chunks.insert(pos, arc_clone(&chunk.data));
                },
                None => {},
            }
            i += 1;
        }
        proof {
            assert(neighbors@.take(neighbors@.len() as int) =~= neighbors@);
        }
        chunks
    }

    /// The light that the loaded chunks around `chunk_pos` hold, around a
    /// center of the given light.
    pub fn lights_around(&self, chunk_pos: IVec3, center: LightData) -> (lights: RelevantLights)
        requires
            self.wf(),
            center.wf(),
        ensures
            lights.wf(),
            lights.center_pos() == chunk_pos,
            lights.light_of(chunk_pos) == Some(center),
            forall|p: IVec3|
                p != chunk_pos ==> (#[trigger] lights.light_of(p) is Some <==> (is_neighbor(
                    chunk_pos,
                    p,
                ) && self.is_loaded(p))),
            forall|p: IVec3|
                p != chunk_pos && #[trigger] lights.light_of(p) is Some ==> lights.light_of(p)->0
                    == self.chunk(p)->0.light,
    {
        let mut lights = RelevantLights::new(chunk_pos, center);
        let neighbors = get_neighbors(chunk_pos);
        let mut i: usize = 0;
        proof {
            assert(neighbors@.take(0) =~= Seq::<IVec3>::empty());
        }
        while i < neighbors.len()
            invariant
                i <= neighbors@.len(),
                neighbors@.len() <= 26,
                self.wf(),
                lights.wf(),
                lights.center_pos() == chunk_pos,
                lights.neighbor_count() <= i,
                lights.light_of(chunk_pos) == Some(center),
                neighbors@.no_duplicates(),
                forall|p: IVec3| #[trigger] neighbors@.contains(p) <==> is_neighbor(chunk_pos, p),
                forall|p: IVec3|
                    p != chunk_pos ==> (#[trigger] lights.light_of(p) is Some <==> (neighbors@.take(
                        i as int,
                    ).contains(p) && self.is_loaded(p))),
                forall|p: IVec3|
                    p != chunk_pos && #[trigger] lights.light_of(p) is Some ==> lights.light_of(p)->0
                        == self.chunk(p)->0.light,
            decreases neighbors@.len() - i,
        {
            let pos = neighbors[i];
            proof {
                lemma_take_next(neighbors@, i as int);
                self.lemma_wf();
            }
            match self.chunks.get(pos) {
                Some(chunk) => {
                    lights.add_neighbor(pos, arc_clone(&chunk.light));
                },
                None => {},
            }
            i += 1;
        }
        proof {
            assert(neighbors@.take(neighbors@.len() as int) =~= neighbors@);
        }
        lights
    }
}

impl RelevantChunks {
    /// The blocks of the chunk at `center_pos` and of the loaded chunks
    /// around it, as the world holds them now.
    pub fn from_world(world: &World, center_pos: IVec3) -> (chunks: RelevantChunks)
        requires
            world.wf(),
        ensures
            chunks.wf(),
            forall|p: IVec3| #[trigger]
                chunks.chunk(p) is Some <==> (in_neighborhood(center_pos, p) && world.is_loaded(p)),
            forall|p: IVec3| #[trigger]
                chunks.chunk(p) is Some ==> chunks.chunk(p)->0 == world.chunk(p)->0.data,
    {
        world.relevant_chunks(center_pos)
    }
}

/// A chunk after its light was computed: it holds the new light, which is
/// complete, and its mesh is queued unless it is urgent already.
pub open spec fn relit(chunk: Chunk, light: LightData) -> Chunk {
    Chunk {
        data: chunk.data,
        light,
        light_status: LightStatus::Complete,
        mesh_status: if chunk.mesh_status == MeshStatus::Urgent {
            MeshStatus::Urgent
        } else {
            MeshStatus::Queued
        },
        entity: chunk.entity,
    }
}

/// The block light in the outermost layer of a chunk differs between two
/// light values.
pub open spec fn border_changed(before: LightData, after: LightData) -> bool {
    exists|i: int|
        0 <= i < CHUNK_VOLUME && on_chunk_face(i) && #[trigger] before.block()[i] != after.block()[i]
}

impl World {
    /// The light of a chunk can be computed: each of the 26 chunks around it
    /// is loaded or lies outside the streaming window.
    pub open spec fn can_light(&self, p: IVec3) -> bool {
        forall|n: IVec3| #[trigger]
            is_neighbor(p, n) ==> self.is_loaded(n) || !self.spec_is_visible_chunk(n)
    }

    /// A light task can be started for a chunk: it is loaded, its light is
    /// pending, no light task runs for it, and its light can be computed.
    pub open spec fn light_eligible(&self, p: IVec3) -> bool {
        &&& self.chunk(p) matches Some(c) && c.light_status == LightStatus::Pending
        &&& !self.light_tasks().contains(p)
        &&& self.can_light(p)
    }

    /// For each loaded chunk, in table order, what it is ordered by where
    /// all chunks have the same priority.
    pub open spec fn plain_keys(&self) -> Seq<SortKey> {
        Seq::new(
            self.loaded().len(),
            |i: int|
                (
                    0u8,
                    self.spec_chunk_sort_key(self.loaded()[i]).0,
                    self.spec_chunk_sort_key(self.loaded()[i]).1,
                ),
        )
    }

    /// For each loaded chunk, in table order, whether a light task can be
    /// started for it.
    pub open spec fn light_eligibility(&self) -> Seq<bool> {
        Seq::new(self.loaded().len(), |i: int| self.light_eligible(self.loaded()[i]))
    }

    fn can_light_now(&self, chunk_pos: IVec3) -> (ready: bool)
        requires
            self.wf(),
        ensures
            ready == self.can_light(chunk_pos),
    {
        let neighbors = get_neighbors(chunk_pos);
        let mut i: usize = 0;
        while i < neighbors.len()
            invariant
                i <= neighbors@.len(),
                self.wf(),
                forall|p: IVec3| #[trigger] neighbors@.contains(p) <==> is_neighbor(chunk_pos, p),
                forall|k: int|
                    0 <= k < i ==> self.is_loaded(#[trigger] neighbors@[k])
                        || !self.spec_is_visible_chunk(neighbors@[k]),
            decreases neighbors@.len() - i,
        {
            let n = neighbors[i];
            proof {
                self.lemma_wf();
            }
            if !self.chunks.contains_key(n) && self.is_visible_chunk(n) {
                proof {
                    assert(neighbors@.contains(n));
                }
                return false;
            }
            i += 1;
        }
        proof {
            assert forall|n: IVec3| #[trigger] is_neighbor(chunk_pos, n) implies self.is_loaded(n)
                || !self.spec_is_visible_chunk(n) by {
                assert(neighbors@.contains(n));
                let k = choose|k: int| 0 <= k < neighbors@.len() && neighbors@[k] == n;
                assert(self.is_loaded(neighbors@[k]) || !self.spec_is_visible_chunk(neighbors@[k]));
            }
        }
        true
    }

    /// Starts light tasks: as many as there are free slots, for the chunks
    /// for which one can be started, nearest to the center first, and in
    /// table order among chunks at the same distance. Returns the chunks for
    /// which a task is to be started, in that order; they are noted as being
    /// lit.
    pub fn plan_lighting(&mut self) -> (spawned: Vec<IVec3>)
        requires
            old(self).wf(),
        ensures
            final(self).wf(),
            final(self).same_scene(old(self)),
            final(self).generation_tasks() == old(self).generation_tasks(),
            final(self).mesh_tasks() == old(self).mesh_tasks(),
            final(self).light_tasks() == old(self).light_tasks() + spawned@,
            is_pick(
                old(self).loaded(),
                old(self).plain_keys(),
                old(self).light_eligibility(),
                free_slots(old(self).light_tasks()),
                spawned@,
            ),
    {
        let mut base: Vec<IVec3> = Vec::new();
        let mut keys: Vec<SortKey> = Vec::new();
        let mut eligible: Vec<bool> = Vec::new();
        let count = self.chunks.len();
        let mut i: usize = 0;
        while i < count
            invariant
                i <= count,
                count == self.loaded().len(),
                self.wf(),
                base@ == self.loaded().take(i as int),
                keys@ == self.plain_keys().take(i as int),
                eligible@ == self.light_eligibility().take(i as int),
            decreases count - i,
        {
            let chunk_pos = self.chunks.key_at(i);
            proof {
                self.lemma_wf();
                self.chunks.lemma_wf();
                assert(self.chunk(chunk_pos) == Some(self.chunks.values()[i as int]));
            }
            let pending = match self.chunks.value_at(i).light_status {
                LightStatus::Pending => true,
                LightStatus::Complete => false,
            };
            // Need all neighbors loaded before we can compute light (for
            // border seeding)
            let can_start = pending && !self.light_tasks.contains(chunk_pos) && self.can_light_now(
                chunk_pos,
            );
            let key = self.chunk_sort_key(chunk_pos);
            base.push(chunk_pos);
            keys.push((0, key.0, key.1));
            eligible.push(can_start);
            proof {
                assert(base@ =~= self.loaded().take(i as int + 1));
                assert(keys@ =~= self.plain_keys().take(i as int + 1));
                assert(eligible@ =~= self.light_eligibility().take(i as int + 1));
            }
            i += 1;
        }
        proof {
            assert(self.loaded().take(count as int) =~= self.loaded());
            assert(self.plain_keys().take(count as int) =~= self.plain_keys());
            assert(self.light_eligibility().take(count as int) =~= self.light_eligibility());
            self.lemma_wf();
        }
        let running = self.light_tasks.len();
        let capacity = if running >= MAX_TASKS { 0 } else { MAX_TASKS - running };
        let spawned = pick_first(&base, &keys, &eligible, capacity);
        let mut k: usize = 0;
        proof {
            assert(spawned@.take(0) =~= Seq::<IVec3>::empty());
            assert(self.light_tasks@ + Seq::<IVec3>::empty() =~= self.light_tasks@);
            assert forall|j: int| 0 <= j < spawned@.len() implies old(self).light_eligible(
                #[trigger] spawned@[j],
            ) by {
                assert(base@.contains(spawned@[j]));
            }
        }
        while k < spawned.len()
            invariant
                k <= spawned@.len(),
                self.wf(),
                self.same_scene(old(self)),
                self.generation_tasks() == old(self).generation_tasks(),
                self.mesh_tasks() == old(self).mesh_tasks(),
                spawned@.no_duplicates(),
                forall|j: int|
                    0 <= j < spawned@.len() ==> old(self).light_eligible(#[trigger] spawned@[j]),
                self.light_tasks() == old(self).light_tasks() + spawned@.take(k as int),
                spawned@.len() <= free_slots(old(self).light_tasks()),
            decreases spawned@.len() - k,
        {
            let chunk_pos = spawned[k];
            proof {
                lemma_take_next(spawned@, k as int);
                assert(old(self).light_eligible(spawned@[k as int]));
                let so_far = old(self).light_tasks() + spawned@.take(k as int);
                if so_far.contains(chunk_pos) {
                    let j = choose|j: int| 0 <= j < so_far.len() && so_far[j] == chunk_pos;
                    if j < old(self).light_tasks().len() {
                        assert(old(self).light_tasks()[j] == chunk_pos);
                    } else {
                        assert(spawned@.take(k as int)[j - old(self).light_tasks().len()]
                            == chunk_pos);
                    }
                }
                assert(so_far.push(chunk_pos) =~= old(self).light_tasks() + spawned@.take(
                    k as int + 1,
                ));
            }
            self.start_light_task(chunk_pos);
            k += 1;
        }
        proof {
            assert(spawned@.take(spawned@.len() as int) =~= spawned@);
        }
        spawned
    }

    /// Queues the chunks around `chunk_pos` for remeshing and cancels their
    /// mesh tasks.
    fn remesh_neighbors(&mut self, chunk_pos: IVec3)
        requires
            old(self).wf(),
        ensures
            final(self).wf(),
            final(self).same_frame(old(self)),
            final(self).light_tasks() == old(self).light_tasks(),
            final(self).pending_positions() == old(self).pending_positions(),
            forall|p: IVec3| #[trigger] final(self).pending(p) == old(self).pending(p),
            forall|p: IVec3|
                #[trigger] final(self).chunk(p) == (if is_neighbor(chunk_pos, p) {
                    match old(self).chunk(p) {
                        Some(c) => Some(requeued(c)),
                        None => None,
                    }
                } else {
                    old(self).chunk(p)
                }),
            forall|p: IVec3| #[trigger]
                final(self).mesh_tasks().contains(p) <==> (old(self).mesh_tasks().contains(p)
                    && !is_neighbor(chunk_pos, p)),
    {
        let neighbors = get_neighbors(chunk_pos);
        let mut i: usize = 0;
        proof {
            assert(neighbors@.take(0) =~= Seq::<IVec3>::empty());
        }
        while i < neighbors.len()
            invariant
                i <= neighbors@.len(),
                self.wf(),
                self.same_frame(old(self)),
                self.light_tasks() == old(self).light_tasks(),
                self.pending_positions() == old(self).pending_positions(),
                forall|p: IVec3| #[trigger] self.pending(p) == old(self).pending(p),
                neighbors@.no_duplicates(),
                forall|p: IVec3| #[trigger] neighbors@.contains(p) <==> is_neighbor(chunk_pos, p),
                forall|p: IVec3|
                    #[trigger] self.chunk(p) == (if neighbors@.take(i as int).contains(p) {
                        match old(self).chunk(p) {
                            Some(c) => Some(requeued(c)),
                            None => None,
                        }
                    } else {
                        old(self).chunk(p)
                    }),
                forall|p: IVec3| #[trigger]
                    self.mesh_tasks().contains(p) <==> (old(self).mesh_tasks().contains(p)
                        && !neighbors@.take(i as int).contains(p)),
            decreases neighbors@.len() - i,
        {
            let neighbor_pos = neighbors[i];
            proof {
                lemma_take_next(neighbors@, i as int);
            }
            self.force_remesh(neighbor_pos);
            i += 1;
        }
        proof {
            assert(neighbors@.take(neighbors@.len() as int) =~= neighbors@);
        }
    }

    /// Invalidates the light of the chunks that share a face with
    /// `chunk_pos` and whose light is complete.
    fn relight_face_neighbors(&mut self, chunk_pos: IVec3)
        requires
            old(self).wf(),
        ensures
            final(self).wf(),
            final(self).same_frame(old(self)),
            forall|p: IVec3|
                #[trigger] final(self).chunk(p) == (if is_face_neighbor(chunk_pos, p) && old(
                    self,
                ).chunk(p) is Some && old(self).chunk(p)->0.light_status == LightStatus::Complete {
                    Some(invalidated(old(self).chunk(p)->0))
                } else {
                    old(self).chunk(p)
                }),
            forall|p: IVec3| #[trigger]
                final(self).light_tasks().contains(p) <==> (old(self).light_tasks().contains(p) && !(
                is_face_neighbor(chunk_pos, p) && old(self).chunk(p) is Some && old(self).chunk(
                    p,
                )->0.light_status == LightStatus::Complete)),
            forall|p: IVec3| #[trigger]
                final(self).mesh_tasks().contains(p) <==> (old(self).mesh_tasks().contains(p) && !(
                is_face_neighbor(chunk_pos, p) && old(self).chunk(p) is Some && old(self).chunk(
                    p,
                )->0.light_status == LightStatus::Complete)),
            forall|p: IVec3|
                #[trigger] final(self).pending(p) == (if is_face_neighbor(chunk_pos, p) && old(
                    self,
                ).chunk(p) is Some && old(self).chunk(p)->0.light_status == LightStatus::Complete {
                    None
                } else {
                    old(self).pending(p)
                }),
    {
        let neighbors = get_face_neighbors(chunk_pos);
        let mut i: usize = 0;
        proof {
            assert(neighbors@.take(0) =~= Seq::<IVec3>::empty());
        }
        while i < neighbors.len()
            invariant
                i <= neighbors@.len(),
                self.wf(),
                self.same_frame(old(self)),
                neighbors@.no_duplicates(),
                forall|p: IVec3| #[trigger] neighbors@.contains(p) <==> is_face_neighbor(chunk_pos, p),
                forall|p: IVec3|
                    #[trigger] self.chunk(p) == (if neighbors@.take(i as int).contains(p) && old(
                        self,
                    ).chunk(p) is Some && old(self).chunk(p)->0.light_status
                        == LightStatus::Complete {
                        Some(invalidated(old(self).chunk(p)->0))
                    } else {
                        old(self).chunk(p)
                    }),
                forall|p: IVec3| #[trigger]
                    self.light_tasks().contains(p) <==> (old(self).light_tasks().contains(p) && !(
                    neighbors@.take(i as int).contains(p) && old(self).chunk(p) is Some && old(
                        self,
                    ).chunk(p)->0.light_status == LightStatus::Complete)),
                forall|p: IVec3| #[trigger]
                    self.mesh_tasks().contains(p) <==> (old(self).mesh_tasks().contains(p) && !(
                    neighbors@.take(i as int).contains(p) && old(self).chunk(p) is Some && old(
                        self,
                    ).chunk(p)->0.light_status == LightStatus::Complete)),
                forall|p: IVec3|
                    #[trigger] self.pending(p) == (if neighbors@.take(i as int).contains(p) && old(
                        self,
                    ).chunk(p) is Some && old(self).chunk(p)->0.light_status
                        == LightStatus::Complete {
                        None
                    } else {
                        old(self).pending(p)
                    }),
            decreases neighbors@.len() - i,
        {
            let neighbor_pos = neighbors[i];
            proof {
                lemma_take_next(neighbors@, i as int);
            }
            let complete = match self.chunks.get(neighbor_pos) {
                Some(neighbor) => match neighbor.light_status {
                    LightStatus::Complete => true,
                    LightStatus::Pending => false,
                },
                None => false,
            };
            proof {
                assert(self.chunk(neighbor_pos) == old(self).chunk(neighbor_pos));
                assert(complete == (old(self).chunk(neighbor_pos) is Some && old(self).chunk(
                    neighbor_pos,
                )->0.light_status == LightStatus::Complete));
            }
            if complete {
                self.invalidate_light(neighbor_pos);
            }
            i += 1;
        }
        proof {
            assert(neighbors@.take(neighbors@.len() as int) =~= neighbors@);
        }
    }

    /// Takes the light task of a loaded chunk away and gives the chunk new
    /// light, which is complete; the mesh is queued unless it is urgent.
    fn install_light(&mut self, index: usize, light: LightData)
        requires
            old(self).wf(),
            index < old(self).loaded().len(),
            light.wf(),
        ensures
            final(self).wf(),
            final(self).same_frame(old(self)),
            final(self).mesh_tasks() == old(self).mesh_tasks(),
            final(self).pending_positions() == old(self).pending_positions(),
            forall|p: IVec3| #[trigger] final(self).pending(p) == old(self).pending(p),
            forall|p: IVec3|
                p != old(self).loaded()[index as int] ==> #[trigger] final(self).chunk(p) == old(
                    self,
                ).chunk(p),
            old(self).chunk(old(self).loaded()[index as int]) is Some,
            final(self).chunk(old(self).loaded()[index as int]) == Some(
                relit(old(self).chunk(old(self).loaded()[index as int])->0, light),
            ),
            forall|p: IVec3| #[trigger]
                final(self).light_tasks().contains(p) <==> (old(self).light_tasks().contains(p) && p
                    != old(self).loaded()[index as int]),
    {
        proof {
            self.chunks.lemma_wf();
            self.light_tasks.lemma_wf();
        }
        let chunk = self.chunks.value_at_mut(index);
        chunk.light = light;
        chunk.light_status = LightStatus::Complete;
        // Force remesh so mesh picks up the new light data
        if chunk.mesh_status != MeshStatus::Urgent {
            chunk.mesh_status = MeshStatus::Queued;
        }
        proof {
            assert forall|i: int| 0 <= i < self.chunks.values().len() implies (
            #[trigger] self.chunks.values()[i]).data.wf() && self.chunks.values()[i].light.wf() by {
                if i != index {
                    assert(self.chunks.values()[i] == old(self).chunks.values()[i]);
                } else {
                    assert(old(self).chunks.values()[i].data.wf());
                }
            }
        }
        let key = self.chunks.key_at(index);
        match self.light_tasks.swap_remove(key) {
            Some(i) => {
                proof {
                    lemma_swap_removed(old(self).light_tasks@, i as int);
                }
            },
            None => {},
        }
    }

    /// Takes in the result of a light task. A result for a chunk for which
    /// no light task runs is dropped, and nothing changes. Else the chunk
    /// gets the new light, which is complete, and its mesh is queued unless
    /// it is urgent; the 26 chunks around it are queued for remeshing and
    /// lose their mesh tasks; and where the block light in the chunk's
    /// outermost layer has changed, the chunks across its six faces whose
    /// light was complete get their light invalidated.
    pub fn complete_light(&mut self, chunk_pos: IVec3, light: LightData) -> (accepted: bool)
        requires
            old(self).wf(),
            light.wf(),
        ensures
            final(self).wf(),
            final(self).same_frame(old(self)),
            accepted == old(self).light_tasks().contains(chunk_pos),
            !accepted ==> {
                &&& final(self).same_scene(old(self))
                &&& final(self).light_tasks() == old(self).light_tasks()
                &&& final(self).mesh_tasks() == old(self).mesh_tasks()
            },
            accepted ==> {
                let spread = border_changed(old(self).chunk(chunk_pos)->0.light, light);
                &&& old(self).chunk(chunk_pos) is Some
                &&& final(self).chunk(chunk_pos) == Some(relit(old(self).chunk(chunk_pos)->0, light))
                &&& forall|p: IVec3|
                    p != chunk_pos ==> #[trigger] final(self).chunk(p) == (match old(self).chunk(p) {
                        Some(c) => Some(
                            if spread && is_face_neighbor(chunk_pos, p) && c.light_status
                                == LightStatus::Complete {
                                invalidated(c)
                            } else if is_neighbor(chunk_pos, p) {
                                requeued(c)
                            } else {
                                c
                            },
                        ),
                        None => None,
                    })
                &&& forall|p: IVec3| #[trigger]
                    final(self).light_tasks().contains(p) <==> (old(self).light_tasks().contains(p)
                        && p != chunk_pos && !(spread && is_face_neighbor(chunk_pos, p) && old(
                        self,
                    ).chunk(p) is Some && old(self).chunk(p)->0.light_status
                        == LightStatus::Complete))
                &&& forall|p: IVec3| #[trigger]
                    final(self).mesh_tasks().contains(p) <==> (old(self).mesh_tasks().contains(p)
                        && !is_neighbor(chunk_pos, p))
                &&& forall|p: IVec3|
                    #[trigger] final(self).pending(p) == (if spread && is_face_neighbor(chunk_pos, p)
                        && old(self).chunk(p) is Some && old(self).chunk(p)->0.light_status
                        == LightStatus::Complete {
                        None
                    } else {
                        old(self).pending(p)
                    })
            },
    {
        if !self.light_tasks.contains(chunk_pos) {
            return false;
        }
        proof {
            self.lemma_wf();
            self.chunks.lemma_wf();
        }
        let index = match self.chunks.get_index_of(chunk_pos) {
            Some(index) => index,
            None => {
                return false;
            },
        };
        // Compare border block light with previous values. Only invalidate
        // face-adjacent neighbors if the border changed, preventing infinite
        // loops.
        let changed = border_block_light_changed(&self.chunks.value_at(index).light, &light);
        self.install_light(index, light);
        // Neighbors need remeshing (smooth lighting reads neighbor light)
        self.remesh_neighbors(chunk_pos);
        // If border block light changed, face-adjacent neighbors must
        // re-propagate
        if changed {
            self.relight_face_neighbors(chunk_pos);
        }
        true
    }
}

/// What the renderer has to do for a chunk: show the mesh under the
/// chunk's handle, or hide the chunk where there is no mesh.
pub struct MeshUpdate {
    pub entity: u64,
    pub mesh: Option<Mesh>,
}

/// The positions among `tasks` whose chunks have an urgent mesh, in the
/// order of `tasks`.
pub open spec fn urgent_only(world: &World, tasks: Seq<IVec3>) -> Seq<IVec3>
    decreases tasks.len(),
{
    if tasks.len() == 0 {
        Seq::empty()
    } else if world.chunk(tasks.last()) matches Some(c) && c.mesh_status == MeshStatus::Urgent {
        urgent_only(world, tasks.drop_last()).push(tasks.last())
    } else {
        urgent_only(world, tasks.drop_last())
    }
}

proof fn lemma_urgent_only(world: &World, tasks: Seq<IVec3>)
    requires
        tasks.no_duplicates(),
    ensures
        urgent_only(world, tasks).no_duplicates(),
        urgent_only(world, tasks).len() <= tasks.len(),
        forall|p: IVec3| #[trigger]
            urgent_only(world, tasks).contains(p) <==> (tasks.contains(p) && world.chunk(p) is Some
                && world.chunk(p)->0.mesh_status == MeshStatus::Urgent),
    decreases tasks.len(),
{
    if tasks.len() > 0 {
        let front = tasks.drop_last();
        lemma_urgent_only(world, front);
        let rest = urgent_only(world, front);
        assert forall|p: IVec3| front.contains(p) implies tasks.contains(p) && p != tasks.last() by {
            let i = choose|i: int| 0 <= i < front.len() && front[i] == p;
            assert(tasks[i] == p);
        }
        assert forall|p: IVec3| tasks.contains(p) implies front.contains(p) || p == tasks.last() by {
            let i = choose|i: int| 0 <= i < tasks.len() && tasks[i] == p;
            if i < front.len() {
                assert(front[i] == p);
            }
        }
        if world.chunk(tasks.last()) is Some && world.chunk(tasks.last())->0.mesh_status
            == MeshStatus::Urgent {
            lemma_push_fresh(rest, tasks.last());
        }
    }
}

/// The priority class of a mesh status: urgent chunks come first.
pub open spec fn mesh_class(status: MeshStatus) -> u8 {
    match status {
        MeshStatus::Urgent => 0,
        MeshStatus::Queued => 1,
        MeshStatus::Complete => 2,
    }
}

impl World {
    /// A chunk needs a mesh and none is on its way: it is loaded, its mesh
    /// is not complete, no mesh task runs for it, and no mesh result is held
    /// back for it.
    pub open spec fn mesh_candidate(&self, p: IVec3) -> bool {
        &&& self.chunk(p) matches Some(c) && c.mesh_status != MeshStatus::Complete
        &&& !self.mesh_tasks().contains(p)
        &&& self.pending(p) is None
    }

    /// Some chunk that needs a mesh needs it urgently.
    pub open spec fn has_urgent(&self) -> bool {
        exists|p: IVec3| #[trigger]
            self.mesh_candidate(p) && self.chunk(p)->0.mesh_status == MeshStatus::Urgent
    }

    /// The light around a chunk is ready: each of the 26 chunks around it
    /// has complete light, or is not loaded and lies outside the streaming
    /// window.
    pub open spec fn neighbors_lit(&self, p: IVec3) -> bool {
        forall|n: IVec3| #[trigger]
            is_neighbor(p, n) ==> (match self.chunk(n) {
                Some(c) => c.light_status == LightStatus::Complete,
                None => !self.spec_is_visible_chunk(n),
            })
    }

    /// A mesh task can be started for a chunk: it needs a mesh and none is
    /// on its way, it is urgent if any chunk is, its light is complete, and
    /// the light around it is ready.
    pub open spec fn mesh_eligible(&self, p: IVec3) -> bool {
        &&& self.mesh_candidate(p)
        &&& self.has_urgent() ==> self.chunk(p)->0.mesh_status == MeshStatus::Urgent
        &&& self.chunk(p)->0.light_status == LightStatus::Complete
        &&& self.neighbors_lit(p)
    }

    /// For each loaded chunk, in table order, what it is ordered by for
    /// meshing: urgent chunks first, then nearer to the center first.
    pub open spec fn mesh_keys(&self) -> Seq<SortKey> {
        Seq::new(
            self.loaded().len(),
            |i: int|
                (
                    mesh_class(self.chunk(self.loaded()[i])->0.mesh_status),
                    self.spec_chunk_sort_key(self.loaded()[i]).0,
                    self.spec_chunk_sort_key(self.loaded()[i]).1,
                ),
        )
    }

    /// For each loaded chunk, in table order, whether a mesh task can be
    /// started for it.
    pub open spec fn mesh_eligibility(&self) -> Seq<bool> {
        Seq::new(self.loaded().len(), |i: int| self.mesh_eligible(self.loaded()[i]))
    }

    /// The mesh tasks that go on when mesh tasks are planned: all of them,
    /// or only those of urgent chunks where some chunk needs a mesh
    /// urgently.
    pub open spec fn kept_mesh_tasks(&self) -> Seq<IVec3> {
        if self.has_urgent() {
            urgent_only(self, self.mesh_tasks())
        } else {
            self.mesh_tasks()
        }
    }

    fn neighbors_lit_now(&self, chunk_pos: IVec3) -> (ready: bool)
        requires
            self.wf(),
        ensures
            ready == self.neighbors_lit(chunk_pos),
    {
        let neighbors = get_neighbors(chunk_pos);
        let mut i: usize = 0;
        while i < neighbors.len()
            invariant
                i <= neighbors@.len(),
                self.wf(),
                forall|p: IVec3| #[trigger] neighbors@.contains(p) <==> is_neighbor(chunk_pos, p),
                forall|k: int|
                    0 <= k < i ==> (match self.chunk(#[trigger] neighbors@[k]) {
                        Some(c) => c.light_status == LightStatus::Complete,
                        None => !self.spec_is_visible_chunk(neighbors@[k]),
                    }),
            decreases neighbors@.len() - i,
        {
            let n = neighbors[i];
            let ready = match self.chunks.get(n) {
                // Neighbor exists but light not ready: wait
                Some(neighbor) => match neighbor.light_status {
                    LightStatus::Complete => true,
                    LightStatus::Pending => false,
                },
                // Visible neighbor not loaded yet: wait
                None => !self.is_visible_chunk(n),
            };
            if !ready {
                proof {
                    assert(neighbors@.contains(n));
                    assert(is_neighbor(chunk_pos, n));
                }
                return false;
            }
            i += 1;
        }
        proof {
            assert forall|n: IVec3| #[trigger] is_neighbor(chunk_pos, n) implies (match self.chunk(n) {
                Some(c) => c.light_status == LightStatus::Complete,
                None => !self.spec_is_visible_chunk(n),
            }) by {
                assert(neighbors@.contains(n));
                let k = choose|k: int| 0 <= k < neighbors@.len() && neighbors@[k] == n;
                assert(match self.chunk(neighbors@[k]) {
                    Some(c) => c.light_status == LightStatus::Complete,
                    None => !self.spec_is_visible_chunk(neighbors@[k]),
                });
            }
        }
        true
    }

    fn is_mesh_candidate(&self, index: usize) -> (candidate: bool)
        requires
            self.wf(),
            index < self.loaded().len(),
        ensures
            candidate == self.mesh_candidate(self.loaded()[index as int]),
            self.chunk(self.loaded()[index as int]) is Some,
    {
        proof {
            self.lemma_wf();
            self.chunks.lemma_wf();
            self.pending_mesh_results.lemma_wf();
        }
        let chunk_pos = self.chunks.key_at(index);
        let needs_mesh = match self.chunks.value_at(index).mesh_status {
            MeshStatus::Complete => false,
            _ => true,
        };
        needs_mesh && !self.mesh_tasks.contains(chunk_pos) && !self.pending_mesh_results.contains_key(
            chunk_pos,
        )
    }

    /// Whether some chunk that needs a mesh needs it urgently.
    pub fn any_urgent(&self) -> (urgent: bool)
        requires
            self.wf(),
        ensures
            urgent == self.has_urgent(),
    {
        let count = self.chunks.len();
        let mut i: usize = 0;
        while i < count
            invariant
                i <= count,
                count == self.loaded().len(),
                self.wf(),
                forall|k: int|
                    0 <= k < i ==> !(self.mesh_candidate(#[trigger] self.loaded()[k]) && self.chunk(
                        self.loaded()[k],
                    )->0.mesh_status == MeshStatus::Urgent),
            decreases count - i,
        {
            let candidate = self.is_mesh_candidate(i);
            proof {
                self.chunks.lemma_wf();
            }
            let urgent = match self.chunks.value_at(i).mesh_status {
                MeshStatus::Urgent => true,
                _ => false,
            };
            if candidate && urgent {
                return true;
            }
            i += 1;
        }
        proof {
            self.lemma_wf();
            assert forall|p: IVec3| #[trigger]
                self.mesh_candidate(p) implies self.chunk(p)->0.mesh_status != MeshStatus::Urgent by {
                assert(self.loaded().contains(p));
                let k = choose|k: int| 0 <= k < self.loaded().len() && self.loaded()[k] == p;
                assert(!(self.mesh_candidate(self.loaded()[k]) && self.chunk(
                    self.loaded()[k],
                )->0.mesh_status == MeshStatus::Urgent));
            }
        }
        false
    }

    /// Cancels the mesh tasks of the chunks whose mesh is not urgent.
    fn keep_urgent_tasks(&mut self)
        requires
            old(self).wf(),
        ensures
            final(self).wf(),
            final(self).same_scene(old(self)),
            final(self).generation_tasks() == old(self).generation_tasks(),
            final(self).light_tasks() == old(self).light_tasks(),
            final(self).mesh_tasks() == urgent_only(old(self), old(self).mesh_tasks()),
    {
        let mut kept = PosSet::new();
        let count = self.mesh_tasks.len();
        let mut i: usize = 0;
        proof {
            assert(self.mesh_tasks@.take(0) =~= Seq::<IVec3>::empty());
            self.lemma_wf();
        }
        while i < count
            invariant
                i <= count,
                count == self.mesh_tasks@.len(),
                self.wf(),
                kept.wf(),
                kept@ == urgent_only(self, self.mesh_tasks@.take(i as int)),
            decreases count - i,
        {
            let ghost done = self.mesh_tasks@.take(i as int);
            proof {
                self.lemma_wf();
                lemma_take_next(self.mesh_tasks@, i as int);
                assert(self.mesh_tasks@.take(i as int + 1).drop_last() =~= done);
                self.mesh_tasks.lemma_wf();
                assert(done.no_duplicates()) by {
                    assert forall|a: int, b: int|
                        0 <= a < done.len() && 0 <= b < done.len() && a != b implies done[a]
                        != done[b] by {
                        assert(self.mesh_tasks@[a] != self.mesh_tasks@[b]);
                    }
                }
                lemma_urgent_only(self, done);
            }
            match self.mesh_tasks.get_index(i) {
                Some(chunk_pos) => {
                    let urgent = match self.chunks.get(chunk_pos) {
                        Some(chunk) => match chunk.mesh_status {
                            MeshStatus::Urgent => true,
                            _ => false,
                        },
                        None => false,
                    };
                    if urgent {
                        proof {
                            lemma_push_fresh(kept@, chunk_pos);
                        }
                        kept.insert(chunk_pos);
                    }
                },
                None => {},
            }
            i += 1;
        }
        proof {
            assert(self.mesh_tasks@.take(count as int) =~= self.mesh_tasks@);
            self.mesh_tasks.lemma_wf();
            lemma_urgent_only(self, self.mesh_tasks@);
        }
        self.mesh_tasks = kept;
    }

    /// Starts mesh tasks. Where some chunk needs a mesh urgently, the mesh
    /// tasks of all chunks that are not urgent are cancelled first, and only
    /// urgent chunks get a task. Tasks are started as far as there are free
    /// slots, for the chunks for which one can be started: urgent ones first,
    /// then nearest to the center first, and in table order among equals.
    /// Returns the chunks for which a task is to be started, in that order;
    /// they are noted as being meshed.
    pub fn plan_meshing(&mut self) -> (spawned: Vec<IVec3>)
        requires
            old(self).wf(),
        ensures
            final(self).wf(),
            final(self).same_scene(old(self)),
            final(self).generation_tasks() == old(self).generation_tasks(),
            final(self).light_tasks() == old(self).light_tasks(),
            final(self).mesh_tasks() == old(self).kept_mesh_tasks() + spawned@,
            is_pick(
                old(self).loaded(),
                old(self).mesh_keys(),
                old(self).mesh_eligibility(),
                free_slots(old(self).kept_mesh_tasks()),
                spawned@,
            ),
    {
        // Decide whether any chunks are urgent
        let has_urgent = self.any_urgent();
        // Sort chunks by priority and distance from the center
        let mut base: Vec<IVec3> = Vec::new();
        let mut keys: Vec<SortKey> = Vec::new();
        let mut eligible: Vec<bool> = Vec::new();
        let count = self.chunks.len();
        let mut i: usize = 0;
        while i < count
            invariant
                i <= count,
                count == self.loaded().len(),
                self.wf(),
                has_urgent == self.has_urgent(),
                base@ == self.loaded().take(i as int),
                keys@ == self.mesh_keys().take(i as int),
                eligible@ == self.mesh_eligibility().take(i as int),
            decreases count - i,
        {
            let chunk_pos = self.chunks.key_at(i);
            let candidate = self.is_mesh_candidate(i);
            proof {
                self.lemma_wf();
                self.chunks.lemma_wf();
                assert(self.chunk(chunk_pos) == Some(self.chunks.values()[i as int]));
            }
            let status = self.chunks.value_at(i).mesh_status;
            let class: u8 = match status {
                MeshStatus::Urgent => 0,
                MeshStatus::Queued => 1,
                MeshStatus::Complete => 2,
            };
            let lit = match self.chunks.value_at(i).light_status {
                LightStatus::Complete => true,
                LightStatus::Pending => false,
            };
            // Don't mesh until light is computed for this chunk and all
            // neighbors
            let can_start = candidate && (!has_urgent || class == 0) && lit && self.neighbors_lit_now(
                chunk_pos,
            );
            let key = self.chunk_sort_key(chunk_pos);
            base.push(chunk_pos);
            keys.push((class, key.0, key.1));
            eligible.push(can_start);
            proof {
                assert(base@ =~= self.loaded().take(i as int + 1));
                assert(keys@ =~= self.mesh_keys().take(i as int + 1));
                assert(eligible@ =~= self.mesh_eligibility().take(i as int + 1));
            }
            i += 1;
        }
        proof {
            assert(self.loaded().take(count as int) =~= self.loaded());
            assert(self.mesh_keys().take(count as int) =~= self.mesh_keys());
            assert(self.mesh_eligibility().take(count as int) =~= self.mesh_eligibility());
            self.lemma_wf();
        }
        // If any chunks are urgent, we need to regenerate their meshes first,
        // so let's remove all other tasks
        if has_urgent {
            self.keep_urgent_tasks();
        }
        let running = self.mesh_tasks.len();
        let capacity = if running >= MAX_TASKS { 0 } else { MAX_TASKS - running };
        let spawned = pick_first(&base, &keys, &eligible, capacity);
        let mut k: usize = 0;
        proof {
            assert(spawned@.take(0) =~= Seq::<IVec3>::empty());
            assert(self.mesh_tasks@ + Seq::<IVec3>::empty() =~= self.mesh_tasks@);
            assert forall|j: int| 0 <= j < spawned@.len() implies old(self).mesh_eligible(
                #[trigger] spawned@[j],
            ) by {
                assert(base@.contains(spawned@[j]));
            }
            old(self).lemma_wf();
            if has_urgent {
                lemma_urgent_only(old(self), old(self).mesh_tasks());
            }
        }
        while k < spawned.len()
            invariant
                k <= spawned@.len(),
                old(self).wf(),
                self.wf(),
                self.same_scene(old(self)),
                self.generation_tasks() == old(self).generation_tasks(),
                self.light_tasks() == old(self).light_tasks(),
                spawned@.no_duplicates(),
                forall|j: int|
                    0 <= j < spawned@.len() ==> old(self).mesh_eligible(#[trigger] spawned@[j]),
                forall|p: IVec3| #[trigger]
                    old(self).kept_mesh_tasks().contains(p) ==> old(self).mesh_tasks().contains(p),
                self.mesh_tasks() == old(self).kept_mesh_tasks() + spawned@.take(k as int),
                spawned@.len() <= free_slots(old(self).kept_mesh_tasks()),
            decreases spawned@.len() - k,
        {
            let chunk_pos = spawned[k];
            proof {
                lemma_take_next(spawned@, k as int);
                assert(old(self).mesh_eligible(spawned@[k as int]));
                let so_far = old(self).kept_mesh_tasks() + spawned@.take(k as int);
                if so_far.contains(chunk_pos) {
                    let j = choose|j: int| 0 <= j < so_far.len() && so_far[j] == chunk_pos;
                    if j < old(self).kept_mesh_tasks().len() {
                        assert(old(self).kept_mesh_tasks()[j] == chunk_pos);
                        assert(old(self).kept_mesh_tasks().contains(chunk_pos));
                    } else {
                        assert(spawned@.take(k as int)[j - old(self).kept_mesh_tasks().len()]
                            == chunk_pos);
                    }
                }
                assert(so_far.push(chunk_pos) =~= old(self).kept_mesh_tasks() + spawned@.take(
                    k as int + 1,
                ));
            }
            self.start_mesh_task(chunk_pos);
            k += 1;
        }
        proof {
            assert(spawned@.take(spawned@.len() as int) =~= spawned@);
        }
        spawned
    }

    /// The light of a loaded chunk and of the loaded chunks around it, as
    /// they are now: what the mesh of the chunk is built from.
    pub fn mesh_lights(&self, chunk_pos: IVec3) -> (lights: Option<RelevantLights>)
        requires
            self.wf(),
        ensures
            lights is Some <==> self.is_loaded(chunk_pos),
            lights matches Some(l) ==> {
                &&& l.wf()
                &&& l.center_pos() == chunk_pos
                &&& forall|p: IVec3| #[trigger]
                    l.light_of(p) is Some <==> (in_neighborhood(chunk_pos, p) && self.is_loaded(p))
                &&& forall|p: IVec3| #[trigger]
                    l.light_of(p) is Some ==> l.light_of(p)->0 == self.chunk(p)->0.light
            },
    {
        match self.get_light_data(chunk_pos) {
            Some(center) => Some(self.lights_around(chunk_pos, center)),
            None => None,
        }
    }
}

/// A chunk whose mesh is complete.
pub open spec fn meshed(chunk: Chunk) -> Chunk {
    Chunk {
        data: chunk.data,
        light: chunk.light,
        light_status: chunk.light_status,
        mesh_status: MeshStatus::Complete,
        entity: chunk.entity,
    }
}

/// The updates for the renderer when the mesh results that were held back
/// for `positions` are applied one after the other: one for each position
/// whose chunk is loaded.
pub open spec fn applied_updates(
    world: &World,
    positions: Seq<IVec3>,
    meshes: Seq<Option<Mesh>>,
) -> Seq<MeshUpdate>
    decreases positions.len(),
{
    if positions.len() == 0 || meshes.len() != positions.len() {
        Seq::empty()
    } else {
        let before = applied_updates(world, positions.drop_last(), meshes.drop_last());
        match world.chunk(positions.last()) {
            Some(c) => before.push(MeshUpdate { entity: c.entity, mesh: meshes.last() }),
            None => before,
        }
    }
}

/// The items of a list in the opposite order.
fn reversed<T>(items: Vec<T>) -> (turned: Vec<T>)
    ensures
        turned@ == items@.reverse(),
{
    let mut items = items;
    let mut turned: Vec<T> = Vec::new();
    let ghost all = items@;
    while items.len() > 0
        invariant
            items@.len() <= all.len(),
            items@ == all.take(items@.len() as int),
            turned@.len() == all.len() - items@.len(),
            forall|i: int| 0 <= i < turned@.len() ==> turned@[i] == all[all.len() - 1 - i],
        decreases items@.len(),
    {
        match items.pop() {
            Some(item) => {
                turned.push(item);
            },
            None => {},
        }
        proof {
            assert(items@ =~= all.take(items@.len() as int));
        }
    }
    proof {
        assert(turned@ =~= all.reverse());
    }
    turned
}

impl World {
    /// Every loaded chunk whose mesh is urgent has a mesh result that is
    /// held back.
    pub open spec fn urgent_ready(&self) -> bool {
        forall|p: IVec3|
            (#[trigger] self.chunk(p)) is Some && self.chunk(p)->0.mesh_status == MeshStatus::Urgent
                ==> self.pending(p) is Some
    }

    /// Takes the mesh task of a chunk away; the rest stays as it is.
    fn finish_mesh_task(&mut self, chunk_pos: IVec3)
        requires
            old(self).wf(),
        ensures
            final(self).wf(),
            final(self).same_scene(old(self)),
            final(self).generation_tasks() == old(self).generation_tasks(),
            final(self).light_tasks() == old(self).light_tasks(),
            forall|p: IVec3| #[trigger]
                final(self).mesh_tasks().contains(p) <==> (old(self).mesh_tasks().contains(p) && p
                    != chunk_pos),
    {
        self.cancel_mesh_task(chunk_pos);
    }

    /// Holds a mesh result back for a chunk.
    fn hold_back(&mut self, chunk_pos: IVec3, mesh: Option<Mesh>)
        requires
            old(self).wf(),
        ensures
            final(self).wf(),
            final(self).same_frame(old(self)),
            final(self).light_tasks() == old(self).light_tasks(),
            final(self).mesh_tasks() == old(self).mesh_tasks(),
            forall|p: IVec3| #[trigger] final(self).chunk(p) == old(self).chunk(p),
            final(self).pending(chunk_pos) == Some(mesh),
            forall|p: IVec3|
                p != chunk_pos ==> #[trigger] final(self).pending(p) == old(self).pending(p),
            final(self).pending_positions() == (if old(self).pending_positions().contains(
                chunk_pos,
            ) {
                old(self).pending_positions()
            } else {
                old(self).pending_positions().push(chunk_pos)
            }),
    {
        self.pending_mesh_results.insert(chunk_pos, mesh);
    }

    /// Takes in the result of a mesh task. A result for a chunk for which
    /// no mesh task runs is dropped, and nothing changes. The result for a
    /// chunk whose mesh is urgent is held back until all urgent chunks have
    /// theirs. Any other result is applied at once: the chunk's mesh is
    /// complete, and the update for the renderer is returned.
    pub fn complete_mesh(&mut self, chunk_pos: IVec3, mesh: Option<Mesh>) -> (update: Option<
        MeshUpdate,
    >)
        requires
            old(self).wf(),
        ensures
            final(self).wf(),
            final(self).same_frame(old(self)),
            final(self).light_tasks() == old(self).light_tasks(),
            forall|p: IVec3| #[trigger]
                final(self).mesh_tasks().contains(p) <==> (old(self).mesh_tasks().contains(p) && p
                    != chunk_pos),
            forall|p: IVec3| p != chunk_pos ==> #[trigger] final(self).chunk(p) == old(self).chunk(p),
            forall|p: IVec3|
                p != chunk_pos ==> #[trigger] final(self).pending(p) == old(self).pending(p),
            if !old(self).mesh_tasks().contains(chunk_pos) {
                &&& update is None
                &&& final(self).chunk(chunk_pos) == old(self).chunk(chunk_pos)
                &&& final(self).pending(chunk_pos) == old(self).pending(chunk_pos)
                &&& final(self).mesh_tasks() == old(self).mesh_tasks()
            } else if old(self).chunk(chunk_pos)->0.mesh_status == MeshStatus::Urgent {
                &&& update is None
                &&& final(self).chunk(chunk_pos) == old(self).chunk(chunk_pos)
                &&& final(self).pending(chunk_pos) == Some(mesh)
            } else {
                &&& update == Some(
                    MeshUpdate { entity: old(self).chunk(chunk_pos)->0.entity, mesh },
                )
                &&& final(self).chunk(chunk_pos) == Some(meshed(old(self).chunk(chunk_pos)->0))
                &&& final(self).pending(chunk_pos) == old(self).pending(chunk_pos)
            },
    {
        if !self.mesh_tasks.contains(chunk_pos) {
            return None;
        }
        proof {
            self.lemma_wf();
            self.chunks.lemma_wf();
        }
        self.finish_mesh_task(chunk_pos);
        let index = match self.chunks.get_index_of(chunk_pos) {
            Some(index) => index,
            None => {
                return None;
            },
        };
        let is_urgent = match self.chunks.value_at(index).mesh_status {
            MeshStatus::Urgent => true,
            _ => false,
        };
        // Buffer urgent results; apply non-urgent immediately
        if is_urgent {
            self.hold_back(chunk_pos, mesh);
            None
        } else {
            let entity = self.chunks.value_at(index).entity;
            let light_status = self.chunks.value_at(index).light_status;
            self.set_status(index, light_status, MeshStatus::Complete);
            Some(MeshUpdate { entity, mesh })
        }
    }

    /// Whether every loaded chunk whose mesh is urgent has a mesh result
    /// that is held back.
    pub fn all_urgent_ready(&self) -> (ready: bool)
        requires
            self.wf(),
        ensures
            ready == self.urgent_ready(),
    {
        let count = self.chunks.len();
        let mut i: usize = 0;
        while i < count
            invariant
                i <= count,
                count == self.loaded().len(),
                self.wf(),
                forall|k: int|
                    0 <= k < i && self.chunk(#[trigger] self.loaded()[k])->0.mesh_status
                        == MeshStatus::Urgent ==> self.pending(self.loaded()[k]) is Some,
            decreases count - i,
        {
            let chunk_pos = self.chunks.key_at(i);
            proof {
                self.lemma_wf();
                self.chunks.lemma_wf();
                self.pending_mesh_results.lemma_wf();
                assert(self.chunk(chunk_pos) == Some(self.chunks.values()[i as int]));
            }
            let urgent = match self.chunks.value_at(i).mesh_status {
                MeshStatus::Urgent => true,
                _ => false,
            };
            if urgent && !self.pending_mesh_results.contains_key(chunk_pos) {
                return false;
            }
            i += 1;
        }
        proof {
            self.lemma_wf();
            assert forall|p: IVec3|
                (#[trigger] self.chunk(p)) is Some && self.chunk(p)->0.mesh_status
                    == MeshStatus::Urgent implies self.pending(p) is Some by {
                assert(self.loaded().contains(p));
                let k = choose|k: int| 0 <= k < self.loaded().len() && self.loaded()[k] == p;
                assert(self.chunk(self.loaded()[k])->0.mesh_status == MeshStatus::Urgent);
            }
        }
        true
    }

    /// Takes all mesh results that are held back out of the table.
    fn take_pending(&mut self) -> (entries: (Vec<IVec3>, Vec<Option<Mesh>>))
        requires
            old(self).wf(),
        ensures
            final(self).wf(),
            final(self).same_frame(old(self)),
            final(self).light_tasks() == old(self).light_tasks(),
            final(self).mesh_tasks() == old(self).mesh_tasks(),
            forall|p: IVec3| #[trigger] final(self).chunk(p) == old(self).chunk(p),
            final(self).pending_positions() == Seq::<IVec3>::empty(),
            forall|p: IVec3| #[trigger] final(self).pending(p) is None,
            entries.0@ == old(self).pending_positions(),
            entries.1@.len() == entries.0@.len(),
            entries.0@.no_duplicates(),
            forall|i: int|
                0 <= i < entries.0@.len() ==> old(self).pending(#[trigger] entries.0@[i]) == Some(
                    entries.1@[i],
                ),
            forall|p: IVec3| #[trigger] old(self).pending(p) is Some <==> entries.0@.contains(p),
    {
        proof {
            self.pending_mesh_results.lemma_wf();
        }
        self.pending_mesh_results.take_all()
    }

    /// Marks the mesh of a chunk as complete, if the chunk is loaded, and
    /// returns its render handle.
    fn apply_mesh(&mut self, chunk_pos: IVec3) -> (entity: Option<u64>)
        requires
            old(self).wf(),
        ensures
            final(self).wf(),
            final(self).same_frame(old(self)),
            final(self).light_tasks() == old(self).light_tasks(),
            final(self).mesh_tasks() == old(self).mesh_tasks(),
            final(self).pending_positions() == old(self).pending_positions(),
            forall|p: IVec3| #[trigger] final(self).pending(p) == old(self).pending(p),
            forall|p: IVec3| p != chunk_pos ==> #[trigger] final(self).chunk(p) == old(self).chunk(p),
            final(self).chunk(chunk_pos) == (match old(self).chunk(chunk_pos) {
                Some(c) => Some(meshed(c)),
                None => None,
            }),
            entity == (match old(self).chunk(chunk_pos) {
                Some(c) => Some(c.entity),
                None => None,
            }),
    {
        match self.chunks.get_index_of(chunk_pos) {
            Some(index) => {
                let entity = self.chunks.value_at(index).entity;
                let light_status = self.chunks.value_at(index).light_status;
                self.set_status(index, light_status, MeshStatus::Complete);
                Some(entity)
            },
            None => None,
        }
    }

    /// Applies the mesh results that are held back, once every loaded chunk
    /// whose mesh is urgent has one: all of them at once, in the order in
    /// which they came. The chunks they are for get a complete mesh, and the
    /// updates for the renderer are returned; results for chunks that are no
    /// longer loaded are dropped. While a result is missing, or where none is
    /// held back, nothing changes.
    pub fn flush_pending(&mut self) -> (updates: Vec<MeshUpdate>)
        requires
            old(self).wf(),
        ensures
            final(self).wf(),
            final(self).same_frame(old(self)),
            final(self).light_tasks() == old(self).light_tasks(),
            final(self).mesh_tasks() == old(self).mesh_tasks(),
            if old(self).urgent_ready() && old(self).pending_positions().len() > 0 {
                &&& final(self).pending_positions() == Seq::<IVec3>::empty()
                &&& forall|p: IVec3| #[trigger] final(self).pending(p) is None
                &&& forall|p: IVec3|
                    #[trigger] final(self).chunk(p) == (match old(self).chunk(p) {
                        Some(c) => Some(
                            if old(self).pending(p) is Some {
                                meshed(c)
                            } else {
                                c
                            },
                        ),
                        None => None,
                    })
                &&& exists|meshes: Seq<Option<Mesh>>|
                    {
                        &&& meshes.len() == old(self).pending_positions().len()
                        &&& forall|i: int|
                            0 <= i < meshes.len() ==> old(self).pending(
                                old(self).pending_positions()[i],
                            ) == Some(#[trigger] meshes[i])
                        &&& updates@ == applied_updates(
                            old(self),
                            old(self).pending_positions(),
                            meshes,
                        )
                    }
            } else {
                &&& updates@ == Seq::<MeshUpdate>::empty()
                &&& final(self).pending_positions() == old(self).pending_positions()
                &&& forall|p: IVec3| #[trigger] final(self).pending(p) == old(self).pending(p)
                &&& forall|p: IVec3| #[trigger] final(self).chunk(p) == old(self).chunk(p)
            },
    {
        let mut updates: Vec<MeshUpdate> = Vec::new();
        // See whether all urgent chunks now have results buffered
        if !self.all_urgent_ready() || self.pending_mesh_results.len() == 0 {
            return updates;
        }
        // Flush the buffer once every urgent chunk is accounted for
        let (positions, meshes) = self.take_pending();
        let ghost all_meshes = meshes@;
        let mut rest = reversed(meshes);
        let mut i: usize = 0;
        proof {
            assert(positions@.take(0) =~= Seq::<IVec3>::empty());
            assert(all_meshes.take(0) =~= Seq::<Option<Mesh>>::empty());
        }
        while i < positions.len()
            invariant
                i <= positions@.len(),
                old(self).wf(),
                self.wf(),
                self.same_frame(old(self)),
                self.light_tasks() == old(self).light_tasks(),
                self.mesh_tasks() == old(self).mesh_tasks(),
                self.pending_positions() == Seq::<IVec3>::empty(),
                forall|p: IVec3| #[trigger] self.pending(p) is None,
                positions@ == old(self).pending_positions(),
                positions@.no_duplicates(),
                all_meshes.len() == positions@.len(),
                rest@ == all_meshes.reverse().take(positions@.len() - i),
                forall|p: IVec3|
                    #[trigger] self.chunk(p) == (match old(self).chunk(p) {
                        Some(c) => Some(
                            if positions@.take(i as int).contains(p) {
                                meshed(c)
                            } else {
                                c
                            },
                        ),
                        None => None,
                    }),
                updates@ == applied_updates(
                    old(self),
                    positions@.take(i as int),
                    all_meshes.take(i as int),
                ),
            decreases positions@.len() - i,
        {
            let chunk_pos = positions[i];
            proof {
                lemma_take_next(positions@, i as int);
                assert(positions@.take(i as int + 1).drop_last() =~= positions@.take(i as int));
                assert(all_meshes.take(i as int + 1).drop_last() =~= all_meshes.take(i as int));
                assert(rest@.last() == all_meshes[i as int]);
                assert(self.chunk(chunk_pos) == old(self).chunk(chunk_pos));
            }
            let mesh = match rest.pop() {
                Some(mesh) => mesh,
                None => None,
            };
            match self.apply_mesh(chunk_pos) {
                Some(entity) => {
                    updates.push(MeshUpdate { entity, mesh });
                },
                None => {},
            }
            proof {
                assert(rest@ =~= all_meshes.reverse().take(positions@.len() - i - 1));
            }
            i += 1;
        }
        proof {
            assert(positions@.take(positions@.len() as int) =~= positions@);
            assert(all_meshes.take(all_meshes.len() as int) =~= all_meshes);
        }
        updates
    }

    /// Decides whether the chunks that wait for a save are saved now, at
    /// time `now` in seconds. They are not while none waits, while fewer
    /// than three seconds have passed since the last save, or while the
    /// previous save still runs; then nothing changes. Else all of them are
    /// handed out, in the order in which they began to wait, none waits any
    /// more, and the save counts as made at `now`.
    pub fn plan_save(&mut self, now: u64, previous_save_running: bool) -> (batch: Option<
        (Vec<IVec3>, Vec<ChunkData>),
    >)
        requires
            old(self).wf(),
        ensures
            final(self).wf(),
            final(self).center() == old(self).center(),
            final(self).radius() == old(self).radius(),
            final(self).loaded() == old(self).loaded(),
            final(self).generation_tasks() == old(self).generation_tasks(),
            final(self).light_tasks() == old(self).light_tasks(),
            final(self).mesh_tasks() == old(self).mesh_tasks(),
            final(self).pending_positions() == old(self).pending_positions(),
            forall|p: IVec3| #[trigger] final(self).chunk(p) == old(self).chunk(p),
            forall|p: IVec3| #[trigger] final(self).pending(p) == old(self).pending(p),
            batch is Some <==> (old(self).dirty_positions().len() > 0 && now >= old(
                self,
            ).last_save_time() + SAVE_INTERVAL && !previous_save_running),
            match batch {
                Some(entries) => {
                    &&& final(self).last_save_time() == now
                    &&& final(self).dirty_positions() == Seq::<IVec3>::empty()
                    &&& forall|p: IVec3| #[trigger] final(self).dirty(p) is None
                    &&& entries.0@ == old(self).dirty_positions()
                    &&& entries.0@.no_duplicates()
                    &&& entries.1@.len() == entries.0@.len()
                    &&& forall|i: int|
                        0 <= i < entries.0@.len() ==> old(self).dirty(#[trigger] entries.0@[i])
                            == Some(entries.1@[i]) && entries.1@[i].wf()
                },
                None => {
                    &&& final(self).last_save_time() == old(self).last_save_time()
                    &&& final(self).dirty_positions() == old(self).dirty_positions()
                    &&& forall|p: IVec3| #[trigger] final(self).dirty(p) == old(self).dirty(p)
                },
            },
    {
        if self.chunks_to_save.len() == 0 {
            return None;
        }
        let elapsed = if now >= self.last_save_time {
            now - self.last_save_time
        } else {
            0
        };
        if elapsed < SAVE_INTERVAL {
            return None;
        }
        if previous_save_running {
            return None;
        }
        proof {
            self.chunks_to_save.lemma_wf();
        }
        let entries = self.chunks_to_save.take_all();
        self.last_save_time = now;
        Some(entries)
    }

    /// In every state of the world no chunk has two tasks of one kind under
    /// way, and no more than sixteen tasks of one kind are under way.
    pub proof fn lemma_no_redundant_work(&self)
        requires
            self.wf(),
        ensures
            self.generation_tasks().no_duplicates(),
            self.light_tasks().no_duplicates(),
            self.mesh_tasks().no_duplicates(),
            self.generation_tasks().len() <= MAX_TASKS,
            self.light_tasks().len() <= MAX_TASKS,
            self.mesh_tasks().len() <= MAX_TASKS,
    {
        self.lemma_wf();
    }
}

/// The chunk that the first entry of a batch at position `p` holds.
pub open spec fn first_in_batch(positions: Seq<IVec3>, chunks: Seq<ChunkData>, p: IVec3) -> Option<
    ChunkData,
>
    decreases positions.len(),
{
    if positions.len() == 0 || chunks.len() != positions.len() {
        None
    } else if positions[0] == p {
        Some(chunks[0])
    } else {
        first_in_batch(positions.skip(1), chunks.skip(1), p)
    }
}

impl World {
    /// Puts the chunks of a batch that could not be saved back among the
    /// chunks that wait for a save, so that the next save takes them along.
    /// A chunk that has begun to wait again in the meantime stays as it is,
    /// since it is newer; of two entries of the batch at one position the
    /// first counts.
    pub fn restore_unsaved(&mut self, positions: Vec<IVec3>, chunks: Vec<ChunkData>)
        requires
            old(self).wf(),
            positions@.len() == chunks@.len(),
            forall|i: int| 0 <= i < chunks@.len() ==> (#[trigger] chunks@[i]).wf(),
        ensures
            final(self).wf(),
            final(self).center() == old(self).center(),
            final(self).radius() == old(self).radius(),
            final(self).last_save_time() == old(self).last_save_time(),
            final(self).loaded() == old(self).loaded(),
            final(self).generation_tasks() == old(self).generation_tasks(),
            final(self).light_tasks() == old(self).light_tasks(),
            final(self).mesh_tasks() == old(self).mesh_tasks(),
            final(self).pending_positions() == old(self).pending_positions(),
            forall|p: IVec3| #[trigger] final(self).chunk(p) == old(self).chunk(p),
            forall|p: IVec3| #[trigger] final(self).pending(p) == old(self).pending(p),
            forall|p: IVec3|
                #[trigger] final(self).dirty(p) == (match old(self).dirty(p) {
                    Some(newer) => Some(newer),
                    None => first_in_batch(positions@, chunks@, p),
                }),
    {
        let ghost all = chunks@;
        let mut rest = reversed(chunks);
        let mut i: usize = 0;
        proof {
            assert(positions@.skip(0) =~= positions@);
            assert(all.skip(0) =~= all);
        }
        while i < positions.len()
            invariant
                i <= positions@.len(),
                self.wf(),
                positions@.len() == all.len(),
                forall|k: int| 0 <= k < all.len() ==> (#[trigger] all[k]).wf(),
                rest@ == all.reverse().take(all.len() - i),
                self.center() == old(self).center(),
                self.radius() == old(self).radius(),
                self.last_save_time() == old(self).last_save_time(),
                self.loaded() == old(self).loaded(),
                self.generation_tasks() == old(self).generation_tasks(),
                self.light_tasks() == old(self).light_tasks(),
                self.mesh_tasks() == old(self).mesh_tasks(),
                self.pending_positions() == old(self).pending_positions(),
                forall|p: IVec3| #[trigger] self.chunk(p) == old(self).chunk(p),
                forall|p: IVec3| #[trigger] self.pending(p) == old(self).pending(p),
                forall|p: IVec3|
                    (match #[trigger] self.dirty(p) {
                        Some(held) => Some(held),
                        None => first_in_batch(positions@.skip(i as int), all.skip(i as int), p),
                    }) == (match old(self).dirty(p) {
                        Some(newer) => Some(newer),
                        None => first_in_batch(positions@, all, p),
                    }),
            decreases positions@.len() - i,
        {
            let chunk_pos = positions[i];
            proof {
                assert(rest@.last() == all[i as int]);
                assert(positions@.skip(i as int).skip(1) =~= positions@.skip(i as int + 1));
                assert(all.skip(i as int).skip(1) =~= all.skip(i as int + 1));
                assert(positions@.skip(i as int)[0] == chunk_pos);
                assert(all.skip(i as int)[0] == all[i as int]);
                self.lemma_wf();
            }
            let waiting = self.chunks_to_save.contains_key(chunk_pos);
            match rest.pop() {
                Some(data) => {
                    if !waiting {
                        self.mark_dirty(chunk_pos, data);
                    }
                },
                None => {},
            }
            proof {
                assert(rest@ =~= all.reverse().take(all.len() - i - 1));
            }
            i += 1;
        }
        proof {
            assert(positions@.skip(positions@.len() as int) =~= Seq::<IVec3>::empty());
        }
    }
}

} // verus!
