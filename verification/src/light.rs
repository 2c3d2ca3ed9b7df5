use std::collections::VecDeque;
use std::sync::Arc;
use vstd::prelude::*;

use crate::chunk_data::{LightData, LightDataInner, MAX_LIGHT};
use crate::coords::{
    cell_index, cell_x, cell_y, cell_z, chunk_pos_of, in_chunk, lemma_cell_coords,
    lemma_cell_index, local_pos_of, spec_chunk_pos, spec_local_pos, IVec3, USizeVec3,
    CHUNK_VOLUME,
};
use crate::coords::{div_floor, rem_floor};
use crate::registry::Registry;
use crate::relevant_chunks::{rel_chunk, rel_index, RelevantChunks};

verus! {

/// A cell, counted from the origin of the chunk being lit, and a light
/// level that spreads from it.
pub struct Seed {
    pub x: int,
    pub y: int,
    pub z: int,
    pub level: int,
}

/// The seed that a queue entry stands for.
pub open spec fn seed_of(item: (i32, i32, i32, u8)) -> Seed {
    Seed { x: item.0 as int, y: item.1 as int, z: item.2 as int, level: item.3 as int }
}

/// The seeds that a queue stands for.
pub open spec fn seeds_of(items: Seq<(i32, i32, i32, u8)>) -> Seq<Seed> {
    Seq::new(items.len(), |k: int| seed_of(items[k]))
}

/// The seed of a cell of the chunk, given by its place in flattened order.
pub open spec fn cell_seed(index: int, level: int) -> Seed {
    Seed { x: cell_x(index), y: cell_y(index), z: cell_z(index), level }
}

/// The six steps from a cell to a neighbor: `+x`, `-x`, `+y`, `-y`, `+z`,
/// `-z`.
pub open spec fn dir_step(d: int) -> (int, int, int) {
    if d == 0 {
        (1, 0, 0)
    } else if d == 1 {
        (-1, 0, 0)
    } else if d == 2 {
        (0, 1, 0)
    } else if d == 3 {
        (0, -1, 0)
    } else if d == 4 {
        (0, 0, 1)
    } else {
        (0, 0, -1)
    }
}

fn direction(d: usize) -> (step: (i32, i32, i32))
    requires
        d < 6,
    ensures
        (step.0 as int, step.1 as int, step.2 as int) == dir_step(d as int),
{
    if d == 0 {
        (1, 0, 0)
    } else if d == 1 {
        (-1, 0, 0)
    } else if d == 2 {
        (0, 1, 0)
    } else if d == 3 {
        (0, -1, 0)
    } else if d == 4 {
        (0, 0, 1)
    } else {
        (0, 0, -1)
    }
}

/// The cell `(x, y, z)`, counted from the origin of the chunk at
/// `chunk_pos`, holds a block that stops light. A cell without a block, or
/// in a chunk that is not at hand, does not.
pub open spec fn opaque_at(
    chunks: &RelevantChunks,
    registry: &Registry,
    chunk_pos: IVec3,
    x: int,
    y: int,
    z: int,
) -> bool {
    match chunks.rel_block(chunk_pos, x, y, z) {
        Some(block) => registry.spec_is_opaque(block),
        None => false,
    }
}

/// Light of `seed` has reached the neighbor in direction `d`: if that
/// neighbor is a cell of the chunk that lets light in, its level is at most
/// one below the seed's.
pub open spec fn served_dir(
    chunks: &RelevantChunks,
    registry: &Registry,
    chunk_pos: IVec3,
    levels: Seq<u8>,
    seed: Seed,
    d: int,
) -> bool {
    let step = dir_step(d);
    let x = seed.x + step.0;
    let y = seed.y + step.1;
    let z = seed.z + step.2;
    in_chunk(x, y, z) && !opaque_at(chunks, registry, chunk_pos, x, y, z) ==> levels[cell_index(
        x,
        y,
        z,
    )] >= seed.level - 1
}

/// Light of `seed` has reached all six neighbors.
pub open spec fn served(
    chunks: &RelevantChunks,
    registry: &Registry,
    chunk_pos: IVec3,
    levels: Seq<u8>,
    seed: Seed,
) -> bool {
    forall|d: int|
        0 <= d < 6 ==> #[trigger] served_dir(chunks, registry, chunk_pos, levels, seed, d)
}

/// `levels` leaves nothing to spread: no cell is darker than in `base`,
/// every source has reached its neighbors, and so has every cell that lets
/// light in and is brighter than in `base`.
pub open spec fn closed(
    chunks: &RelevantChunks,
    registry: &Registry,
    chunk_pos: IVec3,
    base: Seq<u8>,
    sources: Set<Seed>,
    levels: Seq<u8>,
) -> bool {
    &&& levels.len() == CHUNK_VOLUME
    &&& forall|i: int| 0 <= i < CHUNK_VOLUME ==> #[trigger] levels[i] >= base[i]
    &&& forall|s: Seed| #[trigger]
        sources.contains(s) ==> served(chunks, registry, chunk_pos, levels, s)
    &&& forall|i: int|
        0 <= i < CHUNK_VOLUME && !opaque_at(
            chunks,
            registry,
            chunk_pos,
            cell_x(i),
            cell_y(i),
            cell_z(i),
        ) && #[trigger] levels[i] > base[i] ==> served(
            chunks,
            registry,
            chunk_pos,
            levels,
            cell_seed(i, levels[i] as int),
        )
}

/// No level of `a` is above that of `b` in the same cell.
pub open spec fn below(a: Seq<u8>, b: Seq<u8>) -> bool {
    forall|i: int| 0 <= i < CHUNK_VOLUME ==> #[trigger] a[i] <= b[i]
}

/// `levels` is the light that spreads from `base` and `sources`: it leaves
/// nothing to spread, and it is the darkest light that does.
pub open spec fn is_fill(
    chunks: &RelevantChunks,
    registry: &Registry,
    chunk_pos: IVec3,
    base: Seq<u8>,
    sources: Set<Seed>,
    levels: Seq<u8>,
) -> bool {
    &&& closed(chunks, registry, chunk_pos, base, sources, levels)
    &&& forall|other: Seq<u8>| #[trigger]
        closed(chunks, registry, chunk_pos, base, sources, other) ==> below(levels, other)
}

/// The light that spreads from a base and its sources is determined by
/// them: two fills of the same base and sources are the same in every cell.
pub proof fn lemma_fill_unique(
    chunks: &RelevantChunks,
    registry: &Registry,
    chunk_pos: IVec3,
    base: Seq<u8>,
    sources: Set<Seed>,
    first: Seq<u8>,
    second: Seq<u8>,
)
    requires
        is_fill(chunks, registry, chunk_pos, base, sources, first),
        is_fill(chunks, registry, chunk_pos, base, sources, second),
    ensures
        first == second,
{
    assert(below(first, second));
    assert(below(second, first));
    assert forall|i: int| 0 <= i < CHUNK_VOLUME implies first[i] == second[i] by {
        assert(first[i] <= second[i]);
        assert(second[i] <= first[i]);
    }
    assert(first =~= second);
}

/// A seed lies in the chunk or next to it and carries a level of at most 15.
pub open spec fn seed_in_reach(seed: Seed) -> bool {
    &&& -1 <= seed.x <= 32
    &&& -1 <= seed.y <= 32
    &&& -1 <= seed.z <= 32
    &&& 0 <= seed.level <= 15
}

spec fn level_sum(levels: Seq<u8>) -> int
    decreases levels.len(),
{
    if levels.len() == 0 {
        0
    } else {
        level_sum(levels.drop_last()) + levels.last()
    }
}

proof fn lemma_level_sum_bound(levels: Seq<u8>)
    requires
        forall|i: int| 0 <= i < levels.len() ==> levels[i] <= 15,
    ensures
        0 <= level_sum(levels) <= 15 * levels.len(),
    decreases levels.len(),
{
    if levels.len() > 0 {
        lemma_level_sum_bound(levels.drop_last());
    }
}

proof fn lemma_level_sum_update(levels: Seq<u8>, index: int, level: u8)
    requires
        0 <= index < levels.len(),
    ensures
        level_sum(levels.update(index, level)) == level_sum(levels) - levels[index] + level,
    decreases levels.len(),
{
    let updated = levels.update(index, level);
    if index == levels.len() - 1 {
        assert(updated.drop_last() =~= levels.drop_last());
    } else {
        lemma_level_sum_update(levels.drop_last(), index, level);
        assert(updated.drop_last() =~= levels.drop_last().update(index, level));
    }
}

/// Every light that leaves nothing to spread is at least as bright as
/// `levels`, and serves every seed of the queue.
spec fn dominated(
    chunks: &RelevantChunks,
    registry: &Registry,
    chunk_pos: IVec3,
    base: Seq<u8>,
    sources: Set<Seed>,
    levels: Seq<u8>,
    queue: Seq<Seed>,
) -> bool {
    forall|other: Seq<u8>| #[trigger]
        closed(chunks, registry, chunk_pos, base, sources, other) ==> below(levels, other) && (
        forall|k: int|
            0 <= k < queue.len() ==> served(chunks, registry, chunk_pos, other, #[trigger] queue[k]))
}

/// `seed` has to reach its neighbors: it is a source, or it is a cell that
/// lets light in and stands above its base level.
spec fn obliged(
    chunks: &RelevantChunks,
    registry: &Registry,
    chunk_pos: IVec3,
    base: Seq<u8>,
    sources: Set<Seed>,
    levels: Seq<u8>,
    seed: Seed,
) -> bool {
    ||| sources.contains(seed)
    ||| {
        &&& in_chunk(seed.x, seed.y, seed.z)
        &&& !opaque_at(chunks, registry, chunk_pos, seed.x, seed.y, seed.z)
        &&& seed.level == levels[cell_index(seed.x, seed.y, seed.z)]
        &&& seed.level > base[cell_index(seed.x, seed.y, seed.z)]
    }
}

/// Every seed that has to reach its neighbors has done so, waits in the
/// queue, or is the one being worked on.
spec fn settled(
    chunks: &RelevantChunks,
    registry: &Registry,
    chunk_pos: IVec3,
    base: Seq<u8>,
    sources: Set<Seed>,
    levels: Seq<u8>,
    queue: Seq<Seed>,
    current: Option<Seed>,
) -> bool {
    forall|s: Seed| #[trigger]
        obliged(chunks, registry, chunk_pos, base, sources, levels, s) ==> queue.contains(s)
            || served(chunks, registry, chunk_pos, levels, s) || current == Some(s)
}

proof fn lemma_served_monotone(
    chunks: &RelevantChunks,
    registry: &Registry,
    chunk_pos: IVec3,
    levels: Seq<u8>,
    index: int,
    level: u8,
    seed: Seed,
)
    requires
        0 <= index < levels.len(),
        levels.len() == CHUNK_VOLUME,
        levels[index] <= level,
    ensures
        forall|d: int|
            served_dir(chunks, registry, chunk_pos, levels, seed, d) ==> #[trigger] served_dir(
                chunks,
                registry,
                chunk_pos,
                levels.update(index, level),
                seed,
                d,
            ),
        served(chunks, registry, chunk_pos, levels, seed) ==> served(
            chunks,
            registry,
            chunk_pos,
            levels.update(index, level),
            seed,
        ),
{
    let raised = levels.update(index, level);
    assert forall|d: int|
        served_dir(chunks, registry, chunk_pos, levels, seed, d) implies #[trigger] served_dir(
        chunks,
        registry,
        chunk_pos,
        raised,
        seed,
        d,
    ) by {
        let step = dir_step(d);
        if in_chunk(seed.x + step.0, seed.y + step.1, seed.z + step.2) {
            lemma_cell_index(seed.x + step.0, seed.y + step.1, seed.z + step.2);
        }
    }
    if served(chunks, registry, chunk_pos, levels, seed) {
        assert forall|d: int| 0 <= d < 6 implies #[trigger] served_dir(
            chunks,
            registry,
            chunk_pos,
            raised,
            seed,
            d,
        ) by {
            assert(served_dir(chunks, registry, chunk_pos, levels, seed, d));
        }
    }
}

/// At the start nothing has spread yet: the levels are the base, and the
/// queue holds exactly the sources.
proof fn lemma_fill_start(
    chunks: &RelevantChunks,
    registry: &Registry,
    chunk_pos: IVec3,
    base: Seq<u8>,
    queue: Seq<Seed>,
)
    requires
        base.len() == CHUNK_VOLUME,
    ensures
        dominated(chunks, registry, chunk_pos, base, queue.to_set(), base, queue),
        settled(chunks, registry, chunk_pos, base, queue.to_set(), base, queue, None),
{
    let sources = queue.to_set();
    assert forall|other: Seq<u8>| #[trigger]
        closed(chunks, registry, chunk_pos, base, sources, other) implies below(base, other) && (
    forall|k: int|
        0 <= k < queue.len() ==> served(chunks, registry, chunk_pos, other, #[trigger] queue[k])) by {
        assert forall|i: int| 0 <= i < CHUNK_VOLUME implies #[trigger] base[i] <= other[i] by {
            assert(other[i] >= base[i]);
        }
        assert forall|k: int| 0 <= k < queue.len() implies served(
            chunks,
            registry,
            chunk_pos,
            other,
            #[trigger] queue[k],
        ) by {
            assert(sources.contains(queue[k]));
        }
    }
}

/// Taking the first seed off the queue to work on it keeps the queue's
/// bookkeeping.
proof fn lemma_fill_pop(
    chunks: &RelevantChunks,
    registry: &Registry,
    chunk_pos: IVec3,
    base: Seq<u8>,
    sources: Set<Seed>,
    levels: Seq<u8>,
    queue: Seq<Seed>,
)
    requires
        queue.len() > 0,
        dominated(chunks, registry, chunk_pos, base, sources, levels, queue),
        settled(chunks, registry, chunk_pos, base, sources, levels, queue, None),
    ensures
        dominated(chunks, registry, chunk_pos, base, sources, levels, queue.skip(1)),
        dominated(chunks, registry, chunk_pos, base, sources, levels, seq![queue[0]]),
        settled(chunks, registry, chunk_pos, base, sources, levels, queue.skip(1), Some(queue[0])),
{
    let rest = queue.skip(1);
    assert forall|other: Seq<u8>| #[trigger]
        closed(chunks, registry, chunk_pos, base, sources, other) implies below(levels, other) && (
    forall|k: int|
        0 <= k < rest.len() ==> served(chunks, registry, chunk_pos, other, #[trigger] rest[k])) && (
    forall|k: int|
        0 <= k < 1 ==> served(chunks, registry, chunk_pos, other, #[trigger] seq![queue[0]][k])) by {
        assert forall|k: int| 0 <= k < rest.len() implies served(
            chunks,
            registry,
            chunk_pos,
            other,
            #[trigger] rest[k],
        ) by {
            assert(rest[k] == queue[k + 1]);
        }
        assert(served(chunks, registry, chunk_pos, other, queue[0]));
    }
    assert forall|s: Seed| #[trigger]
        obliged(chunks, registry, chunk_pos, base, sources, levels, s) implies rest.contains(s)
        || served(chunks, registry, chunk_pos, levels, s) || Some(queue[0]) == Some(s) by {
        if queue.contains(s) {
            let k = choose|k: int| 0 <= k < queue.len() && queue[k] == s;
            if k > 0 {
                assert(rest[k - 1] == s);
            }
        }
    }
}

/// Raising a neighbor of the seed being worked on to one below the seed's
/// level, and queueing it, keeps the queue's bookkeeping.
proof fn lemma_fill_raise(
    chunks: &RelevantChunks,
    registry: &Registry,
    chunk_pos: IVec3,
    base: Seq<u8>,
    sources: Set<Seed>,
    levels: Seq<u8>,
    queue: Seq<Seed>,
    current: Seed,
    d: int,
)
    requires
        0 <= d < 6,
        levels.len() == CHUNK_VOLUME,
        base.len() == CHUNK_VOLUME,
        forall|i: int| 0 <= i < CHUNK_VOLUME ==> #[trigger] levels[i] >= base[i],
        1 <= current.level <= 15,
        dominated(chunks, registry, chunk_pos, base, sources, levels, queue),
        dominated(chunks, registry, chunk_pos, base, sources, levels, seq![current]),
        settled(chunks, registry, chunk_pos, base, sources, levels, queue, Some(current)),
        in_chunk(
            current.x + dir_step(d).0,
            current.y + dir_step(d).1,
            current.z + dir_step(d).2,
        ),
        !opaque_at(
            chunks,
            registry,
            chunk_pos,
            current.x + dir_step(d).0,
            current.y + dir_step(d).1,
            current.z + dir_step(d).2,
        ),
        levels[cell_index(
            current.x + dir_step(d).0,
            current.y + dir_step(d).1,
            current.z + dir_step(d).2,
        )] < current.level - 1,
    ensures
        ({
            let x = current.x + dir_step(d).0;
            let y = current.y + dir_step(d).1;
            let z = current.z + dir_step(d).2;
            let raised = levels.update(cell_index(x, y, z), (current.level - 1) as u8);
            let longer = queue.push(Seed { x, y, z, level: current.level - 1 });
            &&& dominated(chunks, registry, chunk_pos, base, sources, raised, longer)
            &&& dominated(chunks, registry, chunk_pos, base, sources, raised, seq![current])
            &&& settled(chunks, registry, chunk_pos, base, sources, raised, longer, Some(current))
        }),
{
    let x = current.x + dir_step(d).0;
    let y = current.y + dir_step(d).1;
    let z = current.z + dir_step(d).2;
    let index = cell_index(x, y, z);
    let level = (current.level - 1) as u8;
    let raised = levels.update(index, level);
    let fresh = Seed { x, y, z, level: current.level - 1 };
    let longer = queue.push(fresh);
    lemma_cell_index(x, y, z);
    assert forall|other: Seq<u8>| #[trigger]
        closed(chunks, registry, chunk_pos, base, sources, other) implies below(raised, other) && (
    forall|k: int|
        0 <= k < longer.len() ==> served(chunks, registry, chunk_pos, other, #[trigger] longer[k]))
        && (forall|k: int|
        0 <= k < 1 ==> served(chunks, registry, chunk_pos, other, #[trigger] seq![current][k])) by {
        assert(below(levels, other));
        assert(served(chunks, registry, chunk_pos, other, seq![current][0]));
        assert(served_dir(chunks, registry, chunk_pos, other, current, d));
        assert(other[index] >= level);
        assert forall|i: int| 0 <= i < CHUNK_VOLUME implies #[trigger] raised[i] <= other[i] by {
            assert(levels[i] <= other[i]);
        }
        assert(levels[index] >= base[index]);
        assert(other[index] > base[index]);
        assert(served(chunks, registry, chunk_pos, other, cell_seed(index, other[index] as int)));
        assert forall|e: int| 0 <= e < 6 implies #[trigger] served_dir(
            chunks,
            registry,
            chunk_pos,
            other,
            fresh,
            e,
        ) by {
            assert(served_dir(
                chunks,
                registry,
                chunk_pos,
                other,
                cell_seed(index, other[index] as int),
                e,
            ));
        }
        assert forall|k: int| 0 <= k < longer.len() implies served(
            chunks,
            registry,
            chunk_pos,
            other,
            #[trigger] longer[k],
        ) by {
            if k < queue.len() {
                assert(longer[k] == queue[k]);
            }
        }
    }
    assert forall|s: Seed| #[trigger]
        obliged(chunks, registry, chunk_pos, base, sources, raised, s) implies longer.contains(s)
        || served(chunks, registry, chunk_pos, raised, s) || Some(current) == Some(s) by {
        lemma_served_monotone(chunks, registry, chunk_pos, levels, index, level, s);
        if in_chunk(s.x, s.y, s.z) {
            lemma_cell_index(s.x, s.y, s.z);
        }
        if !sources.contains(s) && cell_index(s.x, s.y, s.z) == index {
            assert(s == fresh);
            assert(longer[queue.len() as int] == s);
        } else {
            assert(obliged(chunks, registry, chunk_pos, base, sources, levels, s));
            if queue.contains(s) {
                let k = choose|k: int| 0 <= k < queue.len() && queue[k] == s;
                assert(longer[k] == s);
            }
        }
    }
}

/// When the queue is empty and nothing is being worked on, the levels are
/// the light that spreads from the base and the sources.
proof fn lemma_fill_done(
    chunks: &RelevantChunks,
    registry: &Registry,
    chunk_pos: IVec3,
    base: Seq<u8>,
    sources: Set<Seed>,
    levels: Seq<u8>,
)
    requires
        levels.len() == CHUNK_VOLUME,
        base.len() == CHUNK_VOLUME,
        forall|i: int| 0 <= i < CHUNK_VOLUME ==> #[trigger] levels[i] >= base[i],
        dominated(chunks, registry, chunk_pos, base, sources, levels, Seq::<Seed>::empty()),
        settled(chunks, registry, chunk_pos, base, sources, levels, Seq::<Seed>::empty(), None),
    ensures
        is_fill(chunks, registry, chunk_pos, base, sources, levels),
{
    assert forall|s: Seed| #[trigger] sources.contains(s) implies served(
        chunks,
        registry,
        chunk_pos,
        levels,
        s,
    ) by {
        assert(obliged(chunks, registry, chunk_pos, base, sources, levels, s));
    }
    assert forall|i: int|
        0 <= i < CHUNK_VOLUME && !opaque_at(
            chunks,
            registry,
            chunk_pos,
            cell_x(i),
            cell_y(i),
            cell_z(i),
        ) && #[trigger] levels[i] > base[i] implies served(
        chunks,
        registry,
        chunk_pos,
        levels,
        cell_seed(i, levels[i] as int),
    ) by {
        lemma_cell_coords(i);
        assert(obliged(
            chunks,
            registry,
            chunk_pos,
            base,
            sources,
            levels,
            cell_seed(i, levels[i] as int),
        ));
    }
}

/// Whether the cell `(x, y, z)`, counted from the origin of the chunk at
/// `chunk_pos`, holds a block that stops light.
pub fn is_opaque_at(
    chunks: &RelevantChunks,
    registry: &Registry,
    chunk_pos: IVec3,
    x: i32,
    y: i32,
    z: i32,
) -> (opaque: bool)
    requires
        chunks.wf(),
    ensures
        opaque == opaque_at(chunks, registry, chunk_pos, x as int, y as int, z as int),
{
    match chunks.get_block_rel(chunk_pos, x, y, z) {
        Some(block) => registry.is_opaque(block),
        None => false,
    }
}

/// Check if a position is inside the chunk local coordinate range.
fn is_inside_chunk(x: i32, y: i32, z: i32) -> (inside: bool)
    ensures
        inside == in_chunk(x as int, y as int, z as int),
{
    x >= 0 && x < 32 && y >= 0 && y < 32 && z >= 0 && z < 32
}

/// Spreads light from the queued seeds through the chunk: a seed of level
/// above 1 raises each neighbor inside the chunk that lets light in and is
/// darker than one below the seed's level to that level, and the neighbor
/// is queued in turn. Cells outside the chunk are never written.
fn flood_fill(
    levels: &mut Vec<u8>,
    queue: &mut VecDeque<(i32, i32, i32, u8)>,
    chunks: &RelevantChunks,
    registry: &Registry,
    chunk_pos: IVec3,
)
    requires
        chunks.wf(),
        old(levels)@.len() == CHUNK_VOLUME,
        forall|i: int| 0 <= i < CHUNK_VOLUME ==> old(levels)@[i] <= 15,
        forall|k: int| 0 <= k < old(queue)@.len() ==> seed_in_reach(seed_of(#[trigger] old(queue)@[k])),
    ensures
        final(levels)@.len() == CHUNK_VOLUME,
        forall|i: int| 0 <= i < CHUNK_VOLUME ==> final(levels)@[i] <= 15,
        is_fill(
            chunks,
            registry,
            chunk_pos,
            old(levels)@,
            seeds_of(old(queue)@).to_set(),
            final(levels)@,
        ),
{
    let ghost base = levels@;
    let ghost sources = seeds_of(queue@).to_set();
    proof {
        lemma_fill_start(chunks, registry, chunk_pos, base, seeds_of(queue@));
        lemma_level_sum_bound(levels@);
    }
    while queue.len() > 0
        invariant
            chunks.wf(),
            base.len() == CHUNK_VOLUME,
            levels@.len() == CHUNK_VOLUME,
            forall|i: int| 0 <= i < CHUNK_VOLUME ==> levels@[i] <= 15,
            forall|i: int| 0 <= i < CHUNK_VOLUME ==> #[trigger] levels@[i] >= base[i],
            forall|k: int| 0 <= k < queue@.len() ==> seed_in_reach(seed_of(#[trigger] queue@[k])),
            dominated(chunks, registry, chunk_pos, base, sources, levels@, seeds_of(queue@)),
            settled(chunks, registry, chunk_pos, base, sources, levels@, seeds_of(queue@), None),
            0 <= level_sum(levels@) <= 15 * CHUNK_VOLUME,
        decreases 15 * CHUNK_VOLUME - level_sum(levels@), queue@.len(),
    {
        let ghost queue_before = queue@;
        let ghost sum_before = level_sum(levels@);
        proof {
            lemma_fill_pop(chunks, registry, chunk_pos, base, sources, levels@, seeds_of(queue@));
        }
        let item = match queue.pop_front() {
            Some(item) => item,
            None => (0, 0, 0, 0),
        };
        let ghost current = seed_of(item);
        proof {
            assert(seeds_of(queue@) =~= seeds_of(queue_before).skip(1));
            assert(current == seeds_of(queue_before)[0]);
            assert(seed_in_reach(seed_of(queue_before[0])));
            assert forall|k: int| 0 <= k < queue@.len() implies seed_in_reach(
                seed_of(#[trigger] queue@[k]),
            ) by {
                assert(queue@[k] == queue_before[k + 1]);
            }
        }
        let (x, y, z, level) = item;
        if level > 1 {
            let mut d: usize = 0;
            while d < 6
                invariant
                    d <= 6,
                    chunks.wf(),
                    current == seed_of((x, y, z, level)),
                    seed_in_reach(current),
                    level > 1,
                    base.len() == CHUNK_VOLUME,
                    levels@.len() == CHUNK_VOLUME,
                    forall|i: int| 0 <= i < CHUNK_VOLUME ==> levels@[i] <= 15,
                    forall|i: int| 0 <= i < CHUNK_VOLUME ==> #[trigger] levels@[i] >= base[i],
                    forall|k: int|
                        0 <= k < queue@.len() ==> seed_in_reach(seed_of(#[trigger] queue@[k])),
                    dominated(chunks, registry, chunk_pos, base, sources, levels@, seeds_of(queue@)),
                    dominated(chunks, registry, chunk_pos, base, sources, levels@, seq![current]),
                    settled(
                        chunks,
                        registry,
                        chunk_pos,
                        base,
                        sources,
                        levels@,
                        seeds_of(queue@),
                        Some(current),
                    ),
                    forall|e: int|
                        0 <= e < d ==> #[trigger] served_dir(
                            chunks,
                            registry,
                            chunk_pos,
                            levels@,
                            current,
                            e,
                        ),
                    0 <= level_sum(levels@) <= 15 * CHUNK_VOLUME,
                    level_sum(levels@) >= sum_before,
                    queue@.len() + sum_before <= queue_before.len() - 1 + level_sum(levels@),
                decreases 6 - d,
            {
                let step = direction(d);
                let nx = x + step.0;
                let ny = y + step.1;
                let nz = z + step.2;
                if is_inside_chunk(nx, ny, nz) && !is_opaque_at(chunks, registry, chunk_pos, nx, ny, nz) {
                    let index = (nx + ny * 32 + nz * 1024) as usize;
                    let new_level = level - 1;
                    if levels[index] < new_level {
                        let ghost levels_before = levels@;
                        let ghost seeds_before = seeds_of(queue@);
                        proof {
                            lemma_fill_raise(
                                chunks,
                                registry,
                                chunk_pos,
                                base,
                                sources,
                                levels@,
                                seeds_of(queue@),
                                current,
                                d as int,
                            );
                            lemma_level_sum_update(levels@, index as int, new_level);
                            lemma_served_monotone(
                                chunks,
                                registry,
                                chunk_pos,
                                levels@,
                                index as int,
                                new_level,
                                current,
                            );
                        }
                        levels.set(index, new_level);
                        queue.push_back((nx, ny, nz, new_level));
                        proof {
                            lemma_level_sum_bound(levels@);
                            assert(seeds_of(queue@) =~= seeds_before.push(
                                Seed { x: nx as int, y: ny as int, z: nz as int, level: new_level as int },
                            ));
                            assert forall|e: int| 0 <= e < d + 1 implies #[trigger] served_dir(
                                chunks,
                                registry,
                                chunk_pos,
                                levels@,
                                current,
                                e,
                            ) by {
                                if e < d {
                                    assert(served_dir(
                                        chunks,
                                        registry,
                                        chunk_pos,
                                        levels_before,
                                        current,
                                        e,
                                    ));
                                }
                            }
                        }
                    }
                }
                d += 1;
            }
            proof {
                assert(served(chunks, registry, chunk_pos, levels@, current));
            }
        }
        proof {
            assert forall|e: int| 0 <= e < 6 implies #[trigger] served_dir(
                chunks,
                registry,
                chunk_pos,
                levels@,
                current,
                e,
            ) by {
                if level <= 1 {
                } else {
                    assert(served(chunks, registry, chunk_pos, levels@, current));
                }
            }
            assert(served(chunks, registry, chunk_pos, levels@, current));
        }
    }
    proof {
        assert(seeds_of(queue@) =~= Seq::<Seed>::empty());
        lemma_fill_done(chunks, registry, chunk_pos, base, sources, levels@);
    }
}

/// The light of the first of `neighbors` that lies at `chunk_pos`.
pub open spec fn first_light(neighbors: Seq<(IVec3, LightData)>, chunk_pos: IVec3) -> Option<
    LightData,
>
    decreases neighbors.len(),
{
    if neighbors.len() == 0 {
        None
    } else if neighbors[0].0 == chunk_pos {
        Some(neighbors[0].1)
    } else {
        first_light(neighbors.skip(1), chunk_pos)
    }
}

/// Most neighbors that a chunk has.
pub const MAX_NEIGHBORS: usize = 26;

/// Light data for a chunk and its neighbors, used during mesh generation.
pub struct RelevantLights {
    center: LightData,
    center_pos: IVec3,
    neighbors: Vec<(IVec3, LightData)>,
}

impl RelevantLights {
    pub closed spec fn wf(&self) -> bool {
        &&& self.center.wf()
        &&& self.neighbors@.len() <= MAX_NEIGHBORS
        &&& forall|i: int| 0 <= i < self.neighbors@.len() ==> (#[trigger] self.neighbors@[i]).1.wf()
    }

    pub closed spec fn center_pos(&self) -> IVec3 {
        self.center_pos
    }

    pub closed spec fn neighbor_count(&self) -> nat {
        self.neighbors@.len()
    }

    /// The light held for the chunk at `chunk_pos`: that of the center, or
    /// that of the first neighbor added at this position.
    pub closed spec fn light_of(&self, chunk_pos: IVec3) -> Option<LightData> {
        if chunk_pos == self.center_pos {
            Some(self.center)
        } else {
            first_light(self.neighbors@, chunk_pos)
        }
    }

    /// Sky light and block light of a cell of the chunk at `chunk_pos`; dark
    /// where no light is held for that chunk.
    pub open spec fn spec_light_in(&self, chunk_pos: IVec3, index: int) -> (u8, u8) {
        match self.light_of(chunk_pos) {
            Some(light) => (light.sky()[index], light.block()[index]),
            None => (0, 0),
        }
    }

    /// Sky light and block light at a cell of the world grid.
    pub open spec fn spec_get_light(&self, world_pos: IVec3) -> (u8, u8) {
        let local = spec_local_pos(world_pos);
        self.spec_light_in(
            spec_chunk_pos(world_pos),
            cell_index(local.x as int, local.y as int, local.z as int),
        )
    }

    /// Sky light and block light of the cell `(x, y, z)` counted from the
    /// origin of the chunk at `origin`.
    pub open spec fn rel_light(&self, origin: IVec3, x: int, y: int, z: int) -> (u8, u8) {
        match rel_chunk(origin, x, y, z) {
            Some(chunk_pos) => self.spec_light_in(chunk_pos, rel_index(x, y, z)),
            None => (0, 0),
        }
    }

    proof fn lemma_first_light_push(
        neighbors: Seq<(IVec3, LightData)>,
        entry: (IVec3, LightData),
        chunk_pos: IVec3,
    )
        ensures
            first_light(neighbors.push(entry), chunk_pos) == (match first_light(
                neighbors,
                chunk_pos,
            ) {
                Some(light) => Some(light),
                None => if entry.0 == chunk_pos {
                    Some(entry.1)
                } else {
                    None
                },
            }),
        decreases neighbors.len(),
    {
        let longer = neighbors.push(entry);
        if neighbors.len() == 0 {
            assert(longer.skip(1) =~= Seq::<(IVec3, LightData)>::empty());
            assert(first_light(longer.skip(1), chunk_pos) is None);
            assert(longer[0] == entry);
        } else {
            assert(longer[0] == neighbors[0]);
            assert(longer.skip(1) =~= neighbors.skip(1).push(entry));
            if neighbors[0].0 != chunk_pos {
                Self::lemma_first_light_push(neighbors.skip(1), entry, chunk_pos);
            }
        }
    }

    pub fn new(center_pos: IVec3, center: LightData) -> (lights: RelevantLights)
        requires
            center.wf(),
        ensures
            lights.wf(),
            lights.center_pos() == center_pos,
            lights.neighbor_count() == 0,
            lights.light_of(center_pos) == Some(center),
            forall|p: IVec3| p != center_pos ==> #[trigger] lights.light_of(p) is None,
    {
        RelevantLights { center, center_pos, neighbors: Vec::new() }
    }

    /// Adds the light of a neighbor. Beyond 26 neighbors nothing is added,
    /// and of two lights added at one position the first is the one read.
    pub fn add_neighbor(&mut self, pos: IVec3, light: LightData)
        requires
            old(self).wf(),
            light.wf(),
        ensures
            final(self).wf(),
            final(self).center_pos() == old(self).center_pos(),
            final(self).neighbor_count() == if old(self).neighbor_count() < MAX_NEIGHBORS {
                old(self).neighbor_count() + 1
            } else {
                old(self).neighbor_count()
            },
            forall|p: IVec3| #[trigger]
                final(self).light_of(p) == (match old(self).light_of(p) {
                    Some(held) => Some(held),
                    None => if p == pos && old(self).neighbor_count() < MAX_NEIGHBORS {
                        Some(light)
                    } else {
                        None
                    },
                }),
    {
        if self.neighbors.len() < MAX_NEIGHBORS {
            proof {
                assert forall|p: IVec3|
                    first_light(#[trigger] self.neighbors@.push((pos, light)), p) == (match first_light(
                        self.neighbors@,
                        p,
                    ) {
                        Some(held) => Some(held),
                        None => if pos == p {
                            Some(light)
                        } else {
                            None
                        },
                    }) by {
                    Self::lemma_first_light_push(self.neighbors@, (pos, light), p);
                }
            }
            self.neighbors.push((pos, light));
        }
    }

    /// Sky light and block light of a cell of the chunk at `chunk_pos`.
    pub fn get_light_in(&self, chunk_pos: IVec3, local_pos: USizeVec3) -> (levels: (u8, u8))
        requires
            self.wf(),
            local_pos.in_chunk(),
        ensures
            levels == self.spec_light_in(
                chunk_pos,
                cell_index(local_pos.x as int, local_pos.y as int, local_pos.z as int),
            ),
            levels.0 <= MAX_LIGHT,
            levels.1 <= MAX_LIGHT,
    {
        if chunk_pos.x == self.center_pos.x && chunk_pos.y == self.center_pos.y && chunk_pos.z
            == self.center_pos.z {
            return (self.center.get_sky_light(local_pos), self.center.get_block_light(local_pos));
        }
        let mut i: usize = 0;
        proof {
            assert(self.neighbors@.skip(0) =~= self.neighbors@);
        }
        while i < self.neighbors.len()
            invariant
                i <= self.neighbors@.len(),
                self.wf(),
                local_pos.in_chunk(),
                chunk_pos != self.center_pos,
                first_light(self.neighbors@, chunk_pos) == first_light(
                    self.neighbors@.skip(i as int),
                    chunk_pos,
                ),
            decreases self.neighbors@.len() - i,
        {
            let pos = self.neighbors[i].0;
            proof {
                assert(self.neighbors@.skip(i as int)[0] == self.neighbors@[i as int]);
                assert(self.neighbors@.skip(i as int).skip(1) =~= self.neighbors@.skip(i as int + 1));
            }
            if pos.x == chunk_pos.x && pos.y == chunk_pos.y && pos.z == chunk_pos.z {
                return (
                    self.neighbors[i].1.get_sky_light(local_pos),
                    self.neighbors[i].1.get_block_light(local_pos),
                );
            }
            i += 1;
        }
        // No neighbor light data available: default to dark
        (0, 0)
    }

    pub fn get_light(&self, world_pos: IVec3) -> (levels: (u8, u8))
        requires
            self.wf(),
        ensures
            levels == self.spec_get_light(world_pos),
            levels.0 <= MAX_LIGHT,
            levels.1 <= MAX_LIGHT,
    {
        let chunk_pos = chunk_pos_of(world_pos);
        let local_pos = local_pos_of(world_pos);
        self.get_light_in(chunk_pos, local_pos)
    }

    /// Sky light and block light of the cell `(x, y, z)` counted from the
    /// origin of the chunk at `origin`.
    pub fn get_light_rel(&self, origin: IVec3, x: i32, y: i32, z: i32) -> (levels: (u8, u8))
        requires
            self.wf(),
        ensures
            levels == self.rel_light(origin, x as int, y as int, z as int),
            levels.0 <= MAX_LIGHT,
            levels.1 <= MAX_LIGHT,
    {
        match origin.offset(div_floor(x, 32), div_floor(y, 32), div_floor(z, 32)) {
            Some(chunk_pos) => {
                let local_pos = USizeVec3 {
                    x: rem_floor(x, 32) as usize,
                    y: rem_floor(y, 32) as usize,
                    z: rem_floor(z, 32) as usize,
                };
                self.get_light_in(chunk_pos, local_pos)
            },
            None => (0, 0),
        }
    }
}

/// Nothing that stops light stands in the column of `(x, z)` from height
/// `y` up to the top of the chunk above.
pub open spec fn sky_open(
    chunks: &RelevantChunks,
    registry: &Registry,
    chunk_pos: IVec3,
    x: int,
    y: int,
    z: int,
) -> bool {
    forall|h: int| y <= h < 64 ==> !#[trigger] opaque_at(chunks, registry, chunk_pos, x, h, z)
}

/// A seed of the sky light pass: a cell of the chunk or of the one-cell
/// border around it in `x` and `z` that sees the sky, at full level.
pub open spec fn sky_seed(
    chunks: &RelevantChunks,
    registry: &Registry,
    chunk_pos: IVec3,
    seed: Seed,
) -> bool {
    &&& -1 <= seed.x <= 32
    &&& -1 <= seed.z <= 32
    &&& 0 <= seed.y < 32
    &&& seed.level == 15
    &&& sky_open(chunks, registry, chunk_pos, seed.x, seed.y, seed.z)
}

pub open spec fn sky_sources(chunks: &RelevantChunks, registry: &Registry, chunk_pos: IVec3) -> Set<
    Seed,
> {
    Set::new(|s: Seed| sky_seed(chunks, registry, chunk_pos, s))
}

/// Sky light before it spreads: full in the cells that see the sky, none
/// elsewhere.
pub open spec fn sky_base(chunks: &RelevantChunks, registry: &Registry, chunk_pos: IVec3) -> Seq<
    u8,
> {
    Seq::new(
        CHUNK_VOLUME as nat,
        |i: int|
            if sky_open(chunks, registry, chunk_pos, cell_x(i), cell_y(i), cell_z(i)) {
                15u8
            } else {
                0u8
            },
    )
}

/// Light that the block in the cell `(x, y, z)` gives off.
pub open spec fn emission_at(
    chunks: &RelevantChunks,
    registry: &Registry,
    chunk_pos: IVec3,
    x: int,
    y: int,
    z: int,
) -> u8 {
    match chunks.rel_block(chunk_pos, x, y, z) {
        Some(block) => registry.spec_light_emission(block),
        None => 0,
    }
}

/// Block light before it spreads: the emission of the cells that give off
/// light, and the level held before elsewhere.
pub open spec fn block_base(
    chunks: &RelevantChunks,
    registry: &Registry,
    chunk_pos: IVec3,
    before: Seq<u8>,
) -> Seq<u8> {
    Seq::new(
        CHUNK_VOLUME as nat,
        |i: int|
            if emission_at(chunks, registry, chunk_pos, cell_x(i), cell_y(i), cell_z(i)) > 0 {
                emission_at(chunks, registry, chunk_pos, cell_x(i), cell_y(i), cell_z(i))
            } else {
                before[i]
            },
    )
}

/// The cell `(x, y, z)` lies just outside one of the six faces of the
/// chunk.
pub open spec fn on_border(x: int, y: int, z: int) -> bool {
    ||| (x == -1 || x == 32) && 0 <= y < 32 && 0 <= z < 32
    ||| (y == -1 || y == 32) && 0 <= x < 32 && 0 <= z < 32
    ||| (z == -1 || z == 32) && 0 <= x < 32 && 0 <= y < 32
}

/// A seed of the block light pass: a cell of the chunk that gives off
/// light, at the level of its emission; or a cell just outside a face that
/// lets light in, at the block light that the neighbor holds there, where
/// that is above 1.
pub open spec fn block_seed(
    chunks: &RelevantChunks,
    registry: &Registry,
    chunk_pos: IVec3,
    neighbor_lights: &RelevantLights,
    seed: Seed,
) -> bool {
    ||| {
        &&& in_chunk(seed.x, seed.y, seed.z)
        &&& emission_at(chunks, registry, chunk_pos, seed.x, seed.y, seed.z) > 0
        &&& seed.level == emission_at(chunks, registry, chunk_pos, seed.x, seed.y, seed.z)
    }
    ||| {
        &&& on_border(seed.x, seed.y, seed.z)
        &&& seed.level == neighbor_lights.rel_light(chunk_pos, seed.x, seed.y, seed.z).1
        &&& seed.level > 1
        &&& !opaque_at(chunks, registry, chunk_pos, seed.x, seed.y, seed.z)
    }
}

pub open spec fn block_sources(
    chunks: &RelevantChunks,
    registry: &Registry,
    chunk_pos: IVec3,
    neighbor_lights: &RelevantLights,
) -> Set<Seed> {
    Set::new(|s: Seed| block_seed(chunks, registry, chunk_pos, neighbor_lights, s))
}

/// The cell at place `k` of the walk along the six faces: the faces `-x`,
/// `+x`, `-y`, `+y`, `-z`, `+z` in turn, each row by row.
pub open spec fn border_pos(k: int) -> (int, int, int) {
    let a = (k / 32) % 32;
    let b = k % 32;
    let face = k / 1024;
    if face == 0 {
        (-1, a, b)
    } else if face == 1 {
        (32, a, b)
    } else if face == 2 {
        (a, -1, b)
    } else if face == 3 {
        (a, 32, b)
    } else if face == 4 {
        (a, b, -1)
    } else {
        (a, b, 32)
    }
}

/// The place of a border cell in the walk along the six faces.
pub open spec fn border_index(x: int, y: int, z: int) -> int {
    if x == -1 {
        y * 32 + z
    } else if x == 32 {
        1024 + y * 32 + z
    } else if y == -1 {
        2048 + x * 32 + z
    } else if y == 32 {
        3072 + x * 32 + z
    } else if z == -1 {
        4096 + x * 32 + y
    } else {
        5120 + x * 32 + y
    }
}

proof fn lemma_border_index(x: int, y: int, z: int)
    requires
        on_border(x, y, z),
    ensures
        0 <= border_index(x, y, z) < 6144,
        border_pos(border_index(x, y, z)) == (x, y, z),
{
}

proof fn lemma_border_pos(k: int)
    requires
        0 <= k < 6144,
    ensures
        on_border(border_pos(k).0, border_pos(k).1, border_pos(k).2),
        border_index(border_pos(k).0, border_pos(k).1, border_pos(k).2) == k,
{
}

proof fn lemma_seeds_push(queue: Seq<(i32, i32, i32, u8)>, item: (i32, i32, i32, u8))
    ensures
        seeds_of(queue.push(item)) == seeds_of(queue).push(seed_of(item)),
        forall|s: Seed| #[trigger]
            seeds_of(queue.push(item)).contains(s) <==> (seeds_of(queue).contains(s) || s == seed_of(
                item,
            )),
{
    let before = seeds_of(queue);
    let after = seeds_of(queue.push(item));
    assert(after =~= before.push(seed_of(item)));
    assert forall|s: Seed| #[trigger] after.contains(s) <==> (before.contains(s) || s == seed_of(
        item,
    )) by {
        if after.contains(s) {
            let k = choose|k: int| 0 <= k < after.len() && after[k] == s;
            if k < before.len() {
                assert(before[k] == s);
            }
        }
        if before.contains(s) {
            let k = choose|k: int| 0 <= k < before.len() && before[k] == s;
            assert(after[k] == s);
        }
        if s == seed_of(item) {
            assert(after[before.len() as int] == s);
        }
    }
}

/// Seeds one column of the sky light pass: finds out whether the column is
/// open to the sky at the top of the chunk, then walks down through the
/// chunk, and queues every cell above the first block that stops light at
/// full level. Cells inside the chunk also get that level.
fn seed_sky_column(
    levels: &mut Vec<u8>,
    queue: &mut VecDeque<(i32, i32, i32, u8)>,
    chunks: &RelevantChunks,
    registry: &Registry,
    chunk_pos: IVec3,
    x: i32,
    z: i32,
)
    requires
        chunks.wf(),
        -1 <= x <= 32,
        -1 <= z <= 32,
        old(levels)@.len() == CHUNK_VOLUME,
        forall|i: int| 0 <= i < CHUNK_VOLUME ==> old(levels)@[i] <= 15,
        forall|k: int| 0 <= k < old(queue)@.len() ==> seed_in_reach(seed_of(#[trigger] old(queue)@[k])),
    ensures
        final(levels)@.len() == CHUNK_VOLUME,
        forall|i: int| 0 <= i < CHUNK_VOLUME ==> final(levels)@[i] <= 15,
        forall|k: int|
            0 <= k < final(queue)@.len() ==> seed_in_reach(seed_of(#[trigger] final(queue)@[k])),
        forall|i: int|
            0 <= i < CHUNK_VOLUME ==> #[trigger] final(levels)@[i] == (if cell_x(i) == x && cell_z(i)
                == z && sky_open(chunks, registry, chunk_pos, x as int, cell_y(i), z as int) {
                15u8
            } else {
                old(levels)@[i]
            }),
        forall|s: Seed| #[trigger]
            seeds_of(final(queue)@).contains(s) <==> (seeds_of(old(queue)@).contains(s) || (sky_seed(
                chunks,
                registry,
                chunk_pos,
                s,
            ) && s.x == x && s.z == z)),
{
    let inside_xz = x >= 0 && x < 32 && z >= 0 && z < 32;
    // Determine sky access by scanning the column in the chunk above.
    let mut sky_blocked = false;
    let mut check_y: i32 = 32;
    while check_y > 0 && !sky_blocked
        invariant
            chunks.wf(),
            0 <= check_y <= 32,
            !sky_blocked ==> sky_open(chunks, registry, chunk_pos, x as int, 32 + check_y, z as int),
            sky_blocked ==> !sky_open(chunks, registry, chunk_pos, x as int, 32, z as int),
        decreases check_y + (if sky_blocked { 0int } else { 1int }),
    {
        check_y -= 1;
        if is_opaque_at(chunks, registry, chunk_pos, x, 32 + check_y, z) {
            sky_blocked = true;
        }
    }
    let mut level: u8 = if sky_blocked { 0 } else { 15 };
    let mut y: i32 = 32;
    while y > 0
        invariant
            chunks.wf(),
            0 <= y <= 32,
            -1 <= x <= 32,
            -1 <= z <= 32,
            inside_xz == (0 <= x < 32 && 0 <= z < 32),
            level == 0 || level == 15,
            level == 15 <==> sky_open(chunks, registry, chunk_pos, x as int, y as int, z as int),
            levels@.len() == CHUNK_VOLUME,
            forall|i: int| 0 <= i < CHUNK_VOLUME ==> levels@[i] <= 15,
            forall|k: int| 0 <= k < queue@.len() ==> seed_in_reach(seed_of(#[trigger] queue@[k])),
            forall|i: int|
                0 <= i < CHUNK_VOLUME ==> #[trigger] levels@[i] == (if cell_x(i) == x && cell_z(i) == z
                    && cell_y(i) >= y && sky_open(
                    chunks,
                    registry,
                    chunk_pos,
                    x as int,
                    cell_y(i),
                    z as int,
                ) {
                    15u8
                } else {
                    old(levels)@[i]
                }),
            forall|s: Seed| #[trigger]
                seeds_of(queue@).contains(s) <==> (seeds_of(old(queue)@).contains(s) || (sky_seed(
                    chunks,
                    registry,
                    chunk_pos,
                    s,
                ) && s.x == x && s.z == z && s.y >= y)),
        decreases y,
    {
        y -= 1;
        if is_opaque_at(chunks, registry, chunk_pos, x, y, z) {
            level = 0;
        }
        let ghost levels_before = levels@;
        let ghost queue_before = queue@;
        if level > 0 {
            if inside_xz {
                let index = (x + y * 32 + z * 1024) as usize;
                proof {
                    lemma_cell_index(x as int, y as int, z as int);
                }
                levels.set(index, level);
            }
            queue.push_back((x, y, z, level));
            proof {
                lemma_seeds_push(queue_before, (x, y, z, level));
            }
        }
        proof {
            assert forall|i: int| 0 <= i < CHUNK_VOLUME implies #[trigger] levels@[i] == (if cell_x(i)
                == x && cell_z(i) == z && cell_y(i) >= y && sky_open(
                chunks,
                registry,
                chunk_pos,
                x as int,
                cell_y(i),
                z as int,
            ) {
                15u8
            } else {
                old(levels)@[i]
            }) by {
                lemma_cell_coords(i);
                if inside_xz {
                    lemma_cell_index(x as int, y as int, z as int);
                }
                assert(levels_before[i] == (if cell_x(i) == x && cell_z(i) == z && cell_y(i) >= y
                    + 1 && sky_open(chunks, registry, chunk_pos, x as int, cell_y(i), z as int) {
                    15u8
                } else {
                    old(levels)@[i]
                }));
            }
        }
    }
}

/// Propagate skylight for a single chunk. Scans a 1-block border around the
/// chunk so that skylight from neighboring chunks can flow in.
///
/// The block light of the result is 0 everywhere; its sky light is the
/// light that spreads from the cells that see the sky.
pub fn propagate_skylight(chunk_pos: IVec3, chunks: &RelevantChunks, registry: &Registry) -> (light:
    LightData)
    requires
        chunks.wf(),
    ensures
        light.wf(),
        light.block() == Seq::new(CHUNK_VOLUME as nat, |i: int| 0u8),
        is_fill(
            chunks,
            registry,
            chunk_pos,
            sky_base(chunks, registry, chunk_pos),
            sky_sources(chunks, registry, chunk_pos),
            light.sky(),
        ),
{
    Arc::new(skylight(chunk_pos, chunks, registry))
}

/// The sky light pass, into a light value that is not shared yet.
fn skylight(chunk_pos: IVec3, chunks: &RelevantChunks, registry: &Registry) -> (light:
    LightDataInner)
    requires
        chunks.wf(),
    ensures
        light.wf(),
        light.block() == Seq::new(CHUNK_VOLUME as nat, |i: int| 0u8),
        is_fill(
            chunks,
            registry,
            chunk_pos,
            sky_base(chunks, registry, chunk_pos),
            sky_sources(chunks, registry, chunk_pos),
            light.sky(),
        ),
{
    let mut levels: Vec<u8> = vec![0u8; CHUNK_VOLUME];
    let mut queue: VecDeque<(i32, i32, i32, u8)> = VecDeque::new();
    let mut x: i32 = -1;
    proof {
        assert(seeds_of(queue@) =~= Seq::<Seed>::empty());
    }
    // Column pass over a wider area: the chunk interior plus a 1-block border
    // in X and Z. Border columns seed the fill so light can flow across chunk
    // boundaries. Light values are stored for interior positions only.
    while x <= 32
        invariant
            chunks.wf(),
            -1 <= x <= 33,
            levels@.len() == CHUNK_VOLUME,
            forall|i: int| 0 <= i < CHUNK_VOLUME ==> levels@[i] <= 15,
            forall|k: int| 0 <= k < queue@.len() ==> seed_in_reach(seed_of(#[trigger] queue@[k])),
            forall|i: int|
                0 <= i < CHUNK_VOLUME ==> #[trigger] levels@[i] == (if cell_x(i) < x && sky_open(
                    chunks,
                    registry,
                    chunk_pos,
                    cell_x(i),
                    cell_y(i),
                    cell_z(i),
                ) {
                    15u8
                } else {
                    0u8
                }),
            forall|s: Seed| #[trigger]
                seeds_of(queue@).contains(s) <==> (sky_seed(chunks, registry, chunk_pos, s) && s.x
                    < x),
        decreases 33 - x,
    {
        let mut z: i32 = -1;
        while z <= 32
            invariant
                chunks.wf(),
                -1 <= x <= 32,
                -1 <= z <= 33,
                levels@.len() == CHUNK_VOLUME,
                forall|i: int| 0 <= i < CHUNK_VOLUME ==> levels@[i] <= 15,
                forall|k: int| 0 <= k < queue@.len() ==> seed_in_reach(seed_of(#[trigger] queue@[k])),
                forall|i: int|
                    0 <= i < CHUNK_VOLUME ==> #[trigger] levels@[i] == (if (cell_x(i) < x || (cell_x(
                        i,
                    ) == x && cell_z(i) < z)) && sky_open(
                        chunks,
                        registry,
                        chunk_pos,
                        cell_x(i),
                        cell_y(i),
                        cell_z(i),
                    ) {
                        15u8
                    } else {
                        0u8
                    }),
                forall|s: Seed| #[trigger]
                    seeds_of(queue@).contains(s) <==> (sky_seed(chunks, registry, chunk_pos, s) && (s.x
                        < x || (s.x == x && s.z < z))),
            decreases 33 - z,
        {
            seed_sky_column(&mut levels, &mut queue, chunks, registry, chunk_pos, x, z);
            z += 1;
        }
        x += 1;
    }
    proof {
        assert(levels@ =~= sky_base(chunks, registry, chunk_pos)) by {
            assert forall|i: int| 0 <= i < CHUNK_VOLUME implies levels@[i] == sky_base(
                chunks,
                registry,
                chunk_pos,
            )[i] by {
                lemma_cell_coords(i);
            }
        }
        assert(seeds_of(queue@).to_set() =~= sky_sources(chunks, registry, chunk_pos));
    }
    // Flood fill: positions outside the chunk may be in the queue (from the
    // border columns). They pass light on to neighbors inside the chunk, which
    // lets light cross chunk boundaries. Only positions inside the chunk are
    // written.
    flood_fill(&mut levels, &mut queue, chunks, registry, chunk_pos);
    let mut light = LightDataInner::new();
    light.set_sky_levels(&levels);
    light
}

/// Propagate block light from emitting blocks within a chunk, and from the
/// block light that the six neighbors hold next to the chunk's faces.
///
/// The sky light stays as it is. The block light becomes the light that
/// spreads from the emitting cells and the lit border cells, over the block
/// light held before.
pub fn propagate_block_light(
    light: &mut LightDataInner,
    chunk_pos: IVec3,
    chunks: &RelevantChunks,
    neighbor_lights: &RelevantLights,
    registry: &Registry,
)
    requires
        old(light).wf(),
        chunks.wf(),
        neighbor_lights.wf(),
    ensures
        final(light).wf(),
        final(light).sky() == old(light).sky(),
        is_fill(
            chunks,
            registry,
            chunk_pos,
            block_base(chunks, registry, chunk_pos, old(light).block()),
            block_sources(chunks, registry, chunk_pos, neighbor_lights),
            final(light).block(),
        ),
{
    let mut levels = light.block_levels();
    let ghost before = levels@;
    let mut queue: VecDeque<(i32, i32, i32, u8)> = VecDeque::new();
    proof {
        assert(seeds_of(queue@) =~= Seq::<Seed>::empty());
    }
    // Seed from light-emitting blocks inside the chunk
    let mut i: usize = 0;
    while i < CHUNK_VOLUME
        invariant
            i <= CHUNK_VOLUME,
            chunks.wf(),
            before.len() == CHUNK_VOLUME,
            levels@.len() == CHUNK_VOLUME,
            forall|j: int| 0 <= j < CHUNK_VOLUME ==> before[j] <= 15,
            forall|j: int| 0 <= j < CHUNK_VOLUME ==> levels@[j] <= 15,
            forall|k: int| 0 <= k < queue@.len() ==> seed_in_reach(seed_of(#[trigger] queue@[k])),
            forall|j: int|
                0 <= j < CHUNK_VOLUME ==> #[trigger] levels@[j] == (if j < i && emission_at(
                    chunks,
                    registry,
                    chunk_pos,
                    cell_x(j),
                    cell_y(j),
                    cell_z(j),
                ) > 0 {
                    emission_at(chunks, registry, chunk_pos, cell_x(j), cell_y(j), cell_z(j))
                } else {
                    before[j]
                }),
            forall|s: Seed| #[trigger]
                seeds_of(queue@).contains(s) <==> ({
                    &&& in_chunk(s.x, s.y, s.z)
                    &&& cell_index(s.x, s.y, s.z) < i
                    &&& emission_at(chunks, registry, chunk_pos, s.x, s.y, s.z) > 0
                    &&& s.level == emission_at(chunks, registry, chunk_pos, s.x, s.y, s.z)
                }),
        decreases CHUNK_VOLUME - i,
    {
        let x = (i % 32) as i32;
        let y = ((i / 32) % 32) as i32;
        let z = (i / 1024) as i32;
        proof {
            lemma_cell_coords(i as int);
        }
        let ghost queue_before = queue@;
        let emission = match chunks.get_block_rel(chunk_pos, x, y, z) {
            Some(block) => registry.light_emission(block),
            None => 0,
        };
        if emission > 0 {
            levels.set(i, emission);
            queue.push_back((x, y, z, emission));
            proof {
                lemma_seeds_push(queue_before, (x, y, z, emission));
            }
        }
        proof {
            assert forall|s: Seed| #[trigger]
                seeds_of(queue@).contains(s) <==> ({
                    &&& in_chunk(s.x, s.y, s.z)
                    &&& cell_index(s.x, s.y, s.z) < i + 1
                    &&& emission_at(chunks, registry, chunk_pos, s.x, s.y, s.z) > 0
                    &&& s.level == emission_at(chunks, registry, chunk_pos, s.x, s.y, s.z)
                }) by {
                if in_chunk(s.x, s.y, s.z) {
                    lemma_cell_index(s.x, s.y, s.z);
                }
            }
        }
        i += 1;
    }
    // Seed from neighbor chunks' already-computed block light at the 6 border
    // faces. This allows light from sources deep in neighbor chunks to
    // propagate across.
    let mut k: usize = 0;
    while k < 6144
        invariant
            k <= 6144,
            chunks.wf(),
            neighbor_lights.wf(),
            levels@.len() == CHUNK_VOLUME,
            forall|j: int| 0 <= j < CHUNK_VOLUME ==> levels@[j] <= 15,
            forall|j: int| 0 <= j < queue@.len() ==> seed_in_reach(seed_of(#[trigger] queue@[j])),
            levels@ == block_base(chunks, registry, chunk_pos, before),
            forall|s: Seed| #[trigger]
                seeds_of(queue@).contains(s) <==> ({
                    ||| {
                        &&& in_chunk(s.x, s.y, s.z)
                        &&& emission_at(chunks, registry, chunk_pos, s.x, s.y, s.z) > 0
                        &&& s.level == emission_at(chunks, registry, chunk_pos, s.x, s.y, s.z)
                    }
                    ||| {
                        &&& on_border(s.x, s.y, s.z)
                        &&& border_index(s.x, s.y, s.z) < k
                        &&& s.level == neighbor_lights.rel_light(chunk_pos, s.x, s.y, s.z).1
                        &&& s.level > 1
                        &&& !opaque_at(chunks, registry, chunk_pos, s.x, s.y, s.z)
                    }
                }),
        decreases 6144 - k,
    {
        let face = k / 1024;
        let a = ((k / 32) % 32) as i32;
        let b = (k % 32) as i32;
        let (x, y, z): (i32, i32, i32) = if face == 0 {
            (-1, a, b)
        } else if face == 1 {
            (32, a, b)
        } else if face == 2 {
            (a, -1, b)
        } else if face == 3 {
            (a, 32, b)
        } else if face == 4 {
            (a, b, -1)
        } else {
            (a, b, 32)
        };
        proof {
            lemma_border_pos(k as int);
        }
        let ghost queue_before = queue@;
        let block_l = neighbor_lights.get_light_rel(chunk_pos, x, y, z).1;
        if block_l > 1 {
            // Don't seed through opaque blocks
            if !is_opaque_at(chunks, registry, chunk_pos, x, y, z) {
                queue.push_back((x, y, z, block_l));
                proof {
                    lemma_seeds_push(queue_before, (x, y, z, block_l));
                }
            }
        }
        proof {
            assert forall|s: Seed| #[trigger]
                seeds_of(queue@).contains(s) <==> ({
                    ||| {
                        &&& in_chunk(s.x, s.y, s.z)
                        &&& emission_at(chunks, registry, chunk_pos, s.x, s.y, s.z) > 0
                        &&& s.level == emission_at(chunks, registry, chunk_pos, s.x, s.y, s.z)
                    }
                    ||| {
                        &&& on_border(s.x, s.y, s.z)
                        &&& border_index(s.x, s.y, s.z) < k + 1
                        &&& s.level == neighbor_lights.rel_light(chunk_pos, s.x, s.y, s.z).1
                        &&& s.level > 1
                        &&& !opaque_at(chunks, registry, chunk_pos, s.x, s.y, s.z)
                    }
                }) by {
                if on_border(s.x, s.y, s.z) {
                    lemma_border_index(s.x, s.y, s.z);
                }
            }
        }
        k += 1;
    }
    proof {
        assert forall|s: Seed| on_border(s.x, s.y, s.z) implies border_index(s.x, s.y, s.z)
            < 6144 by {
            lemma_border_index(s.x, s.y, s.z);
        }
        assert(seeds_of(queue@).to_set() =~= block_sources(
            chunks,
            registry,
            chunk_pos,
            neighbor_lights,
        ));
    }
    // Flood fill: only writes to positions inside the chunk
    flood_fill(&mut levels, &mut queue, chunks, registry, chunk_pos);
    light.set_block_levels(&levels);
}

/// Both light passes for one chunk: sky light first, then block light over
/// a block light of 0.
pub fn compute_light(
    chunk_pos: IVec3,
    chunks: &RelevantChunks,
    neighbor_lights: &RelevantLights,
    registry: &Registry,
) -> (light: LightData)
    requires
        chunks.wf(),
        neighbor_lights.wf(),
    ensures
        light.wf(),
        is_fill(
            chunks,
            registry,
            chunk_pos,
            sky_base(chunks, registry, chunk_pos),
            sky_sources(chunks, registry, chunk_pos),
            light.sky(),
        ),
        is_fill(
            chunks,
            registry,
            chunk_pos,
            block_base(chunks, registry, chunk_pos, Seq::new(CHUNK_VOLUME as nat, |i: int| 0u8)),
            block_sources(chunks, registry, chunk_pos, neighbor_lights),
            light.block(),
        ),
{
    let mut light = skylight(chunk_pos, chunks, registry);
    propagate_block_light(&mut light, chunk_pos, chunks, neighbor_lights, registry);
    Arc::new(light)
}

/// Sky light falls by at most one level from a cell that lets light in to
/// a neighbor inside the chunk that lets light in.
pub proof fn lemma_sky_light_steps(
    chunks: &RelevantChunks,
    registry: &Registry,
    chunk_pos: IVec3,
    levels: Seq<u8>,
)
    requires
        is_fill(
            chunks,
            registry,
            chunk_pos,
            sky_base(chunks, registry, chunk_pos),
            sky_sources(chunks, registry, chunk_pos),
            levels,
        ),
    ensures
        forall|i: int, d: int|
            0 <= i < CHUNK_VOLUME && 0 <= d < 6 && !opaque_at(
                chunks,
                registry,
                chunk_pos,
                cell_x(i),
                cell_y(i),
                cell_z(i),
            ) ==> #[trigger] served_dir(
                chunks,
                registry,
                chunk_pos,
                levels,
                cell_seed(i, levels[i] as int),
                d,
            ),
{
    let base = sky_base(chunks, registry, chunk_pos);
    let sources = sky_sources(chunks, registry, chunk_pos);
    assert forall|i: int, d: int|
        0 <= i < CHUNK_VOLUME && 0 <= d < 6 && !opaque_at(
            chunks,
            registry,
            chunk_pos,
            cell_x(i),
            cell_y(i),
            cell_z(i),
        ) implies #[trigger] served_dir(
        chunks,
        registry,
        chunk_pos,
        levels,
        cell_seed(i, levels[i] as int),
        d,
    ) by {
        lemma_cell_coords(i);
        assert(levels[i] >= base[i]);
        if levels[i] > base[i] {
            assert(served(chunks, registry, chunk_pos, levels, cell_seed(i, levels[i] as int)));
        } else if levels[i] > 0 {
            assert(sources.contains(cell_seed(i, levels[i] as int)));
            assert(served(chunks, registry, chunk_pos, levels, cell_seed(i, levels[i] as int)));
        }
    }
}

/// Block light that was computed over a block light of 0 falls by at most
/// one level from a cell that lets light in to a neighbor inside the chunk
/// that lets light in.
pub proof fn lemma_block_light_steps(
    chunks: &RelevantChunks,
    registry: &Registry,
    chunk_pos: IVec3,
    neighbor_lights: &RelevantLights,
    levels: Seq<u8>,
)
    requires
        is_fill(
            chunks,
            registry,
            chunk_pos,
            block_base(chunks, registry, chunk_pos, Seq::new(CHUNK_VOLUME as nat, |i: int| 0u8)),
            block_sources(chunks, registry, chunk_pos, neighbor_lights),
            levels,
        ),
    ensures
        forall|i: int, d: int|
            0 <= i < CHUNK_VOLUME && 0 <= d < 6 && !opaque_at(
                chunks,
                registry,
                chunk_pos,
                cell_x(i),
                cell_y(i),
                cell_z(i),
            ) ==> #[trigger] served_dir(
                chunks,
                registry,
                chunk_pos,
                levels,
                cell_seed(i, levels[i] as int),
                d,
            ),
{
    let base = block_base(chunks, registry, chunk_pos, Seq::new(CHUNK_VOLUME as nat, |i: int| 0u8));
    let sources = block_sources(chunks, registry, chunk_pos, neighbor_lights);
    assert forall|i: int, d: int|
        0 <= i < CHUNK_VOLUME && 0 <= d < 6 && !opaque_at(
            chunks,
            registry,
            chunk_pos,
            cell_x(i),
            cell_y(i),
            cell_z(i),
        ) implies #[trigger] served_dir(
        chunks,
        registry,
        chunk_pos,
        levels,
        cell_seed(i, levels[i] as int),
        d,
    ) by {
        lemma_cell_coords(i);
        assert(levels[i] >= base[i]);
        if levels[i] > base[i] {
            assert(served(chunks, registry, chunk_pos, levels, cell_seed(i, levels[i] as int)));
        } else if levels[i] > 0 {
            assert(sources.contains(cell_seed(i, levels[i] as int)));
            assert(served(chunks, registry, chunk_pos, levels, cell_seed(i, levels[i] as int)));
        }
    }
}

/// Computing the light of a chunk again from the same chunks, neighbor
/// lights and registry gives the same bytes.
pub proof fn lemma_light_recompute(
    chunks: &RelevantChunks,
    registry: &Registry,
    chunk_pos: IVec3,
    neighbor_lights: &RelevantLights,
    first: &LightDataInner,
    second: &LightDataInner,
)
    requires
        first.wf(),
        second.wf(),
        is_fill(
            chunks,
            registry,
            chunk_pos,
            sky_base(chunks, registry, chunk_pos),
            sky_sources(chunks, registry, chunk_pos),
            first.sky(),
        ),
        is_fill(
            chunks,
            registry,
            chunk_pos,
            sky_base(chunks, registry, chunk_pos),
            sky_sources(chunks, registry, chunk_pos),
            second.sky(),
        ),
        is_fill(
            chunks,
            registry,
            chunk_pos,
            block_base(chunks, registry, chunk_pos, Seq::new(CHUNK_VOLUME as nat, |i: int| 0u8)),
            block_sources(chunks, registry, chunk_pos, neighbor_lights),
            first.block(),
        ),
        is_fill(
            chunks,
            registry,
            chunk_pos,
            block_base(chunks, registry, chunk_pos, Seq::new(CHUNK_VOLUME as nat, |i: int| 0u8)),
            block_sources(chunks, registry, chunk_pos, neighbor_lights),
            second.block(),
        ),
    ensures
        first.bytes() == second.bytes(),
{
    lemma_fill_unique(
        chunks,
        registry,
        chunk_pos,
        sky_base(chunks, registry, chunk_pos),
        sky_sources(chunks, registry, chunk_pos),
        first.sky(),
        second.sky(),
    );
    lemma_fill_unique(
        chunks,
        registry,
        chunk_pos,
        block_base(chunks, registry, chunk_pos, Seq::new(CHUNK_VOLUME as nat, |i: int| 0u8)),
        block_sources(chunks, registry, chunk_pos, neighbor_lights),
        first.block(),
        second.block(),
    );
    first.lemma_equal(second);
}

/// The cell at place `index` of the flattened order lies in the outermost
/// layer of the chunk.
pub open spec fn on_chunk_face(index: int) -> bool {
    ||| cell_x(index) == 0
    ||| cell_x(index) == 31
    ||| cell_y(index) == 0
    ||| cell_y(index) == 31
    ||| cell_z(index) == 0
    ||| cell_z(index) == 31
}

/// Whether the block light in the outermost layer of a chunk differs
/// between two light values: the neighbors across a face need new light
/// exactly when it does.
pub fn border_block_light_changed(old_light: &LightData, new_light: &LightData) -> (changed: bool)
    requires
        old_light.wf(),
        new_light.wf(),
    ensures
        changed <==> exists|i: int|
            0 <= i < CHUNK_VOLUME && on_chunk_face(i) && #[trigger] old_light.block()[i]
                != new_light.block()[i],
{
    let mut a: usize = 0;
    while a < 32
        invariant
            a <= 32,
            old_light.wf(),
            new_light.wf(),
            forall|x: int, y: int, z: int|
                in_chunk(x, y, z) && (((x == 0 || x == 31) && y < a) || ((y == 0 || y == 31) && x < a)
                    || ((z == 0 || z == 31) && x < a)) ==> old_light.block()[#[trigger] cell_index(
                    x,
                    y,
                    z,
                )] == new_light.block()[cell_index(x, y, z)],
        decreases 32 - a,
    {
        let mut b: usize = 0;
        while b < 32
            invariant
                a < 32,
                b <= 32,
                old_light.wf(),
                new_light.wf(),
                forall|x: int, y: int, z: int|
                    in_chunk(x, y, z) && (((x == 0 || x == 31) && (y < a || (y == a && z < b))) || ((y
                        == 0 || y == 31) && (x < a || (x == a && z < b))) || ((z == 0 || z == 31) && (
                    x < a || (x == a && y < b)))) ==> old_light.block()[#[trigger] cell_index(x, y, z)]
                        == new_light.block()[cell_index(x, y, z)],
            decreases 32 - b,
        {
            let mut f: usize = 0;
            while f < 6
                invariant
                    a < 32,
                    b < 32,
                    f <= 6,
                    old_light.wf(),
                    new_light.wf(),
                    forall|x: int, y: int, z: int|
                        in_chunk(x, y, z) && (((x == 0 || x == 31) && (y < a || (y == a && z < b)))
                            || ((y == 0 || y == 31) && (x < a || (x == a && z < b))) || ((z == 0 || z
                            == 31) && (x < a || (x == a && y < b)))) ==> old_light.block()[#[trigger] cell_index(
                            x,
                            y,
                            z,
                        )] == new_light.block()[cell_index(x, y, z)],
                    f > 0 ==> old_light.block()[cell_index(0, a as int, b as int)]
                        == new_light.block()[cell_index(0, a as int, b as int)],
                    f > 1 ==> old_light.block()[cell_index(31, a as int, b as int)]
                        == new_light.block()[cell_index(31, a as int, b as int)],
                    f > 2 ==> old_light.block()[cell_index(a as int, 0, b as int)]
                        == new_light.block()[cell_index(a as int, 0, b as int)],
                    f > 3 ==> old_light.block()[cell_index(a as int, 31, b as int)]
                        == new_light.block()[cell_index(a as int, 31, b as int)],
                    f > 4 ==> old_light.block()[cell_index(a as int, b as int, 0)]
                        == new_light.block()[cell_index(a as int, b as int, 0)],
                    f > 5 ==> old_light.block()[cell_index(a as int, b as int, 31)]
                        == new_light.block()[cell_index(a as int, b as int, 31)],
                decreases 6 - f,
            {
                let pos = if f == 0 {
                    USizeVec3::new(0, a, b)
                } else if f == 1 {
                    USizeVec3::new(31, a, b)
                } else if f == 2 {
                    USizeVec3::new(a, 0, b)
                } else if f == 3 {
                    USizeVec3::new(a, 31, b)
                } else if f == 4 {
                    USizeVec3::new(a, b, 0)
                } else {
                    USizeVec3::new(a, b, 31)
                };
                if old_light.get_block_light(pos) != new_light.get_block_light(pos) {
                    proof {
                        let i = cell_index(pos.x as int, pos.y as int, pos.z as int);
                        lemma_cell_index(pos.x as int, pos.y as int, pos.z as int);
                        assert(on_chunk_face(i) && old_light.block()[i] != new_light.block()[i]);
                    }
                    return true;
                }
                f += 1;
            }
            b += 1;
        }
        a += 1;
    }
    proof {
        assert forall|i: int| 0 <= i < CHUNK_VOLUME && on_chunk_face(i) implies #[trigger] old_light.block()[i]
            == new_light.block()[i] by {
            lemma_cell_coords(i);
            assert(old_light.block()[cell_index(cell_x(i), cell_y(i), cell_z(i))]
                == new_light.block()[cell_index(cell_x(i), cell_y(i), cell_z(i))]);
        }
    }
    false
}

/// Two sets of chunks hold the same blocks around the chunk at
/// `chunk_pos`.
pub open spec fn same_blocks(a: &RelevantChunks, b: &RelevantChunks, chunk_pos: IVec3) -> bool {
    forall|x: int, y: int, z: int| #[trigger]
        a.rel_block(chunk_pos, x, y, z) == b.rel_block(chunk_pos, x, y, z)
}

/// Two sets of lights hold the same light around the chunk at `chunk_pos`.
pub open spec fn same_lights(a: &RelevantLights, b: &RelevantLights, chunk_pos: IVec3) -> bool {
    forall|x: int, y: int, z: int| #[trigger]
        a.rel_light(chunk_pos, x, y, z) == b.rel_light(chunk_pos, x, y, z)
}

proof fn lemma_served_same_blocks(
    a: &RelevantChunks,
    b: &RelevantChunks,
    registry: &Registry,
    chunk_pos: IVec3,
    levels: Seq<u8>,
    seed: Seed,
)
    requires
        same_blocks(a, b, chunk_pos),
    ensures
        served(a, registry, chunk_pos, levels, seed) == served(b, registry, chunk_pos, levels, seed),
{
    assert forall|d: int|
        served_dir(a, registry, chunk_pos, levels, seed, d) == served_dir(
            b,
            registry,
            chunk_pos,
            levels,
            seed,
            d,
        ) by {
        let step = dir_step(d);
        assert(a.rel_block(chunk_pos, seed.x + step.0, seed.y + step.1, seed.z + step.2)
            == b.rel_block(chunk_pos, seed.x + step.0, seed.y + step.1, seed.z + step.2));
    }
    if served(a, registry, chunk_pos, levels, seed) {
        assert forall|d: int| 0 <= d < 6 implies #[trigger] served_dir(
            b,
            registry,
            chunk_pos,
            levels,
            seed,
            d,
        ) by {
            assert(served_dir(a, registry, chunk_pos, levels, seed, d));
        }
    }
    if served(b, registry, chunk_pos, levels, seed) {
        assert forall|d: int| 0 <= d < 6 implies #[trigger] served_dir(
            a,
            registry,
            chunk_pos,
            levels,
            seed,
            d,
        ) by {
            assert(served_dir(b, registry, chunk_pos, levels, seed, d));
        }
    }
}

proof fn lemma_closed_same_blocks(
    a: &RelevantChunks,
    b: &RelevantChunks,
    registry: &Registry,
    chunk_pos: IVec3,
    base: Seq<u8>,
    sources: Set<Seed>,
    levels: Seq<u8>,
)
    requires
        same_blocks(a, b, chunk_pos),
        closed(a, registry, chunk_pos, base, sources, levels),
    ensures
        closed(b, registry, chunk_pos, base, sources, levels),
{
    assert forall|s: Seed| #[trigger] sources.contains(s) implies served(
        b,
        registry,
        chunk_pos,
        levels,
        s,
    ) by {
        lemma_served_same_blocks(a, b, registry, chunk_pos, levels, s);
    }
    assert forall|i: int|
        0 <= i < CHUNK_VOLUME && !opaque_at(b, registry, chunk_pos, cell_x(i), cell_y(i), cell_z(i))
            && #[trigger] levels[i] > base[i] implies served(
        b,
        registry,
        chunk_pos,
        levels,
        cell_seed(i, levels[i] as int),
    ) by {
        assert(a.rel_block(chunk_pos, cell_x(i), cell_y(i), cell_z(i)) == b.rel_block(
            chunk_pos,
            cell_x(i),
            cell_y(i),
            cell_z(i),
        ));
        lemma_served_same_blocks(a, b, registry, chunk_pos, levels, cell_seed(i, levels[i] as int));
    }
}

/// Light that spreads through the same blocks from the same base and the
/// same sources is the same light.
proof fn lemma_fill_same_blocks(
    a: &RelevantChunks,
    b: &RelevantChunks,
    registry: &Registry,
    chunk_pos: IVec3,
    base: Seq<u8>,
    sources: Set<Seed>,
    levels: Seq<u8>,
)
    requires
        same_blocks(a, b, chunk_pos),
        is_fill(a, registry, chunk_pos, base, sources, levels),
    ensures
        is_fill(b, registry, chunk_pos, base, sources, levels),
{
    lemma_closed_same_blocks(a, b, registry, chunk_pos, base, sources, levels);
    assert forall|other: Seq<u8>| #[trigger]
        closed(b, registry, chunk_pos, base, sources, other) implies below(levels, other) by {
        assert(same_blocks(b, a, chunk_pos)) by {
            assert forall|x: int, y: int, z: int| #[trigger]
                b.rel_block(chunk_pos, x, y, z) == a.rel_block(chunk_pos, x, y, z) by {
                assert(a.rel_block(chunk_pos, x, y, z) == b.rel_block(chunk_pos, x, y, z));
            }
        }
        lemma_closed_same_blocks(b, a, registry, chunk_pos, base, sources, other);
    }
}

/// Computing the light of a chunk again when neither the blocks nor the
/// light around it have changed gives the same bytes.
pub proof fn lemma_light_same_inputs(
    chunks: &RelevantChunks,
    chunks_again: &RelevantChunks,
    neighbor_lights: &RelevantLights,
    neighbor_lights_again: &RelevantLights,
    registry: &Registry,
    chunk_pos: IVec3,
    first: &LightDataInner,
    second: &LightDataInner,
)
    requires
        same_blocks(chunks, chunks_again, chunk_pos),
        same_lights(neighbor_lights, neighbor_lights_again, chunk_pos),
        first.wf(),
        second.wf(),
        is_fill(
            chunks,
            registry,
            chunk_pos,
            sky_base(chunks, registry, chunk_pos),
            sky_sources(chunks, registry, chunk_pos),
            first.sky(),
        ),
        is_fill(
            chunks,
            registry,
            chunk_pos,
            block_base(chunks, registry, chunk_pos, Seq::new(CHUNK_VOLUME as nat, |i: int| 0u8)),
            block_sources(chunks, registry, chunk_pos, neighbor_lights),
            first.block(),
        ),
        is_fill(
            chunks_again,
            registry,
            chunk_pos,
            sky_base(chunks_again, registry, chunk_pos),
            sky_sources(chunks_again, registry, chunk_pos),
            second.sky(),
        ),
        is_fill(
            chunks_again,
            registry,
            chunk_pos,
            block_base(
                chunks_again,
                registry,
                chunk_pos,
                Seq::new(CHUNK_VOLUME as nat, |i: int| 0u8),
            ),
            block_sources(chunks_again, registry, chunk_pos, neighbor_lights_again),
            second.block(),
        ),
    ensures
        first.bytes() == second.bytes(),
{
    let zeros = Seq::new(CHUNK_VOLUME as nat, |i: int| 0u8);
    assert forall|x: int, y: int, z: int|
        opaque_at(chunks, registry, chunk_pos, x, y, z) == #[trigger] opaque_at(
            chunks_again,
            registry,
            chunk_pos,
            x,
            y,
            z,
        ) by {
        assert(chunks.rel_block(chunk_pos, x, y, z) == chunks_again.rel_block(chunk_pos, x, y, z));
    }
    assert forall|x: int, y: int, z: int|
        opaque_at(chunks_again, registry, chunk_pos, x, y, z) == #[trigger] opaque_at(
            chunks,
            registry,
            chunk_pos,
            x,
            y,
            z,
        ) by {
        assert(chunks.rel_block(chunk_pos, x, y, z) == chunks_again.rel_block(chunk_pos, x, y, z));
    }
    assert forall|x: int, y: int, z: int|
        sky_open(chunks, registry, chunk_pos, x, y, z) == sky_open(
            chunks_again,
            registry,
            chunk_pos,
            x,
            y,
            z,
        ) by {}
    assert(sky_base(chunks, registry, chunk_pos) =~= sky_base(chunks_again, registry, chunk_pos));
    assert(sky_sources(chunks, registry, chunk_pos) =~= sky_sources(
        chunks_again,
        registry,
        chunk_pos,
    ));
    assert forall|x: int, y: int, z: int|
        emission_at(chunks, registry, chunk_pos, x, y, z) == emission_at(
            chunks_again,
            registry,
            chunk_pos,
            x,
            y,
            z,
        ) by {
        assert(chunks.rel_block(chunk_pos, x, y, z) == chunks_again.rel_block(chunk_pos, x, y, z));
    }
    assert(block_base(chunks, registry, chunk_pos, zeros) =~= block_base(
        chunks_again,
        registry,
        chunk_pos,
        zeros,
    ));
    assert forall|s: Seed|
        block_seed(chunks, registry, chunk_pos, neighbor_lights, s) == block_seed(
            chunks_again,
            registry,
            chunk_pos,
            neighbor_lights_again,
            s,
        ) by {
        assert(neighbor_lights.rel_light(chunk_pos, s.x, s.y, s.z)
            == neighbor_lights_again.rel_light(chunk_pos, s.x, s.y, s.z));
    }
    assert(block_sources(chunks, registry, chunk_pos, neighbor_lights) =~= block_sources(
        chunks_again,
        registry,
        chunk_pos,
        neighbor_lights_again,
    ));
    lemma_fill_same_blocks(
        chunks,
        chunks_again,
        registry,
        chunk_pos,
        sky_base(chunks, registry, chunk_pos),
        sky_sources(chunks, registry, chunk_pos),
        first.sky(),
    );
    lemma_fill_same_blocks(
        chunks,
        chunks_again,
        registry,
        chunk_pos,
        block_base(chunks, registry, chunk_pos, zeros),
        block_sources(chunks, registry, chunk_pos, neighbor_lights),
        first.block(),
    );
    lemma_light_recompute(chunks_again, registry, chunk_pos, neighbor_lights_again, first, second);
}

/// Light that is read by counting cells from the origin of a chunk is the
/// light at the cell's position in the world grid.
pub proof fn lemma_rel_light_is_world_light(
    lights: &RelevantLights,
    origin: IVec3,
    x: int,
    y: int,
    z: int,
    world_pos: IVec3,
)
    requires
        world_pos.x == origin.x * 32 + x,
        world_pos.y == origin.y * 32 + y,
        world_pos.z == origin.z * 32 + z,
    ensures
        lights.rel_light(origin, x, y, z) == lights.spec_get_light(world_pos),
{
    crate::relevant_chunks::lemma_rel_is_world(origin, x, y, z, world_pos);
}

/// The number of steps along the axes from one cell to another.
pub open spec fn steps_between(a: (int, int, int), b: (int, int, int)) -> int {
    (if a.0 >= b.0 {
        a.0 - b.0
    } else {
        b.0 - a.0
    }) + (if a.1 >= b.1 {
        a.1 - b.1
    } else {
        b.1 - a.1
    }) + (if a.2 >= b.2 {
        a.2 - b.2
    } else {
        b.2 - a.2
    })
}

/// Light of a lamp that gives off `level`, after `steps` steps: one level
/// less for each step, and never below 0.
pub open spec fn lamp_light(level: int, steps: int) -> int {
    if level > steps {
        level - steps
    } else {
        0
    }
}

/// The chunk holds one block, a lamp in the cell `lamp`, and no light comes
/// in across its faces.
pub open spec fn lone_lamp(
    chunks: &RelevantChunks,
    registry: &Registry,
    chunk_pos: IVec3,
    neighbor_lights: &RelevantLights,
    lamp: (int, int, int),
) -> bool {
    &&& in_chunk(lamp.0, lamp.1, lamp.2)
    &&& emission_at(chunks, registry, chunk_pos, lamp.0, lamp.1, lamp.2) > 0
    &&& forall|x: int, y: int, z: int|
        in_chunk(x, y, z) && (x, y, z) != lamp ==> #[trigger] chunks.rel_block(chunk_pos, x, y, z)
            is None
    &&& forall|x: int, y: int, z: int|
        on_border(x, y, z) ==> (#[trigger] neighbor_lights.rel_light(chunk_pos, x, y, z)).1 <= 1
}

/// The light of a lone lamp in every cell of the chunk.
pub open spec fn lamp_levels(level: u8, lamp: (int, int, int)) -> Seq<u8> {
    Seq::new(
        CHUNK_VOLUME as nat,
        |i: int| lamp_light(level as int, steps_between((cell_x(i), cell_y(i), cell_z(i)), lamp)) as u8,
    )
}

/// The light of a lone lamp leaves nothing to spread.
proof fn lemma_lamp_levels_closed(
    chunks: &RelevantChunks,
    registry: &Registry,
    chunk_pos: IVec3,
    neighbor_lights: &RelevantLights,
    before: Seq<u8>,
    lamp: (int, int, int),
)
    requires
        lone_lamp(chunks, registry, chunk_pos, neighbor_lights, lamp),
        before.len() == CHUNK_VOLUME,
        forall|i: int| 0 <= i < CHUNK_VOLUME ==> before[i] == 0,
    ensures
        closed(
            chunks,
            registry,
            chunk_pos,
            block_base(chunks, registry, chunk_pos, before),
            block_sources(chunks, registry, chunk_pos, neighbor_lights),
            lamp_levels(emission_at(chunks, registry, chunk_pos, lamp.0, lamp.1, lamp.2), lamp),
        ),
{
    let level = emission_at(chunks, registry, chunk_pos, lamp.0, lamp.1, lamp.2);
    let base = block_base(chunks, registry, chunk_pos, before);
    let sources = block_sources(chunks, registry, chunk_pos, neighbor_lights);
    let levels = lamp_levels(level, lamp);
    assert forall|i: int| 0 <= i < CHUNK_VOLUME implies #[trigger] levels[i] >= base[i] by {
        lemma_cell_coords(i);
        if (cell_x(i), cell_y(i), cell_z(i)) != lamp {
            assert(chunks.rel_block(chunk_pos, cell_x(i), cell_y(i), cell_z(i)) is None);
        }
    }
    assert forall|s: Seed| #[trigger] sources.contains(s) implies served(
        chunks,
        registry,
        chunk_pos,
        levels,
        s,
    ) by {
        assert(block_seed(chunks, registry, chunk_pos, neighbor_lights, s));
        if on_border(s.x, s.y, s.z) {
            assert(neighbor_lights.rel_light(chunk_pos, s.x, s.y, s.z).1 <= 1);
        }
        if (s.x, s.y, s.z) != lamp {
            assert(chunks.rel_block(chunk_pos, s.x, s.y, s.z) is None);
        }
        assert((s.x, s.y, s.z) == lamp && s.level == level);
        assert forall|d: int| 0 <= d < 6 implies #[trigger] served_dir(
            chunks,
            registry,
            chunk_pos,
            levels,
            s,
            d,
        ) by {
            let step = dir_step(d);
            if in_chunk(s.x + step.0, s.y + step.1, s.z + step.2) {
                lemma_cell_index(s.x + step.0, s.y + step.1, s.z + step.2);
            }
        }
    }
    assert forall|i: int|
        0 <= i < CHUNK_VOLUME && !opaque_at(
            chunks,
            registry,
            chunk_pos,
            cell_x(i),
            cell_y(i),
            cell_z(i),
        ) && #[trigger] levels[i] > base[i] implies served(
        chunks,
        registry,
        chunk_pos,
        levels,
        cell_seed(i, levels[i] as int),
    ) by {
        lemma_cell_coords(i);
        let s = cell_seed(i, levels[i] as int);
        assert forall|d: int| 0 <= d < 6 implies #[trigger] served_dir(
            chunks,
            registry,
            chunk_pos,
            levels,
            s,
            d,
        ) by {
            let step = dir_step(d);
            if in_chunk(s.x + step.0, s.y + step.1, s.z + step.2) {
                lemma_cell_index(s.x + step.0, s.y + step.1, s.z + step.2);
            }
        }
    }
}

/// Light that leaves nothing to spread is nowhere darker than the light of
/// the lone lamp.
proof fn lemma_lamp_reaches(
    chunks: &RelevantChunks,
    registry: &Registry,
    chunk_pos: IVec3,
    neighbor_lights: &RelevantLights,
    before: Seq<u8>,
    levels: Seq<u8>,
    lamp: (int, int, int),
    cell: (int, int, int),
)
    requires
        lone_lamp(chunks, registry, chunk_pos, neighbor_lights, lamp),
        before.len() == CHUNK_VOLUME,
        forall|i: int| 0 <= i < CHUNK_VOLUME ==> before[i] == 0,
        closed(
            chunks,
            registry,
            chunk_pos,
            block_base(chunks, registry, chunk_pos, before),
            block_sources(chunks, registry, chunk_pos, neighbor_lights),
            levels,
        ),
        in_chunk(cell.0, cell.1, cell.2),
    ensures
        levels[cell_index(cell.0, cell.1, cell.2)] >= lamp_light(
            emission_at(chunks, registry, chunk_pos, lamp.0, lamp.1, lamp.2) as int,
            steps_between(cell, lamp),
        ),
    decreases steps_between(cell, lamp),
{
    let level = emission_at(chunks, registry, chunk_pos, lamp.0, lamp.1, lamp.2);
    let base = block_base(chunks, registry, chunk_pos, before);
    let sources = block_sources(chunks, registry, chunk_pos, neighbor_lights);
    let i = cell_index(cell.0, cell.1, cell.2);
    lemma_cell_index(cell.0, cell.1, cell.2);
    lemma_cell_index(lamp.0, lamp.1, lamp.2);
    if cell == lamp {
        assert(levels[i] >= base[i]);
    } else if lamp_light(level as int, steps_between(cell, lamp)) > 0 {
        // The neighbor that is one step nearer to the lamp, and the
        // direction from it to the cell.
        let (near, d): ((int, int, int), int) = if cell.0 > lamp.0 {
            ((cell.0 - 1, cell.1, cell.2), 0)
        } else if cell.0 < lamp.0 {
            ((cell.0 + 1, cell.1, cell.2), 1)
        } else if cell.1 > lamp.1 {
            ((cell.0, cell.1 - 1, cell.2), 2)
        } else if cell.1 < lamp.1 {
            ((cell.0, cell.1 + 1, cell.2), 3)
        } else if cell.2 > lamp.2 {
            ((cell.0, cell.1, cell.2 - 1), 4)
        } else {
            ((cell.0, cell.1, cell.2 + 1), 5)
        };
        lemma_lamp_reaches(chunks, registry, chunk_pos, neighbor_lights, before, levels, lamp, near);
        let p = cell_index(near.0, near.1, near.2);
        lemma_cell_index(near.0, near.1, near.2);
        assert(chunks.rel_block(chunk_pos, cell.0, cell.1, cell.2) is None);
        if near == lamp {
            let seed = Seed { x: lamp.0, y: lamp.1, z: lamp.2, level: level as int };
            assert(block_seed(chunks, registry, chunk_pos, neighbor_lights, seed));
            assert(sources.contains(seed));
            assert(served(chunks, registry, chunk_pos, levels, seed));
            assert(served_dir(chunks, registry, chunk_pos, levels, seed, d));
        } else {
            assert(chunks.rel_block(chunk_pos, near.0, near.1, near.2) is None);
            assert(base[p] == 0);
            assert(levels[p] > base[p]);
            let seed = cell_seed(p, levels[p] as int);
            assert(served(chunks, registry, chunk_pos, levels, seed));
            assert(served_dir(chunks, registry, chunk_pos, levels, seed, d));
        }
    }
}

/// Around a lone lamp the block light falls by one level with every step
/// along the axes, down to 0: computed over a block light of 0, every cell
/// of the chunk holds the lamp's level less the number of steps to the
/// lamp, or 0 where the steps are as many as the level or more.
pub proof fn lemma_lone_lamp(
    chunks: &RelevantChunks,
    registry: &Registry,
    chunk_pos: IVec3,
    neighbor_lights: &RelevantLights,
    before: Seq<u8>,
    levels: Seq<u8>,
    lamp: (int, int, int),
)
    requires
        lone_lamp(chunks, registry, chunk_pos, neighbor_lights, lamp),
        before.len() == CHUNK_VOLUME,
        forall|i: int| 0 <= i < CHUNK_VOLUME ==> before[i] == 0,
        is_fill(
            chunks,
            registry,
            chunk_pos,
            block_base(chunks, registry, chunk_pos, before),
            block_sources(chunks, registry, chunk_pos, neighbor_lights),
            levels,
        ),
    ensures
        forall|i: int|
            0 <= i < CHUNK_VOLUME ==> #[trigger] levels[i] == lamp_light(
                emission_at(chunks, registry, chunk_pos, lamp.0, lamp.1, lamp.2) as int,
                steps_between((cell_x(i), cell_y(i), cell_z(i)), lamp),
            ),
{
    let level = emission_at(chunks, registry, chunk_pos, lamp.0, lamp.1, lamp.2);
    let target = lamp_levels(level, lamp);
    lemma_lamp_levels_closed(chunks, registry, chunk_pos, neighbor_lights, before, lamp);
    assert(below(levels, target));
    assert forall|i: int| 0 <= i < CHUNK_VOLUME implies #[trigger] levels[i] == lamp_light(
        level as int,
        steps_between((cell_x(i), cell_y(i), cell_z(i)), lamp),
    ) by {
        lemma_cell_coords(i);
        lemma_lamp_reaches(
            chunks,
            registry,
            chunk_pos,
            neighbor_lights,
            before,
            levels,
            lamp,
            (cell_x(i), cell_y(i), cell_z(i)),
        );
        assert(levels[i] <= target[i]);
    }
}

} // verus!
