//! World streaming: which chunk positions are loaded around the viewer.
//!
//! Each tick, chunks farther than the render distance plus a hysteresis
//! margin are unloaded — their arena slot is removed and their geometry
//! buffer, if any, is returned to the allocator exactly once — and every
//! position within the render distance that is not yet loaded is created,
//! populated and submitted to the meshing pipeline. Completed chunks are
//! drained from the pipeline and added to the render set if still alive.

use vstd::prelude::*;

use crate::arena::{ChunkArena, ChunkKey};
use crate::chunk::{is_fresh_terrain_chunk, pos_in_range, Chunk};
use crate::config::RENDER_DISTANCE;
use crate::memory::{block_live_in_allocator, lemma_live_block_unique, Allocator, Block};
use crate::meshing::{arena_chunks_ok, MeshingThreadPool};

verus! {

/// A position in chunk-grid coordinates: horizontal axes are signed and
/// unbounded, the vertical axis counts layers upward from the world floor.
#[derive(Debug, Clone, Copy, Hash, PartialEq, Eq, Structural)]
pub struct ChunkPos {
    pub x: i32,
    pub y: u32,
    pub z: i32,
}

/// Absolute value.
pub open spec fn iabs(a: int) -> int {
    if a >= 0 {
        a
    } else {
        -a
    }
}

/// The position is beyond the render distance plus hysteresis from the
/// player's chunk on some axis, so its chunk is unloaded.
pub open spec fn too_far(pos: ChunkPos, player: ChunkPos) -> bool {
    ||| iabs(pos.x - player.x) > RENDER_DISTANCE + 2
    ||| iabs(pos.y - player.y) > RENDER_DISTANCE + 2
    ||| iabs(pos.z - player.z) > RENDER_DISTANCE + 2
}

/// The position lies in the creation scan around the player: within the
/// render distance on every axis and within the world's vertical layers.
pub open spec fn in_scan(pos: ChunkPos, player: ChunkPos) -> bool {
    &&& player.x - RENDER_DISTANCE <= pos.x < player.x + RENDER_DISTANCE
    &&& player.y - RENDER_DISTANCE <= pos.y < player.y + RENDER_DISTANCE
    &&& pos.y <= 10
    &&& player.z - RENDER_DISTANCE <= pos.z < player.z + RENDER_DISTANCE
}

/// The player's chunk coordinate is far enough from the representable edge
/// that every position within the render distance still satisfies
/// [`pos_in_range`]: the `i32` coordinate bound shrunk by the render
/// distance.
pub open spec fn player_pos_ok(player: ChunkPos) -> bool {
    &&& -134217718 <= player.x <= 134217716
    &&& player.y <= 134217716
    &&& -134217718 <= player.z <= 134217716
}

/// The map holds an entry for `pos`.
pub open spec fn map_has(chunks: Seq<(ChunkPos, ChunkKey)>, pos: ChunkPos) -> bool {
    exists|i: int| 0 <= i < chunks.len() && (#[trigger] chunks[i]).0 == pos
}

/// The keys of a run of map entries, in order.
pub open spec fn entry_keys(entries: Seq<(ChunkPos, ChunkKey)>) -> Seq<ChunkKey>
    decreases entries.len(),
{
    if entries.len() == 0 {
        Seq::empty()
    } else {
        entry_keys(entries.drop_last()).push(entries.last().1)
    }
}

/// Appending one entry appends its key.
proof fn lemma_entry_keys_push(entries: Seq<(ChunkPos, ChunkKey)>, e: (ChunkPos, ChunkKey))
    ensures
        entry_keys(entries.push(e)) == entry_keys(entries).push(e.1),
{
    assert(entries.push(e).drop_last() =~= entries);
    assert(entries.push(e).last() == e);
}

/// The completed keys that still resolve, in completion order: what one
/// drain of the completion queue adds to the render set.
pub open spec fn live_completions(arena: ChunkArena, s: Seq<ChunkKey>) -> Seq<ChunkKey>
    decreases s.len(),
{
    if s.len() == 0 {
        Seq::empty()
    } else if arena.live(s.last()) {
        live_completions(arena, s.drop_last()).push(s.last())
    } else {
        live_completions(arena, s.drop_last())
    }
}

/// Geometry ownership: every live chunk's geometry buffer is a live
/// allocation, and no two live chunks share one — so each buffer is freed
/// exactly once, on its chunk's destruction.
pub open spec fn geometry_ownership(arena: ChunkArena, allocator: Allocator) -> bool {
    &&& forall|k: ChunkKey| #[trigger] arena.live(k) && arena.chunk_at(k).buffer is Some
            ==> block_live_in_allocator(allocator, arena.chunk_at(k).buffer->Some_0)
    &&& forall|k1: ChunkKey, k2: ChunkKey|
            #[trigger] arena.live(k1) && #[trigger] arena.live(k2) && k1 != k2
                && arena.chunk_at(k1).buffer is Some && arena.chunk_at(k2).buffer is Some
            ==> !same_block(arena.chunk_at(k1).buffer->Some_0, arena.chunk_at(k2).buffer->Some_0)
}

/// Two handles name the same allocation.
pub open spec fn same_block(a: Block, b: Block) -> bool {
    a.memory_type_index == b.memory_type_index && a.memory == b.memory && a.offset == b.offset
}

/// The set of loaded chunks: a map from grid position to the chunk's arena
/// key, and the render set of completed chunks.
pub struct World {
    pub chunks: Vec<(ChunkPos, ChunkKey)>,
    pub chunks_to_render: Vec<ChunkKey>,
}

impl World {
    /// World well-formedness against the arena: every entry's key is live,
    /// resolves to a chunk at the entry's position (in meshable range), and
    /// positions and keys are unique.
    pub open spec fn wf(self, arena: ChunkArena) -> bool {
        &&& forall|i: int| 0 <= i < self.chunks@.len()
                ==> arena.live((#[trigger] self.chunks@[i]).1)
                    && arena.chunk_at(self.chunks@[i].1).pos == self.chunks@[i].0
                    && pos_in_range(self.chunks@[i].0)
        &&& forall|i: int, j: int|
                0 <= i < self.chunks@.len() && 0 <= j < self.chunks@.len() && i != j
                ==> (#[trigger] self.chunks@[i]).0 != (#[trigger] self.chunks@[j]).0
                    && self.chunks@[i].1 != self.chunks@[j].1
    }

    /// An empty world.
    pub fn new() -> (r: Self)
        ensures
            r.chunks@.len() == 0,
            r.chunks_to_render@.len() == 0,
            forall|arena: ChunkArena| r.wf(arena),
    {
        Self { chunks: Vec::new(), chunks_to_render: Vec::new() }
    }

    /// Whether a chunk is loaded at `pos`.
    pub fn contains_pos(&self, pos: ChunkPos) -> (r: bool)
        ensures
            r == map_has(self.chunks@, pos),
    {
        let n = self.chunks.len();
        let mut i: usize = 0;
        while i < n
            invariant
                0 <= i <= n,
                n == self.chunks@.len(),
                forall|j: int| 0 <= j < i ==> (#[trigger] self.chunks@[j]).0 != pos,
            decreases n - i,
        {
            if self.chunks[i].0 == pos {
                return true;
            }
            i = i + 1;
        }
        false
    }

    /// Unload every chunk beyond the render distance plus hysteresis on any
    /// axis: remove it from the map and the arena, and return its geometry
    /// buffer, if any, to the allocator. The device layer waits its
    /// graphics and present queues idle before this runs, so no freed
    /// buffer is still referenced by an in-flight draw.
    #[verifier::rlimit(100)]
    pub fn unload_distant(
        &mut self,
        arena: &mut ChunkArena,
        allocator: &mut Allocator,
        player: ChunkPos,
    )
        requires
            old(self).wf(*old(arena)),
            old(arena).wf(),
            arena_chunks_ok(*old(arena)),
            old(allocator).wf(),
            geometry_ownership(*old(arena), *old(allocator)),
            player_pos_ok(player),
        ensures
            final(self).wf(*final(arena)),
            final(arena).wf(),
            arena_chunks_ok(*final(arena)),
            final(allocator).wf(),
            geometry_ownership(*final(arena), *final(allocator)),
            old(allocator).can_grow() ==> final(allocator).can_grow(),
            final(allocator).pools@.len() == old(allocator).pools@.len(),
            final(allocator).memory_types == old(allocator).memory_types,
            forall|pos: ChunkPos| #![trigger map_has(final(self).chunks@, pos)]
                map_has(final(self).chunks@, pos)
                    <==> map_has(old(self).chunks@, pos) && !too_far(pos, player),
            final(self).chunks_to_render == old(self).chunks_to_render,
            forall|k: ChunkKey| #[trigger] final(arena).live(k)
                ==> old(arena).live(k) && final(arena).chunk_at(k) == old(arena).chunk_at(k),
            forall|k: ChunkKey| #[trigger] old(arena).live(k)
                && !key_unloaded(old(self).chunks@, player, k)
                ==> final(arena).live(k) && final(arena).chunk_at(k) == old(arena).chunk_at(k),
            forall|k: ChunkKey| #[trigger] old(arena).live(k)
                && key_unloaded(old(self).chunks@, player, k)
                && old(arena).chunk_at(k).buffer is Some
                ==> !block_live_in_allocator(
                    *final(allocator),
                    old(arena).chunk_at(k).buffer->Some_0,
                ),
    {
        let n = self.chunks.len();
        let mut kept: Vec<(ChunkPos, ChunkKey)> = Vec::new();
        let mut i: usize = 0;
        while i < n
            invariant
                0 <= i <= n,
                n == self.chunks@.len(),
                self.chunks == old(self).chunks,
                self.chunks_to_render == old(self).chunks_to_render,
                old(self).wf(*old(arena)),
                player_pos_ok(player),
                arena.wf(),
                arena_chunks_ok(*arena),
                allocator.wf(),
                geometry_ownership(*arena, *allocator),
                old(allocator).can_grow() ==> allocator.can_grow(),
                allocator.pools@.len() == old(allocator).pools@.len(),
                allocator.memory_types == old(allocator).memory_types,
                forall|j: int| 0 <= j < kept@.len()
                    ==> exists|m: int| 0 <= m < i && old(self).chunks@[m] == #[trigger] kept@[j]
                        && !too_far(kept@[j].0, player),
                forall|m: int| 0 <= m < i && !too_far((#[trigger] old(self).chunks@[m]).0, player)
                    ==> kept@.contains(old(self).chunks@[m]),
                forall|j1: int, j2: int|
                    0 <= j1 < kept@.len() && 0 <= j2 < kept@.len() && j1 != j2
                    ==> (#[trigger] kept@[j1]).0 != (#[trigger] kept@[j2]).0
                        && kept@[j1].1 != kept@[j2].1,
                forall|k: ChunkKey| #[trigger] arena.live(k)
                    ==> old(arena).live(k) && arena.chunk_at(k) == old(arena).chunk_at(k),
                forall|k: ChunkKey| #[trigger] old(arena).live(k)
                    && !key_unloaded(old(self).chunks@.take(i as int), player, k)
                    ==> arena.live(k) && arena.chunk_at(k) == old(arena).chunk_at(k),
                forall|k: ChunkKey| #[trigger] old(arena).live(k)
                    && key_unloaded(old(self).chunks@.take(i as int), player, k)
                    && old(arena).chunk_at(k).buffer is Some
                    ==> !block_live_in_allocator(
                        *allocator,
                        old(arena).chunk_at(k).buffer->Some_0,
                    ),
            decreases n - i,
        {
            let entry = self.chunks[i];
            let pos = entry.0;
            let key = entry.1;
            let dx = pos.x - player.x;
            let dy = (pos.y as i32) - (player.y as i32);
            let dz = pos.z - player.z;
            let adx = if dx >= 0 { dx } else { -dx };
            let ady = if dy >= 0 { dy } else { -dy };
            let adz = if dz >= 0 { dz } else { -dz };
            let limit = RENDER_DISTANCE as i32 + 2;
            let far = adx > limit || ady > limit || adz > limit;
            proof {
                assert(far == too_far(pos, player));
            }
            if far {
                proof {
                    assert(arena.live(key)) by {
                        assert(old(arena).live(key));
                        assert(!key_unloaded(old(self).chunks@.take(i as int), player, key)) by {
                            if key_unloaded(old(self).chunks@.take(i as int), player, key) {
                                let m = choose|m: int|
                                    0 <= m < old(self).chunks@.take(i as int).len()
                                        && (#[trigger] old(self).chunks@.take(i as int)[m]).1 == key
                                        && too_far(old(self).chunks@.take(i as int)[m].0, player);
                                assert(old(self).chunks@[m].1 == old(self).chunks@[i as int].1);
                            }
                        }
                    }
                }
                let ghost arena0 = *arena;
                let ghost alloc0 = *allocator;
                let removed = arena.remove(key);
                match removed {
                    None => {
                        proof {
                            assert(false);
                        }
                    }
                    Some(chunk) => {
                        match chunk.buffer {
                            Some(buffer) => {
                                proof {
                                    assert(block_live_in_allocator(*allocator, buffer));
                                }
                                allocator.free(buffer);
                                proof {
                                    assert forall|k: ChunkKey| #[trigger] arena.live(k)
                                        && arena.chunk_at(k).buffer is Some
                                        implies block_live_in_allocator(
                                            *allocator,
                                            arena.chunk_at(k).buffer->Some_0,
                                        ) by {
                                        assert(arena0.live(k) && k != key);
                                        assert(arena0.chunk_at(k) == arena.chunk_at(k));
                                        let b = arena.chunk_at(k).buffer->Some_0;
                                        assert(block_live_in_allocator(alloc0, b));
                                        assert(!same_block(b, buffer));
                                    }
                                }
                            }
                            None => {}
                        }
                    }
                }
                proof {
                    assert forall|k: ChunkKey| #[trigger] old(arena).live(k)
                        && !key_unloaded(old(self).chunks@.take(i + 1), player, k)
                        implies arena.live(k) && arena.chunk_at(k) == old(arena).chunk_at(k) by {
                        assert(!key_unloaded(old(self).chunks@.take(i as int), player, k)) by {
                            if key_unloaded(old(self).chunks@.take(i as int), player, k) {
                                let m = choose|m: int|
                                    0 <= m < old(self).chunks@.take(i as int).len()
                                        && (#[trigger] old(self).chunks@.take(i as int)[m]).1 == k
                                        && too_far(old(self).chunks@.take(i as int)[m].0, player);
                                assert(old(self).chunks@.take(i + 1)[m] == old(self).chunks@[m]);
                            }
                        }
                        assert(k != key) by {
                            if k == key {
                                assert(old(self).chunks@.take(i + 1)[i as int].1 == key);
                            }
                        }
                    }
                    assert forall|k: ChunkKey| #[trigger] old(arena).live(k)
                        && key_unloaded(old(self).chunks@.take(i + 1), player, k)
                        && old(arena).chunk_at(k).buffer is Some
                        implies !block_live_in_allocator(
                            *allocator,
                            old(arena).chunk_at(k).buffer->Some_0,
                        ) by {
                        let b = old(arena).chunk_at(k).buffer->Some_0;
                        if key_unloaded(old(self).chunks@.take(i as int), player, k) {
                            // freed on an earlier iteration; a later free never
                            // resurrects a block
                            assert(!block_live_in_allocator(alloc0, b));
                        } else {
                            let m = choose|m: int|
                                0 <= m < old(self).chunks@.take(i + 1).len()
                                    && (#[trigger] old(self).chunks@.take(i + 1)[m]).1 == k
                                    && too_far(old(self).chunks@.take(i + 1)[m].0, player);
                            assert(old(self).chunks@[m] == old(self).chunks@.take(i + 1)[m]);
                            assert(m == i) by {
                                if m < i {
                                    assert(old(self).chunks@.take(i as int)[m]
                                        == old(self).chunks@[m]);
                                }
                            }
                            assert(k == key);
                            assert(old(arena).chunk_at(key) == arena0.chunk_at(key));
                        }
                    }
                }
            } else {
                proof {
                    assert(arena.live(key)) by {
                        assert(!key_unloaded(old(self).chunks@.take(i as int), player, key)) by {
                            if key_unloaded(old(self).chunks@.take(i as int), player, key) {
                                let m = choose|m: int|
                                    0 <= m < old(self).chunks@.take(i as int).len()
                                        && (#[trigger] old(self).chunks@.take(i as int)[m]).1 == key
                                        && too_far(old(self).chunks@.take(i as int)[m].0, player);
                                assert(old(self).chunks@[m].1 == old(self).chunks@[i as int].1);
                            }
                        }
                    }
                }
                let ghost kept0 = kept@;
                kept.push(entry);
                proof {
                    assert forall|k: ChunkKey| #[trigger] old(arena).live(k)
                        && key_unloaded(old(self).chunks@.take(i + 1), player, k)
                        && old(arena).chunk_at(k).buffer is Some
                        implies !block_live_in_allocator(
                            *allocator,
                            old(arena).chunk_at(k).buffer->Some_0,
                        ) by {
                        assert(key_unloaded(old(self).chunks@.take(i as int), player, k)) by {
                            let m = choose|m: int|
                                0 <= m < old(self).chunks@.take(i + 1).len()
                                    && (#[trigger] old(self).chunks@.take(i + 1)[m]).1 == k
                                    && too_far(old(self).chunks@.take(i + 1)[m].0, player);
                            assert(old(self).chunks@[m] == old(self).chunks@.take(i + 1)[m]);
                            if m == i {
                                assert(!too_far(old(self).chunks@[i as int].0, player));
                            } else {
                                assert(old(self).chunks@.take(i as int)[m]
                                    == old(self).chunks@[m]);
                            }
                        }
                    }
                    assert forall|m: int| 0 <= m < i + 1
                        && !too_far((#[trigger] old(self).chunks@[m]).0, player)
                        implies kept@.contains(old(self).chunks@[m]) by {
                        if m < i {
                            let j = choose|j: int| 0 <= j < kept0.len()
                                && kept0[j] == old(self).chunks@[m];
                            assert(kept@[j] == old(self).chunks@[m]);
                        } else {
                            assert(kept@[kept@.len() - 1] == old(self).chunks@[m]);
                        }
                    }
                    assert forall|j1: int, j2: int|
                        0 <= j1 < kept@.len() && 0 <= j2 < kept@.len() && j1 != j2
                        implies (#[trigger] kept@[j1]).0 != (#[trigger] kept@[j2]).0
                            && kept@[j1].1 != kept@[j2].1 by {
                        if j1 < kept@.len() - 1 && j2 < kept@.len() - 1 {
                            assert(kept@[j1] == kept0[j1] && kept@[j2] == kept0[j2]);
                        } else {
                            let jo = if j1 < kept@.len() - 1 { j1 } else { j2 };
                            assert(kept@[jo] == kept0[jo]);
                            let m = choose|m: int| 0 <= m < i
                                && old(self).chunks@[m] == kept0[jo]
                                && !too_far(kept0[jo].0, player);
                            assert(old(self).chunks@[m].0 != old(self).chunks@[i as int].0
                                && old(self).chunks@[m].1 != old(self).chunks@[i as int].1);
                        }
                    }
                    assert forall|k: ChunkKey| #[trigger] old(arena).live(k)
                        && !key_unloaded(old(self).chunks@.take(i + 1), player, k)
                        implies arena.live(k) && arena.chunk_at(k) == old(arena).chunk_at(k) by {
                        assert(!key_unloaded(old(self).chunks@.take(i as int), player, k)) by {
                            if key_unloaded(old(self).chunks@.take(i as int), player, k) {
                                let m = choose|m: int|
                                    0 <= m < old(self).chunks@.take(i as int).len()
                                        && (#[trigger] old(self).chunks@.take(i as int)[m]).1 == k
                                        && too_far(old(self).chunks@.take(i as int)[m].0, player);
                                assert(old(self).chunks@.take(i + 1)[m] == old(self).chunks@[m]);
                            }
                        }
                    }
                }
            }
            i = i + 1;
        }
        self.chunks = kept;
        proof {
            assert(old(self).chunks@.take(n as int) =~= old(self).chunks@);
            assert forall|pos: ChunkPos| map_has(self.chunks@, pos)
                implies map_has(old(self).chunks@, pos) && !too_far(pos, player) by {
                let j = choose|j: int| 0 <= j < self.chunks@.len() && (#[trigger] self.chunks@[j]).0 == pos;
                let m = choose|m: int| 0 <= m < n && old(self).chunks@[m] == self.chunks@[j]
                    && !too_far(self.chunks@[j].0, player);
                assert(old(self).chunks@[m].0 == pos);
            }
            assert forall|pos: ChunkPos| map_has(old(self).chunks@, pos) && !too_far(pos, player)
                implies map_has(self.chunks@, pos) by {
                let m = choose|m: int| 0 <= m < old(self).chunks@.len()
                    && (#[trigger] old(self).chunks@[m]).0 == pos;
                assert(self.chunks@.contains(old(self).chunks@[m]));
                let j = choose|j: int| 0 <= j < self.chunks@.len()
                    && self.chunks@[j] == old(self).chunks@[m];
            }
            assert forall|i2: int| 0 <= i2 < self.chunks@.len()
                implies arena.live((#[trigger] self.chunks@[i2]).1)
                    && arena.chunk_at(self.chunks@[i2].1).pos == self.chunks@[i2].0
                    && pos_in_range(self.chunks@[i2].0) by {
                let m = choose|m: int| 0 <= m < n && old(self).chunks@[m] == self.chunks@[i2]
                    && !too_far(self.chunks@[i2].0, player);
                assert(old(arena).live(old(self).chunks@[m].1));
                assert(!key_unloaded(old(self).chunks@, player, self.chunks@[i2].1)) by {
                    if key_unloaded(old(self).chunks@, player, self.chunks@[i2].1) {
                        let m2 = choose|m2: int| 0 <= m2 < old(self).chunks@.len()
                            && (#[trigger] old(self).chunks@[m2]).1 == self.chunks@[i2].1
                            && too_far(old(self).chunks@[m2].0, player);
                        assert(m2 == m);
                    }
                }
            }
        }
    }
}

/// The part of the creation scan the loops have already visited, in
/// x-then-y-then-z order.
pub open spec fn scanned_before(pos: ChunkPos, player: ChunkPos, cx: int, cy: int, cz: int) -> bool {
    &&& in_scan(pos, player)
    &&& (pos.x < cx
        || (pos.x == cx && ((pos.y as int) < cy || (pos.y == cy && pos.z < cz))))
}

impl World {
    /// Create a chunk at every position within the render distance of the
    /// player that is not yet loaded: populate its voxel grid, insert it
    /// into the arena, record it in the map, and submit its key to the
    /// meshing pipeline. A position is submitted only on first creation.
    #[verifier::rlimit(100)]
    pub fn load_missing(
        &mut self,
        arena: &mut ChunkArena,
        pool: &mut MeshingThreadPool,
        player: ChunkPos,
    )
        requires
            old(self).wf(*old(arena)),
            old(arena).wf(),
            arena_chunks_ok(*old(arena)),
            player_pos_ok(player),
        ensures
            final(self).wf(*final(arena)),
            final(arena).wf(),
            arena_chunks_ok(*final(arena)),
            forall|a: Allocator| geometry_ownership(*old(arena), a)
                ==> geometry_ownership(*final(arena), a),
            forall|pos: ChunkPos| #![trigger map_has(final(self).chunks@, pos)]
                map_has(final(self).chunks@, pos)
                    <==> map_has(old(self).chunks@, pos) || in_scan(pos, player),
            final(self).chunks_to_render == old(self).chunks_to_render,
            forall|k: ChunkKey| #[trigger] old(arena).live(k)
                ==> final(arena).live(k) && final(arena).chunk_at(k) == old(arena).chunk_at(k),
            final(pool).out_queue == old(pool).out_queue,
            final(pool).exited == old(pool).exited,
            final(pool).exit == old(pool).exit,
            final(pool).in_queue.closed == old(pool).in_queue.closed,
            final(pool).buffer_memory_type_bits == old(pool).buffer_memory_type_bits,
            final(pool).buffer_alignment == old(pool).buffer_alignment,
            old(pool).in_queue.jobs@.len() <= final(pool).in_queue.jobs@.len(),
            forall|j: int| 0 <= j < old(pool).in_queue.jobs@.len()
                ==> #[trigger] final(pool).in_queue.jobs@[j] == old(pool).in_queue.jobs@[j],
            final(self).chunks@.len() >= old(self).chunks@.len(),
            final(self).chunks@.take(old(self).chunks@.len() as int) == old(self).chunks@,
            final(pool).in_queue.jobs@ == old(pool).in_queue.jobs@
                + entry_keys(final(self).chunks@.skip(old(self).chunks@.len() as int)),
            forall|m: int| old(self).chunks@.len() <= m < final(self).chunks@.len()
                ==> is_fresh_terrain_chunk(
                    final(arena).chunk_at((#[trigger] final(self).chunks@[m]).1),
                    final(self).chunks@[m].0),
    {
        proof {
            assert(self.chunks@.skip(old(self).chunks@.len() as int) =~= Seq::<(ChunkPos, ChunkKey)>::empty());
            assert(entry_keys(Seq::<(ChunkPos, ChunkKey)>::empty()) =~= Seq::<ChunkKey>::empty());
            assert(pool.in_queue.jobs@ =~= old(pool).in_queue.jobs@
                + entry_keys(self.chunks@.skip(old(self).chunks@.len() as int)));
            assert(self.chunks@.take(old(self).chunks@.len() as int) =~= old(self).chunks@);
        }
        let rd = RENDER_DISTANCE as i32;
        let mut cx = player.x - rd;
        while cx < player.x + rd
            invariant
                player_pos_ok(player),
                player.x - rd <= cx <= player.x + rd,
                rd == RENDER_DISTANCE,
                self.wf(*arena),
                arena.wf(),
                arena_chunks_ok(*arena),
                forall|a: Allocator| geometry_ownership(*old(arena), a)
                    ==> geometry_ownership(*arena, a),
                self.chunks_to_render == old(self).chunks_to_render,
                forall|k: ChunkKey| #[trigger] old(arena).live(k)
                    ==> arena.live(k) && arena.chunk_at(k) == old(arena).chunk_at(k),
                pool.out_queue == old(pool).out_queue,
                pool.exited == old(pool).exited,
                pool.exit == old(pool).exit,
                pool.in_queue.closed == old(pool).in_queue.closed,
                pool.buffer_memory_type_bits == old(pool).buffer_memory_type_bits,
                pool.buffer_alignment == old(pool).buffer_alignment,
                self.chunks@.len() >= old(self).chunks@.len(),
                self.chunks@.take(old(self).chunks@.len() as int) == old(self).chunks@,
                pool.in_queue.jobs@ == old(pool).in_queue.jobs@
                    + entry_keys(self.chunks@.skip(old(self).chunks@.len() as int)),
                forall|m: int| old(self).chunks@.len() <= m < self.chunks@.len()
                    ==> is_fresh_terrain_chunk(
                        arena.chunk_at((#[trigger] self.chunks@[m]).1),
                        self.chunks@[m].0),
                forall|pos: ChunkPos| map_has(self.chunks@, pos)
                    <==> map_has(old(self).chunks@, pos)
                        || scanned_before(pos, player, cx as int, player.y - rd, player.z - rd),
            decreases player.x + rd - cx,
        {
            let mut cy = player.y as i32 - rd;
            while cy < player.y as i32 + rd
                invariant
                    player_pos_ok(player),
                    player.x - rd <= cx < player.x + rd,
                    player.y - rd <= cy <= player.y + rd,
                    rd == RENDER_DISTANCE,
                    self.wf(*arena),
                    arena.wf(),
                    arena_chunks_ok(*arena),
                    forall|a: Allocator| geometry_ownership(*old(arena), a)
                        ==> geometry_ownership(*arena, a),
                    self.chunks_to_render == old(self).chunks_to_render,
                    forall|k: ChunkKey| #[trigger] old(arena).live(k)
                        ==> arena.live(k) && arena.chunk_at(k) == old(arena).chunk_at(k),
                    pool.out_queue == old(pool).out_queue,
                    pool.exited == old(pool).exited,
                    pool.exit == old(pool).exit,
                    pool.in_queue.closed == old(pool).in_queue.closed,
                    pool.buffer_memory_type_bits == old(pool).buffer_memory_type_bits,
                    pool.buffer_alignment == old(pool).buffer_alignment,
                    self.chunks@.len() >= old(self).chunks@.len(),
                    self.chunks@.take(old(self).chunks@.len() as int) == old(self).chunks@,
                    pool.in_queue.jobs@ == old(pool).in_queue.jobs@
                        + entry_keys(self.chunks@.skip(old(self).chunks@.len() as int)),
                    forall|m: int| old(self).chunks@.len() <= m < self.chunks@.len()
                        ==> is_fresh_terrain_chunk(
                            arena.chunk_at((#[trigger] self.chunks@[m]).1),
                            self.chunks@[m].0),
                    forall|pos: ChunkPos| map_has(self.chunks@, pos)
                        <==> map_has(old(self).chunks@, pos)
                            || scanned_before(pos, player, cx as int, cy as int, player.z - rd),
                decreases player.y + rd - cy,
            {
                if 0 <= cy && cy <= 10 {
                    let mut cz = player.z - rd;
                    while cz < player.z + rd
                        invariant
                            player_pos_ok(player),
                            player.x - rd <= cx < player.x + rd,
                            player.y - rd <= cy < player.y + rd,
                            0 <= cy <= 10,
                            player.z - rd <= cz <= player.z + rd,
                            rd == RENDER_DISTANCE,
                            self.wf(*arena),
                            arena.wf(),
                            arena_chunks_ok(*arena),
                            forall|a: Allocator| geometry_ownership(*old(arena), a)
                                ==> geometry_ownership(*arena, a),
                            self.chunks_to_render == old(self).chunks_to_render,
                            forall|k: ChunkKey| #[trigger] old(arena).live(k)
                                ==> arena.live(k) && arena.chunk_at(k) == old(arena).chunk_at(k),
                            pool.out_queue == old(pool).out_queue,
                            pool.exited == old(pool).exited,
                            pool.exit == old(pool).exit,
                            pool.in_queue.closed == old(pool).in_queue.closed,
                            pool.buffer_memory_type_bits == old(pool).buffer_memory_type_bits,
                            pool.buffer_alignment == old(pool).buffer_alignment,
                            self.chunks@.len() >= old(self).chunks@.len(),
                            self.chunks@.take(old(self).chunks@.len() as int) == old(self).chunks@,
                            pool.in_queue.jobs@ == old(pool).in_queue.jobs@
                                + entry_keys(self.chunks@.skip(old(self).chunks@.len() as int)),
                            forall|m: int| old(self).chunks@.len() <= m < self.chunks@.len()
                                ==> is_fresh_terrain_chunk(
                                    arena.chunk_at((#[trigger] self.chunks@[m]).1),
                                    self.chunks@[m].0),
                            forall|pos: ChunkPos| map_has(self.chunks@, pos)
                                <==> map_has(old(self).chunks@, pos)
                                    || scanned_before(pos, player, cx as int, cy as int, cz as int),
                        decreases player.z + rd - cz,
                    {
                        let pos = ChunkPos { x: cx, y: cy as u32, z: cz };
                        if !self.contains_pos(pos) {
                            let ghost map0 = self.chunks@;
                            let ghost arena0 = *arena;
                            let chunk = Chunk::new(pos);
                            let key = arena.insert(chunk);
                            pool.mesh_thread(key);
                            self.chunks.push((pos, key));
                            proof {
                                assert forall|i: int, j: int|
                                    0 <= i < self.chunks@.len() && 0 <= j < self.chunks@.len() && i != j
                                    implies (#[trigger] self.chunks@[i]).0 != (#[trigger] self.chunks@[j]).0
                                        && self.chunks@[i].1 != self.chunks@[j].1 by {
                                    if i < map0.len() && j < map0.len() {
                                        assert(self.chunks@[i] == map0[i] && self.chunks@[j] == map0[j]);
                                    } else {
                                        let o = if i < map0.len() { i } else { j };
                                        assert(self.chunks@[o] == map0[o]);
                                        assert(arena0.live(map0[o].1));
                                        if map0[o].0 == pos {
                                            assert(map_has(map0, pos));
                                        }
                                    }
                                }
                                assert forall|p2: ChunkPos| map_has(self.chunks@, p2)
                                    implies map_has(map0, p2) || p2 == pos by {
                                    let i = choose|i: int| 0 <= i < self.chunks@.len()
                                        && (#[trigger] self.chunks@[i]).0 == p2;
                                    if i < map0.len() {
                                        assert(map0[i].0 == p2);
                                    }
                                }
                                assert forall|p2: ChunkPos| map_has(map0, p2)
                                    implies map_has(self.chunks@, p2) by {
                                    let i = choose|i: int| 0 <= i < map0.len()
                                        && (#[trigger] map0[i]).0 == p2;
                                    assert(self.chunks@[i].0 == p2);
                                }
                                assert(map_has(self.chunks@, pos)) by {
                                    assert(self.chunks@[self.chunks@.len() - 1].0 == pos);
                                }
                                let fl = old(self).chunks@.len() as int;
                                assert(self.chunks@ =~= map0.push((pos, key)));
                                assert(self.chunks@.take(fl) =~= map0.take(fl));
                                assert(self.chunks@.skip(fl) =~= map0.skip(fl).push((pos, key)));
                                lemma_entry_keys_push(map0.skip(fl), (pos, key));
                                assert(pool.in_queue.jobs@ =~= old(pool).in_queue.jobs@
                                    + entry_keys(self.chunks@.skip(fl)));
                                assert forall|m: int| fl <= m < self.chunks@.len()
                                    implies is_fresh_terrain_chunk(
                                        arena.chunk_at((#[trigger] self.chunks@[m]).1),
                                        self.chunks@[m].0) by {
                                    if m < self.chunks@.len() - 1 {
                                        assert(self.chunks@[m] == map0[m]);
                                        assert(arena0.live(map0[m].1));
                                        assert(arena.chunk_at(map0[m].1) == arena0.chunk_at(map0[m].1));
                                        assert(is_fresh_terrain_chunk(
                                            arena0.chunk_at(map0[m].1), map0[m].0));
                                    } else {
                                        assert(self.chunks@[m] == (pos, key));
                                        assert(arena.chunk_at(key) == chunk);
                                    }
                                }
                            }
                        }
                        proof {
                            assert forall|p2: ChunkPos|
                                #![trigger scanned_before(p2, player, cx as int, cy as int, cz + 1)]
                                scanned_before(p2, player, cx as int, cy as int, cz + 1)
                                    && !scanned_before(p2, player, cx as int, cy as int, cz as int)
                                implies p2 == pos by {
                            }
                        }
                        cz = cz + 1;
                    }
                }
                proof {
                    assert forall|p2: ChunkPos|
                        #![trigger in_scan(p2, player)]
                        scanned_before(p2, player, cx as int, cy + 1, player.z - rd)
                            == scanned_before(p2, player, cx as int, cy as int, player.z + rd) by {
                    }
                }
                cy = cy + 1;
            }
            proof {
                assert forall|p2: ChunkPos|
                    #![trigger in_scan(p2, player)]
                    scanned_before(p2, player, cx + 1, player.y - rd, player.z - rd)
                        == scanned_before(p2, player, cx as int, player.y + rd, player.z - rd) by {
                }
            }
            cx = cx + 1;
        }
        proof {
            assert forall|p2: ChunkPos|
                #![trigger in_scan(p2, player)]
                in_scan(p2, player)
                    == scanned_before(p2, player, player.x + rd, player.y - rd, player.z - rd) by {
            }
        }
    }

    /// Drain the pipeline's completion queue once per tick; every completed
    /// chunk that is still alive joins the render set exactly once, in
    /// completion order, and dead ones are dropped.
    pub fn collect_completions(&mut self, arena: &ChunkArena, pool: &mut MeshingThreadPool)
        ensures
            final(self).chunks == old(self).chunks,
            final(self).chunks_to_render@
                == old(self).chunks_to_render@ + live_completions(*arena, old(pool).out_queue@),
            final(pool).out_queue@.len() == 0,
            final(pool).in_queue == old(pool).in_queue,
            final(pool).exited == old(pool).exited,
            final(pool).exit == old(pool).exit,
            final(pool).buffer_memory_type_bits == old(pool).buffer_memory_type_bits,
            final(pool).buffer_alignment == old(pool).buffer_alignment,
            old(self).chunks_to_render@.len() <= final(self).chunks_to_render@.len(),
            forall|j: int| 0 <= j < old(self).chunks_to_render@.len()
                ==> #[trigger] final(self).chunks_to_render@[j] == old(self).chunks_to_render@[j],
            forall|j: int|
                old(self).chunks_to_render@.len() <= j < final(self).chunks_to_render@.len()
                ==> arena.live(#[trigger] final(self).chunks_to_render@[j])
                    && old(pool).out_queue@.contains(final(self).chunks_to_render@[j]),
            forall|m: int| 0 <= m < old(pool).out_queue@.len()
                && arena.live(#[trigger] old(pool).out_queue@[m])
                ==> final(self).chunks_to_render@.contains(old(pool).out_queue@[m]),
    {
        let done = pool.try_iter();
        let n = done.len();
        let mut i: usize = 0;
        while i < n
            invariant
                0 <= i <= n,
                n == done@.len(),
                done@ == old(pool).out_queue@,
                self.chunks == old(self).chunks,
                old(self).chunks_to_render@.len() <= self.chunks_to_render@.len(),
                self.chunks_to_render@
                    == old(self).chunks_to_render@ + live_completions(*arena, done@.take(i as int)),
                forall|j: int| 0 <= j < old(self).chunks_to_render@.len()
                    ==> #[trigger] self.chunks_to_render@[j] == old(self).chunks_to_render@[j],
                forall|j: int|
                    old(self).chunks_to_render@.len() <= j < self.chunks_to_render@.len()
                    ==> arena.live(#[trigger] self.chunks_to_render@[j])
                        && done@.contains(self.chunks_to_render@[j]),
                forall|m: int| 0 <= m < i && arena.live(#[trigger] done@[m])
                    ==> self.chunks_to_render@.contains(done@[m]),
            decreases n - i,
        {
            let key = done[i];
            proof {
                assert(done@.take(i + 1).drop_last() =~= done@.take(i as int));
                assert(done@.take(i + 1).last() == key);
            }
            if arena.is_live(key) {
                let ghost render0 = self.chunks_to_render@;
                self.chunks_to_render.push(key);
                proof {
                    assert(self.chunks_to_render@[self.chunks_to_render@.len() - 1] == key);
                    assert(done@[i as int] == key && 0 <= i < done@.len());
                    assert(done@.contains(key));
                    assert forall|m: int| 0 <= m < i + 1 && arena.live(#[trigger] done@[m])
                        implies self.chunks_to_render@.contains(done@[m]) by {
                        if m < i {
                            let j = choose|j: int| 0 <= j < render0.len() && render0[j] == done@[m];
                            assert(self.chunks_to_render@[j] == done@[m]);
                        } else {
                            assert(self.chunks_to_render@[self.chunks_to_render@.len() - 1] == done@[m]);
                        }
                    }
                }
            }
            i = i + 1;
        }
        proof {
            assert(done@.take(n as int) =~= done@);
            assert(self.chunks_to_render@
                == old(self).chunks_to_render@ + live_completions(*arena, done@));
        }
    }

    /// One streaming pass: unload distant chunks (returning their geometry
    /// buffers), create and submit missing chunks around the player, and
    /// collect finished meshes into the render set.
    pub fn update_visible_chunks(
        &mut self,
        arena: &mut ChunkArena,
        allocator: &mut Allocator,
        pool: &mut MeshingThreadPool,
        player: ChunkPos,
    )
        requires
            old(self).wf(*old(arena)),
            old(arena).wf(),
            arena_chunks_ok(*old(arena)),
            old(allocator).wf(),
            geometry_ownership(*old(arena), *old(allocator)),
            player_pos_ok(player),
        ensures
            final(self).wf(*final(arena)),
            final(arena).wf(),
            arena_chunks_ok(*final(arena)),
            final(allocator).wf(),
            geometry_ownership(*final(arena), *final(allocator)),
            old(allocator).can_grow() ==> final(allocator).can_grow(),
            final(allocator).pools@.len() == old(allocator).pools@.len(),
            final(allocator).memory_types == old(allocator).memory_types,
            forall|pos: ChunkPos| map_has(final(self).chunks@, pos)
                <==> (map_has(old(self).chunks@, pos) && !too_far(pos, player))
                    || in_scan(pos, player),
            final(pool).out_queue@.len() == 0,
            final(pool).exited == old(pool).exited,
            final(pool).exit == old(pool).exit,
            final(pool).in_queue.closed == old(pool).in_queue.closed,
            final(pool).buffer_memory_type_bits == old(pool).buffer_memory_type_bits,
            final(pool).buffer_alignment == old(pool).buffer_alignment,
            forall|j: int| 0 <= j < old(self).chunks_to_render@.len()
                ==> #[trigger] final(self).chunks_to_render@[j] == old(self).chunks_to_render@[j],
            forall|j: int|
                old(self).chunks_to_render@.len() <= j < final(self).chunks_to_render@.len()
                ==> old(pool).out_queue@.contains(#[trigger] final(self).chunks_to_render@[j]),
            forall|k: ChunkKey| #[trigger] old(arena).live(k)
                && key_unloaded(old(self).chunks@, player, k)
                && old(arena).chunk_at(k).buffer is Some
                ==> !block_live_in_allocator(
                    *final(allocator),
                    old(arena).chunk_at(k).buffer->Some_0,
                ),
            forall|m: int| 0 <= m < final(self).chunks@.len()
                && !map_has(old(self).chunks@, (#[trigger] final(self).chunks@[m]).0)
                ==> is_fresh_terrain_chunk(
                    final(arena).chunk_at(final(self).chunks@[m].1),
                    final(self).chunks@[m].0),
    {
        self.unload_distant(arena, allocator, player);
        let ghost mid = self.chunks@;
        self.load_missing(arena, pool, player);
        proof {
            assert forall|pos: ChunkPos|
                #![trigger map_has(self.chunks@, pos)]
                map_has(self.chunks@, pos)
                    == ((map_has(old(self).chunks@, pos) && !too_far(pos, player))
                        || in_scan(pos, player)) by {
                assert(map_has(self.chunks@, pos) == (map_has(mid, pos) || in_scan(pos, player)));
            }
        }
        let ghost mid_len = mid.len() as int;
        proof {
            assert forall|m: int| 0 <= m < self.chunks@.len()
                && !map_has(old(self).chunks@, (#[trigger] self.chunks@[m]).0)
                implies is_fresh_terrain_chunk(
                    arena.chunk_at(self.chunks@[m].1),
                    self.chunks@[m].0,
                ) by {
                if m < mid_len {
                    assert(self.chunks@.take(mid_len)[m] == self.chunks@[m]);
                    assert(self.chunks@[m] == mid[m]);
                    assert(map_has(mid, self.chunks@[m].0));
                }
            }
        }
        self.collect_completions(arena, pool);
    }

    /// One world tick.
    pub fn tick(
        &mut self,
        arena: &mut ChunkArena,
        allocator: &mut Allocator,
        pool: &mut MeshingThreadPool,
        player: ChunkPos,
    )
        requires
            old(self).wf(*old(arena)),
            old(arena).wf(),
            arena_chunks_ok(*old(arena)),
            old(allocator).wf(),
            geometry_ownership(*old(arena), *old(allocator)),
            player_pos_ok(player),
        ensures
            final(self).wf(*final(arena)),
            final(arena).wf(),
            arena_chunks_ok(*final(arena)),
            final(allocator).wf(),
            geometry_ownership(*final(arena), *final(allocator)),
            old(allocator).can_grow() ==> final(allocator).can_grow(),
            forall|pos: ChunkPos| map_has(final(self).chunks@, pos)
                <==> (map_has(old(self).chunks@, pos) && !too_far(pos, player))
                    || in_scan(pos, player),
            forall|k: ChunkKey| #[trigger] old(arena).live(k)
                && key_unloaded(old(self).chunks@, player, k)
                && old(arena).chunk_at(k).buffer is Some
                ==> !block_live_in_allocator(
                    *final(allocator),
                    old(arena).chunk_at(k).buffer->Some_0,
                ),
            forall|m: int| 0 <= m < final(self).chunks@.len()
                && !map_has(old(self).chunks@, (#[trigger] final(self).chunks@[m]).0)
                ==> is_fresh_terrain_chunk(
                    final(arena).chunk_at(final(self).chunks@[m].1),
                    final(self).chunks@[m].0),
    {
        self.update_visible_chunks(arena, allocator, pool, player);
    }
}

/// Geometry ownership survives one meshing worker step: the only buffer the
/// step attaches is freshly allocated, so it is live and shared with no
/// other chunk; every other chunk's buffer is untouched and stays live.
/// (The hypotheses below are exactly what `worker_step` ensures.)
pub proof fn lemma_step_preserves_ownership(
    pool0: MeshingThreadPool,
    arena0: ChunkArena,
    alloc0: Allocator,
    pool1: MeshingThreadPool,
    arena1: ChunkArena,
    alloc1: Allocator,
    worker: int,
    r: crate::meshing::StepResult,
)
    requires
        crate::meshing::worker_step_post(pool0, arena0, pool1, arena1, worker, r),
        geometry_ownership(arena0, alloc0),
        alloc1.wf(),
        forall|b: Block| #[trigger] block_live_in_allocator(alloc0, b)
            ==> block_live_in_allocator(alloc1, b),
        r == crate::meshing::StepResult::Meshed ==> ({
            let key = pool0.in_queue.jobs@[0];
            &&& block_live_in_allocator(alloc1, arena1.chunk_at(key).buffer->Some_0)
            &&& !block_live_in_allocator(alloc0, arena1.chunk_at(key).buffer->Some_0)
        }),
        r != crate::meshing::StepResult::Meshed ==> alloc1 == alloc0,
    ensures
        geometry_ownership(arena1, alloc1),
{
    match r {
        crate::meshing::StepResult::Meshed => {
            let key = pool0.in_queue.jobs@[0];
            let fresh = arena1.chunk_at(key).buffer->Some_0;
            assert forall|k: ChunkKey| #[trigger] arena1.live(k) && arena1.chunk_at(k).buffer is Some
                implies block_live_in_allocator(alloc1, arena1.chunk_at(k).buffer->Some_0) by {
                if k != key {
                    assert(arena0.live(k));
                    assert(arena1.chunk_at(k) == arena0.chunk_at(k));
                }
            }
            assert forall|k1: ChunkKey, k2: ChunkKey|
                #[trigger] arena1.live(k1) && #[trigger] arena1.live(k2) && k1 != k2
                    && arena1.chunk_at(k1).buffer is Some && arena1.chunk_at(k2).buffer is Some
                implies !same_block(
                    arena1.chunk_at(k1).buffer->Some_0,
                    arena1.chunk_at(k2).buffer->Some_0,
                ) by {
                if k1 != key && k2 != key {
                    assert(arena0.live(k1) && arena0.live(k2));
                    assert(arena1.chunk_at(k1) == arena0.chunk_at(k1));
                    assert(arena1.chunk_at(k2) == arena0.chunk_at(k2));
                } else {
                    let other = if k1 == key { k2 } else { k1 };
                    assert(arena0.live(other));
                    assert(arena1.chunk_at(other) == arena0.chunk_at(other));
                    let b = arena1.chunk_at(other).buffer->Some_0;
                    assert(block_live_in_allocator(alloc0, b));
                    assert(block_live_in_allocator(alloc1, b));
                    if same_block(b, fresh) {
                        lemma_live_block_unique(alloc1, b, fresh);
                        assert(b == fresh);
                        assert(false);
                    }
                }
            }
        }
        _ => {
            assert forall|k: ChunkKey| #[trigger] arena1.live(k) && arena1.chunk_at(k).buffer is Some
                implies block_live_in_allocator(alloc1, arena1.chunk_at(k).buffer->Some_0) by {
                assert(arena0.live(k));
                match r {
                    crate::meshing::StepResult::JobFailed(_) => {
                        if k != pool0.in_queue.jobs@[0] {
                            assert(arena1.chunk_at(k) == arena0.chunk_at(k));
                        }
                    }
                    _ => {
                        assert(arena1 == arena0);
                    }
                }
            }
            assert forall|k1: ChunkKey, k2: ChunkKey|
                #[trigger] arena1.live(k1) && #[trigger] arena1.live(k2) && k1 != k2
                    && arena1.chunk_at(k1).buffer is Some && arena1.chunk_at(k2).buffer is Some
                implies !same_block(
                    arena1.chunk_at(k1).buffer->Some_0,
                    arena1.chunk_at(k2).buffer->Some_0,
                ) by {
                assert(arena0.live(k1) && arena0.live(k2));
                match r {
                    crate::meshing::StepResult::JobFailed(_) => {
                        let key = pool0.in_queue.jobs@[0];
                        assert(k1 != key || k2 != key);
                        if k1 != key {
                            assert(arena1.chunk_at(k1) == arena0.chunk_at(k1));
                        }
                        if k2 != key {
                            assert(arena1.chunk_at(k2) == arena0.chunk_at(k2));
                        }
                    }
                    _ => {
                        assert(arena1 == arena0);
                    }
                }
            }
        }
    }
}

/// Some map entry carries key `k` and lies too far from the player, so the
/// unload pass removes it.
pub open spec fn key_unloaded(chunks: Seq<(ChunkPos, ChunkKey)>, player: ChunkPos, k: ChunkKey) -> bool {
    exists|m: int| 0 <= m < chunks.len() && (#[trigger] chunks[m]).1 == k && too_far(chunks[m].0, player)
}

} // verus!
