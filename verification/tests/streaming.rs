//! Arena, world streaming and queue-selection behaviour.

use voxel_core::arena::{ChunkArena, ChunkKey};
use voxel_core::chunk::Chunk;
use voxel_core::memory::{
    Allocator, MEMORY_PROPERTY_DEVICE_LOCAL, MEMORY_PROPERTY_HOST_COHERENT,
    MEMORY_PROPERTY_HOST_VISIBLE,
};
use voxel_core::meshing::MeshingThreadPool;
use voxel_core::queue::{
    get_queues, QueueDef, QueueFamily, QueueFamilyIndices, QueueSelectError, QUEUE_GRAPHICS,
    QUEUE_TRANSFER,
};
use voxel_core::world::{ChunkPos, World};

#[test]
fn arena_keys_resolve_until_removed() {
    let mut arena = ChunkArena::new();
    let key = arena.insert(Chunk::new(ChunkPos { x: 0, y: 0, z: 0 }));
    assert!(arena.is_live(key));
    let removed = arena.remove(key);
    assert!(removed.is_some());
    // the key and every copy of it are dead from now on
    assert!(!arena.is_live(key));
    assert!(arena.remove(key).is_none());
}

#[test]
fn arena_reuses_slots_with_new_generations() {
    let mut arena = ChunkArena::new();
    let first = arena.insert(Chunk::new(ChunkPos { x: 0, y: 0, z: 0 }));
    arena.remove(first);
    let second = arena.insert(Chunk::new(ChunkPos { x: 1, y: 0, z: 0 }));
    // the slot is reused under a fresh generation: the old key stays dead
    assert_eq!(second.index, first.index);
    assert!(second.generation > first.generation);
    assert!(!arena.is_live(first));
    assert!(arena.is_live(second));
}

#[test]
fn stale_key_does_not_observe_replacement_chunk() {
    let mut arena = ChunkArena::new();
    let first = arena.insert(Chunk::new(ChunkPos { x: 5, y: 0, z: 5 }));
    arena.remove(first);
    let _second = arena.insert(Chunk::new(ChunkPos { x: 6, y: 0, z: 6 }));
    assert!(arena.remove(first).is_none());
}

fn fresh_engine() -> (World, ChunkArena, Allocator, MeshingThreadPool) {
    let world = World::new();
    let arena = ChunkArena::new();
    let allocator = Allocator::new(vec![
        MEMORY_PROPERTY_DEVICE_LOCAL,
        MEMORY_PROPERTY_HOST_VISIBLE | MEMORY_PROPERTY_HOST_COHERENT,
    ]);
    let pool = MeshingThreadPool::new(0b11, 16);
    (world, arena, allocator, pool)
}

#[test]
fn tick_loads_every_position_in_range() {
    let (mut world, mut arena, mut allocator, mut pool) = fresh_engine();
    let player = ChunkPos { x: 0, y: 5, z: 0 };
    world.tick(&mut arena, &mut allocator, &mut pool, player);
    // x and z span 20 chunks each; y spans -5..15 clamped to the 0..=10 layers
    assert_eq!(world.chunks.len(), 20 * 20 * 11);
    // every created chunk was submitted exactly once
    assert_eq!(pool.in_queue.jobs.len(), 20 * 20 * 11);
}

#[test]
fn tick_submits_each_created_chunk_exactly_once_in_order() {
    let (mut world, mut arena, mut allocator, mut pool) = fresh_engine();
    let player = ChunkPos { x: 0, y: 0, z: 0 };
    world.tick(&mut arena, &mut allocator, &mut pool, player);
    assert_eq!(pool.in_queue.jobs.len(), world.chunks.len());
    for (job, entry) in pool.in_queue.jobs.iter().zip(world.chunks.iter()) {
        assert_eq!(*job, entry.1);
    }
}

#[test]
fn created_chunks_hold_the_generated_terrain() {
    let (mut world, mut arena, mut allocator, mut pool) = fresh_engine();
    let player = ChunkPos { x: 0, y: 0, z: 0 };
    world.tick(&mut arena, &mut allocator, &mut pool, player);
    let (pos, key) = world.chunks[0];
    let chunk = arena.remove(key).unwrap();
    assert_eq!(chunk.pos, pos);
    assert!(chunk.buffer.is_none());
    // column (9, 2) is solid up to height |9 - 2| = 7
    let index = |x: usize, y: usize, z: usize| x * 16 * 16 + y * 16 + z;
    for y in 0..7 {
        assert_eq!(chunk.blocks[index(9, y, 2)].id, 1);
    }
    assert_eq!(chunk.blocks[index(9, 7, 2)].id, 0);
}

#[test]
fn missing_graphics_family_is_reported_even_with_worker_queues() {
    let families = vec![family(QUEUE_TRANSFER, 2, true)];
    assert_eq!(get_queues(&families), Err(QueueSelectError::NoGraphicsQueue));
}

#[test]
fn tick_is_idempotent_for_a_still_player() {
    let (mut world, mut arena, mut allocator, mut pool) = fresh_engine();
    let player = ChunkPos { x: 3, y: 0, z: -2 };
    world.tick(&mut arena, &mut allocator, &mut pool, player);
    let loaded = world.chunks.len();
    let submitted = pool.in_queue.jobs.len();
    world.tick(&mut arena, &mut allocator, &mut pool, player);
    assert_eq!(world.chunks.len(), loaded);
    // no duplicate submission of an already loaded chunk
    assert_eq!(pool.in_queue.jobs.len(), submitted);
}

#[test]
fn distant_chunks_unload_when_the_player_moves() {
    let (mut world, mut arena, mut allocator, mut pool) = fresh_engine();
    world.tick(&mut arena, &mut allocator, &mut pool, ChunkPos { x: 0, y: 5, z: 0 });
    let loaded = world.chunks.len();
    // move far beyond the hysteresis on the x axis
    world.tick(&mut arena, &mut allocator, &mut pool, ChunkPos { x: 1000, y: 5, z: 0 });
    assert_eq!(world.chunks.len(), loaded);
    for (pos, key) in &world.chunks {
        assert!(pos.x >= 990);
        assert!(arena.is_live(*key));
    }
}

#[test]
fn completed_live_chunks_join_the_render_set() {
    let (mut world, mut arena, mut allocator, mut pool) = fresh_engine();
    let player = ChunkPos { x: 0, y: 0, z: 0 };
    world.tick(&mut arena, &mut allocator, &mut pool, player);
    // run one worker over a few queued jobs
    let v = voxel_core::vertex::Vertex { x: 0, y: 0, z: 0, red: 0, green: 0, blue: 0, light_modifier: 0 };
    let mut vertices = vec![v; voxel_core::chunk::MAX_MESH_VERTICES];
    let mut indices = vec![0u32; voxel_core::chunk::MAX_MESH_INDICES];
    pool.start_threads(1, 1);
    for _ in 0..3 {
        pool.worker_step(&mut arena, &mut allocator, 0, &mut vertices, &mut indices);
    }
    assert!(world.chunks_to_render.is_empty());
    world.tick(&mut arena, &mut allocator, &mut pool, player);
    assert_eq!(world.chunks_to_render.len(), 3);
}

fn family(flags: u32, count: u32, surface: bool) -> QueueFamily {
    QueueFamily { queue_flags: flags, queue_count: count, surface_support: surface }
}

#[test]
fn queue_selection_dedicates_transfer_queues() {
    let families = vec![
        family(QUEUE_GRAPHICS | QUEUE_TRANSFER, 2, true),
        family(QUEUE_TRANSFER, 3, false),
    ];
    let (graphics, present, transfer) = get_queues(&families).unwrap();
    assert_eq!(graphics, QueueDef { family: 0, index: 0 });
    assert_eq!(present, QueueDef { family: 0, index: 0 });
    // queue 0 of family 0 serves graphics/present, so workers get queue 1
    // of family 0 and all three queues of family 1
    assert_eq!(transfer.len(), 4);
    assert!(transfer.contains(&QueueDef { family: 0, index: 1 }));
    assert!(transfer.contains(&QueueDef { family: 1, index: 0 }));
    assert!(transfer.contains(&QueueDef { family: 1, index: 2 }));
    for q in &transfer {
        assert!(*q != graphics && *q != present);
    }
}

#[test]
fn queue_selection_reports_missing_transfer_queues() {
    let families = vec![family(QUEUE_GRAPHICS, 1, true)];
    // the only queue serves graphics, so no worker queue remains
    assert_eq!(get_queues(&families), Err(QueueSelectError::NoTransferQueue));
}

#[test]
fn queue_family_indices_pick_distinct_roles() {
    let families = vec![
        family(QUEUE_GRAPHICS | QUEUE_TRANSFER, 1, true),
        family(QUEUE_TRANSFER, 4, false),
        family(0, 1, true),
    ];
    let indices = QueueFamilyIndices::get(&families, 4).unwrap();
    assert_eq!(indices.graphics, 0);
    assert_eq!(indices.transfer, 1);
    assert_eq!(indices.present, 0);
}

#[test]
fn queue_family_indices_require_enough_transfer_queues() {
    let families = vec![
        family(QUEUE_GRAPHICS | QUEUE_TRANSFER, 1, true),
        family(QUEUE_TRANSFER, 2, false),
    ];
    assert_eq!(
        QueueFamilyIndices::get(&families, 4),
        Err(QueueSelectError::NoTransferQueue)
    );
}
