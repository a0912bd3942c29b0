//! Pipeline behaviour: job intake, worker steps, shutdown liveness, and
//! dangling-job safety.

use voxel_core::arena::ChunkArena;
use voxel_core::chunk::{Chunk, MAX_MESH_INDICES, MAX_MESH_VERTICES};
use voxel_core::memory::{
    Allocator, MEMORY_PROPERTY_DEVICE_LOCAL, MEMORY_PROPERTY_HOST_COHERENT,
    MEMORY_PROPERTY_HOST_VISIBLE,
};
use voxel_core::meshing::{
    get_threads_count, JobQueue, MeshingThreadPool, RecvResult, StepResult, STAGING_BUFFER_BYTES,
};
use voxel_core::vertex::Vertex;
use voxel_core::world::ChunkPos;

fn staging() -> (Vec<Vertex>, Vec<u32>) {
    let v = Vertex { x: 0, y: 0, z: 0, red: 0, green: 0, blue: 0, light_modifier: 0 };
    (vec![v; MAX_MESH_VERTICES], vec![0u32; MAX_MESH_INDICES])
}

fn device_allocator() -> Allocator {
    Allocator::new(vec![
        MEMORY_PROPERTY_DEVICE_LOCAL,
        MEMORY_PROPERTY_HOST_VISIBLE | MEMORY_PROPERTY_HOST_COHERENT,
    ])
}

fn pool_with_workers(workers: usize) -> MeshingThreadPool {
    let mut pool = MeshingThreadPool::new(0b11, 16);
    pool.start_threads(workers, workers);
    pool
}

#[test]
fn threads_count_caps_at_transfer_queues() {
    assert_eq!(get_threads_count(1, 8), 1);
    assert_eq!(get_threads_count(4, 8), 4);
    assert_eq!(get_threads_count(8, 8), 7);
    assert_eq!(get_threads_count(8, 2), 2);
    assert_eq!(get_threads_count(16, 1), 1);
}

#[test]
fn job_queue_is_fifo_and_closable() {
    let mut queue = JobQueue::new();
    let a = voxel_core::arena::ChunkKey { index: 0, generation: 0 };
    let b = voxel_core::arena::ChunkKey { index: 1, generation: 0 };
    assert_eq!(queue.recv(), RecvResult::WouldBlock);
    queue.send(a);
    queue.send(b);
    queue.close();
    assert_eq!(queue.recv(), RecvResult::Job(a));
    assert_eq!(queue.recv(), RecvResult::Job(b));
    assert_eq!(queue.recv(), RecvResult::Closed);
    assert_eq!(queue.recv(), RecvResult::Closed);
}

#[test]
fn worker_meshes_chunk_and_signals_completion() {
    let mut arena = ChunkArena::new();
    let mut allocator = device_allocator();
    let mut pool = pool_with_workers(2);
    let (mut vertices, mut indices) = staging();

    let key = arena.insert(Chunk::new(ChunkPos { x: 0, y: 0, z: 0 }));
    pool.mesh_thread(key);
    let step = pool.worker_step(&mut arena, &mut allocator, 0, &mut vertices, &mut indices);
    assert_eq!(step, StepResult::Meshed);

    let done = pool.try_iter();
    assert_eq!(done.len(), 1);
    assert_eq!(done[0], key);
    let chunk = arena.remove(key).unwrap();
    assert!(chunk.buffer.is_some());
    assert!(chunk.vertices_count > 0);
    let buffer = chunk.buffer.unwrap();
    assert_eq!(
        buffer.size as usize,
        chunk.vertices_count * 16 + chunk.indices_count * 4
    );
    allocator.free(buffer);
}

#[test]
fn dangling_job_is_skipped_without_completion() {
    let mut arena = ChunkArena::new();
    let mut allocator = device_allocator();
    let mut pool = pool_with_workers(1);
    let (mut vertices, mut indices) = staging();

    let key = arena.insert(Chunk::new(ChunkPos { x: 1, y: 0, z: 0 }));
    pool.mesh_thread(key);
    // drop the only strong reference before the worker dequeues the job
    arena.remove(key);
    let step = pool.worker_step(&mut arena, &mut allocator, 0, &mut vertices, &mut indices);
    assert_eq!(step, StepResult::Skipped);
    assert_eq!(pool.try_iter().len(), 0);
}

#[test]
fn exit_all_with_queued_jobs_still_retires_every_worker() {
    let mut arena = ChunkArena::new();
    let mut allocator = device_allocator();
    let workers = 3;
    let mut pool = pool_with_workers(workers);
    let (mut vertices, mut indices) = staging();

    // submit a batch of jobs, then shut down before any completes
    let mut keys = Vec::new();
    for i in 0..5 {
        let key = arena.insert(Chunk::new(ChunkPos { x: i, y: 0, z: 0 }));
        pool.mesh_thread(key);
        keys.push(key);
    }
    pool.exit_all();

    // every worker keeps stepping until it observes the closed queue; no
    // step may block, and all workers retire
    let mut retired = 0;
    let mut steps = 0;
    let mut worker = 0;
    while retired < workers {
        let step = pool.worker_step(&mut arena, &mut allocator, worker, &mut vertices, &mut indices);
        assert!(step != StepResult::WouldBlock);
        if step == StepResult::Exited {
            retired += 1;
            worker += 1;
        }
        steps += 1;
        assert!(steps <= 5 + workers);
    }
    assert_eq!(retired, workers);
}

#[test]
fn failed_allocation_leaves_chunk_unmeshed() {
    let mut arena = ChunkArena::new();
    // no device-local memory type exists
    let mut allocator = Allocator::new(vec![
        MEMORY_PROPERTY_HOST_VISIBLE | MEMORY_PROPERTY_HOST_COHERENT,
    ]);
    let mut pool = pool_with_workers(1);
    let (mut vertices, mut indices) = staging();

    let key = arena.insert(Chunk::new(ChunkPos { x: 0, y: 1, z: 0 }));
    pool.mesh_thread(key);
    let step = pool.worker_step(&mut arena, &mut allocator, 0, &mut vertices, &mut indices);
    assert_eq!(
        step,
        StepResult::JobFailed(voxel_core::memory::AllocError::NoSuitableMemoryType)
    );
    // the job failed silently: no completion, chunk alive but un-meshed
    assert_eq!(pool.try_iter().len(), 0);
    let chunk = arena.remove(key).unwrap();
    assert!(chunk.buffer.is_none());
}

#[test]
fn exhausted_growth_fails_jobs_with_out_of_device_memory() {
    let mut arena = ChunkArena::new();
    let mut allocator = device_allocator();
    // drive the first pool's growth size past the point where another
    // doubling would leave u64's safe range
    allocator.pools[0].growth_size = voxel_core::memory::MAX_REQUEST_SIZE * 2;
    let mut pool = pool_with_workers(1);
    let (mut vertices, mut indices) = staging();

    let key = arena.insert(Chunk::new(ChunkPos { x: 2, y: 0, z: 2 }));
    pool.mesh_thread(key);
    let step = pool.worker_step(&mut arena, &mut allocator, 0, &mut vertices, &mut indices);
    assert_eq!(
        step,
        StepResult::JobFailed(voxel_core::memory::AllocError::OutOfDeviceMemory)
    );
    assert_eq!(pool.try_iter().len(), 0);
    let chunk = arena.remove(key).unwrap();
    assert!(chunk.buffer.is_none());
}

#[test]
fn exhausted_growth_fails_staging_creation() {
    let mut allocator = device_allocator();
    allocator.pools[1].growth_size = voxel_core::memory::MAX_REQUEST_SIZE * 2;
    let result = MeshingThreadPool::create_staging_block(&mut allocator, 0b11, 16);
    assert_eq!(result, Err(voxel_core::memory::AllocError::OutOfDeviceMemory));
}

#[test]
fn staging_block_covers_worst_case_mesh() {
    let mut allocator = device_allocator();
    let block = MeshingThreadPool::create_staging_block(&mut allocator, 0b11, 16).unwrap();
    assert_eq!(block.size, STAGING_BUFFER_BYTES);
    assert_eq!(block.memory_type_index, 1);
    assert!(block.size >= (MAX_MESH_VERTICES as u64) * 16 + (MAX_MESH_INDICES as u64) * 4);
    allocator.free(block);
}
