//! The meshing pipeline: a fixed pool of workers pulling chunk-meshing jobs
//! from a closable intake queue, meshing into per-worker staging storage,
//! allocating a device-local geometry buffer, and handing completed chunks
//! back on a completion queue.
//!
//! The pipeline's decisions are a state machine from plain values to plain
//! values: the thread loop around it performs the blocking receive, the
//! device copy and the queue-idle wait, and hands the events back. Jobs are
//! weak chunk references (generation-tagged keys), so a chunk destroyed
//! while queued or in flight is skipped silently: resolving its key fails
//! and the job produces no completion.

use vstd::prelude::*;

use crate::arena::{ChunkArena, ChunkKey};
use crate::chunk::{pos_in_range, visible_face_count, MAX_MESH_INDICES, MAX_MESH_VERTICES};
use crate::memory::{type_suitable, AllocError, AllocRequirements, AllocUsage, Allocator, Block,
    block_live_in_allocator, MAX_REQUEST_SIZE, MEMORY_PROPERTY_DEVICE_LOCAL};
use crate::vertex::{Vertex, VERTEX_BYTES};

verus! {

/// Byte size of the vertex part of one worker's staging buffer: the greedy
/// mesher's vertex capacity at [`VERTEX_BYTES`] each.
pub const STAGING_BUFFER_SIZE_VERTICES: u64 = 4 * (3 * 17 * 256) * VERTEX_BYTES;

/// Byte size of the index part of one worker's staging buffer: the greedy
/// mesher's index capacity at four bytes each.
pub const STAGING_BUFFER_SIZE_INDICES: u64 = 6 * (3 * 17 * 256) * 4;

/// Byte size of one worker's persistently-mapped staging buffer: the
/// theoretical maximum vertex and index output of one chunk.
pub const STAGING_BUFFER_BYTES: u64 = STAGING_BUFFER_SIZE_VERTICES + STAGING_BUFFER_SIZE_INDICES;

/// The worker count the pipeline starts: all cores on small machines, all
/// but one on larger ones, and never more than the transfer-capable queues
/// the device exposes (each worker owns one dedicated queue).
pub open spec fn spec_threads_count(parallelism: int, transfer_queue_count: int) -> int {
    let meshing = if 1 <= parallelism <= 4 {
        parallelism
    } else {
        parallelism - 1
    };
    if meshing <= transfer_queue_count {
        meshing
    } else {
        transfer_queue_count
    }
}

/// See [`spec_threads_count`]; `parallelism` is the machine's available
/// parallelism as the platform reports it.
pub fn get_threads_count(parallelism: usize, transfer_queue_count: usize) -> (r: usize)
    requires
        parallelism >= 1,
    ensures
        r == spec_threads_count(parallelism as int, transfer_queue_count as int),
{
    let meshing = if parallelism <= 4 { parallelism } else { parallelism - 1 };
    if meshing <= transfer_queue_count {
        meshing
    } else {
        transfer_queue_count
    }
}

/// What a receive on the intake queue reports.
#[derive(Debug, Clone, Copy, PartialEq, Eq, Structural)]
pub enum RecvResult {
    /// The front job.
    Job(ChunkKey),
    /// The queue is closed and drained; the receiver should exit.
    Closed,
    /// The queue is open but empty; a blocking receiver would wait here.
    WouldBlock,
}

/// A closable multi-producer job queue: jobs are taken in arrival order, and
/// closing the queue wakes every blocked receiver — once closed and drained,
/// a receive reports `Closed` instead of blocking.
pub struct JobQueue {
    pub jobs: Vec<ChunkKey>,
    pub closed: bool,
}

/// What [`JobQueue::recv`] guarantees, relating the queue before and after.
pub open spec fn recv_post(pre: JobQueue, post: JobQueue, r: RecvResult) -> bool {
    if pre.jobs@.len() > 0 {
        &&& r == RecvResult::Job(pre.jobs@[0])
        &&& post.jobs@ == pre.jobs@.skip(1)
        &&& post.closed == pre.closed
    } else if pre.closed {
        r == RecvResult::Closed && post == pre
    } else {
        r == RecvResult::WouldBlock && post == pre
    }
}

impl JobQueue {
    /// An open, empty queue.
    pub fn new() -> (r: Self)
        ensures
            r.jobs@.len() == 0,
            !r.closed,
    {
        Self { jobs: Vec::new(), closed: false }
    }

    /// Enqueue a job at the back. Sending never fails, as on an unbounded
    /// channel.
    pub fn send(&mut self, key: ChunkKey)
        ensures
            final(self).jobs@ == old(self).jobs@.push(key),
            final(self).closed == old(self).closed,
    {
        self.jobs.push(key);
    }

    /// Close the queue: no receiver blocks from now on.
    pub fn close(&mut self)
        ensures
            final(self).jobs == old(self).jobs,
            final(self).closed,
    {
        self.closed = true;
    }

    /// Take the front job; on an empty queue report `Closed` when closed and
    /// `WouldBlock` otherwise.
    pub fn recv(&mut self) -> (r: RecvResult)
        ensures
            recv_post(*old(self), *final(self), r),
    {
        if self.jobs.len() > 0 {
            let key = self.jobs.remove(0);
            RecvResult::Job(key)
        } else if self.closed {
            RecvResult::Closed
        } else {
            RecvResult::WouldBlock
        }
    }
}

/// What one worker step did.
#[derive(Debug, Clone, Copy, PartialEq, Eq, Structural)]
pub enum StepResult {
    /// The queue is closed and drained; the worker retired.
    Exited,
    /// The queue is open but empty; the real worker blocks here.
    WouldBlock,
    /// The job's chunk was destroyed while queued; the job was dropped
    /// silently, with no completion event.
    Skipped,
    /// The chunk was meshed, its geometry buffer allocated and its key
    /// pushed on the completion queue.
    Meshed,
    /// The geometry allocation failed; the chunk is left un-meshed, with no
    /// completion event.
    JobFailed(AllocError),
}

/// The meshing pipeline state shared between the consumer and the workers:
/// worker retirement flags, intake and completion queues, the exit flag, and
/// the device constraints for geometry buffers.
pub struct MeshingThreadPool {
    /// One flag per worker; true once the worker has retired.
    pub exited: Vec<bool>,
    /// Intake: weak chunk references to mesh.
    pub in_queue: JobQueue,
    /// Completions: chunks whose geometry upload has finished.
    pub out_queue: Vec<ChunkKey>,
    /// The shutdown flag.
    pub exit: bool,
    /// Memory-type bitmask the device reports for vertex/index buffers.
    pub buffer_memory_type_bits: u32,
    /// Alignment the device requires of vertex/index buffers.
    pub buffer_alignment: u64,
}

/// Every live chunk of the arena is well-formed and its position is small
/// enough to mesh.
pub open spec fn arena_chunks_ok(arena: ChunkArena) -> bool {
    forall|k: ChunkKey| #[trigger] arena.live(k)
        ==> arena.chunk_at(k).wf() && pos_in_range(arena.chunk_at(k).pos)
}

/// What one worker step guarantees about the pipeline state and the chunk
/// arena; the allocator's part is stated on [`MeshingThreadPool::worker_step`]
/// itself.
pub open spec fn worker_step_post(
    pre: MeshingThreadPool,
    arena_pre: ChunkArena,
    post: MeshingThreadPool,
    arena_post: ChunkArena,
    worker: int,
    r: StepResult,
) -> bool {
    &&& post.exit == pre.exit
    &&& post.in_queue.closed == pre.in_queue.closed
    &&& post.buffer_memory_type_bits == pre.buffer_memory_type_bits
    &&& post.buffer_alignment == pre.buffer_alignment
    &&& match r {
        StepResult::Exited => {
            &&& pre.in_queue.jobs@.len() == 0
            &&& pre.in_queue.closed
            &&& post.exited@ == pre.exited@.update(worker, true)
            &&& post.in_queue == pre.in_queue
            &&& post.out_queue == pre.out_queue
            &&& arena_post == arena_pre
        }
        StepResult::WouldBlock => {
            &&& pre.in_queue.jobs@.len() == 0
            &&& !pre.in_queue.closed
            &&& post == pre
            &&& arena_post == arena_pre
        }
        StepResult::Skipped => {
            &&& pre.in_queue.jobs@.len() > 0
            &&& !arena_pre.live(pre.in_queue.jobs@[0])
            &&& post.in_queue.jobs@ == pre.in_queue.jobs@.skip(1)
            &&& post.out_queue == pre.out_queue
            &&& post.exited == pre.exited
            &&& arena_post == arena_pre
        }
        StepResult::Meshed => {
            &&& pre.in_queue.jobs@.len() > 0
            &&& arena_pre.live(pre.in_queue.jobs@[0])
            &&& post.in_queue.jobs@ == pre.in_queue.jobs@.skip(1)
            &&& post.out_queue@ == pre.out_queue@.push(pre.in_queue.jobs@[0])
            &&& post.exited == pre.exited
            &&& arena_post.live(pre.in_queue.jobs@[0])
            &&& arena_post.chunk_at(pre.in_queue.jobs@[0]).buffer is Some
            &&& arena_post.chunk_at(pre.in_queue.jobs@[0]).pos
                == arena_pre.chunk_at(pre.in_queue.jobs@[0]).pos
            &&& arena_post.chunk_at(pre.in_queue.jobs@[0]).blocks
                == arena_pre.chunk_at(pre.in_queue.jobs@[0]).blocks
            &&& ({
                let c = arena_post.chunk_at(pre.in_queue.jobs@[0]);
                &&& c.vertices_count % 4 == 0
                &&& c.indices_count == c.vertices_count / 4 * 6
                &&& c.vertices_count <= MAX_MESH_VERTICES
                &&& (c.vertices_count > 0 <==> visible_face_count(c.blocks@) > 0)
                &&& c.buffer->Some_0.size as int == (if c.vertices_count == 0 {
                        1int
                    } else {
                        (c.vertices_count as int) * (VERTEX_BYTES as int)
                            + (c.indices_count as int) * 4
                    })
            })
            &&& forall|k: ChunkKey| #[trigger] arena_pre.live(k) && k != pre.in_queue.jobs@[0]
                    ==> arena_post.live(k) && arena_post.chunk_at(k) == arena_pre.chunk_at(k)
            &&& forall|k: ChunkKey| #[trigger] arena_post.live(k)
                    ==> arena_pre.live(k)
        }
        StepResult::JobFailed(e) => {
            &&& pre.in_queue.jobs@.len() > 0
            &&& arena_pre.live(pre.in_queue.jobs@[0])
            &&& (e == AllocError::NoSuitableMemoryType || e == AllocError::OutOfDeviceMemory)
            &&& post.in_queue.jobs@ == pre.in_queue.jobs@.skip(1)
            &&& post.out_queue == pre.out_queue
            &&& post.exited == pre.exited
            &&& arena_post.live(pre.in_queue.jobs@[0])
            &&& arena_post.chunk_at(pre.in_queue.jobs@[0]).buffer is None
            &&& arena_post.chunk_at(pre.in_queue.jobs@[0]).pos
                == arena_pre.chunk_at(pre.in_queue.jobs@[0]).pos
            &&& arena_post.chunk_at(pre.in_queue.jobs@[0]).blocks
                == arena_pre.chunk_at(pre.in_queue.jobs@[0]).blocks
            &&& forall|k: ChunkKey| #[trigger] arena_pre.live(k) && k != pre.in_queue.jobs@[0]
                    ==> arena_post.live(k) && arena_post.chunk_at(k) == arena_pre.chunk_at(k)
            &&& forall|k: ChunkKey| #[trigger] arena_post.live(k)
                    ==> arena_pre.live(k)
        }
    }
}

impl MeshingThreadPool {
    /// A pipeline with no workers started and both queues empty.
    /// `buffer_memory_type_bits` and `buffer_alignment` are the device's
    /// constraints for vertex/index buffers, handed in as plain values.
    pub fn new(buffer_memory_type_bits: u32, buffer_alignment: u64) -> (r: Self)
        ensures
            r.exited@.len() == 0,
            r.in_queue.jobs@.len() == 0,
            !r.in_queue.closed,
            r.out_queue@.len() == 0,
            !r.exit,
            r.buffer_memory_type_bits == buffer_memory_type_bits,
            r.buffer_alignment == buffer_alignment,
    {
        Self {
            exited: Vec::new(),
            in_queue: JobQueue::new(),
            out_queue: Vec::new(),
            exit: false,
            buffer_memory_type_bits,
            buffer_alignment,
        }
    }

    /// Record the workers the thread loop starts: the available parallelism
    /// capped by the device's transfer-capable queue count.
    pub fn start_threads(&mut self, parallelism: usize, transfer_queue_count: usize)
        requires
            parallelism >= 1,
        ensures
            final(self).exited@.len()
                == spec_threads_count(parallelism as int, transfer_queue_count as int),
            forall|w: int| 0 <= w < final(self).exited@.len() ==> !(#[trigger] final(self).exited@[w]),
            final(self).in_queue == old(self).in_queue,
            final(self).out_queue == old(self).out_queue,
            final(self).exit == old(self).exit,
            final(self).buffer_memory_type_bits == old(self).buffer_memory_type_bits,
            final(self).buffer_alignment == old(self).buffer_alignment,
    {
        let count = get_threads_count(parallelism, transfer_queue_count);
        let mut exited: Vec<bool> = Vec::new();
        let mut i: usize = 0;
        while i < count
            invariant
                0 <= i <= count,
                exited@.len() == i,
                forall|w: int| 0 <= w < i ==> !(#[trigger] exited@[w]),
            decreases count - i,
        {
            exited.push(false);
            i = i + 1;
        }
        self.exited = exited;
    }

    /// Allocate one worker's persistently-mapped staging block: host-visible
    /// memory sized to the theoretical maximum mesh output of one chunk.
    /// `staging_memory_type_bits` is the device's bitmask for staging
    /// buffers. Succeeds exactly when some memory type is host-visible and
    /// host-coherent under that bitmask and the allocator can still grow.
    pub fn create_staging_block(
        allocator: &mut Allocator,
        staging_memory_type_bits: u32,
        staging_alignment: u64,
    ) -> (r: Result<Block, AllocError>)
        requires
            old(allocator).wf(),
            1 <= staging_alignment <= MAX_REQUEST_SIZE,
        ensures
            final(allocator).wf(),
            ({
                let suitable = exists|j: int|
                    type_suitable(
                        old(allocator).memory_types@,
                        crate::memory::MEMORY_PROPERTY_HOST_VISIBLE
                            | crate::memory::MEMORY_PROPERTY_HOST_COHERENT,
                        staging_memory_type_bits,
                        j,
                    );
                &&& (r is Ok <==> old(allocator).can_grow() && suitable)
                &&& (r == Err::<Block, AllocError>(AllocError::OutOfDeviceMemory)
                        <==> !old(allocator).can_grow())
                &&& (r == Err::<Block, AllocError>(AllocError::NoSuitableMemoryType)
                        <==> old(allocator).can_grow() && !suitable)
            }),
            r is Ok ==> r->Ok_0.size == STAGING_BUFFER_BYTES
                && block_live_in_allocator(*final(allocator), r->Ok_0),
            r is Err ==> *final(allocator) == *old(allocator),
    {
        if !allocator.can_grow_now() {
            return Err(AllocError::OutOfDeviceMemory);
        }
        let result = allocator.allocate(AllocRequirements::new(
            STAGING_BUFFER_BYTES,
            staging_alignment,
            staging_memory_type_bits,
            AllocUsage::Staging,
        ));
        proof {
            assert(Allocator::spec_properties(AllocUsage::Staging)
                == crate::memory::MEMORY_PROPERTY_HOST_VISIBLE
                    | crate::memory::MEMORY_PROPERTY_HOST_COHERENT);
        }
        result
    }

    /// Enqueue a chunk-meshing job: a weak reference to the chunk.
    pub fn mesh_thread(&mut self, chunk: ChunkKey)
        ensures
            final(self).in_queue.jobs@ == old(self).in_queue.jobs@.push(chunk),
            final(self).in_queue.closed == old(self).in_queue.closed,
            final(self).out_queue == old(self).out_queue,
            final(self).exited == old(self).exited,
            final(self).exit == old(self).exit,
            final(self).buffer_memory_type_bits == old(self).buffer_memory_type_bits,
            final(self).buffer_alignment == old(self).buffer_alignment,
    {
        self.in_queue.send(chunk);
    }

    /// Begin shutdown: raise the exit flag and close the intake queue so no
    /// worker can remain blocked on receive. The thread loop joins the
    /// workers; jobs already in flight finish naturally.
    pub fn exit_all(&mut self)
        ensures
            final(self).exit,
            final(self).in_queue.closed,
            final(self).in_queue.jobs == old(self).in_queue.jobs,
            final(self).out_queue == old(self).out_queue,
            final(self).exited == old(self).exited,
            final(self).buffer_memory_type_bits == old(self).buffer_memory_type_bits,
            final(self).buffer_alignment == old(self).buffer_alignment,
    {
        self.exit = true;
        self.in_queue.close();
    }

    /// Drain the completion queue without blocking, in completion order.
    pub fn try_iter(&mut self) -> (r: Vec<ChunkKey>)
        ensures
            r == old(self).out_queue,
            final(self).out_queue@.len() == 0,
            final(self).in_queue == old(self).in_queue,
            final(self).exited == old(self).exited,
            final(self).exit == old(self).exit,
            final(self).buffer_memory_type_bits == old(self).buffer_memory_type_bits,
            final(self).buffer_alignment == old(self).buffer_alignment,
    {
        let mut drained: Vec<ChunkKey> = Vec::new();
        core::mem::swap(&mut drained, &mut self.out_queue);
        drained
    }

    /// One step of worker `worker`: receive a job, resolve its weak
    /// reference, and on success mesh the chunk into the worker's staging
    /// storage, allocate the device-local geometry buffer sized to the real
    /// (not worst-case) output, and push the completion. A dead reference is
    /// dropped silently. On a closed, drained queue the worker retires.
    ///
    /// A live job is owed success: it is meshed and completed unless no
    /// device memory type suits vertex/index buffers, or the allocator's
    /// growth arithmetic has reached its ceiling (the model's exhausted
    /// device memory) — then the job fails with the matching error and the
    /// chunk is left un-meshed.
    ///
    /// The real worker performs the staging-to-device copy and waits for its
    /// queue to go idle between the allocation and the completion signal, so
    /// a completed key implies fully uploaded geometry.
    pub fn worker_step(
        &mut self,
        arena: &mut ChunkArena,
        allocator: &mut Allocator,
        worker: usize,
        vertices: &mut Vec<Vertex>,
        indices: &mut Vec<u32>,
    ) -> (r: StepResult)
        requires
            worker < old(self).exited@.len(),
            old(arena).wf(),
            arena_chunks_ok(*old(arena)),
            old(allocator).wf(),
            1 <= old(self).buffer_alignment <= MAX_REQUEST_SIZE,
            old(vertices).len() >= MAX_MESH_VERTICES,
            old(indices).len() >= MAX_MESH_INDICES,
            old(vertices).len() <= u32::MAX,
        ensures
            worker_step_post(*old(self), *old(arena), *final(self), *final(arena), worker as int, r),
            final(arena).wf(),
            arena_chunks_ok(*final(arena)),
            final(allocator).wf(),
            final(allocator).memory_types == old(allocator).memory_types,
            final(allocator).pools@.len() == old(allocator).pools@.len(),
            forall|b: Block| #[trigger] block_live_in_allocator(*old(allocator), b)
                ==> block_live_in_allocator(*final(allocator), b),
            ({
                let live_job = old(self).in_queue.jobs@.len() > 0
                    && old(arena).live(old(self).in_queue.jobs@[0]);
                let suitable = exists|j: int|
                    type_suitable(
                        old(allocator).memory_types@,
                        MEMORY_PROPERTY_DEVICE_LOCAL,
                        old(self).buffer_memory_type_bits,
                        j,
                    );
                &&& (r == StepResult::Meshed
                        <==> live_job && old(allocator).can_grow() && suitable)
                &&& (r == StepResult::JobFailed(AllocError::OutOfDeviceMemory)
                        <==> live_job && !old(allocator).can_grow())
                &&& (r == StepResult::JobFailed(AllocError::NoSuitableMemoryType)
                        <==> live_job && old(allocator).can_grow() && !suitable)
            }),
            r == StepResult::Meshed ==> ({
                let key = old(self).in_queue.jobs@[0];
                &&& block_live_in_allocator(*final(allocator), final(arena).chunk_at(key).buffer->Some_0)
                &&& !block_live_in_allocator(*old(allocator), final(arena).chunk_at(key).buffer->Some_0)
            }),
            r != StepResult::Meshed ==> *final(allocator) == *old(allocator),
            final(vertices).len() == old(vertices).len(),
            final(indices).len() == old(indices).len(),
    {
        let received = self.in_queue.recv();
        match received {
            RecvResult::Closed => {
                self.exited.set(worker, true);
                StepResult::Exited
            }
            RecvResult::WouldBlock => StepResult::WouldBlock,
            RecvResult::Job(key) => {
                let taken = arena.take_for_update(key);
                match taken {
                    None => StepResult::Skipped,
                    Some(mut chunk) => {
                        chunk.mesh(vertices, indices);
                        if !allocator.can_grow_now() {
                            chunk.buffer = None;
                            arena.give_back(key, chunk);
                            return StepResult::JobFailed(AllocError::OutOfDeviceMemory);
                        }
                        let vertex_bytes = (chunk.vertices_count as u64) * VERTEX_BYTES;
                        let index_bytes = (chunk.indices_count as u64) * 4;
                        let byte_size = vertex_bytes + index_bytes;
                        let size = if byte_size == 0 { 1 } else { byte_size };
                        let requirements = AllocRequirements::new(
                            size,
                            self.buffer_alignment,
                            self.buffer_memory_type_bits,
                            AllocUsage::DeviceLocal,
                        );
                        match allocator.allocate(requirements) {
                            Ok(block) => {
                                proof {
                                    assert(old(self).in_queue.jobs@.len() > 0);
                                    assert(key == old(self).in_queue.jobs@[0]);
                                    assert(old(arena).live(key));
                                    assert(Allocator::spec_properties(AllocUsage::DeviceLocal)
                                        == MEMORY_PROPERTY_DEVICE_LOCAL);
                                    assert(requirements.memory_type_bits
                                        == old(self).buffer_memory_type_bits);
                                    assert(exists|j: int|
                                        type_suitable(
                                            old(allocator).memory_types@,
                                            MEMORY_PROPERTY_DEVICE_LOCAL,
                                            old(self).buffer_memory_type_bits,
                                            j,
                                        ));
                                }
                                chunk.buffer = Some(block);
                                arena.give_back(key, chunk);
                                self.out_queue.push(key);
                                StepResult::Meshed
                            }
                            Err(e) => {
                                proof {
                                    assert(e == AllocError::NoSuitableMemoryType);
                                    assert(Allocator::spec_properties(AllocUsage::DeviceLocal)
                                        == MEMORY_PROPERTY_DEVICE_LOCAL);
                                    assert(!exists|j: int|
                                        type_suitable(
                                            old(allocator).memory_types@,
                                            MEMORY_PROPERTY_DEVICE_LOCAL,
                                            old(self).buffer_memory_type_bits,
                                            j,
                                        ));
                                }
                                chunk.buffer = None;
                                arena.give_back(key, chunk);
                                StepResult::JobFailed(e)
                            }
                        }
                    }
                }
            }
        }
    }
}

/// Pipeline liveness: after shutdown has closed the intake queue, no worker
/// step blocks, and every step either consumes a job or retires a worker, so
/// the number of steps until every worker has retired is bounded by the
/// queued jobs plus the active workers — `exit_all` cannot lose the ability
/// to join a worker.
pub proof fn lemma_shutdown_liveness(
    pre: MeshingThreadPool,
    arena_pre: ChunkArena,
    post: MeshingThreadPool,
    arena_post: ChunkArena,
    worker: int,
    r: StepResult,
)
    requires
        worker_step_post(pre, arena_pre, post, arena_post, worker, r),
        pre.in_queue.closed,
        0 <= worker < pre.exited@.len(),
        !pre.exited@[worker],
    ensures
        r != StepResult::WouldBlock,
        shutdown_measure(post) < shutdown_measure(pre),
{
    match r {
        StepResult::Exited => {
            lemma_active_workers_update(pre.exited@, worker);
        }
        StepResult::WouldBlock => {
            assert(false);
        }
        _ => {
            assert(post.exited == pre.exited);
            assert(post.in_queue.jobs@.len() == pre.in_queue.jobs@.len() - 1);
        }
    }
}

/// Steps remaining until shutdown completes: queued jobs plus workers that
/// have not retired.
pub open spec fn shutdown_measure(pool: MeshingThreadPool) -> int {
    pool.in_queue.jobs@.len() + active_workers(pool.exited@)
}

/// Number of workers that have not retired.
pub open spec fn active_workers(exited: Seq<bool>) -> int
    decreases exited.len(),
{
    if exited.len() == 0 {
        0
    } else {
        active_workers(exited.drop_last()) + if exited.last() { 0int } else { 1int }
    }
}

/// Retiring an active worker lowers the active count by one.
pub proof fn lemma_active_workers_update(exited: Seq<bool>, worker: int)
    requires
        0 <= worker < exited.len(),
        !exited[worker],
    ensures
        active_workers(exited.update(worker, true)) == active_workers(exited) - 1,
    decreases exited.len(),
{
    if worker == exited.len() - 1 {
        assert(exited.update(worker, true).drop_last() =~= exited.drop_last());
    } else {
        lemma_active_workers_update(exited.drop_last(), worker);
        assert(exited.update(worker, true).drop_last() =~= exited.drop_last().update(worker, true));
        assert(exited.update(worker, true).last() == exited.last());
    }
}

/// Dangling-job safety: a job whose chunk was destroyed before the worker
/// dequeued it is dropped silently — the worker does not fail, the arena and
/// the completion queue are untouched, so no completion event is ever
/// produced for a destroyed chunk.
pub proof fn lemma_dangling_job_safety(
    pre: MeshingThreadPool,
    arena_pre: ChunkArena,
    post: MeshingThreadPool,
    arena_post: ChunkArena,
    worker: int,
    r: StepResult,
    key: ChunkKey,
)
    requires
        worker_step_post(pre, arena_pre, post, arena_post, worker, r),
        pre.in_queue.jobs@.len() > 0,
        pre.in_queue.jobs@[0] == key,
        !arena_pre.live(key),
    ensures
        r == StepResult::Skipped,
        post.out_queue == pre.out_queue,
        arena_post == arena_pre,
        post.in_queue.jobs@ == pre.in_queue.jobs@.skip(1),
{
}

} // verus!
