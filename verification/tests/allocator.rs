//! Allocator behaviour: round trips, coalescing, growth, alignment, and the
//! error taxonomy.

use voxel_core::memory::{
    AllocError, AllocRequirements, AllocUsage, Allocator, Chunk, Pool, MEMORY_PROPERTY_DEVICE_LOCAL,
    MEMORY_PROPERTY_HOST_COHERENT, MEMORY_PROPERTY_HOST_VISIBLE, MIN_ALLOC_SIZE,
};

fn device_like_types() -> Vec<u32> {
    vec![
        MEMORY_PROPERTY_DEVICE_LOCAL,
        MEMORY_PROPERTY_HOST_VISIBLE | MEMORY_PROPERTY_HOST_COHERENT,
    ]
}

#[test]
fn alloc_free_round_trip_preserves_free_bytes_and_chunks() {
    let mut pool = Pool::new(0);
    // first allocation grows the pool by one chunk
    let first = pool.allocate(1024, 16);
    let chunks_after_growth = pool.chunks.len();
    let free_after_growth = pool.count_free_bytes();
    pool.free(first);
    // a request that fits the existing chunk, then its free, is a no-op
    let block = pool.allocate(4096, 64);
    pool.free(block);
    assert_eq!(pool.count_free_bytes(), free_after_growth + 1024);
    assert_eq!(pool.chunks.len(), chunks_after_growth);
}

#[test]
fn live_blocks_never_overlap() {
    let mut pool = Pool::new(0);
    let a = pool.allocate(100, 1);
    let b = pool.allocate(200, 1);
    let c = pool.allocate(300, 1);
    assert_eq!(a.memory, b.memory);
    let disjoint = |x: &voxel_core::memory::Block, y: &voxel_core::memory::Block| {
        x.offset + x.size <= y.offset || y.offset + y.size <= x.offset
    };
    assert!(disjoint(&a, &b));
    assert!(disjoint(&b, &c));
    assert!(disjoint(&a, &c));
}

#[test]
fn freeing_adjacent_blocks_coalesces_into_one() {
    let mut pool = Pool::new(0);
    // three adjacent allocations at the start of one fresh chunk
    let a = pool.allocate(100, 1);
    let b = pool.allocate(200, 1);
    let c = pool.allocate(300, 1);
    assert_eq!(b.offset, a.offset + a.size);
    assert_eq!(c.offset, b.offset + b.size);
    // free the first and third, then the middle one
    pool.free(a);
    pool.free(c);
    pool.free(b);
    // a single free block spans the whole chunk again
    assert_eq!(pool.chunks.len(), 1);
    let chunk: &Chunk = &pool.chunks[0];
    assert_eq!(chunk.blocks.len(), 1);
    assert!(chunk.blocks[0].is_free);
    assert_eq!(chunk.blocks[0].offset, 0);
    assert_eq!(chunk.blocks[0].size, chunk.size);
}

#[test]
fn growth_size_becomes_next_power_of_two_of_large_request() {
    let mut pool = Pool::new(0);
    assert_eq!(pool.growth_size, MIN_ALLOC_SIZE);
    // request larger than the current growth size
    let request = 3 * MIN_ALLOC_SIZE;
    let block = pool.allocate(request, 1);
    // next power of two of 48 MiB is 64 MiB
    assert_eq!(pool.growth_size, 4 * MIN_ALLOC_SIZE);
    // frees never lower it
    pool.free(block);
    assert_eq!(pool.growth_size, 4 * MIN_ALLOC_SIZE);
}

#[test]
fn growth_doubles_when_request_fits_growth_size() {
    let mut pool = Pool::new(0);
    // the first growth doubles the unchanged initial growth size
    let a = pool.allocate(MIN_ALLOC_SIZE, 1);
    assert_eq!(pool.growth_size, 2 * MIN_ALLOC_SIZE);
    assert_eq!(pool.chunks.len(), 1);
    // fill the chunk, then force another growth: doubled again
    let b = pool.allocate(MIN_ALLOC_SIZE, 1);
    let c = pool.allocate(MIN_ALLOC_SIZE, 1);
    assert_eq!(pool.growth_size, 4 * MIN_ALLOC_SIZE);
    assert_eq!(pool.chunks.len(), 2);
    pool.free(a);
    pool.free(b);
    pool.free(c);
}

#[test]
fn returned_offsets_respect_alignment() {
    let mut pool = Pool::new(0);
    let a = pool.allocate(10, 1);
    let b = pool.allocate(10, 256);
    let c = pool.allocate(10, 4096);
    assert_eq!(a.offset % 1, 0);
    assert_eq!(b.offset % 256, 0);
    assert_eq!(c.offset % 4096, 0);
    assert_eq!(b.size, 10);
}

#[test]
fn allocator_resolves_usage_to_memory_type() {
    let mut allocator = Allocator::new(device_like_types());
    let device_local = allocator
        .allocate(AllocRequirements::new(100, 4, 0b11, AllocUsage::DeviceLocal))
        .unwrap();
    assert_eq!(device_local.memory_type_index, 0);
    let staging = allocator
        .allocate(AllocRequirements::new(100, 4, 0b11, AllocUsage::Staging))
        .unwrap();
    assert_eq!(staging.memory_type_index, 1);
    allocator.free(device_local);
    allocator.free(staging);
}

#[test]
fn type_bitmask_restricts_selection() {
    let types = vec![
        MEMORY_PROPERTY_DEVICE_LOCAL,
        MEMORY_PROPERTY_DEVICE_LOCAL,
    ];
    let mut allocator = Allocator::new(types);
    // bit 0 cleared: the second device-local type must be chosen
    let block = allocator
        .allocate(AllocRequirements::new(64, 4, 0b10, AllocUsage::DeviceLocal))
        .unwrap();
    assert_eq!(block.memory_type_index, 1);
    allocator.free(block);
}

#[test]
fn no_suitable_memory_type_is_reported() {
    let mut allocator = Allocator::new(vec![
        MEMORY_PROPERTY_HOST_VISIBLE | MEMORY_PROPERTY_HOST_COHERENT,
    ]);
    let result = allocator.allocate(AllocRequirements::new(100, 4, 0b1, AllocUsage::DeviceLocal));
    assert_eq!(result, Err(AllocError::NoSuitableMemoryType));
}

#[test]
fn free_all_tears_down_every_pool() {
    let mut allocator = Allocator::new(device_like_types());
    let block = allocator
        .allocate(AllocRequirements::new(100, 4, 0b11, AllocUsage::DeviceLocal))
        .unwrap();
    allocator.free(block);
    allocator.free_all();
    assert_eq!(allocator.pools.len(), 0);
}

#[test]
fn first_fit_reuses_freed_space() {
    let mut pool = Pool::new(0);
    let a = pool.allocate(1000, 1);
    let _b = pool.allocate(1000, 1);
    pool.free(a);
    // the freed range at offset 0 is the first fit for a smaller request
    let c = pool.allocate(500, 1);
    assert_eq!(c.offset, 0);
    assert_eq!(c.size, 500);
}
