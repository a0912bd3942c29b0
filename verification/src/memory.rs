//! Sub-allocator for device memory.
//!
//! Device memory is handed out by the driver in coarse chunks; this module
//! subdivides those chunks into fine-grained, alignment-respecting blocks.
//! A [`Pool`] holds the chunks of one device memory type and grows lazily;
//! an [`Allocator`] resolves an allocation request to a memory type and
//! delegates to that type's pool.
//!
//! Each chunk's block list partitions the chunk's byte range `[0, size)`
//! exactly: blocks are ordered by offset, leave no gaps, and no two adjacent
//! blocks are both free (adjacent free blocks are coalesced on `free`).

use vstd::prelude::*;

verus! {

/// Byte size of the first chunk a pool allocates (16 MiB).
pub const MIN_ALLOC_SIZE: u64 = 1024 * 1024 * 16;

/// Largest request a pool accepts; keeps the growth arithmetic inside `u64`.
pub const MAX_REQUEST_SIZE: u64 = 0x2000_0000_0000_0000;

/// Largest growth size a pool may reach before further growth could overflow.
pub const MAX_GROWTH_SIZE: u64 = 0x4000_0000_0000_0000;

/// How an allocation will be used; resolved to a memory-property mask.
#[derive(Copy, Clone, Debug, PartialEq, Eq, Structural)]
pub enum AllocUsage {
    /// Host-visible and host-coherent memory, the source of upload copies.
    Staging,
    /// Memory local to the graphics device.
    DeviceLocal,
}

/// An allocation request: byte size, required alignment, intended usage, and
/// the memory-type bitmask the device reported for the resource.
#[derive(Copy, Clone, Debug)]
pub struct AllocRequirements {
    pub size: u64,
    pub alignment: u64,
    pub usage: AllocUsage,
    pub memory_type_bits: u32,
}

impl AllocRequirements {
    pub fn new(size: u64, alignment: u64, memory_type_bits: u32, usage: AllocUsage) -> (r: Self)
        ensures
            r.size == size,
            r.alignment == alignment,
            r.memory_type_bits == memory_type_bits,
            r.usage == usage,
    {
        Self { size, alignment, usage, memory_type_bits }
    }
}

/// Why an allocation failed.
#[derive(Copy, Clone, Debug, PartialEq, Eq, Structural)]
pub enum AllocError {
    /// No device memory type satisfies both the property mask and the
    /// request's type bitmask; fatal for the requesting job.
    NoSuitableMemoryType,
    /// The underlying device allocation was exhausted; fatal for the
    /// requesting job. Raised by the device layer, never by the bookkeeping
    /// itself.
    OutOfDeviceMemory,
    /// A mapped range was mapped again; a caller-contract violation that the
    /// structure of this module prevents.
    MappingConflict,
    /// A handle whose chunk no longer exists; prevented structurally by the
    /// generation-tagged chunk arena.
    StaleHandle,
}

/// A sub-range of one chunk: either free, or handed out to a caller.
/// A copy of the in-use block doubles as the caller's handle; the caller
/// returns exactly this copy to `free`.
#[derive(Copy, Clone, Debug, PartialEq, Eq, Structural)]
pub struct Block {
    /// Handle of the chunk's device memory allocation.
    pub memory: u64,
    /// Index of the device memory type this block lives in.
    pub memory_type_index: u32,
    /// Byte offset of the block within its chunk.
    pub offset: u64,
    /// Byte size of the block.
    pub size: u64,
    /// Whether the block is available for allocation.
    pub is_free: bool,
}

impl Block {
    pub fn new(memory: u64, memory_type_index: u32, offset: u64, size: u64) -> (r: Self)
        ensures
            r == (Block { memory, memory_type_index, offset, size, is_free: true }),
    {
        Self { memory, memory_type_index, offset, size, is_free: true }
    }
}

/// Padding needed in front of `offset` so the payload starts aligned.
pub open spec fn pad_for(offset: u64, alignment: u64) -> int {
    if offset as int % alignment as int == 0 {
        0
    } else {
        alignment as int - offset as int % alignment as int
    }
}

/// Whether free block `b` can satisfy a request of `size` aligned to
/// `alignment` once the alignment padding is accounted for.
pub open spec fn block_fits(b: Block, size: u64, alignment: u64) -> bool {
    b.is_free && b.size as int >= size as int + pad_for(b.offset, alignment)
}

/// `i` is the first-fit choice in `blocks` for the given request.
pub open spec fn is_first_fit(blocks: Seq<Block>, size: u64, alignment: u64, i: int) -> bool {
    &&& 0 <= i < blocks.len()
    &&& block_fits(blocks[i], size, alignment)
    &&& forall|j: int| 0 <= j < i ==> !block_fits(blocks[j], size, alignment)
}

/// Some free block of `blocks` can satisfy the request.
pub open spec fn has_fit(blocks: Seq<Block>, size: u64, alignment: u64) -> bool {
    exists|i: int| is_first_fit(blocks, size, alignment, i)
}

/// The block lists a chunk may hold: at least one block, blocks partition
/// `[0, size)` in offset order, every block is non-empty, carries the chunk's
/// memory handle and type index, and no two adjacent blocks are both free.
pub open spec fn wf_blocks(blocks: Seq<Block>, memory: u64, memory_type_index: u32, size: u64) -> bool {
    &&& blocks.len() >= 1
    &&& blocks[0].offset == 0
    &&& blocks[blocks.len() - 1].offset + blocks[blocks.len() - 1].size == size
    &&& forall|i: int| 0 <= i < blocks.len() - 1
            ==> #[trigger] blocks[i + 1].offset == blocks[i].offset + blocks[i].size
    &&& forall|i: int| 0 <= i < blocks.len() ==> #[trigger] blocks[i].size >= 1
    &&& forall|i: int| 0 <= i < blocks.len()
            ==> ((#[trigger] blocks[i]).memory == memory
                && blocks[i].memory_type_index == memory_type_index)
    &&& forall|i: int| 0 <= i < blocks.len() - 1
            ==> !(#[trigger] blocks[i].is_free && blocks[i + 1].is_free)
}

/// Total number of free bytes in a block list.
pub open spec fn free_bytes(blocks: Seq<Block>) -> int
    decreases blocks.len(),
{
    if blocks.len() == 0 {
        0
    } else {
        free_bytes(blocks.drop_last()) + if blocks.last().is_free { blocks.last().size as int } else { 0 }
    }
}

/// In a well-formed block list, earlier blocks end no later than later
/// blocks begin: byte ranges of distinct blocks never overlap.
pub proof fn lemma_block_order(blocks: Seq<Block>, memory: u64, memory_type_index: u32, size: u64, i: int, j: int)
    requires
        wf_blocks(blocks, memory, memory_type_index, size),
        0 <= i < j < blocks.len(),
    ensures
        blocks[i].offset + blocks[i].size <= blocks[j].offset,
        blocks[i].offset < blocks[j].offset,
    decreases j - i,
{
    if j == i + 1 {
        assert(blocks[i + 1].offset == blocks[i].offset + blocks[i].size);
        assert(blocks[i].size >= 1);
    } else {
        lemma_block_order(blocks, memory, memory_type_index, size, i, j - 1);
        assert(blocks[(j - 1) + 1].offset == blocks[j - 1].offset + blocks[j - 1].size);
        assert(blocks[j - 1].size >= 1);
    }
}

/// Every block of a well-formed list lies inside the chunk's byte range.
pub proof fn lemma_block_in_range(blocks: Seq<Block>, memory: u64, memory_type_index: u32, size: u64, i: int)
    requires
        wf_blocks(blocks, memory, memory_type_index, size),
        0 <= i < blocks.len(),
    ensures
        blocks[i].offset + blocks[i].size <= size,
        blocks[i].offset < size,
    decreases blocks.len() - i,
{
    if i == blocks.len() - 1 {
        assert(blocks[i].size >= 1);
    } else {
        lemma_block_in_range(blocks, memory, memory_type_index, size, i + 1);
        assert(blocks[i + 1].offset == blocks[i].offset + blocks[i].size);
        assert(blocks[i].size >= 1);
    }
}

/// Adding the alignment padding to an offset lands on an aligned offset.
pub proof fn lemma_pad_aligns(offset: u64, alignment: u64)
    requires
        alignment >= 1,
    ensures
        (offset as int + pad_for(offset, alignment)) % alignment as int == 0,
{
    let o = offset as int;
    let a = alignment as int;
    vstd::arithmetic::div_mod::lemma_fundamental_div_mod(o, a);
    if o % a == 0 {
        vstd::arithmetic::div_mod::lemma_mod_multiples_vanish(o / a, 0, a);
        assert(a * (o / a) + 0 == o + pad_for(offset, alignment));
    } else {
        vstd::arithmetic::div_mod::lemma_mod_multiples_vanish(o / a + 1, 0, a);
        assert(a * (o / a + 1) + 0 == o + pad_for(offset, alignment)) by {
            assert(a * (o / a + 1) == a * (o / a) + a) by (nonlinear_arith);
        }
    }
    assert(0int % a == 0);
}

/// The in-use block carved out of free block `b` by a first-fit allocation.
pub open spec fn carved_block(b: Block, size: u64, alignment: u64) -> Block {
    Block {
        memory: b.memory,
        memory_type_index: b.memory_type_index,
        offset: (b.offset + pad_for(b.offset, alignment)) as u64,
        size,
        is_free: false,
    }
}

/// What a first-fit allocation leaves in place of free block `b`: an optional
/// free padding block, the in-use block, and an optional free remainder.
pub open spec fn split_blocks(b: Block, size: u64, alignment: u64) -> Seq<Block> {
    let pad = pad_for(b.offset, alignment);
    let rest = b.size as int - pad - size as int;
    let pre: Seq<Block> = if pad > 0 {
        seq![Block { memory: b.memory, memory_type_index: b.memory_type_index, offset: b.offset, size: pad as u64, is_free: true }]
    } else {
        seq![]
    };
    let post: Seq<Block> = if rest > 0 {
        seq![Block {
            memory: b.memory,
            memory_type_index: b.memory_type_index,
            offset: (b.offset + pad + size) as u64,
            size: rest as u64,
            is_free: true,
        }]
    } else {
        seq![]
    };
    pre + seq![carved_block(b, size, alignment)] + post
}

/// The block list after a first-fit allocation at index `i`.
pub open spec fn alloc_result(blocks: Seq<Block>, size: u64, alignment: u64, i: int) -> Seq<Block> {
    blocks.take(i) + split_blocks(blocks[i], size, alignment) + blocks.skip(i + 1)
}

/// Free bytes add up over concatenation.
pub proof fn lemma_free_bytes_concat(a: Seq<Block>, b: Seq<Block>)
    ensures
        free_bytes(a + b) == free_bytes(a) + free_bytes(b),
    decreases b.len(),
{
    if b.len() == 0 {
        assert(a + b =~= a);
    } else {
        lemma_free_bytes_concat(a, b.drop_last());
        assert((a + b).drop_last() =~= a + b.drop_last());
        assert((a + b).last() == b.last());
    }
}

/// Effect of a first-fit split at index `i`: the result is well-formed, the
/// free byte count drops by exactly the allocated size, every in-use block is
/// kept, and the only new in-use block is the carved one.
#[verifier::rlimit(100)]
pub proof fn lemma_alloc_result(
    blocks: Seq<Block>,
    memory: u64,
    memory_type_index: u32,
    csize: u64,
    size: u64,
    alignment: u64,
    i: int,
)
    requires
        wf_blocks(blocks, memory, memory_type_index, csize),
        is_first_fit(blocks, size, alignment, i),
        1 <= size <= MAX_REQUEST_SIZE,
        1 <= alignment <= MAX_REQUEST_SIZE,
        csize <= MAX_GROWTH_SIZE,
    ensures
        wf_blocks(alloc_result(blocks, size, alignment, i), memory, memory_type_index, csize),
        free_bytes(alloc_result(blocks, size, alignment, i)) == free_bytes(blocks) - size,
        forall|k: int| 0 <= k < blocks.len() && !(#[trigger] blocks[k]).is_free
            ==> alloc_result(blocks, size, alignment, i).contains(blocks[k]),
        forall|k: int|
            0 <= k < alloc_result(blocks, size, alignment, i).len()
                && !(#[trigger] alloc_result(blocks, size, alignment, i)[k]).is_free
            ==> blocks.contains(alloc_result(blocks, size, alignment, i)[k])
                || alloc_result(blocks, size, alignment, i)[k] == carved_block(blocks[i], size, alignment),
        alloc_result(blocks, size, alignment, i).contains(carved_block(blocks[i], size, alignment)),
        forall|k: int| 0 <= k < blocks.len() && !(#[trigger] blocks[k]).is_free
            ==> blocks[k].offset != carved_block(blocks[i], size, alignment).offset,
{
    let b = blocks[i];
    let pad = pad_for(b.offset, alignment);
    let rest = b.size as int - pad - size as int;
    let split = split_blocks(b, size, alignment);
    let new = alloc_result(blocks, size, alignment, i);
    let p: int = if pad > 0 { 1 } else { 0 };
    let q: int = if rest > 0 { 1 } else { 0 };
    lemma_block_in_range(blocks, memory, memory_type_index, csize, i);
    assert(0 <= pad < alignment);
    assert(split.len() == p + 1 + q);
    assert(new.len() == blocks.len() + p + q);

    // index layout of the new list
    assert(forall|k: int| 0 <= k < i ==> #[trigger] new[k] == blocks[k]);
    assert(forall|k: int| 0 <= k < split.len() ==> #[trigger] new[i + k] == split[k]);
    assert(forall|k: int| i < k < blocks.len() ==> #[trigger] new[k + p + q] == blocks[k]);

    // the split pieces partition the old block's byte range
    assert(split[p].offset == b.offset + pad && split[p].size == size && !split[p].is_free);
    assert(split[0].offset == b.offset);
    assert(split.last().offset + split.last().size == b.offset + b.size);

    // well-formedness of the new list
    assert forall|k: int| 0 <= k < new.len() - 1
        implies #[trigger] new[k + 1].offset == new[k].offset + new[k].size by {
        if k + 1 < i {
            assert(blocks[k + 1].offset == blocks[k].offset + blocks[k].size);
        } else if k + 1 == i {
            assert(blocks[k + 1].offset == blocks[k].offset + blocks[k].size);
            assert(new[k + 1] == split[0]);
        } else if k + 1 <= i + p + q {
            // inside the split
            assert(new[k] == split[k - i] && new[k + 1] == split[k + 1 - i]);
        } else if k == i + p + q {
            assert(new[k] == split.last());
            assert(new[k + 1] == blocks[i + 1]);
            assert(blocks[i + 1].offset == blocks[i].offset + blocks[i].size);
        } else {
            let m = k - p - q;
            assert(new[k] == blocks[m] && new[k + 1] == blocks[m + 1]);
            assert(blocks[m + 1].offset == blocks[m].offset + blocks[m].size);
        }
    }
    assert forall|k: int| 0 <= k < new.len() - 1
        implies !(#[trigger] new[k].is_free && new[k + 1].is_free) by {
        if i >= 1 {
            assert(!(blocks[i - 1].is_free && blocks[i].is_free));
        }
        if i + 1 < blocks.len() {
            assert(!(blocks[i].is_free && blocks[i + 1].is_free));
        }
        if k + 1 < i {
            assert(!(blocks[k].is_free && blocks[k + 1].is_free));
        } else if k + 1 == i {
            assert(new[k] == blocks[i - 1] && new[k + 1] == split[0]);
        } else if k + 1 <= i + p + q {
            assert(new[k] == split[k - i] && new[k + 1] == split[k + 1 - i]);
        } else if k == i + p + q {
            assert(new[k] == split.last() && new[k + 1] == blocks[i + 1]);
        } else {
            let m = k - p - q;
            assert(!(blocks[m].is_free && blocks[m + 1].is_free));
        }
    }
    assert forall|k: int| 0 <= k < new.len()
        implies #[trigger] new[k].size >= 1 && new[k].memory == memory
            && new[k].memory_type_index == memory_type_index by {
        if k < i {
            assert(new[k] == blocks[k]);
        } else if k <= i + p + q {
            assert(new[k] == split[k - i]);
        } else {
            assert(new[k] == blocks[k - p - q]);
        }
    }
    assert(new[0].offset == 0) by {
        if i > 0 {
            assert(new[0] == blocks[0]);
        } else {
            assert(new[0] == split[0]);
        }
    }
    assert(new[new.len() - 1].offset + new[new.len() - 1].size == csize) by {
        if i == blocks.len() - 1 {
            assert(new[new.len() - 1] == split.last());
        } else {
            assert(new[new.len() - 1] == blocks[blocks.len() - 1]);
        }
    }
    assert(wf_blocks(new, memory, memory_type_index, csize));

    // free byte accounting
    assert(blocks =~= blocks.take(i) + seq![b] + blocks.skip(i + 1));
    lemma_free_bytes_concat(blocks.take(i) + seq![b], blocks.skip(i + 1));
    lemma_free_bytes_concat(blocks.take(i), seq![b]);
    lemma_free_bytes_concat(blocks.take(i) + split, blocks.skip(i + 1));
    lemma_free_bytes_concat(blocks.take(i), split);
    assert(free_bytes(seq![b]) == b.size) by {
        assert(seq![b].drop_last() =~= Seq::<Block>::empty());
        assert(free_bytes(Seq::<Block>::empty()) == 0);
    }
    assert(free_bytes(split) == b.size - size) by {
        let pre_mid = split.take(p + 1);
        lemma_free_bytes_concat(pre_mid, split.skip(p + 1));
        assert(pre_mid + split.skip(p + 1) =~= split);
        assert(pre_mid.drop_last() =~= split.take(p));
        assert(free_bytes(Seq::<Block>::empty()) == 0);
        if pad > 0 {
            assert(split.take(p).drop_last() =~= Seq::<Block>::empty());
            assert(split.take(p).last() == split[0]);
            assert(free_bytes(split.take(p)) == pad);
        } else {
            assert(split.take(p) =~= Seq::<Block>::empty());
        }
        assert(pre_mid.last() == split[p]);
        assert(free_bytes(pre_mid) == pad);
        if rest > 0 {
            assert(split.skip(p + 1) =~= seq![split[p + 1]]);
            assert(seq![split[p + 1]].drop_last() =~= Seq::<Block>::empty());
            assert(free_bytes(split.skip(p + 1)) == rest);
        } else {
            assert(split.skip(p + 1) =~= Seq::<Block>::empty());
        }
    }

    // in-use blocks are kept, and the carved block is the only new one
    assert forall|k: int| 0 <= k < blocks.len() && !(#[trigger] blocks[k]).is_free
        implies new.contains(blocks[k]) by {
        if k < i {
            assert(new[k] == blocks[k]);
        } else {
            assert(k != i);
            assert(new[k + p + q] == blocks[k]);
        }
    }
    assert forall|k: int| 0 <= k < new.len() && !(#[trigger] new[k]).is_free
        implies blocks.contains(new[k]) || new[k] == carved_block(blocks[i], size, alignment) by {
        if k < i {
            assert(blocks[k] == new[k]);
        } else if k <= i + p + q {
            assert(new[k] == split[k - i]);
            assert(k == i + p);
        } else {
            assert(blocks[k - p - q] == new[k]);
        }
    }
    assert(new[i + p] == split[p]);
    assert(new.contains(carved_block(blocks[i], size, alignment)));
    assert forall|k: int| 0 <= k < blocks.len() && !(#[trigger] blocks[k]).is_free
        implies blocks[k].offset != carved_block(blocks[i], size, alignment).offset by {
        assert(k != i);
        if k < i {
            lemma_block_order(blocks, memory, memory_type_index, csize, k, i);
            assert(blocks[k].size >= 1);
        } else {
            lemma_block_order(blocks, memory, memory_type_index, csize, i, k);
        }
    }
}

/// In a well-formed block list, offsets identify blocks uniquely.
pub proof fn lemma_offset_unique(blocks: Seq<Block>, memory: u64, memory_type_index: u32, size: u64, i: int, j: int)
    requires
        wf_blocks(blocks, memory, memory_type_index, size),
        0 <= i < blocks.len(),
        0 <= j < blocks.len(),
        blocks[i].offset == blocks[j].offset,
    ensures
        i == j,
{
    if i < j {
        lemma_block_order(blocks, memory, memory_type_index, size, i, j);
    }
    if j < i {
        lemma_block_order(blocks, memory, memory_type_index, size, j, i);
    }
}

/// The block list after freeing the block at index `i`: the freed block is
/// merged with its free neighbours into a single free block spanning the
/// whole coalesced byte range.
pub open spec fn free_result(blocks: Seq<Block>, i: int) -> Seq<Block> {
    let lo = if i > 0 && blocks[i - 1].is_free { i - 1 } else { i };
    let hi = if i + 1 < blocks.len() && blocks[i + 1].is_free { i + 1 } else { i };
    let merged = Block {
        memory: blocks[i].memory,
        memory_type_index: blocks[i].memory_type_index,
        offset: blocks[lo].offset,
        size: (blocks[hi].offset + blocks[hi].size - blocks[lo].offset) as u64,
        is_free: true,
    };
    blocks.take(lo) + seq![merged] + blocks.skip(hi + 1)
}

/// Effect of freeing the in-use block at index `i`: the result is
/// well-formed, the free byte count rises by exactly the block's size, the
/// freed block is gone from the in-use blocks, and every other in-use block
/// is kept.
#[verifier::rlimit(100)]
pub proof fn lemma_free_result(blocks: Seq<Block>, memory: u64, memory_type_index: u32, csize: u64, i: int)
    requires
        wf_blocks(blocks, memory, memory_type_index, csize),
        0 <= i < blocks.len(),
        !blocks[i].is_free,
    ensures
        wf_blocks(free_result(blocks, i), memory, memory_type_index, csize),
        free_bytes(free_result(blocks, i)) == free_bytes(blocks) + blocks[i].size,
        forall|k: int| 0 <= k < free_result(blocks, i).len() && !(#[trigger] free_result(blocks, i)[k]).is_free
            ==> blocks.contains(free_result(blocks, i)[k]),
        forall|k: int| 0 <= k < blocks.len() && !(#[trigger] blocks[k]).is_free && k != i
            ==> free_result(blocks, i).contains(blocks[k]),
        forall|k: int| 0 <= k < free_result(blocks, i).len() && !(#[trigger] free_result(blocks, i)[k]).is_free
            ==> free_result(blocks, i)[k].offset != blocks[i].offset,
{
    let lo = if i > 0 && blocks[i - 1].is_free { i - 1 } else { i };
    let hi = if i + 1 < blocks.len() && blocks[i + 1].is_free { i + 1 } else { i };
    let new = free_result(blocks, i);
    let merged = new[lo];
    lemma_block_in_range(blocks, memory, memory_type_index, csize, hi);
    if lo < i {
        assert(blocks[(i - 1) + 1].offset == blocks[i - 1].offset + blocks[i - 1].size);
    }
    if hi > i {
        assert(blocks[i + 1].offset == blocks[i].offset + blocks[i].size);
    }
    assert(new.len() == blocks.len() - (hi - lo));
    assert(forall|k: int| 0 <= k < lo ==> #[trigger] new[k] == blocks[k]);
    assert(forall|k: int| lo < k < new.len() ==> #[trigger] new[k] == blocks[k + (hi - lo)]);
    assert(merged.offset == blocks[lo].offset);
    assert(merged.offset + merged.size == blocks[hi].offset + blocks[hi].size);
    assert(merged.size >= 1 && merged.size <= csize) by {
        if lo < hi {
            lemma_block_order(blocks, memory, memory_type_index, csize, lo, hi);
        }
        assert(blocks[hi].size >= 1);
        assert(blocks[hi].offset + blocks[hi].size <= csize);
    }

    // well-formedness
    assert forall|k: int| 0 <= k < new.len() - 1
        implies #[trigger] new[k + 1].offset == new[k].offset + new[k].size by {
        if k + 1 < lo {
            assert(blocks[k + 1].offset == blocks[k].offset + blocks[k].size);
        } else if k + 1 == lo {
            assert(blocks[k + 1].offset == blocks[k].offset + blocks[k].size);
        } else if k == lo {
            if hi + 1 < blocks.len() {
                assert(blocks[hi + 1].offset == blocks[hi].offset + blocks[hi].size);
                assert(new[k + 1] == blocks[hi + 1]);
            }
        } else {
            let m = k + (hi - lo);
            assert(new[k] == blocks[m] && new[k + 1] == blocks[m + 1]);
            assert(blocks[m + 1].offset == blocks[m].offset + blocks[m].size);
        }
    }
    assert forall|k: int| 0 <= k < new.len() - 1
        implies !(#[trigger] new[k].is_free && new[k + 1].is_free) by {
        if k + 1 < lo {
            assert(!(blocks[k].is_free && blocks[k + 1].is_free));
        } else if k + 1 == lo {
            // the block before the merged range is not free: if it were, the
            // range would have started one block earlier
            if lo == i - 1 {
                assert(!(blocks[i - 2].is_free && blocks[i - 1].is_free));
            }
        } else if k == lo {
            // the block after the merged range is not free
            if hi == i + 1 {
                assert(!(blocks[i + 1].is_free && blocks[i + 2].is_free));
            }
            assert(new[k + 1] == blocks[hi + 1]);
        } else {
            let m = k + (hi - lo);
            assert(!(blocks[m].is_free && blocks[m + 1].is_free));
        }
    }
    assert forall|k: int| 0 <= k < new.len()
        implies #[trigger] new[k].size >= 1 && new[k].memory == memory
            && new[k].memory_type_index == memory_type_index by {
        if k < lo {
            assert(new[k] == blocks[k]);
            assert(blocks[k].size >= 1);
            assert(blocks[k].memory == memory && blocks[k].memory_type_index == memory_type_index);
        } else if k == lo {
            assert(new[k] == merged);
            assert(merged.size >= 1);
            assert(blocks[i].memory == memory && blocks[i].memory_type_index == memory_type_index);
        } else {
            let m = k + (hi - lo);
            assert(new[k] == blocks[m]);
            assert(blocks[m].size >= 1);
            assert(blocks[m].memory == memory && blocks[m].memory_type_index == memory_type_index);
        }
    }
    assert(new[0].offset == 0) by {
        if lo > 0 {
            assert(new[0] == blocks[0]);
        } else {
            assert(new[0] == merged);
        }
    }
    assert(new[new.len() - 1].offset + new[new.len() - 1].size == csize) by {
        if hi == blocks.len() - 1 {
            assert(new[new.len() - 1] == merged);
        } else {
            assert(new[new.len() - 1] == blocks[blocks.len() - 1]);
        }
    }
    assert(wf_blocks(new, memory, memory_type_index, csize));

    // free byte accounting
    let middle = blocks.subrange(lo, hi + 1);
    assert(blocks =~= blocks.take(lo) + middle + blocks.skip(hi + 1));
    lemma_free_bytes_concat(blocks.take(lo) + middle, blocks.skip(hi + 1));
    lemma_free_bytes_concat(blocks.take(lo), middle);
    lemma_free_bytes_concat(blocks.take(lo) + seq![merged], blocks.skip(hi + 1));
    lemma_free_bytes_concat(blocks.take(lo), seq![merged]);
    assert(free_bytes(seq![merged]) == merged.size) by {
        assert(seq![merged].drop_last() =~= Seq::<Block>::empty());
        assert(free_bytes(Seq::<Block>::empty()) == 0);
    }
    assert(free_bytes(middle) == merged.size - blocks[i].size) by {
        assert(free_bytes(Seq::<Block>::empty()) == 0);
        let upto_i = middle.take(i - lo + 1);
        lemma_free_bytes_concat(upto_i, middle.skip(i - lo + 1));
        assert(upto_i + middle.skip(i - lo + 1) =~= middle);
        assert(upto_i.last() == blocks[i]);
        assert(upto_i.drop_last() =~= middle.take(i - lo));
        if lo < i {
            assert(middle.take(i - lo) =~= seq![blocks[lo]]);
            assert(seq![blocks[lo]].drop_last() =~= Seq::<Block>::empty());
            assert(free_bytes(middle.take(i - lo)) == blocks[lo].size);
        } else {
            assert(middle.take(i - lo) =~= Seq::<Block>::empty());
        }
        if hi > i {
            assert(middle.skip(i - lo + 1) =~= seq![blocks[hi]]);
            assert(seq![blocks[hi]].drop_last() =~= Seq::<Block>::empty());
            assert(free_bytes(middle.skip(i - lo + 1)) == blocks[hi].size);
        } else {
            assert(middle.skip(i - lo + 1) =~= Seq::<Block>::empty());
        }
        if lo < i {
            assert(blocks[(i - 1) + 1].offset == blocks[i - 1].offset + blocks[i - 1].size);
        }
        if hi > i {
            assert(blocks[i + 1].offset == blocks[i].offset + blocks[i].size);
        }
    }

    // in-use blocks
    assert forall|k: int| 0 <= k < new.len() && !(#[trigger] new[k]).is_free
        implies blocks.contains(new[k]) && new[k].offset != blocks[i].offset by {
        assert(k != lo);
        if k < lo {
            assert(new[k] == blocks[k]);
            lemma_block_order(blocks, memory, memory_type_index, csize, k, i);
        } else {
            assert(new[k] == blocks[k + (hi - lo)]);
            lemma_block_order(blocks, memory, memory_type_index, csize, i, k + (hi - lo));
        }
    }
    assert forall|k: int| 0 <= k < blocks.len() && !(#[trigger] blocks[k]).is_free && k != i
        implies new.contains(blocks[k]) by {
        if k < lo {
            assert(new[k] == blocks[k]);
        } else {
            assert(lo <= k <= hi ==> k == i);
            assert(new[k - (hi - lo)] == blocks[k]);
        }
    }
}

/// The first-fit index is unique.
pub proof fn lemma_first_fit_unique(blocks: Seq<Block>, size: u64, alignment: u64, i: int, j: int)
    requires
        is_first_fit(blocks, size, alignment, i),
        is_first_fit(blocks, size, alignment, j),
    ensures
        i == j,
{
    if i < j {
        assert(!block_fits(blocks[i], size, alignment));
    }
    if j < i {
        assert(!block_fits(blocks[j], size, alignment));
    }
}

/// One coarse device-memory allocation, subdivided into blocks.
pub struct Chunk {
    pub memory: u64,
    pub memory_type_index: u32,
    pub size: u64,
    pub blocks: Vec<Block>,
}

impl Chunk {
    /// The chunk's block list, for specifications.
    pub open spec fn blocks_view(self) -> Seq<Block> {
        self.blocks@
    }

    pub open spec fn spec_memory(self) -> u64 {
        self.memory
    }

    pub open spec fn spec_size(self) -> u64 {
        self.size
    }

    pub open spec fn spec_memory_type_index(self) -> u32 {
        self.memory_type_index
    }

    /// Chunk well-formedness: see [`wf_blocks`].
    pub open spec fn wf(self) -> bool {
        &&& wf_blocks(self.blocks@, self.memory, self.memory_type_index, self.size)
        &&& 1 <= self.size <= MAX_GROWTH_SIZE
    }

    /// A brand-new chunk: one free block spanning the whole byte range.
    pub fn new(memory: u64, size: u64, memory_type_index: u32) -> (r: Self)
        requires
            1 <= size <= MAX_GROWTH_SIZE,
        ensures
            r.wf(),
            r.spec_memory() == memory,
            r.spec_size() == size,
            r.spec_memory_type_index() == memory_type_index,
            r.blocks_view() =~= seq![Block { memory, memory_type_index, offset: 0, size, is_free: true }],
            free_bytes(r.blocks_view()) == size,
    {
        let block = Block::new(memory, memory_type_index, 0, size);
        let mut blocks: Vec<Block> = Vec::new();
        blocks.push(block);
        let r = Self { memory, memory_type_index, size, blocks };
        proof {
            assert(r.blocks@.drop_last() =~= Seq::<Block>::empty());
            assert(free_bytes(Seq::<Block>::empty()) == 0);
        }
        r
    }

    /// First-fit allocation: scan the blocks for the first free block that
    /// can hold `size` bytes once padded to `alignment`, and split it into an
    /// optional free padding block, the in-use block handed back, and an
    /// optional free remainder. Returns `None` exactly when no block fits;
    /// the chunk is then unchanged.
    #[verifier::rlimit(50)]
    pub fn allocate(&mut self, size: u64, alignment: u64) -> (r: Option<Block>)
        requires
            old(self).wf(),
            1 <= size <= MAX_REQUEST_SIZE,
            1 <= alignment <= MAX_REQUEST_SIZE,
        ensures
            final(self).wf(),
            final(self).memory == old(self).memory,
            final(self).size == old(self).size,
            final(self).memory_type_index == old(self).memory_type_index,
            r is None ==> !has_fit(old(self).blocks@, size, alignment) && *final(self) == *old(self),
            r is Some ==> has_fit(old(self).blocks@, size, alignment),
            forall|i: int| is_first_fit(old(self).blocks@, size, alignment, i) && r is Some
                ==> final(self).blocks@ == alloc_result(old(self).blocks@, size, alignment, i)
                    && r == Some(carved_block(old(self).blocks@[i], size, alignment)),
            match r {
                Some(blk) => {
                    &&& blk.size == size
                    &&& blk.offset as int % alignment as int == 0
                    &&& !blk.is_free
                    &&& blk.memory == old(self).memory
                    &&& blk.memory_type_index == old(self).memory_type_index
                    &&& blk.offset + blk.size <= old(self).size
                    &&& free_bytes(final(self).blocks@) == free_bytes(old(self).blocks@) - size
                    &&& forall|k: int| 0 <= k < old(self).blocks@.len() && !(#[trigger] old(self).blocks@[k]).is_free
                            ==> final(self).blocks@.contains(old(self).blocks@[k])
                    &&& forall|k: int| 0 <= k < final(self).blocks@.len() && !(#[trigger] final(self).blocks@[k]).is_free
                            ==> old(self).blocks@.contains(final(self).blocks@[k]) || final(self).blocks@[k] == blk
                    &&& forall|k: int| 0 <= k < old(self).blocks@.len() && !(#[trigger] old(self).blocks@[k]).is_free
                            ==> old(self).blocks@[k].offset != blk.offset
                }
                None => true,
            },
    {
        let n = self.blocks.len();
        let mut i: usize = 0;
        let mut fit: Option<usize> = None;
        while i < n
            invariant_except_break
                fit is None,
            invariant
                0 <= i <= n,
                n == self.blocks.len(),
                self.wf(),
                *self == *old(self),
                1 <= size <= MAX_REQUEST_SIZE,
                1 <= alignment <= MAX_REQUEST_SIZE,
                forall|j: int| 0 <= j < i ==> !block_fits(self.blocks@[j], size, alignment),
            ensures
                n == self.blocks.len(),
                *self == *old(self),
                match fit {
                    Some(j) => is_first_fit(self.blocks@, size, alignment, j as int),
                    None => forall|j: int| 0 <= j < n ==> !block_fits(self.blocks@[j], size, alignment),
                },
            decreases n - i,
        {
            let b = self.blocks[i];
            if b.is_free {
                let rem = b.offset % alignment;
                let pad = if rem == 0 { 0 } else { alignment - rem };
                if pad <= b.size && b.size - pad >= size {
                    fit = Some(i);
                    break;
                }
            }
            i = i + 1;
        }
        match fit {
            None => {
                assert(forall|j: int|
                    is_first_fit(self.blocks@, size, alignment, j)
                        ==> block_fits(self.blocks@[j], size, alignment));
                None
            }
            Some(i) => {
                let ghost old_blocks = self.blocks@;
                let b = self.blocks[i];
                proof {
                    lemma_block_in_range(self.blocks@, self.memory, self.memory_type_index, self.size, i as int);
                    lemma_pad_aligns(b.offset, alignment);
                    lemma_alloc_result(
                        self.blocks@,
                        self.memory,
                        self.memory_type_index,
                        self.size,
                        size,
                        alignment,
                        i as int,
                    );
                }
                let rem = b.offset % alignment;
                let pad = if rem == 0 { 0 } else { alignment - rem };
                let after = b.size - (size + pad);
                if after > 0 {
                    let post = Block::new(self.memory, self.memory_type_index, b.offset + pad + size, after);
                    self.blocks.insert(i + 1, post);
                }
                let carved = Block {
                    memory: self.memory,
                    memory_type_index: self.memory_type_index,
                    offset: b.offset + pad,
                    size,
                    is_free: false,
                };
                self.blocks.set(i, carved);
                if pad > 0 {
                    let pre = Block::new(self.memory, self.memory_type_index, b.offset, pad);
                    self.blocks.insert(i, pre);
                }
                proof {
                    assert(carved == carved_block(old_blocks[i as int], size, alignment));
                    assert(self.blocks@ =~= alloc_result(old_blocks, size, alignment, i as int));
                    assert forall|j: int| is_first_fit(old_blocks, size, alignment, j)
                        implies j == i as int by {
                        lemma_first_fit_unique(old_blocks, size, alignment, i as int, j);
                    }
                }
                Some(carved)
            }
        }
    }

    /// The handle `block` names a live allocation of this chunk: an in-use
    /// block at the same offset with the same size.
    pub open spec fn owns_block(self, block: Block) -> bool {
        exists|i: int|
            0 <= i < self.blocks@.len() && (#[trigger] self.blocks@[i]).offset == block.offset
                && !self.blocks@[i].is_free && self.blocks@[i].size == block.size
    }

    /// Release the block previously handed out as `block` and coalesce it
    /// with free neighbours: first merge the following free block in, then
    /// merge into a preceding free block, so one free block spans the whole
    /// coalesced range.
    #[verifier::rlimit(100)]
    pub fn free(&mut self, block: Block)
        requires
            old(self).wf(),
            old(self).owns_block(block),
        ensures
            final(self).wf(),
            final(self).memory == old(self).memory,
            final(self).size == old(self).size,
            final(self).memory_type_index == old(self).memory_type_index,
            forall|i: int|
                0 <= i < old(self).blocks@.len() && (#[trigger] old(self).blocks@[i]).offset == block.offset
                ==> final(self).blocks@ == free_result(old(self).blocks@, i),
            free_bytes(final(self).blocks@) == free_bytes(old(self).blocks@) + block.size,
            forall|k: int|
                0 <= k < final(self).blocks@.len() && !(#[trigger] final(self).blocks@[k]).is_free
                ==> old(self).blocks@.contains(final(self).blocks@[k])
                    && final(self).blocks@[k].offset != block.offset,
            forall|k: int|
                0 <= k < old(self).blocks@.len() && !(#[trigger] old(self).blocks@[k]).is_free
                    && old(self).blocks@[k].offset != block.offset
                ==> final(self).blocks@.contains(old(self).blocks@[k]),
    {
        let ghost old_blocks = self.blocks@;
        let n = self.blocks.len();
        let mut i: usize = 0;
        while self.blocks[i].offset != block.offset
            invariant
                0 <= i < n,
                n == self.blocks.len(),
                self.wf(),
                *self == *old(self),
                old(self).owns_block(block),
                forall|j: int| 0 <= j < i ==> (#[trigger] self.blocks@[j]).offset != block.offset,
            decreases n - i,
        {
            proof {
                let w = choose|w: int|
                    0 <= w < self.blocks@.len() && (#[trigger] self.blocks@[w]).offset == block.offset
                        && !self.blocks@[w].is_free && self.blocks@[w].size == block.size;
                assert(w > i);
            }
            i = i + 1;
        }
        proof {
            let w = choose|w: int|
                0 <= w < self.blocks@.len() && (#[trigger] self.blocks@[w]).offset == block.offset
                    && !self.blocks@[w].is_free && self.blocks@[w].size == block.size;
            lemma_offset_unique(self.blocks@, self.memory, self.memory_type_index, self.size, i as int, w);
            assert(!self.blocks@[i as int].is_free && self.blocks@[i as int].size == block.size);
            lemma_free_result(self.blocks@, self.memory, self.memory_type_index, self.size, i as int);
            lemma_block_in_range(self.blocks@, self.memory, self.memory_type_index, self.size, i as int);
        }
        let b = self.blocks[i];
        let next_free = i + 1 < self.blocks.len() && self.blocks[i + 1].is_free;
        let prev_free = i > 0 && self.blocks[i - 1].is_free;
        proof {
            if next_free {
                lemma_block_in_range(old_blocks, self.memory, self.memory_type_index, self.size, i + 1);
                assert(old_blocks[i + 1].offset == old_blocks[i as int].offset + old_blocks[i as int].size);
            }
            if prev_free {
                assert(old_blocks[(i - 1) + 1].offset
                    == old_blocks[i - 1].offset + old_blocks[i - 1].size);
            }
        }
        let lo_off = if prev_free { self.blocks[i - 1].offset } else { b.offset };
        let hi_end = if next_free {
            self.blocks[i + 1].offset + self.blocks[i + 1].size
        } else {
            b.offset + b.size
        };
        let merged = Block {
            memory: b.memory,
            memory_type_index: b.memory_type_index,
            offset: lo_off,
            size: hi_end - lo_off,
            is_free: true,
        };
        if next_free {
            self.blocks.remove(i + 1);
        }
        self.blocks.set(i, merged);
        if prev_free {
            self.blocks.remove(i - 1);
        }
        proof {
            assert(self.blocks@ =~= free_result(old_blocks, i as int));
            assert forall|j: int|
                0 <= j < old_blocks.len() && (#[trigger] old_blocks[j]).offset == block.offset
                implies self.blocks@ == free_result(old_blocks, j) by {
                lemma_offset_unique(old_blocks, old(self).memory, old(self).memory_type_index, old(self).size, i as int, j);
            }
        }
    }

    /// Whether some free block of this chunk fits the request; a read-only
    /// probe used by the pool's chunk scan.
    pub fn can_fit(&self, size: u64, alignment: u64) -> (r: bool)
        requires
            self.wf(),
            1 <= size <= MAX_REQUEST_SIZE,
            1 <= alignment <= MAX_REQUEST_SIZE,
        ensures
            r == has_fit(self.blocks@, size, alignment),
    {
        let n = self.blocks.len();
        let mut i: usize = 0;
        let mut found: bool = false;
        while i < n
            invariant_except_break
                found == false,
            invariant
                0 <= i <= n,
                n == self.blocks.len(),
                self.wf(),
                1 <= size <= MAX_REQUEST_SIZE,
                1 <= alignment <= MAX_REQUEST_SIZE,
                forall|j: int| 0 <= j < i ==> !block_fits(self.blocks@[j], size, alignment),
            ensures
                found ==> exists|j: int| is_first_fit(self.blocks@, size, alignment, j),
                !found ==> forall|j: int| 0 <= j < n ==> !block_fits(self.blocks@[j], size, alignment),
            decreases n - i,
        {
            let b = self.blocks[i];
            if b.is_free {
                let rem = b.offset % alignment;
                let pad = if rem == 0 { 0 } else { alignment - rem };
                if pad <= b.size && b.size - pad >= size {
                    proof {
                        assert(is_first_fit(self.blocks@, size, alignment, i as int));
                    }
                    found = true;
                    break;
                }
            }
            i = i + 1;
        }
        proof {
            if !found {
                assert(forall|j: int|
                    is_first_fit(self.blocks@, size, alignment, j)
                        ==> block_fits(self.blocks@[j], size, alignment));
            }
        }
        found
    }

    /// Number of free bytes in this chunk.
    pub fn count_free_bytes(&self) -> (r: u64)
        requires
            self.wf(),
        ensures
            r == free_bytes(self.blocks_view()),
    {
        let mut total: u64 = 0;
        let mut i: usize = 0;
        while i < self.blocks.len()
            invariant
                0 <= i <= self.blocks.len(),
                self.wf(),
                total == free_bytes(self.blocks@.take(i as int)),
                total <= self.size,
            decreases self.blocks.len() - i,
        {
            proof {
                assert(self.blocks@.take(i + 1).drop_last() =~= self.blocks@.take(i as int));
                assert(self.blocks@.take(i + 1).last() == self.blocks@[i as int]);
                lemma_free_bytes_bound(self.blocks@, self.memory, self.memory_type_index, self.size, i + 1);
            }
            if self.blocks[i].is_free {
                total = total + self.blocks[i].size;
            }
            i = i + 1;
        }
        proof {
            assert(self.blocks@.take(self.blocks@.len() as int) =~= self.blocks@);
        }
        total
    }
}

/// `n` is a power of two.
pub open spec fn is_pow2(n: u64) -> bool
    decreases n,
{
    if n == 0 {
        false
    } else if n == 1 {
        true
    } else {
        n % 2 == 0 && is_pow2(n / 2)
    }
}

/// The least power of two that is at least `n`.
fn next_pow2(n: u64) -> (r: u64)
    requires
        1 <= n <= MAX_REQUEST_SIZE,
    ensures
        is_pow2(r),
        r >= n,
        r < 2 * n,
        r <= MAX_GROWTH_SIZE,
{
    let mut p: u64 = 1;
    while p < n
        invariant
            is_pow2(p),
            1 <= n <= MAX_REQUEST_SIZE,
            p < 2 * n,
            p >= 1,
        decreases 2 * n - p,
    {
        p = p * 2;
    }
    p
}

/// Powers of two in `[n, 2n)` are unique: this is what pins "the next power
/// of two at least `n`" down to a single value.
pub proof fn lemma_next_pow2_unique(n: u64, a: u64, b: u64)
    requires
        n >= 1,
        is_pow2(a),
        is_pow2(b),
        n <= a < 2 * n,
        n <= b < 2 * n,
    ensures
        a == b,
    decreases n,
{
    if n == 1 {
    } else if a == 1 || b == 1 {
        assert(false);
    } else {
        lemma_next_pow2_unique(((n + 1) / 2) as u64, (a / 2) as u64, (b / 2) as u64);
    }
}

/// The free bytes of the first `n` blocks never exceed the end of block
/// `n - 1`, hence never exceed the chunk size.
pub proof fn lemma_free_bytes_bound(blocks: Seq<Block>, memory: u64, memory_type_index: u32, size: u64, n: int)
    requires
        wf_blocks(blocks, memory, memory_type_index, size),
        0 <= n <= blocks.len(),
    ensures
        free_bytes(blocks.take(n)) >= 0,
        n > 0 ==> free_bytes(blocks.take(n)) <= blocks[n - 1].offset + blocks[n - 1].size,
        free_bytes(blocks.take(n)) <= size,
    decreases n,
{
    if n == 0 {
        assert(blocks.take(0) =~= Seq::<Block>::empty());
        assert(free_bytes(Seq::<Block>::empty()) == 0);
    } else {
        lemma_free_bytes_bound(blocks, memory, memory_type_index, size, n - 1);
        assert(blocks.take(n).drop_last() =~= blocks.take(n - 1));
        assert(blocks.take(n).last() == blocks[n - 1]);
        lemma_block_in_range(blocks, memory, memory_type_index, size, n - 1);
        if n >= 2 {
            assert(blocks[(n - 2) + 1].offset == blocks[n - 2].offset + blocks[n - 2].size);
        }
    }
}

/// Total free bytes over a list of chunks.
pub open spec fn pool_free_bytes(chunks: Seq<Chunk>) -> int
    decreases chunks.len(),
{
    if chunks.len() == 0 {
        0
    } else {
        pool_free_bytes(chunks.drop_last()) + free_bytes(chunks.last().blocks@)
    }
}

/// Updating one chunk changes the pool's free bytes by that chunk's delta.
pub proof fn lemma_pool_free_bytes_update(chunks: Seq<Chunk>, i: int, c: Chunk)
    requires
        0 <= i < chunks.len(),
    ensures
        pool_free_bytes(chunks.update(i, c))
            == pool_free_bytes(chunks) - free_bytes(chunks[i].blocks@) + free_bytes(c.blocks@),
    decreases chunks.len(),
{
    if i == chunks.len() - 1 {
        assert(chunks.update(i, c).drop_last() =~= chunks.drop_last());
        assert(chunks.update(i, c).last() == c);
    } else {
        lemma_pool_free_bytes_update(chunks.drop_last(), i, c);
        assert(chunks.update(i, c).drop_last() =~= chunks.drop_last().update(i, c));
        assert(chunks.update(i, c).last() == chunks.last());
        assert(chunks.drop_last()[i] == chunks[i]);
    }
}

/// Appending a chunk adds its free bytes to the pool's.
pub proof fn lemma_pool_free_bytes_push(chunks: Seq<Chunk>, c: Chunk)
    ensures
        pool_free_bytes(chunks.push(c)) == pool_free_bytes(chunks) + free_bytes(c.blocks@),
{
    assert(chunks.push(c).drop_last() =~= chunks);
    assert(chunks.push(c).last() == c);
}

/// All chunks of one device memory type. Grows lazily: when no chunk can
/// satisfy a request, one new chunk of the (strictly grown) growth size is
/// allocated from the device.
pub struct Pool {
    /// Index of the device memory type this pool serves.
    pub memory_type_index: u32,
    /// The chunks of this pool, in creation order.
    pub chunks: Vec<Chunk>,
    /// Size of the next chunk to create; a power of two that only grows.
    pub growth_size: u64,
    /// Next unused device-memory handle; handles of live chunks are below it.
    pub next_memory: u64,
}

/// The handle `b` names a live allocation of pool `p`: some chunk carries
/// `b.memory` and holds an in-use block at `b.offset` of `b.size` bytes.
pub open spec fn block_live_in_pool(p: Pool, b: Block) -> bool {
    exists|ci: int|
        0 <= ci < p.chunks@.len() && (#[trigger] p.chunks@[ci]).memory == b.memory
            && p.chunks@[ci].owns_block(b)
}

/// `ci` is the first chunk of `pre` with a fitting free block: first-fit
/// across the chunks in creation order.
pub open spec fn is_first_fit_chunk(pre: Pool, size: u64, alignment: u64, ci: int) -> bool {
    &&& 0 <= ci < pre.chunks@.len()
    &&& has_fit(pre.chunks@[ci].blocks@, size, alignment)
    &&& forall|cj: int| 0 <= cj < ci
            ==> !has_fit((#[trigger] pre.chunks@[cj]).blocks@, size, alignment)
}

/// The single free block of a brand-new chunk for pool `pre` grown to
/// `new_size`: it carries the next memory handle and spans the whole range.
pub open spec fn fresh_chunk_block(pre: Pool, new_size: u64) -> Block {
    Block {
        memory: pre.next_memory,
        memory_type_index: pre.memory_type_index,
        offset: 0,
        size: new_size,
        is_free: true,
    }
}

/// What `Pool::allocate` guarantees, relating the pool before (`pre`) and
/// after (`post`) and the returned block `r`. The result is deterministic:
/// when some chunk fits, the request is carved out of the first fitting
/// chunk at its first fitting free block, and every other chunk is
/// untouched; otherwise exactly one new chunk of the grown size is appended
/// and the request is served from its start.
pub open spec fn pool_alloc_post(pre: Pool, post: Pool, r: Block, size: u64, alignment: u64) -> bool {
    &&& post.wf()
    &&& post.memory_type_index == pre.memory_type_index
    &&& r.size == size
    &&& r.offset as int % alignment as int == 0
    &&& !r.is_free
    &&& r.memory_type_index == pre.memory_type_index
    &&& block_live_in_pool(post, r)
    &&& !block_live_in_pool(pre, r)
    &&& post.growth_size >= pre.growth_size
    &&& if pool_has_fit(pre, size, alignment) {
            &&& post.chunks@.len() == pre.chunks@.len()
            &&& post.growth_size == pre.growth_size
            &&& post.next_memory == pre.next_memory
            &&& pool_free_bytes(post.chunks@) == pool_free_bytes(pre.chunks@) - size
            &&& exists|ci: int|
                {
                    &&& #[trigger] is_first_fit_chunk(pre, size, alignment, ci)
                    &&& post.chunks@ =~= pre.chunks@.update(ci, post.chunks@[ci])
                    &&& post.chunks@[ci].memory == pre.chunks@[ci].memory
                    &&& post.chunks@[ci].size == pre.chunks@[ci].size
                    &&& post.chunks@[ci].memory_type_index == pre.chunks@[ci].memory_type_index
                    &&& exists|fi: int|
                        #[trigger] is_first_fit(pre.chunks@[ci].blocks@, size, alignment, fi)
                            && post.chunks@[ci].blocks@
                                == alloc_result(pre.chunks@[ci].blocks@, size, alignment, fi)
                            && r == carved_block(pre.chunks@[ci].blocks@[fi], size, alignment)
                }
        } else {
            &&& post.chunks@.len() == pre.chunks@.len() + 1
            &&& is_pow2(post.growth_size)
            &&& post.growth_size >= size
            &&& post.growth_size > pre.growth_size
            &&& (size > pre.growth_size ==> post.growth_size < 2 * size)
            &&& (size <= pre.growth_size ==> post.growth_size == 2 * pre.growth_size)
            &&& post.next_memory == pre.next_memory + 1
            &&& pool_free_bytes(post.chunks@)
                == pool_free_bytes(pre.chunks@) + post.growth_size - size
            &&& post.chunks@ =~= pre.chunks@.push(post.chunks@.last())
            &&& post.chunks@.last().memory == pre.next_memory
            &&& post.chunks@.last().size == post.growth_size
            &&& post.chunks@.last().memory_type_index == pre.memory_type_index
            &&& post.chunks@.last().blocks@
                == alloc_result(seq![fresh_chunk_block(pre, post.growth_size)], size, alignment, 0)
            &&& r == carved_block(fresh_chunk_block(pre, post.growth_size), size, alignment)
            &&& r.memory == pre.next_memory
            &&& r.offset == 0
        }
    &&& forall|b: Block| #[trigger] block_live_in_pool(pre, b) ==> block_live_in_pool(post, b)
    &&& forall|b: Block| #[trigger] block_live_in_pool(post, b)
            ==> block_live_in_pool(pre, b) || (b.memory == r.memory && b.offset == r.offset && b.size == r.size)
}

/// What `Pool::free` guarantees, relating the pool before and after freeing
/// the handle `blk`. Only the block list of the single chunk carrying the
/// handle's memory changes; every other chunk is untouched.
pub open spec fn pool_free_post(pre: Pool, post: Pool, blk: Block) -> bool {
    &&& post.wf()
    &&& post.memory_type_index == pre.memory_type_index
    &&& post.chunks@.len() == pre.chunks@.len()
    &&& post.growth_size == pre.growth_size
    &&& post.next_memory == pre.next_memory
    &&& pool_free_bytes(post.chunks@) == pool_free_bytes(pre.chunks@) + blk.size
    &&& exists|ci: int|
        {
            &&& 0 <= ci < pre.chunks@.len()
            &&& (#[trigger] pre.chunks@[ci]).memory == blk.memory
            &&& post.chunks@ =~= pre.chunks@.update(ci, post.chunks@[ci])
            &&& post.chunks@[ci].memory == pre.chunks@[ci].memory
            &&& post.chunks@[ci].size == pre.chunks@[ci].size
            &&& post.chunks@[ci].memory_type_index == pre.chunks@[ci].memory_type_index
            &&& exists|bi: int|
                0 <= bi < pre.chunks@[ci].blocks@.len()
                    && (#[trigger] pre.chunks@[ci].blocks@[bi]).offset == blk.offset
                    && post.chunks@[ci].blocks@ == free_result(pre.chunks@[ci].blocks@, bi)
        }
    &&& forall|b: Block| #[trigger] block_live_in_pool(post, b)
            ==> block_live_in_pool(pre, b) && !(b.memory == blk.memory && b.offset == blk.offset)
    &&& forall|b: Block| #[trigger] block_live_in_pool(pre, b)
            && !(b.memory == blk.memory && b.offset == blk.offset)
            ==> block_live_in_pool(post, b)
}

/// Some chunk of the pool has a free block that fits the request.
pub open spec fn pool_has_fit(p: Pool, size: u64, alignment: u64) -> bool {
    exists|ci: int| 0 <= ci < p.chunks@.len() && has_fit((#[trigger] p.chunks@[ci]).blocks@, size, alignment)
}

impl Pool {
    /// Pool well-formedness: every chunk is well-formed, carries this pool's
    /// type index, chunk memory handles are distinct and below `next_memory`,
    /// and the growth size is a power of two of at least the initial size.
    pub open spec fn wf(self) -> bool {
        &&& forall|i: int| 0 <= i < self.chunks@.len()
                ==> (#[trigger] self.chunks@[i]).wf()
                    && self.chunks@[i].memory_type_index == self.memory_type_index
        &&& forall|i: int, j: int|
                0 <= i < self.chunks@.len() && 0 <= j < self.chunks@.len() && i != j
                ==> (#[trigger] self.chunks@[i]).memory != (#[trigger] self.chunks@[j]).memory
        &&& forall|i: int| 0 <= i < self.chunks@.len()
                ==> (#[trigger] self.chunks@[i]).memory < self.next_memory
        &&& is_pow2(self.growth_size)
        &&& MIN_ALLOC_SIZE <= self.growth_size
    }

    /// A new pool for one memory type: no chunks yet, initial growth size.
    pub fn new(memory_type_index: u32) -> (r: Self)
        ensures
            r.wf(),
            r.memory_type_index == memory_type_index,
            r.chunks@.len() == 0,
            r.growth_size == MIN_ALLOC_SIZE,
            r.next_memory == 0,
            pool_free_bytes(r.chunks@) == 0,
    {
        proof {
            assert(is_pow2(MIN_ALLOC_SIZE)) by {
                reveal_with_fuel(is_pow2, 30);
            }
        }
        Self {
            memory_type_index,
            chunks: Vec::new(),
            growth_size: MIN_ALLOC_SIZE,
            next_memory: 0,
        }
    }

    /// Best-effort first-fit with lazy growth: scan the chunks in order and
    /// serve the request from the first chunk with a fitting free block; if
    /// none has room, grow the pool by one chunk of the strictly grown
    /// growth size (the next power of two at least the request, doubled when
    /// unchanged) and serve the request from it.
    #[verifier::rlimit(100)]
    pub fn allocate(&mut self, size: u64, alignment: u64) -> (r: Block)
        requires
            old(self).wf(),
            1 <= size <= MAX_REQUEST_SIZE,
            1 <= alignment <= MAX_REQUEST_SIZE,
            old(self).growth_size <= MAX_REQUEST_SIZE,
            old(self).next_memory < u64::MAX,
        ensures
            pool_alloc_post(*old(self), *final(self), r, size, alignment),
    {
        let n = self.chunks.len();
        let mut ci: usize = 0;
        let mut found: bool = false;
        while ci < n
            invariant_except_break
                found == false,
            invariant
                0 <= ci <= n,
                n == self.chunks.len(),
                self.wf(),
                *self == *old(self),
                1 <= size <= MAX_REQUEST_SIZE,
                1 <= alignment <= MAX_REQUEST_SIZE,
                forall|cj: int| 0 <= cj < ci
                    ==> !has_fit((#[trigger] self.chunks@[cj]).blocks@, size, alignment),
            ensures
                n == self.chunks.len(),
                *self == *old(self),
                found ==> ci < n && has_fit(self.chunks@[ci as int].blocks@, size, alignment),
                !found ==> !pool_has_fit(*self, size, alignment),
            decreases n - ci,
        {
            if self.chunks[ci].can_fit(size, alignment) {
                found = true;
                break;
            }
            ci = ci + 1;
        }
        if found {
            let ghost pre = *self;
            let mut c = self.chunks.remove(ci);
            let got = c.allocate(size, alignment);
            let blk = match got {
                Some(blk) => blk,
                None => vstd::pervasive::unreached(),
            };
            self.chunks.insert(ci, c);
            proof {
                assert(pool_has_fit(pre, size, alignment));
                assert(self.chunks@ =~= pre.chunks@.update(ci as int, c));
                assert(self.chunks@[ci as int] == c);
                assert(is_first_fit_chunk(pre, size, alignment, ci as int));
                let fi = choose|fi: int| is_first_fit(pre.chunks@[ci as int].blocks@, size, alignment, fi);
                assert(c.blocks@ == alloc_result(pre.chunks@[ci as int].blocks@, size, alignment, fi)
                    && blk == carved_block(pre.chunks@[ci as int].blocks@[fi], size, alignment));
                lemma_pool_free_bytes_update(pre.chunks@, ci as int, c);
                assert(self.wf()) by {
                    assert(forall|k: int| 0 <= k < pre.chunks@.len() && k != ci as int
                        ==> self.chunks@[k] == pre.chunks@[k]);
                }
                assert(block_live_in_pool(*self, blk)) by {
                    assert(self.chunks@[ci as int].owns_block(blk)) by {
                        assert(c.blocks@.contains(blk)) by {
                            let fi = choose|fi: int| is_first_fit(pre.chunks@[ci as int].blocks@, size, alignment, fi);
                            assert(c.blocks@ == alloc_result(pre.chunks@[ci as int].blocks@, size, alignment, fi));
                            lemma_alloc_result(pre.chunks@[ci as int].blocks@, pre.chunks@[ci as int].memory,
                                pre.chunks@[ci as int].memory_type_index, pre.chunks@[ci as int].size,
                                size, alignment, fi);
                        }
                        let wi = choose|wi: int| 0 <= wi < c.blocks@.len() && c.blocks@[wi] == blk;
                        assert(c.blocks@[wi].offset == blk.offset && !c.blocks@[wi].is_free
                            && c.blocks@[wi].size == blk.size);
                    }
                }
                assert forall|b: Block| #[trigger] block_live_in_pool(pre, b)
                    implies block_live_in_pool(*self, b) by {
                    let cj = choose|cj: int| 0 <= cj < pre.chunks@.len()
                        && (#[trigger] pre.chunks@[cj]).memory == b.memory && pre.chunks@[cj].owns_block(b);
                    if cj == ci as int {
                        let bi = choose|bi: int| 0 <= bi < pre.chunks@[cj].blocks@.len()
                            && (#[trigger] pre.chunks@[cj].blocks@[bi]).offset == b.offset
                            && !pre.chunks@[cj].blocks@[bi].is_free
                            && pre.chunks@[cj].blocks@[bi].size == b.size;
                        assert(c.blocks@.contains(pre.chunks@[cj].blocks@[bi]));
                        let wi = choose|wi: int| 0 <= wi < c.blocks@.len()
                            && c.blocks@[wi] == pre.chunks@[cj].blocks@[bi];
                        assert(c.blocks@[wi].offset == b.offset && !c.blocks@[wi].is_free
                            && c.blocks@[wi].size == b.size);
                        assert(self.chunks@[cj].owns_block(b));
                    } else {
                        assert(self.chunks@[cj] == pre.chunks@[cj]);
                        assert(block_live_in_pool(*self, b));
                    }
                }
                assert forall|b: Block| #[trigger] block_live_in_pool(*self, b)
                    implies block_live_in_pool(pre, b)
                        || (b.memory == blk.memory && b.offset == blk.offset && b.size == blk.size) by {
                    let cj = choose|cj: int| 0 <= cj < self.chunks@.len()
                        && (#[trigger] self.chunks@[cj]).memory == b.memory && self.chunks@[cj].owns_block(b);
                    if cj == ci as int {
                        let bi = choose|bi: int| 0 <= bi < c.blocks@.len()
                            && (#[trigger] c.blocks@[bi]).offset == b.offset
                            && !c.blocks@[bi].is_free && c.blocks@[bi].size == b.size;
                        if c.blocks@[bi] == blk {
                        } else {
                            assert(pre.chunks@[cj].blocks@.contains(c.blocks@[bi]));
                            let wi = choose|wi: int| 0 <= wi < pre.chunks@[cj].blocks@.len()
                                && pre.chunks@[cj].blocks@[wi] == c.blocks@[bi];
                            assert(pre.chunks@[cj].owns_block(b));
                            assert(block_live_in_pool(pre, b));
                        }
                    } else {
                        assert(self.chunks@[cj] == pre.chunks@[cj]);
                        assert(block_live_in_pool(pre, b));
                    }
                }
            }
            blk
        } else {
            let ghost pre = *self;
            let old_gs = self.growth_size;
            let base = if size > old_gs { size } else { old_gs };
            let ns = next_pow2(base);
            let new_size = if ns == old_gs { ns * 2 } else { ns };
            proof {
                if ns == old_gs {
                    assert(is_pow2(new_size)) by {
                        assert(new_size % 2 == 0 && new_size / 2 == ns);
                    }
                }
                if size <= old_gs {
                    lemma_next_pow2_unique(old_gs, ns, old_gs);
                }
            }
            self.growth_size = new_size;
            let mem = self.next_memory;
            self.next_memory = mem + 1;
            let mut c = Chunk::new(mem, new_size, self.memory_type_index);
            proof {
                assert(0int % (alignment as int) == 0) by (nonlinear_arith)
                    requires alignment >= 1;
                assert(pad_for(0, alignment) == 0);
                assert(block_fits(c.blocks@[0], size, alignment));
                assert(is_first_fit(c.blocks@, size, alignment, 0));
            }
            let got = c.allocate(size, alignment);
            let blk = match got {
                Some(blk) => blk,
                None => vstd::pervasive::unreached(),
            };
            self.chunks.push(c);
            proof {
                assert(!pool_has_fit(pre, size, alignment));
                assert(self.chunks@ =~= pre.chunks@.push(c));
                assert(self.chunks@.last() == c);
                assert(seq![fresh_chunk_block(pre, new_size)]
                    =~= seq![Block { memory: mem, memory_type_index: pre.memory_type_index, offset: 0, size: new_size, is_free: true }]);
                assert(c.blocks@ == alloc_result(seq![fresh_chunk_block(pre, new_size)], size, alignment, 0)
                    && blk == carved_block(fresh_chunk_block(pre, new_size), size, alignment));
                lemma_pool_free_bytes_push(pre.chunks@, c);
                assert(self.wf()) by {
                    assert(forall|k: int| 0 <= k < pre.chunks@.len()
                        ==> self.chunks@[k] == pre.chunks@[k]);
                    assert(self.chunks@[pre.chunks@.len() as int] == c);
                }
                assert(block_live_in_pool(*self, blk)) by {
                    let ci2 = pre.chunks@.len() as int;
                    assert(self.chunks@[ci2] == c);
                    assert(c.blocks@.contains(blk)) by {
                        lemma_alloc_result(
                            seq![Block { memory: mem, memory_type_index: pre.memory_type_index, offset: 0, size: new_size, is_free: true }],
                            mem, pre.memory_type_index, new_size, size, alignment, 0);
                    }
                    let wi = choose|wi: int| 0 <= wi < c.blocks@.len() && c.blocks@[wi] == blk;
                    assert(c.blocks@[wi].offset == blk.offset && !c.blocks@[wi].is_free
                        && c.blocks@[wi].size == blk.size);
                }
                assert forall|b: Block| #[trigger] block_live_in_pool(pre, b)
                    implies block_live_in_pool(*self, b) by {
                    let cj = choose|cj: int| 0 <= cj < pre.chunks@.len()
                        && (#[trigger] pre.chunks@[cj]).memory == b.memory && pre.chunks@[cj].owns_block(b);
                    assert(self.chunks@[cj] == pre.chunks@[cj]);
                }
                assert forall|b: Block| #[trigger] block_live_in_pool(*self, b)
                    implies block_live_in_pool(pre, b)
                        || (b.memory == blk.memory && b.offset == blk.offset && b.size == blk.size) by {
                    let cj = choose|cj: int| 0 <= cj < self.chunks@.len()
                        && (#[trigger] self.chunks@[cj]).memory == b.memory && self.chunks@[cj].owns_block(b);
                    if cj == pre.chunks@.len() as int {
                        let bi = choose|bi: int| 0 <= bi < c.blocks@.len()
                            && (#[trigger] c.blocks@[bi]).offset == b.offset
                            && !c.blocks@[bi].is_free && c.blocks@[bi].size == b.size;
                        let start = seq![Block { memory: mem, memory_type_index: pre.memory_type_index, offset: 0, size: new_size, is_free: true }];
                        assert(start.contains(c.blocks@[bi]) || c.blocks@[bi] == carved_block(start[0], size, alignment));
                        assert(!(start[0].is_free == false));
                        assert(c.blocks@[bi] == blk);
                    } else {
                        assert(self.chunks@[cj] == pre.chunks@[cj]);
                        assert(block_live_in_pool(pre, b));
                    }
                }
            }
            blk
        }
    }

    /// Release the block `blk` back into the chunk that owns it (found by
    /// its memory handle) and coalesce it there.
    #[verifier::rlimit(100)]
    #[verifier::spinoff_prover]
    pub fn free(&mut self, blk: Block)
        requires
            old(self).wf(),
            block_live_in_pool(*old(self), blk),
        ensures
            pool_free_post(*old(self), *final(self), blk),
    {
        let ghost pre = *self;
        let n = self.chunks.len();
        let mut ci: usize = 0;
        while self.chunks[ci].memory != blk.memory
            invariant
                0 <= ci < n,
                n == self.chunks.len(),
                self.wf(),
                *self == *old(self),
                block_live_in_pool(*self, blk),
                forall|cj: int| 0 <= cj < ci ==> (#[trigger] self.chunks@[cj]).memory != blk.memory,
            decreases n - ci,
        {
            proof {
                let w = choose|w: int| 0 <= w < self.chunks@.len()
                    && (#[trigger] self.chunks@[w]).memory == blk.memory && self.chunks@[w].owns_block(blk);
                assert(w > ci);
            }
            ci = ci + 1;
        }
        proof {
            let w = choose|w: int| 0 <= w < self.chunks@.len()
                && (#[trigger] self.chunks@[w]).memory == blk.memory && self.chunks@[w].owns_block(blk);
            if w != ci as int {
                assert(self.chunks@[w].memory != self.chunks@[ci as int].memory);
            }
            assert(self.chunks@[ci as int].owns_block(blk));
        }
        let mut c = self.chunks.remove(ci);
        c.free(blk);
        self.chunks.insert(ci, c);
        proof {
            assert(self.chunks@ =~= pre.chunks@.update(ci as int, c));
            assert(self.chunks@[ci as int] == c);
            let bi = choose|bi: int|
                0 <= bi < pre.chunks@[ci as int].blocks@.len()
                    && (#[trigger] pre.chunks@[ci as int].blocks@[bi]).offset == blk.offset
                    && !pre.chunks@[ci as int].blocks@[bi].is_free
                    && pre.chunks@[ci as int].blocks@[bi].size == blk.size;
            assert(c.blocks@ == free_result(pre.chunks@[ci as int].blocks@, bi));
            lemma_pool_free_bytes_update(pre.chunks@, ci as int, c);
            assert(self.wf()) by {
                assert(forall|k: int| 0 <= k < pre.chunks@.len() && k != ci as int
                    ==> self.chunks@[k] == pre.chunks@[k]);
            }
            assert forall|b: Block| #[trigger] block_live_in_pool(*self, b)
                implies block_live_in_pool(pre, b) && !(b.memory == blk.memory && b.offset == blk.offset) by {
                let cj = choose|cj: int| 0 <= cj < self.chunks@.len()
                    && (#[trigger] self.chunks@[cj]).memory == b.memory && self.chunks@[cj].owns_block(b);
                if cj == ci as int {
                    let bi = choose|bi: int| 0 <= bi < c.blocks@.len()
                        && (#[trigger] c.blocks@[bi]).offset == b.offset
                        && !c.blocks@[bi].is_free && c.blocks@[bi].size == b.size;
                    assert(pre.chunks@[cj].blocks@.contains(c.blocks@[bi]));
                    let wi = choose|wi: int| 0 <= wi < pre.chunks@[cj].blocks@.len()
                        && pre.chunks@[cj].blocks@[wi] == c.blocks@[bi];
                    assert(pre.chunks@[cj].owns_block(b));
                    assert(c.blocks@[bi].offset != blk.offset);
                } else {
                    assert(self.chunks@[cj] == pre.chunks@[cj]);
                    assert(block_live_in_pool(pre, b));
                    if b.memory == blk.memory && b.offset == blk.offset {
                        assert(pre.chunks@[cj].memory == pre.chunks@[ci as int].memory);
                        assert(false);
                    }
                }
            }
            assert forall|b: Block| #[trigger] block_live_in_pool(pre, b)
                && !(b.memory == blk.memory && b.offset == blk.offset)
                implies block_live_in_pool(*self, b) by {
                let cj = choose|cj: int| 0 <= cj < pre.chunks@.len()
                    && (#[trigger] pre.chunks@[cj]).memory == b.memory && pre.chunks@[cj].owns_block(b);
                if cj == ci as int {
                    let bi = choose|bi: int| 0 <= bi < pre.chunks@[cj].blocks@.len()
                        && (#[trigger] pre.chunks@[cj].blocks@[bi]).offset == b.offset
                        && !pre.chunks@[cj].blocks@[bi].is_free
                        && pre.chunks@[cj].blocks@[bi].size == b.size;
                    assert(pre.chunks@[cj].blocks@[bi].offset != blk.offset);
                    assert(c.blocks@.contains(pre.chunks@[cj].blocks@[bi]));
                    let wi = choose|wi: int| 0 <= wi < c.blocks@.len()
                        && c.blocks@[wi] == pre.chunks@[cj].blocks@[bi];
                    assert(self.chunks@[cj].owns_block(b));
                } else {
                    assert(self.chunks@[cj] == pre.chunks@[cj]);
                }
            }
        }
    }

    /// Total free bytes over the pool's chunks.
    pub fn count_free_bytes(&self) -> (r: u64)
        requires
            self.wf(),
            pool_free_bytes(self.chunks@) <= u64::MAX,
        ensures
            r == pool_free_bytes(self.chunks@),
    {
        proof {
            lemma_pool_free_bytes_nonneg(self.chunks@);
        }
        let mut total: u64 = 0;
        let mut i: usize = 0;
        while i < self.chunks.len()
            invariant
                0 <= i <= self.chunks.len(),
                self.wf(),
                pool_free_bytes(self.chunks@) <= u64::MAX,
                total == pool_free_bytes(self.chunks@.take(i as int)),
            decreases self.chunks.len() - i,
        {
            proof {
                assert(self.chunks@.take(i + 1).drop_last() =~= self.chunks@.take(i as int));
                assert(self.chunks@.take(i + 1).last() == self.chunks@[i as int]);
                lemma_pool_free_bytes_prefix(self.chunks@, i + 1);
                lemma_free_bytes_nonneg_chunk(self.chunks@[i as int]);
            }
            let cfree = self.chunks[i].count_free_bytes();
            total = total + cfree;
            i = i + 1;
        }
        proof {
            assert(self.chunks@.take(self.chunks@.len() as int) =~= self.chunks@);
        }
        total
    }
}

/// Free bytes of a well-formed chunk are non-negative and within its size.
pub proof fn lemma_free_bytes_nonneg_chunk(c: Chunk)
    requires
        c.wf(),
    ensures
        0 <= free_bytes(c.blocks@) <= c.size,
{
    lemma_free_bytes_bound(c.blocks@, c.memory, c.memory_type_index, c.size, c.blocks@.len() as int);
    assert(c.blocks@.take(c.blocks@.len() as int) =~= c.blocks@);
}

/// Pool free bytes are non-negative when every chunk is well-formed.
pub proof fn lemma_pool_free_bytes_nonneg(chunks: Seq<Chunk>)
    requires
        forall|i: int| 0 <= i < chunks.len() ==> (#[trigger] chunks[i]).wf(),
    ensures
        pool_free_bytes(chunks) >= 0,
    decreases chunks.len(),
{
    if chunks.len() > 0 {
        lemma_pool_free_bytes_nonneg(chunks.drop_last());
        lemma_free_bytes_nonneg_chunk(chunks.last());
    }
}

/// Memory-property bit reported by the device for memory local to it.
pub const MEMORY_PROPERTY_DEVICE_LOCAL: u32 = 1;

/// Memory-property bit for memory the host can map.
pub const MEMORY_PROPERTY_HOST_VISIBLE: u32 = 2;

/// Memory-property bit for host-visible memory that needs no explicit flush.
pub const MEMORY_PROPERTY_HOST_COHERENT: u32 = 4;

/// Memory type `i` of the table `types` can serve a request with property
/// mask `properties` and type bitmask `bits`: the request's bitmask has bit
/// `i` set and the type carries every requested property.
pub open spec fn type_suitable(types: Seq<u32>, properties: u32, bits: u32, i: int) -> bool {
    &&& 0 <= i < types.len()
    &&& (bits >> (i as u32)) & 1 != 0
    &&& (types[i] & properties) == properties
}

/// The device-memory sub-allocator: one pool per device memory type,
/// resolving each request's usage and type bitmask against the device's
/// memory-type property table.
pub struct Allocator {
    /// Property flags of each device memory type, as the device reports them.
    pub memory_types: Vec<u32>,
    /// One pool per memory type; pool `i` serves type `i`.
    pub pools: Vec<Pool>,
}

/// The handle `b` names a live allocation of allocator `a`.
pub open spec fn block_live_in_allocator(a: Allocator, b: Block) -> bool {
    &&& 0 <= (b.memory_type_index as int) < a.pools@.len()
    &&& block_live_in_pool(a.pools@[b.memory_type_index as int], b)
}

impl Allocator {
    /// Allocator well-formedness: one well-formed pool per memory type,
    /// numbered by its index; the table fits the 32-bit type bitmask.
    pub open spec fn wf(self) -> bool {
        &&& self.pools@.len() == self.memory_types@.len()
        &&& self.memory_types@.len() <= 32
        &&& forall|i: int| 0 <= i < self.pools@.len()
                ==> (#[trigger] self.pools@[i]).wf() && self.pools@[i].memory_type_index == i
    }

    /// Every pool can still grow without its arithmetic overflowing.
    pub open spec fn can_grow(self) -> bool {
        forall|i: int| 0 <= i < self.pools@.len()
            ==> (#[trigger] self.pools@[i]).growth_size <= MAX_REQUEST_SIZE
                && self.pools@[i].next_memory < u64::MAX
    }

    /// Whether every pool can still grow, checked at run time: the growth
    /// size doubles on every pool growth, so after astronomically many
    /// growths the `u64` arithmetic would leave its safe range — the model's
    /// version of exhausted device memory.
    pub fn can_grow_now(&self) -> (r: bool)
        ensures
            r == self.can_grow(),
    {
        let n = self.pools.len();
        let mut i: usize = 0;
        while i < n
            invariant
                0 <= i <= n,
                n == self.pools@.len(),
                forall|j: int| 0 <= j < i
                    ==> (#[trigger] self.pools@[j]).growth_size <= MAX_REQUEST_SIZE
                        && self.pools@[j].next_memory < u64::MAX,
            decreases n - i,
        {
            if !(self.pools[i].growth_size <= MAX_REQUEST_SIZE
                && self.pools[i].next_memory < u64::MAX) {
                return false;
            }
            i = i + 1;
        }
        true
    }

    /// A new allocator over the device's memory-type property table: one
    /// empty pool per memory type.
    pub fn new(memory_types: Vec<u32>) -> (r: Self)
        requires
            memory_types@.len() <= 32,
        ensures
            r.wf(),
            r.can_grow(),
            r.memory_types == memory_types,
            forall|i: int| 0 <= i < r.pools@.len()
                ==> (#[trigger] r.pools@[i]).chunks@.len() == 0
                    && r.pools@[i].growth_size == MIN_ALLOC_SIZE,
            forall|b: Block| !(#[trigger] block_live_in_allocator(r, b)),
    {
        let count = memory_types.len();
        let mut pools: Vec<Pool> = Vec::new();
        let mut i: usize = 0;
        while i < count
            invariant
                0 <= i <= count,
                count == memory_types@.len(),
                count <= 32,
                pools@.len() == i,
                forall|j: int| 0 <= j < i
                    ==> (#[trigger] pools@[j]).wf() && pools@[j].memory_type_index == j
                        && pools@[j].chunks@.len() == 0 && pools@[j].growth_size == MIN_ALLOC_SIZE
                        && pools@[j].next_memory < u64::MAX,
            decreases count - i,
        {
            proof {
                assert(i <= 32);
            }
            pools.push(Pool::new(i as u32));
            i = i + 1;
        }
        Self { memory_types, pools }
    }

    /// The memory-property mask a usage resolves to: staging memory must be
    /// host-visible and host-coherent; device-local memory must be local.
    pub fn get_memory_properties(usage: AllocUsage) -> (r: u32)
        ensures
            usage is Staging ==> r == MEMORY_PROPERTY_HOST_VISIBLE | MEMORY_PROPERTY_HOST_COHERENT,
            usage is DeviceLocal ==> r == MEMORY_PROPERTY_DEVICE_LOCAL,
    {
        match usage {
            AllocUsage::Staging => MEMORY_PROPERTY_HOST_VISIBLE | MEMORY_PROPERTY_HOST_COHERENT,
            AllocUsage::DeviceLocal => MEMORY_PROPERTY_DEVICE_LOCAL,
        }
    }

    /// The first memory type of `memory_types` whose properties contain
    /// `properties` and whose bit is set in `memory_type_bits`, or
    /// `NoSuitableMemoryType` when there is none.
    pub fn get_memory_type_index(
        memory_types: &Vec<u32>,
        properties: u32,
        memory_type_bits: u32,
    ) -> (r: Result<u32, AllocError>)
        requires
            memory_types@.len() <= 32,
        ensures
            match r {
                Ok(i) => {
                    &&& type_suitable(memory_types@, properties, memory_type_bits, i as int)
                    &&& forall|j: int| 0 <= j < i
                            ==> !type_suitable(memory_types@, properties, memory_type_bits, j)
                }
                Err(e) => {
                    &&& e == AllocError::NoSuitableMemoryType
                    &&& forall|j: int| !type_suitable(memory_types@, properties, memory_type_bits, j)
                },
            },
    {
        let count = memory_types.len();
        let mut i: usize = 0;
        while i < count
            invariant
                0 <= i <= count,
                count == memory_types@.len() <= 32,
                forall|j: int| 0 <= j < i
                    ==> !type_suitable(memory_types@, properties, memory_type_bits, j),
            decreases count - i,
        {
            let suitable = (memory_type_bits >> (i as u32)) & 1 != 0;
            let flags = memory_types[i];
            if suitable && (flags & properties) == properties {
                return Ok(i as u32);
            }
            i = i + 1;
        }
        Err(AllocError::NoSuitableMemoryType)
    }

    /// Resolve the request's usage to a property mask, pick the first
    /// suitable memory type, and serve the request from that type's pool.
    /// Fails with `NoSuitableMemoryType` exactly when no type matches; the
    /// pool itself always serves the request.
    pub fn allocate(&mut self, requirements: AllocRequirements) -> (r: Result<Block, AllocError>)
        requires
            old(self).wf(),
            old(self).can_grow(),
            1 <= requirements.size <= MAX_REQUEST_SIZE,
            1 <= requirements.alignment <= MAX_REQUEST_SIZE,
        ensures
            final(self).wf(),
            final(self).memory_types == old(self).memory_types,
            final(self).pools@.len() == old(self).pools@.len(),
            match r {
                Ok(blk) => {
                    // the suitability witness on its own, for callers that
                    // need only that some memory type matched
                    &&& exists|i: int|
                        #[trigger] type_suitable(old(self).memory_types@, Self::spec_properties(requirements.usage), requirements.memory_type_bits, i)
                    &&& exists|i: int|
                        type_suitable(old(self).memory_types@, Self::spec_properties(requirements.usage), requirements.memory_type_bits, i)
                            && blk.memory_type_index == i
                            && (forall|j: int| 0 <= j < i
                                ==> !type_suitable(old(self).memory_types@, Self::spec_properties(requirements.usage), requirements.memory_type_bits, j))
                            && pool_alloc_post(
                                old(self).pools@[i],
                                final(self).pools@[i],
                                blk,
                                requirements.size,
                                requirements.alignment,
                            )
                            && (forall|j: int| 0 <= j < old(self).pools@.len() && j != i
                                ==> final(self).pools@[j] == old(self).pools@[j])
                    &&& blk.size == requirements.size
                    &&& blk.offset as int % requirements.alignment as int == 0
                    &&& !blk.is_free
                    &&& block_live_in_allocator(*final(self), blk)
                    &&& !block_live_in_allocator(*old(self), blk)
                    &&& forall|b: Block| #[trigger] block_live_in_allocator(*old(self), b)
                            ==> block_live_in_allocator(*final(self), b)
                    &&& forall|b: Block| #[trigger] block_live_in_allocator(*final(self), b)
                            ==> block_live_in_allocator(*old(self), b)
                                || (b.memory_type_index == blk.memory_type_index
                                    && b.memory == blk.memory && b.offset == blk.offset && b.size == blk.size)
                }
                Err(e) => {
                    &&& e == AllocError::NoSuitableMemoryType
                    &&& forall|j: int|
                        !type_suitable(old(self).memory_types@, Self::spec_properties(requirements.usage), requirements.memory_type_bits, j)
                    &&& *final(self) == *old(self)
                },
            },
    {
        let properties = Self::get_memory_properties(requirements.usage);
        let memory_type_index = match Self::get_memory_type_index(
            &self.memory_types,
            properties,
            requirements.memory_type_bits,
        ) {
            Ok(i) => i,
            Err(e) => {
                return Err(e);
            }
        };
        let ghost pre = *self;
        let i = memory_type_index as usize;
        let mut pool = self.pools.remove(i);
        let blk = pool.allocate(requirements.size, requirements.alignment);
        self.pools.insert(i, pool);
        proof {
            assert(self.pools@ =~= pre.pools@.update(i as int, pool));
            assert(forall|j: int| 0 <= j < pre.pools@.len() && j != i as int
                ==> self.pools@[j] == pre.pools@[j]);
            assert(block_live_in_allocator(*self, blk)) by {
                assert(blk.memory_type_index == i as u32);
            }
            assert forall|b: Block| #[trigger] block_live_in_allocator(pre, b)
                implies block_live_in_allocator(*self, b) by {
                if b.memory_type_index as int == i as int {
                    assert(block_live_in_pool(pre.pools@[i as int], b));
                }
            }
            assert forall|b: Block| #[trigger] block_live_in_allocator(*self, b)
                implies block_live_in_allocator(pre, b)
                    || (b.memory_type_index == blk.memory_type_index
                        && b.memory == blk.memory && b.offset == blk.offset && b.size == blk.size) by {
                if b.memory_type_index as int == i as int {
                    assert(block_live_in_pool(self.pools@[i as int], b));
                } else {
                    assert(self.pools@[b.memory_type_index as int] == pre.pools@[b.memory_type_index as int]);
                }
            }
            assert(type_suitable(pre.memory_types@, Self::spec_properties(requirements.usage), requirements.memory_type_bits, i as int)
                && blk.memory_type_index == i as int
                && (forall|j: int| 0 <= j < i as int
                    ==> !type_suitable(pre.memory_types@, Self::spec_properties(requirements.usage), requirements.memory_type_bits, j))
                && pool_alloc_post(pre.pools@[i as int], self.pools@[i as int], blk, requirements.size, requirements.alignment)
                && (forall|j: int| 0 <= j < pre.pools@.len() && j != i as int
                    ==> self.pools@[j] == pre.pools@[j]));
        }
        Ok(blk)
    }

    /// The property mask for a usage, for specifications.
    pub open spec fn spec_properties(usage: AllocUsage) -> u32 {
        match usage {
            AllocUsage::Staging => MEMORY_PROPERTY_HOST_VISIBLE | MEMORY_PROPERTY_HOST_COHERENT,
            AllocUsage::DeviceLocal => MEMORY_PROPERTY_DEVICE_LOCAL,
        }
    }

    /// Return the block to the pool of its memory type; the block is located
    /// by its memory handle and coalesced with free neighbours there.
    pub fn free(&mut self, block: Block)
        requires
            old(self).wf(),
            block_live_in_allocator(*old(self), block),
        ensures
            final(self).wf(),
            final(self).memory_types == old(self).memory_types,
            final(self).pools@.len() == old(self).pools@.len(),
            pool_free_post(
                old(self).pools@[block.memory_type_index as int],
                final(self).pools@[block.memory_type_index as int],
                block,
            ),
            forall|j: int| 0 <= j < old(self).pools@.len() && j != block.memory_type_index as int
                ==> final(self).pools@[j] == old(self).pools@[j],
            forall|b: Block| #[trigger] block_live_in_allocator(*final(self), b)
                ==> block_live_in_allocator(*old(self), b)
                    && !(b.memory_type_index == block.memory_type_index
                        && b.memory == block.memory && b.offset == block.offset),
            forall|b: Block| #[trigger] block_live_in_allocator(*old(self), b)
                && !(b.memory_type_index == block.memory_type_index
                    && b.memory == block.memory && b.offset == block.offset)
                ==> block_live_in_allocator(*final(self), b),
    {
        let ghost pre = *self;
        let i = block.memory_type_index as usize;
        let mut pool = self.pools.remove(i);
        pool.free(block);
        self.pools.insert(i, pool);
        proof {
            assert(self.pools@ =~= pre.pools@.update(i as int, pool));
            assert(forall|j: int| 0 <= j < pre.pools@.len() && j != i as int
                ==> self.pools@[j] == pre.pools@[j]);
        }
    }

    /// Tear down every pool; used only at full shutdown, never while any
    /// block is outstanding.
    pub fn free_all(&mut self)
        ensures
            final(self).pools@.len() == 0,
            final(self).memory_types == old(self).memory_types,
    {
        self.pools.clear();
    }
}

/// A prefix of the chunk list contributes at most the whole pool's free
/// bytes.
pub proof fn lemma_pool_free_bytes_prefix(chunks: Seq<Chunk>, n: int)
    requires
        forall|i: int| 0 <= i < chunks.len() ==> (#[trigger] chunks[i]).wf(),
        0 <= n <= chunks.len(),
    ensures
        pool_free_bytes(chunks.take(n)) <= pool_free_bytes(chunks),
        pool_free_bytes(chunks.take(n)) >= 0,
    decreases chunks.len() - n,
{
    if n == chunks.len() {
        assert(chunks.take(n) =~= chunks);
        lemma_pool_free_bytes_nonneg(chunks);
    } else {
        lemma_pool_free_bytes_prefix(chunks, n + 1);
        assert(chunks.take(n + 1).drop_last() =~= chunks.take(n));
        assert(chunks.take(n + 1).last() == chunks[n]);
        lemma_free_bytes_nonneg_chunk(chunks[n]);
        lemma_pool_free_bytes_nonneg(chunks.take(n));
    }
}

/// Two live handles of one allocator that agree on memory type, memory
/// handle and offset name the same block, so they also agree on size: a
/// handle identifies its allocation uniquely.
pub proof fn lemma_live_block_unique(a: Allocator, b1: Block, b2: Block)
    requires
        a.wf(),
        block_live_in_allocator(a, b1),
        block_live_in_allocator(a, b2),
        b1.memory_type_index == b2.memory_type_index,
        b1.memory == b2.memory,
        b1.offset == b2.offset,
    ensures
        b1.size == b2.size,
{
    let p = a.pools@[b1.memory_type_index as int];
    let c1 = choose|ci: int|
        0 <= ci < p.chunks@.len() && (#[trigger] p.chunks@[ci]).memory == b1.memory
            && p.chunks@[ci].owns_block(b1);
    let c2 = choose|ci: int|
        0 <= ci < p.chunks@.len() && (#[trigger] p.chunks@[ci]).memory == b2.memory
            && p.chunks@[ci].owns_block(b2);
    if c1 != c2 {
        assert(p.chunks@[c1].memory != p.chunks@[c2].memory);
    }
    let ch = p.chunks@[c1];
    let i1 = choose|i: int|
        0 <= i < ch.blocks@.len() && (#[trigger] ch.blocks@[i]).offset == b1.offset
            && !ch.blocks@[i].is_free && ch.blocks@[i].size == b1.size;
    let i2 = choose|i: int|
        0 <= i < ch.blocks@.len() && (#[trigger] ch.blocks@[i]).offset == b2.offset
            && !ch.blocks@[i].is_free && ch.blocks@[i].size == b2.size;
    lemma_offset_unique(ch.blocks@, ch.memory, ch.memory_type_index, ch.size, i1, i2);
}

/// Round-trip law: an allocation served from existing chunks, immediately
/// followed by freeing the returned handle, leaves the pool's total free
/// byte count, its chunk count, and its growth size unchanged.
pub proof fn lemma_alloc_free_round_trip(
    p0: Pool,
    p1: Pool,
    r: Block,
    p2: Pool,
    size: u64,
    alignment: u64,
)
    requires
        pool_has_fit(p0, size, alignment),
        pool_alloc_post(p0, p1, r, size, alignment),
        pool_free_post(p1, p2, r),
    ensures
        pool_free_bytes(p2.chunks@) == pool_free_bytes(p0.chunks@),
        p2.chunks@.len() == p0.chunks@.len(),
        p2.growth_size == p0.growth_size,
{
}

/// No-overlap law: in a well-formed chunk, no two live (non-freed) blocks
/// occupy overlapping byte ranges. Well-formedness is preserved by every
/// operation, so this holds at every point of any sequence of allocations
/// and frees.
pub proof fn lemma_no_overlap(c: Chunk, i: int, j: int)
    requires
        c.wf(),
        0 <= i < c.blocks@.len(),
        0 <= j < c.blocks@.len(),
        i != j,
        !c.blocks@[i].is_free,
        !c.blocks@[j].is_free,
    ensures
        c.blocks@[i].offset + c.blocks@[i].size <= c.blocks@[j].offset
            || c.blocks@[j].offset + c.blocks@[j].size <= c.blocks@[i].offset,
{
    if i < j {
        lemma_block_order(c.blocks@, c.memory, c.memory_type_index, c.size, i, j);
    } else {
        lemma_block_order(c.blocks@, c.memory, c.memory_type_index, c.size, j, i);
    }
}

/// Coalescing law: freeing a block merges it with its free neighbours into
/// exactly one free block spanning the combined byte range (in particular,
/// when both neighbours are free, three blocks become one).
pub proof fn lemma_coalescing(c0: Chunk, c1: Chunk, blk: Block, i: int)
    requires
        c0.wf(),
        0 <= i < c0.blocks@.len(),
        c0.blocks@[i].offset == blk.offset,
        !c0.blocks@[i].is_free,
        c0.blocks@[i].size == blk.size,
        c1.blocks@ == free_result(c0.blocks@, i),
    ensures
        ({
            let lo = if i > 0 && c0.blocks@[i - 1].is_free { i - 1 } else { i };
            let hi = if i + 1 < c0.blocks@.len() && c0.blocks@[i + 1].is_free { i + 1 } else { i };
            &&& c1.blocks@.len() == c0.blocks@.len() - (hi - lo)
            &&& c1.blocks@[lo].is_free
            &&& c1.blocks@[lo].offset == c0.blocks@[lo].offset
            &&& c1.blocks@[lo].offset + c1.blocks@[lo].size
                == c0.blocks@[hi].offset + c0.blocks@[hi].size
        }),
{
    let lo = if i > 0 && c0.blocks@[i - 1].is_free { i - 1 } else { i };
    let hi = if i + 1 < c0.blocks@.len() && c0.blocks@[i + 1].is_free { i + 1 } else { i };
    lemma_free_result(c0.blocks@, c0.memory, c0.memory_type_index, c0.size, i);
    lemma_block_in_range(c0.blocks@, c0.memory, c0.memory_type_index, c0.size, hi);
    if lo < hi {
        lemma_block_order(c0.blocks@, c0.memory, c0.memory_type_index, c0.size, lo, hi);
    }
    assert(c1.blocks@[lo] == free_result(c0.blocks@, i)[lo]);
}

/// A standing consequence of well-formedness: a free block is never adjacent
/// to another free block, so every maximal free byte range is covered by a
/// single block.
pub proof fn lemma_free_blocks_coalesced(c: Chunk, i: int)
    requires
        c.wf(),
        0 <= i < c.blocks@.len(),
        c.blocks@[i].is_free,
    ensures
        i > 0 ==> !c.blocks@[i - 1].is_free,
        i + 1 < c.blocks@.len() ==> !c.blocks@[i + 1].is_free,
{
    if i > 0 {
        assert(!(c.blocks@[i - 1].is_free && c.blocks@[(i - 1) + 1].is_free));
    }
}

/// Growth law, request side: an allocation that cannot be served from the
/// existing chunks and asks for more than the current growth size raises the
/// growth size to the next power of two at least the request (the bounds
/// below pin that value down uniquely; see `lemma_next_pow2_unique`).
pub proof fn lemma_growth_on_large_request(p0: Pool, p1: Pool, r: Block, size: u64, alignment: u64)
    requires
        pool_alloc_post(p0, p1, r, size, alignment),
        !pool_has_fit(p0, size, alignment),
        size > p0.growth_size,
    ensures
        is_pow2(p1.growth_size),
        p1.growth_size >= size,
        p1.growth_size < 2 * size,
{
}

/// Growth law, monotonicity side: an allocation never lowers the growth
/// size, and a free never changes it.
pub proof fn lemma_growth_monotonic(p0: Pool, p1: Pool, r: Block, size: u64, alignment: u64, p2: Pool, blk: Block)
    requires
        pool_alloc_post(p0, p1, r, size, alignment),
        pool_free_post(p1, p2, blk),
    ensures
        p1.growth_size >= p0.growth_size,
        p2.growth_size == p1.growth_size,
{
}

/// Alignment law: every block a pool hands out starts at an offset that is a
/// multiple of the requested alignment.
pub proof fn lemma_alignment(p0: Pool, p1: Pool, r: Block, size: u64, alignment: u64)
    requires
        pool_alloc_post(p0, p1, r, size, alignment),
    ensures
        r.offset as int % alignment as int == 0,
{
}

} // verus!
