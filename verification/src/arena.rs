//! A generation-tagged arena of voxel chunks.
//!
//! Chunks live in a stable-index slot table. A [`ChunkKey`] is a weak
//! reference: an index and the generation the slot had when the chunk was
//! inserted. Removing a chunk bumps the slot's generation, so every key
//! handed out for it resolves to "absent" from then on — a destroyed chunk
//! can never be observed through an old key.

use vstd::prelude::*;

use crate::chunk::Chunk;

verus! {

/// A weak reference to a chunk: the slot index and the generation at which
/// the chunk was inserted. Resolving checks the generation still matches.
#[derive(Debug, Clone, Copy, PartialEq, Eq, Structural)]
pub struct ChunkKey {
    pub index: usize,
    pub generation: u64,
}

/// One slot of the arena: its current generation and the chunk it holds, if
/// any.
pub struct Slot {
    pub generation: u64,
    pub value: Option<Chunk>,
}

/// The stable-index table of live chunks.
pub struct ChunkArena {
    pub slots: Vec<Slot>,
}

impl ChunkArena {
    /// Occupied slots have room for one more generation bump, so a removed
    /// key can never match again.
    pub open spec fn wf(self) -> bool {
        forall|i: int| 0 <= i < self.slots@.len() && (#[trigger] self.slots@[i]).value is Some
            ==> self.slots@[i].generation < u64::MAX
    }

    /// The key resolves to a live chunk.
    pub open spec fn live(self, key: ChunkKey) -> bool {
        &&& key.index < self.slots@.len()
        &&& self.slots@[key.index as int].generation == key.generation
        &&& self.slots@[key.index as int].value is Some
    }

    /// The chunk a live key resolves to.
    pub open spec fn chunk_at(self, key: ChunkKey) -> Chunk
        recommends
            self.live(key),
    {
        self.slots@[key.index as int].value->Some_0
    }

    /// An empty arena.
    pub fn new() -> (r: Self)
        ensures
            r.wf(),
            r.slots@.len() == 0,
            forall|k: ChunkKey| !(#[trigger] r.live(k)),
    {
        Self { slots: Vec::new() }
    }

    /// Insert a chunk into the first free slot (or a new slot at the end)
    /// and hand back its key. Every previously live key stays live and
    /// resolves to the same chunk; the new key was not live before.
    pub fn insert(&mut self, chunk: Chunk) -> (key: ChunkKey)
        requires
            old(self).wf(),
        ensures
            final(self).wf(),
            final(self).live(key),
            final(self).chunk_at(key) == chunk,
            !old(self).live(key),
            forall|k: ChunkKey| #[trigger] old(self).live(k)
                ==> final(self).live(k) && final(self).chunk_at(k) == old(self).chunk_at(k),
            forall|k: ChunkKey| #[trigger] final(self).live(k)
                ==> old(self).live(k) || k == key,
    {
        let n = self.slots.len();
        let mut i: usize = 0;
        while i < n
            invariant
                0 <= i <= n,
                n == self.slots@.len(),
                *self == *old(self),
                self.wf(),
                forall|j: int| 0 <= j < i
                    ==> (#[trigger] self.slots@[j]).value is Some
                        || self.slots@[j].generation == u64::MAX,
            decreases n - i,
        {
            if self.slots[i].value.is_none() && self.slots[i].generation < u64::MAX {
                let generation = self.slots[i].generation;
                self.slots.set(i, Slot { generation, value: Some(chunk) });
                let key = ChunkKey { index: i, generation };
                proof {
                    assert forall|k: ChunkKey| #[trigger] old(self).live(k)
                        implies self.live(k) && self.chunk_at(k) == old(self).chunk_at(k) by {
                        if k.index != i {
                            assert(self.slots@[k.index as int] == old(self).slots@[k.index as int]);
                        }
                    }
                }
                return key;
            }
            i = i + 1;
        }
        let key = ChunkKey { index: n, generation: 0 };
        self.slots.push(Slot { generation: 0, value: Some(chunk) });
        proof {
            assert forall|k: ChunkKey| #[trigger] old(self).live(k)
                implies self.live(k) && self.chunk_at(k) == old(self).chunk_at(k) by {
                assert(self.slots@[k.index as int] == old(self).slots@[k.index as int]);
            }
        }
        key
    }

    /// Whether the key currently resolves to a live chunk.
    pub fn is_live(&self, key: ChunkKey) -> (r: bool)
        ensures
            r == self.live(key),
    {
        key.index < self.slots.len() && self.slots[key.index].generation == key.generation
            && self.slots[key.index].value.is_some()
    }

    /// Remove the chunk the key resolves to, bumping the slot's generation
    /// so the key (and every copy of it) is dead from now on. Absent keys
    /// are a silent no-op. All other keys are untouched.
    pub fn remove(&mut self, key: ChunkKey) -> (r: Option<Chunk>)
        requires
            old(self).wf(),
        ensures
            final(self).wf(),
            r is Some <==> old(self).live(key),
            old(self).live(key) ==> r == Some(old(self).chunk_at(key)),
            !final(self).live(key),
            !old(self).live(key) ==> *final(self) == *old(self),
            forall|k: ChunkKey| #[trigger] old(self).live(k) && k != key
                ==> final(self).live(k) && final(self).chunk_at(k) == old(self).chunk_at(k),
            forall|k: ChunkKey| #[trigger] final(self).live(k)
                ==> old(self).live(k) && k != key,
    {
        let ghost pre = *self;
        if key.index < self.slots.len() && self.slots[key.index].generation == key.generation
            && self.slots[key.index].value.is_some() {
            let slot = self.slots.remove(key.index);
            self.slots.insert(key.index, Slot { generation: slot.generation + 1, value: None });
            proof {
                assert(self.slots@ =~= pre.slots@.update(key.index as int, self.slots@[key.index as int]));
                assert forall|k: ChunkKey| #[trigger] pre.live(k) && k != key
                    implies self.live(k) && self.chunk_at(k) == pre.chunk_at(k) by {
                    if k.index != key.index {
                        assert(self.slots@[k.index as int] == pre.slots@[k.index as int]);
                    }
                }
            }
            slot.value
        } else {
            None
        }
    }

    /// Take the chunk out of a live slot for exclusive access without
    /// bumping the generation: the key resolves to "absent" while the chunk
    /// is out, and [`Self::give_back`] restores it under the same key. This
    /// is how a worker locks a chunk for meshing.
    pub fn take_for_update(&mut self, key: ChunkKey) -> (r: Option<Chunk>)
        requires
            old(self).wf(),
        ensures
            final(self).wf(),
            r is Some <==> old(self).live(key),
            old(self).live(key) ==> r == Some(old(self).chunk_at(key)),
            !old(self).live(key) ==> *final(self) == *old(self),
            !final(self).live(key),
            old(self).live(key) ==> key.index < final(self).slots@.len()
                && final(self).slots@[key.index as int].generation == key.generation
                && final(self).slots@[key.index as int].value is None,
            forall|k: ChunkKey| #[trigger] old(self).live(k) && k != key
                ==> final(self).live(k) && final(self).chunk_at(k) == old(self).chunk_at(k),
            forall|k: ChunkKey| #[trigger] final(self).live(k)
                ==> old(self).live(k) && k != key,
    {
        let ghost pre = *self;
        if key.index < self.slots.len() && self.slots[key.index].generation == key.generation
            && self.slots[key.index].value.is_some() {
            let slot = self.slots.remove(key.index);
            self.slots.insert(key.index, Slot { generation: slot.generation, value: None });
            proof {
                assert(self.slots@ =~= pre.slots@.update(key.index as int, self.slots@[key.index as int]));
                assert forall|k: ChunkKey| #[trigger] pre.live(k) && k != key
                    implies self.live(k) && self.chunk_at(k) == pre.chunk_at(k) by {
                    if k.index != key.index {
                        assert(self.slots@[k.index as int] == pre.slots@[k.index as int]);
                    }
                }
            }
            slot.value
        } else {
            None
        }
    }

    /// Put a chunk taken with [`Self::take_for_update`] back into its slot;
    /// the same key is live again.
    pub fn give_back(&mut self, key: ChunkKey, chunk: Chunk)
        requires
            old(self).wf(),
            key.index < old(self).slots@.len(),
            old(self).slots@[key.index as int].generation == key.generation,
            old(self).slots@[key.index as int].value is None,
            key.generation < u64::MAX,
        ensures
            final(self).wf(),
            final(self).live(key),
            final(self).chunk_at(key) == chunk,
            forall|k: ChunkKey| #[trigger] old(self).live(k)
                ==> final(self).live(k) && final(self).chunk_at(k) == old(self).chunk_at(k),
            forall|k: ChunkKey| #[trigger] final(self).live(k)
                ==> old(self).live(k) || k == key,
    {
        let ghost pre = *self;
        self.slots.remove(key.index);
        self.slots.insert(key.index, Slot { generation: key.generation, value: Some(chunk) });
        proof {
            assert(self.slots@ =~= pre.slots@.update(key.index as int, self.slots@[key.index as int]));
            assert forall|k: ChunkKey| #[trigger] pre.live(k)
                implies self.live(k) && self.chunk_at(k) == pre.chunk_at(k) by {
                assert(k.index != key.index);
                assert(self.slots@[k.index as int] == pre.slots@[k.index as int]);
            }
        }
    }
}

} // verus!
