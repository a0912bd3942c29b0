//! Engine-wide constants.

use vstd::prelude::*;

verus! {

/// Edge length of a voxel chunk, in cells; a chunk holds `CHUNK_SIZE`^3 cells.
pub const CHUNK_SIZE: usize = 16;

/// Number of cells in one voxel chunk.
pub const CHUNK_VOLUME: usize = CHUNK_SIZE * CHUNK_SIZE * CHUNK_SIZE;

/// How many chunks around the viewer's chunk are kept loaded, per axis.
pub const RENDER_DISTANCE: usize = 10;

} // verus!
