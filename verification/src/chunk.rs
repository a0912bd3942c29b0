//! Voxel chunks and meshing.
//!
//! A voxel chunk is a fixed-size 3D grid of cells at a world-grid position.
//! Meshing turns the grid into a vertex/index stream: a face between a cell
//! and its neighbour is emitted exactly when the cell is solid and the
//! neighbour is empty or beyond the chunk boundary (boundary faces are always
//! emitted; there is no neighbour-chunk culling). The naive mesher emits one
//! quad per visible face; the greedy mesher merges axis-aligned runs of equal
//! exposed faces into single quads.

use vstd::prelude::*;

use crate::config::{CHUNK_SIZE, CHUNK_VOLUME};
use crate::vertex::{IVec3, Vertex};
use crate::world::ChunkPos;

verus! {

/// One voxel cell; id 0 is empty air, any other id is a solid material.
#[derive(Debug, Clone, Copy, PartialEq, Eq, Structural)]
pub struct Block {
    pub id: u16,
}

/// The six face directions of a cell.
#[derive(Debug, Clone, Copy, PartialEq, Eq, Structural)]
pub enum Side {
    /// x+
    North,
    /// y+
    Top,
    /// z+
    East,
    /// x-
    South,
    /// y-
    Bottom,
    /// z-
    West,
}

/// The side a sweep axis probes on the positive side of a slice.
pub open spec fn spec_side_from_index(value: int) -> Option<Side> {
    if value == 0 {
        Some(Side::North)
    } else if value == 1 {
        Some(Side::Top)
    } else if value == 2 {
        Some(Side::East)
    } else if value == 3 {
        Some(Side::South)
    } else if value == 4 {
        Some(Side::Bottom)
    } else if value == 5 {
        Some(Side::West)
    } else {
        None
    }
}

/// Map a sweep index to a side: 0..3 are the positive x, y, z faces, 3..6
/// the negative ones; anything else is no side.
pub fn side_from_index(value: usize) -> (r: Option<Side>)
    ensures
        r == spec_side_from_index(value as int),
{
    match value {
        0 => Some(Side::North),
        1 => Some(Side::Top),
        2 => Some(Side::East),
        3 => Some(Side::South),
        4 => Some(Side::Bottom),
        5 => Some(Side::West),
        _ => None,
    }
}

/// Flat index of cell `(x, y, z)` in a chunk's cell list.
pub open spec fn spec_block_index(x: int, y: int, z: int) -> int {
    x * (CHUNK_SIZE * CHUNK_SIZE) + y * CHUNK_SIZE + z
}

/// The grid coordinates of the cell a face probes: one step from
/// `(x, y, z)` in the direction of `side`.
pub open spec fn neighbor_of(x: int, y: int, z: int, side: Side) -> (int, int, int) {
    match side {
        Side::North => (x + 1, y, z),
        Side::South => (x - 1, y, z),
        Side::East => (x, y, z + 1),
        Side::West => (x, y, z - 1),
        Side::Top => (x, y + 1, z),
        Side::Bottom => (x, y - 1, z),
    }
}

/// A grid coordinate triple lies inside the chunk.
pub open spec fn in_grid(x: int, y: int, z: int) -> bool {
    &&& 0 <= x < CHUNK_SIZE
    &&& 0 <= y < CHUNK_SIZE
    &&& 0 <= z < CHUNK_SIZE
}

/// The face of cell `(x, y, z)` towards `side` is visible: its neighbour is
/// beyond the chunk boundary or an empty cell.
pub open spec fn spec_face_visible(blocks: Seq<Block>, x: int, y: int, z: int, side: Side) -> bool {
    let (nx, ny, nz) = neighbor_of(x, y, z, side);
    !in_grid(nx, ny, nz) || blocks[spec_block_index(nx, ny, nz)].id == 0
}

/// The face of cell `(x, y, z)` towards `side` is emitted: the cell is solid
/// and the face is visible.
pub open spec fn face_emitted(blocks: Seq<Block>, x: int, y: int, z: int, side: Side) -> bool {
    blocks[spec_block_index(x, y, z)].id != 0 && spec_face_visible(blocks, x, y, z, side)
}

/// The material id below the terrain height of a column: the generated
/// terrain is solid below height `|x - z|` and empty above it.
pub open spec fn terrain_id(x: int, y: int, z: int) -> u16 {
    if y < (if x >= z { x - z } else { z - x }) {
        1
    } else {
        0
    }
}

/// A freshly created, not yet meshed chunk at `pos` whose cells hold the
/// generated terrain: each column `(x, z)` is solid up to height `|x - z|`.
pub open spec fn is_fresh_terrain_chunk(c: Chunk, pos: ChunkPos) -> bool {
    &&& c.wf()
    &&& c.pos == pos
    &&& c.buffer is None
    &&& c.vertices_count == 0
    &&& c.indices_count == 0
    &&& forall|x: int, y: int, z: int| in_grid(x, y, z)
            ==> c.blocks@[spec_block_index(x, y, z)].id == terrain_id(x, y, z)
}

/// A voxel chunk: its world-grid position, its cells, and once meshed the
/// geometry buffer handle with the emitted vertex and index counts.
pub struct Chunk {
    pub pos: ChunkPos,
    pub blocks: Vec<Block>,
    pub buffer: Option<crate::memory::Block>,
    pub vertices_count: usize,
    pub indices_count: usize,
}

impl Chunk {
    /// The chunk holds exactly one cell per grid coordinate.
    pub open spec fn wf(self) -> bool {
        self.blocks@.len() == CHUNK_VOLUME
    }

    /// Create a chunk at `pos` and synchronously populate its voxel grid
    /// from the terrain function: each column `(x, z)` is solid up to height
    /// `|x - z|`. The chunk is not meshed yet.
    pub fn new(pos: ChunkPos) -> (r: Self)
        ensures
            r.wf(),
            r.pos == pos,
            r.buffer is None,
            r.vertices_count == 0,
            r.indices_count == 0,
            forall|x: int, y: int, z: int| in_grid(x, y, z)
                ==> r.blocks@[spec_block_index(x, y, z)].id == terrain_id(x, y, z),
            is_fresh_terrain_chunk(r, pos),
    {
        let mut blocks: Vec<Block> = Vec::new();
        let mut i: usize = 0;
        while i < CHUNK_VOLUME
            invariant
                0 <= i <= CHUNK_VOLUME,
                blocks@.len() == i,
                forall|j: int| 0 <= j < i ==> (#[trigger] blocks@[j]).id == 0,
            decreases CHUNK_VOLUME - i,
        {
            blocks.push(Block { id: 0 });
            i = i + 1;
        }
        let mut x: usize = 0;
        while x < CHUNK_SIZE
            invariant
                0 <= x <= CHUNK_SIZE,
                blocks@.len() == CHUNK_VOLUME,
                forall|a: int, b: int, c: int| in_grid(a, b, c) && a < x
                    ==> blocks@[spec_block_index(a, b, c)].id == terrain_id(a, b, c),
                forall|a: int, b: int, c: int| in_grid(a, b, c) && a >= x
                    ==> blocks@[spec_block_index(a, b, c)].id == 0,
            decreases CHUNK_SIZE - x,
        {
            proof {
                assert forall|b: int, c: int| 0 <= b < CHUNK_SIZE && 0 <= c < CHUNK_SIZE
                    implies blocks@[spec_block_index(x as int, b, c)].id == 0 by {
                    assert(in_grid(x as int, b, c));
                }
                assert forall|a: int, b: int, c: int| in_grid(a, b, c) && a > x
                    implies blocks@[spec_block_index(a, b, c)].id == 0 by {
                    assert(a >= x);
                }
            }
            let mut z: usize = 0;
            while z < CHUNK_SIZE
                invariant
                    0 <= x < CHUNK_SIZE,
                    0 <= z <= CHUNK_SIZE,
                    blocks@.len() == CHUNK_VOLUME,
                    forall|a: int, b: int, c: int| in_grid(a, b, c) && a < x
                        ==> blocks@[spec_block_index(a, b, c)].id == terrain_id(a, b, c),
                    forall|b: int, c: int| 0 <= b < CHUNK_SIZE && 0 <= c < z
                        ==> blocks@[spec_block_index(x as int, b, c)].id == terrain_id(x as int, b, c),
                    forall|b: int, c: int| 0 <= b < CHUNK_SIZE && z <= c < CHUNK_SIZE
                        ==> blocks@[spec_block_index(x as int, b, c)].id == 0,
                    forall|a: int, b: int, c: int| in_grid(a, b, c) && a > x
                        ==> blocks@[spec_block_index(a, b, c)].id == 0,
                decreases CHUNK_SIZE - z,
            {
                let height = if x >= z { x - z } else { z - x };
                let mut y: usize = 0;
                while y < height
                    invariant
                        0 <= x < CHUNK_SIZE,
                        0 <= z < CHUNK_SIZE,
                        height < CHUNK_SIZE,
                        height == (if x >= z { x - z } else { z - x }),
                        0 <= y <= height,
                        blocks@.len() == CHUNK_VOLUME,
                        forall|a: int, b: int, c: int| in_grid(a, b, c) && a < x
                            ==> blocks@[spec_block_index(a, b, c)].id == terrain_id(a, b, c),
                        forall|b: int, c: int| 0 <= b < CHUNK_SIZE && 0 <= c < z
                            ==> blocks@[spec_block_index(x as int, b, c)].id == terrain_id(x as int, b, c),
                        forall|b: int| 0 <= b < y
                            ==> blocks@[spec_block_index(x as int, b, z as int)].id == 1,
                        forall|b: int| y <= b < CHUNK_SIZE
                            ==> blocks@[spec_block_index(x as int, b, z as int)].id == 0,
                        forall|b: int, c: int| 0 <= b < CHUNK_SIZE && z < c < CHUNK_SIZE
                            ==> blocks@[spec_block_index(x as int, b, c)].id == 0,
                        forall|a: int, b: int, c: int| in_grid(a, b, c) && a > x
                            ==> blocks@[spec_block_index(a, b, c)].id == 0,
                    decreases height - y,
                {
                    let idx = x * (CHUNK_SIZE * CHUNK_SIZE) + y * CHUNK_SIZE + z;
                    blocks.set(idx, Block { id: 1 });
                    proof {
                        lemma_block_index_injective();
                    }
                    y = y + 1;
                }
                z = z + 1;
            }
            x = x + 1;
        }
        Self { pos, blocks, buffer: None, vertices_count: 0, indices_count: 0 }
    }

    /// Flat index of cell `(x, y, z)`.
    pub fn block_pos_to_index(x: u32, y: u32, z: u32) -> (r: usize)
        requires
            x < CHUNK_SIZE,
            y < CHUNK_SIZE,
            z < CHUNK_SIZE,
        ensures
            r == spec_block_index(x as int, y as int, z as int),
            r < CHUNK_VOLUME,
    {
        (x as usize) * (CHUNK_SIZE * CHUNK_SIZE) + (y as usize) * CHUNK_SIZE + (z as usize)
    }

    /// Whether the face of cell `(x, y, z)` towards `side` is visible: true
    /// at the chunk boundary, and against an empty neighbour.
    pub fn is_face_visible(&self, x: i32, y: i32, z: i32, side: Side) -> (r: bool)
        requires
            self.wf(),
            0 <= x < CHUNK_SIZE,
            0 <= y < CHUNK_SIZE,
            0 <= z < CHUNK_SIZE,
        ensures
            r == spec_face_visible(self.blocks@, x as int, y as int, z as int, side),
    {
        let (nx, ny, nz) = match side {
            Side::North => (x + 1, y, z),
            Side::South => (x - 1, y, z),
            Side::East => (x, y, z + 1),
            Side::West => (x, y, z - 1),
            Side::Top => (x, y + 1, z),
            Side::Bottom => (x, y - 1, z),
        };
        if nx < 0 || nx >= CHUNK_SIZE as i32 || ny < 0 || ny >= CHUNK_SIZE as i32 || nz < 0
            || nz >= CHUNK_SIZE as i32 {
            return true;
        }
        let block = self.blocks[Self::block_pos_to_index(nx as u32, ny as u32, nz as u32)];
        block.id == 0
    }
}

/// The side swept at index `s` of the face enumeration; total version of
/// [`spec_side_from_index`] for counting.
pub open spec fn nth_side(s: int) -> Side {
    if s == 0 {
        Side::North
    } else if s == 1 {
        Side::Top
    } else if s == 2 {
        Side::East
    } else if s == 3 {
        Side::South
    } else if s == 4 {
        Side::Bottom
    } else {
        Side::West
    }
}

/// X coordinate of the cell with flat index `c`.
pub open spec fn cell_x(c: int) -> int {
    c / (CHUNK_SIZE * CHUNK_SIZE) as int
}

/// Y coordinate of the cell with flat index `c`.
pub open spec fn cell_y(c: int) -> int {
    (c % (CHUNK_SIZE * CHUNK_SIZE) as int) / CHUNK_SIZE as int
}

/// Z coordinate of the cell with flat index `c`.
pub open spec fn cell_z(c: int) -> int {
    c % CHUNK_SIZE as int
}

/// Number of emitted faces of the cell at `(x, y, z)` among the first `s`
/// sides of the enumeration.
pub open spec fn faces_in_cell_upto(blocks: Seq<Block>, x: int, y: int, z: int, s: int) -> int
    decreases s,
{
    if s <= 0 {
        0
    } else {
        faces_in_cell_upto(blocks, x, y, z, s - 1)
            + if face_emitted(blocks, x, y, z, nth_side(s - 1)) {
                1int
            } else {
                0int
            }
    }
}

/// Number of emitted faces among the cells with flat index below `c`.
pub open spec fn faces_upto(blocks: Seq<Block>, c: int) -> int
    decreases c,
{
    if c <= 0 {
        0
    } else {
        faces_upto(blocks, c - 1)
            + faces_in_cell_upto(blocks, cell_x(c - 1), cell_y(c - 1), cell_z(c - 1), 6)
    }
}

/// Total number of visible faces of the grid: the pairs of a solid cell and
/// a side whose neighbour is empty or beyond the boundary.
pub open spec fn visible_face_count(blocks: Seq<Block>) -> int {
    faces_upto(blocks, CHUNK_VOLUME as int)
}

/// A cell emits at most six faces, so the first `c` cells emit at most `6c`.
pub proof fn lemma_face_count_bound(blocks: Seq<Block>, c: int)
    requires
        c >= 0,
    ensures
        0 <= faces_upto(blocks, c) <= 6 * c,
    decreases c,
{
    if c > 0 {
        lemma_face_count_bound(blocks, c - 1);
        lemma_faces_in_cell_bound(blocks, cell_x(c - 1), cell_y(c - 1), cell_z(c - 1), 6);
    }
}

/// A cell emits at most one face per side.
pub proof fn lemma_faces_in_cell_bound(blocks: Seq<Block>, x: int, y: int, z: int, s: int)
    requires
        s >= 0,
    ensures
        0 <= faces_in_cell_upto(blocks, x, y, z, s) <= s,
    decreases s,
{
    if s > 0 {
        lemma_faces_in_cell_bound(blocks, x, y, z, s - 1);
    }
}

/// A positive visible-face count yields a witness: some solid cell with a
/// visible face towards one of the six sides.
pub proof fn lemma_face_count_witness(blocks: Seq<Block>)
    requires
        visible_face_count(blocks) > 0,
    ensures
        exists|x: int, y: int, z: int, s: int|
            0 <= s < 6 && in_grid(x, y, z) && #[trigger] face_emitted(blocks, x, y, z, nth_side(s)),
{
    lemma_faces_upto_witness(blocks, CHUNK_VOLUME as int);
}

/// Helper for [`lemma_face_count_witness`], by induction over the cell
/// enumeration.
proof fn lemma_faces_upto_witness(blocks: Seq<Block>, c: int)
    requires
        0 <= c <= CHUNK_VOLUME,
        faces_upto(blocks, c) > 0,
    ensures
        exists|x: int, y: int, z: int, s: int|
            0 <= s < 6 && in_grid(x, y, z) && #[trigger] face_emitted(blocks, x, y, z, nth_side(s)),
    decreases c,
{
    lemma_face_count_bound(blocks, c - 1);
    if faces_upto(blocks, c - 1) > 0 {
        lemma_faces_upto_witness(blocks, c - 1);
    } else {
        let x = cell_x(c - 1);
        let y = cell_y(c - 1);
        let z = cell_z(c - 1);
        assert(in_grid(x, y, z)) by (nonlinear_arith)
            requires 0 <= c - 1 < 4096 && x == (c - 1) / 256 && y == ((c - 1) % 256) / 16
                && z == (c - 1) % 16;
        lemma_faces_in_cell_witness(blocks, x, y, z, 6);
    }
}

/// Helper: a cell with a positive face count has an emitting side.
proof fn lemma_faces_in_cell_witness(blocks: Seq<Block>, x: int, y: int, z: int, s: int)
    requires
        0 <= s <= 6,
        in_grid(x, y, z),
        faces_in_cell_upto(blocks, x, y, z, s) > 0,
    ensures
        exists|x2: int, y2: int, z2: int, s2: int|
            0 <= s2 < 6 && in_grid(x2, y2, z2)
                && #[trigger] face_emitted(blocks, x2, y2, z2, nth_side(s2)),
    decreases s,
{
    lemma_faces_in_cell_bound(blocks, x, y, z, s - 1);
    if faces_in_cell_upto(blocks, x, y, z, s - 1) > 0 {
        lemma_faces_in_cell_witness(blocks, x, y, z, s - 1);
    } else {
        assert(face_emitted(blocks, x, y, z, nth_side(s - 1)));
        assert(0 <= s - 1 < 6 && in_grid(x, y, z));
    }
}

/// Quad `k` of the index stream is two triangles over its own four
/// vertices, in the fixed pattern the mesher writes.
pub open spec fn quad_indices_ok(indices: Seq<u32>, k: int) -> bool {
    &&& indices[6 * k] == 4 * k
    &&& indices[6 * k + 1] == 4 * k + 1
    &&& indices[6 * k + 2] == 4 * k + 2
    &&& indices[6 * k + 3] == 4 * k + 2
    &&& indices[6 * k + 4] == 4 * k + 3
    &&& indices[6 * k + 5] == 4 * k
}

/// The vertex is one the mesher can emit for the chunk at `pos`: some
/// chunk-local corner translated by `CHUNK_SIZE` times the chunk position,
/// with the white tint and one of the six directional light modifiers.
pub open spec fn emitted_vertex(v: Vertex, pos: ChunkPos) -> bool {
    exists|c: IVec3, s: Side|
        0 <= c.x <= CHUNK_SIZE && 0 <= c.y <= CHUNK_SIZE && 0 <= c.z <= CHUNK_SIZE
            && v == #[trigger] vertex_for(c, s, pos)
}

/// The four vertices of quad `q` share one light modifier: the modifier is
/// per face, not per vertex.
pub open spec fn quad_light_uniform(vertices: Seq<Vertex>, q: int) -> bool {
    &&& vertices[4 * q].light_modifier == vertices[4 * q + 1].light_modifier
    &&& vertices[4 * q].light_modifier == vertices[4 * q + 2].light_modifier
    &&& vertices[4 * q].light_modifier == vertices[4 * q + 3].light_modifier
}

/// The chunk position is small enough that translating chunk-local corners
/// into world cell coordinates stays within `i32`: a corner component is at
/// most `CHUNK_SIZE`, so the coordinate must fit below
/// `(i32::MAX - CHUNK_SIZE) / CHUNK_SIZE`.
pub open spec fn pos_in_range(pos: ChunkPos) -> bool {
    &&& -134217728 <= pos.x <= 134217726
    &&& pos.y <= 134217726
    &&& -134217728 <= pos.z <= 134217726
}

/// The per-face light modifier: directional shading, brightest on top.
pub open spec fn spec_light_of(side: Side) -> u8 {
    match side {
        Side::North | Side::South => 8,
        Side::West | Side::East => 6,
        Side::Top => 10,
        Side::Bottom => 5,
    }
}

/// The vertex emitted for corner `c` of a face towards `side` in the chunk
/// at `pos`: the corner translated into world cell coordinates, a white
/// tint, and the side's light modifier.
pub open spec fn vertex_for(c: IVec3, side: Side, pos: ChunkPos) -> Vertex {
    Vertex {
        x: (c.x + pos.x * CHUNK_SIZE) as i32,
        y: (c.y + pos.y * CHUNK_SIZE) as i32,
        z: (c.z + pos.z * CHUNK_SIZE) as i32,
        red: 255,
        green: 255,
        blue: 255,
        light_modifier: spec_light_of(side),
    }
}

/// The vertex lies within the world-space box of the chunk at `pos`.
pub open spec fn vertex_in_chunk(v: Vertex, pos: ChunkPos) -> bool {
    &&& pos.x * CHUNK_SIZE <= v.x <= pos.x * CHUNK_SIZE + CHUNK_SIZE
    &&& pos.y * CHUNK_SIZE <= v.y <= pos.y * CHUNK_SIZE + CHUNK_SIZE
    &&& pos.z * CHUNK_SIZE <= v.z <= pos.z * CHUNK_SIZE + CHUNK_SIZE
}

/// Write one quad: four vertices at `vertices[vi..vi + 4]` (the corners
/// translated by the chunk position) and six indices at
/// `indices[ii..ii + 6]` forming two triangles over those vertices.
/// Everything before `vi` and `ii` is left untouched.
fn emit_quad(
    vertices: &mut Vec<Vertex>,
    indices: &mut Vec<u32>,
    c0: IVec3,
    c1: IVec3,
    c2: IVec3,
    c3: IVec3,
    side: Side,
    pos: ChunkPos,
    vi: usize,
    ii: usize,
)
    requires
        ii == vi / 4 * 6,
        vi % 4 == 0,
        vi + 4 <= old(vertices).len(),
        ii + 6 <= old(indices).len(),
        old(vertices).len() <= u32::MAX,
        pos_in_range(pos),
        0 <= c0.x <= CHUNK_SIZE && 0 <= c0.y <= CHUNK_SIZE && 0 <= c0.z <= CHUNK_SIZE,
        0 <= c1.x <= CHUNK_SIZE && 0 <= c1.y <= CHUNK_SIZE && 0 <= c1.z <= CHUNK_SIZE,
        0 <= c2.x <= CHUNK_SIZE && 0 <= c2.y <= CHUNK_SIZE && 0 <= c2.z <= CHUNK_SIZE,
        0 <= c3.x <= CHUNK_SIZE && 0 <= c3.y <= CHUNK_SIZE && 0 <= c3.z <= CHUNK_SIZE,
    ensures
        final(vertices).len() == old(vertices).len(),
        final(indices).len() == old(indices).len(),
        forall|k: int| 0 <= k < vi ==> final(vertices)@[k] == old(vertices)@[k],
        forall|k: int| 0 <= k < ii ==> final(indices)@[k] == old(indices)@[k],
        final(vertices)@[vi as int] == vertex_for(c0, side, pos),
        final(vertices)@[vi + 1] == vertex_for(c1, side, pos),
        final(vertices)@[vi + 2] == vertex_for(c2, side, pos),
        final(vertices)@[vi + 3] == vertex_for(c3, side, pos),
        forall|k: int| vi <= k < vi + 4 ==> vertex_in_chunk(final(vertices)@[k], pos),
        forall|k: int| ii <= k < ii + 6 ==> (#[trigger] final(indices)@[k]) < vi + 4,
        final(indices)@[ii as int] == vi,
        final(indices)@[ii + 1] == vi + 1,
        final(indices)@[ii + 2] == vi + 2,
        final(indices)@[ii + 3] == vi + 2,
        final(indices)@[ii + 4] == vi + 3,
        final(indices)@[ii + 5] == vi,
        forall|k: int| vi + 4 <= k < final(vertices)@.len()
            ==> final(vertices)@[k] == old(vertices)@[k],
        forall|k: int| ii + 6 <= k < final(indices)@.len()
            ==> final(indices)@[k] == old(indices)@[k],
{
    let tx = pos.x * CHUNK_SIZE as i32;
    let ty = (pos.y as i32) * CHUNK_SIZE as i32;
    let tz = pos.z * CHUNK_SIZE as i32;
    let light_modifier: u8 = match side {
        Side::North | Side::South => 8,
        Side::West | Side::East => 6,
        Side::Top => 10,
        Side::Bottom => 5,
    };
    vertices.set(vi, Vertex {
        x: c0.x + tx, y: c0.y + ty, z: c0.z + tz,
        red: 255, green: 255, blue: 255, light_modifier,
    });
    vertices.set(vi + 1, Vertex {
        x: c1.x + tx, y: c1.y + ty, z: c1.z + tz,
        red: 255, green: 255, blue: 255, light_modifier,
    });
    vertices.set(vi + 2, Vertex {
        x: c2.x + tx, y: c2.y + ty, z: c2.z + tz,
        red: 255, green: 255, blue: 255, light_modifier,
    });
    vertices.set(vi + 3, Vertex {
        x: c3.x + tx, y: c3.y + ty, z: c3.z + tz,
        red: 255, green: 255, blue: 255, light_modifier,
    });
    let base = vi as u32;
    indices.set(ii, base);
    indices.set(ii + 1, base + 1);
    indices.set(ii + 2, base + 2);
    indices.set(ii + 3, base + 2);
    indices.set(ii + 4, base + 3);
    indices.set(ii + 5, base);
}

/// The four corners of the unit face of cell `(x, y, z)` towards `side`:
/// positive faces lie on the far plane of the cell, negative faces on the
/// near plane.
fn corners_for(x: u32, y: u32, z: u32, side: Side) -> (r: (IVec3, IVec3, IVec3, IVec3))
    requires
        x < CHUNK_SIZE,
        y < CHUNK_SIZE,
        z < CHUNK_SIZE,
    ensures
        0 <= r.0.x <= CHUNK_SIZE && 0 <= r.0.y <= CHUNK_SIZE && 0 <= r.0.z <= CHUNK_SIZE,
        0 <= r.1.x <= CHUNK_SIZE && 0 <= r.1.y <= CHUNK_SIZE && 0 <= r.1.z <= CHUNK_SIZE,
        0 <= r.2.x <= CHUNK_SIZE && 0 <= r.2.y <= CHUNK_SIZE && 0 <= r.2.z <= CHUNK_SIZE,
        0 <= r.3.x <= CHUNK_SIZE && 0 <= r.3.y <= CHUNK_SIZE && 0 <= r.3.z <= CHUNK_SIZE,
{
    let xi = x as i32;
    let yi = y as i32;
    let zi = z as i32;
    match side {
        Side::North => (
            IVec3 { x: xi + 1, y: yi, z: zi },
            IVec3 { x: xi + 1, y: yi + 1, z: zi },
            IVec3 { x: xi + 1, y: yi + 1, z: zi + 1 },
            IVec3 { x: xi + 1, y: yi, z: zi + 1 },
        ),
        Side::South => (
            IVec3 { x: xi, y: yi, z: zi + 1 },
            IVec3 { x: xi, y: yi + 1, z: zi + 1 },
            IVec3 { x: xi, y: yi + 1, z: zi },
            IVec3 { x: xi, y: yi, z: zi },
        ),
        Side::Top => (
            IVec3 { x: xi, y: yi + 1, z: zi },
            IVec3 { x: xi, y: yi + 1, z: zi + 1 },
            IVec3 { x: xi + 1, y: yi + 1, z: zi + 1 },
            IVec3 { x: xi + 1, y: yi + 1, z: zi },
        ),
        Side::Bottom => (
            IVec3 { x: xi, y: yi, z: zi + 1 },
            IVec3 { x: xi, y: yi, z: zi },
            IVec3 { x: xi + 1, y: yi, z: zi },
            IVec3 { x: xi + 1, y: yi, z: zi + 1 },
        ),
        Side::East => (
            IVec3 { x: xi, y: yi, z: zi + 1 },
            IVec3 { x: xi + 1, y: yi, z: zi + 1 },
            IVec3 { x: xi + 1, y: yi + 1, z: zi + 1 },
            IVec3 { x: xi, y: yi + 1, z: zi + 1 },
        ),
        Side::West => (
            IVec3 { x: xi, y: yi + 1, z: zi },
            IVec3 { x: xi + 1, y: yi + 1, z: zi },
            IVec3 { x: xi + 1, y: yi, z: zi },
            IVec3 { x: xi, y: yi, z: zi },
        ),
    }
}

/// The mesher's output invariant over the first `vi` vertices and `ii`
/// indices: well-formed two-triangle quads with one light modifier each,
/// every vertex a translated corner with the white tint, and everything at
/// or beyond the counts untouched. Kept opaque so the meshing loops carry it
/// as one fact; [`lemma_emit_step`] extends it across one emitted quad.
#[verifier::opaque]
spec fn mesh_output_ok(
    vertices: Seq<Vertex>,
    orig_vertices: Seq<Vertex>,
    indices: Seq<u32>,
    orig_indices: Seq<u32>,
    vi: int,
    ii: int,
    pos: ChunkPos,
) -> bool {
    &&& forall|k: int| 0 <= k < vi / 4
            ==> (#[trigger] quad_indices_ok(indices, k)) && quad_light_uniform(vertices, k)
    &&& forall|k: int| 0 <= k < vi ==> emitted_vertex(#[trigger] vertices[k], pos)
    &&& forall|k: int| vi <= k < vertices.len() ==> vertices[k] == orig_vertices[k]
    &&& forall|k: int| ii <= k < indices.len() ==> indices[k] == orig_indices[k]
}

/// One quad was appended at vertex index `vi` and index position `ii` (the
/// effect [`emit_quad`] ensures): all the per-quad output invariants extend
/// from `vi` quads to `vi + 4`.
#[verifier::rlimit(50)]
proof fn lemma_emit_step(
    orig_vertices: Seq<Vertex>,
    pre_vertices: Seq<Vertex>,
    vertices: Seq<Vertex>,
    orig_indices: Seq<u32>,
    pre_indices: Seq<u32>,
    indices: Seq<u32>,
    vi: int,
    ii: int,
    c0: IVec3,
    c1: IVec3,
    c2: IVec3,
    c3: IVec3,
    side: Side,
    pos: ChunkPos,
)
    requires
        vi % 4 == 0,
        ii == vi / 4 * 6,
        0 <= vi,
        vi + 4 <= vertices.len(),
        ii + 6 <= indices.len(),
        vertices.len() == pre_vertices.len() && pre_vertices.len() == orig_vertices.len(),
        indices.len() == pre_indices.len() && pre_indices.len() == orig_indices.len(),
        forall|k: int| 0 <= k < vi ==> vertices[k] == pre_vertices[k],
        forall|k: int| 0 <= k < ii ==> indices[k] == pre_indices[k],
        forall|k: int| vi + 4 <= k < vertices.len() ==> vertices[k] == pre_vertices[k],
        forall|k: int| ii + 6 <= k < indices.len() ==> indices[k] == pre_indices[k],
        vertices[vi] == vertex_for(c0, side, pos),
        vertices[vi + 1] == vertex_for(c1, side, pos),
        vertices[vi + 2] == vertex_for(c2, side, pos),
        vertices[vi + 3] == vertex_for(c3, side, pos),
        indices[ii] == vi,
        indices[ii + 1] == vi + 1,
        indices[ii + 2] == vi + 2,
        indices[ii + 3] == vi + 2,
        indices[ii + 4] == vi + 3,
        indices[ii + 5] == vi,
        0 <= c0.x <= CHUNK_SIZE && 0 <= c0.y <= CHUNK_SIZE && 0 <= c0.z <= CHUNK_SIZE,
        0 <= c1.x <= CHUNK_SIZE && 0 <= c1.y <= CHUNK_SIZE && 0 <= c1.z <= CHUNK_SIZE,
        0 <= c2.x <= CHUNK_SIZE && 0 <= c2.y <= CHUNK_SIZE && 0 <= c2.z <= CHUNK_SIZE,
        0 <= c3.x <= CHUNK_SIZE && 0 <= c3.y <= CHUNK_SIZE && 0 <= c3.z <= CHUNK_SIZE,
        mesh_output_ok(pre_vertices, orig_vertices, pre_indices, orig_indices, vi, ii, pos),
    ensures
        mesh_output_ok(vertices, orig_vertices, indices, orig_indices, vi + 4, ii + 6, pos),
{
    reveal(mesh_output_ok);
    let q = vi / 4;
    assert((vi + 4) / 4 == q + 1);
    assert forall|k: int| 0 <= k < q + 1
        implies (#[trigger] quad_indices_ok(indices, k)) && quad_light_uniform(vertices, k) by {
        if k < q {
            assert(0 <= k && k < vi / 4);
            assert(quad_indices_ok(pre_indices, k));
            assert(quad_light_uniform(pre_vertices, k));
            assert(6 * k + 5 < ii && 4 * k + 3 < vi);
            assert(indices[6 * k] == pre_indices[6 * k]
                && indices[6 * k + 1] == pre_indices[6 * k + 1]
                && indices[6 * k + 2] == pre_indices[6 * k + 2]
                && indices[6 * k + 3] == pre_indices[6 * k + 3]
                && indices[6 * k + 4] == pre_indices[6 * k + 4]
                && indices[6 * k + 5] == pre_indices[6 * k + 5]);
            assert(vertices[4 * k] == pre_vertices[4 * k]
                && vertices[4 * k + 1] == pre_vertices[4 * k + 1]
                && vertices[4 * k + 2] == pre_vertices[4 * k + 2]
                && vertices[4 * k + 3] == pre_vertices[4 * k + 3]);
        } else {
            assert(6 * k == ii && 4 * k == vi);
        }
    }
    assert forall|k: int| 0 <= k < vi + 4
        implies emitted_vertex(#[trigger] vertices[k], pos) by {
        if k < vi {
            assert(vertices[k] == pre_vertices[k]);
            assert(emitted_vertex(pre_vertices[k], pos));
        } else if k == vi {
            assert(vertices[k] == vertex_for(c0, side, pos));
        } else if k == vi + 1 {
            assert(vertices[k] == vertex_for(c1, side, pos));
        } else if k == vi + 2 {
            assert(vertices[k] == vertex_for(c2, side, pos));
        } else {
            assert(vertices[k] == vertex_for(c3, side, pos));
        }
    }
}

/// Every index of a stream of well-formed quads points below the vertex
/// count.
proof fn lemma_quads_bound_indices(indices: Seq<u32>, quads: int)
    requires
        0 <= quads,
        6 * quads <= indices.len(),
        forall|q: int| 0 <= q < quads ==> #[trigger] quad_indices_ok(indices, q),
    ensures
        forall|k: int| 0 <= k < 6 * quads ==> (#[trigger] indices[k]) < 4 * quads,
{
    assert forall|k: int| 0 <= k < 6 * quads implies (#[trigger] indices[k]) < 4 * quads by {
        let q = k / 6;
        assert(0 <= q < quads && 6 * q <= k && k < 6 * q + 6) by (nonlinear_arith)
            requires
                0 <= k < 6 * quads,
                q == k / 6;
        assert(quad_indices_ok(indices, q));
        assert(k == 6 * q || k == 6 * q + 1 || k == 6 * q + 2 || k == 6 * q + 3
            || k == 6 * q + 4 || k == 6 * q + 5);
    }
}

/// Every vertex the mesher can emit lies in the chunk's world-space box.
proof fn lemma_emitted_in_box(vertices: Seq<Vertex>, n: int, pos: ChunkPos)
    requires
        pos_in_range(pos),
        0 <= n <= vertices.len(),
        forall|k: int| 0 <= k < n ==> emitted_vertex(#[trigger] vertices[k], pos),
    ensures
        forall|k: int| 0 <= k < n ==> vertex_in_chunk(#[trigger] vertices[k], pos),
{
    assert forall|k: int| 0 <= k < n implies vertex_in_chunk(#[trigger] vertices[k], pos) by {
        let (c, sd) = choose|c: IVec3, sd: Side|
            0 <= c.x <= CHUNK_SIZE && 0 <= c.y <= CHUNK_SIZE && 0 <= c.z <= CHUNK_SIZE
                && vertices[k] == #[trigger] vertex_for(c, sd, pos);
        assert(vertices[k] == vertex_for(c, sd, pos));
    }
}

/// More scanned sides can only raise a cell's face count.
proof fn lemma_faces_in_cell_monotone(blocks: Seq<Block>, x: int, y: int, z: int, s1: int, s2: int)
    requires
        0 <= s1 <= s2,
    ensures
        faces_in_cell_upto(blocks, x, y, z, s1) <= faces_in_cell_upto(blocks, x, y, z, s2),
    decreases s2,
{
    if s1 < s2 {
        lemma_faces_in_cell_monotone(blocks, x, y, z, s1, s2 - 1);
    }
}

/// More scanned cells can only raise the total face count.
proof fn lemma_faces_upto_monotone(blocks: Seq<Block>, c1: int, c2: int)
    requires
        0 <= c1 <= c2,
    ensures
        faces_upto(blocks, c1) <= faces_upto(blocks, c2),
    decreases c2,
{
    if c1 < c2 {
        lemma_faces_upto_monotone(blocks, c1, c2 - 1);
        lemma_faces_in_cell_bound(blocks, cell_x(c2 - 1), cell_y(c2 - 1), cell_z(c2 - 1), 6);
    }
}

/// An emitted face makes the grid's visible face count positive.
pub proof fn lemma_emitted_face_counts(blocks: Seq<Block>, x: int, y: int, z: int, s: int)
    requires
        0 <= s < 6,
        in_grid(x, y, z),
        face_emitted(blocks, x, y, z, nth_side(s)),
    ensures
        visible_face_count(blocks) > 0,
{
    let c = spec_block_index(x, y, z);
    lemma_faces_in_cell_bound(blocks, x, y, z, s);
    assert(faces_in_cell_upto(blocks, x, y, z, s + 1) >= 1);
    lemma_faces_in_cell_monotone(blocks, x, y, z, s + 1, 6);
    assert(cell_x(c) == x && cell_y(c) == y && cell_z(c) == z) by (nonlinear_arith)
        requires
            in_grid(x, y, z),
            c == x * 256 + y * 16 + z;
    lemma_face_count_bound(blocks, c);
    assert(faces_upto(blocks, c + 1) >= 1);
    lemma_faces_upto_monotone(blocks, c + 1, CHUNK_VOLUME as int);
}

/// A solid cell always exposes a face: walking towards the boundary along
/// the positive x axis, the last solid cell of the run has a visible face
/// (against an empty neighbour, or the boundary itself).
pub proof fn lemma_solid_cell_has_face(blocks: Seq<Block>, x: int, y: int, z: int)
    requires
        in_grid(x, y, z),
        blocks[spec_block_index(x, y, z)].id != 0,
    ensures
        visible_face_count(blocks) > 0,
    decreases CHUNK_SIZE - x,
{
    if x == CHUNK_SIZE - 1 || blocks[spec_block_index(x + 1, y, z)].id == 0 {
        assert(spec_face_visible(blocks, x, y, z, Side::North));
        assert(face_emitted(blocks, x, y, z, nth_side(0)));
        lemma_emitted_face_counts(blocks, x, y, z, 0);
    } else {
        lemma_solid_cell_has_face(blocks, x + 1, y, z);
    }
}

impl Chunk {
    /// Naive per-face meshing: one quad (four vertices, six indices) for
    /// every face of a solid cell whose neighbour is empty or beyond the
    /// boundary. The exact quad count is the grid's visible face count.
    /// Output is written into the caller-supplied fixed-capacity storage;
    /// the emitted counts are stored on the chunk.
    pub fn mesh_naive(&mut self, vertices: &mut Vec<Vertex>, indices: &mut Vec<u32>)
        requires
            old(self).wf(),
            pos_in_range(old(self).pos),
            old(vertices).len() >= 24 * CHUNK_VOLUME,
            old(indices).len() >= 36 * CHUNK_VOLUME,
            old(vertices).len() <= u32::MAX,
        ensures
            final(self).wf(),
            final(self).pos == old(self).pos,
            final(self).blocks == old(self).blocks,
            final(self).buffer == old(self).buffer,
            final(vertices).len() == old(vertices).len(),
            final(indices).len() == old(indices).len(),
            final(self).vertices_count == 4 * visible_face_count(old(self).blocks@),
            final(self).indices_count == 6 * visible_face_count(old(self).blocks@),
            final(self).vertices_count <= 24 * CHUNK_VOLUME,
            forall|k: int| 0 <= k < final(self).indices_count
                ==> (#[trigger] final(indices)@[k]) < final(self).vertices_count,
            forall|k: int| 0 <= k < final(self).vertices_count
                ==> vertex_in_chunk(#[trigger] final(vertices)@[k], old(self).pos),
            forall|k: int| 0 <= k < final(self).vertices_count / 4
                ==> (#[trigger] quad_indices_ok(final(indices)@, k))
                    && quad_light_uniform(final(vertices)@, k),
            forall|k: int| 0 <= k < final(self).vertices_count
                ==> emitted_vertex(#[trigger] final(vertices)@[k], old(self).pos),
            forall|k: int| final(self).vertices_count <= k < final(vertices)@.len()
                ==> final(vertices)@[k] == old(vertices)@[k],
            forall|k: int| final(self).indices_count <= k < final(indices)@.len()
                ==> final(indices)@[k] == old(indices)@[k],
    {
        let mut vi: usize = 0;
        let mut ii: usize = 0;
        proof {
            reveal(mesh_output_ok);
            assert(mesh_output_ok(vertices@, old(vertices)@, indices@, old(indices)@, 0, 0, self.pos));
        }
        let mut c: usize = 0;
        while c < CHUNK_VOLUME
            invariant
                0 <= c <= CHUNK_VOLUME,
                self.wf(),
                *self == *old(self),
                pos_in_range(self.pos),
                vertices.len() == old(vertices).len(),
                indices.len() == old(indices).len(),
                vertices.len() >= 24 * CHUNK_VOLUME,
                indices.len() >= 36 * CHUNK_VOLUME,
                vertices.len() <= u32::MAX,
                vi == 4 * faces_upto(self.blocks@, c as int),
                ii == 6 * faces_upto(self.blocks@, c as int),
                mesh_output_ok(vertices@, old(vertices)@, indices@, old(indices)@, vi as int, ii as int, self.pos),
            decreases CHUNK_VOLUME - c,
        {
            proof {
                lemma_face_count_bound(self.blocks@, c as int);
                assert(cell_x(c as int) < CHUNK_SIZE && cell_y(c as int) < CHUNK_SIZE
                    && cell_z(c as int) < CHUNK_SIZE && cell_x(c as int) >= 0
                    && cell_y(c as int) >= 0 && cell_z(c as int) >= 0) by (nonlinear_arith)
                    requires 0 <= (c as int) < 4096;
            }
            let x = (c / (CHUNK_SIZE * CHUNK_SIZE)) as u32;
            let y = ((c % (CHUNK_SIZE * CHUNK_SIZE)) / CHUNK_SIZE) as u32;
            let z = (c % CHUNK_SIZE) as u32;
            let solid = self.blocks[Self::block_pos_to_index(x, y, z)].id != 0;
            let mut s: usize = 0;
            while s < 6
                invariant
                    0 <= s <= 6,
                    0 <= c < CHUNK_VOLUME,
                    self.wf(),
                    *self == *old(self),
                    pos_in_range(self.pos),
                    x == cell_x(c as int) && y == cell_y(c as int) && z == cell_z(c as int),
                    x < CHUNK_SIZE && y < CHUNK_SIZE && z < CHUNK_SIZE,
                    solid == (self.blocks@[spec_block_index(x as int, y as int, z as int)].id != 0),
                    vertices.len() == old(vertices).len(),
                    indices.len() == old(indices).len(),
                    vertices.len() >= 24 * CHUNK_VOLUME,
                    indices.len() >= 36 * CHUNK_VOLUME,
                    vertices.len() <= u32::MAX,
                    vi == 4 * (faces_upto(self.blocks@, c as int)
                        + faces_in_cell_upto(self.blocks@, x as int, y as int, z as int, s as int)),
                    ii == 6 * (faces_upto(self.blocks@, c as int)
                        + faces_in_cell_upto(self.blocks@, x as int, y as int, z as int, s as int)),
                    mesh_output_ok(vertices@, old(vertices)@, indices@, old(indices)@, vi as int, ii as int, self.pos),
                decreases 6 - s,
            {
                let side = match side_from_index(s) {
                    Some(side) => side,
                    None => vstd::pervasive::unreached(),
                };
                proof {
                    assert(side == nth_side(s as int));
                    lemma_face_count_bound(self.blocks@, c as int);
                    lemma_faces_in_cell_bound(self.blocks@, x as int, y as int, z as int, s as int);
                }
                if solid && self.is_face_visible(x as i32, y as i32, z as i32, side) {
                    let (c0, c1, c2, c3) = corners_for(x, y, z, side);
                    let ghost pre_vertices = vertices@;
                    let ghost pre_indices = indices@;
                    emit_quad(vertices, indices, c0, c1, c2, c3, side, self.pos, vi, ii);
                    vi = vi + 4;
                    ii = ii + 6;
                    proof {
                        lemma_emit_step(
                            old(vertices)@, pre_vertices, vertices@,
                            old(indices)@, pre_indices, indices@,
                            vi - 4, ii - 6, c0, c1, c2, c3, side, self.pos,
                        );
                    }
                }
                proof {
                    assert(faces_in_cell_upto(self.blocks@, x as int, y as int, z as int, s + 1)
                        == faces_in_cell_upto(self.blocks@, x as int, y as int, z as int, s as int)
                            + if face_emitted(self.blocks@, x as int, y as int, z as int, nth_side(s as int)) { 1int } else { 0int });
                }
                s = s + 1;
            }
            proof {
                assert(faces_upto(self.blocks@, c + 1)
                    == faces_upto(self.blocks@, c as int)
                        + faces_in_cell_upto(self.blocks@, cell_x(c as int), cell_y(c as int), cell_z(c as int), 6));
            }
            c = c + 1;
        }
        proof {
            lemma_face_count_bound(self.blocks@, CHUNK_VOLUME as int);
            reveal(mesh_output_ok);
            assert forall|q: int| 0 <= q < vi / 4
                implies #[trigger] quad_indices_ok(indices@, q) by {}
            lemma_quads_bound_indices(indices@, vi as int / 4);
            assert(6 * (vi as int / 4) == ii && 4 * (vi as int / 4) == vi);
            lemma_emitted_in_box(vertices@, vi as int, self.pos);
        }
        self.vertices_count = vi;
        self.indices_count = ii;
    }
}

/// Upper bound on the quads the greedy mesher can emit: each of the three
/// sweep axes visits `CHUNK_SIZE + 1` slice boundaries, and each slice's
/// mask holds `CHUNK_SIZE`^2 cells, each covered by at most one quad.
pub const MAX_MESH_QUADS: usize = 3 * (CHUNK_SIZE + 1) * CHUNK_SIZE * CHUNK_SIZE;

/// Vertex capacity the greedy mesher requires of its output storage.
pub const MAX_MESH_VERTICES: usize = 4 * MAX_MESH_QUADS;

/// Index capacity the greedy mesher requires of its output storage.
pub const MAX_MESH_INDICES: usize = 6 * MAX_MESH_QUADS;

/// One cell of a slice mask: no face here, or a face whose normal points
/// along the positive or negative sweep axis, keyed by the material id so
/// only faces of the same material merge.
#[derive(Debug, Clone, Copy, PartialEq, Eq, Structural)]
enum MaskValue {
    Empty,
    Positive(u16),
    Negative(u16),
}

/// Witness bookkeeping for the greedy mesher's liveness clause: where in
/// the sweep a given emitted face shows up.
///
/// The sweep axis a face is found on.
spec fn wit_axis(w: (int, int, int, int)) -> int {
    if w.3 < 3 {
        w.3
    } else {
        w.3 - 3
    }
}

/// The witness cell's coordinate along grid axis `k`.
spec fn wit_coord(w: (int, int, int, int), k: int) -> int {
    if k == 0 {
        w.0
    } else if k == 1 {
        w.1
    } else {
        w.2
    }
}

/// The slice of the sweep that probes the face: the cell's own plane for a
/// positive side, the plane below it for a negative side.
spec fn wit_slice(w: (int, int, int, int)) -> int {
    if w.3 < 3 {
        wit_coord(w, wit_axis(w))
    } else {
        wit_coord(w, wit_axis(w)) - 1
    }
}

/// The face's column in the slice mask.
spec fn wit_iu(w: (int, int, int, int)) -> int {
    wit_coord(w, (wit_axis(w) + 1) % 3)
}

/// The face's row in the slice mask.
spec fn wit_jv(w: (int, int, int, int)) -> int {
    wit_coord(w, (wit_axis(w) + 2) % 3)
}

/// The face's flat index in the slice mask.
spec fn wit_n(w: (int, int, int, int)) -> int {
    wit_jv(w) * CHUNK_SIZE + wit_iu(w)
}

/// `w` names an emitted face of the grid.
spec fn is_witness(blocks: Seq<Block>, w: (int, int, int, int)) -> bool {
    &&& 0 <= w.3 < 6
    &&& in_grid(w.0, w.1, w.2)
    &&& face_emitted(blocks, w.0, w.1, w.2, nth_side(w.3))
}

/// The sweep has passed the witness's slice.
spec fn witness_done(w: (int, int, int, int), axis: int, slice: int) -> bool {
    wit_axis(w) < axis || (wit_axis(w) == axis && wit_slice(w) < slice)
}

impl Chunk {
    /// Greedy quad-merging meshing. For each of the three axes, sweep the
    /// grid slice by slice; build a mask over the slice recording where a
    /// face exists and on which side, keyed by material id; then greedily
    /// grow each unmerged mask cell into the widest run along `u` and the
    /// tallest run along `v` whose cells all match, clear the covered
    /// region, and emit one quad for the whole run. Output is written into
    /// the caller-supplied fixed-capacity storage; the emitted counts are
    /// stored on the chunk. Every index refers to an emitted vertex, and
    /// every emitted vertex lies in the chunk's world-space box.
    #[verifier::rlimit(100)]
    pub fn mesh(&mut self, vertices: &mut Vec<Vertex>, indices: &mut Vec<u32>)
        requires
            old(self).wf(),
            pos_in_range(old(self).pos),
            old(vertices).len() >= MAX_MESH_VERTICES,
            old(indices).len() >= MAX_MESH_INDICES,
            old(vertices).len() <= u32::MAX,
        ensures
            final(self).wf(),
            final(self).pos == old(self).pos,
            final(self).blocks == old(self).blocks,
            final(self).buffer == old(self).buffer,
            final(vertices).len() == old(vertices).len(),
            final(indices).len() == old(indices).len(),
            final(self).vertices_count % 4 == 0,
            final(self).indices_count == final(self).vertices_count / 4 * 6,
            final(self).vertices_count <= MAX_MESH_VERTICES,
            final(self).indices_count <= MAX_MESH_INDICES,
            forall|k: int| 0 <= k < final(self).indices_count
                ==> (#[trigger] final(indices)@[k]) < final(self).vertices_count,
            forall|k: int| 0 <= k < final(self).vertices_count
                ==> vertex_in_chunk(#[trigger] final(vertices)@[k], old(self).pos),
            forall|k: int| 0 <= k < final(self).vertices_count / 4
                ==> (#[trigger] quad_indices_ok(final(indices)@, k))
                    && quad_light_uniform(final(vertices)@, k),
            forall|k: int| 0 <= k < final(self).vertices_count
                ==> emitted_vertex(#[trigger] final(vertices)@[k], old(self).pos),
            forall|k: int| final(self).vertices_count <= k < final(vertices)@.len()
                ==> final(vertices)@[k] == old(vertices)@[k],
            forall|k: int| final(self).indices_count <= k < final(indices)@.len()
                ==> final(indices)@[k] == old(indices)@[k],
            visible_face_count(old(self).blocks@) > 0 ==> final(self).vertices_count > 0,
            final(self).vertices_count > 0 ==> visible_face_count(old(self).blocks@) > 0,
            (forall|x: int, y: int, z: int|
                #![trigger spec_block_index(x, y, z)]
                in_grid(x, y, z) ==> old(self).blocks@[spec_block_index(x, y, z)].id == 0)
                ==> final(self).vertices_count == 0,
    {
        let mut vi: usize = 0;
        let mut ii: usize = 0;
        proof {
            reveal(mesh_output_ok);
            assert(mesh_output_ok(vertices@, old(vertices)@, indices@, old(indices)@, 0, 0, self.pos));
        }
        let mut mask: Vec<MaskValue> = Vec::new();
        let mut mi: usize = 0;
        while mi < CHUNK_SIZE * CHUNK_SIZE
            invariant
                0 <= mi <= CHUNK_SIZE * CHUNK_SIZE,
                mask.len() == mi,
                forall|m: int| 0 <= m < mi ==> (#[trigger] mask@[m]) is Empty,
            decreases CHUNK_SIZE * CHUNK_SIZE - mi,
        {
            mask.push(MaskValue::Empty);
            mi = mi + 1;
        }
        let ghost has_faces = visible_face_count(self.blocks@) > 0;
        let ghost all_air = forall|x: int, y: int, z: int|
            #![trigger spec_block_index(x, y, z)]
            in_grid(x, y, z) ==> self.blocks@[spec_block_index(x, y, z)].id == 0;
        proof {
            if has_faces {
                lemma_face_count_witness(self.blocks@);
            }
        }
        let ghost w: (int, int, int, int) = if has_faces {
            choose|x: int, y: int, z: int, s: int|
                0 <= s < 6 && in_grid(x, y, z)
                    && #[trigger] face_emitted(self.blocks@, x, y, z, nth_side(s))
        } else {
            (0, 0, 0, 0)
        };
        proof {
            if has_faces {
                assert(is_witness(self.blocks@, w));
            }
        }
        let mut axis: usize = 0;
        while axis < 3
            invariant
                0 <= axis <= 3,
                mask.len() == CHUNK_SIZE * CHUNK_SIZE,
                self.wf(),
                *self == *old(self),
                pos_in_range(self.pos),
                vertices.len() == old(vertices).len(),
                indices.len() == old(indices).len(),
                vertices.len() >= MAX_MESH_VERTICES,
                indices.len() >= MAX_MESH_INDICES,
                vertices.len() <= u32::MAX,
                vi % 4 == 0,
                ii == vi / 4 * 6,
                vi <= 1024 * 17 * axis,
                mesh_output_ok(vertices@, old(vertices)@, indices@, old(indices)@, vi as int, ii as int, self.pos),
                has_faces == (visible_face_count(old(self).blocks@) > 0),
                has_faces ==> is_witness(old(self).blocks@, w),
                has_faces && wit_axis(w) < axis ==> 0 < vi,
                all_air == (forall|x: int, y: int, z: int|
                    #![trigger spec_block_index(x, y, z)]
                    in_grid(x, y, z) ==> old(self).blocks@[spec_block_index(x, y, z)].id == 0),
                all_air ==> vi == 0,
                all_air ==> forall|m: int| 0 <= m < mask@.len() ==> (#[trigger] mask@[m]) is Empty,
            decreases 3 - axis,
        {
            let u = (axis + 1) % 3;
            let v = (axis + 2) % 3;
            let side_pos = match side_from_index(axis) {
                Some(side) => side,
                None => vstd::pervasive::unreached(),
            };
            let side_neg = match side_from_index(axis + 3) {
                Some(side) => side,
                None => vstd::pervasive::unreached(),
            };
            let mut x: Vec<i32> = Vec::new();
            x.push(0);
            x.push(0);
            x.push(0);
            let mut q: Vec<i32> = Vec::new();
            q.push(0);
            q.push(0);
            q.push(0);
            q.set(axis, 1);
            x.set(axis, -1);
            proof {
                assert(1024 * (17 * axis + (x@[axis as int] + 1)) == 1024 * 17 * axis)
                    by (nonlinear_arith)
                    requires x@[axis as int] == -1i32;
            }
            while x[axis] < CHUNK_SIZE as i32
                invariant
                    axis < 3,
                    u == (axis + 1) % 3,
                    v == (axis + 2) % 3,
                    x.len() == 3,
                    q.len() == 3,
                    q@[axis as int] == 1,
                    forall|k: int| 0 <= k < 3 && k != axis ==> q@[k] == 0,
                    -1 <= x@[axis as int] <= CHUNK_SIZE,
                    mask.len() == CHUNK_SIZE * CHUNK_SIZE,
                    self.wf(),
                    *self == *old(self),
                    pos_in_range(self.pos),
                    vertices.len() == old(vertices).len(),
                    indices.len() == old(indices).len(),
                    vertices.len() >= MAX_MESH_VERTICES,
                    indices.len() >= MAX_MESH_INDICES,
                    vertices.len() <= u32::MAX,
                    vi % 4 == 0,
                    ii == vi / 4 * 6,
                    vi <= 1024 * (17 * axis + (x@[axis as int] + 1)),
                    mesh_output_ok(vertices@, old(vertices)@, indices@, old(indices)@, vi as int, ii as int, self.pos),
                    has_faces ==> is_witness(old(self).blocks@, w),
                    has_faces && witness_done(w, axis as int, x@[axis as int] as int) ==> 0 < vi,
                    spec_side_from_index(axis as int) == Some(side_pos),
                    spec_side_from_index(axis as int + 3) == Some(side_neg),
                    all_air == (forall|x2: int, y2: int, z2: int|
                        #![trigger spec_block_index(x2, y2, z2)]
                        in_grid(x2, y2, z2) ==> old(self).blocks@[spec_block_index(x2, y2, z2)].id == 0),
                    all_air ==> vi == 0,
                    all_air ==> forall|m: int| 0 <= m < mask@.len() ==> (#[trigger] mask@[m]) is Empty,
                decreases CHUNK_SIZE as int - x@[axis as int],
            {
                // build the slice mask for the boundary between x[axis] and
                // x[axis] + 1
                let ax = x[axis];
                let mut n: usize = 0;
                let mut jv: usize = 0;
                while jv < CHUNK_SIZE
                    invariant
                        0 <= jv <= CHUNK_SIZE,
                        n == jv * CHUNK_SIZE,
                        axis < 3,
                        u == (axis + 1) % 3,
                        v == (axis + 2) % 3,
                        x.len() == 3,
                        q.len() == 3,
                        q@[axis as int] == 1,
                        forall|k: int| 0 <= k < 3 && k != axis ==> q@[k] == 0,
                        x@[axis as int] == ax,
                        -1 <= ax < CHUNK_SIZE,
                        mask.len() == CHUNK_SIZE * CHUNK_SIZE,
                        self.wf(),
                        *self == *old(self),
                        spec_side_from_index(axis as int) == Some(side_pos),
                        spec_side_from_index(axis as int + 3) == Some(side_neg),
                        has_faces ==> is_witness(old(self).blocks@, w),
                        has_faces && witness_done(w, axis as int, ax as int) ==> 0 < vi,
                        has_faces && wit_axis(w) == axis && wit_slice(w) == ax && wit_jv(w) < jv
                            ==> !(mask@[wit_n(w)] is Empty),
                        all_air == (forall|x2: int, y2: int, z2: int|
                            #![trigger spec_block_index(x2, y2, z2)]
                            in_grid(x2, y2, z2) ==> old(self).blocks@[spec_block_index(x2, y2, z2)].id == 0),
                        all_air ==> forall|m: int| 0 <= m < mask@.len() ==> (#[trigger] mask@[m]) is Empty,
                    decreases CHUNK_SIZE - jv,
                {
                    x.set(v, jv as i32);
                    let mut iu: usize = 0;
                    while iu < CHUNK_SIZE
                        invariant
                            0 <= iu <= CHUNK_SIZE,
                            0 <= jv < CHUNK_SIZE,
                            n == jv * CHUNK_SIZE + iu,
                            axis < 3,
                            u == (axis + 1) % 3,
                            v == (axis + 2) % 3,
                            x.len() == 3,
                            q.len() == 3,
                            q@[axis as int] == 1,
                            forall|k: int| 0 <= k < 3 && k != axis ==> q@[k] == 0,
                            x@[axis as int] == ax,
                            -1 <= ax < CHUNK_SIZE,
                            x@[v as int] == jv,
                            mask.len() == CHUNK_SIZE * CHUNK_SIZE,
                            self.wf(),
                            *self == *old(self),
                            spec_side_from_index(axis as int) == Some(side_pos),
                            spec_side_from_index(axis as int + 3) == Some(side_neg),
                            has_faces ==> is_witness(old(self).blocks@, w),
                            has_faces && witness_done(w, axis as int, ax as int) ==> 0 < vi,
                            has_faces && wit_axis(w) == axis && wit_slice(w) == ax
                                && (wit_jv(w) < jv || (wit_jv(w) == jv && wit_iu(w) < iu))
                                ==> !(mask@[wit_n(w)] is Empty),
                            all_air == (forall|x2: int, y2: int, z2: int|
                                #![trigger spec_block_index(x2, y2, z2)]
                                in_grid(x2, y2, z2) ==> old(self).blocks@[spec_block_index(x2, y2, z2)].id == 0),
                            all_air ==> forall|m: int| 0 <= m < mask@.len() ==> (#[trigger] mask@[m]) is Empty,
                        decreases CHUNK_SIZE - iu,
                    {
                        x.set(u, iu as i32);
                        proof {
                            assert(u != axis && v != axis && u != v);
                            assert(forall|k: int| 0 <= k < 3 && k != axis
                                ==> 0 <= #[trigger] x@[k] < CHUNK_SIZE);
                        }
                        let x0 = x[0];
                        let x1 = x[1];
                        let x2 = x[2];
                        let a: u16 = if x[axis] >= 0 {
                            if self.is_face_visible(x0, x1, x2, side_pos) {
                                let cell = self.blocks[Self::block_pos_to_index(
                                    x0 as u32,
                                    x1 as u32,
                                    x2 as u32,
                                )];
                                cell.id
                            } else {
                                0
                            }
                        } else {
                            0
                        };
                        let b: u16 = if x[axis] < CHUNK_SIZE as i32 - 1 {
                            if self.is_face_visible(x0 + q[0], x1 + q[1], x2 + q[2], side_neg) {
                                let cell = self.blocks[Self::block_pos_to_index(
                                    (x0 + q[0]) as u32,
                                    (x1 + q[1]) as u32,
                                    (x2 + q[2]) as u32,
                                )];
                                cell.id
                            } else {
                                0
                            }
                        } else {
                            0
                        };
                        let value = if (a != 0) == (b != 0) {
                            MaskValue::Empty
                        } else if a != 0 {
                            MaskValue::Positive(a)
                        } else {
                            MaskValue::Negative(b)
                        };
                        proof {
                            if all_air {
                                assert(a == 0 && b == 0) by {
                                    if x@[axis as int] >= 0 {
                                        assert(in_grid(x@[0] as int, x@[1] as int, x@[2] as int));
                                    }
                                    if x@[axis as int] < CHUNK_SIZE - 1 {
                                        assert(in_grid(
                                            (x@[0] + q@[0]) as int,
                                            (x@[1] + q@[1]) as int,
                                            (x@[2] + q@[2]) as int,
                                        ));
                                    }
                                }
                                assert(value is Empty);
                            }
                            // at the witness face's mask cell, the probes see
                            // exactly the witness face, so the cell is not
                            // empty
                            if has_faces && wit_axis(w) == axis as int && wit_slice(w) == ax as int
                                && wit_jv(w) == jv as int && wit_iu(w) == iu as int {
                                let blocks = self.blocks@;
                                let cell_id = blocks[spec_block_index(w.0, w.1, w.2)].id;
                                assert(cell_id != 0);
                                assert(spec_face_visible(blocks, w.0, w.1, w.2, nth_side(w.3)));
                                if w.3 < 3 {
                                    // positive side: the slice cell is the witness cell
                                    assert(x@[0] == w.0 && x@[1] == w.1 && x@[2] == w.2) by {
                                        if axis == 0 {
                                            assert(x@[1] == wit_coord(w, 1) && x@[2] == wit_coord(w, 2));
                                        } else if axis == 1 {
                                            assert(x@[2] == wit_coord(w, 2) && x@[0] == wit_coord(w, 0));
                                        } else {
                                            assert(x@[0] == wit_coord(w, 0) && x@[1] == wit_coord(w, 1));
                                        }
                                    }
                                    assert(side_pos == nth_side(w.3));
                                    assert(a == cell_id);
                                    assert(b == 0) by {
                                        if x@[axis as int] < CHUNK_SIZE - 1 {
                                            let nb = neighbor_of(w.0, w.1, w.2, nth_side(w.3));
                                            assert(x@[0] + q@[0] == nb.0 && x@[1] + q@[1] == nb.1
                                                && x@[2] + q@[2] == nb.2) by {
                                                assert(q@[axis as int] == 1);
                                            }
                                            assert(in_grid(nb.0, nb.1, nb.2));
                                            assert(blocks[spec_block_index(nb.0, nb.1, nb.2)].id == 0);
                                        }
                                    }
                                    assert(!(value is Empty));
                                } else {
                                    // negative side: the probed neighbour above
                                    // the slice is the witness cell
                                    let nb = neighbor_of(w.0, w.1, w.2, nth_side(w.3));
                                    assert(x@[0] == nb.0 && x@[1] == nb.1 && x@[2] == nb.2) by {
                                        if axis == 0 {
                                            assert(x@[1] == wit_coord(w, 1) && x@[2] == wit_coord(w, 2));
                                        } else if axis == 1 {
                                            assert(x@[2] == wit_coord(w, 2) && x@[0] == wit_coord(w, 0));
                                        } else {
                                            assert(x@[0] == wit_coord(w, 0) && x@[1] == wit_coord(w, 1));
                                        }
                                    }
                                    assert(side_neg == nth_side(w.3));
                                    assert(x@[axis as int] < CHUNK_SIZE - 1);
                                    assert(x@[0] + q@[0] == w.0 && x@[1] + q@[1] == w.1
                                        && x@[2] + q@[2] == w.2) by {
                                        assert(q@[axis as int] == 1);
                                    }
                                    assert(b == cell_id);
                                    assert(a == 0) by {
                                        if x@[axis as int] >= 0 {
                                            assert(in_grid(nb.0, nb.1, nb.2));
                                            assert(blocks[spec_block_index(nb.0, nb.1, nb.2)].id == 0);
                                        }
                                    }
                                    assert(!(value is Empty));
                                }
                            }
                        }
                        mask.set(n, value);
                        n = n + 1;
                        iu = iu + 1;
                    }
                    jv = jv + 1;
                }
                x.set(axis, ax + 1);
                let ghost vi_base = vi;
                proof {
                    if has_faces && wit_axis(w) == axis as int && wit_slice(w) == ax as int {
                        assert(wit_axis(w) == 0 || wit_axis(w) == 1 || wit_axis(w) == 2);
                        assert(0 <= wit_jv(w) < CHUNK_SIZE && 0 <= wit_iu(w) < CHUNK_SIZE);
                        assert(!(mask@[wit_n(w)] is Empty));
                    }
                }

                // greedily merge runs of matching mask cells into quads
                let mut n: usize = 0;
                let mut j: usize = 0;
                while j < CHUNK_SIZE
                    invariant
                        0 <= j <= CHUNK_SIZE,
                        n == j * CHUNK_SIZE,
                        axis < 3,
                        u == (axis + 1) % 3,
                        v == (axis + 2) % 3,
                        x.len() == 3,
                        q.len() == 3,
                        x@[axis as int] == ax + 1,
                        -1 <= ax < CHUNK_SIZE,
                        mask.len() == CHUNK_SIZE * CHUNK_SIZE,
                        self.wf(),
                        *self == *old(self),
                        pos_in_range(self.pos),
                        vertices.len() == old(vertices).len(),
                        indices.len() == old(indices).len(),
                        vertices.len() >= MAX_MESH_VERTICES,
                        indices.len() >= MAX_MESH_INDICES,
                        vertices.len() <= u32::MAX,
                        vi % 4 == 0,
                        ii == vi / 4 * 6,
                        vi <= 1024 * (17 * axis + x@[axis as int]) + 64 * j,
                        mesh_output_ok(vertices@, old(vertices)@, indices@, old(indices)@, vi as int, ii as int, self.pos),
                        vi_base <= vi,
                        has_faces ==> is_witness(old(self).blocks@, w),
                        has_faces && witness_done(w, axis as int, ax as int) ==> 0 < vi,
                        has_faces && wit_axis(w) == axis && wit_slice(w) == ax
                            ==> (vi_base < vi
                                || (n <= wit_n(w) && !(mask@[wit_n(w)] is Empty))),
                        all_air == (forall|x2: int, y2: int, z2: int|
                            #![trigger spec_block_index(x2, y2, z2)]
                            in_grid(x2, y2, z2) ==> old(self).blocks@[spec_block_index(x2, y2, z2)].id == 0),
                        all_air ==> vi == 0,
                        all_air ==> forall|m: int| 0 <= m < mask@.len() ==> (#[trigger] mask@[m]) is Empty,
                    decreases CHUNK_SIZE - j,
                {
                    let mut i: usize = 0;
                    while i < CHUNK_SIZE
                        invariant
                            0 <= i <= CHUNK_SIZE,
                            0 <= j < CHUNK_SIZE,
                            n == j * CHUNK_SIZE + i,
                            axis < 3,
                            u == (axis + 1) % 3,
                            v == (axis + 2) % 3,
                            x.len() == 3,
                            q.len() == 3,
                            x@[axis as int] == ax + 1,
                            -1 <= ax < CHUNK_SIZE,
                            mask.len() == CHUNK_SIZE * CHUNK_SIZE,
                            self.wf(),
                            *self == *old(self),
                            pos_in_range(self.pos),
                            vertices.len() == old(vertices).len(),
                            indices.len() == old(indices).len(),
                            vertices.len() >= MAX_MESH_VERTICES,
                            indices.len() >= MAX_MESH_INDICES,
                            vertices.len() <= u32::MAX,
                            vi % 4 == 0,
                            ii == vi / 4 * 6,
                            vi <= 1024 * (17 * axis + x@[axis as int]) + 64 * j + 4 * i,
                            mesh_output_ok(vertices@, old(vertices)@, indices@, old(indices)@, vi as int, ii as int, self.pos),
                            vi_base <= vi,
                            has_faces ==> is_witness(old(self).blocks@, w),
                            has_faces && witness_done(w, axis as int, ax as int) ==> 0 < vi,
                            has_faces && wit_axis(w) == axis && wit_slice(w) == ax
                                ==> (vi_base < vi
                                    || (n <= wit_n(w) && !(mask@[wit_n(w)] is Empty))),
                            all_air == (forall|x2: int, y2: int, z2: int|
                                #![trigger spec_block_index(x2, y2, z2)]
                                in_grid(x2, y2, z2) ==> old(self).blocks@[spec_block_index(x2, y2, z2)].id == 0),
                            all_air ==> vi == 0,
                            all_air ==> forall|m: int| 0 <= m < mask@.len() ==> (#[trigger] mask@[m]) is Empty,
                        decreases CHUNK_SIZE - i,
                    {
                        let c = mask[n];
                        match c {
                            MaskValue::Empty => {
                                n = n + 1;
                                i = i + 1;
                            }
                            _ => {
                                let mut width: usize = 1;
                                while i + width < CHUNK_SIZE && mask[n + width] == c
                                    invariant
                                        1 <= width,
                                        i + width <= CHUNK_SIZE,
                                        0 <= i < CHUNK_SIZE,
                                        0 <= j < CHUNK_SIZE,
                                        n == j * CHUNK_SIZE + i,
                                        mask.len() == CHUNK_SIZE * CHUNK_SIZE,
                                    decreases CHUNK_SIZE - width,
                                {
                                    width = width + 1;
                                }
                                let mut done = false;
                                let mut height: usize = 1;
                                while !done && height + j < CHUNK_SIZE
                                    invariant
                                        1 <= height,
                                        height + j <= CHUNK_SIZE,
                                        1 <= width,
                                        i + width <= CHUNK_SIZE,
                                        0 <= i < CHUNK_SIZE,
                                        0 <= j < CHUNK_SIZE,
                                        n == j * CHUNK_SIZE + i,
                                        mask.len() == CHUNK_SIZE * CHUNK_SIZE,
                                    decreases 2 * (CHUNK_SIZE - height) + (if done { 0int } else { 1int }),
                                {
                                    let mut k: usize = 0;
                                    while k < width
                                        invariant_except_break
                                            done == false,
                                        invariant
                                            0 <= k <= width,
                                            1 <= width,
                                            i + width <= CHUNK_SIZE,
                                            0 <= i < CHUNK_SIZE,
                                            0 <= j < CHUNK_SIZE,
                                            1 <= height,
                                            height + j < CHUNK_SIZE,
                                            n == j * CHUNK_SIZE + i,
                                            mask.len() == CHUNK_SIZE * CHUNK_SIZE,
                                        ensures
                                            mask.len() == CHUNK_SIZE * CHUNK_SIZE,
                                        decreases width - k,
                                    {
                                        if mask[n + k + height * CHUNK_SIZE] != c {
                                            done = true;
                                            break;
                                        }
                                        k = k + 1;
                                    }
                                    if !done {
                                        height = height + 1;
                                    }
                                }
                                x.set(u, i as i32);
                                x.set(v, j as i32);
                                let mut du: Vec<i32> = Vec::new();
                                du.push(0);
                                du.push(0);
                                du.push(0);
                                let mut dv: Vec<i32> = Vec::new();
                                dv.push(0);
                                dv.push(0);
                                dv.push(0);
                                let positive = matches!(c, MaskValue::Positive(_));
                                if positive {
                                    dv.set(v, height as i32);
                                    du.set(u, width as i32);
                                } else {
                                    du.set(v, height as i32);
                                    dv.set(u, width as i32);
                                }
                                let side = if positive { side_pos } else { side_neg };
                                proof {
                                    assert(u != axis && v != axis && u != v);
                                    assert(forall|k: int| 0 <= k < 3
                                        ==> 0 <= (#[trigger] x@[k]) + du@[k] + dv@[k] <= CHUNK_SIZE
                                            && 0 <= x@[k] + du@[k] <= CHUNK_SIZE
                                            && 0 <= x@[k] + dv@[k] <= CHUNK_SIZE
                                            && 0 <= x@[k] <= CHUNK_SIZE);
                                }
                                let c0 = IVec3 { x: x[0], y: x[1], z: x[2] };
                                let c1 = IVec3 { x: x[0] + du[0], y: x[1] + du[1], z: x[2] + du[2] };
                                let c2 = IVec3 {
                                    x: x[0] + du[0] + dv[0],
                                    y: x[1] + du[1] + dv[1],
                                    z: x[2] + du[2] + dv[2],
                                };
                                let c3 = IVec3 { x: x[0] + dv[0], y: x[1] + dv[1], z: x[2] + dv[2] };
                                let ghost pre_vertices = vertices@;
                                let ghost pre_indices = indices@;
                                emit_quad(vertices, indices, c0, c1, c2, c3, side, self.pos, vi, ii);
                                vi = vi + 4;
                                ii = ii + 6;
                                proof {
                                    lemma_emit_step(
                                        old(vertices)@, pre_vertices, vertices@,
                                        old(indices)@, pre_indices, indices@,
                                        vi - 4, ii - 6, c0, c1, c2, c3, side, self.pos,
                                    );
                                }
                                let mut l: usize = 0;
                                while l < height
                                    invariant
                                        0 <= l <= height,
                                        1 <= width,
                                        i + width <= CHUNK_SIZE,
                                        0 <= i < CHUNK_SIZE,
                                        0 <= j < CHUNK_SIZE,
                                        height + j <= CHUNK_SIZE,
                                        n == j * CHUNK_SIZE + i,
                                        mask.len() == CHUNK_SIZE * CHUNK_SIZE,
                                        vi_base < vi,
                                    decreases height - l,
                                {
                                    let mut k: usize = 0;
                                    while k < width
                                        invariant
                                            0 <= k <= width,
                                            1 <= width,
                                            i + width <= CHUNK_SIZE,
                                            0 <= i < CHUNK_SIZE,
                                            0 <= j < CHUNK_SIZE,
                                            0 <= l < height,
                                            height + j <= CHUNK_SIZE,
                                            n == j * CHUNK_SIZE + i,
                                            mask.len() == CHUNK_SIZE * CHUNK_SIZE,
                                            vi_base < vi,
                                        decreases width - k,
                                    {
                                        mask.set(n + k + l * CHUNK_SIZE, MaskValue::Empty);
                                        k = k + 1;
                                    }
                                    l = l + 1;
                                }
                                i = i + width;
                                n = n + width;
                            }
                        }
                    }
                    j = j + 1;
                }
                proof {
                    if has_faces && witness_done(w, axis as int, ax + 1) {
                        if wit_axis(w) == axis as int && wit_slice(w) == ax as int {
                            assert(0 <= wit_jv(w) < CHUNK_SIZE && 0 <= wit_iu(w) < CHUNK_SIZE);
                            assert(n > wit_n(w));
                            assert(vi_base < vi);
                        } else {
                            assert(witness_done(w, axis as int, ax as int));
                        }
                        assert(0 < vi);
                    }
                }
            }
            proof {
                if has_faces && wit_axis(w) < axis + 1 {
                    assert(wit_slice(w) < CHUNK_SIZE);
                    assert(witness_done(w, axis as int, x@[axis as int] as int));
                    assert(0 < vi);
                }
            }
            axis = axis + 1;
        }
        proof {
            if has_faces {
                assert(wit_axis(w) == 0 || wit_axis(w) == 1 || wit_axis(w) == 2);
                assert(0 < vi);
            }
            reveal(mesh_output_ok);
            assert forall|q: int| 0 <= q < vi / 4
                implies #[trigger] quad_indices_ok(indices@, q) by {}
            lemma_quads_bound_indices(indices@, vi as int / 4);
            assert(6 * (vi as int / 4) == ii && 4 * (vi as int / 4) == vi);
            lemma_emitted_in_box(vertices@, vi as int, self.pos);
            if vi > 0 {
                assert(!all_air);
                assert(exists|x: int, y: int, z: int|
                    in_grid(x, y, z)
                        && self.blocks@[#[trigger] spec_block_index(x, y, z)].id != 0);
                let (sx, sy, sz) = choose|x: int, y: int, z: int|
                    in_grid(x, y, z)
                        && self.blocks@[#[trigger] spec_block_index(x, y, z)].id != 0;
                lemma_solid_cell_has_face(self.blocks@, sx, sy, sz);
            }
        }
        self.vertices_count = vi;
        self.indices_count = ii;
    }
}

/// Distinct in-grid coordinates give distinct flat indices, and every flat
/// index of an in-grid coordinate lies below the chunk volume.
pub proof fn lemma_block_index_injective()
    ensures
        forall|x: int, y: int, z: int| in_grid(x, y, z)
            ==> 0 <= #[trigger] spec_block_index(x, y, z) < CHUNK_VOLUME,
        forall|x1: int, y1: int, z1: int, x2: int, y2: int, z2: int|
            in_grid(x1, y1, z1) && in_grid(x2, y2, z2)
                && #[trigger] spec_block_index(x1, y1, z1) == #[trigger] spec_block_index(x2, y2, z2)
            ==> x1 == x2 && y1 == y2 && z1 == z2,
{
    assert forall|x1: int, y1: int, z1: int, x2: int, y2: int, z2: int|
        in_grid(x1, y1, z1) && in_grid(x2, y2, z2)
            && #[trigger] spec_block_index(x1, y1, z1) == #[trigger] spec_block_index(x2, y2, z2)
        implies x1 == x2 && y1 == y2 && z1 == z2 by {
        let n = spec_block_index(x1, y1, z1);
        assert(x1 == n / 256 && y1 == (n % 256) / 16 && z1 == n % 16) by (nonlinear_arith)
            requires
                in_grid(x1, y1, z1),
                n == x1 * 256 + y1 * 16 + z1;
        assert(x2 == n / 256 && y2 == (n % 256) / 16 && z2 == n % 16) by (nonlinear_arith)
            requires
                in_grid(x2, y2, z2),
                n == x2 * 256 + y2 * 16 + z2;
    }
}

} // verus!
