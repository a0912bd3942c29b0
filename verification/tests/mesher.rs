//! Mesher behaviour: the solid-cube regression fixture, terrain generation,
//! and output well-formedness.

use voxel_core::chunk::{side_from_index, Block, Chunk, Side, MAX_MESH_INDICES, MAX_MESH_VERTICES};
use voxel_core::config::{CHUNK_SIZE, CHUNK_VOLUME};
use voxel_core::vertex::Vertex;
use voxel_core::world::ChunkPos;

fn empty_vertex() -> Vertex {
    Vertex { x: 0, y: 0, z: 0, red: 0, green: 0, blue: 0, light_modifier: 0 }
}

fn naive_buffers() -> (Vec<Vertex>, Vec<u32>) {
    (vec![empty_vertex(); 24 * CHUNK_VOLUME], vec![0u32; 36 * CHUNK_VOLUME])
}

fn greedy_buffers() -> (Vec<Vertex>, Vec<u32>) {
    (vec![empty_vertex(); MAX_MESH_VERTICES], vec![0u32; MAX_MESH_INDICES])
}

fn empty_chunk(pos: ChunkPos) -> Chunk {
    Chunk {
        pos,
        blocks: vec![Block { id: 0 }; CHUNK_VOLUME],
        buffer: None,
        vertices_count: 0,
        indices_count: 0,
    }
}

fn index_of(x: usize, y: usize, z: usize) -> usize {
    x * CHUNK_SIZE * CHUNK_SIZE + y * CHUNK_SIZE + z
}

/// A 2x2x2 fully solid cube away from every chunk boundary.
fn cube_chunk() -> Chunk {
    let mut chunk = empty_chunk(ChunkPos { x: 0, y: 0, z: 0 });
    for x in 6..8 {
        for y in 6..8 {
            for z in 6..8 {
                chunk.blocks[index_of(x, y, z)] = Block { id: 1 };
            }
        }
    }
    chunk
}

#[test]
fn naive_meshing_of_solid_cube_emits_24_faces() {
    let mut chunk = cube_chunk();
    let (mut vertices, mut indices) = naive_buffers();
    chunk.mesh_naive(&mut vertices, &mut indices);
    // 4 exposed faces per direction, 6 directions, one quad each
    assert_eq!(chunk.vertices_count, 24 * 4);
    assert_eq!(chunk.indices_count, 24 * 6);
}

#[test]
fn greedy_meshing_of_solid_cube_emits_6_quads() {
    let mut chunk = cube_chunk();
    let (mut vertices, mut indices) = greedy_buffers();
    chunk.mesh(&mut vertices, &mut indices);
    // each 2x2 run of equal faces merges into a single quad
    assert_eq!(chunk.vertices_count, 6 * 4);
    assert_eq!(chunk.indices_count, 6 * 6);
}

#[test]
fn greedy_meshing_of_empty_chunk_emits_nothing() {
    let mut chunk = empty_chunk(ChunkPos { x: 3, y: 1, z: -2 });
    let (mut vertices, mut indices) = greedy_buffers();
    chunk.mesh(&mut vertices, &mut indices);
    assert_eq!(chunk.vertices_count, 0);
    assert_eq!(chunk.indices_count, 0);
}

#[test]
fn greedy_meshing_of_single_voxel_emits_6_quads() {
    let mut chunk = empty_chunk(ChunkPos { x: 0, y: 0, z: 0 });
    chunk.blocks[index_of(5, 5, 5)] = Block { id: 1 };
    let (mut vertices, mut indices) = greedy_buffers();
    chunk.mesh(&mut vertices, &mut indices);
    assert_eq!(chunk.vertices_count, 6 * 4);
    assert_eq!(chunk.indices_count, 6 * 6);
}

#[test]
fn greedy_indices_reference_emitted_vertices() {
    let mut chunk = Chunk::new(ChunkPos { x: 1, y: 0, z: -1 });
    let (mut vertices, mut indices) = greedy_buffers();
    chunk.mesh(&mut vertices, &mut indices);
    assert!(chunk.vertices_count > 0);
    assert_eq!(chunk.vertices_count % 4, 0);
    assert_eq!(chunk.indices_count, chunk.vertices_count / 4 * 6);
    for k in 0..chunk.indices_count {
        assert!((indices[k] as usize) < chunk.vertices_count);
    }
}

#[test]
fn greedy_vertices_lie_in_the_chunk_box() {
    let pos = ChunkPos { x: -3, y: 2, z: 7 };
    let mut chunk = Chunk::new(pos);
    let (mut vertices, mut indices) = greedy_buffers();
    chunk.mesh(&mut vertices, &mut indices);
    let size = CHUNK_SIZE as i32;
    for k in 0..chunk.vertices_count {
        let v = &vertices[k];
        assert!(pos.x * size <= v.x && v.x <= pos.x * size + size);
        assert!((pos.y as i32) * size <= v.y && v.y <= (pos.y as i32) * size + size);
        assert!(pos.z * size <= v.z && v.z <= pos.z * size + size);
    }
}

#[test]
fn greedy_emits_fewer_primitives_than_naive_on_terrain() {
    let pos = ChunkPos { x: 0, y: 0, z: 0 };
    let mut naive = Chunk::new(pos);
    let (mut nv, mut ni) = naive_buffers();
    naive.mesh_naive(&mut nv, &mut ni);
    let mut greedy = Chunk::new(pos);
    let (mut gv, mut gi) = greedy_buffers();
    greedy.mesh(&mut gv, &mut gi);
    assert!(greedy.vertices_count < naive.vertices_count);
    assert!(greedy.vertices_count > 0);
}

#[test]
fn terrain_fills_columns_to_their_height() {
    let chunk = Chunk::new(ChunkPos { x: 0, y: 0, z: 0 });
    // column (5, 1): height |5 - 1| = 4
    for y in 0..4 {
        assert_eq!(chunk.blocks[index_of(5, y, 1)].id, 1);
    }
    for y in 4..CHUNK_SIZE {
        assert_eq!(chunk.blocks[index_of(5, y, 1)].id, 0);
    }
    // the diagonal has height zero
    assert_eq!(chunk.blocks[index_of(7, 0, 7)].id, 0);
}

#[test]
fn face_visibility_follows_neighbours_and_boundaries() {
    let mut chunk = empty_chunk(ChunkPos { x: 0, y: 0, z: 0 });
    chunk.blocks[index_of(4, 4, 4)] = Block { id: 1 };
    chunk.blocks[index_of(5, 4, 4)] = Block { id: 1 };
    // the face towards the solid neighbour is hidden
    assert!(!chunk.is_face_visible(4, 4, 4, Side::North));
    // the face towards an empty neighbour is visible
    assert!(chunk.is_face_visible(4, 4, 4, Side::South));
    // boundary faces are always visible
    assert!(chunk.is_face_visible(0, 0, 0, Side::South));
    assert!(chunk.is_face_visible(15, 15, 15, Side::North));
}

#[test]
fn greedy_indices_follow_the_two_triangle_pattern() {
    let mut chunk = Chunk::new(ChunkPos { x: 0, y: 1, z: 0 });
    let (mut vertices, mut indices) = greedy_buffers();
    chunk.mesh(&mut vertices, &mut indices);
    let quads = chunk.vertices_count / 4;
    assert!(quads > 0);
    for k in 0..quads {
        let base = (4 * k) as u32;
        assert_eq!(indices[6 * k], base);
        assert_eq!(indices[6 * k + 1], base + 1);
        assert_eq!(indices[6 * k + 2], base + 2);
        assert_eq!(indices[6 * k + 3], base + 2);
        assert_eq!(indices[6 * k + 4], base + 3);
        assert_eq!(indices[6 * k + 5], base);
    }
}

#[test]
fn vertices_carry_tint_and_face_light() {
    let mut chunk = cube_chunk();
    let (mut vertices, mut indices) = greedy_buffers();
    chunk.mesh(&mut vertices, &mut indices);
    for k in 0..chunk.vertices_count {
        let v = &vertices[k];
        assert_eq!((v.red, v.green, v.blue), (255, 255, 255));
        assert!(v.light_modifier == 5 || v.light_modifier == 6 || v.light_modifier == 8
            || v.light_modifier == 10);
    }
    // the light modifier is per face: all four vertices of a quad share it
    for q in 0..chunk.vertices_count / 4 {
        let l = vertices[4 * q].light_modifier;
        assert_eq!(vertices[4 * q + 1].light_modifier, l);
        assert_eq!(vertices[4 * q + 2].light_modifier, l);
        assert_eq!(vertices[4 * q + 3].light_modifier, l);
    }
}

#[test]
fn meshing_leaves_storage_beyond_the_counts_untouched() {
    let sentinel = Vertex { x: -7, y: -7, z: -7, red: 1, green: 2, blue: 3, light_modifier: 9 };
    let mut vertices = vec![sentinel; MAX_MESH_VERTICES];
    let mut indices = vec![77u32; MAX_MESH_INDICES];
    let mut chunk = cube_chunk();
    chunk.mesh(&mut vertices, &mut indices);
    for k in chunk.vertices_count..MAX_MESH_VERTICES {
        assert_eq!(vertices[k], sentinel);
    }
    for k in chunk.indices_count..MAX_MESH_INDICES {
        assert_eq!(indices[k], 77);
    }
}

#[test]
fn side_indices_map_to_the_six_directions() {
    assert_eq!(side_from_index(0), Some(Side::North));
    assert_eq!(side_from_index(1), Some(Side::Top));
    assert_eq!(side_from_index(2), Some(Side::East));
    assert_eq!(side_from_index(3), Some(Side::South));
    assert_eq!(side_from_index(4), Some(Side::Bottom));
    assert_eq!(side_from_index(5), Some(Side::West));
    assert_eq!(side_from_index(6), None);
}
