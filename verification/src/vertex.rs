//! The vertex format the mesher emits.

use vstd::prelude::*;

verus! {

/// One mesh vertex: an integer position in world cell coordinates (the
/// chunk-local corner translated by the chunk's position), a colour tint,
/// and a per-face light modifier encoding directional shading.
#[derive(Copy, Clone, Debug, PartialEq, Eq, Structural)]
pub struct Vertex {
    pub x: i32,
    pub y: i32,
    pub z: i32,
    pub red: u8,
    pub green: u8,
    pub blue: u8,
    pub light_modifier: u8,
}

/// Byte size of one packed vertex as uploaded to the device: three 32-bit
/// coordinates, three colour bytes and the light modifier.
pub const VERTEX_BYTES: u64 = 16;

/// An integer grid vector: a chunk-local corner position before translation.
#[derive(Copy, Clone, Debug, PartialEq, Eq, Structural)]
pub struct IVec3 {
    pub x: i32,
    pub y: i32,
    pub z: i32,
}

} // verus!
