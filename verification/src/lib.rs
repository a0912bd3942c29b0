//! Core of a streaming voxel terrain renderer: a sub-allocator that manages
//! coarse device-memory pools and hands out fine-grained, alignment-respecting
//! sub-allocations with splitting and coalescing; a greedy quad-merging mesher
//! that turns a chunk's voxel grid into a compact vertex/index stream; a
//! meshing pipeline modelled as an explicit state machine over a closable job
//! queue and a generation-tagged chunk arena; and a world streamer that keeps
//! the set of loaded chunks in step with the viewer's position.
//!
//! Device and window plumbing (instance, swapchain, command submission) is an
//! external collaborator: this crate works on plain values handed in from that
//! layer and hands plain values back.

pub mod arena;
pub mod chunk;
pub mod config;
pub mod memory;
pub mod meshing;
pub mod queue;
pub mod vertex;
pub mod world;
