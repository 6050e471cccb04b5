//! Chunked voxel storage with per-axis occupancy bit-planes, face
//! visibility across chunk boundaries, and two mesh builders (one quad per
//! visible face, or visible faces merged into rectangles) that emit packed
//! 32-bit vertices and triangle indices.
//!
//! - `block`, `chunk`: cells and their bit-planes
//! - `visibility`: visible-face masks of a chunk given its neighbours
//! - `quad`, `mesh`: vertex encoding and mesh buffers
//! - `greedy`, `culler`: the merging and the per-face mesh builders
//! - `world`: the index of loaded chunks and the load queue
//! - `edit`, `terrain`, `tree`: writes into chunks

pub mod block;
pub mod chunk;
pub mod visibility;
pub mod quad;
pub mod greedy;
pub mod mesh;
pub mod culler;
pub mod world;
pub mod terrain;
pub mod tree;
pub mod edit;
