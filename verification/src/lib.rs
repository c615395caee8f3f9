//! Sparse voxel worlds: an octree that packs itself for the GPU, the integer
//! side of ray traversal and of the shaders, a region-file store for chunks, and
//! the decisions of the program that renders and benchmarks them.

pub mod bench;
pub mod bits;
pub mod cli;
pub mod frames;
pub mod gpu;
pub mod live;
pub mod names;
pub mod octree;
pub mod output;
pub mod packed;
pub mod region;
pub mod scene;
pub mod shader;
pub mod store;
pub mod text;
pub mod traverse;
pub mod tree64;
pub mod walk64;
