//! Integer vector math, the sparse voxel octree encoding, run-length compression of voxel
//! data, image parsing, and the plain data types of a voxel game engine.
pub mod bytes;
pub mod glb;
pub mod gltf;
pub mod grid;
pub mod imageasset;
pub mod ivec3;
pub mod json;
pub mod layer;
pub mod mesh;
pub mod obj;
pub mod pak;
pub mod render;
pub mod rle;
pub mod svo;
