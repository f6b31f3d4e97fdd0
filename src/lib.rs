pub mod frame;
pub mod ids;
pub mod octree;
