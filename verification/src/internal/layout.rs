pub mod arena;
pub mod bitmap;
pub mod block;
pub mod constants;
pub mod segment;
pub mod segment_space;
pub mod subheap;
