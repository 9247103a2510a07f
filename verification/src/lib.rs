//! Core of a Quake-style BSP level renderer: a chunk-based GPU memory
//! sub-allocator, a greedy best-fit rectangle packer used for texture and
//! lightmap atlases, and a baker that turns a decoded level into packed
//! atlas pixels and triangle-fan vertex streams.

pub mod atlas;
pub mod bake;
pub mod bsp;
pub mod parse;
pub mod suballoc;
