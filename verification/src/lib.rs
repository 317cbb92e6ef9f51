//! Integer logic of a heightmap terrain renderer: the ring-buffer layout of the
//! terrain store, which voxels a frame refreshes, how staged changes are batched,
//! and the bookkeeping of rendered planet chunks.
pub mod grid;
pub mod terrain;
pub mod batching;
pub mod chunks;
pub mod quad;
pub mod input;
