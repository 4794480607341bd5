//! CPU-side streaming of a sparse voxel world into fixed-size GPU buffers: a
//! brick grid, a ring cache of bricks, a bucketed shading-table allocator and
//! the manager that keeps the three consistent.

pub mod brickgrid;
pub mod brickmap_cache;
pub mod coords;
pub mod culling;
pub mod manager;
pub mod shading_table;
pub mod wire;

pub use brickgrid::{
    to_brickgrid_element, Brickgrid, BrickgridElement, BrickgridFlag, BrickgridModel,
    BrickgridUpload, POINTER_LIMIT,
};
pub use brickmap_cache::{
    Brickmap, BrickmapCache, BrickmapCacheEntry, BrickmapUpload, CacheModel, MAX_BRICK_COLORS,
};
pub use culling::{cull_interior_voxels, NeighbourBlocks, Voxel, BRICK_VOLUME};
pub use manager::{BrickmapManager, ManagerModel, RequestError, SHADING_BUCKETS};
pub use shading_table::{AllocError, AllocatorModel, ShadingBucket, ShadingTableAllocator};
pub use wire::{
    encode_brickgrid_batch, encode_brickmap_batch, neighbour_regions, parse_feedback,
    world_state_words, BRICK_RECORD_WORDS,
};
pub use coords::{grid_pos_to_world_pos, to_1d_index, Dims, GridPos, LocalPos};
