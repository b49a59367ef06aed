//! The decision logic of a block cache on local disks.
pub mod aggregating_writer;
pub mod atime_histogram;
pub mod base_types;
pub mod binary_index_tree;
pub mod bitmap_range_iterator;
pub mod block_access;
pub mod block_allocator;
pub mod block_based_log;
pub mod checkpoint;
pub mod extent_allocator;
pub mod features;
pub mod index;
pub mod lru_cache;
pub mod merge;
pub mod open;
pub mod pending_changes;
pub mod pool_id;
pub mod range_tree;
pub mod size_histogram;
pub mod slab_allocator;
pub mod space_map;
pub mod superblock;
pub mod vec_map;
pub mod zcachedb;
pub mod zettacache;
