//! Three arena-backed allocation engines (simple segregated storage, a
//! segregated free list and a binary buddy allocator) over 512-byte arena
//! chunks, with memory-utilisation statistics.
//!
//! A block is named by the number of the arena chunk it lies in and its offset
//! inside that chunk; chunks are numbered in the order they are obtained.
pub mod block;
pub mod buddy;
pub mod free_lists;
pub mod mutex;
pub mod region;
pub mod segregated_free_list;
pub mod simple_segregated_storage;
pub mod size_class;
pub mod stats;

pub use block::{AllocError, Block};
pub use buddy::Buddy;
pub use mutex::Locked;
pub use segregated_free_list::SegregatedFreeList;
pub use simple_segregated_storage::SimpleSegregatedStorage;
pub use stats::MemStats;
