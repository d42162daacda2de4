//! An early-boot memory arena that serves byte allocations forward from the
//! start of one address range and page allocations backward from its end,
//! and a small open-addressing hash map.

pub mod collections;
pub mod early;

pub use collections::{HashMap, HashMapIter};
pub use early::{AllocError, ArenaView, EarlyAllocator};
