//! An LRU cache layer that shares one byte budget across many caches.
//!
//! Many independently typed caches draw from a single pool of bytes; when the
//! pool is full, the entry evicted is the least recently touched one across
//! *all* caches, not just the cache asking for room.

use vstd::prelude::*;

pub mod allocator;
pub mod entry_map;
pub mod lru_map;
pub mod memory_size;
pub mod shared;

pub use allocator::{AllocResult, Allocator, EntryId};
pub use entry_map::EntryMap;
pub use memory_size::{JustStack, MemorySize};
pub use shared::InnerShared;

verus! {

/// Marker for values that may live in a cache shared between threads.
pub trait Simple: Send + Sync + 'static {

}

impl<T> Simple for T where T: Send + Sync + 'static {

}

} // verus!
