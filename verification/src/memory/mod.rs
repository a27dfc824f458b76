//! Allocators: bump arena accounting, object pool and generational slab.

pub mod arena;
pub mod pool;
pub mod slab;

pub use arena::{Arena, ArenaError};
pub use pool::{Pool, PoolError};
pub use slab::{Slab, SlabError, SlabHandle};
