//! Kernel heap: memory layouts, the backing region and the block allocator.

pub mod block;
pub mod heap;
pub mod laws;
pub mod layout;
pub mod memory;
