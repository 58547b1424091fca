use vstd::prelude::*;

pub mod access;
pub mod buffer_pool;
pub mod fsm;
pub mod heap;
pub mod page;

verus! {

/// The size in bytes of one page, in memory and on disk.
pub const PAGE_SIZE: usize = 4096;

} // verus!
