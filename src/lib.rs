//! A buffer pool for a small relational database: fixed-size page frames with
//! pinning and invalidation, replacement strategies, page managers and a file
//! manager that caches clean and dirty copies of on-disk pages.
use vstd::prelude::*;

pub mod page;
pub mod strategy;
pub mod lru;
pub mod buffered;
pub mod unlimited;
pub mod fs;
pub mod protocol;

verus! {

} // verus!
