//! The mapping granularity the allocator is laid out for.
use vstd::prelude::*;

verus! {

/// Size in bytes of one page of address space.
pub const PAGE_SIZE: usize = 4096;

/// Returns the system page size.
pub fn page_size() -> (ret: usize)
    ensures
        ret == PAGE_SIZE,
{
    PAGE_SIZE
}

} // verus!
