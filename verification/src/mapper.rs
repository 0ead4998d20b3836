//! A `Mapper` is responsible for acquiring address space and backing
//! memory from the operating system.  Each `Mill` is parameterised on
//! such a `Mapper`.
use vstd::prelude::*;

use crate::class::Slitter;
use crate::map::PAGE_SIZE;
pub use crate::mill::GUARD_PAGE_SIZE;

verus! {

/// Whether `n` is a positive power of two.
pub open spec fn is_power_of_two(n: usize) -> bool {
    n > 0 && n & ((n - 1) as usize) == 0
}

/// Whether the `size` bytes starting at `base` form a range of whole
/// pages of `page_size` bytes that ends inside the address space.
pub open spec fn is_page_range(page_size: usize, base: usize, size: usize) -> bool {
    &&& base != 0
    &&& base % page_size == 0
    &&& size % page_size == 0
    &&& base + size <= usize::MAX
}

/// The operating system, as the allocator sees it.
///
/// The `requires` clauses are what the allocator promises to every
/// implementation.  The `ensures` clauses are what every
/// implementation owes the allocator; nothing checks them for an
/// implementation written outside of this crate.
pub trait Mapper {
    /// The mapping granularity of this mapper.  It is constant for the
    /// lifetime of the mapper.  A mapper that does not say otherwise
    /// maps pages of `PAGE_SIZE` bytes.
    open spec fn granularity(&self) -> usize {
        PAGE_SIZE
    }

    /// Returns the mapping granularity for this mapper.  All calls
    /// into the mapper will align addresses and sizes to that page
    /// size.
    fn page_size(&self) -> (ret: usize)
        ensures
            ret == self.granularity(),
            is_power_of_two(ret),
            ret <= GUARD_PAGE_SIZE,
    ;

    /// Attempts to reserve a range of address space.  On success,
    /// returns the address of the first byte in the reserved range,
    /// and the number of bytes actually reserved.
    ///
    /// Any page-aligned allocation of `desired_size` bytes will
    /// suffice to satisfy the caller.  However, the mapper may also
    /// try to do something smarter, knowing that its caller wants a
    /// range of `data_size` bytes aligned to `data_size`, with
    /// `prefix` bytes before that range, and `suffix` bytes after.
    ///
    /// The `data_size`, `prefix`, and `suffix` values may
    /// be misaligned with respect to the page size.
    fn reserve(&self, desired_size: usize, data_size: usize, prefix: usize, suffix: usize) -> (ret:
        Result<(usize, usize), i32>)
        requires
            desired_size % self.granularity() == 0,
            desired_size > 0,
            data_size > 0,
        ensures
            ret matches Ok((base, actual)) ==> {
                &&& is_page_range(self.granularity(), base, actual)
                &&& actual >= desired_size
            },
    ;

    /// Releases a page-aligned range that was previously obtained
    /// with a single call to `reserve`.
    fn release(&self, base: usize, size: usize) -> (ret: Result<(), i32>)
        requires
            is_page_range(self.granularity(), base, size),
    ;

    /// Prepares a page-aligned range of metadata for read and write
    /// access.  On successful return, the range must be zero-filled.
    fn allocate_meta(&self, base: usize, size: usize) -> (ret: Result<(), i32>)
        requires
            is_page_range(self.granularity(), base, size),
    ;

    /// Prepares a page-aligned range of object data for read and
    /// write access.  On successful return, the range must be
    /// zero-filled.
    fn allocate_data(&self, base: usize, size: usize) -> (ret: Result<(), i32>)
        requires
            is_page_range(self.granularity(), base, size),
    ;

    /// Overwrites with zeros the `size` bytes of object data that start
    /// at `base`.  The range lies in a range that `allocate_data`
    /// prepared.
    fn zero_fill(&self, base: usize, size: usize)
        requires
            base != 0,
            base + size <= usize::MAX,
    ;
}

/// Upserts the mapper associated with `name`.
pub fn register_mapper<M: Mapper>(slitter: &mut Slitter<M>, name: String, mapper: M)
    requires
        old(slitter).wf(),
        old(slitter).mill_count() < usize::MAX,
    ensures
        final(slitter).wf(),
        final(slitter).follows(old(slitter)),
        final(slitter).class_count() == old(slitter).class_count(),
        final(slitter).chunks_spec() == old(slitter).chunks_spec(),
        final(slitter).ledger_spec() == old(slitter).ledger_spec(),
        final(slitter).mill_count() == old(slitter).mill_count() + 1,
        final(slitter).mill_for(Some(name@)) == Some(old(slitter).mill_count() as usize),
        final(slitter).mapper_of(old(slitter).mill_count() as int) == mapper,
        final(slitter).mill_for(None) == old(slitter).mill_for(None),
        forall|key: Seq<char>|
            key != name@ ==> final(slitter).mill_for(Some(key)) == old(slitter).mill_for(
                Some(key),
            ),
        forall|j: int|
            0 <= j < old(slitter).mill_count() ==> final(slitter).mapper_of(j) == old(slitter).mapper_of(j),
{
    slitter.register_mapper(name, mapper)
}

/// Returns the mapper for the given `name`, if one exists, or the
/// default mapper if `name` is `None`.
///
/// # Errors
///
/// Returns `Err` if no such mapper is defined.
pub fn get_mapper<'a, M: Mapper>(slitter: &'a Slitter<M>, name: Option<&str>) -> (ret: Result<
    &'a M,
    &'static str,
>)
    requires
        slitter.wf(),
    ensures
        match slitter.mill_for(
            match name {
                Some(key) => Some(key@),
                None => None,
            },
        ) {
            Some(index) => ret matches Ok(mapper) && *mapper == slitter.mapper_of(index as int),
            None => ret matches Err(message) && message == "Mapper not found",
        },
{
    let key = match name {
        Some(key) => Some(key.to_owned()),
        None => None,
    };
    match slitter.get_mill(&key) {
        Ok(index) => Ok(slitter.mapper_at(index)),
        Err(message) => Err(message),
    }
}

} // verus!
