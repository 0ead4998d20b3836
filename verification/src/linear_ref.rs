//! A `LinearRef` is the address of an allocation, in a value that can't
//! be copied or cloned.  We use it internally to make it harder to
//! accidentally duplicate allocations.
use vstd::prelude::*;
use vstd::std_specs::cmp::PartialEqSpecImpl;

verus! {

/// The address of one allocation.  It is never zero.
#[derive(Debug)]
pub struct LinearRef {
    inner: usize,
}

impl View for LinearRef {
    type V = usize;

    closed spec fn view(&self) -> usize {
        self.inner
    }
}

impl LinearRef {
    #[verifier::type_invariant]
    spec fn non_null(self) -> bool {
        self.inner != 0
    }

    /// Creates a new `LinearRef` for the allocation at `inner`.  That
    /// value must be the unique reference to that address.
    ///
    /// This function should only be used when directly interacting
    /// with external code (e.g., callers, or newly mapped pages).
    pub fn new(inner: usize) -> (ret: Self)
        requires
            inner != 0,
        ensures
            ret@ == inner,
    {
        Self { inner }
    }

    /// Converts a `LinearRef` to the address it holds.
    ///
    /// This function should only be used when directly interacting
    /// with external code (e.g., when returning an allocation to a
    /// caller).
    pub fn convert_to_non_null(self) -> (ret: usize)
        ensures
            ret == self@,
            ret != 0,
    {
        proof {
            use_type_invariant(&self);
        }
        self.inner
    }

    /// Returns a `LinearRef` for an arbitrary non-zero integer.
    pub fn from_address(address: usize) -> (ret: Self)
        requires
            address != 0,
        ensures
            ret@ == address,
    {
        Self::new(address)
    }

    /// Returns the address of the allocation.
    pub fn get(&self) -> (ret: usize)
        ensures
            ret == self@,
            ret != 0,
    {
        proof {
            use_type_invariant(self);
        }
        self.inner
    }
}

impl PartialEq for LinearRef {
    fn eq(&self, other: &Self) -> (ret: bool) {
        self.inner == other.inner
    }
}

impl PartialEqSpecImpl for LinearRef {
    open spec fn obeys_eq_spec() -> bool {
        true
    }

    open spec fn eq_spec(&self, other: &Self) -> bool {
        self@ == other@
    }
}

impl Eq for LinearRef {

}

} // verus!
