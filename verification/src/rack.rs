//! A `Rack` manages empty `Magazine`s: it allocates them as needed,
//! and recycles unused empty ones.
use vstd::prelude::*;

use crate::class::Slitter;
use crate::magazine::Magazine;
use crate::magazine_impl::MagazineImpl;
use crate::magazine_impl::MagazineStorage;
use crate::magazine_stack::MagazineStack;
use crate::mapper::Mapper;

verus! {

/// A `Rack` allocates and recycles empty magazines.
pub struct Rack {
    freelist: MagazineStack,
}

impl Rack {
    /// Every storage that the rack keeps is a valid one, and holds no
    /// allocation.
    pub closed spec fn wf(&self) -> bool {
        &&& self.freelist.wf()
        &&& forall|i: int| 0 <= i < self.freelist@.len() ==> (#[trigger] self.freelist@[i]).len() == 0
    }

    /// The number of storages that the rack keeps.
    pub closed spec fn spares(&self) -> nat {
        self.freelist@.len()
    }

    pub fn new() -> (ret: Self)
        ensures
            ret.wf(),
            ret.spares() == 0,
    {
        Self { freelist: MagazineStack::new() }
    }

    /// Returns an empty magazine with storage: a recycled storage
    /// where the rack keeps one, and a new one where it keeps none.
    pub fn allocate_empty_magazine<const PUSH_MAG: bool>(&mut self) -> (ret: Magazine<PUSH_MAG>)
        requires
            old(self).wf(),
        ensures
            final(self).wf(),
            ret.wf(),
            ret.storage_spec(),
            ret@ == Seq::<usize>::empty(),
            final(self).spares() == if old(self).spares() == 0 {
                0
            } else {
                old(self).spares() - 1
            },
    {
        match self.freelist.pop() {
            Some(mag) => {
                proof {
                    assert(old(self).freelist@[0].len() == 0);
                    assert(mag@ =~= Seq::<usize>::empty());
                    assert forall|i: int| 0 <= i < self.freelist@.len() implies (
                    #[trigger] self.freelist@[i]).len() == 0 by {
                        assert(old(self).freelist@[i + 1].len() == 0);
                    }
                }
                mag
            },
            None => Magazine(MagazineImpl::new(Some(Box::new(MagazineStorage::default())))),
        }
    }

    /// Takes back a magazine that holds no allocation, and keeps its
    /// storage, if it has one.
    pub fn release_empty_magazine<const PUSH_MAG: bool>(&mut self, mag: Magazine<PUSH_MAG>)
        requires
            old(self).wf(),
            mag.wf(),
            mag@.len() == 0,
        ensures
            final(self).wf(),
            final(self).spares() == old(self).spares() + if mag.storage_spec() {
                1nat
            } else {
                0nat
            },
    {
        self.freelist.push(mag);
        proof {
            assert forall|i: int| 0 <= i < self.freelist@.len() implies (
            #[trigger] self.freelist@[i]).len() == 0 by {
                if mag.storage_spec() && i > 0 {
                    assert(old(self).freelist@[i - 1].len() == 0);
                } else if !mag.storage_spec() {
                    assert(old(self).freelist@[i].len() == 0);
                }
            }
        }
    }
}

/// Returns a reference to the default magazine rack of the
/// allocator.
pub fn get_default_rack<M: Mapper>(slitter: &Slitter<M>) -> (ret: &Rack)
    requires
        slitter.wf(),
    ensures
        ret.wf(),
{
    slitter.default_rack()
}

} // verus!
