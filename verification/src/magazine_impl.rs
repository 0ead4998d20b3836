//! The base `MagazineImpl` handles the pushing and popping of
//! allocations to and from its storage.  It does not impose strong
//! contracts on what the allocations are; that's the responsibility of
//! its `Magazine` wrapper struct.
use vstd::prelude::*;

use crate::linear_ref::LinearRef;

verus! {

/// The number of allocations that a magazine with storage can hold.
pub const MAGAZINE_SIZE: u32 = 30;

/// The addresses that a sequence of references holds.
pub open spec fn addresses(refs: Seq<LinearRef>) -> Seq<usize> {
    refs.map_values(|r: LinearRef| r@)
}

/// The `MagazineStorage` is the heap-allocated storage for a
/// magazine.
pub struct MagazineStorage {
    /// The `allocations` array is populated from the bottom up; it
    /// holds `num_allocated_slow` values.
    ///
    /// This field may not be accurate when wrapped in a `MagazineImpl`.
    num_allocated_slow: u32,
    allocations: Vec<LinearRef>,
    /// Single linked list linkage.
    pub(crate) link: Option<Box<MagazineStorage>>,
}

impl View for MagazineStorage {
    type V = Seq<usize>;

    /// The addresses in the storage, from the bottom up.
    closed spec fn view(&self) -> Seq<usize> {
        addresses(self.allocations@)
    }
}

/// What the storages of a linked stack hold, from the storage on top
/// down.
pub closed spec fn stack_of(top: Option<Box<MagazineStorage>>) -> Seq<Seq<usize>>
    decreases top,
{
    match top {
        None => Seq::empty(),
        Some(storage) => seq![storage@] + stack_of(storage.link),
    }
}

/// Whether every storage of a linked stack is a valid one.
pub closed spec fn stack_wf(top: Option<Box<MagazineStorage>>) -> bool
    decreases top,
{
    match top {
        None => true,
        Some(storage) => storage.wf() && stack_wf(storage.link),
    }
}

/// A stack without a storage on top holds nothing.
pub proof fn lemma_stack_of_none()
    ensures
        stack_of(None) == Seq::<Seq<usize>>::empty(),
        stack_wf(None),
{
}

/// A stack with a storage on top holds what that storage holds, and
/// then what the stack linked to it holds.
pub proof fn lemma_stack_of_some(storage: Box<MagazineStorage>)
    ensures
        stack_of(Some(storage)) == seq![storage@] + stack_of(storage.next()),
        stack_wf(Some(storage)) == (storage.wf() && stack_wf(storage.next())),
{
}

impl MagazineStorage {
    /// The storage holds no more than a magazine's worth of
    /// allocations, and knows how many it holds.
    pub closed spec fn wf(&self) -> bool {
        &&& self.allocations.len() <= MAGAZINE_SIZE
        &&& self.num_allocated_slow == self.allocations.len()
    }

    /// The storage that follows this one in a stack of storages.
    pub closed spec fn next(&self) -> Option<Box<MagazineStorage>> {
        self.link
    }

    /// Links the storage to the stack of storages under `link`.
    pub(crate) fn set_link(&mut self, link: Option<Box<MagazineStorage>>)
        requires
            old(self).next() is None,
        ensures
            final(self).next() == link,
            final(self)@ == old(self)@,
            final(self).wf() == old(self).wf(),
    {
        self.link = link;
    }

    /// Unlinks the storage from the stack of storages under it, and
    /// returns that stack.
    pub(crate) fn take_link(&mut self) -> (link: Option<Box<MagazineStorage>>)
        ensures
            link == old(self).next(),
            final(self).next() is None,
            final(self)@ == old(self)@,
            final(self).wf() == old(self).wf(),
    {
        self.link.take()
    }
}

impl Default for MagazineStorage {
    fn default() -> (ret: Self)
        ensures
            ret.wf(),
            ret@ == Seq::<usize>::empty(),
            ret.next() is None,
    {
        let ret = Self { num_allocated_slow: 0, allocations: Vec::new(), link: None };
        assert(ret@ =~= Seq::<usize>::empty());
        ret
    }
}

/// The `MagazineImpl` is the actual implementation for the storage.
/// This split lets us cache information inline.
///
/// If `PUSH_MAG` is true, we have a push-only magazine.  If it's
/// false, we have a pop-only magazine.
pub struct MagazineImpl<const PUSH_MAG: bool> {
    /// "Pop" (PUSH_MAG = false) magazines decrement the `top_of_stack`
    /// from MAGAZINE_SIZE down to 0.
    ///
    /// "Push" (PUSH_MAG = true) magazines increment the `top_of_stack`
    /// from `-MAGAZINE_SIZE` up to 0.
    top_of_stack: isize,
    /// Always populated when `top_of_stack != 0`.
    inner: Option<Box<MagazineStorage>>,
}

impl<const PUSH_MAG: bool> View for MagazineImpl<PUSH_MAG> {
    type V = Seq<usize>;

    /// The addresses in the magazine, from the bottom up.
    closed spec fn view(&self) -> Seq<usize> {
        match self.inner {
            Some(storage) => addresses(storage.allocations@),
            None => Seq::empty(),
        }
    }
}

impl<const PUSH_MAG: bool> MagazineImpl<PUSH_MAG> {
    /// The number of allocations that `top_of_stack` stands for.
    spec fn count(&self) -> int {
        if PUSH_MAG {
            self.top_of_stack + MAGAZINE_SIZE
        } else {
            self.top_of_stack as int
        }
    }

    /// The current object's state is valid: a magazine without storage
    /// has its top of stack at zero, and one with storage has it where
    /// the number of its allocations puts it.
    pub closed spec fn wf(&self) -> bool {
        match self.inner {
            None => self.top_of_stack == 0,
            Some(storage) => {
                &&& storage.link is None
                &&& storage.allocations.len() <= MAGAZINE_SIZE
                &&& self.count() == storage.allocations.len()
            },
        }
    }

    /// Whether this magazine is backed by real storage.
    pub closed spec fn storage_spec(&self) -> bool {
        self.inner is Some
    }

    /// Whether no allocation can be put in the magazine.
    pub open spec fn full_spec(&self) -> bool {
        if PUSH_MAG {
            !self.storage_spec() || self@.len() == MAGAZINE_SIZE
        } else {
            self.storage_spec() && self@.len() == MAGAZINE_SIZE
        }
    }

    /// Whether no allocation can be got from the magazine.
    pub open spec fn empty_spec(&self) -> bool {
        if PUSH_MAG {
            self.storage_spec() && self@.len() == 0
        } else {
            self@.len() == 0
        }
    }

    /// A magazine holds at most `MAGAZINE_SIZE` allocations, and none
    /// without storage.
    pub proof fn lemma_len_bounds(&self)
        requires
            self.wf(),
        ensures
            self@.len() <= MAGAZINE_SIZE,
            !self.storage_spec() ==> self@.len() == 0,
    {
    }

    /// Wraps `maybe_inner` in an impl.  If `maybe_inner` is None, a
    /// push magazine is initialised to full, and a pop to empty.
    pub fn new(maybe_inner: Option<Box<MagazineStorage>>) -> (ret: Self)
        requires
            maybe_inner matches Some(storage) ==> storage.wf() && storage.next() is None,
        ensures
            ret.wf(),
            ret.storage_spec() == (maybe_inner is Some),
            ret@ == match maybe_inner {
                Some(storage) => storage@,
                None => Seq::empty(),
            },
    {
        if let Some(inner) = maybe_inner {
            if PUSH_MAG {
                Self {
                    top_of_stack: inner.num_allocated_slow as isize - MAGAZINE_SIZE as isize,
                    inner: Some(inner),
                }
            } else {
                Self { top_of_stack: inner.num_allocated_slow as isize, inner: Some(inner) }
            }
        } else {
            Self { top_of_stack: 0, inner: None }
        }
    }

    /// Returns whether this magazine is backed by real storage, and
    /// thus has capacity.
    pub fn has_storage(&self) -> (ret: bool)
        ensures
            ret == self.storage_spec(),
    {
        self.inner.is_some()
    }

    /// Unwraps the storage, which remembers how many allocations it
    /// holds.
    pub fn storage(self) -> (ret: Option<Box<MagazineStorage>>)
        requires
            self.wf(),
        ensures
            ret is Some == self.storage_spec(),
            ret matches Some(storage) ==> storage.wf() && storage.next() is None && storage@
                == self@,
    {
        let mut inner = self.inner?;
        if PUSH_MAG {
            inner.num_allocated_slow = (MAGAZINE_SIZE as isize + self.top_of_stack) as u32;
        } else {
            inner.num_allocated_slow = self.top_of_stack as u32;
        }
        Some(inner)
    }

    pub fn is_full(&self) -> (ret: bool)
        requires
            self.wf(),
        ensures
            ret == self.full_spec(),
    {
        if PUSH_MAG {
            self.top_of_stack == 0
        } else {
            self.top_of_stack == MAGAZINE_SIZE as isize
        }
    }

    pub fn is_empty(&self) -> (ret: bool)
        requires
            self.wf(),
        ensures
            ret == self.empty_spec(),
    {
        if PUSH_MAG {
            self.top_of_stack == -(MAGAZINE_SIZE as isize)
        } else {
            self.top_of_stack == 0
        }
    }

    /// Returns the number of elements in the magazine.  A push
    /// magazine without storage counts as a full one.
    pub fn len(&self) -> (ret: usize)
        requires
            self.wf(),
        ensures
            ret == if PUSH_MAG && !self.storage_spec() {
                MAGAZINE_SIZE as nat
            } else {
                self@.len()
            },
    {
        proof {
            self.lemma_len_bounds();
            if self.inner is Some {
                assert(addresses(self.inner->0.allocations@).len()
                    == self.inner->0.allocations@.len());
            }
        }
        if PUSH_MAG {
            (self.top_of_stack + MAGAZINE_SIZE as isize) as usize
        } else {
            self.top_of_stack as usize
        }
    }

    /// Returns a reference to the element at `index`, counted from the
    /// bottom, or `None` where the magazine has no storage.
    pub fn nth(&self, index: usize) -> (ret: Option<&LinearRef>)
        requires
            self.wf(),
            self.storage_spec() ==> index < self@.len(),
        ensures
            ret is Some == self.storage_spec(),
            ret matches Some(r) ==> r@ == self@[index as int],
    {
        match &self.inner {
            None => None,
            Some(storage) => Some(&storage.allocations[index]),
        }
    }

    /// Checks that the current object's state is valid.
    pub fn check_rep(&self) -> (ret: bool)
        ensures
            ret == self.wf(),
    {
        let inner = match &self.inner {
            Some(storage) => storage,
            None => {
                // Missing storage is only allowed when `top_of_stack ==
                // 0`.
                return self.top_of_stack == 0;
            },
        };
        // The storage should never be in a linked stack.
        if inner.link.is_some() {
            return false;
        }
        if PUSH_MAG {
            // The top of stack index should be in [-MAGAZINE_SIZE, 0]
            // for Push magazine.
            if self.top_of_stack < -(MAGAZINE_SIZE as isize) || self.top_of_stack > 0 {
                return false;
            }
        } else {
            // The top of stack index should be in [0, MAGAZINE_SIZE]
            // for Pop magazines.
            if self.top_of_stack < 0 || self.top_of_stack > MAGAZINE_SIZE as isize {
                return false;
            }
        }
        // Everything that the top of stack counts must be populated,
        // and nothing else.
        let count = if PUSH_MAG {
            (self.top_of_stack + MAGAZINE_SIZE as isize) as usize
        } else {
            self.top_of_stack as usize
        };
        inner.allocations.len() == count
    }
}

impl<const PUSH_MAG: bool> Default for MagazineImpl<PUSH_MAG> {
    fn default() -> (ret: Self)
        ensures
            ret.wf(),
            !ret.storage_spec(),
            ret@ == Seq::<usize>::empty(),
    {
        Self::new(None)
    }
}

// Logic for "push" magazines.
impl MagazineImpl<true> {
    /// Converts to a Pop magazine.
    pub fn into_pop(self) -> (ret: MagazineImpl<false>)
        requires
            self.wf(),
        ensures
            ret.wf(),
            ret@ == self@,
            ret.storage_spec() == self.storage_spec(),
    {
        MagazineImpl::new(self.storage())
    }

    /// Attempts to put an unused block back in the magazine.
    ///
    /// Returns that unused block on failure.  We only fail to push to
    /// full magazines.
    pub fn put(&mut self, freed: LinearRef) -> (ret: Option<LinearRef>)
        requires
            old(self).wf(),
        ensures
            final(self).wf(),
            final(self).storage_spec() == old(self).storage_spec(),
            old(self).full_spec() == ret is Some,
            match ret {
                Some(spilled) => spilled@ == freed@ && final(self)@ == old(self)@,
                None => final(self)@ == old(self)@.push(freed@),
            },
            final(self)@.len() >= old(self)@.len(),
    {
        if self.top_of_stack == 0 {
            return Some(freed);
        }
        match self.inner.as_mut() {
            None => Some(freed),
            Some(storage) => {
                storage.allocations.push(freed);
                self.top_of_stack += 1;
                proof {
                    assert(self@ =~= old(self)@.push(freed@));
                }
                None
            },
        }
    }
}

// Functions that only exist on "pop" magazines.
impl MagazineImpl<false> {
    /// Converts to a Push magazine.
    pub fn into_push(self) -> (ret: MagazineImpl<true>)
        requires
            self.wf(),
        ensures
            ret.wf(),
            ret@ == self@,
            ret.storage_spec() == self.storage_spec(),
    {
        MagazineImpl::new(self.storage())
    }

    /// Attempts to get an unused block from the magazine: the one on
    /// top.  We only fail to pop from empty magazines.
    pub fn get(&mut self) -> (ret: Option<LinearRef>)
        requires
            old(self).wf(),
        ensures
            final(self).wf(),
            final(self).storage_spec() == old(self).storage_spec(),
            old(self).empty_spec() == ret is None,
            match ret {
                Some(popped) => popped@ == old(self)@.last() && final(self)@ == old(self)@.drop_last(),
                None => final(self)@ == old(self)@,
            },
            final(self)@.len() <= old(self)@.len(),
    {
        if self.top_of_stack == 0 {
            return None;
        }
        match self.inner.as_mut() {
            None => None,
            Some(storage) => {
                self.top_of_stack -= 1;
                let popped = storage.allocations.pop();
                proof {
                    assert(self@ =~= old(self)@.drop_last());
                }
                popped
            },
        }
    }

    /// Returns the number of unused slots in the magazine.
    pub fn get_unpopulated(&self) -> (ret: usize)
        requires
            self.wf(),
        ensures
            ret == if self.storage_spec() {
                MAGAZINE_SIZE - self@.len()
            } else {
                0
            },
    {
        if self.inner.is_some() {
            MAGAZINE_SIZE as usize - self.top_of_stack as usize
        } else {
            0
        }
    }

    /// Puts `objects` in unused slots of the magazine, the first one
    /// at the bottom, and marks the slots as now populated.
    pub fn commit_populated(&mut self, objects: Vec<LinearRef>)
        requires
            old(self).wf(),
            old(self).storage_spec() ==> objects.len() <= MAGAZINE_SIZE - old(self)@.len(),
            !old(self).storage_spec() ==> objects.len() == 0,
        ensures
            final(self).wf(),
            final(self).storage_spec() == old(self).storage_spec(),
            final(self)@ == old(self)@ + addresses(objects@),
    {
        let mut objects = objects;
        let count = objects.len();
        let ghost committed = objects@;
        match self.inner.as_mut() {
            None => {
                proof {
                    assert(self@ =~= old(self)@ + addresses(committed));
                }
            },
            Some(storage) => {
                storage.allocations.append(&mut objects);
                self.top_of_stack += count as isize;
                proof {
                    assert(self@ =~= old(self)@ + addresses(committed));
                }
            },
        }
    }
}

} // verus!
