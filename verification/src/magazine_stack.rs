//! A `MagazineStack` is a single-linked intrusive stack of magazines.
use vstd::prelude::*;

use crate::magazine::Magazine;
use crate::magazine_impl::lemma_stack_of_none;
use crate::magazine_impl::lemma_stack_of_some;
use crate::magazine_impl::stack_of;
use crate::magazine_impl::stack_wf;
use crate::magazine_impl::MagazineImpl;
use crate::magazine_impl::MagazineStorage;

verus! {

/// A `MagazineStack` is a single-linked stack with a generation
/// counter, which counts the changes to the stack.  `MagazineStorage`
/// are immortal: `Rack`s never free them, and simply cache empty
/// magazines in a `MagazineStack`.
///
/// Viewed as a sequence, the stack holds the contents of its
/// magazines, from the one on top down.
pub struct MagazineStack {
    top_of_stack: Option<Box<MagazineStorage>>,
    generation: usize,
}

impl View for MagazineStack {
    type V = Seq<Seq<usize>>;

    closed spec fn view(&self) -> Seq<Seq<usize>> {
        stack_of(self.top_of_stack)
    }
}

/// The generation after `generation`: one more, and zero after the
/// largest one.
pub open spec fn next_generation(generation: usize) -> usize {
    if generation == usize::MAX {
        0
    } else {
        (generation + 1) as usize
    }
}

impl MagazineStack {
    /// The generation of the stack: it moves on whenever the top of
    /// the stack changes.
    pub closed spec fn generation(&self) -> usize {
        self.generation
    }

    /// Every storage in the stack is a valid one.
    pub closed spec fn wf(&self) -> bool {
        stack_wf(self.top_of_stack)
    }

    pub fn new() -> (ret: Self)
        ensures
            ret.wf(),
            ret@ == Seq::<Seq<usize>>::empty(),
            ret.generation() == 0,
    {
        proof {
            lemma_stack_of_none();
        }
        Self { top_of_stack: None, generation: 0 }
    }

    /// Pushes the storage of `mag` on the stack.  A magazine without
    /// storage leaves the stack as it is.
    pub fn push<const PUSH_MAG: bool>(&mut self, mag: Magazine<PUSH_MAG>)
        requires
            old(self).wf(),
            mag.wf(),
        ensures
            final(self).wf(),
            final(self)@ == if mag.storage_spec() {
                seq![mag@] + old(self)@
            } else {
                old(self)@
            },
            final(self).generation() == if mag.storage_spec() {
                next_generation(old(self).generation())
            } else {
                old(self).generation()
            },
    {
        if let Some(mut storage) = mag.0.storage() {
            storage.set_link(self.top_of_stack.take());
            proof {
                lemma_stack_of_some(storage);
            }
            self.top_of_stack = Some(storage);
            self.generation = self.generation.wrapping_add(1);
        }
    }

    /// Pops the magazine on top of the stack, if there is one.
    pub fn pop<const PUSH_MAG: bool>(&mut self) -> (ret: Option<Magazine<PUSH_MAG>>)
        requires
            old(self).wf(),
        ensures
            final(self).wf(),
            ret is None == (old(self)@.len() == 0),
            match ret {
                None => final(self)@ == old(self)@,
                Some(mag) => {
                    &&& mag.wf()
                    &&& mag.storage_spec()
                    &&& mag@ == old(self)@[0]
                    &&& final(self)@ == old(self)@.skip(1)
                },
            },
            final(self).generation() == if ret is Some {
                next_generation(old(self).generation())
            } else {
                old(self).generation()
            },
    {
        match self.top_of_stack.take() {
            None => {
                proof {
                    lemma_stack_of_none();
                }
                None
            },
            Some(mut storage) => {
                proof {
                    lemma_stack_of_some(storage);
                }
                self.top_of_stack = storage.take_link();
                self.generation = self.generation.wrapping_add(1);
                proof {
                    assert(self@ =~= old(self)@.skip(1));
                }
                Some(Magazine(MagazineImpl::new(Some(storage))))
            },
        }
    }

    /// Pops the magazine on top of the stack, if there is one, in a
    /// single attempt.
    pub fn try_pop<const PUSH_MAG: bool>(&mut self) -> (ret: Option<Magazine<PUSH_MAG>>)
        requires
            old(self).wf(),
        ensures
            final(self).wf(),
            ret is None == (old(self)@.len() == 0),
            match ret {
                None => final(self)@ == old(self)@,
                Some(mag) => {
                    &&& mag.wf()
                    &&& mag.storage_spec()
                    &&& mag@ == old(self)@[0]
                    &&& final(self)@ == old(self)@.skip(1)
                },
            },
            final(self).generation() == if ret is Some {
                next_generation(old(self).generation())
            } else {
                old(self).generation()
            },
    {
        self.pop()
    }
}

} // verus!
