//! This module services individual allocation and deallocation calls,
//! i.e., the majority of public calls into the allocator.
use vstd::multiset::Multiset;
use vstd::prelude::*;

use crate::cache::Cache;
use crate::chunks::Chunks;
use crate::class::Class;
use crate::class::ClassInfo;
use crate::class::Slitter;
use crate::ledger::depot;
use crate::ledger::lemma_seq_multiset;
use crate::ledger::Ledger;
use crate::linear_ref::LinearRef;
use crate::magazine::contents_of;
use crate::magazine::one;
use crate::magazine::LocalMagazineCache;
use crate::mapper::Mapper;
use crate::mill::Mill;
use crate::rack::Rack;

verus! {

impl Class {
    /// Attempts to return a newly allocated object for this `Class`.
    ///
    /// On success, the address is not zero, it is aligned as the class
    /// demands, and the metadata that the address arithmetic finds for
    /// it names this class, now and for as long as the process lives.
    /// A caller holds the object from now on, and no caller held it.
    /// Where the class is zero-initialised, the object is not stale:
    /// no caller released it since the mapper committed the memory, or
    /// filled the object with zeros.
    /// A success counts as one more allocation of the class, and as
    /// one more live allocation; a failure counts as nothing.
    pub fn allocate<M: Mapper>(self, cache: Option<&mut Cache>, slitter: &mut Slitter<M>) -> (ret:
        Option<usize>)
        requires
            old(slitter).wf(),
            old(slitter).is_registered(self),
            cache matches Some(cache) ==> cache.wf(old(slitter)),
        ensures
            final(slitter).wf(),
            final(slitter).follows(old(slitter)),
            final(slitter).class_count() == old(slitter).class_count(),
            cache matches Some(cache) ==> final(cache).wf(final(slitter)) && final(cache).id()
                == cache.id(),
            crate::cache::spared(
                &final(slitter).ledger_spec(),
                &old(slitter).ledger_spec(),
                cache,
                None,
            ),
            final(slitter).counts_allocation(old(slitter), self, ret is Some),
            cache matches Some(cache) ==> final(cache).after_allocation(
                cache,
                old(slitter),
                self,
                ret,
            ),
            ret matches Some(address) ==> {
                &&& final(slitter).owns(self, address)
                &&& address != 0
                &&& address % old(slitter).info_of(self@ as int).layout@.1 == 0
                &&& final(slitter).holder(address) == Some(crate::ledger::caller())
                &&& old(slitter).holder(address) != Some(crate::ledger::caller())
                &&& old(slitter).info_of(self@ as int).zero_init ==> !final(slitter).stale(address)
            },
            old(slitter).stocked(self) ==> ret is Some,
            crate::cache::next_allocation(cache, old(slitter), self) matches Some(address) ==> ret
                == Some(address),
            final(slitter).keeps_classes(old(slitter)),
    {
        match crate::cache::allocate(cache, slitter, self) {
            Some(object) => Some(object.convert_to_non_null()),
            None => None,
        }
    }

    /// Marks an object returned by `allocate`, which a caller holds,
    /// as ready for reuse.  No caller holds the object afterwards: the
    /// class has one more release, and one live allocation less.
    /// The object is stored once: in a magazine of the thread's cache,
    /// or, where the thread has no cache, in a magazine of the class,
    /// so that the next allocation of the class succeeds.
    pub fn release<M: Mapper>(self, cache: Option<&mut Cache>, slitter: &mut Slitter<M>, block: usize)
        requires
            old(slitter).wf(),
            old(slitter).is_registered(self),
            old(slitter).owns(self, block),
            old(slitter).holder(block) == Some(crate::ledger::caller()),
            cache matches Some(cache) ==> cache.wf(old(slitter)),
        ensures
            final(slitter).wf(),
            final(slitter).follows(old(slitter)),
            final(slitter).class_count() == old(slitter).class_count(),
            final(slitter).chunks_spec() == old(slitter).chunks_spec(),
            cache matches Some(cache) ==> final(cache).wf(final(slitter)) && final(cache).id()
                == cache.id(),
            crate::cache::spared(
                &final(slitter).ledger_spec(),
                &old(slitter).ledger_spec(),
                cache,
                Some(block),
            ),
            final(slitter).counts_release(old(slitter), self),
            final(slitter).holder(block) is Some,
            final(slitter).holder(block) != Some(crate::ledger::caller()),
            final(slitter).stale(block),
            final(slitter).keeps_classes(old(slitter)),
            cache is None ==> final(slitter).stocked(self),
            cache matches Some(cache) ==> final(cache).after_release(cache, self, block),
            match cache {
                Some(cache) => final(cache).held(self@ as int).count(block) == 1
                    && final(slitter).holder(block) == Some(cache.id()),
                None => final(slitter).depot_of(self).count(block) == 1 && final(slitter).holder(
                    block,
                ) == Some(crate::ledger::depot()),
            },
    {
        crate::cache::release(cache, slitter, self, LinearRef::new(block));
    }
}

impl ClassInfo {
    /// Allocates an object without the help of a thread's cache: from
    /// a cached magazine where the class has one, and else from the
    /// press.
    pub(crate) fn allocate_slow<M: Mapper>(
        &mut self,
        rack: &mut Rack,
        mill: &mut Mill<M>,
        chunks: &mut Chunks,
        ledger: &mut Ledger,
        Ghost(holder): Ghost<int>,
    ) -> (ret: Option<LinearRef>)
        requires
            old(chunks).wf(),
            old(self).sound(old(chunks), old(ledger)),
            old(ledger).wf(old(chunks)),
            old(rack).wf(),
            old(mill).wf(old(chunks)),
            old(ledger).is_cache(holder),
        ensures
            final(chunks).wf(),
            final(chunks).extends(old(chunks)),
            final(self).sound(final(chunks), final(ledger)),
            final(ledger).wf(final(chunks)),
            final(rack).wf(),
            final(mill).wf(final(chunks)),
            final(mill).mapper_spec() == old(mill).mapper_spec(),
            final(self).same_class(old(self)),
            final(self).stepped(final(chunks), old(ledger), final(ledger), holder),
            ret matches Some(object) ==> {
                &&& final(self).owns(final(chunks), object@)
                &&& final(ledger).holder(object@) == Some(holder)
                &&& old(self).zero_init ==> !final(ledger).stale(object@)
            },
            old(self).partial_mags@.len() > 0 || old(self).full_mags@.len() > 0
                || old(self).press.can_allocate(old(mill), old(chunks)) ==> ret is Some,
            old(self).cached_source(&LocalMagazineCache::Nothing) matches Some(source) ==> (
            ret matches Some(object) && object@ == source.last()),
            old(self).cached_source(&LocalMagazineCache::Nothing) is None
                && old(self).press.can_allocate(old(mill), old(chunks)) ==> (ret matches Some(object)
                && object@ == old(self).press.upcoming(old(mill), old(chunks))),
            old(self).cached_source(&LocalMagazineCache::Nothing) is None ==> (
            ret matches Some(object) ==> (!old(self).press.can_allocate(old(mill), old(chunks))
                ==> final(self).press.took_new_chunk(old(chunks), final(chunks), object@))),
            final(self).press.tagged_since(old(chunks), final(chunks)),
    {
        broadcast use vstd::multiset::group_multiset_axioms;

        let mut cache = LocalMagazineCache::Nothing;
        let ghost nothing = Multiset::<usize>::empty();
        let cached = self.get_cached_magazine(
            mill.mapper(),
            &mut cache,
            ledger,
            Ghost(&*chunks),
            Ghost(holder),
            Ghost(nothing),
        );
        if let Some(mut mag) = cached {
            let ghost took = *ledger;
            let allocated = mag.get();
            proof {
                lemma_seq_multiset(cached->0@);
                assert(allocated matches Some(object) && self.owns(chunks, object@)) by {
                    assert(self.owns(chunks, cached->0@[cached->0@.len() - 1]));
                }
                assert(self.owns_all(chunks, mag@)) by {
                    assert forall|i: int| 0 <= i < mag@.len() implies self.owns(
                        chunks,
                        #[trigger] mag@[i],
                    ) by {
                        assert(mag@[i] == cached->0@[i]);
                    }
                }
                assert(mag@.to_multiset().add(Multiset::empty()).add(one(allocated))
                    =~= contents_of(cached).add(crate::ledger::optional(cache@)).add(nothing));
                assert(contents_of(cached).count(allocated->0@) >= 1);
            }
            self.release_magazine(
                rack,
                mag,
                None,
                ledger,
                Ghost(&*chunks),
                Ghost(holder),
                Ghost(one(allocated)),
            );
            proof {
                ledger.lemma_spares_is_transitive(old(ledger), &took, holder);
                assert(Multiset::<usize>::empty().add(one(allocated)).count(allocated->0@) >= 1);
            }
            allocated
        } else {
            // We can assume the press always allocates zero-filled
            // objects: we require that the underlying mapper only
            // give us zero-filled memory.
            let ghost before = *chunks;
            let ghost info = *self;
            let ghost looked = *ledger;
            let allocated = self.press.allocate_one_object(mill, chunks, ledger, Ghost(holder));
            proof {
                info.lemma_wf_extends(&before, chunks);
                let batch = self.press.batch(crate::press::granted(allocated, 1));
                assert(ledger.moved_to(&looked, batch, holder));
                ledger.lemma_gave_spares(&looked, batch, holder, holder);
                ledger.lemma_spares_is_transitive(old(ledger), &looked, holder);
                ledger.lemma_keep(&looked, batch, holder, depot(), self.depot_ms());
                if allocated is Some {
                    let first = allocated->0@;
                    let row = crate::ledger::objects(first, self.layout@.0, 1);
                    assert(row.len() == 1);
                    assert(row[0] == first) by {
                        assert(0 * self.layout@.0 == 0) by (nonlinear_arith);
                    }
                    assert(row =~= Seq::<usize>::empty().push(first));
                    lemma_seq_multiset(Seq::<usize>::empty());
                    assert(batch.count(first) >= 1);
                    assert forall|a: usize| #![trigger batch.count(a)] batch.count(a)
                        >= 1 implies a == first by {}
                }
                assert forall|a: usize|
                    #![trigger ledger.holder(a)]
                    #![trigger ledger.stale(a)]
                    chunks.class_of(a as int) != Some(self.id@) implies ledger.holder(a)
                        == old(ledger).holder(a) && ledger.stale(a) == old(ledger).stale(a) by {
                    assert(before.class_of(a as int) != Some(self.id@)) by {
                        if before.class_of(a as int) == Some(self.id@) {
                            assert(before@.dom().contains(
                                crate::mill::metadata_address(a as int),
                            ));
                        }
                    }
                }
            }
            allocated
        }
    }

    /// Takes `block` back without the help of a thread's cache.
    pub(crate) fn release_slow(
        &mut self,
        rack: &mut Rack,
        block: LinearRef,
        ledger: &mut Ledger,
        Ghost(chunks): Ghost<&Chunks>,
        Ghost(holder): Ghost<int>,
    )
        requires
            chunks.wf(),
            old(self).sound(chunks, old(ledger)),
            old(ledger).wf(chunks),
            old(rack).wf(),
            old(self).owns(chunks, block@),
            old(ledger).is_cache(holder),
            old(ledger).holds(holder, Multiset::singleton(block@)),
        ensures
            final(self).sound(chunks, final(ledger)),
            final(ledger).wf(chunks),
            final(rack).wf(),
            final(self).same_class(old(self)),
            final(self).press == old(self).press,
            final(self).stepped(chunks, old(ledger), final(ledger), holder),
            forall|a: usize|
                #![trigger final(ledger).stale(a)]
                final(ledger).stale(a) == old(ledger).stale(a),
            final(ledger).holder(block@) == Some(depot()),
            final(self).partial_mags@.len() > 0 || final(self).full_mags@.len() > 0,
            final(self).depot_ms() == old(self).depot_ms().insert(block@),
    {
        broadcast use vstd::multiset::group_multiset_axioms;

        let mut cache = LocalMagazineCache::Nothing;
        let ghost spill = Multiset::singleton(block@);
        proof {
            assert(crate::ledger::optional(cache@).add(spill) =~= spill);
        }
        let mut mag = self.allocate_non_full_magazine(
            rack,
            &mut cache,
            ledger,
            Ghost(chunks),
            Ghost(holder),
            Ghost(spill),
        );
        let ghost taken = mag@;
        let ghost took = *ledger;
        // Deallocation must succeed.
        let _ = mag.put(block);
        proof {
            lemma_seq_multiset(taken);
            assert(self.owns_all(chunks, mag@)) by {
                assert forall|i: int| 0 <= i < mag@.len() implies self.owns(
                    chunks,
                    #[trigger] mag@[i],
                ) by {
                    if i < taken.len() {
                        assert(mag@[i] == taken[i]);
                    }
                }
            }
            assert(mag@.to_multiset().add(Multiset::empty()).add(Multiset::empty())
                =~= taken.to_multiset().add(crate::ledger::optional(cache@)).add(spill));
        }
        let ghost filled = mag@;
        let ghost stacks = (self.full_mags@, self.partial_mags@);
        self.release_magazine(
            rack,
            mag,
            None,
            ledger,
            Ghost(chunks),
            Ghost(holder),
            Ghost(Multiset::empty()),
        );
        proof {
            ledger.lemma_spares_is_transitive(old(ledger), &took, holder);
            lemma_seq_multiset(filled);
            assert(filled.to_multiset().count(block@) >= 1) by {
                assert(filled.last() == block@);
            }
            if filled.len() == crate::magazine_impl::MAGAZINE_SIZE {
                crate::ledger::lemma_total_push(stacks.0, filled);
            } else {
                crate::ledger::lemma_total_push(stacks.1, filled);
            }
            assert(self.depot_ms().count(block@) >= 1);
        }
    }
}

} // verus!
