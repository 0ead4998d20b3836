//! The cache layer always allocates from and releases into small
//! arrays of pre-allocated blocks.  These small arrays are
//! "magazines," and are themselves allocated and released by a
//! "rack."
use vstd::prelude::*;

use vstd::multiset::Multiset;

use crate::chunks::Chunks;
use crate::class::Class;
use crate::class::ClassInfo;
use crate::class::Slitter;
use crate::ledger::depot;
use crate::ledger::lemma_seq_multiset;
use crate::ledger::lemma_total_pop;
use crate::ledger::lemma_total_push;
use crate::ledger::objects;
use crate::ledger::optional;
use crate::ledger::total;
use crate::ledger::Ledger;
use crate::linear_ref::LinearRef;
use crate::magazine_impl::addresses;
use crate::mapper::Mapper;
use crate::mill::Mill;
use crate::rack::Rack;
use crate::magazine_impl::MagazineImpl;
use crate::magazine_impl::MAGAZINE_SIZE;

verus! {

/// A Magazine is a thin wrapper around MagazineImpl: the wrapping
/// lets us impose a tighter contract on the interface used in the
/// allocator, while keeping the internal implementation testable.
///
/// A `PUSH_MAG: true` magazine can only grow, and a `PUSH_MAG: false`
/// one can only shrink, or be refilled with fresh allocations.
///
/// The default for Push magazines is always full, and the default Pop
/// magazine is always empty.
pub struct Magazine<const PUSH_MAG: bool>(pub MagazineImpl<PUSH_MAG>);

pub type PushMagazine = Magazine<true>;

pub type PopMagazine = Magazine<false>;

impl<const PUSH_MAG: bool> View for Magazine<PUSH_MAG> {
    type V = Seq<usize>;

    /// The addresses in the magazine, from the bottom up.
    open spec fn view(&self) -> Seq<usize> {
        self.0@
    }
}

impl<const PUSH_MAG: bool> Default for Magazine<PUSH_MAG> {
    fn default() -> (ret: Self)
        ensures
            ret.wf(),
            !ret.storage_spec(),
            ret@ == Seq::<usize>::empty(),
    {
        Magazine(MagazineImpl::default())
    }
}

impl<const PUSH_MAG: bool> Magazine<PUSH_MAG> {
    /// The current object's state is valid.
    pub open spec fn wf(&self) -> bool {
        self.0.wf()
    }

    /// Whether this magazine is backed by real storage.
    pub open spec fn storage_spec(&self) -> bool {
        self.0.storage_spec()
    }

    /// Whether no allocation can be put in the magazine.
    pub open spec fn full_spec(&self) -> bool {
        self.0.full_spec()
    }

    /// Whether no allocation can be got from the magazine.
    pub open spec fn empty_spec(&self) -> bool {
        self.0.empty_spec()
    }

    /// Checks that current object's state is valid.
    ///
    /// If a class is provided, all allocations must match it.
    pub fn check_rep<M: Mapper>(&self, slitter: &Slitter<M>, maybe_class: Option<Class>) -> (ret:
        Result<(), &'static str>)
        requires
            slitter.wf(),
            maybe_class matches Some(class) ==> slitter.is_registered(class),
        ensures
            ret is Ok == (self.wf() && (maybe_class matches Some(class) ==> slitter.owns_all(
                class,
                self@,
            ))),
            !self.wf() ==> ret == Err::<(), &'static str>("MagazineImpl fails check_rep"),
    {
        if !self.0.check_rep() {
            return Err("MagazineImpl fails check_rep");
        }
        // If we have an allocation class, the types must match.

        if let Some(class) = maybe_class {
            if !self.has_storage() {
                proof {
                    self.0.lemma_len_bounds();
                }
                return Ok(());
            }
            let count = self.0.len();
            proof {
                self.0.lemma_len_bounds();
            }
            let mut i: usize = 0;
            while i < count
                invariant
                    slitter.wf(),
                    slitter.is_registered(class),
                    maybe_class == Some(class),
                    self.wf(),
                    self.storage_spec(),
                    count == self@.len(),
                    i <= count,
                    forall|k: int| 0 <= k < i ==> slitter.owns(class, #[trigger] self@[k]),
                decreases count - i,
            {
                if let Some(alloc) = self.0.nth(i) {
                    let address = alloc.get();
                    if !slitter.owns_block(class, address) {
                        proof {
                            assert(!slitter.owns(class, self@[i as int]));
                        }
                        return match crate::press::check_allocation(
                            slitter.chunks(),
                            class,
                            address,
                        ) {
                            Err(message) => Err(message),
                            Ok(()) => Err("Misplaced cached allocation"),
                        };
                    }
                }
                i += 1;
            }
        }
        Ok(())
    }

    /// Returns whether this magazine is backed by real storage, and
    /// thus has capacity.
    pub fn has_storage(&self) -> (ret: bool)
        ensures
            ret == self.storage_spec(),
    {
        self.0.has_storage()
    }

    pub fn is_full(&self) -> (ret: bool)
        requires
            self.wf(),
        ensures
            ret == self.full_spec(),
    {
        self.0.is_full()
    }

    pub fn is_empty(&self) -> (ret: bool)
        requires
            self.wf(),
        ensures
            ret == self.empty_spec(),
    {
        self.0.is_empty()
    }
}

impl Magazine<true> {
    /// Attempts to put an unused block back in the magazine.
    ///
    /// Returns that unused block on failure.  We only fail to push to
    /// full magazines.  The magazine never shrinks.
    pub fn put(&mut self, freed: LinearRef) -> (ret: Option<LinearRef>)
        requires
            old(self).wf(),
        ensures
            final(self).wf(),
            final(self).storage_spec() == old(self).storage_spec(),
            old(self).full_spec() == ret is Some,
            match ret {
                Some(spilled) => spilled@ == freed@ && final(self)@ == old(self)@,
                None => final(self)@ == old(self)@.push(freed@),
            },
            final(self)@.len() >= old(self)@.len(),
    {
        self.0.put(freed)
    }
}

impl Magazine<false> {
    /// Attempts to get an unused block from the magazine: the one on
    /// top.  We only fail to pop from empty magazines.  The magazine
    /// never grows.
    pub fn get(&mut self) -> (ret: Option<LinearRef>)
        requires
            old(self).wf(),
        ensures
            final(self).wf(),
            final(self).storage_spec() == old(self).storage_spec(),
            old(self).empty_spec() == ret is None,
            match ret {
                Some(popped) => popped@ == old(self)@.last() && final(self)@ == old(self)@.drop_last(),
                None => final(self)@ == old(self)@,
            },
            final(self)@.len() <= old(self)@.len(),
    {
        self.0.get()
    }

    /// Returns the number of unused slots in the magazine.
    pub(crate) fn get_unpopulated(&self) -> (ret: usize)
        requires
            self.wf(),
        ensures
            ret == if self.storage_spec() {
                MAGAZINE_SIZE - self@.len()
            } else {
                0
            },
    {
        self.0.get_unpopulated()
    }

    /// Puts `objects` in unused slots of the magazine, the first one
    /// at the bottom, and marks the slots as now populated.
    pub(crate) fn commit_populated(&mut self, objects: Vec<LinearRef>)
        requires
            old(self).wf(),
            old(self).storage_spec() ==> objects.len() <= MAGAZINE_SIZE - old(self)@.len(),
            !old(self).storage_spec() ==> objects.len() == 0,
        ensures
            final(self).wf(),
            final(self).storage_spec() == old(self).storage_spec(),
            final(self)@ == old(self)@ + addresses(objects@),
    {
        self.0.commit_populated(objects)
    }
}

/// Thread-local allocation caches also cache magazines locally.
/// Buffering one magazine before pushing it to global freelists
/// helps avoid contention for common patterns like back-to-back
/// allocation and deallocation.
pub enum LocalMagazineCache {
    Nothing,
    /// Always an empty magazine with storage.
    Empty(PopMagazine),
    /// Always a full magazine with storage.
    Full(PushMagazine),
}

impl View for LocalMagazineCache {
    type V = Option<Seq<usize>>;

    /// What the cached magazine holds, if a magazine is cached.
    open spec fn view(&self) -> Option<Seq<usize>> {
        match self {
            LocalMagazineCache::Nothing => None,
            LocalMagazineCache::Empty(mag) => Some(mag@),
            LocalMagazineCache::Full(mag) => Some(mag@),
        }
    }
}

/// Whether a magazine that holds `contents`, with storage or without,
/// can be cached: it has storage, and is either full or empty.
pub open spec fn is_cacheable(has_storage: bool, contents: Seq<usize>) -> bool {
    has_storage && (contents.len() == MAGAZINE_SIZE || contents.len() == 0)
}

impl LocalMagazineCache {
    /// The cached magazine, if there is one, is a valid magazine with
    /// storage, and as full or as empty as the variant says.
    pub open spec fn wf(&self) -> bool {
        match self {
            LocalMagazineCache::Nothing => true,
            LocalMagazineCache::Empty(mag) => mag.wf() && mag.storage_spec() && mag@.len() == 0,
            LocalMagazineCache::Full(mag) => mag.wf() && mag.storage_spec() && mag@.len()
                == MAGAZINE_SIZE,
        }
    }

    /// Stores `mag` in the cache, and returns the previously-cached
    /// magazine, if any.
    ///
    /// If `mag` cannot be cached, returns `mag`.
    pub fn populate<const PUSH_MAG: bool>(&mut self, mag: Magazine<PUSH_MAG>) -> (ret: Option<
        Magazine<PUSH_MAG>,
    >)
        requires
            old(self).wf(),
            mag.wf(),
        ensures
            final(self).wf(),
            ret matches Some(returned) ==> returned.wf(),
            if is_cacheable(mag.storage_spec(), mag@) {
                &&& final(self)@ == Some(mag@)
                &&& *final(self) is Full == (mag@.len() == MAGAZINE_SIZE)
                &&& match old(self)@ {
                    None => ret is None,
                    Some(contents) => ret matches Some(returned) && returned@ == contents
                        && returned.storage_spec(),
                }
            } else {
                &&& *final(self) == *old(self)
                &&& ret matches Some(returned)
                &&& returned@ == mag@
                &&& returned.storage_spec() == mag.storage_spec()
            },
    {
        if !mag.has_storage() {
            return Some(mag);
        }
        proof {
            mag.0.lemma_len_bounds();
        }
        let mut local;
        if mag.is_full() {
            let storage = mag.0.storage();
            local = LocalMagazineCache::Full(Magazine(MagazineImpl::new(storage)));
        } else if mag.is_empty() {
            let storage = mag.0.storage();
            local = LocalMagazineCache::Empty(Magazine(MagazineImpl::new(storage)));
        } else {
            return Some(mag);
        }
        core::mem::swap(self, &mut local);
        match local {
            LocalMagazineCache::Nothing => None,
            LocalMagazineCache::Empty(cached) => Some(Magazine(MagazineImpl::new(cached.0.storage()))),
            LocalMagazineCache::Full(cached) => Some(Magazine(MagazineImpl::new(cached.0.storage()))),
        }
    }

    /// Returns a full `PopMagazine` if one is cached.
    pub fn steal_full(&mut self) -> (ret: Option<PopMagazine>)
        requires
            old(self).wf(),
        ensures
            final(self).wf(),
            match *old(self) {
                LocalMagazineCache::Full(cached) => {
                    &&& *final(self) is Nothing
                    &&& ret matches Some(mag)
                    &&& mag.wf()
                    &&& mag.storage_spec()
                    &&& mag@ == cached@
                },
                _ => ret is None && *final(self) == *old(self),
            },
    {
        match self {
            LocalMagazineCache::Nothing => None,
            LocalMagazineCache::Empty(_) => None,
            LocalMagazineCache::Full(_) => {
                let mut private = LocalMagazineCache::Nothing;
                core::mem::swap(&mut private, self);
                match private {
                    LocalMagazineCache::Full(mag) => Some(Magazine(MagazineImpl::new(mag.0.storage()))),
                    _ => None,
                }
            },
        }
    }

    /// Returns an empty `PushMagazine` if one is cached.
    pub fn steal_empty(&mut self) -> (ret: Option<PushMagazine>)
        requires
            old(self).wf(),
        ensures
            final(self).wf(),
            match *old(self) {
                LocalMagazineCache::Empty(cached) => {
                    &&& *final(self) is Nothing
                    &&& ret matches Some(mag)
                    &&& mag.wf()
                    &&& mag.storage_spec()
                    &&& mag@ == cached@
                },
                _ => ret is None && *final(self) == *old(self),
            },
    {
        match self {
            LocalMagazineCache::Nothing => None,
            LocalMagazineCache::Full(_) => None,
            LocalMagazineCache::Empty(_) => {
                let mut private = LocalMagazineCache::Nothing;
                core::mem::swap(&mut private, self);
                match private {
                    LocalMagazineCache::Empty(mag) => Some(Magazine(MagazineImpl::new(mag.0.storage()))),
                    _ => None,
                }
            },
        }
    }
}

/// Where a magazine that holds `contents` goes when the class takes
/// it back: what the stack of full magazines and the stack of partial
/// magazines hold afterwards.  An empty magazine goes to the rack.
pub open spec fn placed(
    full: Seq<Seq<usize>>,
    partial: Seq<Seq<usize>>,
    has_storage: bool,
    contents: Seq<usize>,
) -> (Seq<Seq<usize>>, Seq<Seq<usize>>) {
    if !has_storage || contents.len() == 0 {
        (full, partial)
    } else if contents.len() == MAGAZINE_SIZE {
        (seq![contents] + full, partial)
    } else {
        (full, seq![contents] + partial)
    }
}

/// What a magazine that may be missing holds.
pub open spec fn contents_of<const PUSH_MAG: bool>(mag: Option<Magazine<PUSH_MAG>>) -> Multiset<
    usize,
> {
    match mag {
        Some(mag) => mag@.to_multiset(),
        None => Multiset::empty(),
    }
}

/// The address of an object that may be missing.
pub open spec fn one(object: Option<LinearRef>) -> Multiset<usize> {
    match object {
        Some(object) => Multiset::singleton(object@),
        None => Multiset::empty(),
    }
}

impl ClassInfo {
    /// Overwrites with zeros every object in `mag`: none of them is
    /// stale afterwards.
    fn zero_magazine<M: Mapper>(&self, mapper: &M, mag: &PopMagazine, ledger: &mut Ledger)
        requires
            mag.wf(),
            forall|i: int|
                0 <= i < mag@.len() ==> (#[trigger] mag@[i]) != 0 && mag@[i] + self.layout@.0
                    <= usize::MAX,
        ensures
            forall|a: usize|
                #![trigger final(ledger).stale(a)]
                final(ledger).stale(a) == (old(ledger).stale(a) && mag@.to_multiset().count(a) == 0),
            forall|a: usize|
                #![trigger final(ledger).holder(a)]
                final(ledger).holder(a) == old(ledger).holder(a),
            final(ledger).cache_count() == old(ledger).cache_count(),
            final(ledger).same_counts(old(ledger)),
            final(ledger).keeps_apart(old(ledger)),
            final(ledger).clean(mag@.to_multiset()),
            forall|j: int|
                0 <= j < mag@.len() ==> call_ensures(
                    M::zero_fill,
                    (mapper, #[trigger] mag@[j], self.layout@.0),
                    (),
                ),
    {
        broadcast use vstd::multiset::group_multiset_axioms;

        proof {
            lemma_seq_multiset(mag@);
            mag.0.lemma_len_bounds();
        }
        if !mag.has_storage() {
            return ;
        }
        let size = self.layout.size();
        let count = mag.0.len();
        let mut i: usize = 0;
        while i < count
            invariant
                mag.wf(),
                mag.storage_spec(),
                count == mag@.len(),
                i <= count,
                size == self.layout@.0,
                forall|j: int|
                    0 <= j < mag@.len() ==> (#[trigger] mag@[j]) != 0 && mag@[j] + self.layout@.0
                        <= usize::MAX,
                forall|a: usize|
                    #![trigger ledger.stale(a)]
                    ledger.stale(a) == (old(ledger).stale(a) && forall|j: int|
                        0 <= j < i ==> mag@[j] != a),
                forall|a: usize|
                    #![trigger ledger.holder(a)]
                    ledger.holder(a) == old(ledger).holder(a),
                ledger.cache_count() == old(ledger).cache_count(),
                ledger.same_counts(old(ledger)),
                ledger.keeps_apart(old(ledger)),
                forall|j: int|
                    0 <= j < i ==> call_ensures(
                        M::zero_fill,
                        (mapper, #[trigger] mag@[j], self.layout@.0),
                        (),
                    ),
            decreases count - i,
        {
            if let Some(allocation) = mag.0.nth(i) {
                assert(mag@[i as int] != 0);
                mapper.zero_fill(allocation.get(), size);
                ledger.rinse(Ghost(Multiset::singleton(allocation@)));
            }
            i += 1;
        }
        proof {
            assert forall|a: usize| #![trigger ledger.stale(a)] ledger.stale(a) == (old(
                ledger,
            ).stale(a) && mag@.to_multiset().count(a) == 0) by {
                if mag@.to_multiset().count(a) >= 1 {
                    assert(mag@.contains(a));
                    let j = choose|j: int| 0 <= j < mag@.len() && mag@[j] == a;
                    assert(mag@[j] == a);
                }
            }
        }
    }

    /// The ledger after `holder` took the magazine `taken` from the
    /// stacks of the class, which hold `left` besides.
    proof fn lemma_after_take(
        &self,
        before: &ClassInfo,
        chunks: &Chunks,
        old_ledger: &Ledger,
        ledger: &Ledger,
        taken: Seq<usize>,
        holder: int,
        had: Multiset<usize>,
    )
        requires
            chunks.wf(),
            before.sound(chunks, old_ledger),
            old_ledger.wf(chunks),
            self.wf(chunks),
            self.press == before.press,
            self.id == before.id,
            before.owns_all(chunks, taken),
            before.depot_ms() == taken.to_multiset().add(self.depot_ms()),
            ledger.gave(old_ledger, taken.to_multiset(), holder),
            ledger.same_counts(old_ledger),
            old_ledger.holds(holder, had),
            old_ledger.is_cache(holder),
        ensures
            self.sound(chunks, ledger),
            ledger.wf(chunks),
            ledger.holds(holder, taken.to_multiset().add(had)),
            self.stepped(chunks, old_ledger, ledger, holder),
            ledger.tracks(
                old_ledger,
                chunks,
                holder,
                self.id@,
                Multiset::empty(),
                taken.to_multiset(),
            ),
    {
        let moved = taken.to_multiset();
        ledger.lemma_take(old_ledger, depot(), before.depot_ms(), self.depot_ms(), moved, holder, had);
        assert forall|a: usize| #![trigger moved.count(a)] moved.count(a) >= 1 implies old_ledger.holder(
            a,
        ) == Some(depot()) && chunks.class_of(a as int) == Some(self.id@) by {
            broadcast use vstd::multiset::group_multiset_axioms;

            assert(before.depot_ms().count(a) >= 1);
            before.lemma_held_is_owned(chunks, taken, a);
        }
        ledger.lemma_gave_spares(old_ledger, moved, holder, holder);
        ledger.lemma_gave_wf(old_ledger, chunks, moved, holder);
        before.press.lemma_unreserved_frame(chunks, chunks, old_ledger, ledger);
    }

    /// The ledger after the class took back the magazine `given` from
    /// `holder`, who has `kept` besides.
    proof fn lemma_after_give(
        &self,
        before: &ClassInfo,
        chunks: &Chunks,
        old_ledger: &Ledger,
        ledger: &Ledger,
        given: Seq<usize>,
        holder: int,
        kept: Multiset<usize>,
    )
        requires
            chunks.wf(),
            before.sound(chunks, old_ledger),
            old_ledger.wf(chunks),
            self.wf(chunks),
            self.press == before.press,
            self.id == before.id,
            before.owns_all(chunks, given),
            self.depot_ms() == given.to_multiset().add(before.depot_ms()),
            ledger.gave(old_ledger, given.to_multiset(), depot()),
            ledger.same_counts(old_ledger),
            old_ledger.holds(holder, given.to_multiset().add(kept)),
            old_ledger.is_cache(holder),
        ensures
            self.sound(chunks, ledger),
            ledger.wf(chunks),
            ledger.holds(holder, kept),
            self.stepped(chunks, old_ledger, ledger, holder),
            ledger.tracks(
                old_ledger,
                chunks,
                holder,
                self.id@,
                given.to_multiset(),
                Multiset::empty(),
            ),
    {
        let moved = given.to_multiset();
        ledger.lemma_take(
            old_ledger,
            holder,
            moved.add(kept),
            kept,
            moved,
            depot(),
            before.depot_ms(),
        );
        assert forall|a: usize| #![trigger moved.count(a)] moved.count(a) >= 1 implies old_ledger.holder(
            a,
        ) == Some(holder) && chunks.class_of(a as int) == Some(self.id@) by {
            broadcast use vstd::multiset::group_multiset_axioms;

            assert(moved.add(kept).count(a) >= 1);
            before.lemma_held_is_owned(chunks, given, a);
        }
        ledger.lemma_gave_spares(old_ledger, moved, depot(), holder);
        ledger.lemma_gave_wf(old_ledger, chunks, moved, depot());
        before.press.lemma_unreserved_frame(chunks, chunks, old_ledger, ledger);
    }

    /// Returns a cached magazine; it is never empty.  It is the full
    /// magazine of `cache` where there is one, else the first of the
    /// partial magazines, else the first of the full ones.
    ///
    /// Where the class is zero-initialised, every object in the
    /// magazine is handed to the mapper to be filled with zeros, and
    /// none of them is stale.
    pub(crate) fn get_cached_magazine<M: Mapper>(
        &mut self,
        mapper: &M,
        cache: &mut LocalMagazineCache,
        ledger: &mut Ledger,
        Ghost(chunks): Ghost<&Chunks>,
        Ghost(holder): Ghost<int>,
        Ghost(rest): Ghost<Multiset<usize>>,
    ) -> (ret: Option<PopMagazine>)
        requires
            chunks.wf(),
            old(self).sound(chunks, old(ledger)),
            old(ledger).wf(chunks),
            old(self).cache_ok(chunks, old(cache)),
            old(ledger).is_cache(holder),
            old(ledger).holds(holder, optional(old(cache)@).add(rest)),
        ensures
            final(self).sound(chunks, final(ledger)),
            final(ledger).wf(chunks),
            final(self).cache_ok(chunks, final(cache)),
            final(self).same_class(old(self)),
            final(self).press == old(self).press,
            final(ledger).holds(
                holder,
                contents_of(ret).add(optional(final(cache)@)).add(rest),
            ),
            final(self).stepped(chunks, old(ledger), final(ledger), holder),
            final(ledger).tracks(
                old(ledger),
                chunks,
                holder,
                old(self).id@,
                optional(old(cache)@),
                contents_of(ret).add(optional(final(cache)@)),
            ),
            old(self).zero_init ==> final(ledger).clean(contents_of(ret)),
            old(self).zero_init ==> (ret matches Some(mag) ==> forall|j: int|
                0 <= j < mag@.len() ==> call_ensures(
                    M::zero_fill,
                    (mapper, #[trigger] mag@[j], old(self).layout@.0),
                    (),
                )),
            ret matches Some(mag) ==> {
                &&& mag.wf()
                &&& mag.storage_spec()
                &&& mag@.len() > 0
                &&& final(self).owns_all(chunks, mag@)
            },
            if *old(cache) is Full {
                &&& *final(cache) is Nothing
                &&& ret matches Some(mag)
                &&& Some(mag@) == old(cache)@
                &&& final(self).partial_mags@ == old(self).partial_mags@
                &&& final(self).full_mags@ == old(self).full_mags@
            } else if old(self).partial_mags@.len() > 0 {
                &&& *final(cache) == *old(cache)
                &&& ret matches Some(mag)
                &&& mag@ == old(self).partial_mags@[0]
                &&& final(self).partial_mags@ == old(self).partial_mags@.skip(1)
                &&& final(self).full_mags@ == old(self).full_mags@
            } else if old(self).full_mags@.len() > 0 {
                &&& *final(cache) == *old(cache)
                &&& ret matches Some(mag)
                &&& mag@ == old(self).full_mags@[0]
                &&& final(self).partial_mags@ == old(self).partial_mags@
                &&& final(self).full_mags@ == old(self).full_mags@.skip(1)
            } else {
                &&& *final(cache) == *old(cache)
                &&& ret is None
                &&& final(self).partial_mags@ == old(self).partial_mags@
                &&& final(self).full_mags@ == old(self).full_mags@
            },
    {
        broadcast use vstd::multiset::group_multiset_axioms;
        // Pop from partial magazines first, because we'd prefer to
        // have 0 partial mag.

        let ret = match cache.steal_full() {
            Some(mag) => {
                proof {
                    assert(contents_of(Some(mag)).add(optional(cache@)).add(rest) =~= optional(
                        old(cache)@,
                    ).add(rest));
                    assert forall|a: usize|
                        #![trigger mag@.to_multiset().count(a)]
                        mag@.to_multiset().count(a) >= 1 implies old(ledger).holder(a) == Some(
                        holder,
                    ) by {
                        assert(optional(old(cache)@).add(rest).count(a) >= 1);
                    }
                }
                mag
            },
            None => match self.partial_mags.try_pop() {
                Some(mag) => {
                    proof {
                        assert(old(self).partial_mags@[0].len() > 0);
                        assert forall|i: int|
                            0 <= i < self.partial_mags@.len() implies 0 < (
                        #[trigger] self.partial_mags@[i]).len() < MAGAZINE_SIZE && self.owns_all(
                            chunks,
                            self.partial_mags@[i],
                        ) by {
                            assert(self.partial_mags@[i] == old(self).partial_mags@[i + 1]);
                        }
                        lemma_total_pop(old(self).partial_mags@);
                        assert(old(self).depot_ms() =~= mag@.to_multiset().add(self.depot_ms()));
                    }
                    let ghost entry = *ledger;
                    proof {
                        assert forall|a: usize|
                            #![trigger mag@.to_multiset().count(a)]
                            mag@.to_multiset().count(a) >= 1 implies ledger.holder(a) is Some by {
                            assert(old(self).depot_ms().count(a) >= 1);
                        }
                    }
                    ledger.give(Ghost(mag@.to_multiset()), Ghost(holder));
                    proof {
                        self.lemma_after_take(
                            old(self),
                            chunks,
                            &entry,
                            ledger,
                            mag@,
                            holder,
                            optional(cache@).add(rest),
                        );
                        assert(contents_of(Some(mag)).add(optional(cache@)).add(rest)
                            =~= mag@.to_multiset().add(optional(cache@).add(rest)));
                        assert forall|a: usize|
                            #![trigger mag@.to_multiset().count(a)]
                            mag@.to_multiset().count(a) >= 1 implies old(ledger).holder(a)
                            == Some(depot()) by {
                            assert(old(self).depot_ms().count(a) >= 1);
                        }
                    }
                    mag
                },
                None => match self.full_mags.pop() {
                    Some(mag) => {
                        proof {
                            assert(old(self).full_mags@[0].len() == MAGAZINE_SIZE);
                            assert forall|i: int| 0 <= i < self.full_mags@.len() implies (
                            #[trigger] self.full_mags@[i]).len() == MAGAZINE_SIZE
                                && self.owns_all(chunks, self.full_mags@[i]) by {
                                assert(self.full_mags@[i] == old(self).full_mags@[i + 1]);
                            }
                            lemma_total_pop(old(self).full_mags@);
                            assert(old(self).depot_ms() =~= mag@.to_multiset().add(
                                self.depot_ms(),
                            ));
                        }
                        let ghost entry = *ledger;
                        proof {
                            assert forall|a: usize|
                                #![trigger mag@.to_multiset().count(a)]
                                mag@.to_multiset().count(a) >= 1 implies ledger.holder(a) is Some by {
                                assert(old(self).depot_ms().count(a) >= 1);
                            }
                        }
                        ledger.give(Ghost(mag@.to_multiset()), Ghost(holder));
                        proof {
                            self.lemma_after_take(
                                old(self),
                                chunks,
                                &entry,
                                ledger,
                                mag@,
                                holder,
                                optional(cache@).add(rest),
                            );
                            assert(contents_of(Some(mag)).add(optional(cache@)).add(rest)
                                =~= mag@.to_multiset().add(optional(cache@).add(rest)));
                            assert forall|a: usize|
                                #![trigger mag@.to_multiset().count(a)]
                                mag@.to_multiset().count(a) >= 1 implies old(ledger).holder(a)
                                == Some(depot()) by {
                                assert(old(self).depot_ms().count(a) >= 1);
                            }
                        }
                        mag
                    },
                    None => {
                        proof {
                            assert(contents_of::<false>(None).add(optional(cache@)).add(rest)
                                =~= optional(old(cache)@).add(rest));
                        }
                        return None;
                    },
                },
            },
        };
        if self.zero_init {
            proof {
                assert forall|i: int| 0 <= i < ret@.len() implies (#[trigger] ret@[i]) != 0
                    && ret@[i] + self.layout@.0 <= usize::MAX by {
                    assert(self.owns(chunks, ret@[i]));
                }
            }
            let ghost dirty = *ledger;
            self.zero_magazine(mapper, &ret, ledger);
            proof {
                self.press.lemma_unreserved_frame(chunks, chunks, &dirty, ledger);
                assert forall|a: usize|
                    #![trigger ledger.holder(a)]
                    #![trigger old(ledger).holder(a)]
                    old(ledger).holder(a) is Some && old(ledger).holder(a) != Some(holder)
                        && old(ledger).holder(a) != Some(depot()) implies ledger.holder(a)
                        == old(ledger).holder(a)
                    && ledger.stale(a) == old(ledger).stale(a) by {
                    assert(dirty.holder(a) == old(ledger).holder(a));
                }
                assert forall|a: usize| #![trigger ledger.stale(a)] ledger.stale(a)
                    implies old(ledger).stale(a) by {
                    assert(dirty.stale(a));
                }
                assert forall|a: usize|
                    #![trigger ledger.holder(a)]
                    #![trigger ledger.stale(a)]
                    chunks.class_of(a as int) != Some(self.id@) implies ledger.holder(a)
                        == old(ledger).holder(a) && ledger.stale(a) == old(ledger).stale(a) by {
                    if ret@.to_multiset().count(a) >= 1 {
                        self.lemma_held_is_owned(chunks, ret@, a);
                    }
                }
            }
        }
        Some(ret)
    }

    /// Returns a magazine; it may be partially populated or empty,
    /// and is never full.  It is the empty magazine of `cache` where
    /// there is one, else the first of the partial magazines, else an
    /// empty magazine from the rack.
    pub(crate) fn allocate_non_full_magazine(
        &mut self,
        rack: &mut Rack,
        cache: &mut LocalMagazineCache,
        ledger: &mut Ledger,
        Ghost(chunks): Ghost<&Chunks>,
        Ghost(holder): Ghost<int>,
        Ghost(rest): Ghost<Multiset<usize>>,
    ) -> (ret: PushMagazine)
        requires
            chunks.wf(),
            old(self).sound(chunks, old(ledger)),
            old(ledger).wf(chunks),
            old(self).cache_ok(chunks, old(cache)),
            old(rack).wf(),
            old(ledger).is_cache(holder),
            old(ledger).holds(holder, optional(old(cache)@).add(rest)),
        ensures
            final(self).sound(chunks, final(ledger)),
            final(ledger).wf(chunks),
            final(self).cache_ok(chunks, final(cache)),
            final(rack).wf(),
            final(self).same_class(old(self)),
            final(self).press == old(self).press,
            final(self).full_mags@ == old(self).full_mags@,
            final(ledger).holds(
                holder,
                ret@.to_multiset().add(optional(final(cache)@)).add(rest),
            ),
            final(self).stepped(chunks, old(ledger), final(ledger), holder),
            final(ledger).tracks(
                old(ledger),
                chunks,
                holder,
                old(self).id@,
                optional(old(cache)@),
                ret@.to_multiset().add(optional(final(cache)@)),
            ),
            forall|a: usize|
                #![trigger final(ledger).stale(a)]
                final(ledger).stale(a) == old(ledger).stale(a),
            ret.wf(),
            ret.storage_spec(),
            ret@.len() < MAGAZINE_SIZE,
            final(self).owns_all(chunks, ret@),
            if *old(cache) is Empty {
                &&& *final(cache) is Nothing
                &&& ret@.len() == 0
                &&& final(self).partial_mags@ == old(self).partial_mags@
                &&& final(rack).spares() == old(rack).spares()
            } else if old(self).partial_mags@.len() > 0 {
                &&& *final(cache) == *old(cache)
                &&& ret@ == old(self).partial_mags@[0]
                &&& final(self).partial_mags@ == old(self).partial_mags@.skip(1)
                &&& final(rack).spares() == old(rack).spares()
            } else {
                &&& *final(cache) == *old(cache)
                &&& ret@.len() == 0
                &&& final(self).partial_mags@ == old(self).partial_mags@
            },
    {
        broadcast use vstd::multiset::group_multiset_axioms;

        match cache.steal_empty() {
            Some(mag) => {
                proof {
                    lemma_seq_multiset(mag@);
                    assert(mag@.to_multiset().add(optional(cache@)).add(rest) =~= optional(
                        old(cache)@,
                    ).add(rest));
                }
                mag
            },
            None => match self.partial_mags.try_pop() {
                Some(mag) => {
                    proof {
                        assert(old(self).partial_mags@[0].len() < MAGAZINE_SIZE);
                        assert(self.owns_all(chunks, old(self).partial_mags@[0]));
                        assert forall|i: int|
                            0 <= i < self.partial_mags@.len() implies 0 < (
                        #[trigger] self.partial_mags@[i]).len() < MAGAZINE_SIZE && self.owns_all(
                            chunks,
                            self.partial_mags@[i],
                        ) by {
                            assert(self.partial_mags@[i] == old(self).partial_mags@[i + 1]);
                        }
                        lemma_total_pop(old(self).partial_mags@);
                        assert(old(self).depot_ms() =~= mag@.to_multiset().add(self.depot_ms()));
                    }
                    let ghost entry = *ledger;
                    proof {
                        assert forall|a: usize|
                            #![trigger mag@.to_multiset().count(a)]
                            mag@.to_multiset().count(a) >= 1 implies ledger.holder(a) is Some by {
                            assert(old(self).depot_ms().count(a) >= 1);
                        }
                    }
                    ledger.give(Ghost(mag@.to_multiset()), Ghost(holder));
                    proof {
                        self.lemma_after_take(
                            old(self),
                            chunks,
                            &entry,
                            ledger,
                            mag@,
                            holder,
                            optional(cache@).add(rest),
                        );
                        assert(mag@.to_multiset().add(optional(cache@)).add(rest)
                            =~= mag@.to_multiset().add(optional(cache@).add(rest)));
                    }
                    mag
                },
                None => {
                    let mag = rack.allocate_empty_magazine();
                    proof {
                        lemma_seq_multiset(mag@);
                        assert(mag@.to_multiset().add(optional(cache@)).add(rest) =~= optional(
                            old(cache)@,
                        ).add(rest));
                    }
                    mag
                },
            },
        }
    }

    /// Acquires ownership of `mag` and its cached allocations.
    ///
    /// The magazine goes to `maybe_cache` where that is possible, and
    /// the magazine that was there, or else `mag`, goes to its place
    /// in the class: an empty magazine to the rack, a full one on the
    /// stack of full magazines, any other on the stack of partial
    /// ones.
    pub(crate) fn release_magazine<const PUSH_MAG: bool>(
        &mut self,
        rack: &mut Rack,
        mag: Magazine<PUSH_MAG>,
        maybe_cache: Option<&mut LocalMagazineCache>,
        ledger: &mut Ledger,
        Ghost(chunks): Ghost<&Chunks>,
        Ghost(holder): Ghost<int>,
        Ghost(rest): Ghost<Multiset<usize>>,
    )
        requires
            chunks.wf(),
            old(self).sound(chunks, old(ledger)),
            old(ledger).wf(chunks),
            old(rack).wf(),
            mag.wf(),
            old(self).owns_all(chunks, mag@),
            maybe_cache matches Some(cache) ==> old(self).cache_ok(chunks, &*cache),
            old(ledger).is_cache(holder),
            old(ledger).holds(
                holder,
                mag@.to_multiset().add(
                    match maybe_cache {
                        Some(cache) => optional((*cache)@),
                        None => Multiset::empty(),
                    },
                ).add(rest),
            ),
        ensures
            final(self).sound(chunks, final(ledger)),
            final(ledger).wf(chunks),
            final(rack).wf(),
            final(self).same_class(old(self)),
            final(self).press == old(self).press,
            final(self).stepped(chunks, old(ledger), final(ledger), holder),
            forall|a: usize|
                #![trigger final(ledger).stale(a)]
                final(ledger).stale(a) == old(ledger).stale(a),
            final(ledger).holds(
                holder,
                match maybe_cache {
                    Some(cache) => optional(final(cache)@),
                    None => Multiset::empty(),
                }.add(rest),
            ),
            final(ledger).tracks(
                old(ledger),
                chunks,
                holder,
                old(self).id@,
                mag@.to_multiset().add(
                    match maybe_cache {
                        Some(cache) => optional((*cache)@),
                        None => Multiset::empty(),
                    },
                ),
                match maybe_cache {
                    Some(cache) => optional(final(cache)@),
                    None => Multiset::empty(),
                },
            ),
            match maybe_cache {
                Some(cache) => {
                    &&& final(self).cache_ok(chunks, final(cache))
                    &&& if is_cacheable(mag.storage_spec(), mag@) {
                        &&& final(cache)@ == Some(mag@)
                        &&& (final(self).full_mags@, final(self).partial_mags@) == match (
                        *cache)@ {
                            Some(evicted) => placed(
                                old(self).full_mags@,
                                old(self).partial_mags@,
                                true,
                                evicted,
                            ),
                            None => (old(self).full_mags@, old(self).partial_mags@),
                        }
                    } else {
                        &&& *final(cache) == *cache
                        &&& (final(self).full_mags@, final(self).partial_mags@) == placed(
                            old(self).full_mags@,
                            old(self).partial_mags@,
                            mag.storage_spec(),
                            mag@,
                        )
                    }
                },
                None => (final(self).full_mags@, final(self).partial_mags@) == placed(
                    old(self).full_mags@,
                    old(self).partial_mags@,
                    mag.storage_spec(),
                    mag@,
                ),
            },
            maybe_cache is None ==> final(ledger).stocks(old(ledger), mag@.to_multiset()),
            maybe_cache is None ==> final(self).depot_ms() == mag@.to_multiset().add(
                old(self).depot_ms(),
            ),
            final(rack).spares() == old(rack).spares() + if match maybe_cache {
                Some(cache) => is_cacheable(mag.storage_spec(), mag@) && *cache is Empty,
                None => mag.storage_spec() && mag@.len() == 0,
            } {
                1nat
            } else {
                0nat
            },
    {
        broadcast use vstd::multiset::group_multiset_axioms;

        let ghost first = mag@;
        let ghost kept;
        let mut mag = mag;
        if let Some(cache) = maybe_cache {
            let ghost local = optional(cache@);
            match cache.populate(mag) {
                Some(new_mag) => {
                    mag = new_mag;
                    proof {
                        kept = optional(cache@).add(rest);
                        assert(mag@.to_multiset().add(kept) =~= first.to_multiset().add(local).add(
                            rest,
                        ));
                    }
                },
                None => {
                    proof {
                        assert(optional(cache@).add(rest) =~= first.to_multiset().add(local).add(
                            rest,
                        ));
                    }
                    return ;
                },
            }
        } else {
            proof {
                kept = Multiset::empty().add(rest);
                assert(mag@.to_multiset().add(kept) =~= first.to_multiset().add(
                    Multiset::empty(),
                ).add(rest));
            }
        }
        proof {
            mag.0.lemma_len_bounds();
            lemma_seq_multiset(mag@);
        }
        let ghost entry = *ledger;
        proof {
            assert forall|a: usize|
                #![trigger mag@.to_multiset().count(a)]
                mag@.to_multiset().count(a) >= 1 implies ledger.holder(a) is Some by {
                assert(mag@.to_multiset().add(kept).count(a) >= 1);
            }
        }
        ledger.give(Ghost(mag@.to_multiset()), Ghost(depot()));
        if mag.is_empty() {
            rack.release_empty_magazine(mag);
            proof {
                assert(self.depot_ms() =~= mag@.to_multiset().add(old(self).depot_ms()));
                self.lemma_after_give(old(self), chunks, &entry, ledger, mag@, holder, kept);
            }
        } else if mag.is_full() {
            self.full_mags.push(mag);
            proof {
                assert forall|i: int| 0 <= i < self.full_mags@.len() implies (
                #[trigger] self.full_mags@[i]).len() == MAGAZINE_SIZE && self.owns_all(
                    chunks,
                    self.full_mags@[i],
                ) by {
                    if mag.storage_spec() && i > 0 {
                        assert(self.full_mags@[i] == old(self).full_mags@[i - 1]);
                    } else if !mag.storage_spec() {
                        assert(self.full_mags@[i] == old(self).full_mags@[i]);
                    }
                }
                if mag.storage_spec() {
                    lemma_total_push(old(self).full_mags@, mag@);
                }
                assert(self.depot_ms() =~= mag@.to_multiset().add(old(self).depot_ms()));
                self.lemma_after_give(old(self), chunks, &entry, ledger, mag@, holder, kept);
            }
        } else {
            self.partial_mags.push(mag);
            proof {
                assert forall|i: int| 0 <= i < self.partial_mags@.len() implies 0 < (
                #[trigger] self.partial_mags@[i]).len() < MAGAZINE_SIZE && self.owns_all(
                    chunks,
                    self.partial_mags@[i],
                ) by {
                    if i > 0 {
                        assert(self.partial_mags@[i] == old(self).partial_mags@[i - 1]);
                    }
                }
                lemma_total_push(old(self).partial_mags@, mag@);
                assert(self.depot_ms() =~= mag@.to_multiset().add(old(self).depot_ms()));
                self.lemma_after_give(old(self), chunks, &entry, ledger, mag@, holder, kept);
            }
        }
    }

    /// Attempts to return one allocation and to refill `mag`, which
    /// is empty.
    ///
    /// When the return value is not `None` (i.e., not an OOM), `mag`
    /// is usually non-empty on exit; in the common case, `mag` is
    /// one allocation (the return value) short of full.
    ///
    /// What `mag` holds on exit, and what comes back, was in the
    /// magazines of the class or was never handed out, and none of it
    /// is stale where the class is zero-initialised.
    pub(crate) fn refill_magazine<M: Mapper>(
        &mut self,
        rack: &mut Rack,
        mill: &mut Mill<M>,
        chunks: &mut Chunks,
        ledger: &mut Ledger,
        mag: &mut PopMagazine,
        cache: &mut LocalMagazineCache,
        Ghost(holder): Ghost<int>,
        Ghost(rest): Ghost<Multiset<usize>>,
    ) -> (ret: Option<LinearRef>)
        requires
            old(chunks).wf(),
            old(self).sound(old(chunks), old(ledger)),
            old(ledger).wf(old(chunks)),
            old(rack).wf(),
            old(mill).wf(old(chunks)),
            old(mag).wf(),
            old(mag)@.len() == 0,
            old(self).cache_ok(old(chunks), old(cache)),
            old(ledger).is_cache(holder),
            old(ledger).holds(holder, optional(old(cache)@).add(rest)),
        ensures
            final(chunks).wf(),
            final(chunks).extends(old(chunks)),
            final(self).sound(final(chunks), final(ledger)),
            final(ledger).wf(final(chunks)),
            final(rack).wf(),
            final(mill).wf(final(chunks)),
            final(mill).mapper_spec() == old(mill).mapper_spec(),
            final(self).same_class(old(self)),
            final(mag).wf(),
            final(self).owns_all(final(chunks), final(mag)@),
            final(self).cache_ok(final(chunks), final(cache)),
            final(ledger).holds(
                holder,
                final(mag)@.to_multiset().add(optional(final(cache)@)).add(one(ret)).add(rest),
            ),
            final(self).stepped(final(chunks), old(ledger), final(ledger), holder),
            final(ledger).tracks(
                old(ledger),
                final(chunks),
                holder,
                old(self).id@,
                optional(old(cache)@),
                final(mag)@.to_multiset().add(optional(final(cache)@)).add(one(ret)),
            ),
            old(self).zero_init ==> final(ledger).clean(final(mag)@.to_multiset().add(one(ret))),
            ret is None ==> final(mag)@.len() == 0,
            ret matches Some(object) ==> final(self).owns(final(chunks), object@),
            *old(cache) is Full || old(self).partial_mags@.len() > 0 || old(self).full_mags@.len()
                > 0 || old(self).press.can_allocate(old(mill), old(chunks)) ==> ret is Some,
            old(self).cached_source(old(cache)) matches Some(source) ==> (ret matches Some(object)
                && final(mag)@.push(object@) == source),
            old(self).cached_source(old(cache)) is None ==> (ret matches Some(object)
                ==> final(mag)@
                == objects(object@, old(self).layout@.0, (final(mag)@.len() + 1) as int).skip(1)),
            old(self).cached_source(old(cache)) is None && old(self).press.can_allocate(
                old(mill),
                old(chunks),
            ) ==> (ret matches Some(object) && object@ == old(self).press.upcoming(
                old(mill),
                old(chunks),
            ) && final(mag)@ == objects(
                object@,
                old(self).layout@.0,
                old(self).press.upcoming_batch(old(mill), old(chunks), (MAGAZINE_SIZE + 1) as usize),
            ).skip(1)),
            old(self).cached_source(old(cache)) is None ==> (ret matches Some(object) ==> {
                &&& final(mag)@ == objects(
                    object@,
                    old(self).layout@.0,
                    old(self).press.upcoming_batch(
                        old(mill),
                        old(chunks),
                        (MAGAZINE_SIZE + 1) as usize,
                    ),
                ).skip(1)
                &&& final(self).press.batch_in_span(
                    final(chunks),
                    object@,
                    (final(mag)@.len() + 1) as int,
                )
                &&& !old(self).press.can_allocate(old(mill), old(chunks))
                    ==> final(self).press.took_new_chunk(old(chunks), final(chunks), object@)
            }),
            ret is Some ==> final(mag).storage_spec(),
            final(self).press.tagged_since(old(chunks), final(chunks)),
    {
        broadcast use vstd::multiset::group_multiset_axioms;

        let cached = self.get_cached_magazine(
            mill.mapper(),
            cache,
            ledger,
            Ghost(&*chunks),
            Ghost(holder),
            Ghost(rest),
        );
        if let Some(mut new_mag) = cached {
            let ghost took = *ledger;
            let ghost info = *self;
            let ghost local = optional(cache@);
            let allocated = new_mag.get();
            proof {
                lemma_seq_multiset(cached->0@);
                lemma_seq_multiset(mag@);
                assert(allocated matches Some(object) && self.owns(chunks, object@)) by {
                    assert(self.owns(chunks, cached->0@[cached->0@.len() - 1]));
                }
                assert(self.owns_all(chunks, new_mag@)) by {
                    assert forall|i: int| 0 <= i < new_mag@.len() implies self.owns(
                        chunks,
                        #[trigger] new_mag@[i],
                    ) by {
                        assert(new_mag@[i] == cached->0@[i]);
                    }
                }
                assert(mag@.to_multiset().add(local).add(
                    rest.add(new_mag@.to_multiset()).add(one(allocated)),
                ) =~= contents_of(cached).add(local).add(rest));
            }
            core::mem::swap(&mut new_mag, mag);
            proof {
                assert(mag@.push(allocated->0@) =~= cached->0@);
            }
            self.release_magazine(
                rack,
                new_mag,
                Some(cache),
                ledger,
                Ghost(&*chunks),
                Ghost(holder),
                Ghost(rest.add(mag@.to_multiset()).add(one(allocated))),
            );
            proof {
                ledger.lemma_spares_is_transitive(old(ledger), &took, holder);
                assert(mag@.to_multiset().add(optional(cache@)).add(one(allocated)).add(rest)
                    =~= optional(cache@).add(rest.add(mag@.to_multiset()).add(one(allocated))));
            }
            return allocated;
        }
        // Make sure we have capacity for `allocate_many_objects()` to
        // do something useful.

        let ghost looked = *ledger;
        if !mag.has_storage() {
            // We only enter this branch at most once per thread per
            // allocation class: the thread cache starts with a dummy
            // magazine, and we upgrade to a real one here.
            let mut new_mag = rack.allocate_empty_magazine();
            proof {
                lemma_seq_multiset(mag@);
                lemma_seq_multiset(new_mag@);
                assert(mag@.to_multiset().add(optional(cache@)).add(rest) =~= optional(
                    cache@,
                ).add(rest));
            }
            core::mem::swap(&mut new_mag, mag);
            self.release_magazine(
                rack,
                new_mag,
                Some(cache),
                ledger,
                Ghost(&*chunks),
                Ghost(holder),
                Ghost(rest),
            );
            proof {
                ledger.lemma_spares_is_transitive(old(ledger), &looked, holder);
            }
        }
        let mut fresh: Vec<LinearRef> = Vec::new();
        let room = mag.get_unpopulated();
        let ghost before = *chunks;
        let ghost info = *self;
        let ghost settled = *ledger;
        let ghost had = optional(cache@).add(rest);
        proof {
            assert(contents_of(cached).add(optional(cache@)).add(rest) =~= had);
            assert(Multiset::<usize>::empty().add(rest) =~= rest);
        }
        let (count, allocated) = self.press.allocate_many_objects(
            mill,
            chunks,
            ledger,
            &mut fresh,
            room,
            Ghost(holder),
        );
        proof {
            lemma_seq_multiset(mag@);
            info.lemma_wf_extends(&before, chunks);
            if let Some(contents) = cache@ {
                self.lemma_owns_all_extends(&info, &before, chunks, contents);
            }
            assert(self.owns_all(chunks, addresses(fresh@))) by {
                assert forall|i: int| 0 <= i < addresses(fresh@).len() implies self.owns(
                    chunks,
                    #[trigger] addresses(fresh@)[i],
                ) by {
                    assert(addresses(fresh@)[i] == fresh@[0 + i]@);
                }
            }
            let batch = self.press.batch(crate::press::granted(allocated, count + 1));
            assert(ledger.moved_to(&settled, batch, holder));
            ledger.lemma_gave_spares(&settled, batch, holder, holder);
            ledger.lemma_spares_is_transitive(old(ledger), &settled, holder);
            ledger.lemma_keep(&settled, batch, holder, depot(), self.depot_ms());
            assert forall|a: usize|
                #![trigger batch.add(had).count(a)]
                batch.add(had).count(a) <= 1 && (batch.add(had).count(a) >= 1 ==> ledger.holder(a)
                    == Some(holder)) by {
                assert(batch.add(had).count(a) == batch.count(a) + had.count(a));
                assert(had.count(a) <= 1);
            }
            assert(fresh@.subrange(0, fresh@.len() as int) =~= fresh@);
            if allocated is Some {
                let first = allocated->0@;
                let row = objects(first, self.layout@.0, count + 1);
                lemma_seq_multiset(row.skip(1));
                assert(row.len() == count + 1);
                assert(row[0] == first) by {
                    assert(0 * self.layout@.0 == 0) by (nonlinear_arith);
                }
                assert(row =~= seq![first] + row.skip(1));
                lemma_seq_multiset(seq![first]);
                assert(seq![first] =~= Seq::<usize>::empty().push(first));
                lemma_seq_multiset(Seq::<usize>::empty());
                assert(batch =~= addresses(fresh@).to_multiset().add(one(allocated)));
                assert forall|a: usize|
                    #![trigger ledger.holder(a)]
                    #![trigger ledger.stale(a)]
                    chunks.class_of(a as int) != Some(self.id@) implies ledger.holder(a)
                    == settled.holder(a) && ledger.stale(a) == settled.stale(a) by {
                    if batch.count(a) >= 1 {
                        if a == first {
                        } else {
                            self.lemma_held_is_owned(chunks, addresses(fresh@), a);
                        }
                    }
                }
            } else {
                lemma_seq_multiset(addresses(fresh@));
                assert(batch =~= addresses(fresh@).to_multiset().add(one(allocated)));
            }
            assert forall|a: usize|
                #![trigger ledger.holder(a)]
                #![trigger ledger.stale(a)]
                chunks.class_of(a as int) != Some(self.id@) implies ledger.holder(a)
                    == old(ledger).holder(a) && ledger.stale(a) == old(ledger).stale(a) by {
                assert(before.class_of(a as int) != Some(self.id@)) by {
                    if before.class_of(a as int) == Some(self.id@) {
                        assert(before@.dom().contains(crate::mill::metadata_address(a as int)));
                    }
                }
            }
        }
        let ghost filled = mag@;
        let ghost batch = self.press.batch(crate::press::granted(allocated, count + 1));
        let ghost pushed = addresses(fresh@);
        mag.commit_populated(fresh);
        proof {
            assert(self.owns_all(chunks, mag@));
            lemma_seq_multiset(filled);
            assert(mag@ =~= pushed);
            assert(mag@.to_multiset().add(optional(cache@)).add(one(allocated)).add(rest)
                =~= batch.add(had));
            assert(mag@.to_multiset().add(one(allocated)) =~= batch);
        }
        allocated
    }

    /// Acquires ownership of `spilled` and all cached allocations from
    /// the magazine, and removes some allocations from `mag`.
    ///
    /// On exit, `spilled` is on top of `mag`, and `mag` is usually not
    /// full; in the common case, `mag` only contains `spilled`.
    pub(crate) fn clear_magazine(
        &mut self,
        rack: &mut Rack,
        mag: &mut PushMagazine,
        cache: &mut LocalMagazineCache,
        spilled: LinearRef,
        ledger: &mut Ledger,
        Ghost(chunks): Ghost<&Chunks>,
        Ghost(holder): Ghost<int>,
        Ghost(rest): Ghost<Multiset<usize>>,
    )
        requires
            chunks.wf(),
            old(self).sound(chunks, old(ledger)),
            old(ledger).wf(chunks),
            old(rack).wf(),
            old(mag).wf(),
            old(self).owns_all(chunks, old(mag)@),
            old(self).owns(chunks, spilled@),
            old(self).cache_ok(chunks, old(cache)),
            old(ledger).is_cache(holder),
            old(ledger).holds(
                holder,
                old(mag)@.to_multiset().add(optional(old(cache)@)).add(
                    Multiset::singleton(spilled@),
                ).add(rest),
            ),
        ensures
            final(self).sound(chunks, final(ledger)),
            final(ledger).wf(chunks),
            final(rack).wf(),
            final(self).same_class(old(self)),
            final(self).press == old(self).press,
            final(mag).wf(),
            final(mag).storage_spec(),
            final(self).owns_all(chunks, final(mag)@),
            final(self).cache_ok(chunks, final(cache)),
            final(ledger).holds(
                holder,
                final(mag)@.to_multiset().add(optional(final(cache)@)).add(rest),
            ),
            final(self).stepped(chunks, old(ledger), final(ledger), holder),
            final(ledger).tracks(
                old(ledger),
                chunks,
                holder,
                old(self).id@,
                old(mag)@.to_multiset().add(optional(old(cache)@)).add(
                    Multiset::singleton(spilled@),
                ),
                final(mag)@.to_multiset().add(optional(final(cache)@)),
            ),
            forall|a: usize|
                #![trigger final(ledger).stale(a)]
                final(ledger).stale(a) == old(ledger).stale(a),
            final(mag)@.len() > 0,
            final(mag)@.last() == spilled@,
            final(mag)@.drop_last() == old(self).spill_target(old(cache)),
    {
        broadcast use vstd::multiset::group_multiset_axioms;

        let ghost spill = Multiset::singleton(spilled@);
        proof {
            assert(optional(cache@).add(rest.add(mag@.to_multiset()).add(spill)) =~= mag@.to_multiset().add(
                optional(cache@),
            ).add(spill).add(rest));
        }
        let mut new_mag = self.allocate_non_full_magazine(
            rack,
            cache,
            ledger,
            Ghost(chunks),
            Ghost(holder),
            Ghost(rest.add(mag@.to_multiset()).add(spill)),
        );
        let ghost taken = new_mag@;
        let ghost took = *ledger;
        let _ = new_mag.put(spilled);
        proof {
            lemma_seq_multiset(taken);
            assert(new_mag@.drop_last() =~= taken);
            assert(self.owns_all(chunks, new_mag@)) by {
                assert forall|i: int| 0 <= i < new_mag@.len() implies self.owns(
                    chunks,
                    #[trigger] new_mag@[i],
                ) by {
                    if i < taken.len() {
                        assert(new_mag@[i] == taken[i]);
                    }
                }
            }
            assert(mag@.to_multiset().add(optional(cache@)).add(rest.add(new_mag@.to_multiset()))
                =~= taken.to_multiset().add(optional(cache@)).add(
                rest.add(mag@.to_multiset()).add(spill),
            ));
        }
        core::mem::swap(&mut new_mag, mag);
        self.release_magazine(
            rack,
            new_mag,
            Some(cache),
            ledger,
            Ghost(chunks),
            Ghost(holder),
            Ghost(rest.add(mag@.to_multiset())),
        );
        proof {
            ledger.lemma_spares_is_transitive(old(ledger), &took, holder);
            assert(mag@.to_multiset().add(optional(cache@)).add(rest) =~= optional(cache@).add(
                rest.add(mag@.to_multiset()),
            ));
        }
    }
}

} // verus!
