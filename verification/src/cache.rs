//! The allocator stashes allocations for each size class in a
//! thread-local cache.
use vstd::arithmetic::power2::lemma_pow2_unfold;
use vstd::arithmetic::power2::pow2;
use vstd::multiset::Multiset;
use vstd::prelude::*;

use crate::class::max_id;
use crate::class::Class;
use crate::class::Slitter;
use crate::ledger::caller;
use crate::ledger::depot;
use crate::ledger::lemma_seq_multiset;
use crate::ledger::optional;
use crate::linear_ref::LinearRef;
use crate::magazine::one;
use crate::magazine::LocalMagazineCache;
use crate::magazine::Magazine;
use crate::magazine::PopMagazine;
use crate::magazine::PushMagazine;
use crate::mapper::Mapper;

verus! {

/// Start with a fast path array of this many `Magazines`
/// structs, including one for the dummy 0 class.
pub const INITIAL_CACHE_SIZE: usize = 4;

/// The two magazines that a thread keeps for a class.
struct Magazines {
    /// The cache allocates from this magazine.
    alloc: PopMagazine,
    /// The cache releases into this magazine.
    release: PushMagazine,
}

struct Info {
    /// The class for the corresponding class id.
    info: Option<Class>,
    cache: LocalMagazineCache,
}

/// For each allocation class, we cache up to one magazine's worth of
/// allocations, and another magazine's worth of newly deallocated
/// objects.
///
/// Classically, we would use one magazine as a stack for both
/// allocations and deallocations, and a backup to avoid bouncing
/// nearly-full or nearly-empty magazines back to the `ClassInfo`.
/// We instead use two magazines to let us do smarter things on
/// deallocation.
///
/// The cache consists of parallel vectors that are directly indexed
/// with the class id; the first element at index 0 is thus never
/// used.
///
/// The source of truth on the number of allocation classes in the
/// Cache is the `per_class_info` vector; `per_class` may have extra
/// element but is never shorter than the `per_class_info`.
pub struct Cache {
    /// This array of magazines may be longer than necessary:
    /// magazines without storage will correctly trigger a slow path.
    per_class: Vec<Magazines>,
    /// This parallel vector holds the `Class`; it is only `None` for
    /// the dummy entry we keep around for the invalid "0" class id.
    per_class_info: Vec<Info>,
    /// If true, the `Cache` owns the `per_class` array.
    ///
    /// Once true, this never becomes false.
    per_class_is_owned: bool,
    /// The holder that the cache is in the ledger.
    id: Ghost<int>,
}

/// Computes the least power of two that is at least `n`.
fn next_power_of_two(n: usize) -> (ret: usize)
    requires
        n <= usize::MAX / 2,
    ensures
        ret >= n,
        ret >= 1,
        ret == 1 || ret / 2 < n,
        exists|k: nat| ret == pow2(k),
{
    let mut ret: usize = 1;
    let ghost mut k: nat = 0;
    proof {
        vstd::arithmetic::power2::lemma2_to64();
    }
    while ret < n
        invariant
            n <= usize::MAX / 2,
            ret >= 1,
            ret == 1 || ret / 2 < n,
            ret == pow2(k),
        decreases usize::MAX - ret,
    {
        proof {
            lemma_pow2_unfold(k + 1);
            k = k + 1;
        }
        ret = ret * 2;
    }
    ret
}

impl Cache {
    /// What slot `i` of the cache holds, all together.
    spec fn slot_ms(&self, i: int) -> Multiset<usize> {
        self.per_class[i].alloc@.to_multiset().add(self.per_class[i].release@.to_multiset()).add(
            if i < self.per_class_info.len() {
                optional(self.per_class_info[i].cache@)
            } else {
                Multiset::empty()
            },
        )
    }

    /// Whether slot `i` of the cache has the shape it should have: both
    /// magazines are valid; for a class that the cache knows, they and
    /// the local magazine cache hold places for objects of that class;
    /// any other slot is a dummy, with nothing to allocate from and no
    /// room to release into.
    spec fn slot_shape<M: Mapper>(&self, slitter: &Slitter<M>, i: int) -> bool {
        let mags = self.per_class[i];
        &&& mags.alloc.wf()
        &&& mags.release.wf()
        &&& if 1 <= i < self.per_class_info.len() {
            let info = self.per_class_info[i];
            &&& info.info matches Some(class)
            &&& class@ == i
            &&& slitter.is_registered(class)
            &&& slitter.owns_all(class, mags.alloc@)
            &&& slitter.owns_all(class, mags.release@)
            &&& slitter.cache_ok(class, &info.cache)
        } else {
            &&& mags.alloc@.len() == 0
            &&& mags.release@.len() == 0
            &&& mags.release.full_spec()
            &&& i == 0 && 0 < self.per_class_info.len() ==> {
                &&& self.per_class_info[0].info is None
                &&& self.per_class_info[0].cache is Nothing
            }
        }
    }

    /// Whether the ledger has it right for slot `i` of the cache: the
    /// cache holds what the slot holds, none of it twice; whatever the
    /// cache holds of the class of the slot is in the slot; and
    /// nothing to allocate is stale where the class is
    /// zero-initialised.
    spec fn slot_books<M: Mapper>(&self, slitter: &Slitter<M>, i: int) -> bool {
        1 <= i < self.per_class_info.len() ==> {
            &&& slitter.ledger_spec().holds(self.id@, self.slot_ms(i))
            &&& slitter.ledger_spec().holds_only(
                &slitter.chunks_spec(),
                self.id@,
                i as u32,
                self.slot_ms(i),
            )
            &&& slitter.info_of(i).zero_init ==> slitter.ledger_spec().clean(
                self.per_class[i].alloc@.to_multiset(),
            )
        }
    }

    /// Whether the cache holds objects of no class but those that it
    /// knows.
    spec fn known_only<M: Mapper>(&self, slitter: &Slitter<M>) -> bool {
        forall|a: usize|
            #![trigger slitter.ledger_spec().holder(a)]
            slitter.ledger_spec().holder(a) == Some(self.id@) ==> (
            slitter.chunks_spec().class_of(a as int) matches Some(class) && 1 <= class
                < self.per_class_info.len())
    }

    /// Whether slot `i` of the cache is in order.
    spec fn slot_ok<M: Mapper>(&self, slitter: &Slitter<M>, i: int) -> bool {
        self.slot_shape(slitter, i) && self.slot_books(slitter, i)
    }

    /// Whether slot `i` of the cache has its shape, and the cache holds
    /// what the slot holds.
    spec fn slot_kept<M: Mapper>(&self, slitter: &Slitter<M>, i: int) -> bool {
        &&& self.slot_shape(slitter, i)
        &&& 1 <= i < self.per_class_info.len() ==> {
            &&& slitter.ledger_spec().holds(self.id@, self.slot_ms(i))
            &&& slitter.info_of(i).zero_init ==> slitter.ledger_spec().clean(
                self.per_class[i].alloc@.to_multiset(),
            )
        }
    }

    /// Whether the cache has the shape it should have: there is a
    /// pair of magazines for every class that the cache knows, the
    /// cache knows no class that is not registered, and every slot has
    /// the shape it should have.
    pub closed spec fn shape_ok<M: Mapper>(&self, slitter: &Slitter<M>) -> bool {
        &&& self.per_class.len() >= self.per_class_info.len()
        &&& self.per_class_info.len() <= slitter.class_count() + 1
        &&& forall|i: int| 0 <= i < self.per_class.len() ==> self.slot_shape(slitter, i)
    }

    /// A valid cache has the shape it should have.
    pub proof fn lemma_wf_has_shape<M: Mapper>(&self, slitter: &Slitter<M>)
        requires
            self.wf(slitter),
        ensures
            self.shape_ok(slitter),
    {
        assert forall|i: int| 0 <= i < self.per_class.len() implies self.slot_shape(slitter, i) by {
            assert(self.slot_ok(slitter, i));
        }
    }

    /// Checks the shape of the cache.  Returns `Err` when some of the
    /// Cache's invariants are violated.
    pub fn check_rep_or_err<M: Mapper>(&self, slitter: &Slitter<M>) -> (ret: Result<
        (),
        &'static str,
    >)
        requires
            slitter.wf(),
        ensures
            ret is Ok == self.shape_ok(slitter),
            self.slots() < self.known() ==> ret == Err::<(), &'static str>(
                "Vector of magazines is shorter than vector of info.",
            ),
    {
        if self.per_class.len() < self.per_class_info.len() {
            return Err("Vector of magazines is shorter than vector of info.");
        }
        let max_id = max_id(slitter);
        if self.per_class_info.len() > max_id + 1 {
            return Err("Some cache entries are missing their info.");
        }
        let known = self.per_class_info.len();
        let mut i: usize = known;
        while i < self.per_class.len()
            invariant
                slitter.wf(),
                known == self.per_class_info.len(),
                known <= i <= self.per_class.len(),
                forall|k: int| known <= k < i ==> self.slot_shape(slitter, k),
            decreases self.per_class.len() - i,
        {
            if let Err(message) = self.check_dummy(i, false) {
                proof {
                    assert(!self.slot_shape(slitter, i as int));
                }
                return Err(message);
            }
            i += 1;
        }
        if known > 0 {
            if self.per_class_info[0].info.is_some() {
                proof {
                    assert(!self.slot_shape(slitter, 0));
                }
                return Err("Some cache entries are missing their info.");
            }
            if let Err(message) = self.check_dummy(0, true) {
                proof {
                    assert(!self.slot_shape(slitter, 0));
                }
                return Err(message);
            }
            match &self.per_class_info[0].cache {
                LocalMagazineCache::Nothing => {},
                _ => {
                    proof {
                        assert(!self.slot_shape(slitter, 0));
                    }
                    return Err("Found used cache in dummy slot");
                },
            }
        }
        // All magazines must be in a good state, and only contain
        // allocations for the correct class.

        let mut i: usize = 1;
        while i < known
            invariant
                slitter.wf(),
                known == self.per_class_info.len(),
                known <= self.per_class.len(),
                known <= slitter.class_count() + 1,
                1 <= i <= known || known == 0,
                known > 0 ==> self.slot_shape(slitter, 0),
                forall|k: int| 1 <= k < i ==> self.slot_shape(slitter, k),
                forall|k: int| known <= k < self.per_class.len() ==> self.slot_shape(slitter, k),
            decreases known - i,
        {
            let mags = &self.per_class[i];
            let info = &self.per_class_info[i];
            let class = match info.info {
                Some(class) => class,
                None => {
                    proof {
                        assert(!self.slot_shape(slitter, i as int));
                    }
                    return Err("Some cache entries are missing their info.");
                },
            };
            if class.id() as usize != i {
                proof {
                    assert(!self.slot_shape(slitter, i as int));
                }
                return Err("Some cache entries are missing their info.");
            }
            if let Err(message) = mags.alloc.check_rep(slitter, Some(class)) {
                proof {
                    assert(!self.slot_shape(slitter, i as int));
                }
                return Err(message);
            }
            if let Err(message) = mags.release.check_rep(slitter, Some(class)) {
                proof {
                    assert(!self.slot_shape(slitter, i as int));
                }
                return Err(message);
            }
            match &info.cache {
                LocalMagazineCache::Nothing => {},
                LocalMagazineCache::Empty(mag) => {
                    if let Err(message) = mag.check_rep(slitter, Some(class)) {
                        proof {
                            assert(!self.slot_shape(slitter, i as int));
                        }
                        return Err(message);
                    }
                    if !mag.has_storage() || mag.0.len() != 0 {
                        proof {
                            assert(!self.slot_shape(slitter, i as int));
                        }
                        return Err("Locally cached magazine is not empty");
                    }
                },
                LocalMagazineCache::Full(mag) => {
                    if let Err(message) = mag.check_rep(slitter, Some(class)) {
                        proof {
                            assert(!self.slot_shape(slitter, i as int));
                        }
                        return Err(message);
                    }
                    if !mag.has_storage() || mag.0.len() != crate::magazine_impl::MAGAZINE_SIZE as usize {
                        proof {
                            assert(!self.slot_shape(slitter, i as int));
                        }
                        return Err("Locally cached magazine is not full");
                    }
                },
            }
            i += 1;
        }
        proof {
            assert forall|k: int| 0 <= k < self.per_class.len() implies self.slot_shape(
                slitter,
                k,
            ) by {}
        }
        Ok(())
    }

    /// Checks that the pair of magazines at `i` is one of a dummy
    /// slot: nothing to allocate from, and no room to release into.
    fn check_dummy(&self, i: usize, first: bool) -> (ret: Result<(), &'static str>)
        requires
            i < self.per_class.len(),
        ensures
            ret is Ok == {
                let mags = self.per_class[i as int];
                &&& mags.alloc.wf()
                &&& mags.release.wf()
                &&& mags.alloc@.len() == 0
                &&& mags.release@.len() == 0
                &&& mags.release.full_spec()
            },
    {
        let mags = &self.per_class[i];
        if !mags.alloc.0.check_rep() || !mags.release.0.check_rep() {
            return Err("MagazineImpl fails check_rep");
        }
        proof {
            mags.alloc.0.lemma_len_bounds();
            mags.release.0.lemma_len_bounds();
        }
        if !mags.alloc.is_empty() {
            return if first {
                Err("Dummy cache entry has a non-empty allocation magazine.")
            } else {
                Err("Padding cache entry has a non-empty allocation magazine.")
            };
        }
        if !mags.release.is_full() || mags.release.has_storage() {
            return if first {
                Err("Dummy cache entry has a non-full release magazine.")
            } else {
                Err("Padding cache entry has a non-full release magazine.")
            };
        }
        Ok(())
    }

    /// The internal invariants hold: the cache has a holder of its
    /// own, there is a pair of magazines for every class that the
    /// cache knows, every slot is in order, and the cache holds
    /// objects of no other class.
    pub closed spec fn wf<M: Mapper>(&self, slitter: &Slitter<M>) -> bool {
        &&& 1 <= self.id@ <= slitter.ledger_spec().cache_count()
        &&& self.per_class.len() >= self.per_class_info.len()
        &&& self.per_class_info.len() <= slitter.class_count() + 1
        &&& forall|i: int| 0 <= i < self.per_class.len() ==> self.slot_ok(slitter, i)
        &&& self.known_only(slitter)
    }

    /// The holder that the cache is in the ledger.
    pub closed spec fn id(&self) -> int {
        self.id@
    }

    /// The number of ids for which the cache has an entry, the dummy
    /// id 0 included.
    pub closed spec fn known(&self) -> nat {
        self.per_class_info@.len()
    }

    /// The number of pairs of magazines.
    pub closed spec fn slots(&self) -> nat {
        self.per_class@.len()
    }

    /// What the magazine from which the cache allocates objects of
    /// class `id` holds, from the bottom up.
    pub closed spec fn alloc_of(&self, id: int) -> Seq<usize> {
        if 0 <= id < self.per_class.len() {
            self.per_class[id].alloc@
        } else {
            Seq::empty()
        }
    }

    /// What the magazine into which the cache releases objects of
    /// class `id` holds, from the bottom up.
    pub closed spec fn release_of(&self, id: int) -> Seq<usize> {
        if 0 <= id < self.per_class.len() {
            self.per_class[id].release@
        } else {
            Seq::empty()
        }
    }

    /// The magazine that the cache keeps at hand for class `id`, if it
    /// keeps one.
    pub closed spec fn local_of(&self, id: int) -> LocalMagazineCache {
        if 0 <= id < self.per_class_info.len() {
            self.per_class_info[id].cache
        } else {
            LocalMagazineCache::Nothing
        }
    }

    /// The address that an allocation of `class` returns, as far as
    /// it is settled before the allocation: the object on top of the
    /// magazine from which the cache allocates; else the one on top of
    /// the full magazine that the cache keeps at hand, of the first
    /// partial magazine of the class, or of the first full magazine of
    /// the class; else the next object that the press has left in its
    /// current span; else the first object of the next span that the
    /// chunk of the mill has room for.  Where none of them is there,
    /// the allocation needs new address space.
    pub open spec fn next_allocation<M: Mapper>(&self, slitter: &Slitter<M>, class: Class) -> Option<
        usize,
    > {
        let info = slitter.info_of(class@ as int);
        if self.alloc_of(class@ as int).len() > 0 {
            Some(self.alloc_of(class@ as int).last())
        } else {
            match info.cached_source(&self.local_of(class@ as int)) {
                Some(source) => Some(source.last()),
                None => if info.press.can_allocate(&slitter.mill_of(class), &slitter.chunks_spec()) {
                    Some(info.press.upcoming(&slitter.mill_of(class), &slitter.chunks_spec()))
                } else {
                    None
                },
            }
        }
    }

    /// Whether `self` is `old` after an allocation of `class` that
    /// returned `ret`, as far as the magazines go from which caches
    /// allocate.  An object comes from the top of the magazine of the
    /// class.  Where that magazine is empty, it is replaced: by the
    /// magazine that the allocation would take from the cache or from
    /// the class, less the object on its top, or else by the batch
    /// that the press makes, less its first object.  No other magazine
    /// changes.
    pub open spec fn after_allocation<M: Mapper>(
        &self,
        old: &Cache,
        before: &Slitter<M>,
        class: Class,
        ret: Option<usize>,
    ) -> bool {
        let info = before.info_of(class@ as int);
        &&& forall|id: int| id != class@ ==> self.alloc_of(id) == old.alloc_of(id)
        &&& forall|id: int| self.release_of(id) == old.release_of(id)
        &&& if old.alloc_of(class@ as int).len() > 0 {
            &&& ret == Some(old.alloc_of(class@ as int).last())
            &&& self.alloc_of(class@ as int) == old.alloc_of(class@ as int).drop_last()
        } else {
            match info.cached_source(&old.local_of(class@ as int)) {
                Some(source) => ret matches Some(object) && self.alloc_of(class@ as int).push(object)
                    == source,
                None => ret matches Some(object) ==> self.alloc_of(class@ as int)
                    == crate::ledger::objects(
                    object,
                    info.layout@.0,
                    before.refill_batch(class),
                ).skip(1),
            }
        }
    }

    /// Whether `self` is `old` after `block`, an object of `class`, was
    /// released into it, as far as the magazines go: the block is on
    /// top of the magazine into which the cache releases objects of
    /// the class, and no magazine from which the cache allocates
    /// changed.
    pub open spec fn after_release(&self, old: &Cache, class: Class, block: usize) -> bool {
        &&& forall|id: int| self.alloc_of(id) == old.alloc_of(id)
        &&& forall|id: int| id != class@ ==> self.release_of(id) == old.release_of(id)
        &&& self.release_of(class@ as int).len() > 0
        &&& self.release_of(class@ as int).last() == block
        &&& old.release_has_room(class@ as int) ==> self.release_of(class@ as int) == old.release_of(
            class@ as int,
        ).push(block)
    }

    /// Whether the magazine into which the cache releases objects of
    /// class `id` has room for one more.
    pub closed spec fn release_has_room(&self, id: int) -> bool {
        0 <= id < self.per_class.len() && !self.per_class[id].release.full_spec()
    }

    /// Everything that the cache holds for class `id`: what is in the
    /// two magazines and in the locally cached one.
    pub closed spec fn held(&self, id: int) -> Multiset<usize> {
        if 0 <= id < self.per_class.len() {
            self.slot_ms(id)
        } else {
            Multiset::empty()
        }
    }

    /// The holder of a cache is the holder of neither the callers nor
    /// the depots, and it is one that the ledger gave out.
    pub proof fn lemma_id_is_positive<M: Mapper>(&self, slitter: &Slitter<M>)
        requires
            self.wf(slitter),
        ensures
            self.id() >= 1,
            self.id() != caller(),
            self.id() != depot(),
            slitter.ledger_spec().is_cache(self.id()),
    {
    }

    /// A slot keeps its shape and what it holds while the process
    /// lives on and the cache keeps what it holds.
    proof fn lemma_slot_kept_follows<M: Mapper>(&self, old: &Slitter<M>, slitter: &Slitter<M>, i: int)
        requires
            0 <= i < self.per_class.len(),
            self.slot_kept(old, i),
            slitter.follows(old),
            1 <= i < self.per_class_info.len() ==> forall|a: usize|
                #![trigger slitter.ledger_spec().holder(a)]
                self.slot_ms(i).count(a) >= 1 ==> slitter.ledger_spec().holder(a)
                    == old.ledger_spec().holder(a) && slitter.ledger_spec().stale(a)
                    == old.ledger_spec().stale(a),
        ensures
            self.slot_kept(slitter, i),
    {
        broadcast use vstd::multiset::group_multiset_axioms;

        if 1 <= i < self.per_class_info.len() {
            let class = self.per_class_info[i].info->0;
            let mags = self.per_class[i];
            slitter.lemma_owns_follows(old, class, mags.alloc@);
            slitter.lemma_owns_follows(old, class, mags.release@);
            if let Some(contents) = self.per_class_info[i].cache@ {
                slitter.lemma_owns_follows(old, class, contents);
            }
            assert(slitter.info_of(i).same_class(&old.info_of(i)));
            assert forall|a: usize|
                #![trigger mags.alloc@.to_multiset().count(a)]
                mags.alloc@.to_multiset().count(a) >= 1 implies self.slot_ms(i).count(a) >= 1 by {}
            assert(old.ledger_spec().holds(self.id@, self.slot_ms(i)));
            assert(slitter.ledger_spec().holds(self.id@, self.slot_ms(i))) by {
                assert forall|a: usize|
                    #![trigger self.slot_ms(i).count(a)]
                    self.slot_ms(i).count(a) <= 1 && (self.slot_ms(i).count(a) >= 1
                        ==> slitter.ledger_spec().holder(a) == Some(self.id@)) by {
                    if self.slot_ms(i).count(a) >= 1 {
                        assert(slitter.ledger_spec().holder(a) == old.ledger_spec().holder(a));
                    }
                }
            }
            if slitter.info_of(i).zero_init {
                assert(old.info_of(i).zero_init);
                assert(slitter.ledger_spec().clean(mags.alloc@.to_multiset())) by {
                    assert forall|a: usize|
                        #![trigger mags.alloc@.to_multiset().count(a)]
                        mags.alloc@.to_multiset().count(a) >= 1 implies !slitter.ledger_spec().stale(
                        a,
                    ) by {
                        assert(self.slot_ms(i).count(a) >= 1);
                        assert(slitter.ledger_spec().holder(a) == old.ledger_spec().holder(a));
                    }
                }
            }
            assert(slitter.is_registered(class));
            assert(slitter.cache_ok(class, &self.per_class_info[i].cache));
        }
    }

    /// A slot stays in order while the process lives on, the cache
    /// keeps what it holds, and gains no object of the class of the
    /// slot.
    proof fn lemma_slot_follows<M: Mapper>(&self, old: &Slitter<M>, slitter: &Slitter<M>, i: int)
        requires
            0 <= i < self.per_class.len(),
            self.slot_ok(old, i),
            old.wf(),
            slitter.follows(old),
            1 <= i < self.per_class_info.len() ==> forall|a: usize|
                #![trigger slitter.ledger_spec().holder(a)]
                self.slot_ms(i).count(a) >= 1 ==> slitter.ledger_spec().holder(a)
                    == old.ledger_spec().holder(a) && slitter.ledger_spec().stale(a)
                    == old.ledger_spec().stale(a),
            1 <= i < self.per_class_info.len() ==> forall|a: usize|
                #![trigger slitter.ledger_spec().holder(a)]
                slitter.ledger_spec().holder(a) == Some(self.id@) && slitter.chunks_spec().class_of(
                    a as int,
                ) == Some(i as u32) ==> old.ledger_spec().holder(a) == Some(self.id@),
        ensures
            self.slot_ok(slitter, i),
    {
        self.lemma_slot_kept_follows(old, slitter, i);
        if 1 <= i < self.per_class_info.len() {
            assert forall|a: usize|
                #![trigger slitter.ledger_spec().holder(a)]
                slitter.ledger_spec().holder(a) == Some(self.id@) && slitter.chunks_spec().class_of(
                    a as int,
                ) == Some(i as u32) implies self.slot_ms(i).count(a) >= 1 by {
                assert(old.ledger_spec().holder(a) == Some(self.id@));
                old.lemma_held_is_carved(a);
                assert(old.chunks_spec()@.dom().contains(crate::mill::metadata_address(a as int)));
            }
        }
    }

    /// A cache stays valid while the process lives on, the cache keeps
    /// what it holds, and nobody gives it anything.
    pub proof fn lemma_wf_follows<M: Mapper>(&self, old: &Slitter<M>, slitter: &Slitter<M>)
        requires
            self.wf(old),
            old.wf(),
            slitter.follows(old),
            slitter.ledger_spec().cache_count() >= old.ledger_spec().cache_count(),
            slitter.ledger_spec().keeps(&old.ledger_spec(), self.id()),
            slitter.ledger_spec().gains_nothing(&old.ledger_spec(), self.id()),
        ensures
            self.wf(slitter),
    {
        assert forall|i: int| 0 <= i < self.per_class.len() implies self.slot_ok(slitter, i) by {
            assert(self.slot_ok(old, i));
            self.lemma_slot_follows(old, slitter, i);
        }
        assert forall|a: usize|
            #![trigger slitter.ledger_spec().holder(a)]
            slitter.ledger_spec().holder(a) == Some(self.id@) implies (
        slitter.chunks_spec().class_of(a as int) matches Some(class) && 1 <= class
            < self.per_class_info.len()) by {
            assert(old.ledger_spec().holder(a) == Some(self.id@));
            old.lemma_held_is_carved(a);
            assert(old.chunks_spec()@.dom().contains(crate::mill::metadata_address(a as int)));
        }
    }

    /// What the cache holds for a class is a place for an object of
    /// that class.
    pub proof fn lemma_contents_are_owned<M: Mapper>(&self, slitter: &Slitter<M>, class: Class)
        requires
            self.wf(slitter),
            1 <= class@ < self.known(),
        ensures
            slitter.is_registered(class),
            slitter.owns_all(class, self.alloc_of(class@ as int)),
            slitter.owns_all(class, self.release_of(class@ as int)),
    {
        assert(self.slot_ok(slitter, class@ as int));
    }

    /// What the ledger books to the cache is in one of the magazines
    /// of the cache: in those of the class of the object, once.
    pub proof fn lemma_held_is_stored<M: Mapper>(&self, slitter: &Slitter<M>, a: usize)
        requires
            self.wf(slitter),
            slitter.holder(a) == Some(self.id()),
        ensures
            slitter.chunks_spec().class_of(a as int) matches Some(class) && self.held(
                class as int,
            ).count(a) == 1,
    {
        assert(slitter.ledger_spec().holder(a) == Some(self.id@));
        let class = slitter.chunks_spec().class_of(a as int)->0;
        assert(1 <= class < self.per_class_info.len());
        assert(self.slot_ok(slitter, class as int));
        assert(self.slot_ms(class as int).count(a) >= 1);
    }

    /// The cache holds what is in its magazines, and nothing twice.
    pub proof fn lemma_held_is_held<M: Mapper>(&self, slitter: &Slitter<M>, id: int, a: usize)
        requires
            self.wf(slitter),
            self.held(id).count(a) >= 1,
        ensures
            self.held(id).count(a) == 1,
            slitter.holder(a) == Some(self.id()),
            1 <= id < self.known(),
            self.alloc_of(id).to_multiset().count(a) <= self.held(id).count(a),
            self.release_of(id).to_multiset().count(a) <= self.held(id).count(a),
    {
        broadcast use vstd::multiset::group_multiset_axioms;

        assert(self.slot_ok(slitter, id));
        lemma_seq_multiset(self.per_class[id].alloc@);
        lemma_seq_multiset(self.per_class[id].release@);
    }

    /// What the cache holds for a class is a place for an object of
    /// that class.
    proof fn lemma_slot_is_owned<M: Mapper>(&self, slitter: &Slitter<M>, id: int, a: usize)
        requires
            self.wf(slitter),
            self.held(id).count(a) >= 1,
        ensures
            1 <= id < self.per_class_info.len(),
            self.per_class_info[id].info is Some,
            slitter.is_registered(self.per_class_info[id].info->0),
            slitter.owns(self.per_class_info[id].info->0, a),
    {
        broadcast use vstd::multiset::group_multiset_axioms;

        assert(self.slot_ok(slitter, id));
        lemma_seq_multiset(self.per_class[id].alloc@);
        lemma_seq_multiset(self.per_class[id].release@);
        let class = self.per_class_info[id].info->0;
        let mags = self.per_class[id];
        if mags.alloc@.to_multiset().count(a) >= 1 {
            slitter.info_of(id).lemma_held_is_owned(&slitter.chunks_spec(), mags.alloc@, a);
        } else if mags.release@.to_multiset().count(a) >= 1 {
            slitter.info_of(id).lemma_held_is_owned(&slitter.chunks_spec(), mags.release@, a);
        } else {
            let contents = self.per_class_info[id].cache@->0;
            slitter.info_of(id).lemma_held_is_owned(&slitter.chunks_spec(), contents, a);
        }
    }

    /// What is in the magazines of the cache is what the cache holds.
    pub proof fn lemma_magazines_are_held(&self, id: int, a: usize)
        ensures
            self.alloc_of(id).to_multiset().count(a) <= self.held(id).count(a),
            self.release_of(id).to_multiset().count(a) <= self.held(id).count(a),
    {
        broadcast use vstd::multiset::group_multiset_axioms;

        lemma_seq_multiset(Seq::<usize>::empty());
    }

    /// A cache that knows no class, with `INITIAL_CACHE_SIZE` pairs of
    /// magazines without storage, and with a holder of its own.
    pub fn new<M: Mapper>(slitter: &mut Slitter<M>) -> (ret: Cache)
        requires
            old(slitter).wf(),
        ensures
            final(slitter).wf(),
            final(slitter).follows(old(slitter)),
            final(slitter).class_count() == old(slitter).class_count(),
            final(slitter).chunks_spec() == old(slitter).chunks_spec(),
            final(slitter).ledger_spec().shields(&old(slitter).ledger_spec(), None),
            final(slitter).ledger_spec().cache_count() == ret.id(),
            ret.id() == old(slitter).ledger_spec().cache_count() + 1,
            final(slitter).ledger_spec().same_counts(&old(slitter).ledger_spec()),
            forall|class: Class|
                #![trigger final(slitter).info_of(class@ as int)]
                final(slitter).info_of(class@ as int) == old(slitter).info_of(class@ as int),
            forall|class: Class|
                #![trigger final(slitter).mill_of(class)]
                final(slitter).mill_of(class) == old(slitter).mill_of(class),
            ret.wf(final(slitter)),
            ret.known() == 0,
            forall|id: int| ret.alloc_of(id).len() == 0,
            forall|id: int| ret.local_of(id) is Nothing,
            ret.slots() == INITIAL_CACHE_SIZE,
            forall|id: int| ret.held(id) == Multiset::<usize>::empty(),
    {
        broadcast use vstd::multiset::group_multiset_axioms;

        let mut per_class: Vec<Magazines> = Vec::new();
        while per_class.len() < INITIAL_CACHE_SIZE
            invariant
                per_class.len() <= INITIAL_CACHE_SIZE,
                forall|i: int|
                    0 <= i < per_class.len() ==> {
                        let mags = #[trigger] per_class[i];
                        &&& mags.alloc.wf()
                        &&& mags.release.wf()
                        &&& !mags.alloc.storage_spec()
                        &&& !mags.release.storage_spec()
                        &&& mags.alloc@.len() == 0
                        &&& mags.release@.len() == 0
                    },
            decreases INITIAL_CACHE_SIZE - per_class.len(),
        {
            per_class.push(Magazines { alloc: Magazine::default(), release: Magazine::default() });
        }
        let id = slitter.enroll();
        let ret = Cache { per_class, per_class_info: Vec::new(), per_class_is_owned: true, id };
        proof {
            assert forall|i: int| 0 <= i < ret.per_class.len() implies ret.slot_ok(slitter, i) by {
                let mags = ret.per_class[i];
                assert(!mags.release.storage_spec());
            }
            assert forall|a: usize|
                #![trigger slitter.ledger_spec().holder(a)]
                slitter.ledger_spec().holder(a) != Some(ret.id@) by {
                assert(slitter.holder(a) != Some(id@));
            }
            assert forall|id: int| ret.held(id) == Multiset::<usize>::empty() by {
                if 0 <= id < ret.per_class.len() {
                    let mags = ret.per_class[id];
                    assert(mags.alloc@.len() == 0);
                    lemma_seq_multiset(mags.alloc@);
                    lemma_seq_multiset(mags.release@);
                    assert(ret.slot_ms(id) =~= Multiset::<usize>::empty());
                }
            }
        }
        ret
    }

    /// Ensure the cache's `per_class` array has at least `min_length`
    /// elements: where it has not, it grows to the next power of two,
    /// and the new elements are magazines without storage.
    fn ensure_per_class_length<M: Mapper>(
        &mut self,
        min_length: usize,
        Ghost(slitter): Ghost<&Slitter<M>>,
    )
        requires
            old(self).wf(slitter),
            min_length <= usize::MAX / 2,
        ensures
            final(self).wf(slitter),
            final(self).id == old(self).id,
            final(self).per_class.len() >= min_length,
            final(self).per_class.len() >= old(self).per_class.len(),
            final(self).per_class_info == old(self).per_class_info,
            old(self).per_class_is_owned ==> final(self).per_class_is_owned,
            forall|i: int|
                0 <= i < old(self).per_class.len() ==> final(self).per_class[i] == old(self).per_class[i],
            forall|i: int|
                old(self).per_class.len() <= i < final(self).per_class.len() ==> !(
                #[trigger] final(self).per_class[i]).release.storage_spec(),
    {
        if self.per_class.len() >= min_length {
            return ;
        }
        let new_length = next_power_of_two(min_length);
        while self.per_class.len() < new_length
            invariant
                self.per_class.len() <= new_length,
                self.per_class.len() >= old(self).per_class.len(),
                self.per_class_info == old(self).per_class_info,
                self.per_class_is_owned == old(self).per_class_is_owned,
                self.id == old(self).id,
                old(self).wf(slitter),
                forall|i: int|
                    0 <= i < old(self).per_class.len() ==> self.per_class[i] == old(self).per_class[i],
                forall|i: int|
                    old(self).per_class.len() <= i < self.per_class.len() ==> {
                        let mags = #[trigger] self.per_class[i];
                        &&& mags.alloc.wf()
                        &&& mags.release.wf()
                        &&& !mags.alloc.storage_spec()
                        &&& !mags.release.storage_spec()
                        &&& mags.alloc@.len() == 0
                        &&& mags.release@.len() == 0
                    },
            decreases new_length - self.per_class.len(),
        {
            self.per_class.push(
                Magazines { alloc: Magazine::default(), release: Magazine::default() },
            );
        }
        self.per_class_is_owned = true;
        proof {
            assert forall|i: int| 0 <= i < self.per_class.len() implies self.slot_ok(
                slitter,
                i,
            ) by {
                if i < old(self).per_class.len() {
                    assert(old(self).slot_ok(slitter, i));
                    assert(self.slot_ms(i) == old(self).slot_ms(i));
                } else {
                    let mags = self.per_class[i];
                    assert(!mags.release.storage_spec());
                }
            }
        }
    }

    /// Ensures the cache's `per_class_info` array has one entry for every
    /// allocation class currently defined.
    fn grow<M: Mapper>(&mut self, slitter: &Slitter<M>)
        requires
            slitter.wf(),
            old(self).wf(slitter),
        ensures
            final(self).wf(slitter),
            final(self).id() == old(self).id(),
            final(self).known() > slitter.class_count(),
            final(self).known() >= old(self).known(),
            forall|id: int| final(self).alloc_of(id) == old(self).alloc_of(id),
            forall|id: int| final(self).release_of(id) == old(self).release_of(id),
            forall|id: int| final(self).held(id) == old(self).held(id),
            forall|id: int| final(self).local_of(id) == old(self).local_of(id),
            forall|id: int| final(self).release_has_room(id) == old(self).release_has_room(id),
    {
        broadcast use vstd::multiset::group_multiset_axioms;

        let max_id = max_id(slitter);
        if self.per_class_info.len() > max_id {
            return ;
        }
        self.ensure_per_class_length::<M>(max_id + 1, Ghost(slitter));
        proof {
            assert forall|i: int|
                old(self).per_class.len() <= i < self.per_class.len() implies (
            #[trigger] self.per_class[i]).alloc@.len() == 0 && self.per_class[i].release@.len()
                == 0 && !self.per_class[i].release.storage_spec() by {
                assert(self.slot_ok(slitter, i));
            }
        }

        while self.per_class_info.len() <= max_id
            invariant
                slitter.wf(),
                self.wf(slitter),
                self.id == old(self).id,
                max_id == slitter.class_count(),
                max_id <= u32::MAX,
                max_id < self.per_class.len(),
                self.per_class_info.len() >= old(self).per_class_info.len(),
                self.per_class.len() >= old(self).per_class.len(),
                forall|i: int|
                    0 <= i < old(self).per_class_info.len() ==> self.per_class_info[i]
                        == old(self).per_class_info[i],
                forall|i: int|
                    old(self).per_class_info.len() <= i < self.per_class_info.len() ==> (
                    #[trigger] self.per_class_info[i]).cache is Nothing,
                forall|i: int|
                    0 <= i < old(self).per_class.len() ==> self.per_class[i] == old(self).per_class[i],
                forall|i: int|
                    old(self).per_class.len() <= i < self.per_class.len() ==> (
                    #[trigger] self.per_class[i]).alloc@.len() == 0 && self.per_class[i].release@.len()
                        == 0 && !self.per_class[i].release.storage_spec(),
            decreases max_id + 1 - self.per_class_info.len(),
        {
            let index = self.per_class_info.len();
            let info = if index == 0 {
                None
            } else {
                Class::from_id(slitter, index as u32)
            };
            let ghost before = *self;
            self.per_class_info.push(Info { info, cache: LocalMagazineCache::Nothing });
            proof {
                assert forall|i: int| 0 <= i < self.per_class.len() implies self.slot_ok(
                    slitter,
                    i,
                ) by {
                    assert(before.slot_ok(slitter, i));
                    assert(self.per_class[i] == before.per_class[i]);
                    if i < index {
                        assert(self.per_class_info[i] == before.per_class_info[i]);
                        assert(self.slot_ms(i) == before.slot_ms(i));
                    } else if i == index {
                        assert(self.per_class_info[i].info == info);
                        assert(self.per_class_info[i].cache is Nothing);
                        if i >= 1 {
                            let class = info->0;
                            assert(slitter.owns_all(class, self.per_class[i].alloc@));
                            assert(slitter.owns_all(class, self.per_class[i].release@));
                            assert(slitter.cache_ok(class, &self.per_class_info[i].cache));
                            lemma_seq_multiset(self.per_class[i].alloc@);
                            lemma_seq_multiset(self.per_class[i].release@);
                            assert(self.slot_ms(i) =~= Multiset::<usize>::empty());
                        }
                    }
                }
            }
        }
        proof {
            assert forall|id: int| self.alloc_of(id) == old(self).alloc_of(id) by {
                if 0 <= id < self.per_class.len() && id >= old(self).per_class.len() {
                    assert(self.per_class[id].alloc@ =~= Seq::<usize>::empty());
                }
            }
            assert forall|id: int| self.release_of(id) == old(self).release_of(id) by {
                if 0 <= id < self.per_class.len() && id >= old(self).per_class.len() {
                    assert(self.per_class[id].release@ =~= Seq::<usize>::empty());
                }
            }
            assert forall|id: int| self.local_of(id) == old(self).local_of(id) by {
                if old(self).per_class_info.len() <= id < self.per_class_info.len() {
                    assert(self.per_class_info[id].cache is Nothing);
                } else if 0 <= id < old(self).per_class_info.len() {
                    assert(self.per_class_info[id] == old(self).per_class_info[id]);
                }
            }
            assert forall|id: int| self.release_has_room(id) == old(self).release_has_room(
                id,
            ) by {
                if 0 <= id < self.per_class.len() {
                    if id >= old(self).per_class.len() {
                        assert(!self.per_class[id].release.storage_spec());
                    } else {
                        assert(self.per_class[id] == old(self).per_class[id]);
                    }
                }
            }
            assert forall|id: int| self.held(id) == old(self).held(id) by {
                if 0 <= id < self.per_class.len() {
                    lemma_seq_multiset(self.per_class[id].alloc@);
                    lemma_seq_multiset(self.per_class[id].release@);
                    if id >= old(self).per_class.len() {
                        assert(self.per_class[id].alloc@.len() == 0);
                        assert(self.slot_ok(slitter, id));
                        if id < self.per_class_info.len() {
                            if id >= old(self).per_class_info.len() {
                                assert(self.per_class_info[id].cache is Nothing);
                            } else {
                                assert(self.per_class_info[id] == old(self).per_class_info[id]);
                            }
                        }
                        assert(self.slot_ms(id) =~= Multiset::<usize>::empty());
                    } else {
                        assert(self.per_class[id] == old(self).per_class[id]);
                        if id < old(self).per_class_info.len() {
                            assert(self.per_class_info[id] == old(self).per_class_info[id]);
                        } else if id < self.per_class_info.len() {
                            assert(self.per_class_info[id].cache is Nothing);
                        }
                        assert(self.slot_ms(id) =~= old(self).slot_ms(id));
                    }
                }
            }
        }
    }

    /// The slots of the classes other than `class` are in order after
    /// a step of the cache for `class`.
    proof fn lemma_other_slots<M: Mapper>(
        &self,
        before: &Cache,
        old: &Slitter<M>,
        slitter: &Slitter<M>,
        class: Class,
        i: int,
    )
        requires
            old.wf(),
            slitter.wf(),
            before.slot_ok(old, i),
            old.is_registered(class),
            slitter.follows(old),
            0 <= i < self.per_class.len(),
            i != class@,
            self.id == before.id,
            self.per_class.len() == before.per_class.len(),
            self.per_class_info.len() == before.per_class_info.len(),
            self.per_class[i] == before.per_class[i],
            i < self.per_class_info.len() ==> self.per_class_info[i] == before.per_class_info[i],
            forall|a: usize|
                #![trigger slitter.ledger_spec().holder(a)]
                #![trigger slitter.ledger_spec().stale(a)]
                old.chunks_spec().class_of(a as int) is Some && old.chunks_spec().class_of(a as int)
                    != Some(class@) ==> slitter.ledger_spec().holder(a)
                    == old.ledger_spec().holder(a) && slitter.ledger_spec().stale(a)
                    == old.ledger_spec().stale(a),
            slitter.info_of(class@ as int).press.tagged_since(
                &old.chunks_spec(),
                &slitter.chunks_spec(),
            ),
        ensures
            self.slot_ok(slitter, i),
    {
        broadcast use vstd::multiset::group_multiset_axioms;

        assert(before.slot_ok(old, i));
        assert(self.slot_ms(i) == before.slot_ms(i));
        if 1 <= i < self.per_class_info.len() {
            let other = self.per_class_info[i].info->0;
            old.lemma_info_has_id(other);
            slitter.lemma_info_has_id(class);
            assert forall|a: usize|
                #![trigger slitter.ledger_spec().holder(a)]
                slitter.ledger_spec().holder(a) == Some(self.id@) && slitter.chunks_spec().class_of(
                    a as int,
                ) == Some(i as u32) implies old.ledger_spec().holder(a) == Some(self.id@) by {
                let m = crate::mill::metadata_address(a as int);
                assert(slitter.chunks_spec()@.dom().contains(m));
                assert(slitter.chunks_spec()@[m].class_id == Some(i as u32));
                if old.chunks_spec()@.dom().contains(m) && old.chunks_spec()@[m].class_id is Some {
                    assert(old.chunks_spec().class_of(a as int) == Some(i as u32));
                }
            }
            assert forall|a: usize|
                #![trigger slitter.ledger_spec().holder(a)]
                before.slot_ms(i).count(a) >= 1 implies slitter.ledger_spec().holder(a)
                == old.ledger_spec().holder(a) && slitter.ledger_spec().stale(a)
                == old.ledger_spec().stale(a) by {
                let mags = before.per_class[i];
                if mags.alloc@.to_multiset().count(a) >= 1 {
                    old.info_of(i).lemma_held_is_owned(&old.chunks_spec(), mags.alloc@, a);
                } else if mags.release@.to_multiset().count(a) >= 1 {
                    old.info_of(i).lemma_held_is_owned(&old.chunks_spec(), mags.release@, a);
                } else {
                    let contents = before.per_class_info[i].cache@->0;
                    old.info_of(i).lemma_held_is_owned(&old.chunks_spec(), contents, a);
                }
            }
            before.lemma_slot_follows(old, slitter, i);
        } else {
            before.lemma_slot_follows(old, slitter, i);
        }
    }

    /// Allocates an object of `class`, from the cache if possible,
    /// and else with the help of the class itself.
    fn allocate_slow<M: Mapper>(&mut self, slitter: &mut Slitter<M>, class: Class) -> (ret: Option<
        LinearRef,
    >)
        requires
            old(slitter).wf(),
            old(self).wf(old(slitter)),
            old(slitter).is_registered(class),
        ensures
            final(slitter).wf(),
            final(self).wf(final(slitter)),
            final(self).id() == old(self).id(),
            final(slitter).stepped(old(slitter), old(self).id()),
            final(slitter).counts_allocation(old(slitter), class, ret is Some),
            final(slitter).class_count() == old(slitter).class_count(),
            ret matches Some(object) ==> {
                &&& final(slitter).owns(class, object@)
                &&& object@ % old(slitter).info_of(class@ as int).layout@.1 == 0
                &&& final(slitter).holder(object@) == Some(caller())
                &&& old(slitter).holder(object@) != Some(caller())
                &&& final(self).held(class@ as int).count(object@) == 0
                &&& old(slitter).info_of(class@ as int).zero_init ==> !final(slitter).stale(
                    object@,
                )
            },
            old(self).alloc_of(class@ as int).len() > 0 ==> {
                &&& ret matches Some(object)
                &&& object@ == old(self).alloc_of(class@ as int).last()
                &&& final(self).alloc_of(class@ as int) == old(self).alloc_of(
                    class@ as int,
                ).drop_last()
                &&& final(self).held(class@ as int) == old(self).held(class@ as int).remove(
                    object@,
                )
            },
            old(self).alloc_of(class@ as int).len() == 0 ==> {
                let info = old(slitter).info_of(class@ as int);
                let local = old(self).local_of(class@ as int);
                &&& info.cached_source(&local) matches Some(source) ==> (ret matches Some(object)
                    && final(self).alloc_of(class@ as int).push(object@) == source)
                &&& info.cached_source(&local) is None ==> (ret matches Some(object)
                    ==> final(self).alloc_of(class@ as int) == crate::ledger::objects(
                    object@,
                    info.layout@.0,
                    (final(self).alloc_of(class@ as int).len() + 1) as int,
                ).skip(1))
                &&& info.cached_source(&local) is None ==> (ret matches Some(object) ==> {
                    &&& final(self).alloc_of(class@ as int) == crate::ledger::objects(
                        object@,
                        info.layout@.0,
                        old(slitter).refill_batch(class),
                    ).skip(1)
                    &&& final(slitter).info_of(class@ as int).press.batch_in_span(
                        &final(slitter).chunks_spec(),
                        object@,
                        (final(self).alloc_of(class@ as int).len() + 1) as int,
                    )
                    &&& !old(slitter).can_press(class) ==> final(slitter).info_of(
                        class@ as int,
                    ).press.took_new_chunk(
                        &old(slitter).chunks_spec(),
                        &final(slitter).chunks_spec(),
                        object@,
                    )
                })
                &&& info.cached_source(&local) is None && info.press.can_allocate(
                    &old(slitter).mill_of(class),
                    &old(slitter).chunks_spec(),
                ) ==> (ret matches Some(object) && object@ == info.press.upcoming(
                    &old(slitter).mill_of(class),
                    &old(slitter).chunks_spec(),
                ) && final(self).alloc_of(class@ as int) == crate::ledger::objects(
                    object@,
                    info.layout@.0,
                    info.press.upcoming_batch(
                        &old(slitter).mill_of(class),
                        &old(slitter).chunks_spec(),
                        (crate::magazine_impl::MAGAZINE_SIZE + 1) as usize,
                    ),
                ).skip(1))
            },
            old(self).next_allocation(old(slitter), class) matches Some(address) ==> (
            ret matches Some(object) && object@ == address),
            forall|id: int| id != class@ ==> final(self).alloc_of(id) == old(self).alloc_of(id),
            forall|id: int| final(self).release_of(id) == old(self).release_of(id),
            forall|id: int| id != class@ ==> final(self).held(id) == old(self).held(id),
            old(slitter).stocked(class) ==> ret is Some,
            final(slitter).info_of(class@ as int).press.tagged_since(
                &old(slitter).chunks_spec(),
                &final(slitter).chunks_spec(),
            ),
    {
        broadcast use vstd::multiset::group_multiset_axioms;

        let index = class.id() as usize;

        if self.per_class_info.len() <= index {
            self.grow(slitter);
        }
        let ghost grown = *self;
        let ghost me = self.id@;
        proof {
            assert(grown.slot_ok(slitter, index as int));
            lemma_seq_multiset(grown.per_class[index as int].alloc@);
            lemma_seq_multiset(grown.per_class[index as int].release@);
            slitter.lemma_info_has_id(class);
            assert(grown.local_of(index as int) == old(self).local_of(index as int));
            assert(grown.alloc_of(index as int) == old(self).alloc_of(index as int));
        }
        // per_class.len() >= per_class_info.len()
        let mag = &mut self.per_class[index].alloc;
        if let Some(alloc) = mag.get() {
            let ghost address = alloc@;
            proof {
                assert(grown.slot_ms(index as int).count(address) >= 1);
                assert(slitter.owns(class, grown.per_class[index as int].alloc@.last()));
            }
            slitter.check_out(Ghost(address), Ghost(me));
            proof {
                assert(self.slot_ms(index as int) =~= grown.slot_ms(index as int).remove(address));
                assert forall|i: int| 0 <= i < self.per_class.len() implies self.slot_ok(
                    slitter,
                    i,
                ) by {
                    assert(grown.slot_ok(old(slitter), i));
                    if i == index {
                        assert forall|k: int|
                            0 <= k < self.per_class[i].alloc@.len() implies slitter.owns(
                            class,
                            #[trigger] self.per_class[i].alloc@[k],
                        ) by {
                            assert(self.per_class[i].alloc@[k]
                                == grown.per_class[i].alloc@[k]);
                            assert(old(slitter).owns(class, grown.per_class[i].alloc@[k]));
                        }
                        assert(slitter.info_of(class@ as int) == old(slitter).info_of(
                            class@ as int,
                        ));
                        slitter.lemma_owns_follows(
                            old(slitter),
                            class,
                            grown.per_class[i].release@,
                        );
                        if let Some(contents) = grown.per_class_info[i].cache@ {
                            slitter.lemma_owns_follows(old(slitter), class, contents);
                        }
                        assert forall|a: usize|
                            #![trigger self.per_class[i].alloc@.to_multiset().count(a)]
                            self.per_class[i].alloc@.to_multiset().count(a)
                                >= 1 implies grown.per_class[i].alloc@.to_multiset().count(a)
                            >= 1 && a != address by {
                            assert(grown.slot_ms(i).count(address) <= 1);
                        }
                    } else {
                        assert(old(slitter).owns(class, address));
                        assert forall|a: usize|
                            #![trigger slitter.ledger_spec().holder(a)]
                            #![trigger slitter.ledger_spec().stale(a)]
                            old(slitter).chunks_spec().class_of(a as int) is Some
                                && old(slitter).chunks_spec().class_of(a as int) != Some(
                                class@,
                            ) implies slitter.ledger_spec().holder(a)
                                == old(slitter).ledger_spec().holder(a)
                                && slitter.ledger_spec().stale(a)
                                == old(slitter).ledger_spec().stale(a) by {
                            assert(a != address);
                        }
                        self.lemma_other_slots(&grown, old(slitter), slitter, class, i);
                    }
                }
            }
            return Some(alloc);
        }
        let info = &mut self.per_class_info[index];
        let ghost rest = grown.per_class[index as int].release@.to_multiset();
        proof {
            assert(optional(grown.per_class_info[index as int].cache@).add(rest)
                =~= grown.slot_ms(index as int));
        }
        let ret = slitter.refill_magazine(class, mag, &mut info.cache, Ghost(me), Ghost(rest));
        let ghost refilled = *slitter;
        if let Some(object) = &ret {
            proof {
                let joint = mag@.to_multiset().add(optional(info.cache@)).add(one(ret)).add(rest);
                assert(joint.count(object@) >= 1);
                assert(refilled.ledger_spec().holder(object@) == Some(me));
            }
            slitter.check_out(Ghost(object@), Ghost(me));
            proof {
                lemma_follows_is_transitive(old(slitter), &refilled, slitter);
                assert(slitter.info_of(class@ as int) == refilled.info_of(class@ as int));
                slitter.lemma_owns_follows(&refilled, class, seq![object@]);
                assert(seq![object@][0] == object@);
            }
        }
        proof {
            let joint = self.per_class[index as int].alloc@.to_multiset().add(
                optional(self.per_class_info[index as int].cache@),
            ).add(one(ret)).add(rest);
            assert(self.slot_ms(index as int).add(one(ret)) =~= joint);
            assert forall|i: int| 0 <= i < self.per_class.len() implies self.slot_ok(
                slitter,
                i,
            ) by {
                assert(grown.slot_ok(old(slitter), i));
                if i != index {
                    assert(self.per_class[i] == grown.per_class[i]);
                    if i < self.per_class_info.len() {
                        assert(self.per_class_info[i] == grown.per_class_info[i]);
                    }
                    assert forall|a: usize|
                        #![trigger slitter.ledger_spec().holder(a)]
                        #![trigger slitter.ledger_spec().stale(a)]
                        old(slitter).chunks_spec().class_of(a as int) is Some
                            && old(slitter).chunks_spec().class_of(a as int) != Some(
                            class@,
                        ) implies slitter.ledger_spec().holder(a)
                            == old(slitter).ledger_spec().holder(a)
                            && slitter.ledger_spec().stale(a) == old(slitter).ledger_spec().stale(a)
                            by {
                        self.lemma_class_is_stable(old(slitter), &refilled, class, a);
                        assert(refilled.chunks_spec().class_of(a as int) != Some(class@));
                        assert(refilled.ledger_spec().holder(a) == old(slitter).ledger_spec().holder(a));
                        assert(refilled.ledger_spec().stale(a) == old(slitter).ledger_spec().stale(a));
                        if ret is Some {
                            assert(refilled.owns(class, ret->0@));
                            refilled.lemma_info_has_id(class);
                            assert(a != ret->0@);
                            assert(Multiset::singleton(ret->0@).count(a) == 0);
                        }
                        assert(slitter.ledger_spec().holder(a)
                            == refilled.ledger_spec().holder(a));
                        assert(slitter.ledger_spec().stale(a) == refilled.ledger_spec().stale(a));
                    }
                    self.lemma_other_slots(&grown, old(slitter), slitter, class, i);
                } else {
                    assert(slitter.info_of(i) == refilled.info_of(i));
                    assert(slitter.chunks_spec() == refilled.chunks_spec());
                    assert(slitter.owns_all(class, self.per_class[i].alloc@));
                    slitter.lemma_owns_follows(old(slitter), class, grown.per_class[i].release@);
                    assert(slitter.cache_ok(class, &self.per_class_info[i].cache));
                    assert(slitter.info_of(i).same_class(&old(slitter).info_of(i)));
                    assert(refilled.ledger_spec().holds(me, joint));
                    assert(slitter.ledger_spec().holds(me, self.slot_ms(i))) by {
                        assert forall|a: usize|
                            #![trigger self.slot_ms(i).count(a)]
                            self.slot_ms(i).count(a) <= 1 && (self.slot_ms(i).count(a) >= 1
                                ==> slitter.ledger_spec().holder(a) == Some(me)) by {
                            assert(joint.count(a) == self.slot_ms(i).count(a) + one(ret).count(a));
                            if self.slot_ms(i).count(a) >= 1 {
                                assert(refilled.ledger_spec().holder(a) == Some(me));
                                if ret is Some {
                                    assert(a != ret->0@);
                                    assert(Multiset::singleton(ret->0@).count(a) == 0);
                                }
                                assert(slitter.ledger_spec().holder(a)
                                    == refilled.ledger_spec().holder(a));
                            }
                        }
                    }
                    if slitter.info_of(i).zero_init {
                        assert(old(slitter).info_of(i).zero_init);
                        let filled = self.per_class[i].alloc@.to_multiset();
                        assert(refilled.ledger_spec().clean(filled.add(one(ret))));
                        assert forall|a: usize|
                            #![trigger filled.count(a)]
                            filled.count(a) >= 1 implies !slitter.ledger_spec().stale(a) by {
                            assert(filled.add(one(ret)).count(a) >= 1);
                            assert(!refilled.ledger_spec().stale(a));
                        }
                    }
                }
            }
            if ret is Some {
                let address = ret->0@;
                assert(joint.count(address) >= 1);
                assert(self.slot_ms(index as int).count(address) == 0) by {
                    assert(joint.count(address) == self.slot_ms(index as int).count(address) + one(
                        ret,
                    ).count(address));
                }
                assert(old(slitter).holder(address) != Some(caller())) by {
                    if old(slitter).ledger_spec().holder(address) == Some(caller()) {
                        assert(refilled.ledger_spec().holder(address) == Some(caller()));
                    }
                }
                if old(slitter).info_of(class@ as int).zero_init {
                    assert(self.per_class[index as int].alloc@.to_multiset().add(one(ret)).count(
                        address,
                    ) >= 1);
                    assert(!refilled.ledger_spec().stale(address));
                }
            }
        }
        ret
    }

    /// An address that is not of a class before a step is not of that
    /// class after it, unless the step made it one.
    proof fn lemma_class_is_stable<M: Mapper>(
        &self,
        old: &Slitter<M>,
        slitter: &Slitter<M>,
        class: Class,
        a: usize,
    )
        requires
            slitter.follows(old),
        ensures
            old.chunks_spec().class_of(a as int) is Some ==> slitter.chunks_spec().class_of(a as int)
                == old.chunks_spec().class_of(a as int),
    {
        if old.chunks_spec().class_of(a as int) is Some {
            assert(old.chunks_spec()@.dom().contains(crate::mill::metadata_address(a as int)));
        }
    }

    /// Attempts to return an allocation for `class`.  Consumes from
    /// the cache if possible, and hits the Class(Info)'s slow path
    /// otherwise.
    ///
    /// On success, the address is a place for an object of the class:
    /// the metadata that the address arithmetic finds for it names the
    /// class, and it is aligned as the class demands.  A caller holds
    /// the object from now on, and no caller held it; the cache holds
    /// it no more.  Where the class is zero-initialised, the object is
    /// not stale.  What any other cache or any caller held, it still
    /// holds.
    pub fn allocate<M: Mapper>(&mut self, slitter: &mut Slitter<M>, class: Class) -> (ret: Option<
        LinearRef,
    >)
        requires
            old(slitter).wf(),
            old(self).wf(old(slitter)),
            old(slitter).is_registered(class),
        ensures
            final(slitter).wf(),
            final(self).wf(final(slitter)),
            final(self).id() == old(self).id(),
            final(slitter).stepped(old(slitter), old(self).id()),
            final(slitter).counts_allocation(old(slitter), class, ret is Some),
            final(slitter).class_count() == old(slitter).class_count(),
            ret matches Some(object) ==> {
                &&& final(slitter).owns(class, object@)
                &&& object@ % old(slitter).info_of(class@ as int).layout@.1 == 0
                &&& final(slitter).holder(object@) == Some(caller())
                &&& old(slitter).holder(object@) != Some(caller())
                &&& final(self).held(class@ as int).count(object@) == 0
                &&& old(slitter).info_of(class@ as int).zero_init ==> !final(slitter).stale(
                    object@,
                )
            },
            old(self).alloc_of(class@ as int).len() > 0 ==> {
                &&& ret matches Some(object)
                &&& object@ == old(self).alloc_of(class@ as int).last()
                &&& final(self).alloc_of(class@ as int) == old(self).alloc_of(
                    class@ as int,
                ).drop_last()
                &&& final(self).held(class@ as int) == old(self).held(class@ as int).remove(
                    object@,
                )
            },
            old(self).alloc_of(class@ as int).len() == 0 ==> {
                let info = old(slitter).info_of(class@ as int);
                let local = old(self).local_of(class@ as int);
                &&& info.cached_source(&local) matches Some(source) ==> (ret matches Some(object)
                    && final(self).alloc_of(class@ as int).push(object@) == source)
                &&& info.cached_source(&local) is None ==> (ret matches Some(object)
                    ==> final(self).alloc_of(class@ as int) == crate::ledger::objects(
                    object@,
                    info.layout@.0,
                    (final(self).alloc_of(class@ as int).len() + 1) as int,
                ).skip(1))
                &&& info.cached_source(&local) is None ==> (ret matches Some(object) ==> {
                    &&& final(self).alloc_of(class@ as int) == crate::ledger::objects(
                        object@,
                        info.layout@.0,
                        old(slitter).refill_batch(class),
                    ).skip(1)
                    &&& final(slitter).info_of(class@ as int).press.batch_in_span(
                        &final(slitter).chunks_spec(),
                        object@,
                        (final(self).alloc_of(class@ as int).len() + 1) as int,
                    )
                    &&& !old(slitter).can_press(class) ==> final(slitter).info_of(
                        class@ as int,
                    ).press.took_new_chunk(
                        &old(slitter).chunks_spec(),
                        &final(slitter).chunks_spec(),
                        object@,
                    )
                })
                &&& info.cached_source(&local) is None && info.press.can_allocate(
                    &old(slitter).mill_of(class),
                    &old(slitter).chunks_spec(),
                ) ==> (ret matches Some(object) && object@ == info.press.upcoming(
                    &old(slitter).mill_of(class),
                    &old(slitter).chunks_spec(),
                ) && final(self).alloc_of(class@ as int) == crate::ledger::objects(
                    object@,
                    info.layout@.0,
                    info.press.upcoming_batch(
                        &old(slitter).mill_of(class),
                        &old(slitter).chunks_spec(),
                        (crate::magazine_impl::MAGAZINE_SIZE + 1) as usize,
                    ),
                ).skip(1))
            },
            old(self).next_allocation(old(slitter), class) matches Some(address) ==> (
            ret matches Some(object) && object@ == address),
            forall|id: int| id != class@ ==> final(self).alloc_of(id) == old(self).alloc_of(id),
            forall|id: int| final(self).release_of(id) == old(self).release_of(id),
            forall|id: int| id != class@ ==> final(self).held(id) == old(self).held(id),
            old(slitter).stocked(class) ==> ret is Some,
            final(slitter).info_of(class@ as int).press.tagged_since(
                &old(slitter).chunks_spec(),
                &final(slitter).chunks_spec(),
            ),
    {
        self.allocate_slow(slitter, class)
    }

    /// Takes back `block`, an object of `class`: into the cache if
    /// possible, and else with the help of the class itself.
    fn release_slow<M: Mapper>(&mut self, slitter: &mut Slitter<M>, class: Class, block: LinearRef)
        requires
            old(slitter).wf(),
            old(self).wf(old(slitter)),
            old(slitter).is_registered(class),
            old(slitter).owns(class, block@),
            old(slitter).holder(block@) == Some(caller()),
        ensures
            final(slitter).wf(),
            final(self).wf(final(slitter)),
            final(self).id() == old(self).id(),
            final(slitter).follows(old(slitter)),
            final(slitter).ledger_spec().spares_but(
                &old(slitter).ledger_spec(),
                old(self).id(),
                block@,
            ),
            final(slitter).counts_release(old(slitter), class),
            final(slitter).class_count() == old(slitter).class_count(),
            final(slitter).chunks_spec() == old(slitter).chunks_spec(),
            final(slitter).holder(block@) == Some(old(self).id()),
            final(slitter).stale(block@),
            final(self).release_of(class@ as int).len() > 0,
            final(self).release_of(class@ as int).last() == block@,
            final(self).held(class@ as int).count(block@) == 1,
            old(self).release_has_room(class@ as int) ==> {
                &&& final(self).release_of(class@ as int) == old(self).release_of(
                    class@ as int,
                ).push(block@)
                &&& final(self).held(class@ as int) == old(self).held(class@ as int).insert(
                    block@,
                )
            },
            !old(self).release_has_room(class@ as int) ==> final(self).release_of(
                class@ as int,
            ).drop_last() == old(slitter).info_of(class@ as int).spill_target(
                &old(self).local_of(class@ as int),
            ),
            forall|id: int| id != class@ ==> final(self).release_of(id) == old(self).release_of(id),
            forall|id: int| final(self).alloc_of(id) == old(self).alloc_of(id),
            forall|id: int| id != class@ ==> final(self).held(id) == old(self).held(id),
    {
        broadcast use vstd::multiset::group_multiset_axioms;

        let index = class.id() as usize;

        if self.per_class_info.len() <= index {
            self.grow(slitter);
        }
        let ghost grown = *self;
        let ghost me = self.id@;
        let ghost address = block@;
        proof {
            assert(grown.slot_ok(slitter, index as int));
            lemma_seq_multiset(grown.per_class[index as int].alloc@);
            lemma_seq_multiset(grown.per_class[index as int].release@);
            slitter.lemma_info_has_id(class);
            assert(grown.local_of(index as int) == old(self).local_of(index as int));
            assert(grown.release_has_room(index as int) == old(self).release_has_room(
                index as int,
            ));
        }
        slitter.check_in(Ghost(address), Ghost(me));
        let ghost checked = *slitter;
        proof {
            assert(slitter.info_of(class@ as int) == old(slitter).info_of(class@ as int));
            assert forall|a: usize|
                #![trigger checked.ledger_spec().holder(a)]
                #![trigger checked.ledger_spec().stale(a)]
                a != address implies checked.ledger_spec().holder(a)
                    == old(slitter).ledger_spec().holder(a) && checked.ledger_spec().stale(a)
                    == old(slitter).ledger_spec().stale(a) by {
                assert(checked.holder(a) == old(slitter).holder(a));
                assert(checked.stale(a) == old(slitter).stale(a));
            }
            assert(checked.ledger_spec().holder(address) == Some(me));
            assert(old(slitter).ledger_spec().holder(address) == Some(caller()));
            assert(checked.chunks_spec().class_of(address as int) == Some(class@));
            assert forall|i: int| 0 <= i < self.per_class.len() implies #[trigger] grown.slot_kept(
                &checked,
                i,
            ) && grown.slot_ms(i).count(address) == 0 && (i != index ==> grown.slot_ok(
                &checked,
                i,
            )) by {
                assert(grown.slot_ok(old(slitter), i));
                if 1 <= i < grown.per_class_info.len() {
                    assert(grown.slot_ms(i).count(address) == 0);
                } else {
                    assert(grown.slot_ms(i) =~= Multiset::<usize>::empty()) by {
                        lemma_seq_multiset(grown.per_class[i].alloc@);
                        lemma_seq_multiset(grown.per_class[i].release@);
                    }
                }
                grown.lemma_slot_kept_follows(old(slitter), &checked, i);
                if i != index {
                    grown.lemma_slot_follows(old(slitter), &checked, i);
                }
            }
            assert(checked.ledger_spec().holds_only(
                &checked.chunks_spec(),
                me,
                index as u32,
                grown.slot_ms(index as int).insert(address),
            )) by {
                assert forall|a: usize|
                    #![trigger checked.ledger_spec().holder(a)]
                    checked.ledger_spec().holder(a) == Some(me) && checked.chunks_spec().class_of(
                        a as int,
                    ) == Some(index as u32) implies grown.slot_ms(index as int).insert(
                    address,
                ).count(a) >= 1 by {
                    if a != address {
                        assert(old(slitter).ledger_spec().holder(a) == Some(me));
                    }
                }
            }
        }
        // per_class.len() >= per_class_info.len()
        let mag = &mut self.per_class[index].release;
        // We prefer to cache freshly deallocated objects, for
        // temporal locality.
        if let Some(spill) = mag.put(block) {
            let info = &mut self.per_class_info[index];
            let ghost rest = grown.per_class[index as int].alloc@.to_multiset();
            proof {
                assert(grown.slot_kept(&checked, index as int));
                assert(grown.per_class[index as int].release@.to_multiset().add(
                    optional(grown.per_class_info[index as int].cache@),
                ).add(Multiset::singleton(spill@)).add(rest) =~= grown.slot_ms(
                    index as int,
                ).insert(address));
            }
            slitter.clear_magazine(class, mag, &mut info.cache, spill, Ghost(me), Ghost(rest));
            proof {
                lemma_follows_is_transitive(old(slitter), &checked, slitter);
                assert forall|a: usize|
                    #![trigger slitter.ledger_spec().holder(a)]
                    #![trigger old(slitter).ledger_spec().holder(a)]
                    old(slitter).ledger_spec().holder(a) is Some
                        && old(slitter).ledger_spec().holder(a) != Some(me)
                        && old(slitter).ledger_spec().holder(a)
                        != Some(depot()) && a != address implies slitter.ledger_spec().holder(a)
                    == old(slitter).ledger_spec().holder(a) && slitter.ledger_spec().stale(a)
                    == old(slitter).ledger_spec().stale(a) by {
                    assert(checked.ledger_spec().holder(a) == old(slitter).ledger_spec().holder(a));
                }
                assert forall|a: usize|
                    #![trigger slitter.ledger_spec().stale(a)]
                    slitter.ledger_spec().stale(a) && a != address
                        implies old(slitter).ledger_spec().stale(a) by {
                    assert(checked.ledger_spec().stale(a));
                }
                assert forall|a: usize|
                    #![trigger slitter.ledger_spec().holder(a)]
                    old(slitter).ledger_spec().holder(a) is Some implies slitter.ledger_spec().holder(
                    a,
                ) is Some by {
                    if a != address {
                        assert(checked.ledger_spec().holder(a) == old(slitter).ledger_spec().holder(a));
                    }
                    assert(checked.ledger_spec().holder(a) is Some);
                }
                assert(self.slot_ms(index as int)
                    =~= self.per_class[index as int].release@.to_multiset().add(
                    optional(self.per_class_info[index as int].cache@),
                ).add(rest));
                assert forall|i: int| 0 <= i < self.per_class.len() implies self.slot_ok(
                    slitter,
                    i,
                ) by {
                    assert(grown.slot_kept(&checked, i));
                    if i != index {
                        assert(grown.slot_ok(&checked, i));
                        assert(self.per_class[i] == grown.per_class[i]);
                        if i < self.per_class_info.len() {
                            assert(self.per_class_info[i] == grown.per_class_info[i]);
                        }
                        assert forall|a: usize|
                            #![trigger slitter.ledger_spec().holder(a)]
                            #![trigger slitter.ledger_spec().stale(a)]
                            checked.chunks_spec().class_of(a as int) is Some
                                && checked.chunks_spec().class_of(a as int) != Some(
                                class@,
                            ) implies slitter.ledger_spec().holder(a)
                            == checked.ledger_spec().holder(a) && slitter.ledger_spec().stale(a)
                            == checked.ledger_spec().stale(a) by {}
                        self.lemma_other_slots(&grown, &checked, slitter, class, i);
                    } else {
                        slitter.lemma_owns_follows(&checked, class, grown.per_class[i].alloc@);
                        assert(slitter.info_of(i).same_class(&checked.info_of(i)));
                        assert forall|a: usize|
                            #![trigger grown.per_class[i].alloc@.to_multiset().count(a)]
                            grown.per_class[i].alloc@.to_multiset().count(a)
                                >= 1 implies self.slot_ms(i).count(a) >= 1 by {}
                    }
                }
                lemma_seq_multiset(self.per_class[index as int].release@);
                assert(self.slot_ms(index as int).count(address) >= 1);
                assert(slitter.ledger_spec().holder(address) == Some(me));
            }
        } else {
            proof {
                assert(self.slot_ms(index as int) =~= grown.slot_ms(index as int).insert(address));
                assert forall|i: int| 0 <= i < self.per_class.len() implies self.slot_ok(
                    slitter,
                    i,
                ) by {
                    assert(grown.slot_kept(&checked, i));
                    if i != index {
                        assert(grown.slot_ok(&checked, i));
                    }
                    if i == index {
                        assert forall|k: int|
                            0 <= k < self.per_class[i].release@.len() implies slitter.owns(
                            class,
                            #[trigger] self.per_class[i].release@[k],
                        ) by {
                            if k < grown.per_class[i].release@.len() {
                                assert(self.per_class[i].release@[k]
                                    == grown.per_class[i].release@[k]);
                            }
                        }
                        assert forall|a: usize|
                            #![trigger grown.per_class[i].alloc@.to_multiset().count(a)]
                            grown.per_class[i].alloc@.to_multiset().count(a)
                                >= 1 implies grown.slot_ms(i).count(a) >= 1 by {}
                    } else {
                        assert(self.slot_ms(i) == grown.slot_ms(i));
                    }
                }
            }
        }
    }

    /// Marks `block`, an allocation for `class` that a caller holds,
    /// ready for reuse.  Pushes to the cache if possible, and hits the
    /// Class(Info)'s slow path otherwise.
    ///
    /// The cache holds the object from now on, and the object is
    /// stale.  What any other cache or any other caller held, it
    /// still holds.
    pub fn release<M: Mapper>(&mut self, slitter: &mut Slitter<M>, class: Class, block: LinearRef)
        requires
            old(slitter).wf(),
            old(self).wf(old(slitter)),
            old(slitter).is_registered(class),
            old(slitter).owns(class, block@),
            old(slitter).holder(block@) == Some(caller()),
        ensures
            final(slitter).wf(),
            final(self).wf(final(slitter)),
            final(self).id() == old(self).id(),
            final(slitter).follows(old(slitter)),
            final(slitter).ledger_spec().spares_but(
                &old(slitter).ledger_spec(),
                old(self).id(),
                block@,
            ),
            final(slitter).counts_release(old(slitter), class),
            final(slitter).class_count() == old(slitter).class_count(),
            final(slitter).chunks_spec() == old(slitter).chunks_spec(),
            final(slitter).holder(block@) == Some(old(self).id()),
            final(slitter).stale(block@),
            final(self).release_of(class@ as int).len() > 0,
            final(self).release_of(class@ as int).last() == block@,
            final(self).held(class@ as int).count(block@) == 1,
            old(self).release_has_room(class@ as int) ==> {
                &&& final(self).release_of(class@ as int) == old(self).release_of(
                    class@ as int,
                ).push(block@)
                &&& final(self).held(class@ as int) == old(self).held(class@ as int).insert(
                    block@,
                )
            },
            !old(self).release_has_room(class@ as int) ==> final(self).release_of(
                class@ as int,
            ).drop_last() == old(slitter).info_of(class@ as int).spill_target(
                &old(self).local_of(class@ as int),
            ),
            forall|id: int| id != class@ ==> final(self).release_of(id) == old(self).release_of(id),
            forall|id: int| final(self).alloc_of(id) == old(self).alloc_of(id),
            forall|id: int| id != class@ ==> final(self).held(id) == old(self).held(id),
    {
        self.release_slow(slitter, class, block)
    }

    /// Hands everything that the cache holds back to the allocator:
    /// for every class that the cache knows, both magazines and the
    /// locally cached one go back to the class; the magazines of the
    /// dummy class go to the rack.  Then the array of magazines goes,
    /// if the cache owns it.
    ///
    /// The depots hold afterwards what they held and what the cache
    /// held; no count of allocations or releases changes.
    pub fn drop<M: Mapper>(&mut self, slitter: &mut Slitter<M>)
        requires
            old(slitter).wf(),
            old(self).wf(old(slitter)),
        ensures
            final(slitter).wf(),
            final(self).wf(final(slitter)),
            final(self).id() == old(self).id(),
            final(slitter).stepped(old(slitter), old(self).id()),
            final(slitter).ledger_spec().same_counts(&old(slitter).ledger_spec()),
            final(slitter).class_count() == old(slitter).class_count(),
            final(slitter).chunks_spec() == old(slitter).chunks_spec(),
            final(self).known() == 0,
            forall|id: int| final(self).alloc_of(id).len() == 0,
            forall|id: int| final(self).release_of(id).len() == 0,
            forall|id: int| final(self).held(id) == Multiset::<usize>::empty(),
            forall|id: int, a: usize|
                #![trigger old(self).held(id).count(a)]
                old(self).held(id).count(a) >= 1 ==> final(slitter).holder(a) == Some(depot()),
            final(slitter).ledger_spec().stocks(&old(slitter).ledger_spec(), Multiset::empty()),
            forall|class: Class, a: usize|
                #![trigger final(slitter).depot_of(class).count(a)]
                old(self).held(class@ as int).count(a) >= 1 ==> final(slitter).depot_of(class).count(a)
                    == 1,
            forall|class: Class, a: usize|
                #![trigger final(slitter).depot_of(class).count(a)]
                old(slitter).is_registered(class) && old(slitter).depot_of(class).count(a) >= 1
                    ==> final(slitter).depot_of(class).count(a) >= 1,
    {
        broadcast use vstd::multiset::group_multiset_axioms;

        let ghost me = self.id@;
        proof {
            assert forall|id: int, a: usize|
                #![trigger old(self).held(id).count(a)]
                (self.per_class_info.len() <= id || id <= 0) && old(self).held(id).count(a)
                    >= 1 implies false by {
                if 0 <= id < self.per_class.len() {
                    assert(self.slot_ok(slitter, id));
                    lemma_seq_multiset(self.per_class[id].alloc@);
                    lemma_seq_multiset(self.per_class[id].release@);
                }
            }
        }
        loop
            invariant
                slitter.wf(),
                self.wf(slitter),
                self.id@ == me,
                me == old(self).id@,
                slitter.stepped(old(slitter), me),
                slitter.ledger_spec().same_counts(&old(slitter).ledger_spec()),
                slitter.class_count() == old(slitter).class_count(),
                slitter.chunks_spec() == old(slitter).chunks_spec(),
                self.per_class.len() == old(self).per_class.len(),
                self.per_class_info.len() <= old(self).per_class_info.len(),
                forall|i: int|
                    0 <= i < self.per_class_info.len() ==> self.per_class[i] == old(self).per_class[i]
                        && self.per_class_info[i] == old(self).per_class_info[i],
                forall|id: int, a: usize|
                    #![trigger old(self).held(id).count(a)]
                    self.per_class_info.len() <= id && old(self).held(id).count(a) >= 1
                        ==> slitter.holder(a) == Some(depot()),
                slitter.ledger_spec().stocks(&old(slitter).ledger_spec(), Multiset::empty()),
                old(self).per_class_info.len() <= old(slitter).class_count() + 1,
                forall|id: int, a: usize|
                    #![trigger old(self).held(id).count(a)]
                    old(self).held(id).count(a) >= 1 ==> 1 <= id < old(self).per_class_info.len(),
                forall|class: Class, a: usize|
                    #![trigger slitter.depot_of(class).count(a)]
                    self.per_class_info.len() <= class@ && old(self).held(class@ as int).count(a) >= 1
                        ==> slitter.depot_of(class).count(a) >= 1,
                forall|class: Class, a: usize|
                    #![trigger slitter.depot_of(class).count(a)]
                    old(slitter).is_registered(class) && old(slitter).depot_of(class).count(a) >= 1
                        ==> slitter.depot_of(class).count(a) >= 1,
            ensures
                self.per_class_info.len() == 0,
            decreases self.per_class_info.len(),
        {
            let ghost before = *self;
            let ghost start = *slitter;
            let slot = match self.per_class_info.pop() {
                Some(slot) => slot,
                None => {
                    proof {
                        assert(self.per_class_info@ =~= before.per_class_info@);
                        assert forall|i: int| 0 <= i < self.per_class.len() implies self.slot_ok(
                            slitter,
                            i,
                        ) by {
                            assert(before.slot_ok(slitter, i));
                            assert(self.slot_ms(i) == before.slot_ms(i));
                        }
                    }
                    break ;
                },
            };
            let index = self.per_class_info.len();
            let mut mags = Magazines { alloc: Magazine::default(), release: Magazine::default() };
            core::mem::swap(&mut mags, &mut self.per_class[index]);
            proof {
                assert(before.slot_ok(slitter, index as int));
                lemma_seq_multiset(mags.alloc@);
                lemma_seq_multiset(mags.release@);
                lemma_seq_multiset(Seq::<usize>::empty());
            }
            if let Some(class) = slot.info {
                let ghost local = optional(slot.cache@);
                let ghost alloc_ms = mags.alloc@.to_multiset();
                let ghost release_ms = mags.release@.to_multiset();
                proof {
                    assert(mags.alloc@.to_multiset().add(mags.release@.to_multiset().add(local))
                        =~= before.slot_ms(index as int));
                }
                slitter.release_magazine(
                    class,
                    mags.alloc,
                    Ghost(me),
                    Ghost(mags.release@.to_multiset().add(local)),
                );
                proof {
                    slitter.lemma_owns_follows(&start, class, mags.release@);
                    if let Some(contents) = slot.cache@ {
                        slitter.lemma_owns_follows(&start, class, contents);
                    }
                }
                let ghost second = *slitter;
                slitter.release_magazine(class, mags.release, Ghost(me), Ghost(local));
                proof {
                    if let Some(contents) = slot.cache@ {
                        slitter.lemma_owns_follows(&second, class, contents);
                    }
                    lemma_stepped_is_transitive(&start, &second, slitter, me);
                }
                let ghost third = *slitter;
                match slot.cache {
                    LocalMagazineCache::Nothing => (),
                    LocalMagazineCache::Empty(mag) => {
                        proof {
                            assert(mag@.to_multiset().add(Multiset::empty()) =~= local);
                        }
                        slitter.release_magazine(class, mag, Ghost(me), Ghost(Multiset::empty()));
                        proof {
                            lemma_stepped_is_transitive(&start, &third, slitter, me);
                        }
                    },
                    LocalMagazineCache::Full(mag) => {
                        proof {
                            assert(mag@.to_multiset().add(Multiset::empty()) =~= local);
                        }
                        slitter.release_magazine(class, mag, Ghost(me), Ghost(Multiset::empty()));
                        proof {
                            lemma_stepped_is_transitive(&start, &third, slitter, me);
                        }
                    },
                }
                proof {
                    assert(slitter.depot_of(class) == local.add(third.depot_of(class)));
                    assert forall|other: Class, a: usize|
                        #![trigger slitter.depot_of(other).count(a)]
                        start.is_registered(other) && start.depot_of(other).count(a)
                            >= 1 implies slitter.depot_of(other).count(a) >= 1 by {
                        if other != class {
                            assert(second.depot_of(other) == start.depot_of(other));
                            assert(third.depot_of(other) == second.depot_of(other));
                            assert(slitter.depot_of(other) == third.depot_of(other));
                        }
                    }
                    assert forall|other: Class, a: usize|
                        #![trigger slitter.depot_of(other).count(a)]
                        self.per_class_info.len() <= other@ && old(self).held(other@ as int).count(a)
                            >= 1 implies slitter.depot_of(other).count(a) >= 1 by {
                        if other@ == index {
                            crate::class::lemma_class_registry_is_deterministic(&start, class);
                            assert(other == class);
                            assert(old(self).held(index as int) == before.slot_ms(index as int));
                            assert(before.slot_ms(index as int).count(a) == alloc_ms.count(a)
                                + release_ms.count(a) + local.count(a));
                        } else {
                            assert(1 <= other@ < old(self).per_class_info.len());
                            assert(start.is_registered(other));
                            assert(start.depot_of(other).count(a) >= 1);
                        }
                    }
                    lemma_stepped_is_transitive(old(slitter), &start, slitter, me);
                    assert forall|i: int| 0 <= i < self.per_class.len() implies self.slot_ok(
                        slitter,
                        i,
                    ) by {
                        assert(before.slot_ok(&start, i));
                        if i != index {
                            assert(self.per_class[i] == before.per_class[i]);
                            if 1 <= i < index {
                                assert(self.per_class_info[i] == before.per_class_info[i]);
                                self.lemma_slots_after_teardown(
                                    &before,
                                    &start,
                                    &second,
                                    &third,
                                    slitter,
                                    class,
                                    i,
                                );
                            } else if i == 0 {
                                assert(self.per_class_info[i] == before.per_class_info[i]);
                            }
                        } else {
                            assert(!self.per_class[i].release.storage_spec());
                        }
                    }
                }
            } else {
                // This must be the padding slot at index 0.
                slitter.release_empty_magazine(mags.alloc);
                let ghost second = *slitter;
                slitter.release_empty_magazine(mags.release);
                proof {
                    lemma_follows_is_transitive(&start, &second, slitter);
                    lemma_follows_is_transitive(old(slitter), &start, slitter);
                    assert forall|i: int| 0 <= i < self.per_class.len() implies self.slot_ok(
                        slitter,
                        i,
                    ) by {
                        assert(before.slot_ok(&start, i));
                        if i != index {
                            assert(self.per_class[i] == before.per_class[i]);
                            if i < index {
                                assert(self.per_class_info[i] == before.per_class_info[i]);
                            }
                            assert(self.slot_ms(i) == before.slot_ms(i)) by {
                                if i >= index {
                                    assert(before.slot_ms(i) =~= self.slot_ms(i)) by {
                                        lemma_seq_multiset(before.per_class[i].alloc@);
                                        lemma_seq_multiset(before.per_class[i].release@);
                                    }
                                }
                            }
                            before.lemma_slot_follows(&start, slitter, i);
                        } else {
                            assert(!self.per_class[i].release.storage_spec());
                        }
                    }
                }
            }
        }
        proof {
            assert forall|class: Class, a: usize|
                #![trigger slitter.depot_of(class).count(a)]
                old(self).held(class@ as int).count(a) >= 1 implies slitter.depot_of(class).count(a)
                == 1 by {
                assert(1 <= class@ < old(self).per_class_info.len());
                slitter.lemma_depot_is_held(class, a);
            }
            assert forall|id: int| self.alloc_of(id).len() == 0 && self.release_of(id).len()
                == 0 by {
                if 0 <= id < self.per_class.len() {
                    assert(self.slot_ok(slitter, id));
                }
            }
            assert forall|id: int| self.held(id) == Multiset::<usize>::empty() by {
                if 0 <= id < self.per_class.len() {
                    assert(self.slot_ok(slitter, id));
                    lemma_seq_multiset(self.per_class[id].alloc@);
                    lemma_seq_multiset(self.per_class[id].release@);
                    assert(self.slot_ms(id) =~= Multiset::<usize>::empty());
                }
            }
        }
        if self.per_class_is_owned {
            // Replace the magazine array with a dummy, and drop it.
            // An empty array is correct: `per_class_info.len() == 0`.
            self.per_class = Vec::new();
        }
        // If we don't own the `per_class` array, it's safe to leave
        // it here: it has been fully reset to default `Magazines`
        // that do not own anything.

    }

    /// The slots other than the one of `class` are in order after the
    /// cache handed the magazines of `class` back in up to three
    /// steps.
    proof fn lemma_slots_after_teardown<M: Mapper>(
        &self,
        before: &Cache,
        start: &Slitter<M>,
        second: &Slitter<M>,
        third: &Slitter<M>,
        slitter: &Slitter<M>,
        class: Class,
        i: int,
    )
        requires
            start.wf(),
            second.wf(),
            third.wf(),
            slitter.wf(),
            before.wf(start),
            start.is_registered(class),
            second.follows(start),
            third.follows(second),
            slitter.follows(third),
            second.chunks_spec() == start.chunks_spec(),
            third.chunks_spec() == start.chunks_spec(),
            slitter.chunks_spec() == start.chunks_spec(),
            second.ledger_spec().frames(&start.ledger_spec(), &start.chunks_spec(), class@),
            third.ledger_spec().frames(&second.ledger_spec(), &start.chunks_spec(), class@),
            slitter == third || slitter.ledger_spec().frames(
                &third.ledger_spec(),
                &start.chunks_spec(),
                class@,
            ),
            1 <= i < self.per_class_info.len(),
            i != class@,
            self.id == before.id,
            self.per_class.len() == before.per_class.len(),
            self.per_class.len() >= before.per_class_info.len(),
            self.per_class_info.len() <= before.per_class_info.len(),
            self.per_class[i] == before.per_class[i],
            self.per_class_info[i] == before.per_class_info[i],
        ensures
            self.slot_ok(slitter, i),
    {
        broadcast use vstd::multiset::group_multiset_axioms;

        lemma_follows_is_transitive(start, second, third);
        lemma_follows_is_transitive(start, third, slitter);
        assert(before.slot_ok(start, i));
        {
            assert(self.slot_ms(i) == before.slot_ms(i));
            let other = self.per_class_info[i].info->0;
            start.lemma_info_has_id(other);
            assert forall|a: usize|
                #![trigger slitter.ledger_spec().holder(a)]
                before.slot_ms(i).count(a) >= 1 implies slitter.ledger_spec().holder(a)
                == start.ledger_spec().holder(a) && slitter.ledger_spec().stale(a)
                == start.ledger_spec().stale(a) by {
                let mags = before.per_class[i];
                if mags.alloc@.to_multiset().count(a) >= 1 {
                    start.info_of(i).lemma_held_is_owned(&start.chunks_spec(), mags.alloc@, a);
                } else if mags.release@.to_multiset().count(a) >= 1 {
                    start.info_of(i).lemma_held_is_owned(&start.chunks_spec(), mags.release@, a);
                } else {
                    let contents = before.per_class_info[i].cache@->0;
                    start.info_of(i).lemma_held_is_owned(&start.chunks_spec(), contents, a);
                }
                assert(second.ledger_spec().holder(a) == start.ledger_spec().holder(a));
                assert(third.ledger_spec().holder(a) == second.ledger_spec().holder(a));
                assert(second.ledger_spec().stale(a) == start.ledger_spec().stale(a));
                assert(third.ledger_spec().stale(a) == second.ledger_spec().stale(a));
            }
            before.lemma_slot_follows(start, slitter, i);
            assert(before.slot_ok(slitter, i));
        }
    }
}

/// What a cache holds for a class, it holds once, and nobody else has
/// it: no other cache, no magazine of any class, no caller, and no
/// press among the objects that it has left.
pub proof fn lemma_cached_is_exclusive<M: Mapper>(
    slitter: &Slitter<M>,
    cache: &Cache,
    other_cache: &Cache,
    class_id: int,
    other: Class,
    a: usize,
)
    requires
        slitter.wf(),
        cache.wf(slitter),
        other_cache.wf(slitter),
        cache.id() != other_cache.id(),
        slitter.is_registered(other),
        cache.held(class_id).count(a) >= 1,
    ensures
        cache.held(class_id).count(a) == 1,
        slitter.holder(a) == Some(cache.id()),
        slitter.holder(a) != Some(caller()),
        forall|id: int| other_cache.held(id).count(a) == 0,
        forall|id: int| id != class_id ==> cache.held(id).count(a) == 0,
        slitter.depot_of(other).count(a) == 0,
        !slitter.has_left(other, a),
{
    broadcast use vstd::multiset::group_multiset_axioms;

    cache.lemma_held_is_held(slitter, class_id, a);
    assert forall|id: int| other_cache.held(id).count(a) == 0 by {
        if other_cache.held(id).count(a) >= 1 {
            other_cache.lemma_held_is_held(slitter, id, a);
        }
    }
    if slitter.depot_of(other).count(a) >= 1 {
        slitter.lemma_depot_is_held(other, a);
    }
    if slitter.has_left(other, a) {
        slitter.lemma_left_is_unheld(other, a);
    }
    assert forall|id: int| id != class_id implies cache.held(id).count(a) == 0 by {
        if cache.held(id).count(a) >= 1 {
            cache.lemma_held_is_held(slitter, id, a);
            cache.lemma_slot_is_owned(slitter, id, a);
            cache.lemma_slot_is_owned(slitter, class_id, a);
            let first = cache.per_class_info[id].info->0;
            let second = cache.per_class_info[class_id].info->0;
            assert(cache.slot_ok(slitter, id));
            assert(cache.slot_ok(slitter, class_id));
            slitter.lemma_owned_by_one_class(first, second, a);
        }
    }
}

/// What the magazines of a class hold, they hold once, and nobody else
/// has it: no cache, no magazine of another class, no caller, and no
/// press among the objects that it has left.
pub proof fn lemma_depot_is_exclusive<M: Mapper>(
    slitter: &Slitter<M>,
    cache: &Cache,
    class: Class,
    other: Class,
    a: usize,
)
    requires
        slitter.wf(),
        cache.wf(slitter),
        slitter.is_registered(class),
        slitter.is_registered(other),
        slitter.depot_of(class).count(a) >= 1,
    ensures
        slitter.depot_of(class).count(a) == 1,
        slitter.holder(a) == Some(depot()),
        slitter.holder(a) != Some(caller()),
        forall|id: int| cache.held(id).count(a) == 0,
        other != class ==> slitter.depot_of(other).count(a) == 0,
        !slitter.has_left(other, a),
{
    slitter.lemma_depot_is_held(class, a);
    assert forall|id: int| cache.held(id).count(a) == 0 by {
        if cache.held(id).count(a) >= 1 {
            cache.lemma_held_is_held(slitter, id, a);
        }
    }
    if other != class && slitter.depot_of(other).count(a) >= 1 {
        slitter.lemma_depot_is_held(other, a);
        slitter.lemma_owned_by_one_class(class, other, a);
    }
    if slitter.has_left(other, a) {
        slitter.lemma_left_is_unheld(other, a);
    }
}

/// What a caller holds, nobody else has: no cache, no magazine of any
/// class, and no press among the objects that it has left.
pub proof fn lemma_live_is_exclusive<M: Mapper>(
    slitter: &Slitter<M>,
    cache: &Cache,
    other: Class,
    a: usize,
)
    requires
        slitter.wf(),
        cache.wf(slitter),
        slitter.is_registered(other),
        slitter.holder(a) == Some(caller()),
    ensures
        forall|id: int| cache.held(id).count(a) == 0,
        slitter.depot_of(other).count(a) == 0,
        !slitter.has_left(other, a),
{
    assert forall|id: int| cache.held(id).count(a) == 0 by {
        if cache.held(id).count(a) >= 1 {
            cache.lemma_held_is_held(slitter, id, a);
        }
    }
    if slitter.depot_of(other).count(a) >= 1 {
        slitter.lemma_depot_is_held(other, a);
    }
    if slitter.has_left(other, a) {
        slitter.lemma_left_is_unheld(other, a);
    }
}

/// A step for a holder after a step for that holder is a step for that
/// holder.
pub proof fn lemma_stepped_is_transitive<M: Mapper>(
    first: &Slitter<M>,
    second: &Slitter<M>,
    third: &Slitter<M>,
    holder: int,
)
    requires
        second.stepped(first, holder),
        third.stepped(second, holder),
    ensures
        third.stepped(first, holder),
{
    lemma_follows_is_transitive(first, second, third);
    third.ledger_spec().lemma_spares_is_transitive(
        &first.ledger_spec(),
        &second.ledger_spec(),
        holder,
    );
}

/// What followed what followed a state followed that state.
pub proof fn lemma_follows_is_transitive<M: Mapper>(
    first: &Slitter<M>,
    second: &Slitter<M>,
    third: &Slitter<M>,
)
    requires
        second.follows(first),
        third.follows(second),
    ensures
        third.follows(first),
{
    crate::press::lemma_extends_is_transitive(
        &first.chunks_spec(),
        &second.chunks_spec(),
        &third.chunks_spec(),
    );
    assert forall|id: int| 1 <= id <= first.class_count() implies (#[trigger] third.info_of(
        id,
    )).same_class(&first.info_of(id)) by {
        assert(second.info_of(id).same_class(&first.info_of(id)));
        assert(third.info_of(id).same_class(&second.info_of(id)));
    }
}

/// Whether `ledger` may follow `old` after a step with the help of
/// `cache`, or without the help of a cache: what any other cache or any
/// caller held, it still holds, as stale as it was, but for the object
/// at `except`.
pub open spec fn spared(
    ledger: &crate::ledger::Ledger,
    old: &crate::ledger::Ledger,
    cache: Option<&mut Cache>,
    except: Option<usize>,
) -> bool {
    &&& ledger.keeps_live(old, except)
    &&& match cache {
        Some(cache) => match except {
            Some(taken) => ledger.spares_but(old, cache.id(), taken),
            None => ledger.spares(old, cache.id()),
        },
        None => ledger.shields(old, except),
    }
}

/// The address that an allocation of `class` returns, as far as it is
/// settled before the allocation.
pub open spec fn next_allocation<M: Mapper>(
    cache: Option<&mut Cache>,
    slitter: &Slitter<M>,
    class: Class,
) -> Option<usize> {
    match cache {
        Some(cache) => cache.next_allocation(slitter, class),
        None => slitter.next_allocation(class),
    }
}

/// Attempts to return an allocation for an object of this `class`: with
/// the help of the thread's cache where the thread still has one, and
/// else without.
///
/// On success, the address is a place for an object of the class, a
/// caller holds the object from now on, and no caller held it.  Where
/// the class is zero-initialised, the object is not stale.
pub fn allocate<M: Mapper>(cache: Option<&mut Cache>, slitter: &mut Slitter<M>, class: Class) -> (ret:
    Option<LinearRef>)
    requires
        old(slitter).wf(),
        old(slitter).is_registered(class),
        cache matches Some(cache) ==> cache.wf(old(slitter)),
    ensures
        final(slitter).wf(),
        final(slitter).follows(old(slitter)),
        final(slitter).class_count() == old(slitter).class_count(),
        cache matches Some(cache) ==> final(cache).wf(final(slitter)) && final(cache).id()
            == cache.id(),
        spared(&final(slitter).ledger_spec(), &old(slitter).ledger_spec(), cache, None),
        final(slitter).counts_allocation(old(slitter), class, ret is Some),
        cache matches Some(cache) ==> final(cache).after_allocation(
            cache,
            old(slitter),
            class,
            match ret {
                Some(object) => Some(object@),
                None => None,
            },
        ),
        ret matches Some(object) ==> {
            &&& final(slitter).owns(class, object@)
            &&& object@ % old(slitter).info_of(class@ as int).layout@.1 == 0
            &&& final(slitter).holder(object@) == Some(caller())
            &&& old(slitter).holder(object@) != Some(caller())
            &&& old(slitter).info_of(class@ as int).zero_init ==> !final(slitter).stale(object@)
        },
        old(slitter).stocked(class) ==> ret is Some,
        next_allocation(cache, old(slitter), class) matches Some(address) ==> (
        ret matches Some(object) && object@ == address),
        final(slitter).keeps_classes(old(slitter)),
{
    let ret = match cache {
        Some(cache) => {
            proof {
                cache.lemma_id_is_positive(slitter);
            }
            cache.allocate(slitter, class)
        },
        None => slitter.allocate_slow(class),
    };
    proof {
        slitter.lemma_follows_keeps_classes(old(slitter));
    }
    ret
}

/// The slow path for the allocation.  The slow-path code is
/// identical to regular allocation, so it's always safe to call
/// this function.
#[allow(non_snake_case)]
pub fn slitter__allocate_slow<M: Mapper>(
    cache: Option<&mut Cache>,
    slitter: &mut Slitter<M>,
    class: Class,
) -> (ret: Option<LinearRef>)
    requires
        old(slitter).wf(),
        old(slitter).is_registered(class),
        cache matches Some(cache) ==> cache.wf(old(slitter)),
    ensures
        final(slitter).wf(),
        final(slitter).follows(old(slitter)),
        final(slitter).class_count() == old(slitter).class_count(),
        cache matches Some(cache) ==> final(cache).wf(final(slitter)) && final(cache).id()
            == cache.id(),
        spared(&final(slitter).ledger_spec(), &old(slitter).ledger_spec(), cache, None),
        final(slitter).counts_allocation(old(slitter), class, ret is Some),
        cache matches Some(cache) ==> final(cache).after_allocation(
            cache,
            old(slitter),
            class,
            match ret {
                Some(object) => Some(object@),
                None => None,
            },
        ),
        ret matches Some(object) ==> {
            &&& final(slitter).owns(class, object@)
            &&& object@ % old(slitter).info_of(class@ as int).layout@.1 == 0
            &&& final(slitter).holder(object@) == Some(caller())
            &&& old(slitter).holder(object@) != Some(caller())
            &&& old(slitter).info_of(class@ as int).zero_init ==> !final(slitter).stale(object@)
        },
        old(slitter).stocked(class) ==> ret is Some,
        next_allocation(cache, old(slitter), class) matches Some(address) ==> (
        ret matches Some(object) && object@ == address),
        final(slitter).keeps_classes(old(slitter)),
{
    let ret = match cache {
        Some(cache) => {
            proof {
                cache.lemma_id_is_positive(slitter);
            }
            cache.allocate_slow(slitter, class)
        },
        None => slitter.allocate_slow(class),
    };
    proof {
        slitter.lemma_follows_keeps_classes(old(slitter));
    }
    ret
}

/// Returns an allocation that a caller holds back to this `class`:
/// with the help of the thread's cache where the thread still has one,
/// and else without.
///
/// No caller holds the object afterwards.
pub fn release<M: Mapper>(
    cache: Option<&mut Cache>,
    slitter: &mut Slitter<M>,
    class: Class,
    block: LinearRef,
)
    requires
        old(slitter).wf(),
        old(slitter).is_registered(class),
        old(slitter).owns(class, block@),
        old(slitter).holder(block@) == Some(caller()),
        cache matches Some(cache) ==> cache.wf(old(slitter)),
    ensures
        final(slitter).wf(),
        final(slitter).follows(old(slitter)),
        final(slitter).class_count() == old(slitter).class_count(),
        final(slitter).chunks_spec() == old(slitter).chunks_spec(),
        cache matches Some(cache) ==> final(cache).wf(final(slitter)) && final(cache).id()
            == cache.id(),
        spared(&final(slitter).ledger_spec(), &old(slitter).ledger_spec(), cache, Some(block@)),
        final(slitter).counts_release(old(slitter), class),
        final(slitter).holder(block@) is Some,
        final(slitter).holder(block@) != Some(caller()),
        final(slitter).stale(block@),
        final(slitter).keeps_classes(old(slitter)),
        cache is None ==> final(slitter).stocked(class),
        cache matches Some(cache) ==> final(cache).after_release(cache, class, block@),
        match cache {
            Some(cache) => final(cache).held(class@ as int).count(block@) == 1
                && final(slitter).holder(block@) == Some(cache.id()),
            None => final(slitter).depot_of(class).count(block@) == 1 && final(slitter).holder(block@)
                == Some(depot()),
        },
{
    match cache {
        Some(cache) => {
            proof {
                cache.lemma_id_is_positive(slitter);
            }
            cache.release(slitter, class, block)
        },
        None => slitter.release_slow(class, block),
    }
    proof {
        slitter.lemma_follows_keeps_classes(old(slitter));
    }
}

/// The slow path for the release.  The slow-path code is identical
/// to the regular release call, so it's always safe to call this
/// function.
#[allow(non_snake_case)]
pub fn slitter__release_slow<M: Mapper>(
    cache: Option<&mut Cache>,
    slitter: &mut Slitter<M>,
    class: Class,
    block: LinearRef,
)
    requires
        old(slitter).wf(),
        old(slitter).is_registered(class),
        old(slitter).owns(class, block@),
        old(slitter).holder(block@) == Some(caller()),
        cache matches Some(cache) ==> cache.wf(old(slitter)),
    ensures
        final(slitter).wf(),
        final(slitter).follows(old(slitter)),
        final(slitter).class_count() == old(slitter).class_count(),
        final(slitter).chunks_spec() == old(slitter).chunks_spec(),
        cache matches Some(cache) ==> final(cache).wf(final(slitter)) && final(cache).id()
            == cache.id(),
        spared(&final(slitter).ledger_spec(), &old(slitter).ledger_spec(), cache, Some(block@)),
        final(slitter).counts_release(old(slitter), class),
        final(slitter).holder(block@) is Some,
        final(slitter).holder(block@) != Some(caller()),
        final(slitter).stale(block@),
        final(slitter).keeps_classes(old(slitter)),
        cache is None ==> final(slitter).stocked(class),
        cache matches Some(cache) ==> final(cache).after_release(cache, class, block@),
        match cache {
            Some(cache) => final(cache).held(class@ as int).count(block@) == 1
                && final(slitter).holder(block@) == Some(cache.id()),
            None => final(slitter).depot_of(class).count(block@) == 1 && final(slitter).holder(block@)
                == Some(depot()),
        },
{
    match cache {
        Some(cache) => {
            proof {
                cache.lemma_id_is_positive(slitter);
            }
            cache.release_slow(slitter, class, block)
        },
        None => slitter.release_slow(class, block),
    }
    proof {
        slitter.lemma_follows_keeps_classes(old(slitter));
    }
}

} // verus!
