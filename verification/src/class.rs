//! An allocation class represents a set of type-stable objects that
//! all have the same size (the allocator never overwrites an
//! allocation with internal metadata, even once freed).  Allocation
//! and deallocation calls must have matching `Class` structs, even if
//! objects from different classes have the same size: callers may
//! rely on type stability.
use vstd::prelude::*;

use crate::chunks::Chunks;
use crate::layout::Layout;
use crate::ledger::caller;
use crate::ledger::depot;
use crate::ledger::lemma_total_member;
use crate::ledger::optional;
use crate::ledger::total;
use crate::ledger::Ledger;
use crate::linear_ref::LinearRef;
use crate::magazine::one;
use crate::magazine::LocalMagazineCache;
use crate::magazine::Magazine;
use crate::magazine::PopMagazine;
use crate::magazine::PushMagazine;
use crate::magazine_impl::MAGAZINE_SIZE;
use crate::magazine_stack::MagazineStack;
use crate::mapper::Mapper;
use crate::mill::Mill;
use crate::mill::MAX_SPAN_SIZE;
use crate::press::is_allocation_of;
use crate::press::Press;
use crate::press::MAX_OBJECT_ALIGNMENT;
use crate::rack::Rack;

verus! {

/// External callers interact with allocation classes via this
/// opaque Class struct.  It stands for the id of the class, which is
/// never zero.
#[derive(Clone, Copy, PartialEq, Eq, Structural, Hash, PartialOrd, Ord, Debug)]
pub struct Class {
    id: u32,
}

impl View for Class {
    type V = u32;

    closed spec fn view(&self) -> u32 {
        self.id
    }
}

impl Class {
    #[verifier::type_invariant]
    spec fn non_zero(self) -> bool {
        self.id != 0
    }

    /// Returns the `Class`'s underlying id.
    pub fn id(self) -> (ret: u32)
        ensures
            ret == self@,
            ret != 0,
    {
        proof {
            use_type_invariant(self);
        }
        self.id
    }
}

/// When created, a class is configured with an object size, and an
/// optional name.
pub struct ClassConfig {
    pub name: Option<String>,
    pub layout: Layout,
    pub zero_init: bool,
    pub mapper_name: Option<String>,
}

/// The internal information about a configured class.
pub struct ClassInfo {
    pub name: Option<String>,
    pub layout: Layout,
    /// Fully populated magazines go in `full_mags`.
    pub full_mags: MagazineStack,
    /// Partially populated, but non-empty, magazines go in `partial_mags`.
    /// Empty magazines go back to the `Rack`.
    pub partial_mags: MagazineStack,
    /// Use this `Press` to allocate new objects.
    pub press: Press,
    pub id: Class,
    /// Whether allocations should be zero-filled.
    pub zero_init: bool,
}

impl ClassInfo {
    /// Whether `address` is a place for an object of the class: it is
    /// not zero, it is aligned, and the address arithmetic finds for
    /// it metadata with the id of the class.
    pub open spec fn owns(&self, chunks: &Chunks, address: usize) -> bool {
        self.press.object_ok(chunks, address)
    }

    /// Whether every address in `contents` is a place for an object
    /// of the class.
    pub open spec fn owns_all(&self, chunks: &Chunks, contents: Seq<usize>) -> bool {
        forall|i: int| 0 <= i < contents.len() ==> self.owns(chunks, #[trigger] contents[i])
    }

    /// Whether the magazine that `cache` holds, if it holds one, is a
    /// valid magazine of objects of the class.
    pub open spec fn cache_ok(&self, chunks: &Chunks, cache: &LocalMagazineCache) -> bool {
        &&& cache.wf()
        &&& cache@ matches Some(contents) ==> self.owns_all(chunks, contents)
    }

    /// The press works for this class, the magazines in `full_mags`
    /// are full, those in `partial_mags` are neither full nor empty,
    /// and all of them hold places for objects of the class.
    pub open spec fn wf(&self, chunks: &Chunks) -> bool {
        &&& self.full_mags.wf()
        &&& self.partial_mags.wf()
        &&& self.press.wf(chunks)
        &&& self.press.class_spec() == self.id
        &&& self.press.layout_spec() == self.layout
        &&& forall|i: int|
            0 <= i < self.full_mags@.len() ==> (#[trigger] self.full_mags@[i]).len()
                == MAGAZINE_SIZE && self.owns_all(chunks, self.full_mags@[i])
        &&& forall|i: int|
            0 <= i < self.partial_mags@.len() ==> 0 < (#[trigger] self.partial_mags@[i]).len()
                < MAGAZINE_SIZE && self.owns_all(chunks, self.partial_mags@[i])
    }

    /// What the magazine holds that an allocation takes its object
    /// from, where an object is at hand without the press: the full
    /// magazine of `cache`, else the first of the partial magazines,
    /// else the first of the full ones.
    pub open spec fn cached_source(&self, cache: &LocalMagazineCache) -> Option<Seq<usize>> {
        if *cache is Full {
            cache@
        } else if self.partial_mags@.len() > 0 {
            Some(self.partial_mags@[0])
        } else if self.full_mags@.len() > 0 {
            Some(self.full_mags@[0])
        } else {
            None
        }
    }

    /// What the magazine holds that a release puts its object in,
    /// where the magazine of the thread is full: what the first of the
    /// partial magazines holds, unless `cache` has an empty magazine;
    /// else nothing.
    pub open spec fn spill_target(&self, cache: &LocalMagazineCache) -> Seq<usize> {
        if *cache is Empty {
            Seq::empty()
        } else if self.partial_mags@.len() > 0 {
            self.partial_mags@[0]
        } else {
            Seq::empty()
        }
    }

    /// What the magazines of the class hold, all together.
    pub open spec fn depot_ms(&self) -> vstd::multiset::Multiset<usize> {
        total(self.full_mags@).add(total(self.partial_mags@))
    }

    /// Whether the ledger has it right for the class: the depot holds
    /// what is in the magazines of the class, nothing twice; what the
    /// depot holds of the class is in a magazine of the class; and
    /// nobody holds what the press has left.
    pub open spec fn books_ok(&self, chunks: &Chunks, ledger: &Ledger) -> bool {
        &&& ledger.holds(depot(), self.depot_ms())
        &&& self.stored(chunks, ledger)
        &&& self.press.unreserved_ok(chunks, ledger)
    }

    /// Whether every object of the class that the depot holds is in a
    /// magazine of the class.
    pub open spec fn stored(&self, chunks: &Chunks, ledger: &Ledger) -> bool {
        forall|a: usize|
            #![trigger ledger.holder(a)]
            ledger.holder(a) == Some(depot()) && chunks.class_of(a as int) == Some(self.id@)
                ==> self.depot_ms().count(a) >= 1
    }

    /// Whether the class is valid and the ledger has it right for the
    /// class.
    pub open spec fn sound(&self, chunks: &Chunks, ledger: &Ledger) -> bool {
        self.wf(chunks) && self.books_ok(chunks, ledger)
    }

    /// Whether `ledger` may follow `old` after the class worked for
    /// `holder`: only objects of the class moved, and only between
    /// the press, the depot and `holder`.
    pub open spec fn stepped(&self, chunks: &Chunks, old: &Ledger, ledger: &Ledger, holder: int) -> bool {
        ledger.spares(old, holder) && ledger.frames(old, chunks, self.id@) && ledger.same_counts(old)
    }

    /// What a magazine of the class holds is a place for an object of
    /// the class.
    pub proof fn lemma_depot_is_owned(&self, chunks: &Chunks, a: usize)
        requires
            self.wf(chunks),
            self.depot_ms().count(a) >= 1,
        ensures
            self.owns(chunks, a),
    {
        broadcast use vstd::multiset::group_multiset_axioms;

        if total(self.full_mags@).count(a) >= 1 {
            lemma_total_member(self.full_mags@, a);
            let (i, k) = choose|i: int, k: int|
                0 <= i < self.full_mags@.len() && 0 <= k < self.full_mags@[i].len()
                    && #[trigger] self.full_mags@[i][k] == a;
            assert(self.owns_all(chunks, self.full_mags@[i]));
        } else {
            lemma_total_member(self.partial_mags@, a);
            let (i, k) = choose|i: int, k: int|
                0 <= i < self.partial_mags@.len() && 0 <= k < self.partial_mags@[i].len()
                    && #[trigger] self.partial_mags@[i][k] == a;
            assert(self.owns_all(chunks, self.partial_mags@[i]));
        }
    }

    /// What a sequence of places for objects of the class holds is a
    /// place for an object of the class.
    pub proof fn lemma_held_is_owned(&self, chunks: &Chunks, contents: Seq<usize>, a: usize)
        requires
            self.owns_all(chunks, contents),
            contents.to_multiset().count(a) >= 1,
        ensures
            self.owns(chunks, a),
    {
        crate::ledger::lemma_seq_multiset(contents);
        assert(contents.contains(a));
        let k = choose|k: int| 0 <= k < contents.len() && contents[k] == a;
        assert(self.owns(chunks, contents[k]));
    }

    /// The class stays sound while the chunks live on and the ledger
    /// says of the objects of the class what it said.
    pub proof fn lemma_sound_frame(
        &self,
        old_chunks: &Chunks,
        chunks: &Chunks,
        old_ledger: &Ledger,
        ledger: &Ledger,
    )
        requires
            old_chunks.wf(),
            chunks.wf(),
            self.sound(old_chunks, old_ledger),
            chunks.extends(old_chunks),
            old_ledger.wf(old_chunks),
            ledger.wf(chunks),
            ledger.keeps_sizes(old_ledger),
            forall|a: usize|
                #![trigger ledger.holder(a)]
                old_chunks.class_of(a as int) == Some(self.id@) ==> ledger.holder(a)
                    == old_ledger.holder(a),
            forall|a: usize|
                #![trigger ledger.holder(a)]
                old_ledger.holder(a) is None && ledger.holder(a) is Some ==> chunks.class_of(a as int)
                    != Some(self.id@),
        ensures
            self.sound(chunks, ledger),
    {
        self.lemma_wf_extends(old_chunks, chunks);
        self.press.lemma_unreserved_frame(old_chunks, chunks, old_ledger, ledger);
        assert forall|a: usize|
            #![trigger self.depot_ms().count(a)]
            self.depot_ms().count(a) >= 1 implies ledger.holder(a) == Some(depot()) by {
            self.lemma_depot_is_owned(old_chunks, a);
        }
    }

    /// Whether `other` is this class at another time: the same id,
    /// the same layout, the same policy and the same mill.
    pub open spec fn same_class(&self, other: &ClassInfo) -> bool {
        &&& self.id == other.id
        &&& self.layout == other.layout
        &&& self.zero_init == other.zero_init
        &&& self.press.class_spec() == other.press.class_spec()
        &&& self.press.layout_spec() == other.press.layout_spec()
        &&& self.press.mill_spec() == other.press.mill_spec()
    }

    /// What the class owns, it owns for as long as the chunks live on.
    pub proof fn lemma_owns_all_extends(
        &self,
        old_info: &ClassInfo,
        old_chunks: &Chunks,
        chunks: &Chunks,
        contents: Seq<usize>,
    )
        requires
            old_info.owns_all(old_chunks, contents),
            self.same_class(old_info),
            chunks.extends(old_chunks),
        ensures
            self.owns_all(chunks, contents),
    {
        assert forall|i: int| 0 <= i < contents.len() implies self.owns(
            chunks,
            #[trigger] contents[i],
        ) by {
            assert(old_info.owns(old_chunks, contents[i]));
            old_info.press.lemma_object_ok_extends(old_chunks, chunks, contents[i]);
        }
    }

    /// A class stays valid while the chunks live on.
    pub proof fn lemma_wf_extends(&self, old_chunks: &Chunks, chunks: &Chunks)
        requires
            old_chunks.wf(),
            chunks.wf(),
            self.wf(old_chunks),
            chunks.extends(old_chunks),
        ensures
            self.wf(chunks),
    {
        self.press.lemma_wf_extends(old_chunks, chunks);
        assert forall|i: int| 0 <= i < self.full_mags@.len() implies self.owns_all(
            chunks,
            #[trigger] self.full_mags@[i],
        ) by {
            self.lemma_owns_all_extends(self, old_chunks, chunks, self.full_mags@[i]);
        }
        assert forall|i: int| 0 <= i < self.partial_mags@.len() implies self.owns_all(
            chunks,
            #[trigger] self.partial_mags@[i],
        ) by {
            self.lemma_owns_all_extends(self, old_chunks, chunks, self.partial_mags@[i]);
        }
    }
}

/// The position of the mill that `names` gives for `key`: the one of
/// the last entry for `key`, if there is one.
pub open spec fn named_mill(names: Seq<(String, usize)>, key: Seq<char>) -> Option<usize>
    decreases names.len(),
{
    if names.len() == 0 {
        None
    } else if names.last().0@ == key {
        Some(names.last().1)
    } else {
        named_mill(names.drop_last(), key)
    }
}

/// The process-wide state of the allocator: the registered classes in
/// the order of their ids, the rack of empty magazines, the mills with
/// the names of their mappers, and the committed chunks.
pub struct Slitter<M: Mapper> {
    classes: Vec<ClassInfo>,
    rack: Rack,
    /// The mills.  The first one is the default mill.
    mills: Vec<Mill<M>>,
    /// The names under which mappers were registered, each with the
    /// position of the mill for that mapper.
    names: Vec<(String, usize)>,
    chunks: Chunks,
    /// Who holds which object: a record for proofs.
    ledger: Ledger,
}

impl<M: Mapper> Slitter<M> {
    /// The number of registered classes, which is also the largest id
    /// of a class.
    pub closed spec fn class_count(&self) -> nat {
        self.classes@.len()
    }

    /// The information about the class with id `id`.
    pub closed spec fn info_of(&self, id: int) -> ClassInfo {
        self.classes@[id - 1]
    }

    /// The committed chunks.
    pub closed spec fn chunks_spec(&self) -> Chunks {
        self.chunks
    }

    /// The record of who holds which object.
    pub closed spec fn ledger_spec(&self) -> Ledger {
        self.ledger
    }

    /// The holder of the object at `address`: `caller()` for a live
    /// allocation, `depot()` for an object in a magazine of its class,
    /// the holder of a cache for an object in one of its magazines,
    /// and none for an object that no press handed out yet.
    pub open spec fn holder(&self, address: usize) -> Option<int> {
        self.ledger_spec().holder(address)
    }

    /// Whether the object at `address` was released by a caller and
    /// not filled with zeros since.
    pub open spec fn stale(&self, address: usize) -> bool {
        self.ledger_spec().stale(address)
    }

    /// What the magazines of `class` hold, all together.
    pub closed spec fn depot_of(&self, class: Class) -> vstd::multiset::Multiset<usize> {
        self.classes@[class@ - 1].depot_ms()
    }

    /// Whether the press of `class` has the object at `address` left
    /// in its current span.
    pub closed spec fn has_left(&self, class: Class, address: usize) -> bool {
        self.classes@[class@ - 1].press.has_left(&self.chunks, address)
    }

    /// The number of objects in the next batch that the press of
    /// `class` makes where a magazine is refilled: the object that
    /// comes back and those that go to the magazine.
    pub open spec fn refill_batch(&self, class: Class) -> int {
        self.info_of(class@ as int).press.upcoming_batch(
            &self.mill_of(class),
            &self.chunks_spec(),
            (MAGAZINE_SIZE + 1) as usize,
        )
    }

    /// Whether the press of `class` can make an object without new
    /// address space.
    pub open spec fn can_press(&self, class: Class) -> bool {
        self.info_of(class@ as int).press.can_allocate(&self.mill_of(class), &self.chunks_spec())
    }

    /// Whether the magazines of the classes of `old` other than
    /// `class` hold in `self` what they held.
    pub open spec fn keeps_depots(&self, old: &Slitter<M>, class: Class) -> bool {
        forall|other: Class|
            #![trigger self.depot_of(other)]
            old.is_registered(other) && other != class ==> self.depot_of(other) == old.depot_of(
                other,
            )
    }

    /// The size of the object at `address`: that of the objects of the
    /// class that owns the span at the address.
    pub open spec fn object_size(&self, address: usize) -> usize {
        self.ledger_spec().size_at(&self.chunks_spec(), address)
    }

    /// The number of storages of empty magazines that the rack keeps.
    pub closed spec fn spares(&self) -> nat {
        self.rack.spares()
    }

    /// The mill that provides the spans of `class`.
    pub closed spec fn mill_of(&self, class: Class) -> Mill<M> {
        self.mills@[self.classes@[class@ - 1].press.mill_spec() as int]
    }

    /// Whether `class` can serve an allocation without new address
    /// space: one of its magazines holds an object, or its press has an
    /// object left in its current span, or the chunk of its mill has
    /// room for a span of its objects.
    pub closed spec fn stocked(&self, class: Class) -> bool {
        let info = self.classes@[class@ - 1];
        info.partial_mags@.len() > 0 || info.full_mags@.len() > 0 || info.press.can_allocate(
            &self.mill_of(class),
            &self.chunks,
        )
    }

    /// The address that an allocation of `class` returns where the
    /// thread has no cache, as far as it is settled before the
    /// allocation: the object on top of the first partial magazine of
    /// the class, else the one on top of the first full magazine, else
    /// the next object that the press has left in its current span,
    /// else the first object of the next span that the chunk of the
    /// mill has room for.  Where none of these is there, the
    /// allocation needs new address space.
    pub open spec fn next_allocation(&self, class: Class) -> Option<usize> {
        let info = self.info_of(class@ as int);
        match info.cached_source(&LocalMagazineCache::Nothing) {
            Some(source) => Some(source.last()),
            None => if info.press.can_allocate(&self.mill_of(class), &self.chunks_spec()) {
                Some(info.press.upcoming(&self.mill_of(class), &self.chunks_spec()))
            } else {
                None
            },
        }
    }

    /// The number of mills.
    pub closed spec fn mill_count(&self) -> nat {
        self.mills@.len()
    }

    /// The position of the mill for the mapper named `name`, or of the
    /// default mill where there is no name.
    pub closed spec fn mill_for(&self, name: Option<Seq<char>>) -> Option<usize> {
        match name {
            None => Some(0usize),
            Some(key) => named_mill(self.names@, key),
        }
    }

    /// The mapper of the mill at `index`.
    pub closed spec fn mapper_of(&self, index: int) -> M {
        self.mills@[index].mapper_spec()
    }

    /// Whether `class` is a class of this allocator.
    pub open spec fn is_registered(&self, class: Class) -> bool {
        1 <= class@ <= self.class_count()
    }

    /// Whether `address` is a place for an object of `class`.
    pub open spec fn owns(&self, class: Class, address: usize) -> bool {
        self.info_of(class@ as int).owns(&self.chunks_spec(), address)
    }

    /// Whether every address in `contents` is a place for an object
    /// of `class`.
    pub open spec fn owns_all(&self, class: Class, contents: Seq<usize>) -> bool {
        self.info_of(class@ as int).owns_all(&self.chunks_spec(), contents)
    }

    /// Whether `cache` holds nothing but a valid magazine of objects
    /// of `class`.
    pub open spec fn cache_ok(&self, class: Class, cache: &LocalMagazineCache) -> bool {
        self.info_of(class@ as int).cache_ok(&self.chunks_spec(), cache)
    }

    /// The chunks, the rack, the mills and the classes are valid, the
    /// class at each position has the id that goes with the position,
    /// and every name stands for a mill.
    pub closed spec fn wf(&self) -> bool {
        &&& self.chunks.wf()
        &&& self.rack.wf()
        &&& self.classes.len() <= max_classes()
        &&& self.mills.len() >= 1
        &&& self.ledger.wf(&self.chunks)
        &&& forall|i: int|
            0 <= i < self.classes.len() ==> {
                &&& (#[trigger] self.classes[i]).sound(&self.chunks, &self.ledger)
                &&& self.classes[i].id@ == i + 1
                &&& self.classes[i].press.mill_spec() < self.mills.len()
            }
        &&& forall|j: int| 0 <= j < self.mills.len() ==> (#[trigger] self.mills[j]).wf(&self.chunks)
        &&& forall|k: int| 0 <= k < self.names.len() ==> (#[trigger] self.names[k]).1 < self.mills.len()
        &&& forall|class: u32|
            #![trigger self.ledger.size_of_class(class)]
            class == 0 || class > self.classes.len() ==> self.ledger.size_of_class(class) is None
    }

    /// Whether `self` may follow `old` in the life of the process: the
    /// classes of `old` are classes of `self`, each with the layout and
    /// the policy it had, and the chunks live on.
    pub open spec fn follows(&self, old: &Slitter<M>) -> bool {
        &&& old.class_count() <= self.class_count()
        &&& forall|id: int|
            1 <= id <= old.class_count() ==> (#[trigger] self.info_of(id)).same_class(
                &old.info_of(id),
            )
        &&& self.chunks_spec().extends(&old.chunks_spec())
    }

    /// The live allocations of `class`: the objects of the class that
    /// callers hold.
    pub open spec fn live(&self, class: Class) -> Set<usize> {
        self.ledger_spec().live_of(class@)
    }

    /// The number of allocations of `class` that succeeded.
    pub open spec fn allocated(&self, class: Class) -> nat {
        self.ledger_spec().allocated(class@)
    }

    /// The number of releases of objects of `class`.
    pub open spec fn released(&self, class: Class) -> nat {
        self.ledger_spec().released(class@)
    }

    /// Whether `self` counts as `old` does, but for one more
    /// allocation of `class` where `success` holds.
    pub open spec fn counts_allocation(&self, old: &Slitter<M>, class: Class, success: bool) -> bool {
        if success {
            self.ledger_spec().checked_out(&old.ledger_spec(), class@)
        } else {
            self.ledger_spec().same_counts(&old.ledger_spec())
        }
    }

    /// Whether `self` counts as `old` does, but for one more release
    /// of an object of `class`.
    pub open spec fn counts_release(&self, old: &Slitter<M>, class: Class) -> bool {
        self.ledger_spec().checked_in(&old.ledger_spec(), class@)
    }

    /// Whether `self` may follow `old` after a step for `holder`: the
    /// process lived on, and whatever another cache or a caller held,
    /// it still holds, as stale as it was.
    pub open spec fn stepped(&self, old: &Slitter<M>, holder: int) -> bool {
        self.follows(old) && self.ledger_spec().spares(&old.ledger_spec(), holder)
    }

    /// What the magazines of a class hold, the depot holds, and none
    /// of it twice; all of it is a place for an object of the class.
    pub proof fn lemma_depot_is_held(&self, class: Class, a: usize)
        requires
            self.wf(),
            self.is_registered(class),
            self.depot_of(class).count(a) >= 1,
        ensures
            self.depot_of(class).count(a) == 1,
            self.holder(a) == Some(depot()),
            self.owns(class, a),
    {
        let info = self.classes[class@ - 1];
        assert(info.sound(&self.chunks, &self.ledger));
        info.lemma_depot_is_owned(&self.chunks, a);
    }

    /// Nobody holds an object that a press has left.
    pub proof fn lemma_left_is_unheld(&self, class: Class, a: usize)
        requires
            self.wf(),
            self.is_registered(class),
            self.has_left(class, a),
        ensures
            self.holder(a) is None,
    {
        let info = self.classes[class@ - 1];
        assert(info.sound(&self.chunks, &self.ledger));
        info.press.lemma_left_is_unheld(&self.chunks, &self.ledger, a);
    }

    /// An object that somebody holds lies in a span that a class owns,
    /// and its holder is the depot, the callers, or a cache.
    pub proof fn lemma_held_is_carved(&self, a: usize)
        requires
            self.wf(),
            self.holder(a) is Some,
        ensures
            self.chunks_spec().class_of(a as int) is Some,
            self.holder(a) == Some(depot()) || self.ledger_spec().enrolled(self.holder(a)->0),
    {
    }

    /// The live allocations of a class are the objects in the spans of
    /// the class that callers hold, and they are as many as the
    /// allocations of the class that succeeded less the releases.
    pub proof fn lemma_live_count(&self, class: Class)
        requires
            self.wf(),
        ensures
            self.live(class).finite(),
            self.live(class).len() == self.allocated(class) - self.released(class),
            forall|a: usize|
                #![trigger self.live(class).contains(a)]
                self.live(class).contains(a) <==> self.holder(a) == Some(caller())
                    && self.chunks_spec().class_of(a as int) == Some(class@),
            forall|a: usize|
                #![trigger self.live(class).contains(a)]
                self.is_registered(class) && self.owns(class, a) && self.holder(a) == Some(caller())
                    ==> self.live(class).contains(a),
    {
        assert(self.ledger.counts_ok(&self.chunks));
        assert(self.ledger.live_of(class@).finite());
        if self.is_registered(class) {
            self.lemma_info_has_id(class);
        }
    }

    /// A live allocation of a class is held by no cache and by no
    /// depot, and is a live allocation of no other class.
    pub proof fn lemma_live_is_apart(&self, class: Class, other: Class, a: usize)
        requires
            self.wf(),
            self.live(class).contains(a),
        ensures
            self.holder(a) == Some(caller()),
            self.live(other).contains(a) ==> other == class,
    {
        self.lemma_live_count(class);
        self.lemma_live_count(other);
    }

    /// What the depot holds of a class is in a magazine of the class,
    /// once.
    pub proof fn lemma_stored_in_depot(&self, class: Class, a: usize)
        requires
            self.wf(),
            self.is_registered(class),
            self.holder(a) == Some(depot()),
            self.chunks_spec().class_of(a as int) == Some(class@),
        ensures
            self.depot_of(class).count(a) == 1,
    {
        self.lemma_info_has_id(class);
        let info = self.classes[class@ - 1];
        assert(info.sound(&self.chunks, &self.ledger));
        assert(self.ledger.holder(a) == Some(depot()));
        assert(info.depot_ms().count(a) >= 1);
        self.lemma_depot_is_held(class, a);
    }

    /// The objects that somebody holds lie apart: none of them is
    /// empty, and no two of them share a byte, whoever holds them and
    /// whatever their classes are.
    pub proof fn lemma_objects_are_apart(&self, a: usize, b: usize)
        requires
            self.wf(),
            self.holder(a) is Some,
            self.holder(b) is Some,
            a != b,
        ensures
            self.object_size(a) > 0,
            self.object_size(b) > 0,
            a + self.object_size(a) <= b || b + self.object_size(b) <= a,
    {
        self.ledger.lemma_held_are_apart(&self.chunks, a, b);
    }

    /// An object of a class has the size of the class.
    pub proof fn lemma_object_size(&self, class: Class, a: usize)
        requires
            self.wf(),
            self.is_registered(class),
            self.owns(class, a),
        ensures
            self.object_size(a) == self.info_of(class@ as int).layout@.0,
    {
        self.lemma_info_has_id(class);
        let info = self.classes[class@ - 1];
        assert(info.sound(&self.chunks, &self.ledger));
        info.press.lemma_size_is_known(&self.chunks, &self.ledger);
    }

    /// The mill of a class is a valid one: it takes its spans from a
    /// committed chunk, if from any.
    pub proof fn lemma_mill_is_valid(&self, class: Class)
        requires
            self.wf(),
            self.is_registered(class),
        ensures
            self.mill_of(class).wf(&self.chunks_spec()),
    {
        let info = self.classes[class@ - 1];
        assert(info.sound(&self.chunks, &self.ledger));
        assert(self.mills[info.press.mill_spec() as int].wf(&self.chunks));
    }

    /// A place for an object of a class is a place for an object of
    /// no other class.
    pub proof fn lemma_owned_by_one_class(&self, class: Class, other: Class, a: usize)
        requires
            self.wf(),
            self.is_registered(class),
            self.is_registered(other),
            self.owns(class, a),
            self.owns(other, a),
        ensures
            class == other,
    {
        self.lemma_info_has_id(class);
        self.lemma_info_has_id(other);
    }

    /// Whether the classes of `old` still own in `self` what they owned:
    /// a place for an object of a class in `old` is one in `self`.
    pub open spec fn keeps_classes(&self, old: &Slitter<M>) -> bool {
        forall|class: Class, a: usize|
            #![trigger self.owns(class, a)]
            old.is_registered(class) && old.owns(class, a) ==> self.is_registered(class)
                && self.owns(class, a)
    }

    /// The classes own what they owned for as long as the process
    /// lives.
    pub proof fn lemma_follows_keeps_classes(&self, old: &Slitter<M>)
        requires
            self.follows(old),
        ensures
            self.keeps_classes(old),
    {
        assert forall|class: Class, a: usize|
            #![trigger self.owns(class, a)]
            old.is_registered(class) && old.owns(class, a) implies self.is_registered(class)
            && self.owns(class, a) by {
            assert(old.owns_all(class, seq![a])) by {
                assert(seq![a][0] == a);
            }
            self.lemma_owns_follows(old, class, seq![a]);
            assert(self.owns(class, seq![a][0]));
        }
    }

    /// What a class owns, it owns for as long as the process lives.
    pub proof fn lemma_owns_follows(&self, old: &Slitter<M>, class: Class, contents: Seq<usize>)
        requires
            old.is_registered(class),
            self.follows(old),
            old.owns_all(class, contents),
        ensures
            self.is_registered(class),
            self.owns_all(class, contents),
    {
        assert(self.info_of(class@ as int).same_class(&old.info_of(class@ as int)));
        self.info_of(class@ as int).lemma_owns_all_extends(
            &old.info_of(class@ as int),
            &old.chunks_spec(),
            &self.chunks_spec(),
            contents,
        );
    }

    /// The class with id `id` has that id.
    pub proof fn lemma_info_has_id(&self, class: Class)
        requires
            self.wf(),
            self.is_registered(class),
        ensures
            self.info_of(class@ as int).id == class,
            self.info_of(class@ as int).press.class_spec() == class,
            self.info_of(class@ as int).press.layout_spec() == self.info_of(class@ as int).layout,
    {
        assert(self.classes[class@ - 1].wf(&self.chunks));
    }

    /// An allocator with no class and no chunk, whose default mill
    /// obtains its chunks from `mapper`.
    pub fn new(mapper: M) -> (ret: Self)
        ensures
            ret.wf(),
            ret.class_count() == 0,
            ret.mill_count() == 1,
            ret.mapper_of(0) == mapper,
            ret.mill_for(None) == Some(0usize),
            forall|key: Seq<char>| ret.mill_for(Some(key)) is None,
            forall|a: usize| #![trigger ret.holder(a)] ret.holder(a) is None,
            forall|a: usize| #![trigger ret.stale(a)] !ret.stale(a),
            ret.ledger_spec().cache_count() == 0,
            ret.chunks_spec().count() == 0,
            ret.spares() == 0,
            forall|id: u32|
                #![trigger ret.ledger_spec().live_of(id)]
                #![trigger ret.ledger_spec().allocated(id)]
                #![trigger ret.ledger_spec().released(id)]
                ret.ledger_spec().live_of(id) == Set::<usize>::empty() && ret.ledger_spec().allocated(
                    id,
                ) == 0 && ret.ledger_spec().released(id) == 0,
    {
        let mut mills = Vec::new();
        mills.push(Mill::new(mapper));
        let ret = Slitter {
            classes: Vec::new(),
            rack: Rack::new(),
            mills,
            names: Vec::new(),
            chunks: Chunks::new(),
            ledger: Ledger::new(),
        };
        assert forall|key: Seq<char>| ret.mill_for(Some(key)) is None by {
            assert(named_mill(ret.names@, key) is None);
        }
        ret
    }

    /// The committed chunks, with the metadata of their spans.
    pub fn chunks(&self) -> (ret: &Chunks)
        requires
            self.wf(),
        ensures
            *ret == self.chunks_spec(),
            ret.wf(),
    {
        &self.chunks
    }

    /// The mill that obtains its chunks from the default mapper.
    pub fn default_mill(&self) -> (ret: &Mill<M>)
        requires
            self.wf(),
        ensures
            ret.mapper_spec() == self.mapper_of(0),
            ret.wf(&self.chunks_spec()),
    {
        &self.mills[0]
    }

    /// The rack that keeps the empty magazines.
    pub fn default_rack(&self) -> (ret: &Rack)
        requires
            self.wf(),
        ensures
            ret.wf(),
    {
        &self.rack
    }

    /// The mapper of the mill at `index`.
    pub fn mapper_at(&self, index: usize) -> (ret: &M)
        requires
            index < self.mill_count(),
        ensures
            *ret == self.mapper_of(index as int),
    {
        self.mills[index].mapper()
    }

    /// Tells whether `address` is a place for an object of `class`:
    /// whether it is not zero, it is aligned as the class demands, an
    /// object fits between it and the end of the address space, and
    /// the metadata that the address arithmetic finds for it names the
    /// class.
    pub fn owns_block(&self, class: Class, address: usize) -> (ret: bool)
        requires
            self.wf(),
            self.is_registered(class),
        ensures
            ret == self.owns(class, address),
    {
        proof {
            self.lemma_info_has_id(class);
        }
        let info = &self.classes[class.id() as usize - 1];
        let size = info.layout.size();
        let align = info.layout.align();
        if address == 0 || address % align != 0 || address > usize::MAX - size {
            return false;
        }
        crate::press::check_allocation(&self.chunks, class, address).is_ok()
    }

    /// Finds the mill for the mapper named `name`, or the default
    /// mill where there is no name.
    ///
    /// # Errors
    ///
    /// Returns `Err` if no mapper was registered under that name.
    pub fn get_mill(&self, name: &Option<String>) -> (ret: Result<usize, &'static str>)
        requires
            self.wf(),
        ensures
            match self.mill_for(
                match name {
                    Some(key) => Some(key@),
                    None => None,
                },
            ) {
                Some(index) => ret == Ok::<usize, &'static str>(index) && index < self.mill_count(),
                None => ret == Err::<usize, &'static str>("Mapper not found"),
            },
    {
        match name {
            None => Ok(0),
            Some(key) => {
                let mut k = self.names.len();
                proof {
                    assert(self.names@.subrange(0, k as int) =~= self.names@);
                }
                while k > 0
                    invariant
                        k <= self.names.len(),
                        name is Some,
                        name->0@ == key@,
                        named_mill(self.names@, key@) == named_mill(
                            self.names@.subrange(0, k as int),
                            key@,
                        ),
                        forall|j: int|
                            0 <= j < self.names.len() ==> (#[trigger] self.names[j]).1
                                < self.mills.len(),
                    decreases k,
                {
                    proof {
                        let prefix = self.names@.subrange(0, k as int);
                        assert(prefix.last() == self.names@[k - 1]);
                        assert(prefix.drop_last() =~= self.names@.subrange(0, k - 1));
                        assert(named_mill(prefix, key@) == if prefix.last().0@ == key@ {
                            Some(prefix.last().1)
                        } else {
                            named_mill(prefix.drop_last(), key@)
                        });
                    }
                    k -= 1;
                    if self.names[k].0 == *key {
                        proof {
                            assert(self.names@[k as int].0@ == key@);
                            assert(self.names[k as int].1 < self.mills.len());
                            assert(named_mill(self.names@, key@) == Some(self.names@[k as int].1));
                        }
                        return Ok(self.names[k].1);
                    }
                }
                proof {
                    assert(self.names@.subrange(0, 0).len() == 0);
                }
                Err("Mapper not found")
            },
        }
    }

    /// Gives a cache a holder of its own.
    pub(crate) fn enroll(&mut self) -> (ret: Ghost<int>)
        requires
            old(self).wf(),
        ensures
            final(self).wf(),
            final(self).follows(old(self)),
            final(self).class_count() == old(self).class_count(),
            final(self).chunks_spec() == old(self).chunks_spec(),
            ret@ == old(self).ledger_spec().cache_count() + 1,
            final(self).ledger_spec().cache_count() == ret@,
            final(self).ledger_spec().same_counts(&old(self).ledger_spec()),
            final(self).ledger_spec().shields(&old(self).ledger_spec(), None),
            forall|a: usize| #![trigger final(self).holder(a)] final(self).holder(a) == old(self).holder(a),
            forall|a: usize| #![trigger final(self).stale(a)] final(self).stale(a) == old(self).stale(a),
            forall|a: usize| #![trigger final(self).holder(a)] final(self).holder(a) != Some(ret@),
            forall|class: Class|
                #![trigger final(self).info_of(class@ as int)]
                final(self).info_of(class@ as int) == old(self).info_of(class@ as int),
            forall|class: Class|
                #![trigger final(self).mill_of(class)]
                final(self).mill_of(class) == old(self).mill_of(class),
    {
        let ghost entry = self.ledger;
        let ret = self.ledger.enroll();
        proof {
            assert forall|i: int| 0 <= i < self.classes.len() implies (
            #[trigger] self.classes[i]).sound(&self.chunks, &self.ledger) by {
                assert(old(self).classes[i].sound(&old(self).chunks, &entry));
                self.classes[i].lemma_sound_frame(&self.chunks, &self.chunks, &entry, &self.ledger);
            }
            assert forall|j: int| 0 <= j < self.mills.len() implies (#[trigger] self.mills[j]).wf(
                &self.chunks,
            ) by {
                assert(old(self).mills[j].wf(&old(self).chunks));
            }
            assert forall|k: int| 0 <= k < self.names.len() implies (#[trigger] self.names[k]).1
                < self.mills.len() by {
                assert(old(self).names[k].1 < old(self).mills.len());
            }
            assert forall|id: int| 1 <= id <= old(self).class_count() implies (
            #[trigger] self.info_of(id)).same_class(&old(self).info_of(id)) by {}
        }
        ret
    }

    /// Records that a caller has the object at `address`, which
    /// `holder` had.
    pub(crate) fn check_out(&mut self, Ghost(address): Ghost<usize>, Ghost(holder): Ghost<int>)
        requires
            old(self).wf(),
            old(self).holder(address) == Some(holder),
            old(self).ledger_spec().is_cache(holder),
        ensures
            final(self).ledger_spec().checked_out(
                &old(self).ledger_spec(),
                old(self).chunks_spec().class_of(address as int)->0,
            ),
            final(self).wf(),
            final(self).follows(old(self)),
            final(self).class_count() == old(self).class_count(),
            final(self).chunks_spec() == old(self).chunks_spec(),
            final(self).ledger_spec().gave(
                &old(self).ledger_spec(),
                vstd::multiset::Multiset::singleton(address),
                caller(),
            ),
            forall|class: Class|
                #![trigger final(self).info_of(class@ as int)]
                final(self).info_of(class@ as int) == old(self).info_of(class@ as int),
    {
        broadcast use vstd::multiset::group_multiset_axioms;

        let ghost class = self.chunks.class_of(address as int)->0;
        proof {
            assert(self.ledger.holder(address) is Some);
            assert(!self.ledger.live_of(class).contains(address));
            assert(self.ledger.live_of(class).finite());
        }
        self.ledger.check_out(Ghost(address), Ghost(class));
        proof {
            let before = old(self).ledger;
            assert forall|other: u32, a: usize|
                #![trigger self.ledger.live_of(other).contains(a)]
                self.ledger.live_of(other).contains(a) <==> self.ledger.holder(a) == Some(caller())
                    && self.chunks.class_of(a as int) == Some(other) by {
                assert(before.live_of(other).contains(a) <==> before.holder(a) == Some(caller())
                    && self.chunks.class_of(a as int) == Some(other));
            }
            assert forall|other: u32|
                #![trigger self.ledger.live_of(other)]
                self.ledger.live_of(other).finite() && self.ledger.live_of(other).len()
                    + self.ledger.released(other) == self.ledger.allocated(other) by {
                assert(before.live_of(other).finite());
            }
            self.lemma_after_ledger_step(old(self), address);
        }
    }

    /// Records that `holder` has the object at `address`, which a
    /// caller had and released.  The object is stale from now on.
    pub(crate) fn check_in(&mut self, Ghost(address): Ghost<usize>, Ghost(holder): Ghost<int>)
        requires
            old(self).wf(),
            old(self).holder(address) == Some(caller()),
            old(self).ledger_spec().is_cache(holder),
        ensures
            final(self).ledger_spec().checked_in(
                &old(self).ledger_spec(),
                old(self).chunks_spec().class_of(address as int)->0,
            ),
            final(self).wf(),
            final(self).follows(old(self)),
            final(self).class_count() == old(self).class_count(),
            final(self).chunks_spec() == old(self).chunks_spec(),
            final(self).holder(address) == Some(holder),
            final(self).stale(address),
            final(self).ledger_spec().cache_count() == old(self).ledger_spec().cache_count(),
            forall|a: usize|
                #![trigger final(self).holder(a)]
                a != address ==> final(self).holder(a) == old(self).holder(a),
            forall|a: usize|
                #![trigger final(self).stale(a)]
                a != address ==> final(self).stale(a) == old(self).stale(a),
            forall|class: Class|
                #![trigger final(self).info_of(class@ as int)]
                final(self).info_of(class@ as int) == old(self).info_of(class@ as int),
    {
        let ghost class = self.chunks.class_of(address as int)->0;
        proof {
            assert(self.ledger.holder(address) is Some);
            assert(self.ledger.live_of(class).contains(address));
            assert(self.ledger.live_of(class).finite());
        }
        self.ledger.check_in(Ghost(address), Ghost(holder), Ghost(class));
        self.ledger.soil(Ghost(address));
        proof {
            let before = old(self).ledger;
            assert forall|other: u32, a: usize|
                #![trigger self.ledger.live_of(other).contains(a)]
                self.ledger.live_of(other).contains(a) <==> self.ledger.holder(a) == Some(caller())
                    && self.chunks.class_of(a as int) == Some(other) by {
                assert(before.live_of(other).contains(a) <==> before.holder(a) == Some(caller())
                    && self.chunks.class_of(a as int) == Some(other));
            }
            assert forall|other: u32|
                #![trigger self.ledger.live_of(other)]
                self.ledger.live_of(other).finite() && self.ledger.live_of(other).len()
                    + self.ledger.released(other) == self.ledger.allocated(other) by {
                assert(before.live_of(other).finite());
            }
            self.lemma_after_ledger_step(old(self), address);
        }
    }

    /// The allocator is valid after the ledger changed for one object
    /// that a caller or a cache held, and holds.
    proof fn lemma_after_ledger_step(&self, old: &Slitter<M>, address: usize)
        requires
            old.wf(),
            self.classes == old.classes,
            self.rack == old.rack,
            self.mills == old.mills,
            self.names == old.names,
            self.chunks == old.chunks,
            old.ledger.holder(address) is Some,
            old.ledger.holder(address) != Some(depot()),
            self.ledger.holder(address) is Some,
            self.ledger.holder(address) != Some(depot()),
            self.ledger.enrolled(self.ledger.holder(address)->0),
            self.ledger.counts_ok(&self.chunks),
            self.ledger.keeps_apart(&old.ledger),
            self.ledger.same_sizes(&old.ledger),
            self.ledger.cache_count() == old.ledger.cache_count(),
            forall|a: usize|
                #![trigger self.ledger.holder(a)]
                a != address ==> self.ledger.holder(a) == old.ledger.holder(a),
            forall|a: usize|
                #![trigger self.ledger.stale(a)]
                a != address ==> self.ledger.stale(a) == old.ledger.stale(a),
        ensures
            self.wf(),
            self.follows(old),
    {
        broadcast use vstd::multiset::group_multiset_axioms;

        assert(old.ledger.wf(&old.chunks));
        assert(self.ledger.apart_ok(&self.chunks));
        assert(self.ledger.wf(&self.chunks));
        assert forall|i: int| 0 <= i < self.classes.len() implies (
        #[trigger] self.classes[i]).sound(&self.chunks, &self.ledger) by {
            let info = old.classes[i];
            assert(info.sound(&old.chunks, &old.ledger));
            info.press.lemma_unreserved_frame(&old.chunks, &self.chunks, &old.ledger, &self.ledger);
            assert forall|a: usize|
                #![trigger info.depot_ms().count(a)]
                info.depot_ms().count(a) >= 1 implies self.ledger.holder(a) == Some(depot()) by {
                assert(old.ledger.holder(a) == Some(depot()));
            }
        }
        assert forall|id: int| 1 <= id <= old.class_count() implies (#[trigger] self.info_of(
            id,
        )).same_class(&old.info_of(id)) by {}
    }

    /// Attempts to return one allocation of `class` and to refill
    /// `mag`, which is empty, for the cache `holder`, whose local
    /// magazine cache for the class is `cache`, and which holds
    /// `rest` besides.
    pub(crate) fn refill_magazine(
        &mut self,
        class: Class,
        mag: &mut PopMagazine,
        cache: &mut LocalMagazineCache,
        Ghost(holder): Ghost<int>,
        Ghost(rest): Ghost<vstd::multiset::Multiset<usize>>,
    ) -> (ret: Option<LinearRef>)
        requires
            old(self).wf(),
            old(self).is_registered(class),
            old(mag).wf(),
            old(mag)@.len() == 0,
            old(self).cache_ok(class, old(cache)),
            old(self).ledger_spec().is_cache(holder),
            old(self).ledger_spec().holds(holder, optional(old(cache)@).add(rest)),
        ensures
            final(self).wf(),
            final(self).stepped(old(self), holder),
            final(self).ledger_spec().same_counts(&old(self).ledger_spec()),
            final(self).ledger_spec().frames(
                &old(self).ledger_spec(),
                &final(self).chunks_spec(),
                class@,
            ),
            final(self).class_count() == old(self).class_count(),
            final(mag).wf(),
            final(self).owns_all(class, final(mag)@),
            final(self).cache_ok(class, final(cache)),
            final(self).ledger_spec().holds(
                holder,
                final(mag)@.to_multiset().add(optional(final(cache)@)).add(one(ret)).add(rest),
            ),
            final(self).ledger_spec().tracks(
                &old(self).ledger_spec(),
                &final(self).chunks_spec(),
                holder,
                class@,
                optional(old(cache)@),
                final(mag)@.to_multiset().add(optional(final(cache)@)).add(one(ret)),
            ),
            old(self).info_of(class@ as int).zero_init ==> final(self).ledger_spec().clean(
                final(mag)@.to_multiset().add(one(ret)),
            ),
            ret is None ==> final(mag)@.len() == 0,
            ret matches Some(object) ==> final(self).owns(class, object@),
            *old(cache) is Full || old(self).stocked(class) ==> ret is Some,
            old(self).info_of(class@ as int).cached_source(old(cache)) matches Some(source) ==> (
            ret matches Some(object) && final(mag)@.push(object@) == source),
            old(self).info_of(class@ as int).cached_source(old(cache)) is None ==> (
            ret matches Some(object) ==> final(mag)@ == crate::ledger::objects(
                object@,
                old(self).info_of(class@ as int).layout@.0,
                (final(mag)@.len() + 1) as int,
            ).skip(1)),
            old(self).info_of(class@ as int).cached_source(old(cache)) is None
                && old(self).info_of(class@ as int).press.can_allocate(
                &old(self).mill_of(class),
                &old(self).chunks_spec(),
            ) ==> (ret matches Some(object) && object@ == old(self).info_of(
                class@ as int,
            ).press.upcoming(&old(self).mill_of(class), &old(self).chunks_spec()) && final(mag)@
                == crate::ledger::objects(
                object@,
                old(self).info_of(class@ as int).layout@.0,
                old(self).info_of(class@ as int).press.upcoming_batch(
                    &old(self).mill_of(class),
                    &old(self).chunks_spec(),
                    (MAGAZINE_SIZE + 1) as usize,
                ),
            ).skip(1)),
            old(self).info_of(class@ as int).cached_source(old(cache)) is None ==> (
            ret matches Some(object) ==> {
                &&& final(mag)@ == crate::ledger::objects(
                    object@,
                    old(self).info_of(class@ as int).layout@.0,
                    old(self).refill_batch(class),
                ).skip(1)
                &&& final(self).info_of(class@ as int).press.batch_in_span(
                    &final(self).chunks_spec(),
                    object@,
                    (final(mag)@.len() + 1) as int,
                )
                &&& !old(self).can_press(class) ==> final(self).info_of(class@ as int).press.took_new_chunk(
                    &old(self).chunks_spec(),
                    &final(self).chunks_spec(),
                    object@,
                )
            }),
            ret is Some ==> final(mag).storage_spec(),
            final(self).info_of(class@ as int).press.tagged_since(
                &old(self).chunks_spec(),
                &final(self).chunks_spec(),
            ),
    {
        let index = class.id() as usize - 1;
        proof {
            assert(self.classes[index as int].sound(&self.chunks, &self.ledger));
        }
        let mill_index = self.classes[index].press.mill();
        proof {
            assert(self.mills[mill_index as int].wf(&self.chunks));
        }
        let ret = self.classes[index].refill_magazine(
            &mut self.rack,
            &mut self.mills[mill_index],
            &mut self.chunks,
            &mut self.ledger,
            mag,
            cache,
            Ghost(holder),
            Ghost(rest),
        );
        proof {
            self.lemma_after_class_step(old(self), index as int, mill_index as int, holder);
        }
        ret
    }

    /// Takes `spilled`, an object of `class`, from the cache `holder`,
    /// whose magazine `mag` is full.  On exit, `spilled` is on top of
    /// `mag`, which is another magazine.
    pub(crate) fn clear_magazine(
        &mut self,
        class: Class,
        mag: &mut PushMagazine,
        cache: &mut LocalMagazineCache,
        spilled: LinearRef,
        Ghost(holder): Ghost<int>,
        Ghost(rest): Ghost<vstd::multiset::Multiset<usize>>,
    )
        requires
            old(self).wf(),
            old(self).is_registered(class),
            old(mag).wf(),
            old(self).owns_all(class, old(mag)@),
            old(self).owns(class, spilled@),
            old(self).cache_ok(class, old(cache)),
            old(self).ledger_spec().is_cache(holder),
            old(self).ledger_spec().holds(
                holder,
                old(mag)@.to_multiset().add(optional(old(cache)@)).add(
                    vstd::multiset::Multiset::singleton(spilled@),
                ).add(rest),
            ),
        ensures
            final(self).wf(),
            final(self).stepped(old(self), holder),
            final(self).ledger_spec().same_counts(&old(self).ledger_spec()),
            final(self).ledger_spec().frames(
                &old(self).ledger_spec(),
                &final(self).chunks_spec(),
                class@,
            ),
            final(self).class_count() == old(self).class_count(),
            final(self).chunks_spec() == old(self).chunks_spec(),
            final(mag).wf(),
            final(mag).storage_spec(),
            final(self).owns_all(class, final(mag)@),
            final(self).cache_ok(class, final(cache)),
            final(self).ledger_spec().holds(
                holder,
                final(mag)@.to_multiset().add(optional(final(cache)@)).add(rest),
            ),
            final(self).ledger_spec().tracks(
                &old(self).ledger_spec(),
                &final(self).chunks_spec(),
                holder,
                class@,
                old(mag)@.to_multiset().add(optional(old(cache)@)).add(
                    vstd::multiset::Multiset::singleton(spilled@),
                ),
                final(mag)@.to_multiset().add(optional(final(cache)@)),
            ),
            final(mag)@.len() > 0,
            final(mag)@.last() == spilled@,
            final(mag)@.drop_last() == old(self).info_of(class@ as int).spill_target(old(cache)),
            forall|a: usize| #![trigger final(self).stale(a)] final(self).stale(a) == old(self).stale(a),
    {
        let index = class.id() as usize - 1;
        proof {
            assert(self.classes[index as int].sound(&self.chunks, &self.ledger));
        }
        self.classes[index].clear_magazine(
            &mut self.rack,
            mag,
            cache,
            spilled,
            &mut self.ledger,
            Ghost(&self.chunks),
            Ghost(holder),
            Ghost(rest),
        );
        proof {
            self.lemma_after_class_step(old(self), index as int, 0, holder);
        }
    }

    /// Takes back `mag`, a magazine of objects of `class`, from the
    /// cache `holder`, which holds `rest` besides.
    pub(crate) fn release_magazine<const PUSH_MAG: bool>(
        &mut self,
        class: Class,
        mag: Magazine<PUSH_MAG>,
        Ghost(holder): Ghost<int>,
        Ghost(rest): Ghost<vstd::multiset::Multiset<usize>>,
    )
        requires
            old(self).wf(),
            old(self).is_registered(class),
            mag.wf(),
            old(self).owns_all(class, mag@),
            old(self).ledger_spec().is_cache(holder),
            old(self).ledger_spec().holds(holder, mag@.to_multiset().add(rest)),
        ensures
            final(self).wf(),
            final(self).stepped(old(self), holder),
            final(self).ledger_spec().same_counts(&old(self).ledger_spec()),
            final(self).ledger_spec().frames(
                &old(self).ledger_spec(),
                &final(self).chunks_spec(),
                class@,
            ),
            final(self).class_count() == old(self).class_count(),
            final(self).chunks_spec() == old(self).chunks_spec(),
            final(self).ledger_spec().holds(holder, rest),
            final(self).ledger_spec().stocks(&old(self).ledger_spec(), mag@.to_multiset()),
            final(self).ledger_spec().tracks(
                &old(self).ledger_spec(),
                &final(self).chunks_spec(),
                holder,
                class@,
                mag@.to_multiset(),
                vstd::multiset::Multiset::empty(),
            ),
            final(self).depot_of(class) == mag@.to_multiset().add(old(self).depot_of(class)),
            final(self).keeps_depots(old(self), class),
            final(self).spares() == old(self).spares() + if mag.storage_spec() && mag@.len() == 0 {
                1nat
            } else {
                0nat
            },
            forall|a: usize| #![trigger final(self).stale(a)] final(self).stale(a) == old(self).stale(a),
    {
        broadcast use vstd::multiset::group_multiset_axioms;

        let index = class.id() as usize - 1;
        proof {
            assert(self.classes[index as int].sound(&self.chunks, &self.ledger));
            assert(mag@.to_multiset().add(vstd::multiset::Multiset::empty()).add(rest)
                =~= mag@.to_multiset().add(rest));
        }
        self.classes[index].release_magazine(
            &mut self.rack,
            mag,
            None,
            &mut self.ledger,
            Ghost(&self.chunks),
            Ghost(holder),
            Ghost(rest),
        );
        proof {
            self.lemma_after_class_step(old(self), index as int, 0, holder);
            assert(vstd::multiset::Multiset::<usize>::empty().add(rest) =~= rest);
        }
    }

    /// Takes back `mag`, which holds no allocation, for the rack: the
    /// rack keeps the storage of the magazine, if it has one.  The
    /// classes, the chunks and the ledger stay as they are.
    pub(crate) fn release_empty_magazine<const PUSH_MAG: bool>(&mut self, mag: Magazine<PUSH_MAG>)
        requires
            old(self).wf(),
            mag.wf(),
            mag@.len() == 0,
        ensures
            final(self).wf(),
            final(self).follows(old(self)),
            final(self).class_count() == old(self).class_count(),
            final(self).chunks_spec() == old(self).chunks_spec(),
            final(self).ledger_spec() == old(self).ledger_spec(),
            final(self).spares() == old(self).spares() + if mag.storage_spec() {
                1nat
            } else {
                0nat
            },
            forall|class: Class|
                #![trigger final(self).info_of(class@ as int)]
                final(self).info_of(class@ as int) == old(self).info_of(class@ as int),
            forall|class: Class|
                #![trigger final(self).depot_of(class)]
                final(self).depot_of(class) == old(self).depot_of(class),
    {
        self.rack.release_empty_magazine(mag);
        proof {
            assert forall|i: int| 0 <= i < self.classes.len() implies (
            #[trigger] self.classes[i]).sound(&self.chunks, &self.ledger) by {
                assert(old(self).classes[i].sound(&old(self).chunks, &old(self).ledger));
            }
            assert forall|j: int| 0 <= j < self.mills.len() implies (#[trigger] self.mills[j]).wf(
                &self.chunks,
            ) by {
                assert(old(self).mills[j].wf(&old(self).chunks));
            }
            assert forall|k: int| 0 <= k < self.names.len() implies (#[trigger] self.names[k]).1
                < self.mills.len() by {
                assert(old(self).names[k].1 < old(self).mills.len());
            }
            assert forall|id: int| 1 <= id <= old(self).class_count() implies (
            #[trigger] self.info_of(id)).same_class(&old(self).info_of(id)) by {}
        }
    }

    /// Allocates an object of `class` without the help of a thread's
    /// cache.
    ///
    /// On success, a caller holds the object from now on, and no
    /// caller held it; where the class is zero-initialised, the
    /// object is not stale.  What any caller or cache held, it still
    /// holds.
    pub fn allocate_slow(&mut self, class: Class) -> (ret: Option<LinearRef>)
        requires
            old(self).wf(),
            old(self).is_registered(class),
        ensures
            final(self).wf(),
            final(self).follows(old(self)),
            final(self).class_count() == old(self).class_count(),
            final(self).ledger_spec().shields(&old(self).ledger_spec(), None),
            final(self).counts_allocation(old(self), class, ret is Some),
            ret matches Some(object) ==> {
                &&& final(self).owns(class, object@)
                &&& object@ % old(self).info_of(class@ as int).layout@.1 == 0
                &&& final(self).holder(object@) == Some(caller())
                &&& old(self).holder(object@) != Some(caller())
                &&& old(self).info_of(class@ as int).zero_init ==> !final(self).stale(object@)
            },
            old(self).stocked(class) ==> ret is Some,
            old(self).next_allocation(class) matches Some(address) ==> (ret matches Some(object)
                && object@ == address),
            old(self).next_allocation(class) is None ==> (ret matches Some(object)
                ==> final(self).info_of(class@ as int).press.took_new_chunk(
                &old(self).chunks_spec(),
                &final(self).chunks_spec(),
                object@,
            )),
            final(self).info_of(class@ as int).press.tagged_since(
                &old(self).chunks_spec(),
                &final(self).chunks_spec(),
            ),
    {
        let index = class.id() as usize - 1;
        let Ghost(holder) = self.enroll();
        let ghost enrolled = *self;
        proof {
            assert(self.classes[index as int].sound(&self.chunks, &self.ledger));
        }
        let mill_index = self.classes[index].press.mill();
        proof {
            assert(self.mills[mill_index as int].wf(&self.chunks));
            assert(self.mill_of(class) == old(self).mill_of(class));
            assert(self.mill_of(class) == self.mills[mill_index as int]);
            assert(self.info_of(class@ as int) == old(self).info_of(class@ as int));
        }
        let ret = self.classes[index].allocate_slow(
            &mut self.rack,
            &mut self.mills[mill_index],
            &mut self.chunks,
            &mut self.ledger,
            Ghost(holder),
        );
        proof {
            self.lemma_after_class_step(&enrolled, index as int, mill_index as int, holder);
            crate::cache::lemma_follows_is_transitive(old(self), &enrolled, self);
        }
        let ghost stepped = *self;
        if let Some(object) = &ret {
            self.check_out(Ghost(object@), Ghost(holder));
            proof {
                crate::cache::lemma_follows_is_transitive(old(self), &stepped, self);
                assert(self.info_of(class@ as int) == stepped.info_of(class@ as int));
            }
        }
        ret
    }

    /// Takes back `block`, an object of `class` that a caller holds,
    /// without the help of a thread's cache.
    ///
    /// What any other caller or any cache held, it still holds.
    pub fn release_slow(&mut self, class: Class, block: LinearRef)
        requires
            old(self).wf(),
            old(self).is_registered(class),
            old(self).owns(class, block@),
            old(self).holder(block@) == Some(caller()),
        ensures
            final(self).wf(),
            final(self).follows(old(self)),
            final(self).class_count() == old(self).class_count(),
            final(self).chunks_spec() == old(self).chunks_spec(),
            final(self).ledger_spec().shields(&old(self).ledger_spec(), Some(block@)),
            final(self).counts_release(old(self), class),
            final(self).holder(block@) is Some,
            final(self).holder(block@) != Some(caller()),
            final(self).stale(block@),
            final(self).holder(block@) == Some(depot()),
            final(self).stocked(class),
            final(self).depot_of(class) == old(self).depot_of(class).insert(block@),
            final(self).depot_of(class).count(block@) == 1,
            final(self).keeps_depots(old(self), class),
    {
        broadcast use vstd::multiset::group_multiset_axioms;

        let index = class.id() as usize - 1;
        let Ghost(holder) = self.enroll();
        let ghost enrolled = *self;
        self.check_in(Ghost(block@), Ghost(holder));
        let ghost checked = *self;
        proof {
            assert(self.classes[index as int].sound(&self.chunks, &self.ledger));
            assert(self.info_of(class@ as int) == enrolled.info_of(class@ as int));
            assert(self.info_of(class@ as int) == old(self).info_of(class@ as int));
        }
        self.classes[index].release_slow(
            &mut self.rack,
            block,
            &mut self.ledger,
            Ghost(&self.chunks),
            Ghost(holder),
        );
        proof {
            self.lemma_after_class_step(&checked, index as int, 0, holder);
            crate::cache::lemma_follows_is_transitive(old(self), &enrolled, &checked);
            crate::cache::lemma_follows_is_transitive(old(self), &checked, self);
            assert forall|a: usize|
                #![trigger self.ledger.holder(a)]
                #![trigger old(self).ledger.holder(a)]
                old(self).ledger.holder(a) is Some && old(self).ledger.holder(a) != Some(depot())
                    && a != block@ implies self.ledger.holder(a) == old(self).ledger.holder(a)
                && self.ledger.stale(a) == old(self).ledger.stale(a) by {
                assert(enrolled.holder(a) == old(self).holder(a));
                assert(checked.holder(a) == enrolled.holder(a));
                assert(checked.stale(a) == enrolled.stale(a));
                assert(enrolled.stale(a) == old(self).stale(a));
            }
            assert forall|a: usize|
                #![trigger self.ledger.stale(a)]
                self.ledger.stale(a) && a != block@ implies old(self).ledger.stale(a) by {
                assert(checked.stale(a));
                assert(enrolled.stale(a));
            }
            assert forall|a: usize|
                #![trigger self.ledger.holder(a)]
                old(self).ledger.holder(a) is Some implies self.ledger.holder(a) is Some by {
                assert(enrolled.holder(a) == old(self).holder(a));
                if a != block@ {
                    assert(checked.holder(a) == enrolled.holder(a));
                }
            }
            assert(self.holder(block@) == Some(depot()));
            assert(self.ledger.gains_only(&old(self).ledger, depot())) by {
                assert forall|a: usize|
                    #![trigger self.ledger.holder(a)]
                    self.ledger.holder(a) != old(self).ledger.holder(a) implies self.ledger.holder(a)
                    == Some(depot()) || self.ledger.holder(a) == Some(caller()) || (
                self.ledger.holder(a) is Some && self.ledger.holder(a)->0
                    > old(self).ledger.cache_count()) by {
                    assert(enrolled.holder(a) == old(self).holder(a));
                    if a != block@ {
                        assert(checked.holder(a) == enrolled.holder(a));
                    }
                }
            }
            assert forall|other: Class|
                #![trigger self.depot_of(other)]
                old(self).is_registered(other) && other != class implies self.depot_of(other)
                == old(self).depot_of(other) by {
                assert(enrolled.info_of(other@ as int) == old(self).info_of(other@ as int));
                assert(checked.info_of(other@ as int) == enrolled.info_of(other@ as int));
                assert(self.classes[other@ - 1] == checked.classes[other@ - 1]);
            }
        }
    }

    /// The allocator is valid after a step of one class with one
    /// mill, the rack, the chunks and the ledger, which left each of
    /// them valid.
    proof fn lemma_after_class_step(
        &self,
        old: &Slitter<M>,
        index: int,
        mill_index: int,
        holder: int,
    )
        requires
            old.wf(),
            self.chunks.wf(),
            self.rack.wf(),
            self.ledger.wf(&self.chunks),
            self.chunks.extends(&old.chunks),
            self.names == old.names,
            self.classes.len() == old.classes.len(),
            self.mills.len() == old.mills.len(),
            0 <= index < self.classes.len(),
            forall|i: int|
                0 <= i < self.classes.len() && i != index ==> self.classes[i] == old.classes[i],
            forall|j: int|
                0 <= j < self.mills.len() && j != mill_index ==> self.mills[j] == old.mills[j],
            self.classes[index].sound(&self.chunks, &self.ledger),
            self.classes[index].same_class(&old.classes[index]),
            self.classes[index].stepped(&self.chunks, &old.ledger, &self.ledger, holder),
            0 <= mill_index < self.mills.len() ==> self.mills[mill_index].wf(&self.chunks),
        ensures
            self.wf(),
            self.stepped(old, holder),
            self.ledger.same_counts(&old.ledger),
            self.ledger.frames(&old.ledger, &self.chunks, (index + 1) as u32),
            self.class_count() == old.class_count(),
    {
        assert(old.classes[index].sound(&old.chunks, &old.ledger));
        assert forall|i: int| 0 <= i < self.classes.len() implies {
            &&& (#[trigger] self.classes[i]).sound(&self.chunks, &self.ledger)
            &&& self.classes[i].id@ == i + 1
            &&& self.classes[i].press.mill_spec() < self.mills.len()
        } by {
            assert(old.classes[i].sound(&old.chunks, &old.ledger));
            if i != index {
                assert forall|a: usize|
                    #![trigger self.ledger.holder(a)]
                    old.chunks.class_of(a as int) == Some(old.classes[i].id@) implies self.ledger.holder(
                    a,
                ) == old.ledger.holder(a) by {
                    assert(old.chunks@.dom().contains(crate::mill::metadata_address(a as int)));
                    assert(self.chunks.class_of(a as int) == Some(old.classes[i].id@));
                }
                old.classes[i].lemma_sound_frame(
                    &old.chunks,
                    &self.chunks,
                    &old.ledger,
                    &self.ledger,
                );
            }
        }
        assert forall|j: int| 0 <= j < self.mills.len() implies (#[trigger] self.mills[j]).wf(
            &self.chunks,
        ) by {
            assert(old.mills[j].wf(&old.chunks));
            if j != mill_index {
                old.mills[j].lemma_wf_extends(&old.chunks, &self.chunks);
            }
        }
        assert forall|k: int| 0 <= k < self.names.len() implies (#[trigger] self.names[k]).1
            < self.mills.len() by {
            assert(old.names[k].1 < old.mills.len());
        }
        assert forall|id: int| 1 <= id <= old.class_count() implies (#[trigger] self.info_of(
            id,
        )).same_class(&old.info_of(id)) by {
            assert(self.classes[id - 1].same_class(&old.classes[id - 1]));
        }
    }

    /// Upserts the mapper associated with `name`: the classes that
    /// name it from now on get their spans from a new mill, which
    /// obtains its chunks from `mapper`.
    pub fn register_mapper(&mut self, name: String, mapper: M)
        requires
            old(self).wf(),
            old(self).mill_count() < usize::MAX,
        ensures
            final(self).wf(),
            final(self).follows(old(self)),
            final(self).class_count() == old(self).class_count(),
            final(self).chunks_spec() == old(self).chunks_spec(),
            final(self).ledger_spec() == old(self).ledger_spec(),
            final(self).mill_count() == old(self).mill_count() + 1,
            final(self).mill_for(Some(name@)) == Some(old(self).mill_count() as usize),
            final(self).mapper_of(old(self).mill_count() as int) == mapper,
            final(self).mill_for(None) == old(self).mill_for(None),
            forall|key: Seq<char>|
                key != name@ ==> final(self).mill_for(Some(key)) == old(self).mill_for(Some(key)),
            forall|j: int|
                0 <= j < old(self).mill_count() ==> final(self).mapper_of(j) == old(self).mapper_of(
                    j,
                ),
    {
        let index = self.mills.len();
        self.mills.push(Mill::new(mapper));
        self.names.push((name, index));
        proof {
            assert(self.names@.drop_last() =~= old(self).names@);
            assert forall|i: int| 0 <= i < self.classes.len() implies {
                &&& (#[trigger] self.classes[i]).wf(&self.chunks)
                &&& self.classes[i].id@ == i + 1
                &&& self.classes[i].press.mill_spec() < self.mills.len()
            } by {
                assert(old(self).classes[i].wf(&old(self).chunks));
            }
            assert forall|j: int| 0 <= j < self.mills.len() implies (#[trigger] self.mills[j]).wf(
                &self.chunks,
            ) by {
                if j < index {
                    assert(old(self).mills[j].wf(&old(self).chunks));
                }
            }
            assert forall|k: int| 0 <= k < self.names.len() implies (#[trigger] self.names[k]).1
                < self.mills.len() by {
                if k < old(self).names.len() {
                    assert(old(self).names[k].1 < old(self).mills.len());
                }
            }
            assert forall|key: Seq<char>| key != name@ implies self.mill_for(Some(key))
                == old(self).mill_for(Some(key)) by {}
        }
    }
}

/// The largest number of classes that an allocator can have: the ids
/// are 32-bit integers, and the tables that they index must fit in
/// the address space with room to spare.
pub open spec fn max_classes() -> int {
    if u32::MAX < usize::MAX / 2 - 1 {
        u32::MAX as int
    } else {
        usize::MAX / 2 - 1
    }
}

/// Returns the largest id of a class.
pub fn max_id<M: Mapper>(slitter: &Slitter<M>) -> (ret: usize)
    requires
        slitter.wf(),
    ensures
        ret == slitter.class_count(),
        ret <= max_classes(),
{
    slitter.classes.len()
}

/// Whether a class can be made with `config` where `mill` was found
/// for its mapper: why not, if it cannot.
pub open spec fn config_fault(classes: nat, layout: Layout, mill: Option<usize>) -> Option<
    &'static str,
> {
    if classes + 1 > max_classes() {
        Some("too many slitter allocation classes")
    } else if layout@.1 > MAX_OBJECT_ALIGNMENT {
        Some("slitter only supports alignment up to 4 KB")
    } else if layout.pad_to_align_spec()@.0 > MAX_SPAN_SIZE / 2 {
        Some("Class elements too large (after alignment)")
    } else if mill is None {
        Some("Mapper not found")
    } else {
        None
    }
}

impl Class {
    /// Attempts to create a new allocation class for `config`.
    ///
    /// On success, the class has the next id, and its information is
    /// the last in the sequence of registered classes.
    ///
    /// # Errors
    ///
    /// Returns `Err`, and leaves the allocator as it is, where there
    /// are too many classes, where the layout violates the allocator's
    /// constraints, or where no mapper has the name that `config`
    /// gives.
    pub fn new<M: Mapper>(slitter: &mut Slitter<M>, config: ClassConfig) -> (ret: Result<
        Class,
        &'static str,
    >)
        requires
            old(slitter).wf(),
            config.layout@.0 > 0,
        ensures
            final(slitter).wf(),
            final(slitter).follows(old(slitter)),
            final(slitter).chunks_spec() == old(slitter).chunks_spec(),
            final(slitter).mill_count() == old(slitter).mill_count(),
            match config_fault(
                old(slitter).class_count(),
                config.layout,
                old(slitter).mill_for(
                    match config.mapper_name {
                        Some(key) => Some(key@),
                        None => None,
                    },
                ),
            ) {
                Some(message) => ret == Err::<Class, &'static str>(message)
                    && final(slitter).class_count() == old(slitter).class_count()
                    && final(slitter).ledger_spec() == old(slitter).ledger_spec(),
                None => {
                    &&& ret matches Ok(class)
                    &&& final(slitter).ledger_spec().registered(
                        &old(slitter).ledger_spec(),
                        class@,
                        config.layout.pad_to_align_spec()@.0,
                    )
                    &&& class@ == old(slitter).class_count() + 1
                    &&& final(slitter).class_count() == old(slitter).class_count() + 1
                    &&& final(slitter).info_of(class@ as int).id == class
                    &&& final(slitter).info_of(class@ as int).name == config.name
                    &&& final(slitter).info_of(class@ as int).zero_init == config.zero_init
                    &&& final(slitter).info_of(class@ as int).layout@
                        == config.layout.pad_to_align_spec()@
                    &&& Some(final(slitter).info_of(class@ as int).press.mill_spec())
                        == old(slitter).mill_for(
                        match config.mapper_name {
                            Some(key) => Some(key@),
                            None => None,
                        },
                    )
                    &&& final(slitter).info_of(class@ as int).full_mags@.len() == 0
                    &&& final(slitter).info_of(class@ as int).partial_mags@.len() == 0
                    &&& final(slitter).info_of(class@ as int).press.bump_spec() == 0
                },
            },
    {
        if slitter.classes.len() >= u32::MAX as usize || slitter.classes.len() >= usize::MAX / 2
            - 1 {
            return Err("too many slitter allocation classes");
        }
        let next_id = slitter.classes.len() + 1;
        let id = Class { id: next_id as u32 };
        let layout = config.layout.pad_to_align();
        let mill = slitter.get_mill(&config.mapper_name);
        let press = match Press::new(id, config.layout, mill) {
            Ok(press) => press,
            Err(message) => {
                return Err(message);
            },
        };
        let info = ClassInfo {
            name: config.name,
            layout: press.layout(),
            full_mags: MagazineStack::new(),
            partial_mags: MagazineStack::new(),
            press,
            id,
            zero_init: config.zero_init,
        };
        proof {
            assert(slitter.ledger.size_of_class(id@) is None);
        }
        slitter.ledger.register(Ghost(id@), Ghost(info.layout@.0));
        proof {
            broadcast use vstd::multiset::group_multiset_axioms;

            assert(info.wf(&slitter.chunks));
            crate::ledger::lemma_total_empty(info.full_mags@);
            crate::ledger::lemma_total_empty(info.partial_mags@);
            assert(slitter.ledger.wf(&slitter.chunks));
            assert(info.press.unreserved_ok(&slitter.chunks, &slitter.ledger));
            assert forall|a: usize|
                #![trigger slitter.ledger.holder(a)]
                slitter.ledger.holder(a) is Some implies slitter.chunks.class_of(a as int) != Some(
                id@,
            ) by {
                old(slitter).ledger.lemma_held_has_size(&old(slitter).chunks, a);
            }
            assert(info.sound(&slitter.chunks, &slitter.ledger));
        }
        slitter.classes.push(info);
        proof {
            assert forall|i: int| 0 <= i < slitter.classes.len() implies {
                &&& (#[trigger] slitter.classes[i]).sound(&slitter.chunks, &slitter.ledger)
                &&& slitter.classes[i].id@ == i + 1
                &&& slitter.classes[i].press.mill_spec() < slitter.mills.len()
            } by {
                if i < old(slitter).classes.len() {
                    assert(old(slitter).classes[i].sound(
                        &old(slitter).chunks,
                        &old(slitter).ledger,
                    ));
                    old(slitter).classes[i].lemma_sound_frame(
                        &old(slitter).chunks,
                        &slitter.chunks,
                        &old(slitter).ledger,
                        &slitter.ledger,
                    );
                }
            }
            assert forall|id: int| 1 <= id <= old(slitter).class_count() implies (
            #[trigger] slitter.info_of(id)).same_class(&old(slitter).info_of(id)) by {}
        }
        Ok(id)
    }

    /// Returns a `Class` struct for `id` if such a class exists.  No
    /// class has the id zero.
    ///
    /// On success, this operation can be inverted by calling `id()`.
    pub fn from_id<M: Mapper>(slitter: &Slitter<M>, id: u32) -> (ret: Option<Class>)
        ensures
            ret is Some == (1 <= id <= slitter.class_count()),
            ret matches Some(class) ==> class@ == id && slitter.is_registered(class),
            forall|class: Class|
                #![trigger slitter.is_registered(class)]
                slitter.is_registered(class) && class@ == id ==> ret == Some(class),
    {
        if id != 0 && id as usize <= slitter.classes.len() {
            Some(Class { id })
        } else {
            None
        }
    }

    /// Returns the `ClassInfo` for this `Class`.
    pub fn info<M: Mapper>(self, slitter: &Slitter<M>) -> (ret: &ClassInfo)
        requires
            slitter.wf(),
            slitter.is_registered(self),
        ensures
            *ret == slitter.info_of(self@ as int),
            ret.id == self,
            ret.wf(&slitter.chunks_spec()),
    {
        proof {
            use_type_invariant(self);
            assert(slitter.classes[self@ - 1].wf(&slitter.chunks));
        }
        &slitter.classes[self.id as usize - 1]
    }
}

/// The registry is deterministic: the id of a registered class gives
/// the class back, and no other class; a class is its id.
pub proof fn lemma_class_registry_is_deterministic<M: Mapper>(slitter: &Slitter<M>, class: Class)
    requires
        slitter.wf(),
        slitter.is_registered(class),
    ensures
        slitter.info_of(class@ as int).id == class,
        forall|other: Class|
            slitter.is_registered(other) && other != class ==> slitter.info_of(other@ as int).id
                != class,
        forall|other: Class| #![trigger other@] other@ == class@ ==> other == class,
{
    slitter.lemma_info_has_id(class);
    assert forall|other: Class|
        slitter.is_registered(other) && other != class implies slitter.info_of(other@ as int).id
        != class by {
        slitter.lemma_info_has_id(other);
    }
}

/// The metadata that the address arithmetic finds for any address among
/// the objects of the current span of a class names that class.
pub proof fn lemma_span_is_tagged<M: Mapper>(slitter: &Slitter<M>, class: Class, a: int)
    requires
        slitter.wf(),
        slitter.is_registered(class),
        slitter.info_of(class@ as int).press.in_current_span(&slitter.chunks_spec(), a),
    ensures
        slitter.chunks_spec().class_of(a) == Some(class@),
        slitter.chunks_spec()@.dom().contains(crate::mill::metadata_address(a)),
{
    slitter.lemma_info_has_id(class);
    let info = slitter.info_of(class@ as int);
    assert(slitter.classes[class@ - 1].sound(&slitter.chunks, &slitter.ledger));
    info.press.lemma_current_span_is_tagged(&slitter.chunks_spec(), a);
}

/// Addresses are type-stable: a place for an object of a class stays
/// one for as long as the process lives, and the check that an
/// allocation is of a class succeeds for that class and for no other.
pub proof fn lemma_type_stability<M: Mapper>(
    old: &Slitter<M>,
    slitter: &Slitter<M>,
    class: Class,
    other: Class,
    a: usize,
)
    requires
        old.wf(),
        old.is_registered(class),
        old.owns(class, a),
        slitter.follows(old),
        other != class,
    ensures
        slitter.is_registered(class),
        slitter.owns(class, a),
        is_allocation_of(&slitter.chunks_spec(), class, a),
        !is_allocation_of(&slitter.chunks_spec(), other, a),
        a % old.info_of(class@ as int).layout@.1 == 0,
{
    old.lemma_info_has_id(class);
    assert(old.owns_all(class, seq![a])) by {
        assert(seq![a][0] == a);
    }
    slitter.lemma_owns_follows(old, class, seq![a]);
    assert(slitter.owns(class, seq![a][0]));
    assert(slitter.info_of(class@ as int).same_class(&old.info_of(class@ as int)));
}

} // verus!
