//! The ledger says, of every address that a press ever handed out, who
//! holds the object at that address: a caller, the depot of its class,
//! or the cache of a thread.  It also says which objects are stale:
//! released by a caller and not filled with zeros since.  And it
//! counts, for every class, the allocations that succeeded and the
//! releases: the live allocations of a class are as many as the former
//! less the latter.  It knows the size of the objects of every class,
//! and keeps the objects that somebody holds apart: no two of them
//! share a byte.
//!
//! The ledger is a record for proofs only: it holds no data, and the
//! allocator never reads it.
use vstd::multiset::Multiset;
use vstd::prelude::*;

use crate::chunks::Chunks;

verus! {

/// The holder of what callers hold: live allocations.
pub open spec fn caller() -> int {
    0
}

/// The holder of what the magazines of a class hold.
pub open spec fn depot() -> int {
    -1
}

/// What the magazines of a stack hold, all together.
pub open spec fn total(stack: Seq<Seq<usize>>) -> Multiset<usize> {
    stack.flatten().to_multiset()
}

/// What a magazine that may be missing holds.
pub open spec fn optional(contents: Option<Seq<usize>>) -> Multiset<usize> {
    match contents {
        Some(contents) => contents.to_multiset(),
        None => Multiset::empty(),
    }
}

/// The addresses of `count` objects of `size` bytes in a row, the
/// first one at `base`.
pub open spec fn objects(base: usize, size: usize, count: int) -> Seq<usize> {
    Seq::new(count as nat, |i: int| (base + i * size) as usize)
}

/// A stack with one more magazine on top holds what the magazine
/// holds and what the stack held.
pub proof fn lemma_total_push(stack: Seq<Seq<usize>>, top: Seq<usize>)
    ensures
        total(seq![top] + stack) == top.to_multiset().add(total(stack)),
{
    let pushed = seq![top] + stack;
    assert(pushed.first() == top);
    assert(pushed.drop_first() =~= stack);
    vstd::seq_lib::lemma_multiset_commutative(top, stack.flatten());
}

/// A stack holds what the magazine on top holds and what the stack
/// under it holds.
pub proof fn lemma_total_pop(stack: Seq<Seq<usize>>)
    requires
        stack.len() > 0,
    ensures
        total(stack) == stack[0].to_multiset().add(total(stack.skip(1))),
{
    assert(stack =~= seq![stack[0]] + stack.skip(1));
    lemma_total_push(stack.skip(1), stack[0]);
}

/// A stack without magazines holds nothing.
pub proof fn lemma_total_empty(stack: Seq<Seq<usize>>)
    requires
        stack.len() == 0,
    ensures
        total(stack) == Multiset::<usize>::empty(),
{
    assert(stack.flatten() =~= Seq::<usize>::empty());
    lemma_seq_multiset(Seq::<usize>::empty());
}

/// How often an address is in a sequence, for the sequences that come
/// up: the empty one, one with an address pushed, one without its last
/// address, and two in a row.
pub proof fn lemma_seq_multiset(s: Seq<usize>)
    ensures
        s.len() == 0 ==> s.to_multiset() == Multiset::<usize>::empty(),
        forall|a: usize| #[trigger] s.push(a).to_multiset() == s.to_multiset().insert(a),
        s.len() > 0 ==> s.drop_last().to_multiset() == s.to_multiset().remove(s.last())
            && s.to_multiset().count(s.last()) >= 1,
        forall|i: int| 0 <= i < s.len() ==> s.to_multiset().count(#[trigger] s[i]) >= 1,
        forall|a: usize| #[trigger] s.to_multiset().count(a) >= 1 ==> s.contains(a),
        forall|t: Seq<usize>| #[trigger] (s + t).to_multiset() == s.to_multiset().add(t.to_multiset()),
{
    broadcast use vstd::multiset::group_multiset_axioms;

    s.to_multiset_ensures();
    if s.len() == 0 {
        assert(s.to_multiset() =~= Multiset::<usize>::empty());
    } else {
        assert(s.drop_last() =~= s.remove(s.len() - 1));
        assert(s.contains(s.last()));
    }
    assert forall|a: usize| #[trigger] s.push(a).to_multiset() == s.to_multiset().insert(a) by {
        vstd::seq_lib::to_multiset_build(s, a);
    }
    assert forall|i: int| 0 <= i < s.len() implies s.to_multiset().count(#[trigger] s[i])
        >= 1 by {
        assert(s.contains(s[i]));
    }
    assert forall|t: Seq<usize>| #[trigger]
        (s + t).to_multiset() == s.to_multiset().add(t.to_multiset()) by {
        vstd::seq_lib::lemma_multiset_commutative(s, t);
    }
}

/// The addresses of objects in a row are all different, and each of
/// them is among them once.
pub proof fn lemma_objects_are_distinct(base: usize, size: usize, count: int)
    requires
        size > 0,
        0 <= count,
        base + count * size <= usize::MAX,
    ensures
        forall|a: usize| objects(base, size, count).to_multiset().count(a) <= 1,
        forall|a: usize|
            objects(base, size, count).to_multiset().count(a) >= 1 <==> exists|i: int|
                0 <= i < count && a == #[trigger] (base + i * size) as usize,
        forall|i: int|
            0 <= i < count ==> (#[trigger] objects(base, size, count)[i]) == base + i * size
                && objects(base, size, count)[i] + size <= usize::MAX,
{
    let batch = objects(base, size, count);
    assert forall|i: int| 0 <= i < count implies (#[trigger] batch[i]) == base + i * size
        && batch[i] + size <= usize::MAX by {
        assert(0 <= i * size && i * size + size <= count * size) by (nonlinear_arith)
            requires
                0 <= i < count,
                size > 0,
        ;
    }
    assert(batch.no_duplicates()) by {
        assert forall|i: int, j: int| 0 <= i < batch.len() && 0 <= j < batch.len() && i
            != j implies batch[i] != batch[j] by {
            assert(i * size != j * size) by (nonlinear_arith)
                requires
                    i != j,
                    size > 0,
            ;
            assert(batch[i] == base + i * size);
            assert(batch[j] == base + j * size);
        }
    }
    batch.lemma_multiset_has_no_duplicates();
    lemma_seq_multiset(batch);
    assert forall|a: usize| batch.to_multiset().count(a) >= 1 <==> exists|i: int|
        0 <= i < count && a == #[trigger] (base + i * size) as usize by {
        if batch.to_multiset().count(a) >= 1 {
            assert(batch.contains(a));
            let i = choose|i: int| 0 <= i < batch.len() && batch[i] == a;
            assert(a == (base + i * size) as usize);
        }
        if exists|i: int| 0 <= i < count && a == #[trigger] (base + i * size) as usize {
            let i = choose|i: int| 0 <= i < count && a == #[trigger] (base + i * size) as usize;
            assert(batch[i] == a);
        }
    }
}

/// An address that a stack holds is in one of its magazines.
pub proof fn lemma_total_member(stack: Seq<Seq<usize>>, a: usize)
    requires
        total(stack).count(a) >= 1,
    ensures
        exists|i: int, k: int|
            0 <= i < stack.len() && 0 <= k < stack[i].len() && #[trigger] stack[i][k] == a,
    decreases stack.len(),
{
    broadcast use vstd::multiset::group_multiset_axioms;

    if stack.len() == 0 {
        lemma_total_empty(stack);
    } else {
        lemma_total_pop(stack);
        if stack[0].to_multiset().count(a) >= 1 {
            lemma_seq_multiset(stack[0]);
            assert(stack[0].contains(a));
            let k = choose|k: int| 0 <= k < stack[0].len() && stack[0][k] == a;
            assert(stack[0][k] == a);
        } else {
            lemma_total_member(stack.skip(1), a);
            let (i, k) = choose|i: int, k: int|
                0 <= i < stack.skip(1).len() && 0 <= k < stack.skip(1)[i].len()
                    && #[trigger] stack.skip(1)[i][k] == a;
            assert(stack[i + 1][k] == a);
        }
    }
}

/// The record of who holds which object.
pub struct Ledger {
    holders: Ghost<Map<usize, int>>,
    stale: Ghost<Set<usize>>,
    caches: Ghost<nat>,
    /// For each class, the objects that callers hold.
    live: Ghost<Map<u32, Set<usize>>>,
    /// For each class, the number of allocations that succeeded.
    allocated: Ghost<Map<u32, nat>>,
    /// For each class, the number of releases.
    released: Ghost<Map<u32, nat>>,
    /// For each class that was registered, the size of its objects.
    class_sizes: Ghost<Map<u32, usize>>,
}

impl Ledger {
    /// The holder of the object at `address`, if a press ever handed
    /// that object out.
    pub closed spec fn holder(&self, address: usize) -> Option<int> {
        if self.holders@.dom().contains(address) {
            Some(self.holders@[address])
        } else {
            None
        }
    }

    /// Whether the object at `address` was released by a caller and
    /// not filled with zeros since.
    pub closed spec fn stale(&self, address: usize) -> bool {
        self.stale@.contains(address)
    }

    /// The number of caches that were given a holder of their own: the
    /// holders from 1 to this number.
    pub closed spec fn cache_count(&self) -> nat {
        self.caches@
    }

    /// The objects of `class` that callers hold: the live allocations
    /// of the class.
    pub closed spec fn live_of(&self, class: u32) -> Set<usize> {
        if self.live@.dom().contains(class) {
            self.live@[class]
        } else {
            Set::empty()
        }
    }

    /// The number of allocations of objects of `class` that
    /// succeeded.
    pub closed spec fn allocated(&self, class: u32) -> nat {
        if self.allocated@.dom().contains(class) {
            self.allocated@[class]
        } else {
            0
        }
    }

    /// The number of releases of objects of `class`.
    pub closed spec fn released(&self, class: u32) -> nat {
        if self.released@.dom().contains(class) {
            self.released@[class]
        } else {
            0
        }
    }

    /// The size of the objects of `class`, once the class is
    /// registered.
    pub closed spec fn size_of_class(&self, class: u32) -> Option<usize> {
        if self.class_sizes@.dom().contains(class) {
            Some(self.class_sizes@[class])
        } else {
            None
        }
    }

    /// The size of the object at `address`: that of the objects of the
    /// class that owns the span at the address, or zero where there is
    /// no such class.
    pub open spec fn size_at(&self, chunks: &Chunks, address: usize) -> usize {
        match chunks.class_of(address as int) {
            Some(class) => match self.size_of_class(class) {
                Some(size) => size,
                None => 0,
            },
            None => 0,
        }
    }

    /// Whether the objects that somebody holds lie apart: each of them
    /// has the size of its class and ends inside the address space,
    /// all of its bytes lie in spans of its class, and no two of them
    /// share a byte.
    pub closed spec fn apart_ok(&self, chunks: &Chunks) -> bool {
        &&& forall|a: usize| #[trigger]
            self.holders@.dom().contains(a) ==> self.size_at(chunks, a) > 0 && a + self.size_at(
                chunks,
                a,
            ) <= usize::MAX
        &&& forall|a: usize, x: int|
            #![trigger self.holders@.dom().contains(a), chunks.class_of(x)]
            self.holders@.dom().contains(a) && a <= x < a + self.size_at(chunks, a)
                ==> chunks.class_of(x) == chunks.class_of(a as int)
        &&& forall|a: usize, b: usize|
            #![trigger self.holders@.dom().contains(a), self.holders@.dom().contains(b)]
            self.holders@.dom().contains(a) && self.holders@.dom().contains(b) && a != b ==> a
                + self.size_at(chunks, a) <= b || b + self.size_at(chunks, b) <= a
    }

    /// Whether no object that somebody holds has a byte from `lo` up
    /// to `hi`.
    pub closed spec fn clear_of(&self, chunks: &Chunks, lo: int, hi: int) -> bool {
        lo < hi ==> forall|b: usize| #[trigger]
            self.holders@.dom().contains(b) ==> b + self.size_at(chunks, b) <= lo || b >= hi
    }

    /// Whether somebody holds every address in `moved`.
    pub open spec fn held_all(&self, moved: Multiset<usize>) -> bool {
        forall|a: usize| #![trigger moved.count(a)] moved.count(a) >= 1 ==> self.holder(a) is Some
    }

    /// Whether the classes have in `self` the sizes that they have in
    /// `old`.
    pub open spec fn same_sizes(&self, old: &Ledger) -> bool {
        forall|class: u32|
            #![trigger self.size_of_class(class)]
            self.size_of_class(class) == old.size_of_class(class)
    }

    /// Whether the classes that have a size in `old` have that size in
    /// `self`.
    pub open spec fn keeps_sizes(&self, old: &Ledger) -> bool {
        forall|class: u32|
            #![trigger self.size_of_class(class)]
            old.size_of_class(class) is Some ==> self.size_of_class(class) == old.size_of_class(
                class,
            )
    }

    /// Whether `self` is `old` but for the size of the objects of
    /// `class`, a class that had none.
    pub open spec fn registered(&self, old: &Ledger, class: u32, size: usize) -> bool {
        &&& old.size_of_class(class) is None
        &&& self.size_of_class(class) == Some(size)
        &&& forall|other: u32|
            #![trigger self.size_of_class(other)]
            other != class ==> self.size_of_class(other) == old.size_of_class(other)
        &&& forall|a: usize| #![trigger self.holder(a)] self.holder(a) == old.holder(a)
        &&& forall|a: usize| #![trigger self.stale(a)] self.stale(a) == old.stale(a)
        &&& self.cache_count() == old.cache_count()
        &&& forall|other: u32|
            #![trigger self.live_of(other)]
            #![trigger self.allocated(other)]
            #![trigger self.released(other)]
            self.live_of(other) == old.live_of(other) && self.allocated(other) == old.allocated(
                other,
            ) && self.released(other) == old.released(other)
    }

    /// Whether `self` keeps apart whatever `old` keeps apart, and
    /// keeps clear whatever `old` keeps clear.
    pub open spec fn keeps_apart(&self, old: &Ledger) -> bool {
        &&& forall|chunks: &Chunks|
            #![trigger self.apart_ok(chunks)]
            old.apart_ok(chunks) ==> self.apart_ok(chunks)
        &&& forall|chunks: &Chunks, lo: int, hi: int|
            #![trigger self.clear_of(chunks, lo, hi)]
            old.clear_of(chunks, lo, hi) ==> self.clear_of(chunks, lo, hi)
    }

    /// Where the same objects are held and the classes have the same
    /// sizes, the same objects lie apart.
    proof fn lemma_same_held(&self, old: &Ledger)
        requires
            forall|a: usize| self.holders@.dom().contains(a) == old.holders@.dom().contains(a),
            self.class_sizes@ == old.class_sizes@,
        ensures
            self.keeps_apart(old),
    {
        assert forall|chunks: &Chunks| #![trigger self.apart_ok(chunks)] old.apart_ok(
            chunks,
        ) implies self.apart_ok(chunks) by {
            assert forall|a: usize| self.size_at(chunks, a) == old.size_at(chunks, a) by {}
            assert forall|a: usize, x: int|
                #![trigger self.holders@.dom().contains(a), chunks.class_of(x)]
                self.holders@.dom().contains(a) && a <= x < a + self.size_at(chunks, a)
                    implies chunks.class_of(x) == chunks.class_of(a as int) by {
                assert(old.holders@.dom().contains(a));
            }
            assert forall|a: usize, b: usize|
                #![trigger self.holders@.dom().contains(a), self.holders@.dom().contains(b)]
                self.holders@.dom().contains(a) && self.holders@.dom().contains(b) && a
                    != b implies a + self.size_at(chunks, a) <= b || b + self.size_at(chunks, b)
                <= a by {
                assert(old.holders@.dom().contains(a));
                assert(old.holders@.dom().contains(b));
            }
        }
        assert forall|chunks: &Chunks, lo: int, hi: int|
            #![trigger self.clear_of(chunks, lo, hi)]
            old.clear_of(chunks, lo, hi) implies self.clear_of(chunks, lo, hi) by {
            assert forall|a: usize| self.size_at(chunks, a) == old.size_at(chunks, a) by {}
            if lo < hi {
                assert forall|b: usize| #[trigger]
                    self.holders@.dom().contains(b) implies b + self.size_at(chunks, b) <= lo || b
                    >= hi by {
                    assert(old.holders@.dom().contains(b));
                }
            }
        }
    }

    /// Whether `holder` stands for a cache that was given a holder of
    /// its own.
    pub open spec fn is_cache(&self, holder: int) -> bool {
        1 <= holder <= self.cache_count()
    }

    /// Whether `self` counts the allocations and the releases as `old`
    /// does, with the same live allocations.
    pub open spec fn same_counts(&self, old: &Ledger) -> bool {
        &&& forall|class: u32|
            #![trigger self.live_of(class)]
            #![trigger self.allocated(class)]
            #![trigger self.released(class)]
            self.live_of(class) == old.live_of(class) && self.allocated(class) == old.allocated(
                class,
            ) && self.released(class) == old.released(class)
        &&& self.same_sizes(old)
    }

    /// Whether `self` is `old` with one more allocation of an object
    /// of `class`.
    pub open spec fn checked_out(&self, old: &Ledger, class: u32) -> bool {
        &&& self.allocated(class) == old.allocated(class) + 1
        &&& self.released(class) == old.released(class)
        &&& self.live_of(class).len() == old.live_of(class).len() + 1
        &&& forall|other: u32|
            #![trigger self.live_of(other)]
            #![trigger self.allocated(other)]
            #![trigger self.released(other)]
            other != class ==> self.live_of(other) == old.live_of(other) && self.allocated(other)
                == old.allocated(other) && self.released(other) == old.released(other)
        &&& self.same_sizes(old)
    }

    /// Whether `self` is `old` with one more release of an object of
    /// `class`.
    pub open spec fn checked_in(&self, old: &Ledger, class: u32) -> bool {
        &&& self.allocated(class) == old.allocated(class)
        &&& self.released(class) == old.released(class) + 1
        &&& self.live_of(class).len() + 1 == old.live_of(class).len()
        &&& forall|other: u32|
            #![trigger self.live_of(other)]
            #![trigger self.allocated(other)]
            #![trigger self.released(other)]
            other != class ==> self.live_of(other) == old.live_of(other) && self.allocated(other)
                == old.allocated(other) && self.released(other) == old.released(other)
        &&& self.same_sizes(old)
    }

    /// Whether `holder` stands for the callers or for a cache that was
    /// given a holder of its own.
    pub open spec fn enrolled(&self, holder: int) -> bool {
        0 <= holder <= self.cache_count()
    }

    /// Every object that a holder has is in the data of a span that a
    /// class owns, its holder is the depot, the callers or a cache, and
    /// only such objects are stale.  The live allocations are counted
    /// right, and the objects that somebody holds lie apart.
    pub open spec fn wf(&self, chunks: &Chunks) -> bool {
        &&& forall|a: usize| #[trigger]
            self.holder(a) is Some ==> chunks.class_of(a as int) is Some && (self.holder(a)
                == Some(depot()) || self.enrolled(self.holder(a)->0))
        &&& forall|a: usize| #[trigger] self.stale(a) ==> self.holder(a) is Some
        &&& self.counts_ok(chunks)
        &&& self.apart_ok(chunks)
    }

    /// Whether the live allocations of each class are the objects of
    /// the class that callers hold, as many as the allocations that
    /// succeeded less the releases.
    pub open spec fn counts_ok(&self, chunks: &Chunks) -> bool {
        &&& forall|class: u32, a: usize|
            #![trigger self.live_of(class).contains(a)]
            self.live_of(class).contains(a) <==> self.holder(a) == Some(caller())
                && chunks.class_of(a as int) == Some(class)
        &&& forall|class: u32|
            #![trigger self.live_of(class)]
            self.live_of(class).finite() && self.live_of(class).len() + self.released(class)
                == self.allocated(class)
    }

    /// Whether the depot holds in `self` what it held in `old`, and
    /// every address in `moved` besides.
    pub open spec fn stocks(&self, old: &Ledger, moved: Multiset<usize>) -> bool {
        forall|a: usize|
            #![trigger self.holder(a)]
            old.holder(a) == Some(depot()) || moved.count(a) >= 1 ==> self.holder(a) == Some(
                depot(),
            )
    }

    /// Whether `holder` has every address in `held`, and none of them
    /// twice.
    pub open spec fn holds(&self, holder: int, held: Multiset<usize>) -> bool {
        forall|a: usize|
            #![trigger held.count(a)]
            held.count(a) <= 1 && (held.count(a) >= 1 ==> self.holder(a) == Some(holder))
    }

    /// Whether no address in `held` is stale.
    pub open spec fn clean(&self, held: Multiset<usize>) -> bool {
        forall|a: usize| #![trigger held.count(a)] held.count(a) >= 1 ==> !self.stale(a)
    }

    /// Whether only `holder`, the depot, the callers and caches that
    /// `old` does not know gained an object between `old` and `self`.
    pub open spec fn gains_only(&self, old: &Ledger, holder: int) -> bool {
        forall|a: usize|
            #![trigger self.holder(a)]
            self.holder(a) != old.holder(a) ==> self.holder(a) == Some(holder) || self.holder(a)
                == Some(depot()) || self.holder(a) == Some(caller()) || (self.holder(a) is Some
                && self.holder(a)->0 > old.cache_count())
    }

    /// Whether `holder` gained no object between `old` and `self`.
    pub open spec fn gains_nothing(&self, old: &Ledger, holder: int) -> bool {
        forall|a: usize|
            #![trigger self.holder(a)]
            self.holder(a) == Some(holder) ==> old.holder(a) == Some(holder)
    }

    /// A cache that `old` knows gains nothing where only another
    /// holder, the depot, the callers and new caches gain.
    pub proof fn lemma_gains_nothing(&self, old: &Ledger, other: int, holder: int)
        requires
            self.gains_only(old, other),
            other != holder,
            old.is_cache(holder),
        ensures
            self.gains_nothing(old, holder),
    {
    }

    /// Whether every object of `class` that `holder` has in `self` is
    /// accounted for: it is among `put`, or else `holder` had it in
    /// `old`, and not among `taken`.
    pub open spec fn tracks(
        &self,
        old: &Ledger,
        chunks: &Chunks,
        holder: int,
        class: u32,
        taken: Multiset<usize>,
        put: Multiset<usize>,
    ) -> bool {
        forall|a: usize|
            #![trigger self.holder(a)]
            self.holder(a) == Some(holder) && chunks.class_of(a as int) == Some(class) ==> put.count(
                a,
            ) >= 1 || (old.holder(a) == Some(holder) && taken.count(a) == 0)
    }

    /// Whether every object of `class` that `holder` has is among
    /// `held`.
    pub open spec fn holds_only(
        &self,
        chunks: &Chunks,
        holder: int,
        class: u32,
        held: Multiset<usize>,
    ) -> bool {
        forall|a: usize|
            #![trigger self.holder(a)]
            self.holder(a) == Some(holder) && chunks.class_of(a as int) == Some(class)
                ==> held.count(a) >= 1
    }

    /// Whether `self` may follow `old` where only `holder` and the
    /// depots moved objects: what any other holder had, it still has,
    /// as stale as it was; no object turned stale; and no cache lost
    /// its holder.
    pub open spec fn spares(&self, old: &Ledger, holder: int) -> bool {
        &&& self.cache_count() >= old.cache_count()
        &&& self.gains_only(old, holder)
        &&& forall|a: usize|
            #![trigger self.holder(a)]
            #![trigger old.holder(a)]
            old.holder(a) is Some && old.holder(a) != Some(holder) && old.holder(a) != Some(depot())
                ==> self.holder(a) == old.holder(a) && self.stale(a) == old.stale(a)
        &&& forall|a: usize| #![trigger self.stale(a)] self.stale(a) ==> old.stale(a)
        &&& forall|a: usize|
            #![trigger self.holder(a)]
            old.holder(a) is Some ==> self.holder(a) is Some
    }

    /// Whether `self` may follow `old` where only the depots and the
    /// presses gave objects away: what any caller or cache had, it
    /// still has, as stale as it was, but for the object at `except`.
    pub open spec fn shields(&self, old: &Ledger, except: Option<usize>) -> bool {
        &&& self.cache_count() >= old.cache_count()
        &&& self.gains_only(old, depot())
        &&& forall|a: usize|
            #![trigger self.holder(a)]
            #![trigger old.holder(a)]
            old.holder(a) is Some && old.holder(a) != Some(depot()) && Some(a) != except
                ==> self.holder(a) == old.holder(a) && self.stale(a) == old.stale(a)
        &&& forall|a: usize|
            #![trigger self.stale(a)]
            self.stale(a) && Some(a) != except ==> old.stale(a)
        &&& forall|a: usize|
            #![trigger self.holder(a)]
            old.holder(a) is Some ==> self.holder(a) is Some
    }

    /// Whether `self` may follow `old` where `holder` took the object
    /// at `taken` from a caller who released it, and then only
    /// `holder` and the depots moved objects.
    pub open spec fn spares_but(&self, old: &Ledger, holder: int, taken: usize) -> bool {
        &&& self.cache_count() >= old.cache_count()
        &&& self.gains_only(old, holder)
        &&& forall|a: usize|
            #![trigger self.holder(a)]
            #![trigger old.holder(a)]
            old.holder(a) is Some && old.holder(a) != Some(holder) && old.holder(a) != Some(depot())
                && a != taken ==> self.holder(a) == old.holder(a) && self.stale(a) == old.stale(
                a,
            )
        &&& forall|a: usize| #![trigger self.stale(a)] self.stale(a) && a != taken ==> old.stale(a)
        &&& forall|a: usize|
            #![trigger self.holder(a)]
            old.holder(a) is Some ==> self.holder(a) is Some
    }

    /// Whether what the callers held in `old`, they hold in `self`, as
    /// stale as it was, but for the object at `except`.
    pub open spec fn keeps_live(&self, old: &Ledger, except: Option<usize>) -> bool {
        forall|a: usize|
            #![trigger self.holder(a)]
            #![trigger old.holder(a)]
            old.holder(a) == Some(caller()) && Some(a) != except ==> self.holder(a) == Some(
                caller(),
            ) && self.stale(a) == old.stale(a)
    }

    /// Whether `holder` has in `self` what it had in `old`, as stale
    /// as it was.
    pub open spec fn keeps(&self, old: &Ledger, holder: int) -> bool {
        forall|a: usize|
            #![trigger self.holder(a)]
            #![trigger old.holder(a)]
            old.holder(a) == Some(holder) ==> self.holder(a) == Some(holder) && self.stale(a)
                == old.stale(a)
    }

    /// Whether `self` differs from `old` only in what it says of the
    /// objects of `class`.
    pub open spec fn frames(&self, old: &Ledger, chunks: &Chunks, class: u32) -> bool {
        forall|a: usize|
            #![trigger self.holder(a)]
            #![trigger self.stale(a)]
            chunks.class_of(a as int) != Some(class) ==> self.holder(a) == old.holder(a)
                && self.stale(a) == old.stale(a)
    }

    /// A ledger stays valid while the chunks live on, and what is
    /// clear stays clear.
    pub proof fn lemma_wf_extends(&self, old_chunks: &Chunks, chunks: &Chunks)
        requires
            self.wf(old_chunks),
            chunks.extends(old_chunks),
        ensures
            self.wf(chunks),
            forall|lo: int, hi: int|
                #![trigger self.clear_of(chunks, lo, hi)]
                self.clear_of(old_chunks, lo, hi) ==> self.clear_of(chunks, lo, hi),
    {
        assert forall|x: int| old_chunks.class_of(x) is Some implies chunks.class_of(x)
            == old_chunks.class_of(x) by {
            assert(old_chunks@.dom().contains(crate::mill::metadata_address(x)));
        }
        assert forall|a: usize| #[trigger]
            self.holders@.dom().contains(a) implies self.size_at(chunks, a) == self.size_at(
            old_chunks,
            a,
        ) && old_chunks.class_of(a as int) is Some by {
            assert(self.holder(a) is Some);
        }
        assert(self.apart_ok(chunks)) by {
            assert forall|a: usize, x: int|
                #![trigger self.holders@.dom().contains(a), chunks.class_of(x)]
                self.holders@.dom().contains(a) && a <= x < a + self.size_at(chunks, a)
                    implies chunks.class_of(x) == chunks.class_of(a as int) by {
                assert(old_chunks.class_of(x) == old_chunks.class_of(a as int));
            }
        }
        assert forall|lo: int, hi: int|
            #![trigger self.clear_of(chunks, lo, hi)]
            self.clear_of(old_chunks, lo, hi) implies self.clear_of(chunks, lo, hi) by {
            if lo < hi {
                assert forall|b: usize| #[trigger]
                    self.holders@.dom().contains(b) implies b + self.size_at(chunks, b) <= lo || b
                    >= hi by {}
            }
        }
        assert forall|a: usize| #[trigger] self.holder(a) is Some implies chunks.class_of(a as int)
            is Some && chunks.class_of(a as int) == old_chunks.class_of(a as int) && (self.holder(a)
            == Some(depot()) || self.enrolled(self.holder(a)->0)) by {
            assert(old_chunks.class_of(a as int) is Some);
            assert(old_chunks@.dom().contains(crate::mill::metadata_address(a as int)));
        }
        assert forall|class: u32, a: usize|
            #![trigger self.live_of(class).contains(a)]
            self.live_of(class).contains(a) <==> self.holder(a) == Some(caller())
                && chunks.class_of(a as int) == Some(class) by {
            if self.holder(a) == Some(caller()) {
                assert(self.holder(a) is Some);
            }
        }
    }

    /// A ledger without any object.
    pub fn new() -> (ret: Ledger)
        ensures
            forall|a: usize| #![trigger ret.holder(a)] ret.holder(a) is None,
            forall|a: usize| #![trigger ret.stale(a)] !ret.stale(a),
            ret.cache_count() == 0,
            forall|class: u32|
                #![trigger ret.live_of(class)]
                #![trigger ret.allocated(class)]
                #![trigger ret.released(class)]
                ret.live_of(class) == Set::<usize>::empty() && ret.allocated(class) == 0
                    && ret.released(class) == 0,
            forall|class: u32| #![trigger ret.size_of_class(class)] ret.size_of_class(class) is None,
            forall|chunks: &Chunks| #![trigger ret.apart_ok(chunks)] ret.apart_ok(chunks),
    {
        Ledger {
            holders: Ghost(Map::empty()),
            stale: Ghost(Set::empty()),
            caches: Ghost(0),
            live: Ghost(Map::empty()),
            allocated: Ghost(Map::empty()),
            released: Ghost(Map::empty()),
            class_sizes: Ghost(Map::empty()),
        }
    }

    /// Records that `holder` has every address in `moved`, which
    /// somebody held, from now on.
    pub fn give(&mut self, Ghost(moved): Ghost<Multiset<usize>>, Ghost(holder): Ghost<int>)
        requires
            old(self).held_all(moved),
        ensures
            final(self).keeps_apart(old(self)),
            forall|a: usize|
                #![trigger final(self).holder(a)]
                final(self).holder(a) == if moved.count(a) >= 1 {
                    Some(holder)
                } else {
                    old(self).holder(a)
                },
            forall|a: usize| #![trigger final(self).stale(a)] final(self).stale(a) == old(self).stale(a),
            final(self).cache_count() == old(self).cache_count(),
            final(self).same_counts(old(self)),
    {
        let ghost entry = *self;
        proof {
            let before = self.holders@;
            self.holders@ = Map::new(
                |a: usize| moved.count(a) >= 1 || before.dom().contains(a),
                |a: usize|
                    if moved.count(a) >= 1 {
                        holder
                    } else {
                        before[a]
                    },
            );
            assert forall|a: usize| self.holders@.dom().contains(a) == entry.holders@.dom().contains(
                a,
            ) by {
                if moved.count(a) >= 1 {
                    assert(entry.holder(a) is Some);
                }
            }
            self.lemma_same_held(&entry);
        }
    }

    /// Records that a caller has the object at `address`, an object of
    /// `class` that no caller had: one more allocation of an object
    /// of the class succeeded.
    pub fn check_out(&mut self, Ghost(address): Ghost<usize>, Ghost(class): Ghost<u32>)
        requires
            old(self).holder(address) is Some,
            old(self).holder(address) != Some(caller()),
            !old(self).live_of(class).contains(address),
            old(self).live_of(class).finite(),
        ensures
            final(self).same_sizes(old(self)),
            final(self).keeps_apart(old(self)),
            final(self).holder(address) == Some(caller()),
            forall|a: usize|
                #![trigger final(self).holder(a)]
                a != address ==> final(self).holder(a) == old(self).holder(a),
            forall|a: usize| #![trigger final(self).stale(a)] final(self).stale(a) == old(self).stale(a),
            final(self).cache_count() == old(self).cache_count(),
            final(self).live_of(class) == old(self).live_of(class).insert(address),
            final(self).live_of(class).len() == old(self).live_of(class).len() + 1,
            final(self).allocated(class) == old(self).allocated(class) + 1,
            final(self).released(class) == old(self).released(class),
            forall|other: u32|
                #![trigger final(self).live_of(other)]
                #![trigger final(self).allocated(other)]
                #![trigger final(self).released(other)]
                other != class ==> final(self).live_of(other) == old(self).live_of(other)
                    && final(self).allocated(other) == old(self).allocated(other)
                    && final(self).released(other) == old(self).released(other),
    {
        let ghost entry = *self;
        proof {
            let live = self.live_of(class);
            let count = self.allocated(class);
            self.holders@ = self.holders@.insert(address, caller());
            self.lemma_same_held(&entry);
            self.live@ = self.live@.insert(class, live.insert(address));
            self.allocated@ = self.allocated@.insert(class, count + 1);
        }
    }

    /// Records that `holder` has the object at `address`, an object of
    /// `class` that a caller had: one more release of an object of the
    /// class.
    pub fn check_in(
        &mut self,
        Ghost(address): Ghost<usize>,
        Ghost(holder): Ghost<int>,
        Ghost(class): Ghost<u32>,
    )
        requires
            old(self).holder(address) is Some,
            old(self).live_of(class).contains(address),
            old(self).live_of(class).finite(),
            holder != caller(),
        ensures
            final(self).same_sizes(old(self)),
            final(self).keeps_apart(old(self)),
            final(self).holder(address) == Some(holder),
            forall|a: usize|
                #![trigger final(self).holder(a)]
                a != address ==> final(self).holder(a) == old(self).holder(a),
            forall|a: usize| #![trigger final(self).stale(a)] final(self).stale(a) == old(self).stale(a),
            final(self).cache_count() == old(self).cache_count(),
            final(self).live_of(class) == old(self).live_of(class).remove(address),
            final(self).live_of(class).len() + 1 == old(self).live_of(class).len(),
            final(self).allocated(class) == old(self).allocated(class),
            final(self).released(class) == old(self).released(class) + 1,
            forall|other: u32|
                #![trigger final(self).live_of(other)]
                #![trigger final(self).allocated(other)]
                #![trigger final(self).released(other)]
                other != class ==> final(self).live_of(other) == old(self).live_of(other)
                    && final(self).allocated(other) == old(self).allocated(other)
                    && final(self).released(other) == old(self).released(other),
    {
        let ghost entry = *self;
        proof {
            let live = self.live_of(class);
            let count = self.released(class);
            self.holders@ = self.holders@.insert(address, holder);
            self.lemma_same_held(&entry);
            self.live@ = self.live@.insert(class, live.remove(address));
            self.released@ = self.released@.insert(class, count + 1);
        }
    }

    /// Records that the object at `address` is stale.
    pub fn soil(&mut self, Ghost(address): Ghost<usize>)
        ensures
            final(self).stale(address),
            forall|a: usize|
                #![trigger final(self).stale(a)]
                a != address ==> final(self).stale(a) == old(self).stale(a),
            forall|a: usize|
                #![trigger final(self).holder(a)]
                final(self).holder(a) == old(self).holder(a),
            final(self).cache_count() == old(self).cache_count(),
            final(self).same_counts(old(self)),
            final(self).keeps_apart(old(self)),
    {
        let ghost entry = *self;
        proof {
            self.stale@ = self.stale@.insert(address);
            self.lemma_same_held(&entry);
        }
    }

    /// Records that no address in `zeroed` is stale any more.
    pub fn rinse(&mut self, Ghost(zeroed): Ghost<Multiset<usize>>)
        ensures
            forall|a: usize|
                #![trigger final(self).stale(a)]
                final(self).stale(a) == (old(self).stale(a) && zeroed.count(a) == 0),
            forall|a: usize|
                #![trigger final(self).holder(a)]
                final(self).holder(a) == old(self).holder(a),
            final(self).cache_count() == old(self).cache_count(),
            final(self).same_counts(old(self)),
            final(self).keeps_apart(old(self)),
    {
        let ghost entry = *self;
        proof {
            let before = self.stale@;
            self.stale@ = Set::new(|a: usize| before.contains(a) && zeroed.count(a) == 0);
            self.lemma_same_held(&entry);
        }
    }

    /// Gives a cache a holder of its own: the next one.
    pub fn enroll(&mut self) -> (ret: Ghost<int>)
        ensures
            ret@ == old(self).cache_count() + 1,
            final(self).cache_count() == old(self).cache_count() + 1,
            forall|a: usize|
                #![trigger final(self).holder(a)]
                final(self).holder(a) == old(self).holder(a),
            forall|a: usize| #![trigger final(self).stale(a)] final(self).stale(a) == old(self).stale(a),
            final(self).same_counts(old(self)),
            final(self).keeps_apart(old(self)),
    {
        let ghost entry = *self;
        proof {
            self.caches@ = self.caches@ + 1;
            self.lemma_same_held(&entry);
        }
        Ghost(self.caches@ as int)
    }
}

impl Ledger {
    /// Records that the objects of `class`, a new class, have `size`
    /// bytes.
    pub fn register(&mut self, Ghost(class): Ghost<u32>, Ghost(size): Ghost<usize>)
        requires
            old(self).size_of_class(class) is None,
            size > 0,
        ensures
            final(self).registered(old(self), class, size),
            final(self).size_of_class(class) == Some(size),
            forall|other: u32|
                #![trigger final(self).size_of_class(other)]
                other != class ==> final(self).size_of_class(other) == old(self).size_of_class(other),
            forall|a: usize|
                #![trigger final(self).holder(a)]
                final(self).holder(a) == old(self).holder(a),
            forall|a: usize| #![trigger final(self).stale(a)] final(self).stale(a) == old(self).stale(a),
            final(self).cache_count() == old(self).cache_count(),
            forall|other: u32|
                #![trigger final(self).live_of(other)]
                #![trigger final(self).allocated(other)]
                #![trigger final(self).released(other)]
                final(self).live_of(other) == old(self).live_of(other) && final(self).allocated(
                    other,
                ) == old(self).allocated(other) && final(self).released(other) == old(self).released(
                    other,
                ),
            forall|chunks: &Chunks|
                #![trigger final(self).wf(chunks)]
                old(self).wf(chunks) ==> final(self).wf(chunks),
    {
        let ghost entry = *self;
        proof {
            self.class_sizes@ = self.class_sizes@.insert(class, size);
            assert forall|chunks: &Chunks| #![trigger self.wf(chunks)] entry.wf(
                chunks,
            ) implies self.wf(chunks) by {
                assert forall|a: usize| #![trigger self.holder(a)] self.holder(a) == entry.holder(
                    a,
                ) by {}
                assert forall|a: usize| #![trigger self.stale(a)] self.stale(a) == entry.stale(
                    a,
                ) by {}
                assert forall|other: u32|
                    #![trigger self.live_of(other)]
                    self.live_of(other) == entry.live_of(other) && self.allocated(other)
                        == entry.allocated(other) && self.released(other) == entry.released(
                        other,
                    ) by {}
                assert(self.counts_ok(chunks));
                assert forall|a: usize| #[trigger]
                    self.holders@.dom().contains(a) implies self.size_at(chunks, a)
                    == entry.size_at(chunks, a) by {
                    assert(entry.holders@.dom().contains(a));
                    assert(entry.size_at(chunks, a) > 0);
                }
                assert(self.apart_ok(chunks)) by {
                    assert forall|a: usize, x: int|
                        #![trigger self.holders@.dom().contains(a), chunks.class_of(x)]
                        self.holders@.dom().contains(a) && a <= x < a + self.size_at(chunks, a)
                            implies chunks.class_of(x) == chunks.class_of(a as int) by {
                        assert(entry.holders@.dom().contains(a));
                    }
                    assert forall|a: usize, b: usize|
                        #![trigger self.holders@.dom().contains(a), self.holders@.dom().contains(b)]
                        self.holders@.dom().contains(a) && self.holders@.dom().contains(b) && a
                            != b implies a + self.size_at(chunks, a) <= b || b + self.size_at(
                        chunks,
                        b,
                    ) <= a by {
                        assert(entry.holders@.dom().contains(a));
                        assert(entry.holders@.dom().contains(b));
                    }
                }
            }
        }
    }

    /// Records that `to` has the `count` objects of `size` bytes from
    /// `base` on, objects of `class` that a press made and that nobody
    /// held: the bytes from `base` on were clear.
    pub fn grant(
        &mut self,
        Ghost(chunks): Ghost<&Chunks>,
        Ghost(class): Ghost<u32>,
        Ghost(base): Ghost<usize>,
        Ghost(size): Ghost<usize>,
        Ghost(count): Ghost<int>,
        Ghost(to): Ghost<int>,
    )
        requires
            old(self).apart_ok(chunks),
            old(self).size_of_class(class) == Some(size),
            size > 0,
            count > 0,
            base + count * size <= usize::MAX,
            forall|x: int| base <= x < base + count * size ==> chunks.class_of(x) == Some(class),
            old(self).clear_of(chunks, base as int, base + count * size),
        ensures
            forall|a: usize|
                #![trigger final(self).holder(a)]
                final(self).holder(a) == if objects(base, size, count).to_multiset().count(a) >= 1 {
                    Some(to)
                } else {
                    old(self).holder(a)
                },
            forall|a: usize| #![trigger final(self).stale(a)] final(self).stale(a) == old(self).stale(a),
            final(self).cache_count() == old(self).cache_count(),
            final(self).same_counts(old(self)),
            final(self).apart_ok(chunks),
            forall|lo: int, hi: int|
                #![trigger final(self).clear_of(chunks, lo, hi)]
                old(self).clear_of(chunks, lo, hi) && (hi <= base || base + count * size <= lo)
                    ==> final(self).clear_of(chunks, lo, hi),
    {
        let ghost entry = *self;
        proof {
            let moved = objects(base, size, count).to_multiset();
            lemma_objects_are_distinct(base, size, count);
            let before = self.holders@;
            self.holders@ = Map::new(
                |a: usize| moved.count(a) >= 1 || before.dom().contains(a),
                |a: usize|
                    if moved.count(a) >= 1 {
                        to
                    } else {
                        before[a]
                    },
            );
            assert forall|a: usize| moved.count(a) >= 1 implies base <= a && a + size <= base + count
                * size && chunks.class_of(a as int) == Some(class) && self.size_at(chunks, a)
                == size by {
                let i = choose|i: int| 0 <= i < count && a == #[trigger] (base + i * size) as usize;
                assert(0 <= i * size && i * size + size <= count * size) by (nonlinear_arith)
                    requires
                        0 <= i < count,
                        size > 0,
                ;
            }
            assert forall|a: usize| self.size_at(chunks, a) == entry.size_at(chunks, a) by {}
            assert forall|a: usize, b: usize|
                #![trigger self.holders@.dom().contains(a), self.holders@.dom().contains(b)]
                self.holders@.dom().contains(a) && self.holders@.dom().contains(b) && a
                    != b implies a + self.size_at(chunks, a) <= b || b + self.size_at(chunks, b)
                <= a by {
                if moved.count(a) >= 1 && moved.count(b) >= 1 {
                    let i = choose|i: int|
                        0 <= i < count && a == #[trigger] (base + i * size) as usize;
                    let j = choose|j: int|
                        0 <= j < count && b == #[trigger] (base + j * size) as usize;
                    assert(0 <= i * size && i * size + size <= count * size) by (nonlinear_arith)
                        requires
                            0 <= i < count,
                            size > 0,
                    ;
                    assert(0 <= j * size && j * size + size <= count * size) by (nonlinear_arith)
                        requires
                            0 <= j < count,
                            size > 0,
                    ;
                    if i < j {
                        assert(i * size + size <= j * size) by (nonlinear_arith)
                            requires
                                i < j,
                                size > 0,
                        ;
                    } else {
                        assert(j * size + size <= i * size) by (nonlinear_arith)
                            requires
                                j < i,
                                size > 0,
                        ;
                    }
                } else if moved.count(a) >= 1 {
                    assert(entry.holders@.dom().contains(b));
                } else if moved.count(b) >= 1 {
                    assert(entry.holders@.dom().contains(a));
                } else {
                    assert(entry.holders@.dom().contains(a));
                    assert(entry.holders@.dom().contains(b));
                }
            }
            assert forall|a: usize, x: int|
                #![trigger self.holders@.dom().contains(a), chunks.class_of(x)]
                self.holders@.dom().contains(a) && a <= x < a + self.size_at(chunks, a)
                    implies chunks.class_of(x) == chunks.class_of(a as int) by {
                if moved.count(a) >= 1 {
                } else {
                    assert(entry.holders@.dom().contains(a));
                }
            }
            assert forall|a: usize| #[trigger]
                self.holders@.dom().contains(a) implies self.size_at(chunks, a) > 0 && a
                + self.size_at(chunks, a) <= usize::MAX by {
                if moved.count(a) >= 1 {
                } else {
                    assert(entry.holders@.dom().contains(a));
                }
            }
            assert forall|lo: int, hi: int|
                #![trigger self.clear_of(chunks, lo, hi)]
                entry.clear_of(chunks, lo, hi) && (hi <= base || base + count * size
                    <= lo) implies self.clear_of(chunks, lo, hi) by {
                if lo < hi {
                    assert forall|b: usize| #[trigger]
                        self.holders@.dom().contains(b) implies b + self.size_at(chunks, b) <= lo
                        || b >= hi by {
                        if moved.count(b) >= 1 {
                        } else {
                            assert(entry.holders@.dom().contains(b));
                        }
                    }
                }
            }
        }
    }

    /// No object that somebody holds has a byte from `lo` up to `hi`
    /// where no class owns a span there.
    pub proof fn lemma_clear_fresh(&self, chunks: &Chunks, lo: int, hi: int)
        requires
            self.wf(chunks),
            forall|x: int| lo <= x < hi ==> chunks.class_of(x) is None,
        ensures
            self.clear_of(chunks, lo, hi),
    {
        if lo < hi {
            assert forall|b: usize| #[trigger]
                self.holders@.dom().contains(b) implies b + self.size_at(chunks, b) <= lo || b
                >= hi by {
                assert(self.holder(b) is Some);
                assert(chunks.class_of(b as int) is Some);
                if b < lo && b + self.size_at(chunks, b) > lo {
                    assert(chunks.class_of(lo) == chunks.class_of(b as int));
                }
            }
        }
    }

    /// What is clear stays clear where less is asked.
    pub proof fn lemma_clear_shrinks(&self, chunks: &Chunks, lo: int, hi: int, from: int, to: int)
        requires
            self.clear_of(chunks, lo, hi),
            lo <= from,
            to <= hi,
        ensures
            self.clear_of(chunks, from, to),
    {
        if from < to {
            assert forall|b: usize| #[trigger]
                self.holders@.dom().contains(b) implies b + self.size_at(chunks, b) <= from || b
                >= to by {}
        }
    }

    /// The bytes from `lo` up to `hi`, in a span of `class`, stay
    /// clear while the chunks live on and only objects of other
    /// classes find a holder.
    pub proof fn lemma_clear_frame(
        &self,
        old: &Ledger,
        old_chunks: &Chunks,
        chunks: &Chunks,
        lo: int,
        hi: int,
        class: u32,
    )
        requires
            old.clear_of(old_chunks, lo, hi),
            old.wf(old_chunks),
            self.wf(chunks),
            chunks.extends(old_chunks),
            self.keeps_sizes(old),
            forall|x: int| lo <= x < hi ==> old_chunks.class_of(x) == Some(class),
            forall|b: usize|
                #![trigger self.holder(b)]
                old.holder(b) is None && self.holder(b) is Some ==> chunks.class_of(b as int)
                    != Some(class),
        ensures
            self.clear_of(chunks, lo, hi),
    {
        if lo < hi {
            assert forall|b: usize| #[trigger]
                self.holders@.dom().contains(b) implies b + self.size_at(chunks, b) <= lo || b
                >= hi by {
                assert(self.holder(b) is Some);
                if old.holder(b) is Some {
                    assert(old.holders@.dom().contains(b));
                    assert(old.size_at(old_chunks, b) > 0);
                    assert(old_chunks.class_of(b as int) is Some);
                    assert(old_chunks@.dom().contains(crate::mill::metadata_address(b as int)));
                    assert(chunks.class_of(b as int) == old_chunks.class_of(b as int));
                } else {
                    assert(chunks.class_of(b as int) != Some(class));
                    if lo <= b < hi {
                        assert(old_chunks.class_of(b as int) == Some(class));
                        assert(old_chunks@.dom().contains(crate::mill::metadata_address(b as int)));
                    } else if b < lo && b + self.size_at(chunks, b) > lo {
                        assert(old_chunks.class_of(lo) == Some(class));
                        assert(old_chunks@.dom().contains(crate::mill::metadata_address(lo)));
                        assert(chunks.class_of(lo) == Some(class));
                        assert(chunks.class_of(lo) == chunks.class_of(b as int));
                    }
                }
            }
        }
    }

    /// An object that somebody holds is an object of a class that has
    /// a size.
    pub proof fn lemma_held_has_size(&self, chunks: &Chunks, a: usize)
        requires
            self.wf(chunks),
            self.holder(a) is Some,
        ensures
            chunks.class_of(a as int) matches Some(class) && self.size_of_class(class) is Some,
    {
        assert(self.holders@.dom().contains(a));
        assert(self.size_at(chunks, a) > 0);
    }

    /// The objects that somebody holds lie apart, each with the size
    /// of its class.
    pub proof fn lemma_held_are_apart(&self, chunks: &Chunks, a: usize, b: usize)
        requires
            self.wf(chunks),
            self.holder(a) is Some,
            self.holder(b) is Some,
            a != b,
        ensures
            self.size_at(chunks, a) > 0,
            self.size_at(chunks, b) > 0,
            a + self.size_at(chunks, a) <= b || b + self.size_at(chunks, b) <= a,
    {
        assert(self.holders@.dom().contains(a));
        assert(self.holders@.dom().contains(b));
    }

    /// Whether `self` is `old` but for the objects at the addresses in
    /// `moved`, which `to` has.
    pub open spec fn gave(&self, old: &Ledger, moved: Multiset<usize>, to: int) -> bool {
        self.moved_to(old, moved, to) && self.keeps_apart(old)
    }

    /// Whether `to` has in `self` the objects at the addresses in
    /// `moved`, and every other object has the holder that it had in
    /// `old`.
    pub open spec fn moved_to(&self, old: &Ledger, moved: Multiset<usize>, to: int) -> bool {
        &&& self.cache_count() == old.cache_count()
        &&& self.same_sizes(old)
        &&& forall|a: usize| #![trigger self.stale(a)] self.stale(a) == old.stale(a)
        &&& forall|a: usize|
            #![trigger self.holder(a)]
            self.holder(a) == if moved.count(a) >= 1 {
                Some(to)
            } else {
                old.holder(a)
            }
    }

    /// When `to` takes `moved` out of `pool`, the holder of the pool
    /// has what is left, and `to` has what it took besides what it
    /// had.
    pub proof fn lemma_take(
        &self,
        old: &Ledger,
        pool_holder: int,
        pool: Multiset<usize>,
        left: Multiset<usize>,
        moved: Multiset<usize>,
        to: int,
        had: Multiset<usize>,
    )
        requires
            self.moved_to(old, moved, to),
            pool == moved.add(left),
            old.holds(pool_holder, pool),
            old.holds(to, had),
            to != pool_holder,
        ensures
            self.holds(pool_holder, left),
            self.holds(to, moved.add(had)),
    {
        broadcast use vstd::multiset::group_multiset_axioms;

        assert forall|a: usize| #![trigger left.count(a)] left.count(a) <= 1 && (left.count(a) >= 1
            ==> self.holder(a) == Some(pool_holder)) by {
            assert(pool.count(a) == moved.count(a) + left.count(a));
        }
        assert forall|a: usize|
            #![trigger moved.add(had).count(a)]
            moved.add(had).count(a) <= 1 && (moved.add(had).count(a) >= 1 ==> self.holder(a)
                == Some(to)) by {
            assert(pool.count(a) == moved.count(a) + left.count(a));
            assert(moved.add(had).count(a) == moved.count(a) + had.count(a));
            if moved.count(a) >= 1 && had.count(a) >= 1 {
                assert(old.holder(a) == Some(pool_holder));
                assert(old.holder(a) == Some(to));
            }
        }
    }

    /// A ledger stays valid where a cache or the depot takes objects
    /// that no caller holds, each of which a holder had or a class
    /// owns.
    pub proof fn lemma_gave_wf(&self, old: &Ledger, chunks: &Chunks, moved: Multiset<usize>, to: int)
        requires
            old.wf(chunks),
            self.gave(old, moved, to),
            self.same_counts(old),
            to == depot() || old.is_cache(to),
            forall|a: usize|
                #![trigger moved.count(a)]
                moved.count(a) >= 1 ==> old.holder(a) != Some(caller()) && chunks.class_of(a as int)
                    is Some,
        ensures
            self.wf(chunks),
    {
        assert forall|class: u32, a: usize|
            #![trigger self.live_of(class).contains(a)]
            self.live_of(class).contains(a) <==> self.holder(a) == Some(caller())
                && chunks.class_of(a as int) == Some(class) by {
            assert(self.live_of(class) == old.live_of(class));
            assert(old.live_of(class).contains(a) <==> old.holder(a) == Some(caller())
                && chunks.class_of(a as int) == Some(class));
        }
        assert forall|class: u32|
            #![trigger self.live_of(class)]
            self.live_of(class).finite() && self.live_of(class).len() + self.released(class)
                == self.allocated(class) by {
            assert(self.live_of(class) == old.live_of(class));
            assert(self.released(class) == old.released(class));
            assert(self.allocated(class) == old.allocated(class));
        }
    }

    /// What a holder has that did not move, it still has.
    pub proof fn lemma_keep(
        &self,
        old: &Ledger,
        moved: Multiset<usize>,
        to: int,
        holder: int,
        had: Multiset<usize>,
    )
        requires
            self.moved_to(old, moved, to),
            old.holds(holder, had),
            forall|a: usize|
                #![trigger moved.count(a)]
                moved.count(a) >= 1 ==> old.holder(a) != Some(holder),
        ensures
            self.holds(holder, had),
    {
    }

    /// Whoever takes objects from another holder, or objects that
    /// nobody has, spares everybody else.
    pub proof fn lemma_gave_spares(&self, old: &Ledger, moved: Multiset<usize>, to: int, holder: int)
        requires
            self.moved_to(old, moved, to),
            forall|a: usize|
                #![trigger moved.count(a)]
                moved.count(a) >= 1 ==> old.holder(a) is None || old.holder(a) == Some(holder)
                    || old.holder(a) == Some(depot()),
            to == holder || to == depot(),
        ensures
            self.spares(old, holder),
    {
    }

    /// Sparing everybody else twice is sparing everybody else.
    pub proof fn lemma_spares_is_transitive(&self, first: &Ledger, second: &Ledger, holder: int)
        requires
            second.spares(first, holder),
            self.spares(second, holder),
        ensures
            self.spares(first, holder),
    {
        assert forall|a: usize|
            #![trigger self.holder(a)]
            #![trigger first.holder(a)]
            first.holder(a) is Some && first.holder(a) != Some(holder) && first.holder(a) != Some(
                depot(),
            ) implies self.holder(a) == first.holder(a) && self.stale(a) == first.stale(a) by {
            assert(second.holder(a) == first.holder(a));
        }
        assert forall|a: usize| #![trigger self.stale(a)] self.stale(a) implies first.stale(a) by {
            assert(second.stale(a));
        }
        assert forall|a: usize| #![trigger self.holder(a)] first.holder(a) is Some implies self.holder(
            a,
        ) is Some by {
            assert(second.holder(a) is Some);
        }
        assert forall|a: usize| #![trigger self.holder(a)] self.holder(a) != first.holder(
            a,
        ) implies self.holder(a) == Some(holder) || self.holder(a) == Some(depot()) || self.holder(a)
            == Some(caller()) || (self.holder(a) is Some && self.holder(a)->0
            > first.cache_count()) by {
            if self.holder(a) == second.holder(a) {
                assert(second.holder(a) != first.holder(a));
            }
        }
    }
}

} // verus!
