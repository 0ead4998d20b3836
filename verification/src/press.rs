//! A `Press` creates new allocations for a given `Class`.  The
//! allocations must be such that the `Press` can also map valid
//! addresses back to their `Class`.
//!
//! While each class gets its own press, the latter requirement means
//! that the presses must all implement compatible metadata stashing
//! schemes.  This works because `Mill`s all use the same scheme.
//!
//! Each span and corresponding metadata is immortal once allocated.
use vstd::prelude::*;

use crate::chunks::Chunks;
use crate::class::Class;
use crate::layout::Layout;
use crate::ledger::lemma_objects_are_distinct;
use crate::ledger::objects;
use crate::ledger::Ledger;
use crate::linear_ref::LinearRef;
use crate::magazine_impl::addresses;
use crate::magazine_impl::MAGAZINE_SIZE;
use crate::mapper::is_power_of_two;
use crate::mapper::Mapper;
use crate::mill::lemma_multiple_of_multiple;
use crate::mill::lemma_sum_of_multiples;
use crate::mill::Mill;
use crate::mill::MilledRange;
use crate::mill::SpanMetadata;
use crate::mill::DATA_ALIGNMENT;
use crate::mill::MAX_SPAN_SIZE;
use crate::mill::SPAN_ALIGNMENT;
use crate::mill::SPAN_METADATA_SIZE;

verus! {

/// We batch-allocate at most this many elements at once.
///
/// In practice, callers ask for one more than the magazine size, at
/// most, and that's less than this limit.
pub const MAX_ALLOCATION_BATCH: usize = 100;

/// We don't guarantee alignment greater than this value.
pub const MAX_OBJECT_ALIGNMENT: usize = 4096;

/// A full magazine and one more object fit in a batch, and an object
/// with the largest alignment fits in a span.
pub proof fn lemma_press_constants()
    ensures
        MAGAZINE_SIZE < MAX_ALLOCATION_BATCH,
        MAX_OBJECT_ALIGNMENT <= MAX_SPAN_SIZE,
{
}

/// Whether the allocation at `address` may have come from a `Press`
/// for `class`: whether the metadata that the address arithmetic
/// finds for `address` names that class.
pub open spec fn is_allocation_of(chunks: &Chunks, class: Class, address: usize) -> bool {
    chunks.class_of(address as int) == Some(class@)
}

/// Returns Ok if the allocation `address` might have come from a `Press` for `class`.
///
/// # Errors
///
/// Returns Err if the address definitely did not come from that `class`.
pub fn check_allocation(chunks: &Chunks, class: Class, address: usize) -> (ret: Result<
    (),
    &'static str,
>)
    requires
        chunks.wf(),
    ensures
        ret is Ok == is_allocation_of(chunks, class, address),
        ret matches Err(message) ==> message == if chunks@.dom().contains(
            crate::mill::metadata_address(address as int),
        ) {
            "Incorrect class id"
        } else {
            "Derived a bad metadata address"
        },
{
    if address < DATA_ALIGNMENT {
        proof {
            chunks.lemma_metadata_of_data(address as int);
            vstd::arithmetic::div_mod::lemma_small_mod(address as nat, DATA_ALIGNMENT as nat);
            if chunks.has_chunk(crate::mill::chunk_base(address as int)) {
                chunks.lemma_no_low_chunk(crate::mill::chunk_base(address as int));
            }
        }
        return Err("Derived a bad metadata address");
    }
    let meta_ptr = SpanMetadata::from_allocation_address(address);
    let meta = match chunks.get(meta_ptr) {
        Some(meta) => meta,
        None => {
            return Err("Derived a bad metadata address");
        },
    };
    let id = class.id();
    match meta.class_id {
        Some(owner) => {
            if owner == id {
                Ok(())
            } else {
                Err("Incorrect class id")
            }
        },
        None => Err("Incorrect class id"),
    }
}

/// The batch that a press granted: `count` objects in a row, the
/// first of which is `object`, if there is one.
pub open spec fn granted(object: Option<LinearRef>, count: int) -> Option<(usize, usize)> {
    match object {
        Some(object) => Some((object@, count as usize)),
        None => None,
    }
}

/// Every multiple of `size` above an aligned `begin` is aligned, where
/// `size` is a multiple of the alignment.
pub proof fn lemma_object_is_aligned(begin: int, k: int, size: int, align: int)
    requires
        align > 0,
        begin % align == 0,
        size % align == 0,
    ensures
        (begin + k * size) % align == 0,
{
    let q = size / align;
    vstd::arithmetic::div_mod::lemma_fundamental_div_mod(size, align);
    assert(k * size == (k * q) * align) by (nonlinear_arith)
        requires
            size == align * q,
    ;
    vstd::arithmetic::div_mod::lemma_mod_multiples_basic(k * q, align);
    lemma_sum_of_multiples(begin, k * size, align);
}

/// An alignment that is a power of two and at most
/// `MAX_OBJECT_ALIGNMENT` divides the alignment of the spans.
pub proof fn lemma_align_divides_span(align: usize)
    requires
        is_power_of_two(align),
        align <= MAX_OBJECT_ALIGNMENT,
    ensures
        SPAN_ALIGNMENT % align == 0,
{
    let p = align as u64;
    assert(p & ((p - 1) as u64) == 0) by {
        assert(align & ((align - 1) as usize) == (p & ((p - 1) as u64)) as usize) by (bit_vector)
            requires
                p == align as u64,
                align > 0,
        ;
    }
    assert(0x4000u64 % p == 0) by (bit_vector)
        requires
            p > 0,
            p <= 4096u64,
            p & ((p - 1) as u64) == 0,
    ;
}

/// The number of allocated elements of a span after `count` more were
/// asked of it: the sum, or the largest number where the sum is
/// larger.  The press asks for a whole batch even where the span has
/// fewer elements left.
pub open spec fn bumped(bump_ptr: usize, count: usize) -> usize {
    if bump_ptr + count > usize::MAX {
        usize::MAX
    } else {
        (bump_ptr + count) as usize
    }
}

/// The per-class allocator: it carves the objects of its class out
/// of its current span, and replaces the span when it is exhausted.
pub struct Press {
    /// The address of the metadata of the current span, which
    /// services bump pointer allocation, or zero while there is none.
    bump: usize,
    /// The position of the mill that provides the spans.
    mill: usize,
    layout: Layout,
    class: Class,
}

impl Press {
    /// The class all of whose objects the press makes.
    pub closed spec fn class_spec(&self) -> Class {
        self.class
    }

    /// The size and the alignment of the objects.
    pub closed spec fn layout_spec(&self) -> Layout {
        self.layout
    }

    /// The position of the mill that provides the spans.
    pub closed spec fn mill_spec(&self) -> usize {
        self.mill
    }

    /// The address of the metadata of the current span, or zero.
    pub closed spec fn bump_spec(&self) -> usize {
        self.bump
    }

    /// Whether `layout` is one for which a press can work: the size is
    /// a positive multiple of the alignment, and neither of them is
    /// too large.
    pub open spec fn layout_ok(layout: Layout) -> bool {
        &&& layout@.0 > 0
        &&& layout@.0 % layout@.1 == 0
        &&& is_power_of_two(layout@.1)
        &&& layout@.1 <= MAX_OBJECT_ALIGNMENT
        &&& layout@.0 <= MAX_SPAN_SIZE / 2
    }

    /// Whether `address` is a place for an object of the class: it is
    /// not zero, it is aligned, and the address arithmetic finds for
    /// it metadata with the id of the class.
    pub open spec fn object_ok(&self, chunks: &Chunks, address: usize) -> bool {
        &&& address != 0
        &&& address % self.layout_spec()@.1 == 0
        &&& address + self.layout_spec()@.0 <= usize::MAX
        &&& is_allocation_of(chunks, self.class_spec(), address)
    }

    /// Whether, from `base` on, there is place for `count` objects of
    /// the class.
    pub open spec fn objects_ok(&self, chunks: &Chunks, base: usize, count: int) -> bool {
        &&& base + count * self.layout_spec()@.0 <= usize::MAX
        &&& forall|i: int|
            0 <= i < count ==> self.object_ok(
                chunks,
                #[trigger] ((base + i * self.layout_spec()@.0) as usize),
            )
    }

    /// Whether `ledger` is `old` after the press handed `batch` out to
    /// `to`: `to` holds the objects of the batch, which nobody held,
    /// and nothing else changed.
    pub open spec fn handed_out(
        &self,
        old: &Ledger,
        ledger: &Ledger,
        batch: Option<(usize, usize)>,
        to: int,
    ) -> bool {
        &&& ledger.cache_count() == old.cache_count()
        &&& ledger.same_counts(old)
        &&& forall|a: usize| #![trigger ledger.stale(a)] ledger.stale(a) == old.stale(a)
        &&& forall|a: usize|
            #![trigger ledger.holder(a)]
            ledger.holder(a) == if self.batch(batch).count(a) >= 1 {
                Some(to)
            } else {
                old.holder(a)
            }
        &&& forall|a: usize|
            #![trigger self.batch(batch).count(a)]
            self.batch(batch).count(a) >= 1 ==> old.holder(a) is None
        &&& forall|a: usize| #![trigger self.batch(batch).count(a)] self.batch(batch).count(a) <= 1
    }

    /// The addresses of the objects of a batch: `batch.1` objects in a
    /// row from `batch.0` on.
    pub open spec fn batch(&self, batch: Option<(usize, usize)>) -> vstd::multiset::Multiset<usize> {
        match batch {
            Some((base, count)) => objects(base, self.layout_spec()@.0, count as int).to_multiset(),
            None => vstd::multiset::Multiset::empty(),
        }
    }

    /// Whether `record` describes a span of the class of the press:
    /// from its beginning on, there is place for as many objects as
    /// its limit says.
    pub open spec fn span_ok(&self, chunks: &Chunks, record: SpanMetadata) -> bool {
        &&& record.class_id == Some(self.class_spec()@)
        &&& record.bump_limit > 0
        &&& record.span_begin >= DATA_ALIGNMENT
        &&& record.span_begin % self.layout_spec()@.1 == 0
        &&& record.span_begin + record.bump_limit * self.layout_spec()@.0 <= usize::MAX
        &&& forall|a: int|
            record.span_begin <= a < record.span_begin + record.bump_limit * self.layout_spec()@.0
                ==> #[trigger] chunks.class_of(a) == Some(self.class_spec()@)
    }

    /// The press can work with its layout, and its current span, if
    /// it has one, is a span of its class.
    pub closed spec fn wf(&self, chunks: &Chunks) -> bool {
        &&& Self::layout_ok(self.layout)
        &&& self.bump != 0 ==> {
            &&& chunks.milled(self.bump as int)
            &&& self.span_ok(chunks, chunks@[self.bump as int])
        }
    }

    /// Whether the current span has an object left.
    pub closed spec fn has_room(&self, chunks: &Chunks) -> bool {
        self.bump != 0 && chunks@[self.bump as int].bump_ptr < chunks@[self.bump as int].bump_limit
    }

    /// The address of element `k` of the span that `record` describes.
    pub open spec fn element(&self, record: SpanMetadata, k: int) -> usize {
        (record.span_begin + k * self.layout_spec()@.0) as usize
    }

    /// Whether nobody holds an object that the current span has left:
    /// the press never handed out an element at or after the bump
    /// pointer, and no object that somebody holds has a byte in what
    /// the span has left.  The ledger knows the size of the objects of
    /// the press.
    pub closed spec fn unreserved_ok(&self, chunks: &Chunks, ledger: &Ledger) -> bool {
        &&& ledger.size_of_class(self.class@) == Some(self.layout@.0)
        &&& self.bump != 0 ==> forall|k: int|
            chunks@[self.bump as int].bump_ptr <= k < chunks@[self.bump as int].bump_limit
                ==> ledger.holder(#[trigger] self.element(chunks@[self.bump as int], k)) is None
        &&& self.bump != 0 && chunks@[self.bump as int].bump_ptr
            < chunks@[self.bump as int].bump_limit ==> ledger.clear_of(
            chunks,
            chunks@[self.bump as int].span_begin + chunks@[self.bump as int].bump_ptr
                * self.layout@.0,
            chunks@[self.bump as int].span_begin + chunks@[self.bump as int].bump_limit
                * self.layout@.0,
        )
    }

    /// The ledger knows the size of the objects of the press.
    pub proof fn lemma_size_is_known(&self, chunks: &Chunks, ledger: &Ledger)
        requires
            self.unreserved_ok(chunks, ledger),
        ensures
            ledger.size_of_class(self.class_spec()@) == Some(self.layout_spec()@.0),
    {
    }

    /// The address of the next object that the current span has left.
    pub open spec fn next_object(&self, chunks: &Chunks) -> usize {
        self.element(
            chunks@[self.bump_spec() as int],
            chunks@[self.bump_spec() as int].bump_ptr as int,
        )
    }

    /// The number of objects in the next batch from the current span,
    /// for a caller that wants up to `max_count` objects: as many as
    /// the caller wants, but no more than `MAX_ALLOCATION_BATCH`, and
    /// no more than the span has left.
    pub open spec fn batch_size(&self, chunks: &Chunks, max_count: usize) -> int {
        let record = chunks@[self.bump_spec() as int];
        let desired = if max_count < MAX_ALLOCATION_BATCH {
            max_count
        } else {
            MAX_ALLOCATION_BATCH
        };
        if record.bump_limit - record.bump_ptr < desired {
            record.bump_limit - record.bump_ptr
        } else {
            desired as int
        }
    }

    /// Whether the press can make an object without new address
    /// space: its current span has an object left, or else the chunk
    /// of `mill` has room for a span of objects.
    pub open spec fn can_allocate<M: Mapper>(&self, mill: &Mill<M>, chunks: &Chunks) -> bool {
        self.has_room(chunks) || mill.has_room(chunks, self.layout_spec()@.0)
    }

    /// The number of objects in the span that `mill` hands out next:
    /// from its chunk where that has room, and else from a new chunk,
    /// which has room for all the spans that the press desires.
    pub open spec fn fresh_limit<M: Mapper>(&self, mill: &Mill<M>, chunks: &Chunks) -> int {
        let spans = if mill.has_room(chunks, self.layout_spec()@.0) {
            mill.next_spans(chunks, self.layout_spec()@.0)
        } else {
            crate::mill::spans_for(
                crate::mill::desired_bytes(self.layout_spec()@.0, None) as int,
            )
        };
        spans * SPAN_ALIGNMENT / (self.layout_spec()@.0 as int)
    }

    /// The address of the next object that the press makes without
    /// new address space: the next one that its current span has left,
    /// or else the first one of the span that `mill` hands out next.
    pub open spec fn upcoming<M: Mapper>(&self, mill: &Mill<M>, chunks: &Chunks) -> usize {
        if self.has_room(chunks) {
            self.next_object(chunks)
        } else {
            mill.next_data(chunks) as usize
        }
    }

    /// The number of objects in the next batch that the press makes
    /// without new address space, for a caller that wants up to
    /// `max_count` objects: as many as the caller wants, but no more
    /// than `MAX_ALLOCATION_BATCH`, and no more than are left in the
    /// current span, or else no more than are in the span that `mill`
    /// hands out next.
    pub open spec fn upcoming_batch<M: Mapper>(
        &self,
        mill: &Mill<M>,
        chunks: &Chunks,
        max_count: usize,
    ) -> int {
        if self.has_room(chunks) {
            self.batch_size(chunks, max_count)
        } else {
            let desired = if max_count < MAX_ALLOCATION_BATCH {
                max_count
            } else {
                MAX_ALLOCATION_BATCH
            };
            if self.fresh_limit(mill, chunks) < desired {
                self.fresh_limit(mill, chunks)
            } else {
                desired as int
            }
        }
    }

    /// Whether every record of a span that was handed out between
    /// `old` and `chunks` names the class of the press, and so does
    /// every record that names a class in `chunks` and named none in
    /// `old`.
    pub open spec fn tagged_since(&self, old: &Chunks, chunks: &Chunks) -> bool {
        &&& forall|m: int|
            !old.milled(m) && chunks.milled(m) ==> (#[trigger] chunks@[m]).class_id == Some(
                self.class_spec()@,
            )
        &&& forall|m: int|
            chunks@.dom().contains(m) && (#[trigger] chunks@[m]).class_id is Some && !(
            old@.dom().contains(m) && old@[m].class_id is Some) ==> chunks@[m].class_id == Some(
                self.class_spec()@,
            )
    }

    /// Whether the `count` objects from `base` on lie in the current
    /// span: the first byte of the first one and the last byte of the
    /// last one do.
    pub open spec fn batch_in_span(&self, chunks: &Chunks, base: usize, count: int) -> bool {
        &&& self.in_current_span(chunks, base as int)
        &&& self.in_current_span(chunks, base + count * self.layout_spec()@.0 - 1)
    }

    /// A press without a span has no object left.
    pub proof fn lemma_no_span_no_room(&self, chunks: &Chunks)
        requires
            self.bump_spec() == 0,
        ensures
            !self.has_room(chunks),
    {
    }

    /// The records that were tagged stay tagged while the chunks live
    /// on.
    pub proof fn lemma_tagged_is_transitive(&self, first: &Chunks, second: &Chunks, third: &Chunks)
        requires
            second.wf(),
            self.tagged_since(first, second),
            self.tagged_since(second, third),
            third.extends(second),
        ensures
            self.tagged_since(first, third),
    {
        assert forall|m: int| !first.milled(m) && third.milled(m) implies (#[trigger] third@[m]).class_id
            == Some(self.class_spec()@) by {
            if second.milled(m) {
                second.lemma_unmilled_is_vacant(m);
                assert(second@[m].class_id == Some(self.class_spec()@));
                assert(second@.dom().contains(m));
            }
        }
    }

    /// Whether the press took its current span from a new chunk
    /// between `old` and `chunks`: there is one more chunk, and the
    /// next object is the first one of its data.
    pub open spec fn took_new_chunk(&self, old: &Chunks, chunks: &Chunks, first: usize) -> bool {
        &&& chunks.count() == old.count() + 1
        &&& first == chunks.data_of(old.count() as int)
    }

    /// Whether `a` is an address in an object of the current span.
    pub closed spec fn in_current_span(&self, chunks: &Chunks, a: int) -> bool {
        self.bump != 0 && chunks@[self.bump as int].span_begin <= a
            < chunks@[self.bump as int].span_begin + chunks@[self.bump as int].bump_limit
            * self.layout@.0
    }

    /// The metadata that the address arithmetic finds for any address
    /// in an object of the current span names the class of the press.
    pub proof fn lemma_current_span_is_tagged(&self, chunks: &Chunks, a: int)
        requires
            self.wf(chunks),
            self.in_current_span(chunks, a),
        ensures
            chunks.class_of(a) == Some(self.class_spec()@),
            chunks@.dom().contains(crate::mill::metadata_address(a)),
    {
    }

    /// Whether the current span has the object at `address` left: the
    /// press did not hand it out yet.
    pub closed spec fn has_left(&self, chunks: &Chunks, address: usize) -> bool {
        self.bump != 0 && exists|k: int|
            chunks@[self.bump as int].bump_ptr <= k < chunks@[self.bump as int].bump_limit
                && address == #[trigger] self.element(chunks@[self.bump as int], k)
    }

    /// Nobody holds what the current span has left.
    pub proof fn lemma_left_is_unheld(&self, chunks: &Chunks, ledger: &Ledger, address: usize)
        requires
            self.unreserved_ok(chunks, ledger),
            self.has_left(chunks, address),
        ensures
            ledger.holder(address) is None,
    {
        let k = choose|k: int|
            chunks@[self.bump as int].bump_ptr <= k < chunks@[self.bump as int].bump_limit
                && address == #[trigger] self.element(chunks@[self.bump as int], k);
        assert(ledger.holder(self.element(chunks@[self.bump as int], k)) is None);
    }

    /// What the current span has left stays unheld while the chunks
    /// live on and the ledger changes only for objects that someone
    /// held already, or for objects of other classes.
    pub proof fn lemma_unreserved_frame(
        &self,
        old_chunks: &Chunks,
        chunks: &Chunks,
        old_ledger: &Ledger,
        ledger: &Ledger,
    )
        requires
            old_chunks.wf(),
            self.wf(old_chunks),
            self.unreserved_ok(old_chunks, old_ledger),
            chunks.extends(old_chunks),
            old_ledger.wf(old_chunks),
            ledger.wf(chunks),
            ledger.keeps_sizes(old_ledger),
            forall|a: usize|
                #![trigger ledger.holder(a)]
                old_ledger.holder(a) is None && old_chunks.class_of(a as int) == Some(
                    self.class_spec()@,
                ) ==> ledger.holder(a) is None,
            forall|a: usize|
                #![trigger ledger.holder(a)]
                old_ledger.holder(a) is None && ledger.holder(a) is Some ==> chunks.class_of(
                    a as int,
                ) != Some(self.class_spec()@),
        ensures
            self.unreserved_ok(chunks, ledger),
    {
        if self.bump != 0 {
            old_chunks.lemma_unmilled_is_vacant(self.bump as int);
            let record = chunks@[self.bump as int];
            let old_record = old_chunks@[self.bump as int];
            assert(old_chunks@.dom().contains(self.bump as int));
            let size = self.layout_spec()@.0 as int;
            if old_record.bump_ptr < old_record.bump_limit && record.bump_ptr < record.bump_limit {
                let lo = old_record.span_begin + old_record.bump_ptr * size;
                let hi = old_record.span_begin + old_record.bump_limit * size;
                assert(lo >= old_record.span_begin) by (nonlinear_arith)
                    requires
                        lo == old_record.span_begin + old_record.bump_ptr * size,
                        old_record.bump_ptr >= 0,
                        size > 0,
                ;
                ledger.lemma_clear_frame(old_ledger, old_chunks, chunks, lo, hi, self.class_spec()@);
                assert(record.span_begin + record.bump_ptr * size >= lo) by (nonlinear_arith)
                    requires
                        record.span_begin == old_record.span_begin,
                        record.bump_ptr >= old_record.bump_ptr,
                        lo == old_record.span_begin + old_record.bump_ptr * size,
                        size > 0,
                ;
                ledger.lemma_clear_shrinks(
                    chunks,
                    lo,
                    hi,
                    record.span_begin + record.bump_ptr * size,
                    hi,
                );
            }
            assert forall|k: int| record.bump_ptr <= k < record.bump_limit implies ledger.holder(
                #[trigger] self.element(record, k),
            ) is None by {
                let size = self.layout_spec()@.0 as int;
                assert(0 <= k * size && k * size < record.bump_limit * size) by (nonlinear_arith)
                    requires
                        0 <= k < record.bump_limit,
                        size > 0,
                ;
                assert(self.element(record, k) == self.element(old_record, k));
                assert(old_ledger.holder(self.element(old_record, k)) is None);
                assert(old_chunks.class_of(record.span_begin + k * size) == Some(
                    self.class_spec()@,
                ));
            }
        }
    }

    /// A place for an object stays one while the chunks live on.
    pub proof fn lemma_object_ok_extends(&self, old_chunks: &Chunks, chunks: &Chunks, address: usize)
        requires
            self.object_ok(old_chunks, address),
            chunks.extends(old_chunks),
        ensures
            self.object_ok(chunks, address),
    {
        assert(old_chunks@.dom().contains(crate::mill::metadata_address(address as int)));
    }

    /// A press stays valid while the chunks live on.
    pub proof fn lemma_wf_extends(&self, old_chunks: &Chunks, chunks: &Chunks)
        requires
            old_chunks.wf(),
            chunks.wf(),
            self.wf(old_chunks),
            chunks.extends(old_chunks),
        ensures
            self.wf(chunks),
    {
        if self.bump != 0 {
            old_chunks.lemma_unmilled_is_vacant(self.bump as int);
            let record = chunks@[self.bump as int];
            let old_record = old_chunks@[self.bump as int];
            assert(old_chunks@.dom().contains(self.bump as int));
            assert forall|a: int|
                record.span_begin <= a < record.span_begin + record.bump_limit
                    * self.layout_spec()@.0 implies #[trigger] chunks.class_of(a) == Some(
                self.class_spec()@,
            ) by {
                assert(old_chunks.class_of(a) == Some(self.class_spec()@));
                assert(old_chunks@.dom().contains(crate::mill::metadata_address(a)));
            }
        }
    }

    /// Returns a fresh `Press` for an object `class` with that object
    /// `layout`, and the mill at the position that was found for the
    /// class's mapper.
    ///
    /// # Errors
    ///
    /// Returns `Err` when the layout violates the allocator's constraints,
    /// or no mill was found.
    pub fn new(class: Class, layout: Layout, mill: Result<usize, &'static str>) -> (ret: Result<
        Self,
        &'static str,
    >)
        requires
            layout@.0 > 0,
        ensures
            match ret {
                Ok(press) => {
                    &&& layout@.1 <= MAX_OBJECT_ALIGNMENT
                    &&& layout.pad_to_align_spec()@.0 <= MAX_SPAN_SIZE / 2
                    &&& mill matches Ok(index)
                    &&& press.mill_spec() == index
                    &&& press.class_spec() == class
                    &&& press.layout_spec()@ == layout.pad_to_align_spec()@
                    &&& press.bump_spec() == 0
                    &&& forall|chunks: &Chunks| press.wf(chunks)
                    &&& forall|chunks: &Chunks, ledger: &Ledger|
                        ledger.size_of_class(class@) == Some(press.layout_spec()@.0)
                            ==> #[trigger] press.unreserved_ok(chunks, ledger)
                },
                Err(message) => message == if layout@.1 > MAX_OBJECT_ALIGNMENT {
                    "slitter only supports alignment up to 4 KB"
                } else if layout.pad_to_align_spec()@.0 > MAX_SPAN_SIZE / 2 {
                    "Class elements too large (after alignment)"
                } else {
                    mill->Err_0
                } && !(layout@.1 <= MAX_OBJECT_ALIGNMENT && layout.pad_to_align_spec()@.0
                    <= MAX_SPAN_SIZE / 2 && mill is Ok),
            },
    {
        if layout.align() > MAX_OBJECT_ALIGNMENT {
            return Err("slitter only supports alignment up to 4 KB");
        }
        let layout = layout.pad_to_align();
        if layout.size() > MAX_SPAN_SIZE / 2 {
            Err("Class elements too large (after alignment)")
        } else {
            match mill {
                Ok(mill) => Ok(Self { bump: 0, mill, layout, class }),
                Err(message) => Err(message),
            }
        }
    }

    /// The class all of whose objects the press makes.
    pub fn class(&self) -> (ret: Class)
        ensures
            ret == self.class_spec(),
    {
        self.class
    }

    /// The size and the alignment of the objects.
    pub fn layout(&self) -> (ret: Layout)
        ensures
            ret == self.layout_spec(),
    {
        self.layout
    }

    /// The position of the mill that provides the spans.
    pub fn mill(&self) -> (ret: usize)
        ensures
            ret == self.mill_spec(),
    {
        self.mill
    }

    /// Attempts to allocate up to `max_count` consecutive objects by
    /// bumping the metadata pointer of the current span, whose
    /// metadata is at `meta`.
    ///
    /// Returns the address of the first object and the number of
    /// allocations on success.  It fails exactly when the span is
    /// exhausted.
    fn try_allocate_from_span(
        &self,
        chunks: &mut Chunks,
        ledger: &mut Ledger,
        meta: usize,
        max_count: usize,
        Ghost(to): Ghost<int>,
    ) -> (ret: Option<(usize, usize)>)
        requires
            old(chunks).wf(),
            self.wf(old(chunks)),
            self.unreserved_ok(old(chunks), old(ledger)),
            old(ledger).wf(old(chunks)),
            old(ledger).is_cache(to),
            meta != 0,
            meta == self.bump_spec(),
            max_count > 0,
        ensures
            final(chunks).wf(),
            self.wf(final(chunks)),
            self.unreserved_ok(final(chunks), final(ledger)),
            final(ledger).wf(final(chunks)),
            self.handed_out(old(ledger), final(ledger), ret, to),
            final(chunks).extends(old(chunks)),
            final(chunks).same_layout(old(chunks)),
            forall|a: int| final(chunks).class_of(a) == old(chunks).class_of(a),
            ret is Some == self.has_room(old(chunks)),
            ret matches Some((base, count)) ==> {
                let record = old(chunks)@[meta as int];
                let desired = if max_count < MAX_ALLOCATION_BATCH {
                    max_count
                } else {
                    MAX_ALLOCATION_BATCH
                };
                &&& base == record.span_begin + record.bump_ptr * self.layout_spec()@.0
                &&& count == if record.bump_limit - record.bump_ptr < desired {
                    record.bump_limit - record.bump_ptr
                } else {
                    desired as int
                }
                &&& 0 < count <= max_count
                &&& final(chunks)@[meta as int].bump_ptr >= record.bump_ptr + count
                &&& self.objects_ok(final(chunks), base, count as int)
                &&& self.batch_in_span(final(chunks), base, count as int)
            },
            final(chunks)@ == old(chunks)@.insert(
                meta as int,
                SpanMetadata {
                    bump_ptr: bumped(
                        old(chunks)@[meta as int].bump_ptr,
                        if max_count < MAX_ALLOCATION_BATCH {
                            max_count
                        } else {
                            MAX_ALLOCATION_BATCH
                        },
                    ),
                    ..old(chunks)@[meta as int]
                },
            ),
    {
        proof {
            chunks.lemma_unmilled_is_vacant(meta as int);
        }
        let desired = if max_count < MAX_ALLOCATION_BATCH {
            max_count
        } else {
            MAX_ALLOCATION_BATCH
        };
        let record = match chunks.get(meta) {
            Some(record) => record,
            None => {
                proof {
                    assert(false);
                }
                return None;
            },
        };
        let limit = record.bump_limit as usize;
        let size = self.layout.size();
        let align = self.layout.align();

        let allocated_id = chunks.bump(meta, desired);
        proof {
            assert forall|a: int| chunks.class_of(a) == old(chunks).class_of(a) by {
            }
            assert(self.wf(chunks)) by {
                let new_record = chunks@[meta as int];
                assert(self.span_ok(chunks, new_record));
            }
            old(ledger).lemma_wf_extends(old(chunks), chunks);
            self.lemma_unreserved_frame(old(chunks), chunks, ledger, ledger);
        }
        if allocated_id >= limit {
            return None;
        }
        // This is our actual allocation count: our allocated range
        // starts at `allocated_id`, and stops at `allocated_id +
        // desired` (that's how much we acquired), or at `limit`
        // if we acquired more than the bump limit.

        let actual = if limit - allocated_id < desired {
            limit - allocated_id
        } else {
            desired
        };
        proof {
            assert((allocated_id + actual) * size <= limit * size) by (nonlinear_arith)
                requires
                    allocated_id + actual <= limit,
                    size >= 0,
            ;
            assert((allocated_id + actual) * size == allocated_id * size + actual * size)
                by (nonlinear_arith);
            assert(0 <= allocated_id * size) by (nonlinear_arith)
                requires
                    allocated_id >= 0,
                    size >= 0,
            ;
            assert(0 <= actual * size) by (nonlinear_arith)
                requires
                    actual >= 0,
                    size >= 0,
            ;
        }
        // The span's bump pointer only grows, so we always return
        // fresh addresses.
        let base = record.span_begin + allocated_id * size;
        proof {
            assert forall|i: int| 0 <= i < actual implies self.object_ok(
                chunks,
                #[trigger] ((base + i * size) as usize),
            ) by {
                assert((allocated_id + i) * size == allocated_id * size + i * size)
                    by (nonlinear_arith);
                assert(0 <= i * size && i * size + size <= actual * size) by (nonlinear_arith)
                    requires
                        0 <= i < actual,
                        size > 0,
                ;
                lemma_object_is_aligned(
                    record.span_begin as int,
                    allocated_id + i,
                    size as int,
                    align as int,
                );
                assert(old(chunks).class_of(base + i * size) == Some(self.class_spec()@));
            }
        }
        proof {
            lemma_objects_are_distinct(base, size, actual as int);
        }
        let ghost given = objects(base, size, actual as int).to_multiset();
        let ghost entry = *ledger;
        proof {
            let begin = record.span_begin as int;
            assert forall|x: int| base <= x < base + actual * size implies chunks.class_of(x) == Some(
                self.class_spec()@,
            ) by {
                assert(old(chunks).class_of(x) == Some(self.class_spec()@));
            }
            ledger.lemma_clear_shrinks(
                chunks,
                begin + allocated_id * size,
                begin + limit * size,
                base as int,
                base + actual * size,
            );
        }
        ledger.grant(
            Ghost(&*chunks),
            Ghost(self.class@),
            Ghost(base),
            Ghost(size),
            Ghost(actual as int),
            Ghost(to),
        );
        proof {
            let record_now = chunks@[meta as int];
            if record_now.bump_ptr < record_now.bump_limit {
                let begin = record.span_begin as int;
                assert(begin + record_now.bump_ptr * size >= base + actual * size)
                    by (nonlinear_arith)
                    requires
                        base == begin + allocated_id * size,
                        record_now.bump_ptr >= allocated_id + actual,
                        size > 0,
                ;
                entry.lemma_clear_shrinks(
                    chunks,
                    begin + allocated_id * size,
                    begin + limit * size,
                    begin + record_now.bump_ptr * size,
                    begin + limit * size,
                );
            }
            assert forall|a: usize| #![trigger given.count(a)] given.count(a) >= 1 implies entry.holder(
                a,
            ) is None && chunks.class_of(a as int) is Some by {
                let i = choose|i: int| 0 <= i < actual && a == #[trigger] (base + i * size) as usize;
                assert(objects(base, size, actual as int)[i] == base + i * size);
                assert((allocated_id + i) * size == allocated_id * size + i * size)
                    by (nonlinear_arith);
                assert(a == self.element(record, allocated_id + i));
                assert(self.element(old(chunks)@[meta as int], allocated_id + i) == a);
                assert(self.object_ok(chunks, (base + i * size) as usize));
            }
            assert forall|k: int| record_now.bump_ptr <= k < record_now.bump_limit implies ledger.holder(
                #[trigger] self.element(record_now, k),
            ) is None by {
                let a = self.element(record_now, k);
                assert(a == self.element(record, k));
                assert(entry.holder(self.element(old(chunks)@[meta as int], k)) is None);
                assert(0 <= k * size && k * size + size <= limit * size) by (nonlinear_arith)
                    requires
                        0 <= k < limit,
                        size > 0,
                ;
                if given.count(a) >= 1 {
                    let i = choose|i: int|
                        0 <= i < actual && a == #[trigger] (base + i * size) as usize;
                    assert(objects(base, size, actual as int)[i] == base + i * size);
                    assert((allocated_id + i) * size == allocated_id * size + i * size)
                        by (nonlinear_arith);
                    assert(0 <= k * size && k * size + size <= limit * size) by (nonlinear_arith)
                        requires
                            0 <= k < limit,
                            size > 0,
                    ;
                    assert(k * size == (allocated_id + i) * size);
                    assert(k == allocated_id + i) by (nonlinear_arith)
                        requires
                            k * size == (allocated_id + i) * size,
                            size > 0,
                    ;
                }
            }
            assert(self.batch_in_span(chunks, base, actual as int)) by {
                assert(chunks@[meta as int].span_begin == record.span_begin);
                assert(chunks@[meta as int].bump_limit == record.bump_limit);
                assert(actual * size >= size) by (nonlinear_arith)
                    requires
                        actual >= 1,
                        size > 0,
                ;
            }
        }
        Some((base, actual))
    }

    /// Attempts to replace our bump pointer with a new one, if it is
    /// still the `expected` one.
    ///
    /// On success, the press has a fresh span, of which no object was
    /// allocated.  On failure, nothing changed.
    fn try_replace_span<M: Mapper>(
        &mut self,
        mill: &mut Mill<M>,
        chunks: &mut Chunks,
        expected: usize,
        Ghost(ledger): Ghost<&Ledger>,
    ) -> (ret: Result<(), i32>)
        requires
            old(chunks).wf(),
            old(self).wf(old(chunks)),
            old(mill).wf(old(chunks)),
            old(self).unreserved_ok(old(chunks), ledger),
            ledger.wf(old(chunks)),
        ensures
            final(chunks).wf(),
            final(self).wf(final(chunks)),
            final(self).unreserved_ok(final(chunks), ledger),
            ledger.wf(final(chunks)),
            final(mill).wf(final(chunks)),
            final(mill).mapper_spec() == old(mill).mapper_spec(),
            final(chunks).extends(old(chunks)),
            final(self).class_spec() == old(self).class_spec(),
            final(self).layout_spec() == old(self).layout_spec(),
            final(self).mill_spec() == old(self).mill_spec(),
            old(self).bump_spec() != expected ==> ret is Ok && *final(self) == *old(self)
                && final(chunks)@ == old(chunks)@,
            old(self).bump_spec() == expected ==> match ret {
                Ok(()) => {
                    &&& final(self).bump_spec() != 0
                    &&& final(self).bump_spec() != expected
                    &&& !old(chunks).milled(final(self).bump_spec() as int)
                    &&& final(chunks)@[final(self).bump_spec() as int].bump_ptr == 0
                    &&& final(self).has_room(final(chunks))
                },
                Err(_) => *final(self) == *old(self) && final(chunks)@ == old(chunks)@,
            },
            old(self).bump_spec() == expected && old(mill).has_room(
                old(chunks),
                old(self).layout_spec()@.0,
            ) ==> {
                &&& ret is Ok
                &&& final(chunks)@[final(self).bump_spec() as int].span_begin == old(mill).next_data(
                    old(chunks),
                )
            },
            old(self).bump_spec() == expected && ret is Ok ==> {
                &&& final(chunks)@[final(self).bump_spec() as int].bump_limit
                    == old(self).fresh_limit(old(mill), old(chunks))
                &&& !old(mill).has_room(old(chunks), old(self).layout_spec()@.0) ==> {
                    &&& final(chunks).count() == old(chunks).count() + 1
                    &&& final(chunks)@[final(self).bump_spec() as int].span_begin
                        == final(chunks).data_of(old(chunks).count() as int)
                }
            },
            final(self).tagged_since(old(chunks), final(chunks)),
    {
        if self.bump != expected {
            // Someone else made progress.
            return Ok(());
        }
        let size = self.layout.size();
        let align = self.layout.align();
        let id = self.class.id();

        // Get a new span.  It must have enough bytes for one
        // allocation, but will usually have more (the default desired
        // size, nearly 1 MB).
        let range = match mill.get_span(chunks, size, None) {
            Ok(range) => range,
            Err(code) => {
                proof {
                    self.lemma_wf_extends(old(chunks), chunks);
                    ledger.lemma_wf_extends(old(chunks), chunks);
                    self.lemma_unreserved_frame(old(chunks), chunks, ledger, ledger);
                }
                return Err(code);
            },
        };
        let ghost milled = *chunks;
        proof {
            self.lemma_wf_extends(old(chunks), &milled);
            assert(range.has_record(range.record(0)));
            milled.lemma_unmilled_is_vacant(range.meta as int);
            old(chunks).lemma_unmilled_is_vacant(expected as int);
            vstd::arithmetic::div_mod::lemma_fundamental_div_mod(
                range.data_size as int,
                size as int,
            );
            vstd::arithmetic::div_mod::lemma_div_is_ordered(
                size as int,
                range.data_size as int,
                size as int,
            );
            vstd::arithmetic::div_mod::lemma_div_by_self(size as int);
            vstd::arithmetic::div_mod::lemma_div_is_ordered_by_denominator(
                range.data_size as int,
                1,
                size as int,
            );
            vstd::arithmetic::div_mod::lemma_div_basics_2(range.data_size as int);
            lemma_trail_is_short(range);
        }
        // We have a fresh Metadata struct: claim it as ours.
        let bump_limit = (range.data_size / size) as u32;
        chunks.install(range.meta, id, bump_limit, range.data);
        proof {
            assert forall|j: int| 0 < j <= range.trail implies (
            #[trigger] chunks@[range.record(j)]).class_id is None by {
                lemma_records_differ(range, 0, j);
                assert(range.has_record(range.record(j)));
                assert(milled@[range.record(j)] == SpanMetadata::vacant());
            }
            mill.lemma_wf_extends(&milled, chunks);
        }

        // Make sure allocations in the trail are properly marked as being ours.
        let mut k: usize = 0;
        while k < range.trail
            invariant
                chunks.wf(),
                mill.wf(chunks),
                chunks.extends(&milled),
                chunks.same_layout(&milled),
                range.wf(),
                k <= range.trail,
                bump_limit == range.data_size as int / (size as int),
                old(mill).has_room(old(chunks), size) ==> range.data == old(mill).next_data(
                    old(chunks),
                ) && range.trail + 1 == old(mill).next_spans(old(chunks), size),
                !old(mill).has_room(old(chunks), size) ==> {
                    &&& milled.count() == old(chunks).count() + 1
                    &&& range.data == milled.data_of(old(chunks).count() as int)
                    &&& range.trail + 1 == crate::mill::spans_for(
                        crate::mill::desired_bytes(size, None) as int,
                    )
                },
                forall|m: int| milled.milled(m) <==> old(chunks).milled(m) || range.has_record(m),
                id == self.class_spec()@,
                milled.wf(),
                old(chunks).wf(),
                forall|m: int| #[trigger]
                    old(chunks)@.dom().contains(m) ==> milled@[m] == old(chunks)@[m],
                range.trail < crate::mill::SPANS_PER_CHUNK,
                range.meta + (range.trail + 1) * SPAN_METADATA_SIZE <= usize::MAX,
                forall|m: int| range.has_record(m) ==> milled.milled(m),
                forall|j: int|
                    0 <= j <= k ==> (#[trigger] chunks@[range.record(j)]).class_id == Some(id),
                forall|j: int|
                    k < j <= range.trail ==> (#[trigger] chunks@[range.record(j)]).class_id
                        is None,
                chunks@[range.meta as int] == (SpanMetadata {
                    class_id: Some(id),
                    bump_limit,
                    bump_ptr: 0,
                    span_begin: range.data,
                }),
                forall|m: int|
                    !range.has_record(m) && milled@.dom().contains(m) ==> #[trigger] chunks@[m]
                        == milled@[m],
            decreases range.trail - k,
        {
            k += 1;
            assert(k * SPAN_METADATA_SIZE <= (range.trail + 1) * SPAN_METADATA_SIZE)
                by (nonlinear_arith)
                requires
                    k <= range.trail + 1,
            ;
            let trailing_meta = range.meta + k * SPAN_METADATA_SIZE;
            proof {
                assert(trailing_meta == range.record(k as int));
                assert(range.has_record(trailing_meta as int));
                assert(chunks@[range.record(k as int)].class_id is None);
            }
            let ghost before = *chunks;
            chunks.tag(trailing_meta, id);
            proof {
                mill.lemma_wf_extends(&before, chunks);
                lemma_extends_is_transitive(&milled, &before, chunks);
                assert forall|j: int| 0 <= j <= k implies (
                #[trigger] chunks@[range.record(j)]).class_id == Some(id) by {
                    if j < k {
                        lemma_records_differ(range, j, k as int);
                        assert(before@[range.record(j)].class_id == Some(id));
                    }
                }
                assert forall|j: int| k < j <= range.trail implies (
                #[trigger] chunks@[range.record(j)]).class_id is None by {
                    lemma_records_differ(range, k as int, j);
                    assert(before@[range.record(j)].class_id is None);
                }
                assert(chunks@[range.meta as int] == before@[range.meta as int]) by {
                    lemma_records_differ(range, 0, k as int);
                }
            }
        }

        // Publish the metadata for our fresh span.
        self.bump = range.meta;
        proof {
            lemma_extends_is_transitive(old(chunks), &milled, chunks);
            let record = chunks@[range.meta as int];
            lemma_align_divides_span(align);
            lemma_multiple_of_multiple(range.data as int, SPAN_ALIGNMENT as int, align as int);
            assert(bump_limit * size <= range.data_size) by (nonlinear_arith)
                requires
                    range.data_size == size * (range.data_size as int / (size as int))
                        + range.data_size as int % (size as int),
                    0 <= range.data_size as int % (size as int),
                    bump_limit == range.data_size as int / (size as int),
            ;
            assert forall|a: int|
                record.span_begin <= a < record.span_begin + record.bump_limit
                    * self.layout_spec()@.0 implies #[trigger] chunks.class_of(a) == Some(
                self.class_spec()@,
            ) by {
                range.lemma_record_of_address(a);
                let j = (a - range.data) / (SPAN_ALIGNMENT as int);
                assert(chunks@[range.record(j)].class_id == Some(id));
                assert(range.has_record(range.record(j)));
                assert(milled@.dom().contains(range.record(j)));
            }
            assert(self.span_ok(chunks, record));
            assert(chunks.milled(range.meta as int));
            ledger.lemma_wf_extends(old(chunks), &milled);
            ledger.lemma_wf_extends(old(chunks), chunks);
            assert forall|k: int| record.bump_ptr <= k < record.bump_limit implies ledger.holder(
                #[trigger] self.element(record, k),
            ) is None by {
                assert(0 <= k * size && k * size + size <= bump_limit * size) by (nonlinear_arith)
                    requires
                        0 <= k < bump_limit,
                        size > 0,
                ;
                let a = range.data + k * size;
                range.lemma_record_of_address(a);
                let j = (a - range.data) / (SPAN_ALIGNMENT as int);
                assert(range.has_record(range.record(j)));
                assert(milled@[range.record(j)] == SpanMetadata::vacant());
                assert(milled.class_of(a) is None);
            }
            old(self).lemma_size_is_known(old(chunks), ledger);
            let lo = range.data as int;
            let hi = range.data + bump_limit * size;
            assert forall|x: int| lo <= x < hi implies milled.class_of(x) is None by {
                range.lemma_record_of_address(x);
                let j = (x - range.data) / (SPAN_ALIGNMENT as int);
                assert(range.has_record(range.record(j)));
                assert(milled@[range.record(j)] == SpanMetadata::vacant());
            }
            ledger.lemma_clear_fresh(&milled, lo, hi);
            lemma_extends_is_transitive(old(chunks), &milled, chunks);
            ledger.lemma_wf_extends(&milled, chunks);
            assert forall|m: int|
                chunks@.dom().contains(m) && (#[trigger] chunks@[m]).class_id is Some && !(
                old(chunks)@.dom().contains(m) && old(chunks)@[m].class_id is Some)
                    implies chunks@[m].class_id == Some(id) by {
                if range.has_record(m) {
                    let j = choose|j: int| 0 <= j <= range.trail && m == #[trigger] range.record(j);
                    assert(chunks@[range.record(j)].class_id == Some(id));
                } else {
                    assert(milled@.dom().contains(m));
                    assert(chunks@[m] == milled@[m]);
                    milled.lemma_unmilled_is_vacant(m);
                    old(chunks).lemma_unmilled_is_vacant(m);
                    if old(chunks)@.dom().contains(m) {
                        assert(milled@[m] == old(chunks)@[m]);
                    }
                }
            }
        }
        Ok(())
    }

    /// Attempts to allocate up to `max_count` objects.  Returns Ok()
    /// if we tried to allocate from the current bump region.
    ///
    /// On allocation success, returns Ok(Some(base_address, object_count))
    ///
    /// # Errors
    ///
    /// Returns `Err` if we failed to grab a new bump region.
    fn try_allocate_once<M: Mapper>(
        &mut self,
        mill: &mut Mill<M>,
        chunks: &mut Chunks,
        ledger: &mut Ledger,
        max_count: usize,
        Ghost(to): Ghost<int>,
    ) -> (ret: Result<Option<(usize, usize)>, i32>)
        requires
            old(chunks).wf(),
            old(self).wf(old(chunks)),
            old(mill).wf(old(chunks)),
            old(self).unreserved_ok(old(chunks), old(ledger)),
            old(ledger).wf(old(chunks)),
            old(ledger).is_cache(to),
            max_count > 0,
        ensures
            final(chunks).wf(),
            final(self).wf(final(chunks)),
            final(self).unreserved_ok(final(chunks), final(ledger)),
            final(ledger).wf(final(chunks)),
            final(self).handed_out(
                old(ledger),
                final(ledger),
                match ret {
                    Ok(batch) => batch,
                    Err(_) => None,
                },
                to,
            ),
            final(mill).wf(final(chunks)),
            final(mill).mapper_spec() == old(mill).mapper_spec(),
            final(chunks).extends(old(chunks)),
            final(self).class_spec() == old(self).class_spec(),
            final(self).layout_spec() == old(self).layout_spec(),
            final(self).mill_spec() == old(self).mill_spec(),
            old(self).has_room(old(chunks)) ==> ret == Ok::<Option<(usize, usize)>, i32>(
                Some(
                    (
                        old(self).next_object(old(chunks)),
                        old(self).batch_size(old(chunks), max_count) as usize,
                    ),
                ),
            ),
            match ret {
                Ok(Some((base, count))) => {
                    &&& 0 < count <= max_count
                    &&& final(self).objects_ok(final(chunks), base, count as int)
                    &&& final(self).batch_in_span(final(chunks), base, count as int)
                },
                Ok(None) => final(self).has_room(final(chunks)),
                Err(_) => true,
            },
            !old(self).has_room(old(chunks)) && old(self).can_allocate(old(mill), old(chunks)) ==> {
                &&& ret == Ok::<Option<(usize, usize)>, i32>(None)
                &&& final(self).next_object(final(chunks)) == old(self).upcoming(
                    old(mill),
                    old(chunks),
                )
                &&& final(self).batch_size(final(chunks), max_count) == old(self).upcoming_batch(
                    old(mill),
                    old(chunks),
                    max_count,
                )
            },
            old(self).has_room(old(chunks)) ==> final(chunks).same_layout(old(chunks)),
            !old(self).has_room(old(chunks)) && ret is Ok ==> {
                &&& ret == Ok::<Option<(usize, usize)>, i32>(None)
                &&& final(self).batch_size(final(chunks), max_count) == old(self).upcoming_batch(
                    old(mill),
                    old(chunks),
                    max_count,
                )
                &&& !old(self).can_allocate(old(mill), old(chunks)) ==> final(self).took_new_chunk(
                    old(chunks),
                    final(chunks),
                    final(self).next_object(final(chunks)),
                )
            },
            final(self).tagged_since(old(chunks), final(chunks)),
    {
        let meta_ptr = self.bump;
        if meta_ptr != 0 {
            let allocated = self.try_allocate_from_span(
                chunks,
                ledger,
                meta_ptr,
                max_count,
                Ghost(to),
            );
            proof {
                mill.lemma_wf_extends(old(chunks), chunks);
            }
            if let Some(result) = allocated {
                return Ok(Some(result));
            }
        }
        let ghost before = *chunks;
        // Either we didn't find any span metadata, or bump
        // allocation failed.  Either way, let's try to put
        // a new span in.

        proof {
            if meta_ptr != 0 {
                mill.lemma_room_frame(old(chunks), &before, self.layout_spec()@.0);
            }
        }
        let replaced = self.try_replace_span(mill, chunks, meta_ptr, Ghost(&*ledger));
        proof {
            lemma_extends_is_transitive(old(chunks), &before, chunks);
        }
        match replaced {
            Ok(()) => Ok(None),
            Err(code) => Err(code),
        }
    }

    /// Tries to allocate up to `max_count` objects.  Only fails on OOM.
    fn try_allocate<M: Mapper>(
        &mut self,
        mill: &mut Mill<M>,
        chunks: &mut Chunks,
        ledger: &mut Ledger,
        max_count: usize,
        Ghost(to): Ghost<int>,
    ) -> (ret: Option<(usize, usize)>)
        requires
            old(chunks).wf(),
            old(self).wf(old(chunks)),
            old(mill).wf(old(chunks)),
            old(self).unreserved_ok(old(chunks), old(ledger)),
            old(ledger).wf(old(chunks)),
            old(ledger).is_cache(to),
            max_count > 0,
        ensures
            final(chunks).wf(),
            final(self).wf(final(chunks)),
            final(self).unreserved_ok(final(chunks), final(ledger)),
            final(ledger).wf(final(chunks)),
            final(self).handed_out(old(ledger), final(ledger), ret, to),
            final(mill).wf(final(chunks)),
            final(mill).mapper_spec() == old(mill).mapper_spec(),
            final(chunks).extends(old(chunks)),
            final(self).class_spec() == old(self).class_spec(),
            final(self).layout_spec() == old(self).layout_spec(),
            final(self).mill_spec() == old(self).mill_spec(),
            old(self).can_allocate(old(mill), old(chunks)) ==> ret == Some(
                (
                    old(self).upcoming(old(mill), old(chunks)),
                    old(self).upcoming_batch(old(mill), old(chunks), max_count) as usize,
                ),
            ),
            ret matches Some((base, count)) ==> {
                &&& 0 < count <= max_count
                &&& final(self).objects_ok(final(chunks), base, count as int)
                &&& final(self).batch_in_span(final(chunks), base, count as int)
                &&& count == old(self).upcoming_batch(old(mill), old(chunks), max_count)
                &&& !old(self).can_allocate(old(mill), old(chunks)) ==> final(self).took_new_chunk(
                    old(chunks),
                    final(chunks),
                    base,
                )
            },
            final(self).tagged_since(old(chunks), final(chunks)),
    {
        let mut attempts: usize = 2;
        loop
            invariant
                chunks.wf(),
                self.wf(chunks),
                mill.wf(chunks),
                self.unreserved_ok(chunks, ledger),
                ledger.wf(chunks),
                ledger.is_cache(to),
                self.handed_out(old(ledger), ledger, None, to),
                mill.mapper_spec() == old(mill).mapper_spec(),
                chunks.extends(old(chunks)),
                self.class_spec() == old(self).class_spec(),
                self.layout_spec() == old(self).layout_spec(),
                self.mill_spec() == old(self).mill_spec(),
                max_count > 0,
                attempts == 2 || attempts == 1,
                attempts == 1 ==> self.has_room(chunks) && !old(self).has_room(old(chunks)),
                attempts == 1 && old(self).can_allocate(old(mill), old(chunks)) ==> {
                    &&& self.next_object(chunks) == old(self).upcoming(old(mill), old(chunks))
                },
                attempts == 1 ==> {
                    &&& self.batch_size(chunks, max_count) == old(self).upcoming_batch(
                        old(mill),
                        old(chunks),
                        max_count,
                    )
                    &&& !old(self).can_allocate(old(mill), old(chunks)) ==> self.took_new_chunk(
                        old(chunks),
                        chunks,
                        self.next_object(chunks),
                    )
                },
                self.tagged_since(old(chunks), chunks),
                attempts == 2 ==> *self == *old(self) && *chunks == *old(chunks) && *mill == *old(mill),
            decreases attempts,
        {
            let ghost before = *chunks;
            let ghost entry = *ledger;
            match self.try_allocate_once(mill, chunks, ledger, max_count, Ghost(to)) {
                Err(_) => {
                    proof {
                        lemma_extends_is_transitive(old(chunks), &before, chunks);
                    }
                    return None;
                },
                Ok(Some(result)) => {
                    proof {
                        lemma_extends_is_transitive(old(chunks), &before, chunks);
                        self.lemma_tagged_is_transitive(old(chunks), &before, chunks);
                    }
                    return Some(result);
                },
                _ => {
                    proof {
                        lemma_extends_is_transitive(old(chunks), &before, chunks);
                    }
                    attempts = 1;
                },
            }
        }
    }

    /// Allocates one object of the class, of which no object was made
    /// before at this address.  Only fails on OOM.
    pub fn allocate_one_object<M: Mapper>(
        &mut self,
        mill: &mut Mill<M>,
        chunks: &mut Chunks,
        ledger: &mut Ledger,
        Ghost(to): Ghost<int>,
    ) -> (ret: Option<LinearRef>)
        requires
            old(chunks).wf(),
            old(self).wf(old(chunks)),
            old(mill).wf(old(chunks)),
            old(self).unreserved_ok(old(chunks), old(ledger)),
            old(ledger).wf(old(chunks)),
            old(ledger).is_cache(to),
        ensures
            final(chunks).wf(),
            final(self).wf(final(chunks)),
            final(self).unreserved_ok(final(chunks), final(ledger)),
            final(ledger).wf(final(chunks)),
            final(self).handed_out(
                old(ledger),
                final(ledger),
                granted(ret, 1),
                to,
            ),
            final(mill).wf(final(chunks)),
            final(mill).mapper_spec() == old(mill).mapper_spec(),
            final(chunks).extends(old(chunks)),
            final(self).class_spec() == old(self).class_spec(),
            final(self).layout_spec() == old(self).layout_spec(),
            final(self).mill_spec() == old(self).mill_spec(),
            old(self).can_allocate(old(mill), old(chunks)) ==> (ret matches Some(object) && object@
                == old(self).upcoming(old(mill), old(chunks))),
            ret matches Some(object) ==> final(self).object_ok(final(chunks), object@),
            ret matches Some(object) ==> final(self).batch_in_span(final(chunks), object@, 1),
            ret matches Some(object) ==> (!old(self).can_allocate(old(mill), old(chunks))
                ==> final(self).took_new_chunk(old(chunks), final(chunks), object@)),
            final(self).tagged_since(old(chunks), final(chunks)),
    {
        let (address, _count) = match self.try_allocate(mill, chunks, ledger, 1, Ghost(to)) {
            Some(result) => result,
            None => {
                return None;
            },
        };
        proof {
            assert(self.object_ok(chunks, (address + 0 * self.layout_spec()@.0) as usize));
        }
        Some(LinearRef::new(address))
    }

    /// Attempts to allocate multiple objects: first the second return
    /// value, and then up to `room` objects, which are pushed on
    /// `dst`, at increasing addresses.
    ///
    /// Returns the number of elements pushed on `dst`, and an
    /// allocated object if possible.
    pub fn allocate_many_objects<M: Mapper>(
        &mut self,
        mill: &mut Mill<M>,
        chunks: &mut Chunks,
        ledger: &mut Ledger,
        dst: &mut Vec<LinearRef>,
        room: usize,
        Ghost(to): Ghost<int>,
    ) -> (ret: (usize, Option<LinearRef>))
        requires
            old(chunks).wf(),
            old(self).wf(old(chunks)),
            old(mill).wf(old(chunks)),
            old(self).unreserved_ok(old(chunks), old(ledger)),
            old(ledger).wf(old(chunks)),
            old(ledger).is_cache(to),
            room < usize::MAX,
        ensures
            final(chunks).wf(),
            final(self).wf(final(chunks)),
            final(self).unreserved_ok(final(chunks), final(ledger)),
            final(ledger).wf(final(chunks)),
            final(self).handed_out(
                old(ledger),
                final(ledger),
                granted(ret.1, ret.0 + 1),
                to,
            ),
            ret.1 matches Some(object) ==> addresses(
                final(dst)@.subrange(old(dst)@.len() as int, final(dst)@.len() as int),
            ) == objects(object@, final(self).layout_spec()@.0, ret.0 + 1).skip(1),
            final(mill).wf(final(chunks)),
            final(mill).mapper_spec() == old(mill).mapper_spec(),
            final(chunks).extends(old(chunks)),
            final(self).class_spec() == old(self).class_spec(),
            final(self).layout_spec() == old(self).layout_spec(),
            final(self).mill_spec() == old(self).mill_spec(),
            old(self).can_allocate(old(mill), old(chunks)) ==> (ret.1 matches Some(object)
                && object@ == old(self).upcoming(old(mill), old(chunks)) && ret.0 + 1
                == old(self).upcoming_batch(old(mill), old(chunks), (room + 1) as usize)),
            ret.1 matches Some(object) ==> {
                &&& final(self).batch_in_span(final(chunks), object@, ret.0 + 1)
                &&& ret.0 + 1 == old(self).upcoming_batch(
                    old(mill),
                    old(chunks),
                    (room + 1) as usize,
                )
                &&& !old(self).can_allocate(old(mill), old(chunks)) ==> final(self).took_new_chunk(
                    old(chunks),
                    final(chunks),
                    object@,
                )
            },
            final(self).tagged_since(old(chunks), final(chunks)),
            ret.0 <= room,
            final(dst)@.len() == old(dst)@.len() + ret.0,
            final(dst)@.subrange(0, old(dst)@.len() as int) == old(dst)@,
            match ret.1 {
                None => ret.0 == 0,
                Some(object) => {
                    &&& final(self).object_ok(final(chunks), object@)
                    &&& forall|i: int|
                        0 <= i < ret.0 ==> {
                            &&& (#[trigger] final(dst)@[old(dst)@.len() + i])@ == object@ + (i + 1)
                                * final(self).layout_spec()@.0
                            &&& final(self).object_ok(final(chunks), final(dst)@[old(dst)@.len() + i]@)
                        }
                },
            },
    {
        let elsize = self.layout.size();
        match self.try_allocate(mill, chunks, ledger, room + 1, Ghost(to)) {
            Some((base, count)) => {
                proof {
                    assert(self.object_ok(chunks, (base + 0 * elsize) as usize));
                    assert(0 <= 1 * elsize <= count * elsize) by (nonlinear_arith)
                        requires
                            count >= 1,
                            elsize >= 0,
                    ;
                }
                let mut address = base;
                // Acquires the next element from `base[0..count]`.
                let ret = LinearRef::new(address);
                address += elsize;

                let mut populated: usize = 0;
                while populated < count - 1
                    invariant
                        chunks.wf(),
                        self.wf(chunks),
                        elsize == self.layout_spec()@.0,
                        count >= 1,
                        populated <= count - 1,
                        self.objects_ok(chunks, base, count as int),
                        address == base + (populated + 1) * elsize,
                        dst@.len() == old(dst)@.len() + populated,
                        dst@.subrange(0, old(dst)@.len() as int) == old(dst)@,
                        forall|i: int|
                            0 <= i < populated ==> {
                                &&& (#[trigger] dst@[old(dst)@.len() + i])@ == base + (i + 1)
                                    * elsize
                                &&& self.object_ok(chunks, dst@[old(dst)@.len() + i]@)
                            },
                    decreases count - 1 - populated,
                {
                    proof {
                        assert(self.object_ok(
                            chunks,
                            (base + (populated + 1) * elsize) as usize,
                        ));
                        assert((populated + 2) * elsize <= count * elsize) by (nonlinear_arith)
                            requires
                                populated + 2 <= count,
                                elsize >= 0,
                        ;
                        assert((populated + 2) * elsize == (populated + 1) * elsize + elsize)
                            by (nonlinear_arith);
                    }
                    let ghost before = dst@;
                    dst.push(LinearRef::new(address));
                    address += elsize;
                    populated += 1;
                    proof {
                        assert(dst@.subrange(0, old(dst)@.len() as int) =~= before.subrange(
                            0,
                            old(dst)@.len() as int,
                        ));
                    }
                }
                proof {
                    let tail = addresses(dst@.subrange(old(dst)@.len() as int, dst@.len() as int));
                    let batch = objects(base, elsize, count as int);
                    lemma_objects_are_distinct(base, elsize, count as int);
                    assert(tail.len() == batch.skip(1).len());
                    assert forall|i: int| 0 <= i < tail.len() implies tail[i] == batch.skip(1)[i] by {
                        assert(tail[i] == dst@[old(dst)@.len() + i]@);
                        assert(batch.skip(1)[i] == batch[i + 1]);
                    }
                    assert(tail =~= batch.skip(1));
                }
                (populated, Some(ret))
            },
            None => {
                proof {
                    assert(dst@.subrange(0, old(dst)@.len() as int) =~= old(dst)@);
                }
                (0, None)
            },
        }
    }
}

/// The records of a range are at different addresses.
pub proof fn lemma_records_differ(range: MilledRange, j: int, k: int)
    requires
        j != k,
    ensures
        range.record(j) != range.record(k),
{
    assert(j * SPAN_METADATA_SIZE != k * SPAN_METADATA_SIZE) by (nonlinear_arith)
        requires
            j != k,
            SPAN_METADATA_SIZE == 24,
    ;
}

/// A range has fewer records than a chunk has spans, and the addresses
/// of its records are addresses.
pub proof fn lemma_trail_is_short(range: MilledRange)
    requires
        range.wf(),
    ensures
        range.trail < crate::mill::SPANS_PER_CHUNK,
        range.meta + (range.trail + 1) * SPAN_METADATA_SIZE <= usize::MAX,
{
    let d = DATA_ALIGNMENT as int;
    let data = range.data as int;
    vstd::arithmetic::div_mod::lemma_fundamental_div_mod(data, d);
    assert((range.trail + 1) * SPAN_ALIGNMENT <= DATA_ALIGNMENT);
    assert(range.trail + 1 <= crate::mill::SPANS_PER_CHUNK) by (nonlinear_arith)
        requires
            (range.trail + 1) * SPAN_ALIGNMENT <= DATA_ALIGNMENT,
            SPAN_ALIGNMENT == 0x4000,
            DATA_ALIGNMENT == 0x4000_0000,
            crate::mill::SPANS_PER_CHUNK == 0x1_0000,
    ;
    assert((range.trail + 1) * SPAN_METADATA_SIZE <= 0x1_0000 * 24) by (nonlinear_arith)
        requires
            range.trail + 1 <= 0x1_0000,
            SPAN_METADATA_SIZE == 24,
    ;
    crate::mill::lemma_metadata_in_page(crate::mill::chunk_base(data), data);
    vstd::arithmetic::div_mod::lemma_mod_multiples_basic(data / d, d);
    assert(crate::mill::chunk_base(data) == (data / d) * d) by (nonlinear_arith)
        requires
            data == d * (data / d) + data % d,
            crate::mill::chunk_base(data) == data - data % d,
    ;
}

/// What followed what followed a state followed that state.
pub proof fn lemma_extends_is_transitive(first: &Chunks, second: &Chunks, third: &Chunks)
    requires
        second.extends(first),
        third.extends(second),
    ensures
        third.extends(first),
{
    assert forall|m: int| #[trigger] first@.dom().contains(m) implies {
        &&& third@.dom().contains(m)
        &&& first@[m].class_id is Some ==> {
            &&& third@[m].class_id == first@[m].class_id
            &&& third@[m].bump_limit == first@[m].bump_limit
            &&& third@[m].span_begin == first@[m].span_begin
            &&& third@[m].bump_ptr >= first@[m].bump_ptr
        }
    } by {
        assert(second@.dom().contains(m));
    }
}

} // verus!
