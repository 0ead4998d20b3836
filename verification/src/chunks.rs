//! The chunks that have been committed, and the span metadata that
//! their metadata pages hold.
//!
//! Chunks are immortal: once committed, a chunk and its metadata stay
//! where they are.  Every chunk's data is aligned to its size, so the
//! metadata of an address is found by arithmetic on the address alone.
use vstd::prelude::*;

use crate::mill::chunk_base;
use crate::mill::lemma_metadata_in_page;
use crate::mill::metadata_address;
use crate::mill::span_index;
use crate::mill::MilledRange;
use crate::mill::SpanMetadata;
use crate::mill::DATA_ALIGNMENT;
use crate::mill::GUARD_PAGE_SIZE;
use crate::mill::METADATA_PAGE_SIZE;
use crate::mill::SPANS_PER_CHUNK;
use crate::mill::SPAN_ALIGNMENT;
use crate::mill::SPAN_METADATA_SIZE;

verus! {

/// A chunk of data, with the array of metadata for its spans.
pub struct Chunk {
    /// Address of the array of metadata.
    meta: usize,
    /// Address where the chunk's spans start.
    spans: usize,
    /// Chunk size in spans.
    span_count: usize,
    /// Bump pointer to allocate spans.
    next_free_span: usize,
    /// What the array of metadata holds, one record per span.
    chunk_meta: Vec<SpanMetadata>,
}

impl Chunk {
    /// The data is aligned to its size, the metadata sits at its fixed
    /// offset below the data, and the spans that were not handed out
    /// yet have their metadata as the mapper left it.
    pub closed spec fn wf(&self) -> bool {
        &&& self.spans % DATA_ALIGNMENT == 0
        &&& self.spans >= DATA_ALIGNMENT
        &&& self.spans + DATA_ALIGNMENT <= usize::MAX
        &&& self.meta + METADATA_PAGE_SIZE + GUARD_PAGE_SIZE == self.spans
        &&& self.span_count == SPANS_PER_CHUNK
        &&& self.chunk_meta.len() == self.span_count
        &&& self.next_free_span <= self.span_count
        &&& forall|j: int|
            self.next_free_span <= j < self.span_count ==> #[trigger] self.chunk_meta[j]
                == SpanMetadata::vacant()
    }

    /// The address at which the data starts.
    pub closed spec fn data(&self) -> usize {
        self.spans
    }

    /// The number of spans that were handed out.
    pub closed spec fn milled_spans(&self) -> usize {
        self.next_free_span
    }

    /// A chunk for the data at `spans`, with its metadata at `meta`,
    /// as the mapper hands them over: no span is taken, and every
    /// record is vacant.
    pub fn new(meta: usize, spans: usize) -> (chunk: Chunk)
        requires
            spans % DATA_ALIGNMENT == 0,
            spans >= DATA_ALIGNMENT,
            spans + DATA_ALIGNMENT <= usize::MAX,
            meta + METADATA_PAGE_SIZE + GUARD_PAGE_SIZE == spans,
        ensures
            chunk.wf(),
            chunk.data() == spans,
            chunk.milled_spans() == 0,
    {
        let mut chunk_meta: Vec<SpanMetadata> = Vec::new();
        let mut i: usize = 0;
        while i < SPANS_PER_CHUNK
            invariant
                i <= SPANS_PER_CHUNK,
                chunk_meta.len() == i,
                forall|j: int| 0 <= j < i ==> #[trigger] chunk_meta[j] == SpanMetadata::vacant(),
            decreases SPANS_PER_CHUNK - i,
        {
            chunk_meta.push(
                SpanMetadata { class_id: None, bump_limit: 0, bump_ptr: 0, span_begin: 0 },
            );
            i += 1;
        }
        Chunk { meta, spans, span_count: SPANS_PER_CHUNK, next_free_span: 0, chunk_meta }
    }

    /// Overwrites the record of span `j`, which was handed out.
    fn set_record(&mut self, j: usize, record: SpanMetadata)
        requires
            old(self).wf(),
            j < old(self).next_free_span,
        ensures
            final(self).wf(),
            final(self).meta == old(self).meta,
            final(self).spans == old(self).spans,
            final(self).span_count == old(self).span_count,
            final(self).next_free_span == old(self).next_free_span,
            final(self).chunk_meta@ == old(self).chunk_meta@.update(j as int, record),
    {
        self.chunk_meta[j] = record;
    }

    /// Attempts to chop a new set of spans from the chunk.
    ///
    /// On success, the range contains at least `min` spans, and up to
    /// `desired` spans.
    fn allocate_span(&mut self, min: usize, desired: usize) -> (ret: Option<MilledRange>)
        requires
            old(self).wf(),
            desired >= 1,
        ensures
            final(self).wf(),
            final(self).meta == old(self).meta,
            final(self).spans == old(self).spans,
            final(self).chunk_meta == old(self).chunk_meta,
            match ret {
                None => {
                    &&& old(self).span_count - old(self).next_free_span < min
                        || old(self).next_free_span == old(self).span_count
                    &&& final(self).next_free_span == old(self).next_free_span
                },
                Some(range) => {
                    let remaining = old(self).span_count - old(self).next_free_span;
                    let allocated = if remaining < desired {
                        remaining
                    } else {
                        desired as int
                    };
                    &&& remaining >= min
                    &&& remaining >= 1
                    &&& final(self).next_free_span == old(self).next_free_span + allocated
                    &&& range.meta == old(self).meta + old(self).next_free_span * SPAN_METADATA_SIZE
                    &&& range.trail == allocated - 1
                    &&& range.data == old(self).spans + old(self).next_free_span * SPAN_ALIGNMENT
                    &&& range.data_size == allocated * SPAN_ALIGNMENT
                },
            },
    {
        if self.next_free_span >= self.span_count {
            return None;
        }
        let remaining = self.span_count - self.next_free_span;
        if remaining < min {
            return None;
        }
        let allocated = if remaining < desired {
            remaining
        } else {
            desired
        };
        let index = self.next_free_span;
        self.next_free_span += allocated;

        assert(index * SPAN_METADATA_SIZE <= SPANS_PER_CHUNK * SPAN_METADATA_SIZE)
            by (nonlinear_arith)
            requires
                index <= SPANS_PER_CHUNK,
        ;
        assert(index * SPAN_ALIGNMENT <= SPANS_PER_CHUNK * SPAN_ALIGNMENT) by (nonlinear_arith)
            requires
                index <= SPANS_PER_CHUNK,
        ;
        assert(allocated * SPAN_ALIGNMENT <= SPANS_PER_CHUNK * SPAN_ALIGNMENT) by (nonlinear_arith)
            requires
                allocated <= SPANS_PER_CHUNK,
        ;
        Some(
            MilledRange {
                meta: self.meta + index * SPAN_METADATA_SIZE,
                trail: allocated - 1,
                data: self.spans + index * SPAN_ALIGNMENT,
                data_size: allocated * SPAN_ALIGNMENT,
            },
        )
    }
}

/// All the chunks of the process, in the order in which they were
/// committed.
///
/// Viewed as a map, it takes the address of each record of span
/// metadata, in any metadata page, to what the record holds.
pub struct Chunks {
    chunks: Vec<Chunk>,
}

impl View for Chunks {
    type V = Map<int, SpanMetadata>;

    closed spec fn view(&self) -> Map<int, SpanMetadata> {
        Map::new(
            |m: int| exists|i: int, j: int| self.is_slot(i, j, m),
            |m: int|
                {
                    let (i, j) = choose|i: int, j: int| self.is_slot(i, j, m);
                    self.chunks[i].chunk_meta[j]
                },
        )
    }
}

impl Chunks {
    /// Whether `m` is the address of the record for span `j` of chunk
    /// `i`.
    spec fn is_slot(&self, i: int, j: int, m: int) -> bool {
        &&& 0 <= i < self.chunks.len()
        &&& 0 <= j < SPANS_PER_CHUNK
        &&& m == self.chunks[i].meta + j * SPAN_METADATA_SIZE
    }

    /// Every chunk makes sense, and no two chunks have the same data.
    pub closed spec fn wf(&self) -> bool {
        &&& forall|i: int| 0 <= i < self.chunks.len() ==> (#[trigger] self.chunks[i]).wf()
        &&& forall|i: int, j: int|
            0 <= i < j < self.chunks.len() ==> (#[trigger] self.chunks[i]).spans != (
            #[trigger] self.chunks[j]).spans
    }

    /// The number of chunks.
    pub closed spec fn count(&self) -> nat {
        self.chunks@.len()
    }

    /// The address at which the data of chunk `i` starts.
    pub closed spec fn data_of(&self, i: int) -> int {
        self.chunks[i].spans as int
    }

    /// The number of spans of chunk `i` that were not handed out yet.
    pub closed spec fn remaining(&self, i: int) -> int {
        self.chunks[i].span_count - self.chunks[i].next_free_span
    }

    /// Whether the data of some chunk starts at `base`.
    pub closed spec fn has_chunk(&self, base: int) -> bool {
        exists|i: int| 0 <= i < self.chunks.len() && (#[trigger] self.chunks[i]).spans == base
    }

    /// Whether the record at `m` belongs to a span that was handed out.
    pub closed spec fn milled(&self, m: int) -> bool {
        exists|i: int, j: int| self.is_slot(i, j, m) && j < self.chunks[i].next_free_span
    }

    /// The class that owns the span that holds `address`, if the
    /// address lies in the data of a chunk, in a span that a class
    /// owns.
    pub open spec fn class_of(&self, address: int) -> Option<u32> {
        if self@.dom().contains(metadata_address(address)) {
            self@[metadata_address(address)].class_id
        } else {
            None
        }
    }

    /// Whether `self` may follow `old` in the life of the process:
    /// chunks, spans that were handed out and owners of spans stay, and
    /// what a record says of an owned span changes only in the number
    /// of allocated elements, which does not shrink.
    pub open spec fn extends(&self, old: &Chunks) -> bool {
        &&& old.count() <= self.count()
        &&& forall|base: int| old.has_chunk(base) ==> self.has_chunk(base)
        &&& forall|m: int| old.milled(m) ==> self.milled(m)
        &&& forall|m: int| #[trigger]
            old@.dom().contains(m) ==> {
                &&& self@.dom().contains(m)
                &&& old@[m].class_id is Some ==> {
                    &&& self@[m].class_id == old@[m].class_id
                    &&& self@[m].bump_limit == old@[m].bump_limit
                    &&& self@[m].span_begin == old@[m].span_begin
                    &&& self@[m].bump_ptr >= old@[m].bump_ptr
                }
            }
    }

    /// Whether `self` differs from `old` at most in what the records
    /// hold.
    pub open spec fn same_layout(&self, old: &Chunks) -> bool {
        &&& self.count() == old.count()
        &&& self@.dom() == old@.dom()
        &&& forall|i: int| 0 <= i < self.count() ==> self.data_of(i) == old.data_of(i)
        &&& forall|i: int| 0 <= i < self.count() ==> self.remaining(i) == old.remaining(i)
        &&& forall|base: int| self.has_chunk(base) == old.has_chunk(base)
        &&& forall|m: int| self.milled(m) == old.milled(m)
    }

    /// Two records at one address are one record.
    proof fn lemma_slot_unique(&self, i1: int, j1: int, i2: int, j2: int, m: int)
        requires
            self.wf(),
            self.is_slot(i1, j1, m),
            self.is_slot(i2, j2, m),
        ensures
            i1 == i2,
            j1 == j2,
    {
        let d = DATA_ALIGNMENT as int;
        let s1 = self.chunks[i1].spans as int;
        let s2 = self.chunks[i2].spans as int;
        assert(self.chunks[i1].wf());
        assert(self.chunks[i2].wf());
        assert(s1 - s2 == (j2 - j1) * SPAN_METADATA_SIZE);
        assert(-d < (j2 - j1) * SPAN_METADATA_SIZE < d) by (nonlinear_arith)
            requires
                -0x1_0000 < j2 - j1 < 0x1_0000,
                SPAN_METADATA_SIZE == 24,
                d == 0x4000_0000,
        ;
        vstd::arithmetic::div_mod::lemma_fundamental_div_mod(s1, d);
        vstd::arithmetic::div_mod::lemma_fundamental_div_mod(s2, d);
        let a = s1 / d;
        let b = s2 / d;
        assert(a == b) by (nonlinear_arith)
            requires
                s1 == d * a,
                s2 == d * b,
                -d < s1 - s2 < d,
                d > 0,
        ;
        if i1 < i2 {
            assert(self.chunks[i1].spans != self.chunks[i2].spans);
        } else if i2 < i1 {
            assert(self.chunks[i2].spans != self.chunks[i1].spans);
        }
        assert(j1 == j2) by (nonlinear_arith)
            requires
                0 == (j2 - j1) * SPAN_METADATA_SIZE,
                SPAN_METADATA_SIZE == 24,
        ;
    }

    /// What the map holds at the address of a record.
    proof fn lemma_slot_view(&self, i: int, j: int, m: int)
        requires
            self.wf(),
            self.is_slot(i, j, m),
        ensures
            self@.dom().contains(m),
            self@[m] == self.chunks[i].chunk_meta[j],
            self.milled(m) <==> j < self.chunks[i].next_free_span,
            self.has_chunk(self.chunks[i].spans as int),
    {
        let (i2, j2) = choose|i2: int, j2: int| self.is_slot(i2, j2, m);
        self.lemma_slot_unique(i, j, i2, j2, m);
        if self.milled(m) {
            let (i3, j3) = choose|i3: int, j3: int|
                self.is_slot(i3, j3, m) && j3 < self.chunks[i3].next_free_span;
            self.lemma_slot_unique(i, j, i3, j3, m);
        }
    }

    /// The record of a span that was not handed out is vacant, and a
    /// span that was handed out has a record.
    pub proof fn lemma_unmilled_is_vacant(&self, m: int)
        requires
            self.wf(),
        ensures
            self@.dom().contains(m) && !self.milled(m) ==> self@[m] == SpanMetadata::vacant(),
            self.milled(m) ==> self@.dom().contains(m),
    {
        if self@.dom().contains(m) {
            let (i, j) = choose|i: int, j: int| self.is_slot(i, j, m);
            self.lemma_slot_view(i, j, m);
            assert(self.chunks[i].wf());
        }
        if self.milled(m) {
            let (i, j) = choose|i: int, j: int|
                self.is_slot(i, j, m) && j < self.chunks[i].next_free_span;
            self.lemma_slot_view(i, j, m);
        }
    }

    /// The map has a record for an address exactly when the address
    /// lies in the data of a chunk.
    pub proof fn lemma_metadata_of_data(&self, address: int)
        requires
            self.wf(),
            0 <= address,
        ensures
            self@.dom().contains(metadata_address(address)) <==> self.has_chunk(
                chunk_base(address),
            ),
    {
        let d = DATA_ALIGNMENT as int;
        let base = chunk_base(address);
        let m = metadata_address(address);
        vstd::arithmetic::div_mod::lemma_fundamental_div_mod(address, d);
        vstd::arithmetic::div_mod::lemma_mod_multiples_basic(address / d, d);
        assert(base == (address / d) * d) by (nonlinear_arith)
            requires
                address == d * (address / d) + address % d,
                base == address - address % d,
        ;
        lemma_metadata_in_page(base, address);
        if self.has_chunk(base) {
            let i = choose|i: int| 0 <= i < self.chunks.len() && (#[trigger] self.chunks[i]).spans
                == base;
            assert(self.chunks[i].wf());
            assert(self.is_slot(i, span_index(address), m));
        }
        if self@.dom().contains(m) {
            let (i, j) = choose|i: int, j: int| self.is_slot(i, j, m);
            assert(self.chunks[i].wf());
            let s = self.chunks[i].spans as int;
            assert(s - base == (span_index(address) - j) * SPAN_METADATA_SIZE);
            assert(-d < (span_index(address) - j) * SPAN_METADATA_SIZE < d) by (nonlinear_arith)
                requires
                    -0x1_0000 < span_index(address) - j < 0x1_0000,
                    SPAN_METADATA_SIZE == 24,
                    d == 0x4000_0000,
            ;
            vstd::arithmetic::div_mod::lemma_fundamental_div_mod(s, d);
            let a = s / d;
            let b = address / d;
            assert(a == b) by (nonlinear_arith)
                requires
                    s == d * a,
                    base == b * d,
                    -d < s - base < d,
                    d > 0,
            ;
            assert(s == base) by (nonlinear_arith)
                requires
                    s == d * a,
                    base == b * d,
                    a == b,
            ;
        }
    }

    /// The data of a chunk starts at a positive multiple of the data
    /// alignment.
    pub proof fn lemma_no_low_chunk(&self, base: int)
        requires
            self.wf(),
            self.has_chunk(base),
        ensures
            base >= DATA_ALIGNMENT,
            base % (DATA_ALIGNMENT as int) == 0,
    {
        let i = choose|i: int| 0 <= i < self.chunks.len() && (#[trigger] self.chunks[i]).spans == base;
        assert(self.chunks[i].wf());
    }

    /// No chunk at all.
    pub fn new() -> (chunks: Chunks)
        ensures
            chunks.wf(),
            chunks.count() == 0,
            chunks@ == Map::<int, SpanMetadata>::empty(),
            forall|base: int| !chunks.has_chunk(base),
            forall|m: int| !chunks.milled(m),
    {
        let chunks = Chunks { chunks: Vec::new() };
        assert(chunks@ =~= Map::<int, SpanMetadata>::empty());
        chunks
    }

    /// Returns the number of chunks.
    pub fn len(&self) -> (ret: usize)
        ensures
            ret == self.count(),
    {
        self.chunks.len()
    }

    /// Finds the chunk and the span to which the record at `m` belongs.
    fn find(&self, m: usize) -> (ret: Option<(usize, usize)>)
        requires
            self.wf(),
        ensures
            match ret {
                Some((i, j)) => self.is_slot(i as int, j as int, m as int),
                None => !self@.dom().contains(m as int),
            },
    {
        let mut i: usize = 0;
        while i < self.chunks.len()
            invariant
                self.wf(),
                i <= self.chunks.len(),
                forall|i2: int, j2: int| 0 <= i2 < i ==> !self.is_slot(i2, j2, m as int),
            decreases self.chunks.len() - i,
        {
            let meta = self.chunks[i].meta;
            assert(self.chunks[i as int].wf());
            if m >= meta && m - meta < SPANS_PER_CHUNK * SPAN_METADATA_SIZE && (m - meta)
                % SPAN_METADATA_SIZE == 0 {
                let j = (m - meta) / SPAN_METADATA_SIZE;
                proof {
                    vstd::arithmetic::div_mod::lemma_fundamental_div_mod(
                        (m - meta) as int,
                        SPAN_METADATA_SIZE as int,
                    );
                }
                return Some((i, j));
            }
            proof {
                assert forall|j2: int| !self.is_slot(i as int, j2, m as int) by {
                    if self.is_slot(i as int, j2, m as int) {
                        vstd::arithmetic::div_mod::lemma_mod_multiples_basic(
                            j2,
                            SPAN_METADATA_SIZE as int,
                        );
                        assert(j2 * SPAN_METADATA_SIZE < SPANS_PER_CHUNK * SPAN_METADATA_SIZE)
                            by (nonlinear_arith)
                            requires
                                0 <= j2 < SPANS_PER_CHUNK,
                                SPAN_METADATA_SIZE == 24,
                        ;
                    }
                }
            }
            i += 1;
        }
        None
    }

    /// Reads the record of span metadata at address `m`, if there is
    /// one.
    pub fn get(&self, m: usize) -> (ret: Option<SpanMetadata>)
        requires
            self.wf(),
        ensures
            match ret {
                Some(record) => self@.dom().contains(m as int) && self@[m as int] == record,
                None => !self@.dom().contains(m as int),
            },
    {
        match self.find(m) {
            None => None,
            Some((i, j)) => {
                proof {
                    self.lemma_slot_view(i as int, j as int, m as int);
                    assert(self.chunks[i as int].wf());
                }
                Some(self.chunks[i].chunk_meta[j])
            },
        }
    }

    /// Overwrites the record at `m`, which belongs to a span that was
    /// handed out.
    fn update(&mut self, m: usize, record: SpanMetadata)
        requires
            old(self).wf(),
            old(self).milled(m as int),
        ensures
            final(self).wf(),
            final(self)@ == old(self)@.insert(m as int, record),
            final(self).same_layout(old(self)),
    {
        proof {
            self.lemma_unmilled_is_vacant(m as int);
        }
        match self.find(m) {
            None => {},
            Some((i, j)) => {
                proof {
                    self.lemma_slot_view(i as int, j as int, m as int);
                    assert(self.chunks[i as int].wf());
                }
                self.chunks[i].set_record(j, record);
                proof {
                    let old_self = *old(self);
                    assert forall|i2: int| 0 <= i2 < self.chunks.len() implies (
                    #[trigger] self.chunks[i2]).wf() by {
                        assert(old_self.chunks[i2].wf());
                    }
                    assert forall|i2: int, j2: int, m2: int|
                        self.is_slot(i2, j2, m2) == old_self.is_slot(i2, j2, m2) by {}
                    assert(self.wf()) by {
                        assert forall|i1: int, i2: int|
                            0 <= i1 < i2 < self.chunks.len() implies (
                        #[trigger] self.chunks[i1]).spans != (#[trigger] self.chunks[i2]).spans by {
                            assert(old_self.chunks[i1].spans != old_self.chunks[i2].spans);
                        }
                    }
                    assert forall|m2: int| self.milled(m2) == old_self.milled(m2) by {
                        if old_self.milled(m2) {
                            let (i2, j2) = choose|i2: int, j2: int|
                                old_self.is_slot(i2, j2, m2) && j2
                                    < old_self.chunks[i2].next_free_span;
                            assert(self.is_slot(i2, j2, m2) && j2 < self.chunks[i2].next_free_span);
                        }
                        if self.milled(m2) {
                            let (i2, j2) = choose|i2: int, j2: int|
                                self.is_slot(i2, j2, m2) && j2 < self.chunks[i2].next_free_span;
                            assert(old_self.is_slot(i2, j2, m2) && j2
                                < old_self.chunks[i2].next_free_span);
                        }
                    }
                    assert forall|base: int| self.has_chunk(base) == old_self.has_chunk(base) by {
                        if old_self.has_chunk(base) {
                            let i2 = choose|i2: int|
                                0 <= i2 < old_self.chunks.len() && (
                                #[trigger] old_self.chunks[i2]).spans == base;
                            assert(self.chunks[i2].spans == base);
                        }
                        if self.has_chunk(base) {
                            let i2 = choose|i2: int|
                                0 <= i2 < self.chunks.len() && (#[trigger] self.chunks[i2]).spans
                                    == base;
                            assert(old_self.chunks[i2].spans == base);
                        }
                    }
                    assert forall|m2: int| #[trigger]
                        self@.dom().contains(m2) == old_self@.dom().contains(m2) by {
                        if old_self@.dom().contains(m2) {
                            let (i2, j2) = choose|i2: int, j2: int| old_self.is_slot(i2, j2, m2);
                            assert(self.is_slot(i2, j2, m2));
                        }
                        if self@.dom().contains(m2) {
                            let (i2, j2) = choose|i2: int, j2: int| self.is_slot(i2, j2, m2);
                            assert(old_self.is_slot(i2, j2, m2));
                        }
                    }
                    assert forall|m2: int| #[trigger] self@.dom().contains(m2) implies self@[m2]
                        == old_self@.insert(m as int, record)[m2] by {
                        let (i2, j2) = choose|i2: int, j2: int| self.is_slot(i2, j2, m2);
                        self.lemma_slot_view(i2, j2, m2);
                        old_self.lemma_slot_view(i2, j2, m2);
                        if m2 == m {
                            old_self.lemma_slot_unique(i2, j2, i as int, j as int, m2);
                        } else if i2 == i && j2 == j {
                        }
                    }
                    assert(self@ =~= old_self@.insert(m as int, record));
                    assert(self@.dom() =~= old_self@.dom());
                }
            },
        }
    }

    /// Makes the span whose first record is at `m` the span of a
    /// class: `bump_limit` elements, none of them allocated, starting
    /// at `span_begin`.  No class owns the record yet.
    pub fn install(&mut self, m: usize, class_id: u32, bump_limit: u32, span_begin: usize)
        requires
            old(self).wf(),
            old(self).milled(m as int),
            old(self)@[m as int].class_id is None,
        ensures
            final(self).wf(),
            final(self)@ == old(self)@.insert(
                m as int,
                SpanMetadata { class_id: Some(class_id), bump_limit, bump_ptr: 0, span_begin },
            ),
            final(self).same_layout(old(self)),
            final(self).extends(old(self)),
    {
        proof {
            self.lemma_unmilled_is_vacant(m as int);
        }
        self.update(m, SpanMetadata { class_id: Some(class_id), bump_limit, bump_ptr: 0, span_begin });
    }

    /// Marks the record at `m`, which no class owns yet, as one more
    /// record of a span of the class.
    pub fn tag(&mut self, m: usize, class_id: u32)
        requires
            old(self).wf(),
            old(self).milled(m as int),
            old(self)@[m as int].class_id is None,
        ensures
            final(self).wf(),
            final(self)@ == old(self)@.insert(
                m as int,
                SpanMetadata { class_id: Some(class_id), ..old(self)@[m as int] },
            ),
            final(self).same_layout(old(self)),
            final(self).extends(old(self)),
    {
        proof {
            self.lemma_unmilled_is_vacant(m as int);
        }
        match self.get(m) {
            None => {},
            Some(record) => {
                self.update(m, SpanMetadata { class_id: Some(class_id), ..record });
            },
        }
    }

    /// Adds `count` to the number of allocated elements in the record
    /// at `m`, up to the largest number that the record can hold, and
    /// returns the number that the record held.
    pub fn bump(&mut self, m: usize, count: usize) -> (ret: usize)
        requires
            old(self).wf(),
            old(self).milled(m as int),
        ensures
            final(self).wf(),
            ret == old(self)@[m as int].bump_ptr,
            final(self)@ == old(self)@.insert(
                m as int,
                SpanMetadata {
                    bump_ptr: if ret + count > usize::MAX {
                        usize::MAX
                    } else {
                        (ret + count) as usize
                    },
                    ..old(self)@[m as int]
                },
            ),
            final(self).same_layout(old(self)),
            final(self).extends(old(self)),
    {
        proof {
            self.lemma_unmilled_is_vacant(m as int);
        }
        match self.get(m) {
            None => 0,
            Some(record) => {
                self.update(
                    m,
                    SpanMetadata { bump_ptr: record.bump_ptr.saturating_add(count), ..record },
                );
                record.bump_ptr
            },
        }
    }

    /// Adds a chunk whose data is not the data of a chunk yet, and of
    /// which no span was handed out.  Returns its position.
    pub fn push(&mut self, chunk: Chunk) -> (index: usize)
        requires
            old(self).wf(),
            chunk.wf(),
            chunk.milled_spans() == 0,
            !old(self).has_chunk(chunk.data() as int),
        ensures
            final(self).wf(),
            index == old(self).count(),
            final(self).count() == old(self).count() + 1,
            final(self).data_of(index as int) == chunk.data(),
            final(self).remaining(index as int) == SPANS_PER_CHUNK,
            forall|i: int|
                0 <= i < old(self).count() ==> final(self).data_of(i) == old(self).data_of(i)
                    && final(self).remaining(i) == old(self).remaining(i),
            forall|base: int|
                final(self).has_chunk(base) <==> old(self).has_chunk(base) || base == chunk.data(),
            forall|m: int| final(self).milled(m) <==> old(self).milled(m),
            forall|m: int| #[trigger]
                old(self)@.dom().contains(m) ==> final(self)@.dom().contains(m) && final(self)@[m]
                    == old(self)@[m],
            final(self).extends(old(self)),
    {
        let index = self.chunks.len();
        self.chunks.push(chunk);
        proof {
            let old_self = *old(self);
            assert forall|i: int| 0 <= i < self.chunks.len() implies (
            #[trigger] self.chunks[i]).wf() by {
                if i < index {
                    assert(old_self.chunks[i].wf());
                }
            }
            assert forall|i: int, j: int| 0 <= i < j < self.chunks.len() implies (
            #[trigger] self.chunks[i]).spans != (#[trigger] self.chunks[j]).spans by {
                if j < index {
                    assert(old_self.chunks[i].spans != old_self.chunks[j].spans);
                } else {
                    assert(old_self.chunks[i].spans == self.chunks[i].spans);
                }
            }
            assert forall|base: int|
                self.has_chunk(base) <==> old_self.has_chunk(base) || base == chunk.data() by {
                if old_self.has_chunk(base) {
                    let i = choose|i: int|
                        0 <= i < old_self.chunks.len() && (#[trigger] old_self.chunks[i]).spans
                            == base;
                    assert(self.chunks[i].spans == base);
                }
                if base == chunk.data() {
                    assert(self.chunks[index as int].spans == base);
                }
                if self.has_chunk(base) {
                    let i = choose|i: int|
                        0 <= i < self.chunks.len() && (#[trigger] self.chunks[i]).spans == base;
                    if i < index {
                        assert(old_self.chunks[i].spans == base);
                    }
                }
            }
            assert forall|m: int| self.milled(m) <==> old_self.milled(m) by {
                if old_self.milled(m) {
                    let (i, j) = choose|i: int, j: int|
                        old_self.is_slot(i, j, m) && j < old_self.chunks[i].next_free_span;
                    assert(self.is_slot(i, j, m) && j < self.chunks[i].next_free_span);
                }
                if self.milled(m) {
                    let (i, j) = choose|i: int, j: int|
                        self.is_slot(i, j, m) && j < self.chunks[i].next_free_span;
                    assert(i < index);
                    assert(old_self.is_slot(i, j, m) && j < old_self.chunks[i].next_free_span);
                }
            }
            assert forall|m: int| #[trigger] old_self@.dom().contains(m) implies self@.dom().contains(
                m,
            ) && self@[m] == old_self@[m] by {
                let (i, j) = choose|i: int, j: int| old_self.is_slot(i, j, m);
                assert(self.is_slot(i, j, m));
                self.lemma_slot_view(i, j, m);
                old_self.lemma_slot_view(i, j, m);
            }
        }
        index
    }

    /// Attempts to chop a new set of spans from chunk `index`.
    ///
    /// On success, the range contains at least `min` spans, and up to
    /// `desired` spans, none of which was handed out before.
    pub fn allocate_span(&mut self, index: usize, min: usize, desired: usize) -> (ret: Option<
        MilledRange,
    >)
        requires
            old(self).wf(),
            index < old(self).count(),
            desired >= 1,
        ensures
            final(self).wf(),
            final(self)@ == old(self)@,
            final(self).count() == old(self).count(),
            forall|i: int|
                0 <= i < old(self).count() ==> final(self).data_of(i) == old(self).data_of(i),
            forall|i: int|
                0 <= i < old(self).count() && i != index ==> final(self).remaining(i)
                    == old(self).remaining(i),
            forall|base: int| final(self).has_chunk(base) == old(self).has_chunk(base),
            final(self).extends(old(self)),
            match ret {
                None => {
                    &&& old(self).remaining(index as int) < min || old(self).remaining(
                        index as int,
                    ) == 0
                    &&& final(self).remaining(index as int) == old(self).remaining(index as int)
                    &&& forall|m: int| final(self).milled(m) == old(self).milled(m)
                },
                Some(range) => {
                    &&& old(self).remaining(index as int) >= min
                    &&& old(self).remaining(index as int) >= 1
                    &&& range.trail + 1 == if old(self).remaining(index as int) < desired {
                        old(self).remaining(index as int)
                    } else {
                        desired as int
                    }
                    &&& final(self).remaining(index as int) == old(self).remaining(index as int)
                        - (range.trail + 1)
                    &&& range.wf()
                    &&& chunk_base(range.data as int) == old(self).data_of(index as int)
                    &&& range.data == old(self).data_of(index as int) + (SPANS_PER_CHUNK
                        - old(self).remaining(index as int)) * SPAN_ALIGNMENT
                    &&& forall|m: int|
                        final(self).milled(m) <==> old(self).milled(m) || range.has_record(m)
                    &&& forall|m: int|
                        range.has_record(m) ==> !old(self).milled(m) && old(self)@.dom().contains(m)
                },
            },
    {
        assert(self.chunks[index as int].wf());
        let ret = self.chunks[index].allocate_span(min, desired);
        proof {
            let old_self = *old(self);
            assert forall|i: int| 0 <= i < self.chunks.len() implies (
            #[trigger] self.chunks[i]).wf() by {
                assert(old_self.chunks[i].wf());
            }
            assert forall|i: int, j: int| 0 <= i < j < self.chunks.len() implies (
            #[trigger] self.chunks[i]).spans != (#[trigger] self.chunks[j]).spans by {
                assert(old_self.chunks[i].spans != old_self.chunks[j].spans);
            }
            assert forall|i2: int, j2: int, m2: int|
                self.is_slot(i2, j2, m2) == old_self.is_slot(i2, j2, m2) by {}
            assert forall|base: int| self.has_chunk(base) == old_self.has_chunk(base) by {
                if old_self.has_chunk(base) {
                    let i2 = choose|i2: int|
                        0 <= i2 < old_self.chunks.len() && (#[trigger] old_self.chunks[i2]).spans
                            == base;
                    assert(self.chunks[i2].spans == base);
                }
                if self.has_chunk(base) {
                    let i2 = choose|i2: int|
                        0 <= i2 < self.chunks.len() && (#[trigger] self.chunks[i2]).spans == base;
                    assert(old_self.chunks[i2].spans == base);
                }
            }
            assert forall|m2: int| #[trigger]
                self@.dom().contains(m2) == old_self@.dom().contains(m2) by {
                if old_self@.dom().contains(m2) {
                    let (i2, j2) = choose|i2: int, j2: int| old_self.is_slot(i2, j2, m2);
                    assert(self.is_slot(i2, j2, m2));
                }
                if self@.dom().contains(m2) {
                    let (i2, j2) = choose|i2: int, j2: int| self.is_slot(i2, j2, m2);
                    assert(old_self.is_slot(i2, j2, m2));
                }
            }
            assert forall|m2: int| #[trigger] self@.dom().contains(m2) implies self@[m2]
                == old_self@[m2] by {
                let (i2, j2) = choose|i2: int, j2: int| self.is_slot(i2, j2, m2);
                self.lemma_slot_view(i2, j2, m2);
                old_self.lemma_slot_view(i2, j2, m2);
            }
            assert(self@ =~= old_self@);
            assert forall|m: int| old_self.milled(m) implies self.milled(m) by {
                let (i, j) = choose|i: int, j: int|
                    old_self.is_slot(i, j, m) && j < old_self.chunks[i].next_free_span;
                assert(self.is_slot(i, j, m) && j < self.chunks[i].next_free_span);
            }
            let first = old_self.chunks[index as int].next_free_span as int;
            let spans = old_self.chunks[index as int].spans as int;
            match ret {
                None => {
                    assert forall|m: int| self.milled(m) implies old_self.milled(m) by {
                        let (i, j) = choose|i: int, j: int|
                            self.is_slot(i, j, m) && j < self.chunks[i].next_free_span;
                        assert(old_self.is_slot(i, j, m) && j
                            < old_self.chunks[i].next_free_span);
                    }
                },
                Some(range) => {
                    let allocated = range.trail + 1;
                    vstd::arithmetic::div_mod::lemma_mod_multiples_basic(
                        first,
                        SPAN_ALIGNMENT as int,
                    );
                    crate::mill::lemma_multiple_of_multiple(
                        spans,
                        DATA_ALIGNMENT as int,
                        SPAN_ALIGNMENT as int,
                    );
                    crate::mill::lemma_sum_of_multiples(
                        spans,
                        first * SPAN_ALIGNMENT,
                        SPAN_ALIGNMENT as int,
                    );
                    assert((first + allocated) * SPAN_ALIGNMENT == first * SPAN_ALIGNMENT
                        + allocated * SPAN_ALIGNMENT) by (nonlinear_arith);
                    assert((first + allocated) * SPAN_ALIGNMENT <= SPANS_PER_CHUNK
                        * SPAN_ALIGNMENT) by (nonlinear_arith)
                        requires
                            first + allocated <= SPANS_PER_CHUNK,
                    ;
                    assert(0 <= first * SPAN_ALIGNMENT) by (nonlinear_arith)
                        requires
                            0 <= first,
                    ;
                    lemma_metadata_in_page(spans, range.data as int);
                    vstd::arithmetic::div_mod::lemma_div_multiples_vanish(
                        first,
                        SPAN_ALIGNMENT as int,
                    );
                    assert(first * SPAN_ALIGNMENT == SPAN_ALIGNMENT * first) by (nonlinear_arith);
                    assert(range.wf());
                    assert forall|m: int| range.has_record(m) implies !old_self.milled(m)
                        && old_self@.dom().contains(m) && self.milled(m) by {
                        let k = choose|k: int| 0 <= k <= range.trail && m == #[trigger] range.record(k);
                        assert((first + k) * SPAN_METADATA_SIZE == first * SPAN_METADATA_SIZE + k
                            * SPAN_METADATA_SIZE) by (nonlinear_arith);
                        assert(old_self.is_slot(index as int, first + k, m));
                        assert(self.is_slot(index as int, first + k, m));
                        old_self.lemma_slot_view(index as int, first + k, m);
                        self.lemma_slot_view(index as int, first + k, m);
                    }
                    assert forall|m: int| self.milled(m) implies old_self.milled(m)
                        || range.has_record(m) by {
                        let (i, j) = choose|i: int, j: int|
                            self.is_slot(i, j, m) && j < self.chunks[i].next_free_span;
                        assert(old_self.is_slot(i, j, m));
                        if i == index && j >= first {
                            let k = j - first;
                            assert((first + k) * SPAN_METADATA_SIZE == first * SPAN_METADATA_SIZE
                                + k * SPAN_METADATA_SIZE) by (nonlinear_arith);
                            assert(m == range.record(k));
                        } else {
                            assert(j < old_self.chunks[i].next_free_span);
                        }
                    }
                },
            }
        }
        ret
    }

    /// Tells whether the data of some chunk starts at `base`.
    pub fn contains_chunk(&self, base: usize) -> (ret: bool)
        requires
            self.wf(),
        ensures
            ret == self.has_chunk(base as int),
    {
        let mut i: usize = 0;
        while i < self.chunks.len()
            invariant
                i <= self.chunks.len(),
                forall|i2: int| 0 <= i2 < i ==> (#[trigger] self.chunks[i2]).spans != base,
            decreases self.chunks.len() - i,
        {
            if self.chunks[i].spans == base {
                return true;
            }
            i += 1;
        }
        false
    }
}

} // verus!
