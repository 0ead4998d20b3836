//! A `Mill` hands out parcels of span data and associated span
//! metadata to `Press`es.  We expect multiple `Press`es to share
//! the same `Mill`.
//!
//! Each `Mill` obtains large chunks, and partitions each chunk into
//! smaller spans.  The chunk data is a 1 GB range, aligned to 1 GB, and
//! the associated array of metadata lives at a fixed offset from the
//! beginning of the chunk.  The layout looks like
//!
//! | guard | meta | guard | data ... data | guard |
//!
//! where the guard and meta(data) regions are 2 MB each, and the
//! data is 1 GB, aligned to 1 GB.
//!
//! Each chunk is divided in 64 K spans of 16 KB each.  Each span is
//! associated with a metadata object in the parallel flat array that
//! lives in the metadata range.
use vstd::prelude::*;

use crate::chunks::Chunk;
use crate::chunks::Chunks;
use crate::class::Slitter;
use crate::mapper::is_page_range;
use crate::mapper::is_power_of_two;
pub use crate::mapper::Mapper;

verus! {

/// Data chunks are naturally aligned to their size, 1GB.
pub const DATA_ALIGNMENT: usize = 0x4000_0000;

/// We use 2 MB sizes to enable huge pages.  3 guard superpages + 1
/// metadata superpage per chunk is still less than 1% overhead.
pub const GUARD_PAGE_SIZE: usize = 0x20_0000;

pub const METADATA_PAGE_SIZE: usize = 0x20_0000;

/// Spans are aligned to 16 KB, within the chunk.
pub const SPAN_ALIGNMENT: usize = 0x4000;

/// Maximum size in bytes we can service for a single span.  The
/// higher this value, the more bytes we may lose to fragmentation
/// when the remaining bytes in a chunk aren't enough.
///
/// Setting this to 1/16th of the chunk size means we lose at most
/// ~6.25% to that source of fragmentation.
pub const MAX_SPAN_SIZE: usize = DATA_ALIGNMENT / 16;

/// By default, we want to carve out *nearly* 1 MB spans: the slight
/// misalignment spreads out our metadata to different cache sets.
pub const DEFAULT_DESIRED_SPAN_SIZE: usize = 0x10_0000 - SPAN_ALIGNMENT;

/// Grabbing an address space of at least this many bytes is
/// enough to find a spot for the chunk and its metadata.
pub const MAPPED_REGION_SIZE: usize = 2 * DATA_ALIGNMENT + 3 * GUARD_PAGE_SIZE
    + METADATA_PAGE_SIZE;

pub const PREFIX_SIZE: usize = GUARD_PAGE_SIZE + METADATA_PAGE_SIZE + GUARD_PAGE_SIZE;

pub const SUFFIX_SIZE: usize = GUARD_PAGE_SIZE;

/// The number of bytes that one `SpanMetadata` takes in the metadata
/// page.
pub const SPAN_METADATA_SIZE: usize = 24;

/// The number of span-aligned regions in the data of one chunk, each
/// with a `SpanMetadata` of its own.
pub const SPANS_PER_CHUNK: usize = DATA_ALIGNMENT / SPAN_ALIGNMENT;

/// The constants are tightly coupled: the default span fits in the
/// largest one, the mapped region has room for two data alignments
/// with the prefix and the suffix, and the metadata of all the spans
/// of a chunk fits in the metadata page.
pub proof fn lemma_constants_are_coherent()
    ensures
        DEFAULT_DESIRED_SPAN_SIZE <= MAX_SPAN_SIZE,
        MAPPED_REGION_SIZE == 2 * DATA_ALIGNMENT + PREFIX_SIZE + SUFFIX_SIZE,
        SPANS_PER_CHUNK * SPAN_METADATA_SIZE <= METADATA_PAGE_SIZE,
        SPANS_PER_CHUNK * SPAN_ALIGNMENT == DATA_ALIGNMENT,
        PREFIX_SIZE < DATA_ALIGNMENT,
{
}

/// The first address of the data of the chunk that holds `address`.
pub open spec fn chunk_base(address: int) -> int {
    address - address % (DATA_ALIGNMENT as int)
}

/// The position, among the spans of its chunk, of the span-aligned
/// region that holds `address`.
pub open spec fn span_index(address: int) -> int {
    (address % (DATA_ALIGNMENT as int)) / (SPAN_ALIGNMENT as int)
}

/// The address of the metadata for the span-aligned region that holds
/// `address`.
pub open spec fn metadata_address(address: int) -> int {
    chunk_base(address) - GUARD_PAGE_SIZE - METADATA_PAGE_SIZE + span_index(address)
        * SPAN_METADATA_SIZE
}

/// The least address above `base` that is a multiple of the data
/// alignment.
pub open spec fn first_aligned_after(base: int) -> int {
    (base / (DATA_ALIGNMENT as int) + 1) * DATA_ALIGNMENT
}

/// Where the data of a chunk carved from a region that starts at
/// `base` begins.
pub open spec fn data_start(base: int) -> int {
    let aligned = first_aligned_after(base);
    if aligned - base < PREFIX_SIZE {
        aligned + DATA_ALIGNMENT
    } else {
        aligned
    }
}

/// `n` rounded up to a multiple of `page_size`.
pub open spec fn round_up(n: int, page_size: int) -> int {
    if n % page_size > 0 {
        page_size * (1 + n / page_size)
    } else {
        n
    }
}

/// The data of a chunk starts at the least multiple of the data
/// alignment that leaves room for the prefix.
pub proof fn lemma_data_start_is_least(base: int, other: int)
    requires
        0 <= base,
        other % (DATA_ALIGNMENT as int) == 0,
        other >= base + PREFIX_SIZE,
    ensures
        data_start(base) % (DATA_ALIGNMENT as int) == 0,
        data_start(base) >= base + PREFIX_SIZE,
        data_start(base) <= other,
        data_start(base) < base + PREFIX_SIZE + DATA_ALIGNMENT,
{
    let d = DATA_ALIGNMENT as int;
    let q = base / d;
    let k = other / d;
    vstd::arithmetic::div_mod::lemma_fundamental_div_mod(base, d);
    assert(q * d == d * q) by (nonlinear_arith);
    vstd::arithmetic::div_mod::lemma_fundamental_div_mod(other, d);
    assert(k * d == d * k) by (nonlinear_arith);
    assert((q + 1) * d == q * d + d && (q + 2) * d == q * d + 2 * d) by (nonlinear_arith);
    vstd::arithmetic::div_mod::lemma_mod_multiples_basic(q + 1, d);
    vstd::arithmetic::div_mod::lemma_mod_multiples_basic(q + 2, d);
    assert(k >= q + 1) by (nonlinear_arith)
        requires
            k * d > q * d + base % d,
            base % d >= 0,
            d > 0,
    ;
    if first_aligned_after(base) - base < PREFIX_SIZE {
        assert(k >= q + 2) by (nonlinear_arith)
            requires
                k * d > (q + 1) * d,
                d > 0,
        ;
        assert(k * d >= (q + 2) * d) by (nonlinear_arith)
            requires
                k >= q + 2,
                d > 0,
        ;
    } else {
        assert(k * d >= (q + 1) * d) by (nonlinear_arith)
            requires
                k >= q + 1,
                d > 0,
        ;
    }
}

/// A page size that is a power of two and no larger than a guard page
/// divides the guard page, the metadata page and the data alignment.
pub proof fn lemma_page_size_divides(page_size: usize)
    requires
        is_power_of_two(page_size),
        page_size <= GUARD_PAGE_SIZE,
    ensures
        GUARD_PAGE_SIZE % page_size == 0,
        METADATA_PAGE_SIZE % page_size == 0,
        DATA_ALIGNMENT % page_size == 0,
{
    let p = page_size as u64;
    assert(p & ((p - 1) as u64) == 0) by {
        assert(page_size & ((page_size - 1) as usize) == (p & ((p - 1) as u64)) as usize)
            by (bit_vector)
            requires
                p == page_size as u64,
                page_size > 0,
        ;
    }
    assert(0x20_0000u64 % p == 0 && 0x4000_0000u64 % p == 0) by (bit_vector)
        requires
            p > 0,
            p <= 0x20_0000u64,
            p & ((p - 1) as u64) == 0,
    ;
}

/// The exact way we want to partition a range of address space.
///
/// The space looks like:
///
/// - slop:  [base, bottom_slop_end)
/// - guard: [bottom_slop_end, meta)
/// - meta:  [meta, meta + METADATA_PAGE_SIZE)
/// - guard: [meta + METADATA_PAGE_SIZE, data)
/// - data:  [data, data_end)
/// - guard: [data_end, top_slop_begin),
/// - slop:  [top_slop_begin, top)
///
/// All the fields but `page_size` are addresses.
pub struct ChunkLayout {
    pub page_size: usize,
    pub base: usize,
    pub top: usize,
    pub bottom_slop_end: usize,
    pub meta: usize,
    pub data: usize,
    pub data_end: usize,
    pub top_slop_begin: usize,
}

impl ChunkLayout {
    /// The partition makes sense: the region and both slops are made
    /// of whole pages, the slops leave the guards, the metadata and
    /// the data alone, and the metadata sits where the address
    /// arithmetic looks for it.
    pub open spec fn wf(&self) -> bool {
        &&& is_power_of_two(self.page_size)
        &&& self.page_size <= GUARD_PAGE_SIZE
        &&& self.base != 0
        &&& self.base % self.page_size == 0
        &&& self.top % self.page_size == 0
        &&& self.base <= self.top
        &&& self.bottom_slop_end % self.page_size == 0
        &&& self.top_slop_begin % self.page_size == 0
        &&& self.bottom_slop_end >= self.base
        &&& self.top_slop_begin <= self.top
        &&& self.bottom_slop_end <= self.top_slop_begin
        &&& self.meta >= self.bottom_slop_end + GUARD_PAGE_SIZE
        &&& self.meta + METADATA_PAGE_SIZE <= self.top_slop_begin
        &&& self.meta + METADATA_PAGE_SIZE + GUARD_PAGE_SIZE == self.data
        &&& self.data % DATA_ALIGNMENT == 0
        &&& self.data >= self.bottom_slop_end
        &&& self.data + DATA_ALIGNMENT + GUARD_PAGE_SIZE <= self.top_slop_begin
        &&& self.data_end == self.data + DATA_ALIGNMENT
        &&& metadata_address(self.data as int) == self.meta
        &&& metadata_address(self.data + DATA_ALIGNMENT - 1) == self.meta + (SPANS_PER_CHUNK - 1)
            * SPAN_METADATA_SIZE
    }
}

/// The reason, if there is one, for which the `size` bytes at `base`
/// cannot be partitioned into a chunk with pages of `page_size` bytes.
pub open spec fn region_fault(page_size: usize, base: usize, size: usize) -> Option<
    &'static str,
> {
    let data = data_start(base as int);
    if base % page_size != 0 {
        Some("base is incorrectly aligned")
    } else if size % page_size != 0 {
        Some("size is incorrectly aligned")
    } else if base + size > usize::MAX {
        Some("input region wraps around")
    } else if first_aligned_after(base as int) > usize::MAX {
        Some("overflow in alignment")
    } else if data > usize::MAX {
        Some("overflow in bump")
    } else if data + DATA_ALIGNMENT > usize::MAX {
        Some("overflow in data_end")
    } else if data + DATA_ALIGNMENT + SUFFIX_SIZE > usize::MAX {
        Some("overflow in suffix_end")
    } else if data + DATA_ALIGNMENT + SUFFIX_SIZE > base + size {
        Some("region too small")
    } else {
        None
    }
}

/// The partition of the `size` bytes at `base` into a chunk.
pub open spec fn region_layout(page_size: usize, base: usize, size: usize) -> ChunkLayout {
    let data = data_start(base as int);
    ChunkLayout {
        page_size,
        base,
        top: (base + size) as usize,
        bottom_slop_end: (data - PREFIX_SIZE) as usize,
        meta: (data - GUARD_PAGE_SIZE - METADATA_PAGE_SIZE) as usize,
        data: data as usize,
        data_end: (data + DATA_ALIGNMENT) as usize,
        top_slop_begin: (data + DATA_ALIGNMENT + SUFFIX_SIZE) as usize,
    }
}

/// A region of whole pages that does not wrap around and has at least
/// `MAPPED_REGION_SIZE` bytes can always be partitioned.
pub proof fn lemma_large_region_has_room(page_size: usize, base: usize, size: usize)
    requires
        page_size > 0,
        base % page_size == 0,
        size % page_size == 0,
        base + size <= usize::MAX,
        size >= MAPPED_REGION_SIZE,
    ensures
        region_fault(page_size, base, size) is None,
{
    lemma_data_start_bounds(base as int);
}

/// Where the data starts, relative to the base of the region.
pub proof fn lemma_data_start_bounds(base: int)
    requires
        0 <= base,
    ensures
        data_start(base) % (DATA_ALIGNMENT as int) == 0,
        base + PREFIX_SIZE <= data_start(base) < base + PREFIX_SIZE + DATA_ALIGNMENT,
        base < first_aligned_after(base) <= base + DATA_ALIGNMENT,
        first_aligned_after(base) <= data_start(base),
{
    let d = DATA_ALIGNMENT as int;
    let q = base / d;
    vstd::arithmetic::div_mod::lemma_fundamental_div_mod(base, d);
    assert(q * d == d * q) by (nonlinear_arith);
    assert((q + 1) * d == q * d + d && (q + 2) * d == q * d + 2 * d) by (nonlinear_arith);
    vstd::arithmetic::div_mod::lemma_mod_multiples_basic(q + 1, d);
    vstd::arithmetic::div_mod::lemma_mod_multiples_basic(q + 2, d);
}

/// The address arithmetic finds, for every address in the data of a
/// chunk, the metadata of its span in the metadata page of that chunk.
pub proof fn lemma_metadata_in_page(data: int, address: int)
    requires
        data % (DATA_ALIGNMENT as int) == 0,
        data <= address < data + DATA_ALIGNMENT,
    ensures
        chunk_base(address) == data,
        span_index(address) == (address - data) / (SPAN_ALIGNMENT as int),
        0 <= span_index(address) < SPANS_PER_CHUNK,
        metadata_address(address) == data - GUARD_PAGE_SIZE - METADATA_PAGE_SIZE + span_index(
            address,
        ) * SPAN_METADATA_SIZE,
        data - GUARD_PAGE_SIZE - METADATA_PAGE_SIZE <= metadata_address(address),
        metadata_address(address) + SPAN_METADATA_SIZE <= data - GUARD_PAGE_SIZE,
{
    let d = DATA_ALIGNMENT as int;
    let k = data / d;
    let off = address - data;
    assert(data == k * d) by (nonlinear_arith)
        requires
            k == data / d,
            data % d == 0,
            d > 0,
    ;
    assert(address % d == off) by (nonlinear_arith)
        requires
            address == k * d + off,
            0 <= off < d,
            d > 0,
    ;
    let s = SPAN_ALIGNMENT as int;
    assert(0 <= off / s < SPANS_PER_CHUNK) by (nonlinear_arith)
        requires
            0 <= off < 0x4000_0000,
            s == 0x4000,
            SPANS_PER_CHUNK == 0x1_0000,
    ;
    assert((off / s) * SPAN_METADATA_SIZE + SPAN_METADATA_SIZE <= METADATA_PAGE_SIZE)
        by (nonlinear_arith)
        requires
            0 <= off / s < 0x1_0000,
            SPAN_METADATA_SIZE == 24,
            METADATA_PAGE_SIZE == 0x20_0000,
    ;
    assert(0 <= (off / s) * SPAN_METADATA_SIZE) by (nonlinear_arith)
        requires
            0 <= off / s,
            SPAN_METADATA_SIZE == 24,
    ;
}

/// The partition that `new_from_range` computes makes sense.
pub proof fn lemma_region_layout_wf(page_size: usize, base: usize, size: usize)
    requires
        is_power_of_two(page_size),
        page_size <= GUARD_PAGE_SIZE,
        base != 0,
        region_fault(page_size, base, size) is None,
    ensures
        region_layout(page_size, base, size).wf(),
{
    let layout = region_layout(page_size, base, size);
    let data = data_start(base as int);
    let p = page_size as int;
    lemma_data_start_bounds(base as int);
    lemma_page_size_divides(page_size);
    lemma_metadata_in_page(data, data);
    lemma_metadata_in_page(data, data + DATA_ALIGNMENT - 1);
    lemma_multiple_of_multiple(data, DATA_ALIGNMENT as int, p);
    lemma_sum_of_multiples(GUARD_PAGE_SIZE as int, GUARD_PAGE_SIZE as int, p);
    lemma_sum_of_multiples(2 * GUARD_PAGE_SIZE, GUARD_PAGE_SIZE as int, p);
    lemma_sum_of_multiples(data, PREFIX_SIZE as int, p);
    lemma_sum_of_multiples(DATA_ALIGNMENT as int, SUFFIX_SIZE as int, p);
    lemma_sum_of_multiples(data, DATA_ALIGNMENT + SUFFIX_SIZE, p);
    lemma_sum_of_multiples(base as int, size as int, p);
    assert((data + DATA_ALIGNMENT - 1 - data) / (SPAN_ALIGNMENT as int) == SPANS_PER_CHUNK - 1);
    assert((data - data) / (SPAN_ALIGNMENT as int) == 0);
}

/// Sums and differences of multiples of `p` are multiples of `p`.
pub proof fn lemma_sum_of_multiples(a: int, b: int, p: int)
    requires
        p > 0,
        a % p == 0,
        b % p == 0,
    ensures
        (a + b) % p == 0,
        (a - b) % p == 0,
{
    vstd::arithmetic::div_mod::lemma_add_mod_noop(a, b, p);
    vstd::arithmetic::div_mod::lemma_sub_mod_noop(a, b, p);
    vstd::arithmetic::div_mod::lemma_small_mod(0, p as nat);
}

/// A multiple of `d` is a multiple of whatever divides `d`.
pub proof fn lemma_multiple_of_multiple(a: int, d: int, p: int)
    requires
        p > 0,
        d > 0,
        a % d == 0,
        d % p == 0,
    ensures
        a % p == 0,
{
    let k = a / d;
    let m = d / p;
    vstd::arithmetic::div_mod::lemma_fundamental_div_mod(a, d);
    vstd::arithmetic::div_mod::lemma_fundamental_div_mod(d, p);
    assert(a == (k * m) * p) by (nonlinear_arith)
        requires
            a == d * k,
            d == p * m,
    ;
    vstd::arithmetic::div_mod::lemma_mod_multiples_basic(k * m, p);
}

/// The record that the metadata page holds for one span-aligned
/// region of the data of a chunk.  The record that a fresh metadata
/// page holds, `SpanMetadata::vacant()`, is a valid one.
#[derive(Clone, Copy, Debug)]
pub struct SpanMetadata {
    /// The id of the class for all allocations in this span, or
    /// `None` while no class owns the span.
    pub class_id: Option<u32>,
    /// Number of elements available in the span.
    pub bump_limit: u32,
    /// Number of elements allocated in the span.
    pub bump_ptr: usize,
    /// Start address for the span.
    pub span_begin: usize,
}

impl SpanMetadata {
    /// The record of a region that no class owns yet.
    pub open spec fn vacant() -> SpanMetadata {
        SpanMetadata { class_id: None, bump_limit: 0, bump_ptr: 0, span_begin: 0 }
    }

    /// Maps a Press-allocated address to the address of its metadata.
    pub fn from_allocation_address(address: usize) -> (meta: usize)
        requires
            address >= DATA_ALIGNMENT,
        ensures
            meta == metadata_address(address as int),
    {
        proof {
            let d = DATA_ALIGNMENT as int;
            let a = address as int;
            vstd::arithmetic::div_mod::lemma_fundamental_div_mod(a, d);
            assert(a / d >= 1) by (nonlinear_arith)
                requires
                    a == d * (a / d) + a % d,
                    0 <= a % d < d,
                    a >= d,
                    d > 0,
            ;
            assert(d * (a / d) >= d) by (nonlinear_arith)
                requires
                    a / d >= 1,
                    d > 0,
            ;
            assert(0 <= (a % d) / (SPAN_ALIGNMENT as int) < SPANS_PER_CHUNK);
        }
        let base = address - (address % DATA_ALIGNMENT);
        let index = (address - base) / SPAN_ALIGNMENT;
        let meta = base - GUARD_PAGE_SIZE - METADATA_PAGE_SIZE;
        meta + index * SPAN_METADATA_SIZE
    }
}

/// A newly allocated span of data, and the records of metadata that
/// go with it.
#[derive(Clone, Copy, Debug)]
pub struct MilledRange {
    /// The address of the first record of metadata for the span.  The
    /// record is vacant.
    pub meta: usize,
    /// A span may be associated with multiple records (but each
    /// record only maps to one span); the trail is the number of the
    /// remaining records, which follow the first one.  They must be
    /// initialised so that we can later get the metadata (class id)
    /// for an allocated object.
    pub trail: usize,
    /// The address of the data.
    pub data: usize,
    /// The number of bytes of data.
    pub data_size: usize,
}

impl MilledRange {
    /// The address of the `k`-th record of the range.
    pub open spec fn record(&self, k: int) -> int {
        self.meta + k * SPAN_METADATA_SIZE
    }

    /// Whether `m` is the address of one of the records of the range.
    pub open spec fn has_record(&self, m: int) -> bool {
        exists|k: int| 0 <= k <= self.trail && m == #[trigger] self.record(k)
    }

    /// The range is made of whole spans of one chunk, and its records
    /// are those that the address arithmetic finds for its data.
    pub open spec fn wf(&self) -> bool {
        &&& self.data >= DATA_ALIGNMENT
        &&& self.data % SPAN_ALIGNMENT == 0
        &&& self.data_size == (self.trail + 1) * SPAN_ALIGNMENT
        &&& self.data + self.data_size <= chunk_base(self.data as int) + DATA_ALIGNMENT
        &&& self.data + self.data_size <= usize::MAX
        &&& self.meta == metadata_address(self.data as int)
    }

    /// The metadata of an address in the data of the range is one of
    /// the records of the range.
    pub proof fn lemma_record_of_address(&self, address: int)
        requires
            self.wf(),
            self.data <= address < self.data + self.data_size,
        ensures
            chunk_base(address) == chunk_base(self.data as int),
            0 <= (address - self.data) / (SPAN_ALIGNMENT as int) <= self.trail,
            metadata_address(address) == self.record(
                (address - self.data) / (SPAN_ALIGNMENT as int),
            ),
            self.has_record(metadata_address(address)),
    {
        let d = DATA_ALIGNMENT as int;
        let s = SPAN_ALIGNMENT as int;
        let data = self.data as int;
        let base = chunk_base(data);
        vstd::arithmetic::div_mod::lemma_fundamental_div_mod(data, d);
        vstd::arithmetic::div_mod::lemma_mod_multiples_basic(data / d, d);
        assert(base == (data / d) * d) by (nonlinear_arith)
            requires
                data == d * (data / d) + data % d,
                base == data - data % d,
        ;
        lemma_metadata_in_page(base, data);
        lemma_metadata_in_page(base, address);
        let off = data - base;
        let k = (address - data) / s;
        vstd::arithmetic::div_mod::lemma_fundamental_div_mod(address - data, s);
        vstd::arithmetic::div_mod::lemma_fundamental_div_mod(data, s);
        vstd::arithmetic::div_mod::lemma_fundamental_div_mod(off, s);
        lemma_multiple_of_multiple(base, d, s);
        lemma_sum_of_multiples(data, base, s);
        assert(0 <= k <= self.trail) by (nonlinear_arith)
            requires
                address - data == s * k + (address - data) % s,
                0 <= (address - data) % s < s,
                0 <= address - data < (self.trail + 1) * s,
                s > 0,
        ;
        assert(address - base == s * (off / s + k) + (address - data) % s) by (nonlinear_arith)
            requires
                address - data == s * k + (address - data) % s,
                off == s * (off / s),
                off == data - base,
        ;
        vstd::arithmetic::div_mod::lemma_fundamental_div_mod_converse(
            address - base,
            s,
            off / s + k,
            (address - data) % s,
        );
        assert((off / s + k) * SPAN_METADATA_SIZE == (off / s) * SPAN_METADATA_SIZE + k
            * SPAN_METADATA_SIZE) by (nonlinear_arith);
    }
}

/// The smallest range of whole pages that holds the `size` bytes at
/// `begin`: its first address and its size.
pub fn rounded_range(page_size: usize, begin: usize, size: usize) -> (ret: (usize, usize))
    requires
        page_size > 0,
        begin + size <= usize::MAX,
        round_up(begin + size, page_size as int) <= usize::MAX,
    ensures
        ret == rounded(page_size, begin, size),
        ret.0 == begin - begin % page_size,
        ret.0 + ret.1 == round_up(begin + size, page_size as int),
        ret.0 % page_size == 0,
        ret.1 % page_size == 0,
        ret.0 <= begin,
        begin + size <= ret.0 + ret.1,
{
    let mut top = begin + size;
    let mut begin = begin;
    proof {
        let p = page_size as int;
        vstd::arithmetic::div_mod::lemma_fundamental_div_mod(begin as int, p);
        vstd::arithmetic::div_mod::lemma_fundamental_div_mod(top as int, p);
        vstd::arithmetic::div_mod::lemma_mod_multiples_basic(begin as int / p, p);
        vstd::arithmetic::div_mod::lemma_mod_multiples_basic(top as int / p, p);
        vstd::arithmetic::div_mod::lemma_mod_multiples_basic(1 + top as int / p, p);
        assert(p * (begin as int / p) == (begin as int / p) * p) by (nonlinear_arith);
        assert(p * (top as int / p) == (top as int / p) * p) by (nonlinear_arith);
        assert(p * (1 + top as int / p) == (1 + top as int / p) * p) by (nonlinear_arith);
        assert(p * (1 + top as int / p) == p * (top as int / p) + p) by (nonlinear_arith);
    }
    begin -= begin % page_size;
    if (top % page_size) > 0 {
        top = page_size * (1 + (top / page_size));
    }
    proof {
        lemma_sum_of_multiples(top as int, begin as int, page_size as int);
    }
    (begin, top - begin)
}

/// The smallest range of whole pages that holds the `size` bytes at
/// `begin`: its first address and its size.
pub open spec fn rounded(page_size: usize, begin: usize, size: usize) -> (usize, usize) {
    let first = begin - begin % page_size;
    (first as usize, (round_up(begin + size, page_size as int) - first) as usize)
}

/// The number of bytes that a chunk asks of its mapper: the mapped
/// region, in whole pages.
pub open spec fn reserved_size(page_size: usize) -> usize {
    round_up(MAPPED_REGION_SIZE as int, page_size as int) as usize
}

/// Whether `ret` is what became of the slop from `begin` up to `end`:
/// what `mapper` answered when it was asked to release that range, or
/// a success where there is no slop and nothing was asked.
pub open spec fn slop_released<M: Mapper>(
    mapper: &M,
    begin: usize,
    end: usize,
    ret: Result<(), i32>,
) -> bool {
    if begin == end {
        ret is Ok
    } else {
        call_ensures(M::release, (mapper, begin, (end - begin) as usize), ret)
    }
}

/// Releases the whole pages from `begin` up to `end`, if there are any.
fn release_slop<M: Mapper>(mapper: &M, begin: usize, end: usize) -> (ret: Result<(), i32>)
    requires
        mapper.granularity() > 0,
        begin != 0,
        begin <= end,
        begin % mapper.granularity() == 0,
        end % mapper.granularity() == 0,
    ensures
        slop_released(mapper, begin, end, ret),
{
    if begin == end {
        return Ok(());
    }
    proof {
        lemma_sum_of_multiples(end as int, begin as int, mapper.granularity() as int);
    }
    mapper.release(begin, end - begin)
}

/// A range of address space, together with the way in which we want
/// to partition it into a chunk.
///
/// Once the `meta` and `data` regions are successfully allocated, we
/// want to get rid of the bottom and top "slop" regions, then
/// everything remains immortal.
///
/// On failure, we must instead release everything from `base` to `top`.
pub struct AllocatedChunk<'a, M: Mapper> {
    mapper: &'a M,
    // All these `usize` are addresses.
    base: usize,  // page-aligned
    top: usize,  // page-aligned
    bottom_slop_end: usize,  // page-aligned
    meta: usize,
    data: usize,
    data_end: usize,
    top_slop_begin: usize,  // page-aligned
}

impl<'a, M: Mapper> View for AllocatedChunk<'a, M> {
    type V = ChunkLayout;

    closed spec fn view(&self) -> ChunkLayout {
        ChunkLayout {
            page_size: self.mapper.granularity(),
            base: self.base,
            top: self.top,
            bottom_slop_end: self.bottom_slop_end,
            meta: self.meta,
            data: self.data,
            data_end: self.data_end,
            top_slop_begin: self.top_slop_begin,
        }
    }
}

impl<'a, M: Mapper> AllocatedChunk<'a, M> {
    /// The mapper that reserved the range.
    pub closed spec fn mapper_spec(&self) -> &M {
        self.mapper
    }

    /// Whether `ret` is what the mapper answered when it was asked to
    /// back the chunk with memory: first the whole pages of the
    /// metadata page, and then, if that succeeded, the whole pages of
    /// the data.
    pub open spec fn backed(&self, ret: Result<(), i32>) -> bool {
        let meta = rounded(self@.page_size, self@.meta, METADATA_PAGE_SIZE);
        let data = rounded(self@.page_size, self@.data, DATA_ALIGNMENT);
        exists|first: Result<(), i32>| #[trigger]
            call_ensures(M::allocate_meta, (self.mapper_spec(), meta.0, meta.1), first) && match first {
                Err(code) => ret == Err::<(), i32>(code),
                Ok(_) => call_ensures(M::allocate_data, (self.mapper_spec(), data.0, data.1), ret),
            }
    }

    /// Whether `ret` is what the mapper answered when it was asked to
    /// release the whole range, from its base up to its top.
    pub open spec fn released(&self, ret: Result<(), i32>) -> bool {
        call_ensures(
            M::release,
            (self.mapper_spec(), self@.base, (self@.top - self@.base) as usize),
            ret,
        )
    }

    /// Whether `ret` is what became of the slop around the chunk: of
    /// the slop at the bottom, and then, if that succeeded, of the
    /// slop at the top.
    pub open spec fn committed(&self, ret: Result<(), i32>) -> bool {
        exists|bottom: Result<(), i32>| #[trigger]
            slop_released(self.mapper_spec(), self@.base, self@.bottom_slop_end, bottom)
                && match bottom {
                Err(code) => ret == Err::<(), i32>(code),
                Ok(_) => slop_released(self.mapper_spec(), self@.top_slop_begin, self@.top, ret),
            }
    }

    /// Whether `ret` is what comes of `made` once the chunk is
    /// settled.  A success stays as it is, and the slop around the
    /// chunk was released, whatever the mapper said of that.  After a
    /// failure the whole range was released: the failure stays as it
    /// is where the mapper released the range, and else it is the
    /// mapper's.
    pub open spec fn settled<T>(&self, made: Result<T, i32>, ret: Result<T, i32>) -> bool {
        match made {
            Ok(_) => ret == made && exists|slop: Result<(), i32>| #[trigger] self.committed(slop),
            Err(_) => exists|answer: Result<(), i32>| #[trigger]
                self.released(answer) && match answer {
                    Ok(_) => ret == made,
                    Err(code) => ret == Err::<T, i32>(code),
                },
        }
    }

    /// Attempts to carve out a span + metadata from a new range of
    /// address space returned by `mapper`: the mapper is asked for the
    /// mapped region in whole pages, for data of `DATA_ALIGNMENT`
    /// bytes with the prefix before it and the suffix behind it.
    ///
    /// # Errors
    ///
    /// Returns `Err` when the mapper itself fails, with its code.
    pub fn new(mapper: &'a M) -> (ret: Result<AllocatedChunk<'a, M>, i32>)
        ensures
            ret matches Ok(chunk) ==> {
                &&& chunk@.wf()
                &&& chunk@.page_size == mapper.granularity()
                &&& chunk@.top - chunk@.base >= MAPPED_REGION_SIZE
                &&& chunk@ == region_layout(
                    chunk@.page_size,
                    chunk@.base,
                    (chunk@.top - chunk@.base) as usize,
                )
            },
            exists|reserved: Result<(usize, usize), i32>| #[trigger]
                call_ensures(
                    M::reserve,
                    (
                        mapper,
                        reserved_size(mapper.granularity()),
                        DATA_ALIGNMENT,
                        PREFIX_SIZE,
                        SUFFIX_SIZE,
                    ),
                    reserved,
                ) && match reserved {
                    Ok((base, actual)) => {
                        &&& ret matches Ok(chunk)
                        &&& chunk@ == region_layout(mapper.granularity(), base, actual)
                        &&& chunk.mapper_spec() == mapper
                    },
                    Err(code) => ret matches Err(e) && e == code,
                },
    {
        let page_size = mapper.page_size();
        let mut size = MAPPED_REGION_SIZE;
        proof {
            lemma_page_size_divides(page_size);
            let p = page_size as int;
            lemma_sum_of_multiples(DATA_ALIGNMENT as int, DATA_ALIGNMENT as int, p);
            lemma_sum_of_multiples(GUARD_PAGE_SIZE as int, GUARD_PAGE_SIZE as int, p);
            lemma_sum_of_multiples(2 * GUARD_PAGE_SIZE, 2 * GUARD_PAGE_SIZE, p);
            lemma_sum_of_multiples(2 * DATA_ALIGNMENT, 4 * GUARD_PAGE_SIZE, p);
        }
        if (size % page_size) > 0 {
            size = page_size * (1 + (size / page_size));
        }
        let reserved = mapper.reserve(size, DATA_ALIGNMENT, PREFIX_SIZE, SUFFIX_SIZE);
        Self::from_reserved(mapper, reserved)
    }

    /// Partitions the range that `mapper` reserved, if it reserved
    /// one.  A range of at least `MAPPED_REGION_SIZE` bytes always has
    /// room for a chunk.
    pub fn from_reserved(mapper: &'a M, reserved: Result<(usize, usize), i32>) -> (ret:
        Result<AllocatedChunk<'a, M>, i32>)
        requires
            reserved matches Ok((base, actual)) ==> {
                &&& is_page_range(mapper.granularity(), base, actual)
                &&& actual >= MAPPED_REGION_SIZE
            },
        ensures
            match reserved {
                Ok((base, actual)) => {
                    &&& ret matches Ok(chunk)
                    &&& chunk@.wf()
                    &&& chunk@ == region_layout(mapper.granularity(), base, actual)
                    &&& chunk.mapper_spec() == mapper
                },
                Err(code) => ret matches Err(e) && e == code,
            },
    {
        match reserved {
            Err(code) => Err(code),
            Ok((base, actual)) => {
                let page_size = mapper.page_size();
                proof {
                    lemma_large_region_has_room(page_size, base, actual);
                }
                match AllocatedChunk::new_from_range(mapper, base, actual) {
                    Ok(chunk) => Ok(chunk),
                    Err(_) => {
                        proof {
                            assert(false);
                        }
                        Err(0)
                    },
                }
            },
        }
    }

    /// Attempts to carve out a span + metadata in `[base, base + size)`.
    pub fn new_from_range(mapper: &'a M, base: usize, size: usize) -> (ret: Result<
        AllocatedChunk<'a, M>,
        &'static str,
    >)
        requires
            base != 0,
        ensures
            match region_fault(mapper.granularity(), base, size) {
                Some(fault) => ret matches Err(e) && e == fault,
                None => {
                    &&& ret matches Ok(chunk)
                    &&& chunk@.wf()
                    &&& chunk@ == region_layout(mapper.granularity(), base, size)
                    &&& chunk.mapper_spec() == mapper
                },
            },
    {
        let page_size = mapper.page_size();

        // Try to find the data address.  It must be aligned to the
        // data alignment, and have room for the metadata + guard pages
        // before/after the data span.
        if (base % page_size) != 0 {
            return Err("base is incorrectly aligned");
        }
        if (size % page_size) != 0 {
            return Err("size is incorrectly aligned");
        }
        // Since we track the exclusive end of the region, this will
        // fail if someone manages to map a region that contains the
        // last page of the address space.

        let top = match base.checked_add(size) {
            Some(top) => top,
            None => {
                return Err("input region wraps around");
            },
        };
        let mut data = match DATA_ALIGNMENT.checked_mul((base / DATA_ALIGNMENT) + 1) {
            Some(data) => data,
            None => {
                return Err("overflow in alignment");
            },
        };
        proof {
            lemma_data_start_bounds(base as int);
            assert(data == first_aligned_after(base as int)) by (nonlinear_arith)
                requires
                    data == DATA_ALIGNMENT * ((base / DATA_ALIGNMENT) + 1),
                    first_aligned_after(base as int) == (base as int / (DATA_ALIGNMENT as int) + 1)
                        * DATA_ALIGNMENT,
            ;
        }
        // If there's not enough room for the prefix, go forward by
        // another span size.
        if (data - base) < PREFIX_SIZE {
            data =
            match data.checked_add(DATA_ALIGNMENT) {
                Some(data) => data,
                None => {
                    return Err("overflow in bump");
                },
            };
        }
        assert(data == data_start(base as int));
        proof {
            lemma_page_size_divides(page_size);
            let p = page_size as int;
            lemma_multiple_of_multiple(data as int, DATA_ALIGNMENT as int, p);
            lemma_sum_of_multiples(GUARD_PAGE_SIZE as int, GUARD_PAGE_SIZE as int, p);
            lemma_sum_of_multiples(2 * GUARD_PAGE_SIZE, GUARD_PAGE_SIZE as int, p);
            lemma_sum_of_multiples(data as int, PREFIX_SIZE as int, p);
            lemma_sum_of_multiples(DATA_ALIGNMENT as int, SUFFIX_SIZE as int, p);
            lemma_sum_of_multiples(data as int, DATA_ALIGNMENT + SUFFIX_SIZE, p);
        }

        // This subtraction is safe because data >= base + PREFIX_SIZE.
        let mut bottom_slop_end = data - PREFIX_SIZE;
        // Make sure bottom_slop_end is aligned to a page.  It's always OK to remove *less*.
        bottom_slop_end -= bottom_slop_end % page_size;

        // This addition is safe for the same reason.
        let meta = bottom_slop_end + GUARD_PAGE_SIZE;

        let data_end = match data.checked_add(DATA_ALIGNMENT) {
            Some(data_end) => data_end,
            None => {
                return Err("overflow in data_end");
            },
        };
        let mut suffix_end = match data_end.checked_add(SUFFIX_SIZE) {
            Some(suffix_end) => suffix_end,
            None => {
                return Err("overflow in suffix_end");
            },
        };
        // Align suffix_end to a page.  It's always OK to remove less,
        // so we bump that up.
        if (suffix_end % page_size) > 0 {
            suffix_end = page_size * (1 + (suffix_end / page_size));
        }
        if suffix_end > top {
            return Err("region too small");
        }
        proof {
            lemma_region_layout_wf(page_size, base, size);
        }
        Ok(
            AllocatedChunk {
                mapper,
                base,
                top,
                bottom_slop_end,
                meta,
                data,
                data_end,
                top_slop_begin: suffix_end,
            },
        )
    }

    /// The address of the metadata page.
    pub fn meta(&self) -> (ret: usize)
        ensures
            ret == self@.meta,
    {
        self.meta
    }

    /// The address of the data.
    pub fn data(&self) -> (ret: usize)
        ensures
            ret == self@.data,
    {
        self.data
    }

    /// The address past the last byte of the data.
    pub fn data_end(&self) -> (ret: usize)
        ensures
            ret == self@.data_end,
    {
        self.data_end
    }

    /// Attempts to allocate the chunk, and calls `f` if that succeeds.
    /// Where the mapper fails to back the chunk with memory, the whole
    /// range goes back to the mapper, and the mapper's code comes
    /// back from here.
    ///
    /// If `f` fails, releases the chunk; if `f` succeeds, commits it.
    /// The value that comes back from here with `Ok` is the one that
    /// `f` made.
    pub fn call_with_chunk<T, F: FnOnce(&Self) -> Result<T, i32>>(self, f: F) -> (ret: Result<
        T,
        i32,
    >)
        requires
            self@.wf(),
            f.requires((&self,)),
        ensures
            ret matches Ok(v) ==> f.ensures((&self,), ret),
            exists|backing: Result<(), i32>| #[trigger]
                self.backed(backing) && match backing {
                    Err(code) => ret == Err::<T, i32>(code) && exists|answer: Result<(), i32>| #[trigger]
                        self.released(answer),
                    Ok(_) => exists|made: Result<T, i32>| #[trigger]
                        f.ensures((&self,), made) && self.settled(made, ret),
                },
    {
        match self.allocate() {
            Ok(()) => {},
            Err(code) => {
                // Nothing was made of the range: give all of it back.
                let _ = self.release_all();
                return Err(code);
            },
        }
        let made = f(&self);
        self.settle(made)
    }

    /// Settles the chunk once it is known what became of it: releases
    /// the whole range where `made` is a failure, and commits the
    /// chunk where `made` is a success.
    ///
    /// A success comes back as it is, whatever the mapper says of the
    /// slop.  A failure comes back as a failure: with its own code, or
    /// with the mapper's where the mapper fails to release the range.
    pub fn settle<T>(self, made: Result<T, i32>) -> (ret: Result<T, i32>)
        requires
            self@.wf(),
        ensures
            made is Ok ==> ret == made,
            made is Err ==> ret is Err,
            self.settled(made, ret),
    {
        match made {
            Err(code) => {
                match self.release_all() {
                    Ok(()) => Err(code),
                    Err(release_code) => Err(release_code),
                }
            },
            Ok(value) => {
                let _ = self.commit();
                Ok(value)
            },
        }
    }

    /// The chunk that this range becomes once it is committed: one of
    /// which no span was handed out, with its data and its metadata
    /// where the range has them.
    ///
    /// # Errors
    ///
    /// Returns `CHUNK_EXISTS` where the data of the range is the data
    /// of a chunk in `chunks` already.
    pub fn to_chunk(&self, chunks: &Chunks) -> (ret: Result<Chunk, i32>)
        requires
            self@.wf(),
            chunks.wf(),
        ensures
            match ret {
                Ok(chunk) => {
                    &&& !chunks.has_chunk(self@.data as int)
                    &&& chunk.wf()
                    &&& chunk.data() == self@.data
                    &&& chunk.milled_spans() == 0
                },
                Err(code) => chunks.has_chunk(self@.data as int) && code == CHUNK_EXISTS,
            },
    {
        proof {
            lemma_aligned_data_is_high(self@.data as int);
        }
        if chunks.contains_chunk(self.data) {
            Err(CHUNK_EXISTS)
        } else {
            Ok(Chunk::new(self.meta, self.data))
        }
    }

    /// Releases the region covered by the AllocatedChunk: asks the
    /// mapper to release the whole range, and returns its answer.
    fn release_all(self) -> (ret: Result<(), i32>)
        requires
            self@.wf(),
        ensures
            self.released(ret),
    {
        proof {
            lemma_sum_of_multiples(
                self.top as int,
                self.base as int,
                self.mapper.granularity() as int,
            );
        }
        self.mapper.release(self.base, self.top - self.base)
    }

    /// Backs the data and metadata region with memory: asks the
    /// mapper for the whole pages of the metadata page, and then for
    /// the whole pages of the data.  The first failure comes back.
    fn allocate(&self) -> (ret: Result<(), i32>)
        requires
            self@.wf(),
        ensures
            self.backed(ret),
    {
        let page_size = self.mapper.page_size();
        proof {
            lemma_page_size_divides(page_size);
            let p = page_size as int;
            lemma_multiple_of_multiple(self.data as int, DATA_ALIGNMENT as int, p);
            lemma_sum_of_multiples(self.data as int, GUARD_PAGE_SIZE as int, p);
            lemma_sum_of_multiples(self.data as int - GUARD_PAGE_SIZE, METADATA_PAGE_SIZE as int, p);
            lemma_sum_of_multiples(self.data as int, DATA_ALIGNMENT as int, p);
        }
        let (begin, size) = rounded_range(page_size, self.meta, METADATA_PAGE_SIZE);
        match self.mapper.allocate_meta(begin, size) {
            Ok(()) => {},
            Err(code) => {
                return Err(code);
            },
        }
        let (begin, size) = rounded_range(page_size, self.data, DATA_ALIGNMENT);
        self.mapper.allocate_data(begin, size)
    }

    /// Releases any slop around the allocated memory.  Where the
    /// range has no slop, there is nothing to ask of the mapper.
    fn commit(self) -> (ret: Result<(), i32>)
        requires
            self@.wf(),
        ensures
            self@.base == self@.bottom_slop_end && self@.top_slop_begin == self@.top ==> ret is Ok,
            self.committed(ret),
    {
        let bottom = release_slop(self.mapper, self.base, self.bottom_slop_end);
        match bottom {
            Ok(()) => {},
            Err(code) => {
                assert(slop_released(self.mapper_spec(), self@.base, self@.bottom_slop_end, bottom));
                return Err(code);
            },
        }
        let top = release_slop(self.mapper, self.top_slop_begin, self.top);
        assert(slop_released(self.mapper_spec(), self@.base, self@.bottom_slop_end, bottom));
        top
    }

    /// Checks the internal invariants.
    pub fn check_rep(&self) -> (ok: bool)
        ensures
            ok == self@.wf(),
    {
        let page_size = self.mapper.page_size();

        // Check that [base, top) makes sense.
        if self.base == 0 || self.base % page_size != 0 || self.top % page_size != 0 || self.base
            > self.top {
            return false;
        }
        // Now the slop regions.

        if self.bottom_slop_end % page_size != 0 || self.top_slop_begin % page_size != 0 {
            return false;
        }
        if self.bottom_slop_end < self.base || self.top_slop_begin > self.top
            || self.bottom_slop_end > self.top_slop_begin {
            return false;
        }
        // The meta region must be between the slops, and must be
        // correctly offset from the data.

        if self.meta < self.bottom_slop_end || self.meta - self.bottom_slop_end < GUARD_PAGE_SIZE {
            return false;
        }
        if self.meta > self.top_slop_begin || self.top_slop_begin - self.meta
            < METADATA_PAGE_SIZE {
            return false;
        }
        if self.data < self.meta || self.data - self.meta != METADATA_PAGE_SIZE + GUARD_PAGE_SIZE {
            return false;
        }
        // Now do the data.

        if self.data % DATA_ALIGNMENT != 0 {
            return false;
        }
        if self.data > self.top_slop_begin || self.top_slop_begin - self.data < DATA_ALIGNMENT
            + GUARD_PAGE_SIZE {
            return false;
        }
        if self.data_end < self.data || self.data_end - self.data != DATA_ALIGNMENT {
            return false;
        }
        proof {
            let data = self.data as int;
            vstd::arithmetic::div_mod::lemma_fundamental_div_mod(data, DATA_ALIGNMENT as int);
            assert(data / (DATA_ALIGNMENT as int) >= 1) by (nonlinear_arith)
                requires
                    data == DATA_ALIGNMENT * (data / (DATA_ALIGNMENT as int)),
                    data > 0,
            ;
            assert(data >= DATA_ALIGNMENT) by (nonlinear_arith)
                requires
                    data == DATA_ALIGNMENT * (data / (DATA_ALIGNMENT as int)),
                    data / (DATA_ALIGNMENT as int) >= 1,
            ;
            lemma_metadata_in_page(data, data);
            lemma_metadata_in_page(data, data + DATA_ALIGNMENT - 1);
            assert((data + DATA_ALIGNMENT - 1 - data) / (SPAN_ALIGNMENT as int) == SPANS_PER_CHUNK
                - 1);
            assert((data - data) / (SPAN_ALIGNMENT as int) == 0);
        }
        SpanMetadata::from_allocation_address(self.data) == self.meta
            && SpanMetadata::from_allocation_address(self.data + (DATA_ALIGNMENT - 1)) == self.meta
            + (SPANS_PER_CHUNK - 1) * SPAN_METADATA_SIZE
    }
}

/// The error that stands for a mapper that hands out address space
/// in which a committed chunk has its data.
pub const CHUNK_EXISTS: i32 = 17;

/// The number of spans that it takes to hold `size` bytes.
pub open spec fn spans_for(size: int) -> int {
    size / (SPAN_ALIGNMENT as int) + if size % (SPAN_ALIGNMENT as int) > 0 {
        1int
    } else {
        0int
    }
}

/// The number of bytes that `get_span` tries to get: what the caller
/// desires, or else the default, but at least `min_size` and at most
/// `MAX_SPAN_SIZE`.
pub open spec fn desired_bytes(min_size: usize, desired_size: Option<usize>) -> usize {
    let desired = match desired_size {
        Some(size) => size,
        None => DEFAULT_DESIRED_SPAN_SIZE,
    };
    if desired < min_size {
        min_size
    } else if desired > MAX_SPAN_SIZE {
        MAX_SPAN_SIZE
    } else {
        desired
    }
}

/// Computes the number of spans that it takes to hold `size` bytes.
fn span_count_for(size: usize) -> (ret: usize)
    ensures
        ret == spans_for(size as int),
        ret * SPAN_ALIGNMENT >= size,
        size <= MAX_SPAN_SIZE ==> ret <= MAX_SPAN_SIZE / SPAN_ALIGNMENT,
        size > 0 ==> ret >= 1,
{
    proof {
        vstd::arithmetic::div_mod::lemma_fundamental_div_mod(size as int, SPAN_ALIGNMENT as int);
        assert((size as int / (SPAN_ALIGNMENT as int) + 1) * SPAN_ALIGNMENT == SPAN_ALIGNMENT * (
        size as int / (SPAN_ALIGNMENT as int)) + SPAN_ALIGNMENT) by (nonlinear_arith);
        assert((size as int / (SPAN_ALIGNMENT as int)) * SPAN_ALIGNMENT == SPAN_ALIGNMENT * (
        size as int / (SPAN_ALIGNMENT as int))) by (nonlinear_arith);
    }
    if size % SPAN_ALIGNMENT > 0 {
        size / SPAN_ALIGNMENT + 1
    } else {
        size / SPAN_ALIGNMENT
    }
}

/// A `Mill` obtains chunks from its mapper and chops them into spans.
pub struct Mill<M: Mapper> {
    mapper: M,
    /// The position, among the committed chunks, of the chunk from
    /// which the mill takes its spans.
    current_chunk: Option<usize>,
}

impl<M: Mapper> Mill<M> {
    /// The chunk from which the mill takes its spans is a committed
    /// one.
    pub closed spec fn wf(&self, chunks: &Chunks) -> bool {
        self.current_chunk matches Some(index) ==> index < chunks.count()
    }

    /// The position of the chunk from which the mill takes its spans.
    pub closed spec fn current(&self) -> Option<usize> {
        self.current_chunk
    }

    /// Whether the chunk from which the mill takes its spans has room
    /// for a span of `min_size` bytes.
    pub open spec fn has_room(&self, chunks: &Chunks, min_size: usize) -> bool {
        &&& self.current() is Some
        &&& chunks.remaining(self.current()->0 as int) >= spans_for(min_size as int)
        &&& chunks.remaining(self.current()->0 as int) >= 1
    }

    /// The address of the data of the range that the mill hands out
    /// next where its chunk has room: the first span of the chunk
    /// that was not handed out yet.
    pub open spec fn next_data(&self, chunks: &Chunks) -> int {
        let index = self.current()->0 as int;
        chunks.data_of(index) + (SPANS_PER_CHUNK - chunks.remaining(index)) * SPAN_ALIGNMENT
    }

    /// The number of spans in the range that the mill hands out next
    /// where its chunk has room for `min_size` bytes and the caller
    /// desires the default: the spans that the default takes, or else
    /// all the spans that the chunk has left.
    pub open spec fn next_spans(&self, chunks: &Chunks, min_size: usize) -> int {
        let remaining = chunks.remaining(self.current()->0 as int);
        let desired = spans_for(desired_bytes(min_size, None) as int);
        if remaining < desired {
            remaining
        } else {
            desired
        }
    }

    /// While no chunk is committed, the mill has none to take spans
    /// from.
    pub proof fn lemma_no_chunk_no_room(&self, chunks: &Chunks)
        requires
            self.wf(chunks),
            chunks.count() == 0,
        ensures
            self.current() is None,
    {
    }

    /// What the mill hands out next is settled by how many spans its
    /// chunk has left, whatever the records of the spans hold.
    pub proof fn lemma_room_frame(&self, old_chunks: &Chunks, chunks: &Chunks, min_size: usize)
        requires
            self.wf(old_chunks),
            chunks.same_layout(old_chunks),
        ensures
            self.has_room(chunks, min_size) == self.has_room(old_chunks, min_size),
            self.current() is Some ==> self.next_data(chunks) == self.next_data(old_chunks)
                && self.next_spans(chunks, min_size) == self.next_spans(old_chunks, min_size),
    {
    }

    /// The mapper of the mill.
    pub closed spec fn mapper_spec(&self) -> M {
        self.mapper
    }

    /// A mill stays valid while the chunks live on.
    pub proof fn lemma_wf_extends(&self, old_chunks: &Chunks, chunks: &Chunks)
        requires
            self.wf(old_chunks),
            chunks.extends(old_chunks),
        ensures
            self.wf(chunks),
    {
    }

    /// A mill that obtains its chunks from `mapper`, and has none yet.
    pub fn new(mapper: M) -> (mill: Mill<M>)
        ensures
            mill.current() is None,
            mill.mapper_spec() == mapper,
            forall|chunks: &Chunks| mill.wf(chunks),
    {
        Mill { mapper, current_chunk: None }
    }

    /// The mapper from which the mill obtains its chunks.
    pub fn mapper(&self) -> (mapper: &M)
        ensures
            *mapper == self.mapper_spec(),
    {
        &self.mapper
    }

    /// Returns a fresh chunk from `mapper`: one of which no span was
    /// handed out, and whose data is not the data of a committed
    /// chunk.
    fn allocate_chunk(mapper: &M, chunks: &Chunks) -> (ret: Result<Chunk, i32>)
        requires
            chunks.wf(),
        ensures
            ret matches Ok(chunk) ==> {
                &&& chunk.wf()
                &&& chunk.milled_spans() == 0
                &&& !chunks.has_chunk(chunk.data() as int)
            },
            exists|reserved: Result<(usize, usize), i32>| #[trigger]
                call_ensures(
                    M::reserve,
                    (
                        mapper,
                        reserved_size(mapper.granularity()),
                        DATA_ALIGNMENT,
                        PREFIX_SIZE,
                        SUFFIX_SIZE,
                    ),
                    reserved,
                ) && match reserved {
                    Ok((base, actual)) => ret matches Ok(chunk) ==> chunk.data() == region_layout(
                        mapper.granularity(),
                        base,
                        actual,
                    ).data,
                    Err(code) => ret matches Err(e) && e == code,
                },
    {
        let allocated = match AllocatedChunk::new(mapper) {
            Ok(allocated) => allocated,
            Err(code) => {
                return Err(code);
            },
        };
        let build = |chunk: &AllocatedChunk<M>| -> (made: Result<Chunk, i32>)
            requires
                chunk@.wf(),
                chunks.wf(),
            ensures
                made matches Ok(made_chunk) ==> {
                    &&& made_chunk.wf()
                    &&& made_chunk.milled_spans() == 0
                    &&& !chunks.has_chunk(made_chunk.data() as int)
                    &&& made_chunk.data() == chunk@.data
                },
            { chunk.to_chunk(chunks) };
        allocated.call_with_chunk(build)
    }

    /// Attempts to chop a new set of spans from chunk `chunk`.
    ///
    /// On success, the range contains at least `min` spans, and up to
    /// `desired` spans.
    fn allocate_span(chunks: &mut Chunks, chunk: usize, min: usize, desired: usize) -> (ret:
        Option<MilledRange>)
        requires
            old(chunks).wf(),
            chunk < old(chunks).count(),
            desired >= 1,
        ensures
            final(chunks).wf(),
            final(chunks)@ == old(chunks)@,
            final(chunks).count() == old(chunks).count(),
            forall|i: int|
                0 <= i < old(chunks).count() ==> final(chunks).data_of(i) == old(chunks).data_of(i),
            forall|i: int|
                0 <= i < old(chunks).count() && i != chunk ==> final(chunks).remaining(i)
                    == old(chunks).remaining(i),
            forall|base: int| final(chunks).has_chunk(base) == old(chunks).has_chunk(base),
            final(chunks).extends(old(chunks)),
            match ret {
                None => {
                    &&& old(chunks).remaining(chunk as int) < min || old(chunks).remaining(
                        chunk as int,
                    ) == 0
                    &&& final(chunks).remaining(chunk as int) == old(chunks).remaining(
                        chunk as int,
                    )
                    &&& forall|m: int| final(chunks).milled(m) == old(chunks).milled(m)
                },
                Some(range) => {
                    &&& old(chunks).remaining(chunk as int) >= min
                    &&& old(chunks).remaining(chunk as int) >= 1
                    &&& range.trail + 1 == if old(chunks).remaining(chunk as int) < desired {
                        old(chunks).remaining(chunk as int)
                    } else {
                        desired as int
                    }
                    &&& range.wf()
                    &&& range.data == old(chunks).data_of(chunk as int) + (SPANS_PER_CHUNK
                        - old(chunks).remaining(chunk as int)) * SPAN_ALIGNMENT
                    &&& forall|m: int|
                        final(chunks).milled(m) <==> old(chunks).milled(m) || range.has_record(m)
                    &&& forall|m: int|
                        range.has_record(m) ==> !old(chunks).milled(m) && old(chunks)@.dom().contains(m)
                },
            },
    {
        chunks.allocate_span(chunk, min, desired)
    }

    /// Attempts to return a fresh range of allocation space.  On
    /// success, the newly milled range will contain at least
    /// `min_size` bytes, but the implementation tries to get
    /// `desired_size`, if possible.
    ///
    /// The range comes from the current chunk where that chunk has
    /// room, and from a new chunk where it has not.
    ///
    /// # Errors
    ///
    /// Returns `Err` on mapping failures (OOM-like conditions), and
    /// leaves the chunks alone.
    pub fn get_span(&mut self, chunks: &mut Chunks, min_size: usize, desired_size: Option<usize>) -> (ret:
        Result<MilledRange, i32>)
        requires
            old(chunks).wf(),
            old(self).wf(old(chunks)),
            min_size <= MAX_SPAN_SIZE,
            desired_bytes(min_size, desired_size) > 0,
        ensures
            final(chunks).wf(),
            final(self).wf(final(chunks)),
            final(self).mapper_spec() == old(self).mapper_spec(),
            final(chunks).extends(old(chunks)),
            forall|m: int| #[trigger]
                old(chunks)@.dom().contains(m) ==> final(chunks)@[m] == old(chunks)@[m],
            match ret {
                Ok(range) => {
                    &&& range.wf()
                    &&& range.data_size >= min_size
                    &&& range.trail + 1 <= spans_for(
                        desired_bytes(min_size, desired_size) as int,
                    )
                    &&& forall|m: int|
                        final(chunks).milled(m) <==> old(chunks).milled(m) || range.has_record(m)
                    &&& forall|m: int|
                        range.has_record(m) ==> !old(chunks).milled(m)
                            && final(chunks)@.dom().contains(m) && final(chunks)@[m]
                            == SpanMetadata::vacant()
                },
                Err(_) => {
                    &&& final(chunks)@ == old(chunks)@
                    &&& final(chunks).same_layout(old(chunks))
                    &&& final(self).current() == old(self).current()
                },
            },
            old(self).has_room(old(chunks), min_size) ==> {
                let index = old(self).current()->0 as int;
                let remaining = old(chunks).remaining(index);
                let desired = spans_for(desired_bytes(min_size, desired_size) as int);
                &&& ret matches Ok(range)
                &&& final(self).current() == old(self).current()
                &&& final(chunks).count() == old(chunks).count()
                &&& range.data == old(chunks).data_of(index) + (SPANS_PER_CHUNK - remaining)
                    * SPAN_ALIGNMENT
                &&& range.trail + 1 == if remaining < desired {
                    remaining
                } else {
                    desired
                }
            },
            !old(self).has_room(old(chunks), min_size) ==> (ret matches Ok(range) ==> {
                &&& final(chunks).count() == old(chunks).count() + 1
                &&& final(self).current() == Some(old(chunks).count() as usize)
                &&& range.data == final(chunks).data_of(old(chunks).count() as int)
                &&& range.trail + 1 == spans_for(desired_bytes(min_size, desired_size) as int)
            }),
            !old(self).has_room(old(chunks), min_size) ==> exists|
                reserved: Result<(usize, usize), i32>,
            | #[trigger]
                call_ensures(
                    M::reserve,
                    (
                        &old(self).mapper_spec(),
                        reserved_size(old(self).mapper_spec().granularity()),
                        DATA_ALIGNMENT,
                        PREFIX_SIZE,
                        SUFFIX_SIZE,
                    ),
                    reserved,
                ) && match reserved {
                    Ok((base, actual)) => ret matches Ok(range) ==> range.data == region_layout(
                        old(self).mapper_spec().granularity(),
                        base,
                        actual,
                    ).data,
                    Err(code) => ret matches Err(e) && e == code,
                },
    {
        // We must want at least min_size, and not more than the maximum span size.
        let mut desired = match desired_size {
            Some(size) => size,
            None => DEFAULT_DESIRED_SPAN_SIZE,
        };
        if desired < min_size {
            desired = min_size;
        } else if desired > MAX_SPAN_SIZE {
            desired = MAX_SPAN_SIZE;
        }
        let min_span_count = span_count_for(min_size);
        let desired_span_count = span_count_for(desired);
        proof {
            lemma_spans_for_is_monotonic(min_size as int, desired as int);
        }

        let current = match self.current_chunk {
            Some(index) => index,
            None => {
                let chunk = match Mill::allocate_chunk(&self.mapper, chunks) {
                    Ok(chunk) => chunk,
                    Err(code) => {
                        return Err(code);
                    },
                };
                let index = chunks.push(chunk);
                self.current_chunk = Some(index);
                index
            },
        };
        let ghost mid = *chunks;
        proof {
            assert forall|m: int| mid.milled(m) implies mid@.dom().contains(m) by {
                mid.lemma_unmilled_is_vacant(m);
            }
        }
        if let Some(range) = Mill::<M>::allocate_span(
            chunks,
            current,
            min_span_count,
            desired_span_count,
        ) {
            proof {
                assert forall|m: int| range.has_record(m) implies chunks@[m]
                    == SpanMetadata::vacant() by {
                    mid.lemma_unmilled_is_vacant(m);
                    old(chunks).lemma_unmilled_is_vacant(m);
                }
                assert(range.data_size >= min_size) by (nonlinear_arith)
                    requires
                        range.data_size == (range.trail + 1) * SPAN_ALIGNMENT,
                        range.trail + 1 >= min_span_count,
                        min_span_count * SPAN_ALIGNMENT >= min_size,
                ;
            }
            return Ok(range);
        }
        let chunk = match Mill::allocate_chunk(&self.mapper, chunks) {
            Ok(chunk) => chunk,
            Err(code) => {
                return Err(code);
            },
        };
        let index = chunks.push(chunk);
        self.current_chunk = Some(index);
        let ghost last = *chunks;
        let milled = Mill::<M>::allocate_span(chunks, index, min_span_count, desired_span_count);
        match milled {
            Some(range) => {
                proof {
                    assert forall|m: int| range.has_record(m) implies chunks@[m]
                        == SpanMetadata::vacant() by {
                        last.lemma_unmilled_is_vacant(m);
                    }
                    assert(range.data_size >= min_size) by (nonlinear_arith)
                        requires
                            range.data_size == (range.trail + 1) * SPAN_ALIGNMENT,
                            range.trail + 1 >= min_span_count,
                            min_span_count * SPAN_ALIGNMENT >= min_size,
                    ;
                }
                Ok(range)
            },
            None => {
                // A new chunk always has a span.
                proof {
                    lemma_spans_for_is_monotonic(min_size as int, MAX_SPAN_SIZE as int);
                    assert(MAX_SPAN_SIZE == 4096 * SPAN_ALIGNMENT);
                    assert(spans_for(MAX_SPAN_SIZE as int) == 4096);
                    assert(false);
                }
                Err(CHUNK_EXISTS)
            },
        }
    }
}

/// Returns a reference to the default `Mill` of the allocator.
pub fn get_default_mill<M: Mapper>(slitter: &Slitter<M>) -> (ret: &Mill<M>)
    requires
        slitter.wf(),
    ensures
        ret.mapper_spec() == slitter.mapper_of(0),
        ret.wf(&slitter.chunks_spec()),
{
    slitter.default_mill()
}

/// More bytes take at least as many spans.
pub proof fn lemma_spans_for_is_monotonic(small: int, large: int)
    requires
        0 <= small <= large,
    ensures
        spans_for(small) <= spans_for(large),
{
    let s = SPAN_ALIGNMENT as int;
    vstd::arithmetic::div_mod::lemma_fundamental_div_mod(small, s);
    vstd::arithmetic::div_mod::lemma_fundamental_div_mod(large, s);
    vstd::arithmetic::div_mod::lemma_div_is_ordered(small, large, s);
    if small / s == large / s {
    } else {
    }
}

/// A positive multiple of the data alignment is at least the data
/// alignment.
pub proof fn lemma_aligned_data_is_high(data: int)
    requires
        data > 0,
        data % (DATA_ALIGNMENT as int) == 0,
    ensures
        data >= DATA_ALIGNMENT,
{
    vstd::arithmetic::div_mod::lemma_fundamental_div_mod(data, DATA_ALIGNMENT as int);
    assert(data / (DATA_ALIGNMENT as int) >= 1) by (nonlinear_arith)
        requires
            data == DATA_ALIGNMENT * (data / (DATA_ALIGNMENT as int)),
            data > 0,
    ;
    assert(data >= DATA_ALIGNMENT) by (nonlinear_arith)
        requires
            data == DATA_ALIGNMENT * (data / (DATA_ALIGNMENT as int)),
            data / (DATA_ALIGNMENT as int) >= 1,
    ;
}

} // verus!
