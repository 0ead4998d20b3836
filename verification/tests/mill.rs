use std::cell::Cell;
use std::cell::RefCell;

use slitter::chunks::Chunks;
use slitter::mapper::Mapper;
use slitter::mill::AllocatedChunk;
use slitter::mill::Mill;
use slitter::mill::SpanMetadata;
use slitter::mill::CHUNK_EXISTS;
use slitter::mill::DATA_ALIGNMENT;
use slitter::mill::DEFAULT_DESIRED_SPAN_SIZE;
use slitter::mill::GUARD_PAGE_SIZE;
use slitter::mill::MAPPED_REGION_SIZE;
use slitter::mill::MAX_SPAN_SIZE;
use slitter::mill::METADATA_PAGE_SIZE;
use slitter::mill::PREFIX_SIZE;
use slitter::mill::SPAN_ALIGNMENT;
use slitter::mill::SPAN_METADATA_SIZE;
use slitter::mill::SUFFIX_SIZE;

/// What a mapper was asked to do.
#[derive(Clone, Copy, Debug, PartialEq, Eq)]
enum Call {
    Reserve(usize),
    Release(usize, usize),
    AllocateMeta(usize, usize),
    AllocateData(usize, usize),
}

/// A mapper that hands out address space without memory behind it.
struct TestMapper {
    page_size: usize,
    next: Cell<usize>,
    calls: RefCell<Vec<Call>>,
    fail_reserve: Cell<Option<i32>>,
    fail_data: Cell<Option<i32>>,
    fail_release: Cell<Option<i32>>,
    repeat: Cell<bool>,
}

impl TestMapper {
    fn new(first: usize) -> TestMapper {
        TestMapper {
            page_size: 4096,
            next: Cell::new(first),
            calls: RefCell::new(Vec::new()),
            fail_reserve: Cell::new(None),
            fail_data: Cell::new(None),
            fail_release: Cell::new(None),
            repeat: Cell::new(false),
        }
    }
}

impl Mapper for TestMapper {
    fn page_size(&self) -> usize {
        self.page_size
    }

    fn reserve(
        &self,
        desired_size: usize,
        _data_size: usize,
        _prefix: usize,
        _suffix: usize,
    ) -> Result<(usize, usize), i32> {
        self.calls.borrow_mut().push(Call::Reserve(desired_size));
        if let Some(code) = self.fail_reserve.get() {
            return Err(code);
        }
        let base = self.next.get();
        if !self.repeat.get() {
            self.next.set(base + desired_size);
        }
        Ok((base, desired_size))
    }

    fn release(&self, base: usize, size: usize) -> Result<(), i32> {
        self.calls.borrow_mut().push(Call::Release(base, size));
        match self.fail_release.get() {
            Some(code) => Err(code),
            None => Ok(()),
        }
    }

    fn allocate_meta(&self, base: usize, size: usize) -> Result<(), i32> {
        self.calls.borrow_mut().push(Call::AllocateMeta(base, size));
        Ok(())
    }

    fn allocate_data(&self, base: usize, size: usize) -> Result<(), i32> {
        self.calls.borrow_mut().push(Call::AllocateData(base, size));
        match self.fail_data.get() {
            Some(code) => Err(code),
            None => Ok(()),
        }
    }

    fn zero_fill(&self, _base: usize, _size: usize) {}
}

#[test]
fn test_allocated_span_valid() {
    // Check that we can always construct an AllocatedChunk when we
    // pass in large enough regions.
    let mapper = TestMapper::new(4096);

    // The test cases below assume that the GUARD_PAGE_SIZE and
    // METADATA_PAGE_SIZE are multiples of the page size.
    assert_eq!(GUARD_PAGE_SIZE % mapper.page_size(), 0);
    assert_eq!(METADATA_PAGE_SIZE % mapper.page_size(), 0);

    // We assume the zero page can't be mapped.  See what happens when
    // we get the next page.
    let at_start = AllocatedChunk::new_from_range(&mapper, mapper.page_size(), MAPPED_REGION_SIZE)
        .expect("must construct");
    assert!(at_start.check_rep());

    // This is the highest possible address we might get, minus one
    // page: if the mapped region includes the last page, we fail to
    // represent the end of the region.
    let at_end = AllocatedChunk::new_from_range(
        &mapper,
        usize::MAX - MAPPED_REGION_SIZE - mapper.page_size() + 1,
        MAPPED_REGION_SIZE,
    )
    .expect("must construct");
    assert!(at_end.check_rep());

    let aligned = AllocatedChunk::new_from_range(&mapper, DATA_ALIGNMENT, MAPPED_REGION_SIZE)
        .expect("must construct");
    assert!(aligned.check_rep());

    let unaligned = AllocatedChunk::new_from_range(
        &mapper,
        DATA_ALIGNMENT + mapper.page_size(),
        MAPPED_REGION_SIZE,
    )
    .expect("must construct");
    assert!(unaligned.check_rep());

    let offset_guard = AllocatedChunk::new_from_range(
        &mapper,
        DATA_ALIGNMENT - GUARD_PAGE_SIZE,
        MAPPED_REGION_SIZE,
    )
    .expect("must construct");
    assert!(offset_guard.check_rep());

    let offset_meta = AllocatedChunk::new_from_range(
        &mapper,
        DATA_ALIGNMENT - GUARD_PAGE_SIZE - METADATA_PAGE_SIZE,
        MAPPED_REGION_SIZE,
    )
    .expect("must construct");
    assert!(offset_meta.check_rep());

    let off_by_one = AllocatedChunk::new_from_range(
        &mapper,
        DATA_ALIGNMENT - 2 * GUARD_PAGE_SIZE - METADATA_PAGE_SIZE + mapper.page_size(),
        MAPPED_REGION_SIZE,
    )
    .expect("must construct");
    assert!(off_by_one.check_rep());

    let exact_fit = AllocatedChunk::new_from_range(
        &mapper,
        DATA_ALIGNMENT - 2 * GUARD_PAGE_SIZE - METADATA_PAGE_SIZE,
        MAPPED_REGION_SIZE,
    )
    .expect("must construct");
    assert!(exact_fit.check_rep());
}

#[test]
fn region_layout_values() {
    let mapper = TestMapper::new(4096);

    // The first aligned address is too close to the base for the
    // prefix: the data starts one alignment further.
    let chunk = AllocatedChunk::new_from_range(&mapper, DATA_ALIGNMENT - 4096, MAPPED_REGION_SIZE)
        .expect("must construct");
    assert_eq!(chunk.data(), 2 * DATA_ALIGNMENT);
    assert_eq!(chunk.meta(), 2 * DATA_ALIGNMENT - GUARD_PAGE_SIZE - METADATA_PAGE_SIZE);
    assert_eq!(chunk.data_end(), 3 * DATA_ALIGNMENT);

    // An aligned base never holds the data itself.
    let chunk = AllocatedChunk::new_from_range(&mapper, DATA_ALIGNMENT, MAPPED_REGION_SIZE)
        .expect("must construct");
    assert_eq!(chunk.data(), 2 * DATA_ALIGNMENT);

    // Exactly enough room for the prefix.
    let chunk = AllocatedChunk::new_from_range(
        &mapper,
        DATA_ALIGNMENT - 3 * GUARD_PAGE_SIZE,
        MAPPED_REGION_SIZE,
    )
    .expect("must construct");
    assert_eq!(chunk.data(), DATA_ALIGNMENT);
    assert_eq!(chunk.meta(), DATA_ALIGNMENT - 0x40_0000);
}

#[test]
fn region_errors() {
    let mapper = TestMapper::new(4096);

    assert_eq!(
        AllocatedChunk::new_from_range(&mapper, 4097, MAPPED_REGION_SIZE).err(),
        Some("base is incorrectly aligned")
    );
    assert_eq!(
        AllocatedChunk::new_from_range(&mapper, 4096, MAPPED_REGION_SIZE + 1).err(),
        Some("size is incorrectly aligned")
    );
    assert_eq!(
        AllocatedChunk::new_from_range(&mapper, usize::MAX - 4095, 8192).err(),
        Some("input region wraps around")
    );
    let top = usize::MAX - (usize::MAX % DATA_ALIGNMENT);
    assert_eq!(
        AllocatedChunk::new_from_range(&mapper, top, 4096).err(),
        Some("overflow in alignment")
    );
    assert_eq!(
        AllocatedChunk::new_from_range(&mapper, top - 4096, 4096).err(),
        Some("overflow in bump")
    );
    assert_eq!(
        AllocatedChunk::new_from_range(&mapper, top - DATA_ALIGNMENT, 4096).err(),
        Some("overflow in data_end")
    );
    assert_eq!(
        AllocatedChunk::new_from_range(&mapper, 4096, MAPPED_REGION_SIZE - DATA_ALIGNMENT).err(),
        Some("region too small")
    );
    assert_eq!(
        AllocatedChunk::new_from_range(
            &mapper,
            DATA_ALIGNMENT - 3 * GUARD_PAGE_SIZE,
            DATA_ALIGNMENT + 4 * GUARD_PAGE_SIZE - 4096
        )
        .err(),
        Some("region too small")
    );
    assert!(AllocatedChunk::new_from_range(
        &mapper,
        DATA_ALIGNMENT - 3 * GUARD_PAGE_SIZE,
        DATA_ALIGNMENT + 4 * GUARD_PAGE_SIZE
    )
    .is_ok());
}

#[test]
fn metadata_address_formula() {
    // The metadata of the first span of a chunk is at the beginning
    // of the metadata page, and each span has the next record.
    let data = 5 * DATA_ALIGNMENT;
    let meta = data - GUARD_PAGE_SIZE - METADATA_PAGE_SIZE;
    assert_eq!(SpanMetadata::from_allocation_address(data), meta);
    assert_eq!(SpanMetadata::from_allocation_address(data + SPAN_ALIGNMENT - 1), meta);
    assert_eq!(
        SpanMetadata::from_allocation_address(data + SPAN_ALIGNMENT),
        meta + SPAN_METADATA_SIZE
    );
    assert_eq!(
        SpanMetadata::from_allocation_address(data + 3 * SPAN_ALIGNMENT + 17),
        meta + 3 * SPAN_METADATA_SIZE
    );
    assert_eq!(
        SpanMetadata::from_allocation_address(data + DATA_ALIGNMENT - 1),
        meta + (DATA_ALIGNMENT / SPAN_ALIGNMENT - 1) * SPAN_METADATA_SIZE
    );
    assert_eq!(SpanMetadata::from_allocation_address(DATA_ALIGNMENT), DATA_ALIGNMENT - 0x40_0000);
}

#[test]
fn call_with_chunk_commits_on_success() {
    let mapper = TestMapper::new(DATA_ALIGNMENT - 3 * GUARD_PAGE_SIZE);
    let chunk = AllocatedChunk::new(&mapper).expect("should reserve");
    let data = chunk.data();
    assert_eq!(data, DATA_ALIGNMENT);

    let ret = chunk.call_with_chunk(|chunk| Ok(chunk.meta()));
    assert_eq!(ret, Ok(DATA_ALIGNMENT - 2 * GUARD_PAGE_SIZE));

    let base = DATA_ALIGNMENT - 3 * GUARD_PAGE_SIZE;
    assert_eq!(
        *mapper.calls.borrow(),
        vec![
            Call::Reserve(MAPPED_REGION_SIZE),
            Call::AllocateMeta(DATA_ALIGNMENT - 2 * GUARD_PAGE_SIZE, METADATA_PAGE_SIZE),
            Call::AllocateData(DATA_ALIGNMENT, DATA_ALIGNMENT),
            // Nothing to release at the bottom: the prefix starts at the base.
            Call::Release(
                2 * DATA_ALIGNMENT + GUARD_PAGE_SIZE,
                base + MAPPED_REGION_SIZE - (2 * DATA_ALIGNMENT + GUARD_PAGE_SIZE)
            ),
        ]
    );
}

#[test]
fn call_with_chunk_releases_on_failure() {
    let mapper = TestMapper::new(4096);
    let chunk = AllocatedChunk::new(&mapper).expect("should reserve");

    let ret: Result<usize, i32> = chunk.call_with_chunk(|_chunk| Err(7));
    assert_eq!(ret, Err(7));
    let calls = mapper.calls.borrow();
    assert_eq!(calls.len(), 4);
    assert_eq!(calls[3], Call::Release(4096, MAPPED_REGION_SIZE));
}

#[test]
fn call_with_chunk_fails_when_the_mapper_does() {
    let mapper = TestMapper::new(4096);
    mapper.fail_data.set(Some(12));
    let chunk = AllocatedChunk::new(&mapper).expect("should reserve");

    let called = Cell::new(false);
    let ret: Result<usize, i32> = chunk.call_with_chunk(|_chunk| {
        called.set(true);
        Ok(1)
    });
    assert_eq!(ret, Err(12));
    assert!(!called.get());
    // Nothing was made of the range: all of it went back.
    assert_eq!(
        *mapper.calls.borrow(),
        vec![
            Call::Reserve(MAPPED_REGION_SIZE),
            Call::AllocateMeta(DATA_ALIGNMENT - 2 * GUARD_PAGE_SIZE, METADATA_PAGE_SIZE),
            Call::AllocateData(DATA_ALIGNMENT, DATA_ALIGNMENT),
            Call::Release(4096, MAPPED_REGION_SIZE),
        ]
    );
    mapper.calls.borrow_mut().clear();

    mapper.fail_reserve.set(Some(5));
    assert_eq!(AllocatedChunk::new(&mapper).err(), Some(5));
}

#[test]
fn get_span_sizes() {
    let mut chunks = Chunks::new();
    let mut mill = Mill::new(TestMapper::new(4096));

    // The default span is nearly 1 MB: 63 spans of 16 KB.
    let first = mill.get_span(&mut chunks, 8, None).expect("should mill");
    assert_eq!(first.data, DATA_ALIGNMENT);
    assert_eq!(first.data_size, DEFAULT_DESIRED_SPAN_SIZE);
    assert_eq!(first.trail, 62);
    assert_eq!(first.meta, DATA_ALIGNMENT - 0x40_0000);
    assert_eq!(chunks.len(), 1);

    // The next span follows the first one.
    let second = mill.get_span(&mut chunks, 1, Some(1)).expect("should mill");
    assert_eq!(second.data, DATA_ALIGNMENT + DEFAULT_DESIRED_SPAN_SIZE);
    assert_eq!(second.data_size, SPAN_ALIGNMENT);
    assert_eq!(second.trail, 0);
    assert_eq!(second.meta, first.meta + 63 * SPAN_METADATA_SIZE);

    // The desired size is at least the minimum, and the size is a
    // whole number of spans.
    let third = mill.get_span(&mut chunks, SPAN_ALIGNMENT + 1, Some(3)).expect("should mill");
    assert_eq!(third.data_size, 2 * SPAN_ALIGNMENT);

    // The desired size is at most the maximum.
    let fourth = mill.get_span(&mut chunks, 1, Some(usize::MAX)).expect("should mill");
    assert_eq!(fourth.data_size, MAX_SPAN_SIZE);
    assert_eq!(chunks.len(), 1);

    // Every record of a fresh span is vacant.
    let record = chunks.get(fourth.meta).expect("should have a record");
    assert_eq!(record.class_id, None);
    assert_eq!(record.bump_limit, 0);
    assert_eq!(chunks.get(fourth.meta + 1).map(|record| record.bump_limit), None);
}

#[test]
fn get_span_takes_a_new_chunk_when_the_current_one_is_short() {
    let mut chunks = Chunks::new();
    let mut mill = Mill::new(TestMapper::new(4096));

    // 15 spans of the maximum size leave one sixteenth of the chunk.
    for i in 0..15 {
        let range = mill.get_span(&mut chunks, MAX_SPAN_SIZE, None).expect("should mill");
        assert_eq!(range.data, DATA_ALIGNMENT + i * MAX_SPAN_SIZE);
    }
    let small = mill.get_span(&mut chunks, 1, Some(1)).expect("should mill");
    assert_eq!(small.data, DATA_ALIGNMENT + 15 * MAX_SPAN_SIZE);
    assert_eq!(chunks.len(), 1);

    // What is left is too short: the span comes from a new chunk, and
    // the rest of the old chunk is lost.
    let range = mill.get_span(&mut chunks, MAX_SPAN_SIZE, None).expect("should mill");
    assert_eq!(chunks.len(), 2);
    assert_eq!(range.data % DATA_ALIGNMENT, 0);
    assert!(range.data > DATA_ALIGNMENT);
    assert_eq!(range.data_size, MAX_SPAN_SIZE);

    // When less is left than desired, the span is what is left.
    let mut chunks = Chunks::new();
    let mut mill = Mill::new(TestMapper::new(4096));
    for _ in 0..15 {
        mill.get_span(&mut chunks, MAX_SPAN_SIZE, None).expect("should mill");
    }
    mill.get_span(&mut chunks, MAX_SPAN_SIZE - SPAN_ALIGNMENT, Some(1)).expect("should mill");
    let rest = mill.get_span(&mut chunks, 1, None).expect("should mill");
    assert_eq!(rest.data_size, SPAN_ALIGNMENT);
    assert_eq!(chunks.len(), 1);
}

#[test]
fn get_span_propagates_mapper_errors() {
    let mut chunks = Chunks::new();
    let mapper = TestMapper::new(4096);
    mapper.fail_reserve.set(Some(12));
    let mut mill = Mill::new(mapper);

    assert_eq!(mill.get_span(&mut chunks, 8, None).err(), Some(12));
    assert_eq!(chunks.len(), 0);
}

#[test]
fn get_span_refuses_a_chunk_that_exists() {
    let mut chunks = Chunks::new();
    let mapper = TestMapper::new(4096);
    mapper.repeat.set(true);
    let mut mill = Mill::new(mapper);

    for _ in 0..16 {
        mill.get_span(&mut chunks, MAX_SPAN_SIZE, None).expect("should mill");
    }
    // The mapper hands out the same region again.
    assert_eq!(mill.get_span(&mut chunks, 8, None).err(), Some(CHUNK_EXISTS));
    assert_eq!(chunks.len(), 1);
}

#[test]
fn settle_keeps_a_success() {
    let mapper = TestMapper::new(4096);
    let chunk = AllocatedChunk::new(&mapper).expect("should reserve");
    // The mapper fails to release the slop; what was made stays.
    mapper.fail_release.set(Some(22));
    assert_eq!(chunk.settle(Ok(41usize)), Ok(41));
    let calls = mapper.calls.borrow();
    assert_eq!(calls.len(), 2);
    assert_eq!(calls[1], Call::Release(4096, DATA_ALIGNMENT - PREFIX_SIZE - 4096));
}

#[test]
fn settle_releases_after_a_failure() {
    let mapper = TestMapper::new(4096);
    let chunk = AllocatedChunk::new(&mapper).expect("should reserve");
    let ret: Result<usize, i32> = chunk.settle(Err(7));
    assert_eq!(ret, Err(7));
    assert_eq!(mapper.calls.borrow()[1], Call::Release(4096, MAPPED_REGION_SIZE));

    // Where the release fails too, its code comes back.
    let chunk = AllocatedChunk::new(&mapper).expect("should reserve");
    mapper.fail_release.set(Some(22));
    let ret: Result<usize, i32> = chunk.settle(Err(7));
    assert_eq!(ret, Err(22));
}

#[test]
fn a_range_without_slop_asks_nothing_of_the_mapper() {
    let mapper = TestMapper::new(4096);
    mapper.fail_release.set(Some(22));
    let chunk = AllocatedChunk::new_from_range(
        &mapper,
        DATA_ALIGNMENT - PREFIX_SIZE,
        PREFIX_SIZE + DATA_ALIGNMENT + SUFFIX_SIZE,
    )
    .expect("must construct");
    assert_eq!(chunk.data(), DATA_ALIGNMENT);
    assert_eq!(chunk.settle(Ok(3usize)), Ok(3));
    assert!(mapper.calls.borrow().is_empty());
}

#[test]
fn to_chunk_refuses_data_that_is_taken() {
    let mapper = TestMapper::new(4096);
    let mut chunks = Chunks::new();
    let range = AllocatedChunk::new_from_range(&mapper, 4096, MAPPED_REGION_SIZE)
        .expect("must construct");
    assert_eq!(range.data(), DATA_ALIGNMENT);

    let chunk = range.to_chunk(&chunks).ok().expect("the data is free");
    assert_eq!(chunks.push(chunk), 0);
    assert!(chunks.contains_chunk(DATA_ALIGNMENT));
    assert_eq!(range.to_chunk(&chunks).err(), Some(CHUNK_EXISTS));

    let other = AllocatedChunk::new_from_range(&mapper, 3 * DATA_ALIGNMENT, MAPPED_REGION_SIZE)
        .expect("must construct");
    assert_eq!(other.data(), 4 * DATA_ALIGNMENT);
    assert!(other.to_chunk(&chunks).is_ok());
}
