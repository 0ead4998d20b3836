use std::cell::Cell;
use std::cell::RefCell;
use std::collections::HashMap;
use std::collections::HashSet;
use std::rc::Rc;

use slitter::cache::allocate;
use slitter::cache::release;
use slitter::cache::slitter__allocate_slow;
use slitter::cache::slitter__release_slow;
use slitter::cache::Cache;
use slitter::class::max_id;
use slitter::class::Class;
use slitter::class::ClassConfig;
use slitter::class::Slitter;
use slitter::layout::Layout;
use slitter::linear_ref::LinearRef;
use slitter::magazine::Magazine;
use slitter::magazine::PushMagazine;
use slitter::mapper::get_mapper;
use slitter::mapper::register_mapper;
use slitter::mapper::Mapper;
use slitter::mill::DATA_ALIGNMENT;
use slitter::mill::GUARD_PAGE_SIZE;
use slitter::mill::MAPPED_REGION_SIZE;
use slitter::mill::MAX_SPAN_SIZE;
use slitter::mill::SpanMetadata;
use slitter::mill::SPAN_ALIGNMENT;
use slitter::mill::SPAN_METADATA_SIZE;
use slitter::press::check_allocation;

/// The memory that a simulated mapper stands for: the bytes that were
/// written and are not zero, and the ranges that were handed out.
struct Memory {
    next: Cell<usize>,
    bytes: RefCell<HashMap<usize, u8>>,
    zero_fills: Cell<usize>,
    reserved: Cell<usize>,
    fail: Cell<bool>,
}

impl Memory {
    fn new() -> Rc<Memory> {
        Rc::new(Memory {
            next: Cell::new(DATA_ALIGNMENT - 3 * GUARD_PAGE_SIZE),
            bytes: RefCell::new(HashMap::new()),
            zero_fills: Cell::new(0),
            reserved: Cell::new(0),
            fail: Cell::new(false),
        })
    }

    fn read(&self, address: usize) -> u8 {
        self.bytes.borrow().get(&address).copied().unwrap_or(0)
    }

    fn write(&self, address: usize, value: u8) {
        self.bytes.borrow_mut().insert(address, value);
    }
}

/// A mapper over simulated memory.
struct SimMapper(Rc<Memory>);

impl Mapper for SimMapper {
    fn page_size(&self) -> usize {
        4096
    }

    fn reserve(
        &self,
        desired_size: usize,
        _data_size: usize,
        _prefix: usize,
        _suffix: usize,
    ) -> Result<(usize, usize), i32> {
        if self.0.fail.get() {
            return Err(12);
        }
        let base = self.0.next.get();
        self.0.next.set(base + 3 * DATA_ALIGNMENT);
        self.0.reserved.set(self.0.reserved.get() + 1);
        Ok((base, desired_size))
    }

    fn release(&self, _base: usize, _size: usize) -> Result<(), i32> {
        Ok(())
    }

    fn allocate_meta(&self, _base: usize, _size: usize) -> Result<(), i32> {
        Ok(())
    }

    fn allocate_data(&self, _base: usize, _size: usize) -> Result<(), i32> {
        Ok(())
    }

    fn zero_fill(&self, base: usize, size: usize) {
        self.0.zero_fills.set(self.0.zero_fills.get() + 1);
        let mut bytes = self.0.bytes.borrow_mut();
        for address in base..base + size {
            bytes.remove(&address);
        }
    }
}

fn config(name: &str, size: usize, zero_init: bool) -> ClassConfig {
    ClassConfig {
        name: Some(name.into()),
        layout: Layout::from_size_align(size, 8).expect("layout should build"),
        zero_init,
        mapper_name: None,
    }
}

#[test]
fn class_smoke_test() {
    let memory = Memory::new();
    let mut slitter = Slitter::new(SimMapper(memory.clone()));
    let mut cache = Cache::new(&mut slitter);
    let class = Class::new(
        &mut slitter,
        ClassConfig {
            name: Some("alloc_smoke".into()),
            layout: Layout::from_size_align(8, 8).expect("layout should build"),
            zero_init: true,
            mapper_name: None,
        },
    )
    .expect("Class should build");

    let first = class.allocate(Some(&mut cache), &mut slitter).expect("Should allocate");
    let second = class.allocate(Some(&mut cache), &mut slitter).expect("Should allocate");
    assert_ne!(first, second);
    assert_eq!(memory.read(first), 0);
    assert_eq!(memory.read(second), 0);

    class.release(Some(&mut cache), &mut slitter, first);

    let third = class.allocate(Some(&mut cache), &mut slitter).expect("Should allocate");
    assert_ne!(third, second);
    assert_eq!(memory.read(third), 0);

    class.release(Some(&mut cache), &mut slitter, third);
    class.release(Some(&mut cache), &mut slitter, second);
}

// Keep allocating / deallocating from the same class.  This
// should help us trigger magazine refilling logic.
#[test]
fn back_to_back() {
    let memory = Memory::new();
    let mut slitter = Slitter::new(SimMapper(memory.clone()));
    let mut cache = Cache::new(&mut slitter);
    let class = Class::new(
        &mut slitter,
        ClassConfig {
            name: Some("alloc_push_pop".into()),
            layout: Layout::from_size_align(8, 8).expect("layout should build"),
            zero_init: true,
            mapper_name: None,
        },
    )
    .expect("Class should build");

    let size = 8;

    for _ in 0..100 {
        let allocated = class.allocate(Some(&mut cache), &mut slitter).expect("Should allocate");

        // Fresh allocations should always be zero-filled.
        assert_eq!(memory.read(allocated), 0);
        assert_eq!(memory.read(allocated + size - 1), 0);

        // Let's now write to our allocation before releasing.
        memory.write(allocated, 42u8);
        memory.write(allocated + size - 1, 42u8);

        class.release(Some(&mut cache), &mut slitter, allocated);
    }
}

// Allocate and deallocate from the same class, in batches.
#[test]
fn n_back_to_back() {
    let memory = Memory::new();
    let mut slitter = Slitter::new(SimMapper(memory.clone()));
    let mut cache = Cache::new(&mut slitter);
    let class = Class::new(
        &mut slitter,
        ClassConfig {
            name: Some("alloc_push_pop".into()),
            layout: Layout::from_size_align(8, 8).expect("layout should build"),
            zero_init: true,
            mapper_name: None,
        },
    )
    .expect("Class should build");

    let size = 8;

    for count in 1..128 {
        let mut allocations = Vec::new();

        for _ in 0..count {
            let allocated =
                class.allocate(Some(&mut cache), &mut slitter).expect("Should allocate");

            // Fresh allocations should always be zero-filled.
            assert_eq!(memory.read(allocated), 0);
            assert_eq!(memory.read(allocated + size - 1), 0);

            // Let's now write to our allocation before releasing.
            memory.write(allocated, 42u8);
            memory.write(allocated + size - 1, 42u8);

            allocations.push(allocated);
        }

        for allocation in allocations {
            class.release(Some(&mut cache), &mut slitter, allocation);
        }
    }
}

#[test]
fn class_ids_are_dense() {
    let mut slitter = Slitter::new(SimMapper(Memory::new()));
    assert_eq!(max_id(&slitter), 0);
    assert_eq!(Class::from_id(&slitter, 1), None);
    assert_eq!(Class::from_id(&slitter, 0), None);

    for id in 1..=5u32 {
        let class = Class::new(&mut slitter, config("dense", 8 * id as usize, false))
            .expect("Class should build");
        assert_eq!(class.id(), id);
        assert_eq!(max_id(&slitter), id as usize);
        assert_eq!(Class::from_id(&slitter, class.id()), Some(class));
        assert_eq!(Class::from_id(&slitter, id + 1), None);
        assert_eq!(class.info(&slitter).id, class);
        assert_eq!(class.info(&slitter).layout.size(), 8 * id as usize);
        assert_eq!(class.info(&slitter).zero_init, false);
    }
    let first = Class::from_id(&slitter, 1).expect("should exist");
    assert_eq!(first.info(&slitter).name.as_deref(), Some("dense"));
}

#[test]
fn class_config_errors() {
    let mut slitter = Slitter::new(SimMapper(Memory::new()));

    let too_aligned = ClassConfig {
        name: None,
        layout: Layout::from_size_align(8, 8192).expect("layout should build"),
        zero_init: false,
        mapper_name: None,
    };
    assert_eq!(
        Class::new(&mut slitter, too_aligned).err(),
        Some("slitter only supports alignment up to 4 KB")
    );

    let too_large = ClassConfig {
        name: None,
        layout: Layout::from_size_align(MAX_SPAN_SIZE / 2 + 1, 8).expect("layout should build"),
        zero_init: false,
        mapper_name: None,
    };
    assert_eq!(
        Class::new(&mut slitter, too_large).err(),
        Some("Class elements too large (after alignment)")
    );

    let unknown_mapper = ClassConfig {
        name: None,
        layout: Layout::from_size_align(8, 8).expect("layout should build"),
        zero_init: false,
        mapper_name: Some("nowhere".into()),
    };
    assert_eq!(Class::new(&mut slitter, unknown_mapper).err(), Some("Mapper not found"));
    assert_eq!(max_id(&slitter), 0);

    // The largest size and the largest alignment are fine, and the
    // size is padded to the alignment.
    let largest = ClassConfig {
        name: None,
        layout: Layout::from_size_align(MAX_SPAN_SIZE / 2 - 1, 4096).expect("layout should build"),
        zero_init: false,
        mapper_name: None,
    };
    let class = Class::new(&mut slitter, largest).expect("Class should build");
    assert_eq!(class.info(&slitter).layout.size(), MAX_SPAN_SIZE / 2);
    assert_eq!(class.info(&slitter).layout.align(), 4096);
}

#[test]
fn layout_rules() {
    assert!(Layout::from_size_align(8, 0).is_err());
    assert!(Layout::from_size_align(8, 3).is_err());
    assert!(Layout::from_size_align(isize::MAX as usize, 2).is_err());
    assert!(Layout::from_size_align(isize::MAX as usize, 1).is_ok());
    let layout = Layout::from_size_align(9, 8).expect("layout should build");
    assert_eq!(layout.size(), 9);
    assert_eq!(layout.align(), 8);
    assert_eq!(layout.pad_to_align().size(), 16);
    assert_eq!(layout.pad_to_align().align(), 8);
    let layout = Layout::from_size_align(16, 8).expect("layout should build");
    assert_eq!(layout.pad_to_align().size(), 16);
    let layout = Layout::from_size_align(0, 8).expect("layout should build");
    assert_eq!(layout.pad_to_align().size(), 0);
}

#[test]
fn named_mappers() {
    let default = Memory::new();
    let file = Memory::new();
    file.next.set(64 * DATA_ALIGNMENT - 3 * GUARD_PAGE_SIZE);
    let other = Memory::new();
    other.next.set(128 * DATA_ALIGNMENT - 3 * GUARD_PAGE_SIZE);
    let mut slitter = Slitter::new(SimMapper(default.clone()));
    assert_eq!(slitter.get_mill(&None), Ok(0));
    assert_eq!(slitter.get_mill(&Some("file".into())), Err("Mapper not found"));

    slitter.register_mapper("file".into(), SimMapper(file.clone()));
    assert_eq!(slitter.get_mill(&Some("file".into())), Ok(1));
    assert_eq!(slitter.get_mill(&Some("other".into())), Err("Mapper not found"));
    assert_eq!(slitter.get_mill(&None), Ok(0));

    let mut cache = Cache::new(&mut slitter);
    let plain = Class::new(&mut slitter, config("plain", 8, false)).expect("Class should build");
    let mut named = config("named", 8, false);
    named.mapper_name = Some("file".into());
    let named = Class::new(&mut slitter, named).expect("Class should build");

    let p = plain.allocate(Some(&mut cache), &mut slitter).expect("Should allocate");
    let q = named.allocate(Some(&mut cache), &mut slitter).expect("Should allocate");
    assert_eq!(p, DATA_ALIGNMENT);
    assert_eq!(q, 64 * DATA_ALIGNMENT);
    assert_eq!(default.reserved.get(), 1);
    assert_eq!(file.reserved.get(), 1);

    // The mapper that was registered last under a name is the one
    // that new classes get.
    slitter.register_mapper("file".into(), SimMapper(other.clone()));
    assert_eq!(slitter.get_mill(&Some("file".into())), Ok(2));
    let mut renamed = config("renamed", 8, false);
    renamed.mapper_name = Some("file".into());
    let renamed = Class::new(&mut slitter, renamed).expect("Class should build");
    let r = renamed.allocate(Some(&mut cache), &mut slitter).expect("Should allocate");
    assert_eq!(r, 128 * DATA_ALIGNMENT);
    // The class that was there keeps its mill: the next object comes
    // from the top of the magazine that the first batch filled.
    let q2 = named.allocate(Some(&mut cache), &mut slitter).expect("Should allocate");
    assert_eq!(q2, 64 * DATA_ALIGNMENT + 30 * 8);
}

#[test]
fn type_stability() {
    let mut slitter = Slitter::new(SimMapper(Memory::new()));
    let mut cache = Cache::new(&mut slitter);
    let a = Class::new(&mut slitter, config("a", 8, true)).expect("Class should build");
    let b = Class::new(&mut slitter, config("b", 16, false)).expect("Class should build");

    let mut of_a = Vec::new();
    let mut of_b = Vec::new();
    for _ in 0..200 {
        of_a.push(a.allocate(Some(&mut cache), &mut slitter).expect("Should allocate"));
        of_b.push(b.allocate(Some(&mut cache), &mut slitter).expect("Should allocate"));
    }
    for round in 0..3 {
        for p in of_a.iter() {
            assert_eq!(check_allocation(slitter.chunks(), a, *p), Ok(()));
            assert_eq!(check_allocation(slitter.chunks(), b, *p), Err("Incorrect class id"));
            assert!(slitter.owns_block(a, *p));
            assert!(!slitter.owns_block(b, *p));
            assert_eq!(p % 8, 0);
        }
        for p in of_b.iter() {
            assert_eq!(check_allocation(slitter.chunks(), b, *p), Ok(()));
            assert_eq!(check_allocation(slitter.chunks(), a, *p), Err("Incorrect class id"));
            assert_eq!(p % 8, 0);
        }
        if round == 0 {
            // Releasing changes nothing.
            for p in of_a.iter() {
                a.release(Some(&mut cache), &mut slitter, *p);
            }
        } else if round == 1 {
            // Neither do more classes and more spans.
            let c = Class::new(&mut slitter, config("c", 4096, false)).expect("Class should build");
            for _ in 0..300 {
                let p = c.allocate(Some(&mut cache), &mut slitter).expect("Should allocate");
                assert_eq!(check_allocation(slitter.chunks(), c, p), Ok(()));
                assert_eq!(check_allocation(slitter.chunks(), a, p), Err("Incorrect class id"));
            }
        }
    }

    // Addresses that no span holds belong to no class.
    assert_eq!(check_allocation(slitter.chunks(), a, 8), Err("Derived a bad metadata address"));
    assert_eq!(
        check_allocation(slitter.chunks(), a, 5 * DATA_ALIGNMENT),
        Err("Derived a bad metadata address")
    );
    assert_eq!(
        check_allocation(slitter.chunks(), a, 2 * DATA_ALIGNMENT - 8),
        Err("Incorrect class id")
    );
    assert!(!slitter.owns_block(a, 0));
    assert!(!slitter.owns_block(a, of_a[0] + 1));
}

#[test]
fn alignment_is_honoured() {
    let mut slitter = Slitter::new(SimMapper(Memory::new()));
    let mut cache = Cache::new(&mut slitter);
    for align in [1usize, 2, 8, 64, 4096] {
        let class = Class::new(
            &mut slitter,
            ClassConfig {
                name: None,
                layout: Layout::from_size_align(24, align).expect("layout should build"),
                zero_init: false,
                mapper_name: None,
            },
        )
        .expect("Class should build");
        let mut previous = 0;
        for _ in 0..70 {
            let p = class.allocate(Some(&mut cache), &mut slitter).expect("Should allocate");
            assert_eq!(p % align, 0);
            assert_ne!(p, previous);
            previous = p;
        }
    }
}

// Two classes, interleaved: no address is ever live under both, and
// the zero-initialised class always reads zero.
#[test]
fn two_classes_interleaved() {
    let memory = Memory::new();
    let mut slitter = Slitter::new(SimMapper(memory.clone()));
    let mut cache = Cache::new(&mut slitter);
    let classes = vec![
        Class::new(&mut slitter, config("random_class_1", 8, true)).expect("Class should build"),
        Class::new(&mut slitter, config("random_class_2", 16, false)).expect("Class should build"),
    ];

    let mut slots: Vec<Option<(usize, Class)>> = vec![None; 20];
    let mut state = 12345usize;
    for _ in 0..50 {
        state = state.wrapping_mul(6364136223846793005).wrapping_add(1442695040888963407);
        let index = (state >> 33) % 10;
        let class_id = (state >> 17) % 2;
        if let Some((alloc, class)) = slots[index].take() {
            memory.write(alloc, 42);
            class.release(Some(&mut cache), &mut slitter, alloc);
        } else {
            let class = classes[class_id];
            let new_alloc =
                class.allocate(Some(&mut cache), &mut slitter).expect("Should allocate");
            if class_id == 0 {
                assert_eq!(memory.read(new_alloc), 0);
            }
            let fresh = slots.iter().all(|x| match x {
                Some((p, _)) => *p != new_alloc,
                None => true,
            });
            assert!(fresh);
            slots[index] = Some((new_alloc, class));
        }
    }
    for slot in slots.iter_mut() {
        if let Some((freed, class)) = slot.take() {
            class.release(Some(&mut cache), &mut slitter, freed);
        }
    }
}

// 30 allocations, then 30 releases in reverse order, and that twice
// more.  What the first round released fills the magazine that the
// cache releases into; the second round spills it, and the last round
// allocates from it.
#[test]
fn lifo_batch() {
    let memory = Memory::new();
    let mut slitter = Slitter::new(SimMapper(memory.clone()));
    let mut cache = Cache::new(&mut slitter);
    let class = Class::new(&mut slitter, config("lifo", 8, true)).expect("Class should build");

    let mut seen = HashSet::new();
    let mut recycled = Vec::new();
    for _ in 0..3 {
        let mut live: Vec<usize> = Vec::new();
        let mut reused = 0;
        for _ in 0..30 {
            let p = class.allocate(Some(&mut cache), &mut slitter).expect("Should allocate");
            assert!(!live.contains(&p));
            assert_eq!(memory.read(p), 0);
            memory.write(p, 42);
            if !seen.insert(p) {
                reused += 1;
            }
            live.push(p);
        }
        while let Some(p) = live.pop() {
            class.release(Some(&mut cache), &mut slitter, p);
        }
        assert_eq!(live.len(), 0);
        recycled.push(reused);
    }
    assert_eq!(recycled, vec![0, 0, 28]);
}

// A class whose objects take half a span: the default span holds 126
// of them, and the next allocation installs a new span.
#[test]
fn span_exhaustion() {
    let mut slitter = Slitter::new(SimMapper(Memory::new()));
    let mut cache = Cache::new(&mut slitter);
    let size = SPAN_ALIGNMENT / 2;
    let class = Class::new(&mut slitter, config("half", size, false)).expect("Class should build");

    let mut addresses = Vec::new();
    for _ in 0..300 {
        addresses.push(class.allocate(Some(&mut cache), &mut slitter).expect("Should allocate"));
    }
    // Each span-aligned region holds two objects, and no two objects
    // are at the same address.
    let mut per_region: HashMap<usize, usize> = HashMap::new();
    for p in addresses.iter() {
        assert_eq!(p % size, 0);
        *per_region.entry(p / SPAN_ALIGNMENT).or_insert(0) += 1;
    }
    assert_eq!(addresses.iter().collect::<HashSet<_>>().len(), 300);
    assert!(per_region.values().all(|count| *count <= 2));
    assert!(per_region.len() >= 150);
    for p in addresses.iter() {
        assert_eq!(check_allocation(slitter.chunks(), class, *p), Ok(()));
    }
    // The first allocation is the first object of the first span, and
    // the batch that it came with fills the magazine from there.
    assert_eq!(addresses[0], DATA_ALIGNMENT);
    assert_eq!(addresses[1], DATA_ALIGNMENT + 30 * size);
    assert_eq!(addresses[30], DATA_ALIGNMENT + size);
}

#[test]
fn allocation_fails_when_the_mapper_does() {
    let memory = Memory::new();
    let mut slitter = Slitter::new(SimMapper(memory.clone()));
    let mut cache = Cache::new(&mut slitter);
    let class = Class::new(&mut slitter, config("oom", 8, false)).expect("Class should build");

    memory.fail.set(true);
    assert_eq!(class.allocate(Some(&mut cache), &mut slitter), None);
    assert_eq!(class.allocate(None, &mut slitter), None);

    memory.fail.set(false);
    let p = class.allocate(Some(&mut cache), &mut slitter).expect("Should allocate");
    memory.fail.set(true);
    // The cache and the span still have objects.
    let q = class.allocate(Some(&mut cache), &mut slitter).expect("Should allocate");
    assert_ne!(p, q);
    class.release(Some(&mut cache), &mut slitter, p);
    class.release(Some(&mut cache), &mut slitter, q);
    assert_eq!(MAPPED_REGION_SIZE % 4096, 0);
}

#[test]
fn without_a_cache() {
    let memory = Memory::new();
    let mut slitter = Slitter::new(SimMapper(memory.clone()));
    let class = Class::new(&mut slitter, config("slow", 8, true)).expect("Class should build");

    let p = class.allocate(None, &mut slitter).expect("Should allocate");
    let q = class.allocate(None, &mut slitter).expect("Should allocate");
    assert_ne!(p, q);
    memory.write(p, 42);
    class.release(None, &mut slitter, p);
    // The object comes back from the class's magazines, zero-filled.
    let r = class.allocate(None, &mut slitter).expect("Should allocate");
    assert_eq!(r, p);
    assert_eq!(memory.read(r), 0);
    class.release(None, &mut slitter, q);
    class.release(None, &mut slitter, r);
}

#[test]
fn cache_teardown() {
    let memory = Memory::new();
    let mut slitter = Slitter::new(SimMapper(memory.clone()));
    let a = Class::new(&mut slitter, config("a", 8, true)).expect("Class should build");
    let b = Class::new(&mut slitter, config("b", 16, false)).expect("Class should build");

    let mut first = Cache::new(&mut slitter);
    let mut held = Vec::new();
    for _ in 0..40 {
        held.push(a.allocate(Some(&mut first), &mut slitter).expect("Should allocate"));
    }
    let kept = b.allocate(Some(&mut first), &mut slitter).expect("Should allocate");
    for p in held.iter() {
        memory.write(*p, 42);
        a.release(Some(&mut first), &mut slitter, *p);
    }
    first.drop(&mut slitter);

    // Another thread gets what the first one gave back, zero-filled.
    let mut second = Cache::new(&mut slitter);
    let mut again = HashSet::new();
    for _ in 0..40 {
        let p = a.allocate(Some(&mut second), &mut slitter).expect("Should allocate");
        assert_eq!(memory.read(p), 0);
        assert_ne!(p, kept);
        assert!(again.insert(p));
    }
    assert!(held.iter().any(|p| again.contains(p)));
    second.drop(&mut slitter);
    // A cache can be torn down twice, and used again.
    second.drop(&mut slitter);
    let p = a.allocate(Some(&mut second), &mut slitter).expect("Should allocate");
    a.release(Some(&mut second), &mut slitter, p);
    b.release(Some(&mut second), &mut slitter, kept);
    second.drop(&mut slitter);
}

#[test]
fn zero_fill_happens_on_refill_from_the_class() {
    let memory = Memory::new();
    let mut slitter = Slitter::new(SimMapper(memory.clone()));
    let mut cache = Cache::new(&mut slitter);
    let zeroed = Class::new(&mut slitter, config("zeroed", 8, true)).expect("Class should build");
    let plain = Class::new(&mut slitter, config("plain", 8, false)).expect("Class should build");

    for class in [zeroed, plain] {
        let before = memory.zero_fills.get();
        let mut held = Vec::new();
        for _ in 0..61 {
            held.push(class.allocate(Some(&mut cache), &mut slitter).expect("Should allocate"));
        }
        // Fresh objects need no zero-fill.
        assert_eq!(memory.zero_fills.get(), before);
        for p in held.iter() {
            memory.write(*p, 42);
            class.release(Some(&mut cache), &mut slitter, *p);
        }
        for _ in 0..61 {
            let p = class.allocate(Some(&mut cache), &mut slitter).expect("Should allocate");
            assert!(class != zeroed || memory.read(p) == 0);
        }
        // Two full magazines of the zero-initialised class came back
        // from the class, and none of the other class was touched.
        assert_eq!(memory.zero_fills.get(), 60);
    }
}

#[test]
fn free_functions() {
    let memory = Memory::new();
    let mut slitter = Slitter::new(SimMapper(memory.clone()));
    let mut cache = Cache::new(&mut slitter);
    let class = Class::new(&mut slitter, config("free", 8, true)).expect("Class should build");

    let p = allocate(Some(&mut cache), &mut slitter, class).expect("Should allocate");
    let q = slitter__allocate_slow(Some(&mut cache), &mut slitter, class).expect("Should allocate");
    let r = allocate(None, &mut slitter, class).expect("Should allocate");
    let s = slitter__allocate_slow(None, &mut slitter, class).expect("Should allocate");
    let addresses = [p.get(), q.get(), r.get(), s.get()];
    for i in 0..4 {
        for j in 0..i {
            assert_ne!(addresses[i], addresses[j]);
        }
        assert!(slitter.owns_block(class, addresses[i]));
    }
    release(Some(&mut cache), &mut slitter, class, p);
    slitter__release_slow(Some(&mut cache), &mut slitter, class, q);
    release(None, &mut slitter, class, r);
    slitter__release_slow(None, &mut slitter, class, s);
    assert_eq!(cache.check_rep_or_err(&slitter), Ok(()));

    assert_eq!(LinearRef::new(16), LinearRef::from_address(16));
    assert_ne!(LinearRef::new(16), LinearRef::new(24));
    assert_eq!(LinearRef::new(16).convert_to_non_null(), 16);
}

#[test]
fn cache_check_rep() {
    let memory = Memory::new();
    let mut slitter = Slitter::new(SimMapper(memory.clone()));
    let mut cache = Cache::new(&mut slitter);
    assert_eq!(cache.check_rep_or_err(&slitter), Ok(()));

    let a = Class::new(&mut slitter, config("a", 8, true)).expect("Class should build");
    let b = Class::new(&mut slitter, config("b", 16, false)).expect("Class should build");
    let mut held = Vec::new();
    for i in 0..100 {
        let class = if i % 3 == 0 { b } else { a };
        held.push((class, class.allocate(Some(&mut cache), &mut slitter).expect("Should allocate")));
        assert_eq!(cache.check_rep_or_err(&slitter), Ok(()));
    }
    for (class, p) in held {
        class.release(Some(&mut cache), &mut slitter, p);
        assert_eq!(cache.check_rep_or_err(&slitter), Ok(()));
    }
    // More classes than the cache has slots for.
    for _ in 0..6 {
        Class::new(&mut slitter, config("more", 8, false)).expect("Class should build");
    }
    let last = Class::from_id(&slitter, 8).expect("should exist");
    let p = last.allocate(Some(&mut cache), &mut slitter).expect("Should allocate");
    assert_eq!(cache.check_rep_or_err(&slitter), Ok(()));
    last.release(Some(&mut cache), &mut slitter, p);
    cache.drop(&mut slitter);
    assert_eq!(cache.check_rep_or_err(&slitter), Ok(()));

    // A cache that knows a class is no cache for an allocator
    // without classes.
    let mut other = Slitter::new(SimMapper(Memory::new()));
    let mut cache = Cache::new(&mut slitter);
    let p = a.allocate(Some(&mut cache), &mut slitter).expect("Should allocate");
    assert_eq!(
        cache.check_rep_or_err(&other),
        Err("Some cache entries are missing their info.")
    );
    // Nor for one with other classes at other addresses.
    for _ in 0..8 {
        Class::new(&mut other, config("other", 8, false)).expect("Class should build");
    }
    assert_eq!(cache.check_rep_or_err(&other), Err("Derived a bad metadata address"));
    a.release(Some(&mut cache), &mut slitter, p);
}

#[test]
fn magazine_check_rep() {
    let memory = Memory::new();
    let mut slitter = Slitter::new(SimMapper(memory.clone()));
    let a = Class::new(&mut slitter, config("a", 8, false)).expect("Class should build");
    let b = Class::new(&mut slitter, config("b", 8, false)).expect("Class should build");
    let p = a.allocate(None, &mut slitter).expect("Should allocate");

    let mut rack = slitter::rack::Rack::new();
    let mut mag: PushMagazine = rack.allocate_empty_magazine();
    assert_eq!(mag.check_rep(&slitter, None), Ok(()));
    assert_eq!(mag.check_rep(&slitter, Some(a)), Ok(()));
    assert_eq!(mag.put(LinearRef::new(p)), None);
    assert_eq!(mag.check_rep(&slitter, None), Ok(()));
    assert_eq!(mag.check_rep(&slitter, Some(a)), Ok(()));
    assert_eq!(mag.check_rep(&slitter, Some(b)), Err("Incorrect class id"));
    assert_eq!(mag.put(LinearRef::new(p + 4)), None);
    assert_eq!(mag.check_rep(&slitter, Some(a)), Err("Misplaced cached allocation"));
    assert_eq!(mag.check_rep(&slitter, None), Ok(()));
    assert_eq!(mag.put(LinearRef::new(64)), None);
    assert_eq!(mag.check_rep(&slitter, Some(a)), Err("Misplaced cached allocation"));

    let dummy: PushMagazine = Magazine::default();
    assert_eq!(dummy.check_rep(&slitter, Some(b)), Ok(()));
}

#[test]
fn mapper_functions() {
    let first = Memory::new();
    first.reserved.set(10);
    let second = Memory::new();
    second.reserved.set(20);
    let mut slitter = Slitter::new(SimMapper(first));
    assert_eq!(get_mapper(&slitter, None).map(|m| m.0.reserved.get()), Ok(10));
    assert_eq!(get_mapper(&slitter, Some("file")).err(), Some("Mapper not found"));
    register_mapper(&mut slitter, "file".into(), SimMapper(second));
    assert_eq!(get_mapper(&slitter, Some("file")).map(|m| m.0.reserved.get()), Ok(20));
    assert_eq!(get_mapper(&slitter, None).map(|m| m.0.reserved.get()), Ok(10));
    assert_eq!(slitter.mapper_at(1).0.reserved.get(), 20);
}

#[test]
fn many_caches_interleaved() {
    let memory = Memory::new();
    let mut slitter = Slitter::new(SimMapper(memory.clone()));
    let plain = Class::new(&mut slitter, config("plain", 24, false)).expect("Class should build");
    let zeroed = Class::new(&mut slitter, config("zeroed", 16, true)).expect("Class should build");
    let classes = [plain, zeroed];
    let sizes = [24usize, 16usize];

    let mut caches: Vec<Option<Cache>> = Vec::new();
    for _ in 0..8 {
        caches.push(Some(Cache::new(&mut slitter)));
    }

    let mut live: Vec<(usize, usize)> = Vec::new();
    let mut live_set: HashSet<usize> = HashSet::new();
    let mut class_of: HashMap<usize, usize> = HashMap::new();
    let mut allocated = [0usize; 2];
    let mut released = [0usize; 2];
    let mut state: u64 = 0x2545_f491_4f6c_dd1d;
    let mut next = move || {
        state = state
            .wrapping_mul(6364136223846793005)
            .wrapping_add(1442695040888963407);
        (state >> 33) as usize
    };

    for step in 0..20_000usize {
        let thread = next() % caches.len();
        // Half-way through, two of the threads lose their caches.
        if step == 10_000 {
            for gone in [3usize, 5usize] {
                if let Some(mut cache) = caches[gone].take() {
                    cache.drop(&mut slitter);
                }
            }
        }
        if live.is_empty() || next() % 100 < 55 {
            let which = next() % 2;
            let address = classes[which]
                .allocate(caches[thread].as_mut(), &mut slitter)
                .expect("Should allocate");
            assert_ne!(address, 0);
            assert_eq!(address % 8, 0);
            assert!(live_set.insert(address), "{address:#x} was handed out twice");
            assert_eq!(*class_of.entry(address).or_insert(which), which);
            check_allocation(slitter.chunks(), classes[which], address).expect("class should match");
            if which == 1 {
                for offset in 0..sizes[which] {
                    assert_eq!(memory.read(address + offset), 0);
                }
            }
            for offset in 0..sizes[which] {
                memory.write(address + offset, 0xa5);
            }
            live.push((address, which));
            allocated[which] += 1;
        } else {
            let index = next() % live.len();
            let (address, which) = live.swap_remove(index);
            assert!(live_set.remove(&address));
            classes[which].release(caches[thread].as_mut(), &mut slitter, address);
            released[which] += 1;
        }
        let count = |which: usize| live.iter().filter(|entry| entry.1 == which).count();
        if step % 1000 == 0 {
            assert_eq!(count(0), allocated[0] - released[0]);
            assert_eq!(count(1), allocated[1] - released[1]);
        }
    }

    while let Some((address, which)) = live.pop() {
        assert!(live_set.remove(&address));
        let thread = next() % caches.len();
        classes[which].release(caches[thread].as_mut(), &mut slitter, address);
        released[which] += 1;
    }
    assert!(live_set.is_empty());
    assert_eq!(allocated, released);

    for cache in caches.iter_mut() {
        if let Some(cache) = cache.as_mut() {
            cache.check_rep_or_err(&slitter).expect("cache should be valid");
        }
        if let Some(mut cache) = cache.take() {
            cache.drop(&mut slitter);
        }
    }
}

#[test]
fn a_new_span_needs_no_mapper() {
    let memory = Memory::new();
    let mut slitter = Slitter::new(SimMapper(memory.clone()));
    let size = SPAN_ALIGNMENT / 2;
    let class = Class::new(&mut slitter, config("spans", size, false)).expect("Class should build");

    let first = class.allocate(None, &mut slitter).expect("Should allocate");
    assert_eq!(first, DATA_ALIGNMENT);
    assert_eq!(memory.reserved.get(), 1);

    // From now on the mapper refuses.  A span holds 126 objects, and
    // the chunk has room for many spans.
    memory.fail.set(true);
    let per_span = (0x10_0000 - SPAN_ALIGNMENT) / size;
    assert_eq!(per_span, 126);
    for i in 1..3 * per_span {
        let object = class.allocate(None, &mut slitter).expect("Should allocate");
        assert_eq!(object, DATA_ALIGNMENT + i * size);
        assert_eq!(check_allocation(slitter.chunks(), class, object), Ok(()));
    }
    assert_eq!(memory.reserved.get(), 1);

    // A release without a cache stocks the class.
    class.release(None, &mut slitter, first);
    assert_eq!(class.allocate(None, &mut slitter), Some(first));
}

#[test]
fn every_record_of_a_span_is_tagged() {
    let mut slitter = Slitter::new(SimMapper(Memory::new()));
    // An object takes five span slots, a span 63: twelve objects fit,
    // and three whole slots are left behind the last one.
    let size = 5 * SPAN_ALIGNMENT;
    let class = Class::new(&mut slitter, config("wide", size, false)).expect("Class should build");

    let first = class.allocate(None, &mut slitter).expect("Should allocate");
    assert_eq!(first, DATA_ALIGNMENT);
    let meta = SpanMetadata::from_allocation_address(first);
    let record = slitter.chunks().get(meta).expect("the span has a record");
    assert_eq!(record.class_id, Some(class.id()));
    assert_eq!(record.bump_limit, 12);
    assert_eq!(record.bump_ptr, 1);
    assert_eq!(record.span_begin, DATA_ALIGNMENT);
    for slot in 0..63 {
        let record = slitter
            .chunks()
            .get(meta + slot * SPAN_METADATA_SIZE)
            .expect("the slot has a record");
        assert_eq!(record.class_id, Some(class.id()));
        assert_eq!(
            check_allocation(slitter.chunks(), class, first + slot * SPAN_ALIGNMENT),
            Ok(())
        );
    }
    // The next slot belongs to no span yet.
    let beyond = slitter.chunks().get(meta + 63 * SPAN_METADATA_SIZE).expect("has a record");
    assert_eq!(beyond.class_id, None);
}

#[test]
fn the_span_counts_whole_batches() {
    let mut slitter = Slitter::new(SimMapper(Memory::new()));
    let mut cache = Cache::new(&mut slitter);
    let size = 5 * SPAN_ALIGNMENT;
    let class = Class::new(&mut slitter, config("wide", size, false)).expect("Class should build");

    // A cache asks for a magazine and one object more: 31 objects.
    // The span has twelve, and its counter moves on by 31 all the same.
    let first = class.allocate(Some(&mut cache), &mut slitter).expect("Should allocate");
    let meta = SpanMetadata::from_allocation_address(first);
    let record = slitter.chunks().get(meta).expect("the span has a record");
    assert_eq!(record.bump_limit, 12);
    assert_eq!(record.bump_ptr, 31);

    // The eleven other objects are in the magazine; the next span
    // starts where the first one ends.
    let mut seen = vec![first];
    for _ in 0..11 {
        seen.push(class.allocate(Some(&mut cache), &mut slitter).expect("Should allocate"));
    }
    seen.sort();
    for (i, address) in seen.iter().enumerate() {
        assert_eq!(*address, DATA_ALIGNMENT + i * size);
    }
    let next = class.allocate(Some(&mut cache), &mut slitter).expect("Should allocate");
    assert_eq!(next, DATA_ALIGNMENT + 63 * SPAN_ALIGNMENT);
    // No two objects share a byte.
    assert!(next >= seen[11] + size);
}

#[test]
fn teardown_stores_everything_in_the_depot() {
    let mut slitter = Slitter::new(SimMapper(Memory::new()));
    let mut cache = Cache::new(&mut slitter);
    let size = 5 * SPAN_ALIGNMENT;
    let class = Class::new(&mut slitter, config("wide", size, false)).expect("Class should build");

    // The first span holds twelve objects: one comes back, eleven go
    // to the magazine of the cache.
    let mut held = Vec::new();
    for _ in 0..12 {
        held.push(class.allocate(Some(&mut cache), &mut slitter).expect("Should allocate"));
    }
    for (i, address) in held.iter().enumerate() {
        if i < 5 {
            class.release(Some(&mut cache), &mut slitter, *address);
        }
    }
    cache.drop(&mut slitter);

    // The five objects that the cache held are in the magazines of
    // the class now: they come back before anything new is made.
    let mut back = HashSet::new();
    for _ in 0..5 {
        back.insert(class.allocate(None, &mut slitter).expect("Should allocate"));
    }
    let released: HashSet<usize> = held[..5].iter().copied().collect();
    assert_eq!(back, released);
    let fresh = class.allocate(None, &mut slitter).expect("Should allocate");
    assert_eq!(fresh, DATA_ALIGNMENT + 63 * SPAN_ALIGNMENT);
}
