use slitter::linear_ref::LinearRef;
use slitter::magazine::LocalMagazineCache;
use slitter::magazine::Magazine;
use slitter::magazine::PopMagazine;
use slitter::magazine::PushMagazine;
use slitter::magazine_impl::MagazineImpl;
use slitter::magazine_impl::MAGAZINE_SIZE;
use slitter::magazine_stack::MagazineStack;
use slitter::rack::Rack;

#[test]
fn smoke_test_magazine() {
    let mut rack = Rack::new();
    let mut mag = rack.allocate_empty_magazine::</*PUSH_MAG=*/false>().0;

    // Getting an empty magazine should return None
    assert_eq!(mag.get(), None); // mag: []

    // And getting it again should still return None.
    assert_eq!(mag.get(), None); // mag: []

    let mut mag2 = mag.into_push();

    assert_eq!(mag2.put(LinearRef::from_address(1)), None); // mag: [1]
    assert_eq!(mag2.put(LinearRef::from_address(2)), None); // mag: [1, 2]

    let mut mag3 = mag2.into_pop();
    {
        let popped = mag3.get().expect("should have a value"); // mag: [1]

        assert_eq!(popped.get(), 2);
    }

    let mut mag4 = mag3.into_push();
    assert_eq!(mag4.put(LinearRef::from_address(3)), None); // mag: [1, 3]

    let mut mag5 = mag4.into_pop();
    {
        let popped = mag5.get().expect("should have a value");

        assert_eq!(popped.get(), 3); // mag: [1]
    }

    {
        let popped = mag5.get().expect("should have a value");

        assert_eq!(popped.get(), 1); // mag: []
    }

    rack.release_empty_magazine(Magazine(mag5));
}

#[test]
fn magazine_fill_up() {
    let mut rack = Rack::new();
    let mut mag = rack.allocate_empty_magazine::</*PUSH_MAG=*/true>().0;

    // Fill up the magazine.
    for i in 1..=MAGAZINE_SIZE as usize {
        assert_eq!(mag.len(), i - 1);
        assert_eq!(mag.put(LinearRef::from_address(i)), None);
        assert_eq!(mag.len(), i);
    }

    // This insert should fail
    let failed_insert = mag
        .put(LinearRef::from_address(usize::MAX))
        .expect("should fail");
    assert_eq!(failed_insert.get(), usize::MAX);

    assert_eq!(mag.len(), MAGAZINE_SIZE as usize);

    let mut pop_mag = mag.into_pop();

    // We should pop in LIFO order.
    for i in (1..=MAGAZINE_SIZE as usize).rev() {
        assert_eq!(pop_mag.len(), i);
        let popped = pop_mag.get().expect("has value");
        assert_eq!(popped.get(), i as usize);

        assert_eq!(pop_mag.len(), i - 1);
    }

    // And now the magazine should be empty.
    assert_eq!(pop_mag.len(), 0);
    // So all subsequent `get()` calls will return None.
    assert_eq!(pop_mag.get(), None);
    assert_eq!(pop_mag.get(), None);
    assert_eq!(pop_mag.len(), 0);

    rack.release_empty_magazine(Magazine(pop_mag));
}

#[test]
fn magazine_stack_smoke_test() {
    let mut rack = Rack::new();
    let mut stack = MagazineStack::new();

    // Push/pop shouldn't care about the magazines' polarity.
    stack.push(rack.allocate_empty_magazine::<false>());
    stack.push(rack.allocate_empty_magazine::<true>());

    assert!(stack.pop::<false>().is_some());

    stack.push(rack.allocate_empty_magazine::<true>());
    assert!(stack.pop::<true>().is_some());
    assert!(stack.pop::<false>().is_some());

    assert!(stack.pop::<true>().is_none());
}

#[test]
fn smoke_test_rack() {
    let mut rack = Rack::new();
    let mag = rack.allocate_empty_magazine::<true>();

    rack.release_empty_magazine(mag);
}

#[test]
fn magazine_without_storage() {
    // A pop magazine without storage is always empty, and a push
    // magazine without storage is always full.
    let mut pop: PopMagazine = Magazine::default();
    assert!(!pop.has_storage());
    assert!(pop.is_empty());
    assert!(!pop.is_full());
    assert_eq!(pop.get(), None);
    assert!(pop.0.check_rep());

    let mut push: PushMagazine = Magazine::default();
    assert!(!push.has_storage());
    assert!(push.is_full());
    assert!(!push.is_empty());
    let spilled = push.put(LinearRef::from_address(64)).expect("should spill");
    assert_eq!(spilled.get(), 64);
    assert!(push.0.check_rep());
    assert_eq!(push.0.len(), MAGAZINE_SIZE as usize);
    assert_eq!(pop.0.len(), 0);
    assert!(pop.0.nth(0).is_none());
}

#[test]
fn magazine_polarity() {
    let mut rack = Rack::new();
    let mut push = rack.allocate_empty_magazine::<true>();
    assert!(push.is_empty());
    assert!(!push.is_full());

    // A push magazine only grows.
    let mut len = 0;
    for i in 1..=40 {
        let spilled = push.put(LinearRef::from_address(8 * i));
        assert_eq!(spilled.is_some(), i > MAGAZINE_SIZE as usize);
        assert!(push.0.len() >= len);
        len = push.0.len();
    }
    assert!(push.is_full());
    assert_eq!(push.0.nth(0).map(|r| r.get()), Some(8));
    assert_eq!(push.0.nth(29).map(|r| r.get()), Some(240));

    // The conversion keeps the contents.
    let mut pop = Magazine(push.0.into_pop());
    assert!(pop.is_full());
    assert_eq!(pop.0.len(), MAGAZINE_SIZE as usize);

    // A pop magazine only shrinks.
    let mut len = pop.0.len();
    for i in (1..=MAGAZINE_SIZE as usize).rev() {
        assert_eq!(pop.get().map(|r| r.get()), Some(8 * i));
        assert!(pop.0.len() <= len);
        len = pop.0.len();
    }
    assert!(pop.is_empty());
    assert_eq!(pop.get(), None);
}

#[test]
fn magazine_commit_populated() {
    let mut rack = Rack::new();
    let mut mag = rack.allocate_empty_magazine::<false>().0;
    assert_eq!(mag.get_unpopulated(), MAGAZINE_SIZE as usize);

    mag.commit_populated(vec![LinearRef::from_address(16), LinearRef::from_address(32)]);
    assert_eq!(mag.len(), 2);
    assert_eq!(mag.get_unpopulated(), MAGAZINE_SIZE as usize - 2);
    mag.commit_populated(vec![LinearRef::from_address(48)]);
    assert_eq!(mag.get().map(|r| r.get()), Some(48));
    assert_eq!(mag.get().map(|r| r.get()), Some(32));
    assert_eq!(mag.get().map(|r| r.get()), Some(16));
    assert_eq!(mag.get(), None);

    let mut dummy: MagazineImpl<false> = MagazineImpl::default();
    assert_eq!(dummy.get_unpopulated(), 0);
    dummy.commit_populated(Vec::new());
    assert_eq!(dummy.len(), 0);
}

#[test]
fn magazine_stack_is_lifo() {
    let mut rack = Rack::new();
    let mut stack = MagazineStack::new();

    for i in 1..=3 {
        let mut mag = rack.allocate_empty_magazine::<true>();
        for j in 0..i {
            assert_eq!(mag.put(LinearRef::from_address(100 * i + j)), None);
        }
        stack.push(mag);
    }
    // A magazine without storage leaves the stack alone.
    stack.push(PushMagazine::default());

    let mut top = stack.try_pop::<false>().expect("should pop");
    assert_eq!(top.0.len(), 3);
    assert_eq!(top.get().map(|r| r.get()), Some(302));
    let middle = stack.pop::<true>().expect("should pop");
    assert_eq!(middle.0.len(), 2);
    assert_eq!(middle.0.nth(1).map(|r| r.get()), Some(201));
    let bottom = stack.pop::<false>().expect("should pop");
    assert_eq!(bottom.0.len(), 1);
    assert!(stack.try_pop::<false>().is_none());
    assert!(stack.pop::<true>().is_none());
}

#[test]
fn rack_recycles_storage() {
    let mut rack = Rack::new();
    let mut mag = rack.allocate_empty_magazine::<true>();
    assert!(mag.has_storage());
    assert!(mag.is_empty());
    assert_eq!(mag.put(LinearRef::from_address(8)), None);
    let mut pop = Magazine(mag.0.into_pop());
    assert_eq!(pop.get().map(|r| r.get()), Some(8));
    rack.release_empty_magazine(pop);

    let again = rack.allocate_empty_magazine::<false>();
    assert!(again.has_storage());
    assert!(again.is_empty());
    // A magazine without storage has nothing to recycle.
    rack.release_empty_magazine(PushMagazine::default());
    rack.release_empty_magazine(again);
    assert!(rack.allocate_empty_magazine::<true>().is_empty());
}

#[test]
fn local_magazine_cache() {
    let mut rack = Rack::new();
    let mut cache = LocalMagazineCache::Nothing;
    assert!(cache.steal_full().is_none());
    assert!(cache.steal_empty().is_none());

    // A magazine without storage cannot be cached.
    let returned = cache.populate(PopMagazine::default()).expect("should come back");
    assert!(!returned.has_storage());
    assert!(matches!(cache, LocalMagazineCache::Nothing));

    // Neither can a partial magazine.
    let mut partial = rack.allocate_empty_magazine::<true>();
    assert_eq!(partial.put(LinearRef::from_address(8)), None);
    let returned = cache.populate(partial).expect("should come back");
    assert_eq!(returned.0.len(), 1);
    assert!(matches!(cache, LocalMagazineCache::Nothing));

    // An empty magazine can.
    assert!(cache.populate(rack.allocate_empty_magazine::<true>()).is_none());
    assert!(matches!(cache, LocalMagazineCache::Empty(_)));
    assert!(cache.steal_full().is_none());

    // A full magazine takes its place.
    let mut full = rack.allocate_empty_magazine::<true>();
    for i in 1..=MAGAZINE_SIZE as usize {
        assert_eq!(full.put(LinearRef::from_address(8 * i)), None);
    }
    let evicted = cache.populate(full).expect("should evict");
    assert!(evicted.has_storage());
    assert!(evicted.is_empty());
    assert!(matches!(cache, LocalMagazineCache::Full(_)));
    assert!(cache.steal_empty().is_none());

    let mut stolen = cache.steal_full().expect("should steal");
    assert!(matches!(cache, LocalMagazineCache::Nothing));
    assert!(stolen.is_full());
    assert_eq!(stolen.get().map(|r| r.get()), Some(240));

    assert!(cache.populate(evicted).is_none());
    let stolen = cache.steal_empty().expect("should steal");
    assert!(stolen.is_empty());
    assert!(matches!(cache, LocalMagazineCache::Nothing));
}
