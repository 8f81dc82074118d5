use wsm_toys::lru::LRUMap;

const CAP: usize = 4;

struct TestCache {
    // Box<i32> keys check that owned, heap-allocated keys work.
    inner: LRUMap<Box<i32>, ()>,
}

impl Default for TestCache {
    fn default() -> Self {
        TestCache { inner: LRUMap::with_capacity(CAP) }
    }
}

impl TestCache {
    fn insert(&mut self, x: i32) {
        self.inner.insert(Box::new(x), ());
    }
    fn len(&self) -> usize {
        self.inner.len()
    }
    fn clear(&mut self) {
        self.inner.clear();
    }
}

fn items(lru: &TestCache) -> Vec<i32> {
    let lru = &lru.inner;
    (0..lru.len()).map(|i| **lru.key_at(i)).collect()
}

#[test]
fn insert() {
    let mut cache = TestCache::default();
    cache.insert(1);
    assert_eq!(cache.len(), 1);
    cache.insert(2);
    assert_eq!(cache.len(), 2);
    cache.insert(3);
    assert_eq!(cache.len(), 3);
    cache.insert(4);
    assert_eq!(cache.len(), 4);
    assert_eq!(items(&cache), [4, 3, 2, 1], "Ordered from most- to least-recent.");

    cache.insert(5);
    assert_eq!(cache.len(), 4);
    assert_eq!(items(&cache), [5, 4, 3, 2], "Least-recently-used item evicted.");

    cache.insert(6);
    cache.insert(7);
    cache.insert(8);
    cache.insert(9);
    assert_eq!(items(&cache), [9, 8, 7, 6], "Least-recently-used item evicted.");
}

#[test]
fn clear() {
    let mut cache = TestCache::default();
    for i in 1..5 {
        cache.insert(i);
    }
    cache.clear();
    assert_eq!(items(&cache), [], "all items evicted");

    cache.insert(1);
    cache.insert(2);
    cache.insert(3);
    cache.insert(4);
    assert_eq!(items(&cache), [4, 3, 2, 1]);
    cache.clear();
    assert_eq!(items(&cache), [], "all items evicted again");
}

#[test]
fn lru_get_after_insert_gives_value_and_refreshes() {
    let mut m: LRUMap<u64, &str> = LRUMap::with_capacity(3);
    m.insert(1, "one");
    m.insert(2, "two");
    m.insert(3, "three");
    assert_eq!(m.get(&1), Some(&"one"));
    // 1 is now the most recent; inserting 4 evicts 2.
    m.insert(4, "four");
    assert_eq!(m.get(&2), None);
    assert_eq!(m.get(&3), Some(&"three"));
    assert_eq!(m.get(&4), Some(&"four"));
    assert_eq!(m.len(), 3);
    assert_eq!(*m.key_at(0), 4);
    assert_eq!(*m.key_at(1), 3);
    assert_eq!(*m.key_at(2), 1);
}

#[test]
fn lru_insert_existing_key_overwrites() {
    let mut m: LRUMap<u64, u64> = LRUMap::with_capacity(2);
    m.insert(7, 70);
    m.insert(8, 80);
    m.insert(7, 71);
    assert_eq!(m.len(), 2);
    assert_eq!(*m.key_at(0), 7);
    assert_eq!(m.get(&7), Some(&71));
    if let Some(v) = m.get_mut(&8) {
        *v += 1;
    }
    assert_eq!(m.get(&8), Some(&81));
    assert!(m.get_mut(&9).is_none());
}

#[test]
fn lru_empty_and_capacity_one() {
    let mut m: LRUMap<u64, u64> = LRUMap::with_capacity(1);
    assert!(m.is_empty());
    assert_eq!(m.len(), 0);
    m.insert(1, 10);
    assert!(!m.is_empty());
    m.insert(2, 20);
    assert_eq!(m.len(), 1);
    assert_eq!(m.get(&1), None);
    assert_eq!(m.get(&2), Some(&20));
}

#[test]
fn lru_hashed_lookup_follows_given_hash() {
    let mut m: LRUMap<u64, u64> = LRUMap::with_capacity(4);
    m.insert_hashed(5, 50, 123);
    m.insert_hashed(6, 60, 123);
    assert_eq!(m.get_hashed(&5, 123), Some(&50));
    assert_eq!(m.get_hashed(&5, 124), None);
    m.insert_hashed(5, 51, 999);
    assert_eq!(m.len(), 3);
    assert_eq!(m.get_hashed(&5, 123), Some(&50));
    assert_eq!(m.get_hashed(&5, 999), Some(&51));
}
