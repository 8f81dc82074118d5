use std::hint::black_box;
use tokio::runtime::Builder;
use tokio::task::{spawn_local, yield_now, LocalSet};
use wsm_toys::heappool::Heap;
use wsm_toys::localpool;
use wsm_toys::pool;
use wsm_toys::thinpool;

#[test]
fn localpool_test_value() {
    let s = String::from("hello");
    let mut p = localpool::with_value(&s);
    let b = p.get();
    assert_eq!(*b, "hello");
    p.put(b);
}

#[test]
fn test_gen() {
    let mut x = 1;
    let mut p = localpool::Pool::with_generator(|| {
        let y = x;
        x += 1;
        y
    });
    let b = p.get();
    assert_eq!(*b, 1);
    p.put(b);
}

#[test]
fn test_clone() {
    let p = localpool::new::<i32>();
    let mut p1 = p.clone();
    let b = p1.get();
    p1.put(b);
}

#[test]
fn test_reserve_release() {
    let mut p = localpool::new::<i32>();
    let b = p.get();
    black_box(*b);
    p.put(b);
    p.release(2); // releases the only idle object
    let b = p.get();
    black_box(*b);
    p.put(b);
    p.reserve(2);
    assert_eq!(p.idle(), 3);
    p.release(2);
    assert_eq!(p.idle(), 1);
    let b = p.get();
    black_box(*b);
    p.put(b);
}

#[test]
fn localpool_returned_object_is_reused_first() {
    let mut n = 0;
    let mut p = localpool::Pool::with_generator(|| {
        n += 1;
        n
    });
    let a = p.get();
    let b = p.get();
    assert_eq!((*a, *b), (1, 2));
    p.put(a);
    p.put(b);
    assert_eq!(p.idle(), 2);
    let c = p.get();
    assert_eq!(*c, 2);
    assert_eq!(p.idle(), 1);
}

#[test]
fn lib_test_value() {
    let s = String::from("hello");
    let sref = &s;
    let mut p = pool::with_value(sref);
    let b = p.get();
    assert_eq!(*b, "hello");
    p.put(b);
}

#[test]
fn pool_prefills_four_objects() {
    let mut counter = 0;
    let mut p = pool::Pool::with_generator(|| {
        counter += 1;
        counter
    });
    // Four objects are made up front; the last made is handed out first.
    let b = p.get();
    assert_eq!(*b, 4);
    let c = p.get();
    assert_eq!(*c, 3);
    p.put(c);
    let d = p.get();
    assert_eq!(*d, 3);
    p.put(d);
    p.put(b);
}

#[test]
fn thinpool_hands_out_lowest_idle_slot() {
    let mut n = 0u32;
    let mut p = thinpool::Pool::with_generator(|| {
        n += 1;
        n
    });
    let a = p.get();
    let b = p.get();
    assert_eq!(*p.value(&a), 1);
    assert_eq!(*p.value(&b), 2);
    // 64 objects were made for the bundle; 62 are idle.
    assert_eq!(p.idle(), 62);
    *p.value_mut(&b) = 20;
    p.put(a);
    assert_eq!(p.idle(), 63);
    let c = p.get();
    assert_eq!(*p.value(&c), 1);
    assert_eq!(*p.value(&b), 20);
    p.put(b);
    p.put(c);
    assert_eq!(p.idle(), 64);
}

#[test]
fn thinpool_opens_new_bundle_when_full() {
    let mut p = thinpool::new::<u8>();
    let mut boxes = Vec::new();
    for _ in 0..64 {
        boxes.push(p.get());
    }
    assert_eq!(p.idle(), 0);
    let extra = p.get();
    assert_eq!(p.idle(), 63);
    p.put(extra);
    for b in boxes {
        p.put(b);
    }
    assert_eq!(p.idle(), 128);
    let v = thinpool::with_value(7u8);
    let mut v = v;
    let x = v.get();
    assert_eq!(*v.value(&x), 7);
}

#[test]
fn _test_init() {
    let mut p = Heap::<i32>::new(10);
    let g1 = p.get().unwrap();
    let g2 = p.get().unwrap();
    println!("{}", g1);
    println!("{}", g2);
    drop(p);
}

#[test]
fn heappool_reuses_freed_slots() {
    // Slots of 4 bytes; a new slot is taken while the top is below 8.
    let mut p = Heap::<i32>::new(8);
    assert_eq!(p.get(), Some(0));
    assert_eq!(p.get(), Some(4));
    assert_eq!(p.get(), None);
    p.put(0);
    assert_eq!(p.get(), Some(0));
    // Freeing the slot under the top lowers the top past the freed slot below.
    p.put(0);
    p.put(4);
    assert_eq!(p.get(), Some(0));
    assert_eq!(p.get(), Some(4));
    assert_eq!(p.get(), None);
}

#[test]
fn heappool_prefers_lower_addresses() {
    let mut h = Heap::<u8>::new(3);
    let a = h.get().unwrap();
    let b = h.get().unwrap();
    let _c = h.get().unwrap();
    h.put(a);
    h.put(b);
    assert_eq!(h.get(), Some(a));
    assert_eq!(h.get(), Some(b));
    assert_eq!(h.get(), None);
}

#[test]
fn test_tokio() {
    async fn sleepygreeting<G: FnMut() -> i32>(mut pool: localpool::Pool<i32, G>) {
        for _ in 0..5 {
            let x = pool.get();
            if rand::random::<bool>() {
                yield_now().await;
            }
            println!("Get {} from pool!", *x);
            pool.put(x);
        }
    }
    async fn tokio_main() {
        let mut ipool = 0;
        let pool = localpool::Pool::with_generator(move || {
            ipool += 1;
            ipool
        });
        let mut tasks = Vec::new();
        for _ in 0..5 {
            tasks.push(spawn_local(sleepygreeting(pool.clone())));
        }
        for t in tasks {
            let _ = t.await;
        }
    }
    Builder::new_current_thread()
        .enable_time()
        .build()
        .unwrap()
        .block_on(LocalSet::new().run_until(tokio_main()));
}
