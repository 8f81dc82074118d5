use wsm_toys::bath::{BathTrunk, Comment};
use wsm_toys::locallock::{LocalLock, LockPoll};
use wsm_toys::plain::MyCow;

#[test]
fn locallock_queues_waiters_in_order() {
    let mut lock = LocalLock::new();
    assert!(lock.try_lock());
    assert!(!lock.try_lock());
    {
        let mut l = lock.lock();
        assert_eq!(l.poll(7), LockPoll::Pending);
        assert_eq!(l.poll(8), LockPoll::Pending);
    }
    // Unlocking hands the lock on to the first waiter's wake-up.
    assert_eq!(lock.unlock(), Some(7));
    assert_eq!(lock.try_unlock(), None);
    {
        let mut l = lock.lock();
        assert_eq!(l.poll(9), LockPoll::Ready);
    }
    assert_eq!(lock.try_unlock(), Some(Some(8)));
    assert!(lock.try_lock());
    assert_eq!(lock.unlock(), None);
    let d = LocalLock::default();
    let mut d = d;
    assert!(d.try_lock());
}

#[test]
fn plain_cow_copies_on_write() {
    let x = 5u32;
    let mut c = MyCow::Borrow(&x);
    assert_eq!(*c.value(), 5);
    *c.value_mut() += 1;
    assert!(matches!(c, MyCow::Owned(6)));
    assert_eq!(x, 5);

    let mut y = 10u64;
    {
        let mut m = MyCow::BorrowMut(&mut y);
        *m += 1;
        assert_eq!(m.into_inner(), 11);
    }
    assert_eq!(y, 11);
    assert_eq!(MyCow::Owned(3i8).into_inner(), 3);
}

#[test]
fn bath_records_hold_fields() {
    let bt = BathTrunk { building: "114".to_string(), cord: (1, 2) };
    assert_eq!(bt.cord, (1, 2));
    let c = Comment { btid: 0, score: 9, time: 114514, message: "nice bathtrunk!".to_string() };
    assert_eq!(c.message, "nice bathtrunk!");
    assert!(format!("{:?}", bt).contains("114"));
}
