use camos::spinlock::{acquire, release, BusyFlag, SharedFlag, SpinLock};

/// Tests the interface of the spinlock, but nothing about the concurrency
/// properties of it
#[test]
fn spinlock_usage() {
    let mut counter_lock: SpinLock<u64> = SpinLock::new(0);

    for _ in 0..100 {
        let mut counter = counter_lock.lock();

        *counter.deref_mut() += 1;

        counter.unlock();
    }

    assert_eq!(*counter_lock.lock().deref(), 100);
}

#[test]
fn spinlock_keeps_what_the_guard_left() {
    let mut lock: SpinLock<Vec<u8>> = SpinLock::new(vec![1]);

    let mut guard = lock.lock();
    assert_eq!(guard.deref(), &vec![1]);
    guard.deref_mut().push(2);
    assert_eq!(guard.deref(), &vec![1, 2]);
    guard.unlock();

    let guard = lock.lock();
    assert_eq!(guard.deref(), &vec![1, 2]);
    guard.unlock();
}

/// The lock is taken once the other processor has given it up, and not before.
#[test]
fn lock_is_waited_for() {
    for turns in [0, 1, 5, 1000] {
        let mut flag = BusyFlag::new(turns);
        acquire(&mut flag);

        // It is taken now.
        assert_eq!(flag.compare_exchange(false, true), Err(true));
        assert!(release(&mut flag));
        assert!(!release(&mut flag));
    }

    let mut flag = BusyFlag::new(2);
    assert_eq!(flag.compare_exchange(false, true), Err(true));
    assert_eq!(flag.compare_exchange(false, true), Err(true));
    assert_eq!(flag.compare_exchange(false, true), Ok(false));
}
