use bare_rt::cpu::{Load, COUNT};
use bare_rt::sync::advisor::Advisor;
use bare_rt::sync::lazy::Lazy;
use bare_rt::sync::lock::Lock;
use bare_rt::sync::rwlock::RwLock;

#[test]
fn advisor_is_free_at_first() {
    let advisor = Advisor::new();
    assert_eq!(advisor.held_by(), None);
    assert_eq!(COUNT, 4);
}

#[test]
fn advisor_grants_the_lock_to_one_cpu() {
    let mut advisor = Advisor::new();
    assert!(advisor.lock(2));
    assert_eq!(advisor.held_by(), Some(2));
    assert!(!advisor.lock(1));
    assert_eq!(advisor.held_by(), Some(2));
    advisor.unlock(2);
    assert_eq!(advisor.held_by(), None);
    assert!(advisor.lock(1));
    assert_eq!(advisor.held_by(), Some(1));
}

#[test]
fn lock_guards_its_content() {
    let mut lock = Lock::new(5u32);
    {
        let mut guard = lock.lock(0).unwrap();
        assert_eq!(*guard.get(), 5);
        *guard.get_mut() = 7;
        assert_eq!(guard.affinity, 0);
        guard.release();
    }
    assert_eq!(lock.advisor.held_by(), None);
    assert_eq!(lock.content, 7);
}

#[test]
fn lock_that_is_held_gives_no_guard() {
    let mut lock = Lock::new(5u32);
    let guard = lock.lock(3).unwrap();
    // the hold stays when the guard is lost
    std::mem::forget(guard);
    assert_eq!(lock.advisor.held_by(), Some(3));
    assert!(lock.lock(1).is_none());
    assert_eq!(lock.content, 5);
}

#[test]
fn rwlock_counts_readers_and_refuses_writers_meanwhile() {
    let mut lock = RwLock::new(String::from("text"));
    let reader = lock.rlock(0).unwrap();
    assert_eq!(reader.get(), "text");
    std::mem::forget(reader);
    assert_eq!(lock.share_count, 1);
    assert_eq!(lock.advisor.held_by(), None);
    assert!(lock.wlock(1).is_none());
    {
        let reader = lock.rlock(2).unwrap();
        assert_eq!(reader.lock.share_count, 2);
        reader.release();
    }
    assert_eq!(lock.share_count, 1);
    lock.share_count = 0;
    {
        let mut writer = lock.wlock(1).unwrap();
        writer.get_mut().push_str(" more");
        assert_eq!(writer.get(), "text more");
        assert_eq!(writer.lock.advisor.held_by(), Some(1));
        writer.release();
    }
    assert_eq!(lock.advisor.held_by(), None);
    assert_eq!(lock.content, "text more");
}

#[test]
fn rwlock_that_is_held_refuses_readers_and_writers() {
    let mut lock = RwLock::new(1u8);
    let writer = lock.wlock(0).unwrap();
    std::mem::forget(writer);
    assert!(lock.rlock(1).is_none());
    assert!(lock.wlock(1).is_none());
    assert_eq!(lock.share_count, 0);
}

#[test]
fn lazy_calls_its_initializer_once() {
    let calls = std::cell::Cell::new(0u32);
    let mut lazy = Lazy::new(|| {
        calls.set(calls.get() + 1);
        41 + calls.get()
    });
    assert!(lazy.content.is_none());
    assert_eq!(*lazy.get(), 42);
    assert_eq!(*lazy.get(), 42);
    assert_eq!(calls.get(), 1);
}

#[test]
fn load_reports_active_and_idle_time() {
    let mut load = Load::new();
    load.reset(1000);
    // idle from 1200 to 1500
    load.idle_since(1500, 1200);
    // idle since before the reset: only the time after it counts
    load.idle_since(1600, 900);
    assert_eq!(load.ref_time(), 1000);
    assert_eq!(load.idle_time(), 900);
    assert_eq!(load.report(2000), (4 * 1000 - 900, 900));
    load.reset(2000);
    assert_eq!(load.ref_time(), 2000);
    assert_eq!(load.idle_time(), 0);
    assert_eq!(load.report(2500), (2000, 0));
}
