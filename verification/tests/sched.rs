use bare_rt::audio::WillSwap;
use bare_rt::pixvalve::PixelValve;
use bare_rt::sched::chan::{channel, Polled, Receiver, Sender};
use bare_rt::sched::{JoinHandle, Notify, Relent, Scheduler};
use bare_rt::video::VerticalSync;

#[test]
fn relent_is_pending_once() {
    let mut relent = Scheduler::relent();
    assert!(matches!(relent.poll(), (Polled::Pending, true)));
    assert!(matches!(relent.poll(), (Polled::Ready(()), false)));
    assert!(matches!(relent.poll(), (Polled::Ready(()), false)));
    let mut other = Relent::new();
    assert!(matches!(other.poll(), (Polled::Pending, true)));
}

#[test]
fn channel_delivers_the_value_and_wakes_the_waiter() {
    let (tx, mut rx) = channel::<u32>();
    assert!(matches!(rx.poll(), Polled::Pending));
    assert!(rx.waiting);
    assert!(tx.send(Some(&mut rx), 9));
    assert!(!rx.waiting);
    assert!(matches!(rx.poll(), Polled::Ready(9)));
    assert!(matches!(rx.poll(), Polled::Ready(9)));
}

#[test]
fn channel_without_waiter_or_receiver_wakes_nobody() {
    let (tx, mut rx) = channel::<u8>();
    assert!(!tx.send(Some(&mut rx), 1));
    assert_eq!(rx.val, Some(1));
    let tx: Sender<u8> = Sender::new();
    assert!(!tx.send(None, 2));
    let rx: Receiver<u8> = Receiver::new();
    assert_eq!(rx.val, None);
}

#[test]
fn join_handle_polls_its_receiver() {
    let (tx, rx) = channel::<i64>();
    let mut handle = JoinHandle::new(rx);
    assert!(matches!(handle.poll(), Polled::Pending));
    assert!(tx.send(Some(&mut handle.rx), -3));
    assert!(matches!(handle.poll(), Polled::Ready(-3)));
}

#[test]
fn scheduler_numbers_tasks_from_one_and_notifies() {
    let mut sched = Scheduler::new();
    assert_eq!(sched.spawn(), (1, Notify::Caller));
    assert_eq!(sched.spawn(), (2, Notify::Everybody));
    assert_eq!(sched.spawn(), (3, Notify::Everybody));
    assert_eq!(sched.take(), Some(1));
    assert_eq!(sched.settle(1, false), Notify::Everybody);
    assert_eq!(sched.take(), Some(2));
    assert_eq!(sched.settle(2, true), Notify::Caller);
    assert_eq!(sched.take(), Some(3));
    assert_eq!(sched.settle(3, true), Notify::Nobody);
    assert_eq!(sched.take(), None);
}

#[test]
fn wake_schedules_a_task_that_is_not_active() {
    let mut sched = Scheduler::new();
    let (id, _) = sched.spawn();
    // active already: in the queue
    assert_eq!(sched.wake(id), Notify::Nobody);
    assert_eq!(sched.take(), Some(id));
    // woken while it is polled
    assert_eq!(sched.wake(id), Notify::Caller);
    assert_eq!(sched.wake(id), Notify::Nobody);
    assert_eq!(sched.settle(id, false), Notify::Caller);
    assert_eq!(sched.take(), Some(id));
    assert_eq!(sched.take(), None);
    let (other, _) = sched.spawn();
    assert_eq!(other, 2);
    assert_eq!(sched.wake(id), Notify::Everybody);
}

#[test]
fn pixel_valve_dispatches_to_all_handlers() {
    let count = std::cell::Cell::new(0u32);
    let bump = || count.set(count.get() + 1);
    let mut pv = PixelValve::new();
    pv.register_vsync(&bump);
    // no event: nothing is called, nothing is added
    assert!(!pv.vsync(0x0F));
    assert_eq!(count.get(), 0);
    assert!(pv.vsync(0x10));
    assert_eq!(count.get(), 1);
    pv.register_vsync(&bump);
    assert!(pv.vsync(0xFFFF_FFFF));
    assert_eq!(count.get(), 3);
}

#[test]
fn swap_futures_are_ready_when_the_counter_moved() {
    let fut = WillSwap::new(7);
    assert!(matches!(fut.poll(7), Polled::Pending));
    assert!(matches!(fut.poll(8), Polled::Ready(())));
    let fut = VerticalSync::new(3);
    assert!(matches!(fut.poll(3), Polled::Pending));
    assert!(matches!(fut.poll(2), Polled::Ready(())));
}
