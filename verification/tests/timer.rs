use bare_rt::timer::{Event, Timer};

fn yes() -> bool {
    true
}

fn no() -> bool {
    false
}

fn deadlines(timer: &mut Timer<fn() -> bool>) -> Vec<u64> {
    // Drain the scheduled timers, the earliest first.
    let mut list = Vec::new();
    while let Some(event) = timer.expire(u64::MAX) {
        list.push(event.deadline);
    }
    list
}

#[test]
fn schedule_sets_deadline_and_period() {
    let mut timer: Timer<fn() -> bool> = Timer::new();
    timer.schedule(1000, 250, no);
    assert!(timer.expire(u64::MAX).is_none());
    timer.gather();
    let event: Event<fn() -> bool> = timer.expire(1250).unwrap();
    assert_eq!(event.deadline, 1250);
    assert_eq!(event.period, 250);
    assert!(timer.expire(u64::MAX).is_none());
}

#[test]
fn gather_orders_by_deadline() {
    let mut timer: Timer<fn() -> bool> = Timer::new();
    timer.schedule(0, 300, no);
    timer.schedule(0, 100, no);
    timer.schedule(0, 200, no);
    timer.gather();
    timer.schedule(0, 150, no);
    timer.schedule(0, 400, no);
    timer.gather();
    assert_eq!(deadlines(&mut timer), vec![100, 150, 200, 300, 400]);
}

#[test]
fn expire_waits_for_the_deadline() {
    let mut timer: Timer<fn() -> bool> = Timer::new();
    timer.schedule(0, 100, no);
    timer.gather();
    assert!(timer.expire(99).is_none());
    assert!(timer.expire(100).is_some());
    assert!(timer.expire(100).is_none());
}

#[test]
fn renew_keeps_the_phase_of_the_timer() {
    let mut timer: Timer<fn() -> bool> = Timer::new();
    // deadline 130, period 100, handled late at 350: 300 + 30 + 100
    timer.renew(350, Event { deadline: 130, period: 100, handler: no });
    timer.gather();
    assert_eq!(deadlines(&mut timer), vec![430]);
}

#[test]
fn tick_calls_what_expired_and_renews_on_request() {
    let mut timer: Timer<fn() -> bool> = Timer::new();
    timer.schedule(0, 100, yes);
    timer.schedule(0, 150, no);
    timer.schedule(0, 500, yes);
    timer.tick(200);
    // the timer of 500 is not due; that of 150 is gone; that of 100 waits
    // to be scheduled for 300
    timer.tick(200);
    assert_eq!(deadlines(&mut timer), vec![300, 500]);
}
