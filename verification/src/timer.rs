//! Timer scheduler.
//!
//! Keeps the timers that were scheduled, finds those that expired at each
//! tick, and schedules again those whose handler asks for it. This is a best
//! effort scheduler: a tick that comes late calls the handler late, and a
//! handler that asks to be called again is called at the next multiple of
//! its period that lies ahead, counted from its first deadline.

use vstd::prelude::*;

verus! {

/// Timer event.
pub struct Event<H> {
    /// Event deadline.
    pub deadline: u64,
    /// Recurring period.
    pub period: u64,
    /// Event handler.
    pub handler: H,
}

/// Timer scheduler.
pub struct Timer<H> {
    /// Timers waiting to be scheduled.
    new_timers: Vec<Event<H>>,
    /// Scheduled timers, the latest deadline first.
    timers: Vec<Event<H>>,
}

/// Whether the deadlines never rise along the list.
pub open spec fn falling<H>(list: Seq<Event<H>>) -> bool {
    forall|i: int, j: int| 0 <= i < j < list.len() ==> later(list, i, j)
}

/// Whether the deadline of event `i` is not before that of event `j`.
pub open spec fn later<H>(list: Seq<Event<H>>, i: int, j: int) -> bool {
    list[i].deadline >= list[j].deadline
}

/// Index of the first event at or after index `k` whose deadline is at or
/// before `time`, or the length of the list if there is none.
pub open spec fn due_from<H>(list: Seq<Event<H>>, k: int, time: u64) -> int
    decreases list.len() - k,
{
    if k < 0 || k >= list.len() {
        list.len() as int
    } else if list[k].deadline <= time {
        k
    } else {
        due_from(list, k + 1, time)
    }
}

/// The list with the event put in before the first event that is due at the
/// new event's deadline, so that a falling list stays falling.
pub open spec fn enlisted<H>(list: Seq<Event<H>>, event: Event<H>) -> Seq<Event<H>> {
    list.insert(due_from(list, 0, event.deadline), event)
}

/// The scheduled timers after the first `n` of the waiting ones were put in
/// among them, one after the other.
pub open spec fn gathered<H>(armed: Seq<Event<H>>, waiting: Seq<Event<H>>, n: int) -> Seq<Event<H>>
    decreases n,
{
    if n <= 0 {
        armed
    } else {
        enlisted(gathered(armed, waiting, n - 1), waiting[n - 1])
    }
}

/// The deadline at which an event that expired is due again: the first time
/// after `now` that is a whole number of periods away from its deadline.
pub open spec fn renewed(now: int, deadline: int, period: int) -> int {
    now - now % period + deadline % period + period
}

/// What `due_from` finds in a falling list: every event before the result
/// has its deadline after `time`, every event from the result on has not.
pub proof fn lemma_due_from<H>(list: Seq<Event<H>>, k: int, time: u64)
    requires
        0 <= k <= list.len(),
        falling(list),
    ensures
        k <= due_from(list, k, time) <= list.len(),
        forall|m: int| k <= m < due_from(list, k, time) ==> (#[trigger] list[m]).deadline > time,
        forall|m: int|
            due_from(list, k, time) <= m < list.len() ==> (#[trigger] list[m]).deadline <= time,
    decreases list.len() - k,
{
    if k < list.len() {
        if list[k].deadline <= time {
            assert forall|m: int| k <= m < list.len() implies (#[trigger] list[m]).deadline
                <= time by {
                if m > k {
                    assert(later(list, k, m));
                }
            }
        } else {
            lemma_due_from(list, k + 1, time);
        }
    }
}

/// `due_from` finds an index of the list, or its length.
pub proof fn lemma_due_bounds<H>(list: Seq<Event<H>>, k: int, time: u64)
    requires
        0 <= k <= list.len(),
    ensures
        k <= due_from(list, k, time) <= list.len(),
    decreases list.len() - k,
{
    if k < list.len() && list[k].deadline > time {
        lemma_due_bounds(list, k + 1, time);
    }
}

/// Putting an event into a falling list gives a falling list.
#[verifier::rlimit(30)]
pub proof fn lemma_enlisted<H>(list: Seq<Event<H>>, event: Event<H>)
    requires
        falling(list),
    ensures
        falling(enlisted(list, event)),
        enlisted(list, event).len() == list.len() + 1,
{
    let at = due_from(list, 0, event.deadline);
    lemma_due_from(list, 0, event.deadline);
    let r = enlisted(list, event);
    assert forall|i: int, j: int| 0 <= i < j < r.len() implies later(r, i, j) by {
        if j < at {
            assert(later(list, i, j));
        } else if i > at {
            assert(later(list, i - 1, j - 1));
        } else if i == at {
            assert(list[j - 1].deadline <= event.deadline);
        } else if j == at {
            assert(list[i].deadline > event.deadline);
        } else {
            assert(later(list, i, j - 1));
        }
    }
}

/// Whether an event can be handled at `now`: its handler can be called, its
/// period is not zero, and the deadline at which it would be due again is a
/// time that the clock can show.
pub open spec fn fit<H: Fn() -> bool>(event: Event<H>, now: u64) -> bool {
    &&& event.period > 0
    &&& event.handler.requires(())
    &&& renewed(now as int, event.deadline as int, event.period as int) <= u64::MAX
}

/// Whether every event of the list can be handled at `now`.
pub open spec fn all_fit<H: Fn() -> bool>(list: Seq<Event<H>>, now: u64) -> bool {
    forall|i: int| 0 <= i < list.len() ==> fit(#[trigger] list[i], now)
}

/// An event that expired, as it is scheduled again at `now`.
pub open spec fn again<H>(event: Event<H>, now: u64) -> Event<H> {
    Event {
        deadline: renewed(now as int, event.deadline as int, event.period as int) as u64,
        period: event.period,
        handler: event.handler,
    }
}

/// Gathering events that can be handled gives events that can be handled.
#[verifier::rlimit(30)]
pub proof fn lemma_gathered_fit<H: Fn() -> bool>(
    armed: Seq<Event<H>>,
    waiting: Seq<Event<H>>,
    n: int,
    now: u64,
)
    requires
        0 <= n <= waiting.len(),
        all_fit(armed, now),
        all_fit(waiting, now),
    ensures
        all_fit(gathered(armed, waiting, n), now),
        gathered(armed, waiting, n).len() == armed.len() + n,
    decreases n,
{
    if n > 0 {
        lemma_gathered_fit(armed, waiting, n - 1, now);
        let list = gathered(armed, waiting, n - 1);
        let event = waiting[n - 1];
        let at = due_from(list, 0, event.deadline);
        let r = enlisted(list, event);
        lemma_due_bounds(list, 0, event.deadline);
        assert(fit(waiting[n - 1], now));
        assert forall|i: int| 0 <= i < r.len() implies fit(#[trigger] r[i], now) by {
            if i < at {
                assert(fit(list[i], now));
            } else if i > at {
                assert(fit(list[i - 1], now));
            }
        }
    }
}

impl<H: Fn() -> bool> Timer<H> {
    /// Tick handler: schedules the timers that wait for it, then calls the
    /// handlers of all the timers that expired at `now`, the earliest
    /// deadline first, and puts those whose handler asks for it among the
    /// waiting timers again.
    ///
    /// After the tick the scheduled timers are those that were not due. Each
    /// waiting timer is one of those that expired, due again.
    #[verifier::rlimit(30)]
    pub fn tick(&mut self, now: u64)
        requires
            old(self).wf(),
            all_fit(old(self).armed(), now),
            all_fit(old(self).waiting(), now),
        ensures
            final(self).wf(),
            final(self).armed() == ticked(old(self).armed(), old(self).waiting(), now),
            final(self).waiting().len() <= old(self).armed().len() + old(self).waiting().len()
                - final(self).armed().len(),
            forall|j: int|
                0 <= j < final(self).waiting().len() ==> came_due(
                    old(self).armed(),
                    old(self).waiting(),
                    now,
                    #[trigger] final(self).waiting()[j],
                ),
    {
        let ghost armed = self.timers@;
        let ghost waiting = self.new_timers@;
        self.gather();
        let ghost g = self.timers@;
        let ghost k = due_from(g, 0, now);
        proof {
            lemma_gathered_fit(armed, waiting, waiting.len() as int, now);
            lemma_due_from(g, 0, now);
        }
        let mut more: bool = true;
        while more
            invariant
                self.wf(),
                g == gathered(armed, waiting, waiting.len() as int),
                k == due_from(g, 0, now),
                all_fit(g, now),
                falling(g),
                g.len() == armed.len() + waiting.len(),
                k <= self.timers@.len() <= g.len(),
                self.timers@ == g.take(self.timers@.len() as int),
                !more ==> self.timers@.len() == k,
                self.new_timers@.len() + self.timers@.len() <= g.len(),
                forall|i: int| 0 <= i < k ==> (#[trigger] g[i]).deadline > now,
                forall|i: int| k <= i < g.len() ==> (#[trigger] g[i]).deadline <= now,
                forall|j: int|
                    0 <= j < self.new_timers@.len() ==> came_due(
                        armed,
                        waiting,
                        now,
                        #[trigger] self.new_timers@[j],
                    ),
            decreases self.timers@.len() + (if more { 1int } else { 0int }),
        {
            let ghost m = self.timers@.len() as int;
            let ghost before = self.new_timers@;
            match self.expire(now) {
                None => {
                    proof {
                        if m > k {
                            assert(self.timers@[k] == g[k]);
                        }
                    }
                    more = false;
                },
                Some(event) => {
                    proof {
                        assert(event == g[m - 1]);
                        assert(fit(g[m - 1], now));
                        assert(self.timers@ =~= g.take(m - 1));
                    }
                    let renew = (event.handler)();
                    if renew {
                        self.renew(now, event);
                        proof {
                            assert(self.new_timers@.last() == again(g[m - 1], now));
                            assert forall|j: int|
                                0 <= j < self.new_timers@.len() implies came_due(
                                armed,
                                waiting,
                                now,
                                #[trigger] self.new_timers@[j],
                            ) by {
                                if j < before.len() {
                                    assert(self.new_timers@[j] == before[j]);
                                }
                            }
                        }
                    }
                },
            }
        }
        proof {
            assert(self.timers@ == g.take(k));
        }
    }
}

/// The scheduled timers after a tick at `now`: the timers that were
/// scheduled and those that waited, gathered, without those that were due.
pub open spec fn ticked<H>(armed: Seq<Event<H>>, waiting: Seq<Event<H>>, now: u64) -> Seq<Event<H>> {
    let all = gathered(armed, waiting, waiting.len() as int);
    all.take(due_from(all, 0, now))
}

/// Whether `event` is one of the timers that a tick at `now` found due,
/// scheduled again.
pub open spec fn came_due<H>(
    armed: Seq<Event<H>>,
    waiting: Seq<Event<H>>,
    now: u64,
    event: Event<H>,
) -> bool {
    let all = gathered(armed, waiting, waiting.len() as int);
    exists|i: int|
        due_from(all, 0, now) <= i < all.len() && event == again(#[trigger] all[i], now)
}

impl<H> Timer<H> {
    /// The timers waiting to be scheduled, in the order in which they came.
    pub closed spec fn waiting(&self) -> Seq<Event<H>> {
        self.new_timers@
    }

    /// The scheduled timers, the latest deadline first.
    pub closed spec fn armed(&self) -> Seq<Event<H>> {
        self.timers@
    }

    /// Whether the scheduled timers are in order.
    pub open spec fn wf(&self) -> bool {
        falling(self.armed())
    }

    /// Creates and initializes a new timer scheduler.
    pub fn new() -> (timer: Timer<H>)
        ensures
            timer.wf(),
            timer.waiting() == Seq::<Event<H>>::empty(),
            timer.armed() == Seq::<Event<H>>::empty(),
    {
        Timer { new_timers: Vec::new(), timers: Vec::new() }
    }

    /// Registers a handler to be called after a time interval.
    ///
    /// * `now`: Current time in milliseconds.
    /// * `interval`: Minimum time interval in milliseconds between the
    ///   registration and the first handler call.
    /// * `handler`: Handler to be called after the timer expires.  Returns a
    ///   boolean indicating whether the timer should be rescheduled.
    pub fn schedule(&mut self, now: u64, interval: u64, handler: H)
        requires
            now + interval <= u64::MAX,
        ensures
            final(self).armed() == old(self).armed(),
            final(self).waiting() == old(self).waiting().push(
                (Event { deadline: (now + interval) as u64, period: interval, handler }),
            ),
    {
        let deadline: u64 = now + interval;
        let event = Event { deadline, period: interval, handler };
        self.new_timers.push(event);
    }

    /// Puts an event in among the scheduled timers, before the first that
    /// is due at its deadline.
    #[verifier::loop_isolation(false)]
    #[verifier::rlimit(30)]
    fn enlist(&mut self, event: Event<H>)
        requires
            old(self).wf(),
        ensures
            final(self).wf(),
            final(self).armed() == enlisted(old(self).armed(), event),
            final(self).waiting() == old(self).waiting(),
    {
        let ghost list = self.timers@;
        let mut at: usize = 0;
        while at < self.timers.len() && self.timers[at].deadline > event.deadline
            invariant
                0 <= at <= list.len(),
                self.timers@ == list,
                self.new_timers@ == old(self).new_timers@,
                due_from(list, at as int, event.deadline) == due_from(list, 0, event.deadline),
            decreases list.len() - at,
        {
            at = at + 1;
        }
        proof {
            lemma_enlisted(list, event);
        }
        self.timers.insert(at, event);
    }

    /// Moves the timers that wait to be scheduled in among the scheduled
    /// ones.
    #[verifier::loop_isolation(false)]
    #[verifier::rlimit(30)]
    pub fn gather(&mut self)
        requires
            old(self).wf(),
        ensures
            final(self).wf(),
            final(self).armed() == gathered(
                old(self).armed(),
                old(self).waiting(),
                old(self).waiting().len() as int,
            ),
            final(self).waiting() == Seq::<Event<H>>::empty(),
    {
        let ghost armed = self.timers@;
        let ghost waiting = self.new_timers@;
        let mut fresh: Vec<Event<H>> = Vec::new();
        fresh.append(&mut self.new_timers);
        let mut rest: Vec<Event<H>> = Vec::new();
        // take them from the back, and put them in from the front
        while fresh.len() > 0
            invariant
                self.wf(),
                self.timers@ == armed,
                self.new_timers@ == Seq::<Event<H>>::empty(),
                fresh@.len() + rest@.len() == waiting.len(),
                fresh@ == waiting.take(fresh@.len() as int),
                forall|i: int|
                    0 <= i < rest@.len() ==> #[trigger] rest@[i] == waiting[waiting.len() - 1 - i],
            decreases fresh@.len(),
        {
            let event = fresh.pop().unwrap();
            rest.push(event);
        }
        let ghost mut n: int = 0;
        while rest.len() > 0
            invariant
                self.wf(),
                0 <= n <= waiting.len(),
                n + rest@.len() == waiting.len(),
                self.new_timers@ == Seq::<Event<H>>::empty(),
                self.timers@ == gathered(armed, waiting, n),
                forall|i: int|
                    0 <= i < rest@.len() ==> #[trigger] rest@[i] == waiting[waiting.len() - 1 - i],
            decreases rest@.len(),
        {
            let event = rest.pop().unwrap();
            self.enlist(event);
            proof {
                n = n + 1;
            }
        }
    }

    /// Takes the scheduled timer that is due first, if it is due at `now`.
    #[verifier::rlimit(30)]
    pub fn expire(&mut self, now: u64) -> (event: Option<Event<H>>)
        requires
            old(self).wf(),
        ensures
            final(self).wf(),
            final(self).waiting() == old(self).waiting(),
            event is Some <==> old(self).armed().len() > 0 && old(self).armed().last().deadline
                <= now,
            event matches Some(e) ==> e == old(self).armed().last() && final(self).armed() == old(
                self,
            ).armed().drop_last(),
            event is None ==> final(self).armed() == old(self).armed(),
            event is None ==> forall|i: int|
                0 <= i < old(self).armed().len() ==> (#[trigger] old(self).armed()[i]).deadline
                    > now,
    {
        let len: usize = self.timers.len();
        if len == 0 || self.timers[len - 1].deadline > now {
            proof {
                assert forall|i: int| 0 <= i < self.timers@.len() implies (
                #[trigger] self.timers@[i]).deadline > now by {
                    if i < len - 1 {
                        assert(later(self.timers@, i, len - 1));
                    }
                }
            }
            return None;
        }
        let ghost before = self.timers@;
        let event = self.timers.pop();
        proof {
            assert forall|i: int, j: int| 0 <= i < j < self.timers@.len() implies later(
                self.timers@,
                i,
                j,
            ) by {
                assert(later(before, i, j));
            }
        }
        event
    }

    /// Schedules an event that expired again, for the first time after `now`
    /// that is a whole number of its periods away from its deadline.
    pub fn renew(&mut self, now: u64, event: Event<H>)
        requires
            event.period > 0,
            renewed(now as int, event.deadline as int, event.period as int) <= u64::MAX,
        ensures
            final(self).armed() == old(self).armed(),
            final(self).waiting() == old(self).waiting().push(
                (Event {
                    deadline: renewed(
                        now as int,
                        event.deadline as int,
                        event.period as int,
                    ) as u64,
                    period: event.period,
                    handler: event.handler,
                }),
            ),
    {
        proof {
            vstd::arithmetic::div_mod::lemma_mod_decreases(now as nat, event.period as nat);
        }
        let deadline: u64 = now - now % event.period + event.deadline % event.period
            + event.period;
        let event = Event { deadline, period: event.period, handler: event.handler };
        self.new_timers.push(event);
    }
}

} // verus!
