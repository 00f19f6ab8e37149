//! Cooperative task scheduler, as the bookkeeping that it does.
//!
//! The scheduler keeps the identifiers of the tasks that run and the queue
//! of those that are to be polled. Whoever owns the tasks polls them and
//! tells the scheduler what came of it; the scheduler tells which logical
//! CPUs are to be notified that there is work.

pub mod chan;

use vstd::prelude::*;
use crate::sched::chan::{Polled, Receiver};
use std::collections::BTreeMap;
use std::collections::VecDeque;

verus! {

broadcast use vstd::std_specs::btree::group_btree_axioms;

/// Which logical CPUs are to be notified that tasks wait to be polled.
#[derive(Clone, Copy, Debug, PartialEq, Eq, Structural)]
pub enum Notify {
    /// No logical CPU.
    Nobody,
    /// The logical CPU that called.
    Caller,
    /// All logical CPUs.
    Everybody,
}

/// Task scheduler.
pub struct Scheduler {
    /// Tasks scheduled for polling.
    scheduled: VecDeque<u64>,
    /// All running tasks, each with whether it is active.
    running: BTreeMap<u64, bool>,
    /// Spawned task counter.
    count: u64,
}

/// Future that can be awaited on until its corresponding task terminates.
#[derive(Debug)]
pub struct JoinHandle<T: Copy> {
    /// Receiving end of the notification channel.
    pub rx: Receiver<T>,
}

/// Future that returns pending on the first poll and ready on subsequent polls.
#[derive(Debug)]
pub struct Relent {
    /// Whether this future has been polled.
    is_ready: bool,
}

/// Who is to be notified after the queue got a task and holds `len` tasks:
/// with one task the caller polls it, with more all logical CPUs share them.
pub open spec fn after_push(len: int) -> Notify {
    if len == 1 {
        Notify::Caller
    } else {
        Notify::Everybody
    }
}

/// Who is to be notified after a task was taken from the queue and `len`
/// tasks are left in it.
pub open spec fn after_pop(len: int) -> Notify {
    if len == 0 {
        Notify::Nobody
    } else if len == 1 {
        Notify::Caller
    } else {
        Notify::Everybody
    }
}

impl Scheduler {
    /// The queue of the tasks that are to be polled.
    pub closed spec fn queue(&self) -> Seq<u64> {
        self.scheduled@
    }

    /// The running tasks, each with whether it is active: whether it is in
    /// the queue or being polled.
    pub closed spec fn tasks(&self) -> Map<u64, bool> {
        self.running@
    }

    /// The identifier that the next task gets.
    pub closed spec fn next_id(&self) -> u64 {
        self.count
    }

    /// Creates and initializes a new scheduler. The first task gets the
    /// identifier one: zero means no task.
    pub fn new() -> (sched: Scheduler)
        ensures
            sched.queue() == Seq::<u64>::empty(),
            sched.tasks() == Map::<u64, bool>::empty(),
            sched.next_id() == 1,
    {
        Scheduler { scheduled: VecDeque::new(), running: BTreeMap::new(), count: 1 }
    }

    /// Spawns a new task: gives it an identifier, notes it as running and
    /// active, and puts it at the back of the queue.
    ///
    /// Returns the identifier and who is to be notified.
    #[verifier::rlimit(30)]
    pub fn spawn(&mut self) -> (res: (u64, Notify))
        requires
            old(self).next_id() < u64::MAX,
        ensures
            res.0 == old(self).next_id(),
            final(self).next_id() == old(self).next_id() + 1,
            final(self).tasks() == old(self).tasks().insert(res.0, true),
            final(self).queue() == old(self).queue().push(res.0),
            res.1 == after_push(final(self).queue().len() as int),
    {
        let id: u64 = self.count;
        self.count = self.count + 1;
        self.running.insert(id, true);
        self.scheduled.push_back(id);
        let count: usize = self.scheduled.len();
        let notify = if count == 1 {
            Notify::Caller
        } else {
            Notify::Everybody
        };
        (id, notify)
    }

    /// Returns a future that, when awaited on, yields execution to the other
    /// tasks in the active queue once.
    pub fn relent() -> (relent: Relent)
        ensures
            !relent.ready(),
    {
        Relent::new()
    }

    /// Schedules a running task to be polled, unless it is active already.
    ///
    /// * `id`: Task identifier.
    ///
    /// Returns who is to be notified.
    #[verifier::rlimit(30)]
    pub fn wake(&mut self, id: u64) -> (notify: Notify)
        requires
            old(self).tasks().contains_key(id),
        ensures
            final(self).next_id() == old(self).next_id(),
            final(self).tasks() == old(self).tasks().insert(id, true),
            old(self).tasks()[id] ==> notify == Notify::Nobody && final(self).queue() == old(
                self,
            ).queue(),
            !old(self).tasks()[id] ==> final(self).queue() == old(self).queue().push(id) && notify
                == after_push(final(self).queue().len() as int),
    {
        let was_active: bool = match self.running.get(&id) {
            Some(active) => *active,
            None => true,
        };
        self.running.insert(id, true);
        if !was_active {
            self.scheduled.push_back(id);
            let count: usize = self.scheduled.len();
            if count == 1 {
                Notify::Caller
            } else {
                Notify::Everybody
            }
        } else {
            Notify::Nobody
        }
    }

    /// Takes the task at the front of the queue to poll it, and notes it as
    /// not active, so that waking it while it is polled schedules it again.
    ///
    /// Returns the identifier of the task, if the queue held one.
    #[verifier::rlimit(30)]
    pub fn take(&mut self) -> (id: Option<u64>)
        ensures
            final(self).next_id() == old(self).next_id(),
            id is Some <==> old(self).queue().len() > 0,
            id matches Some(task) ==> task == old(self).queue()[0] && final(self).queue() == old(
                self,
            ).queue().subrange(1, old(self).queue().len() as int) && final(self).tasks() == if old(
                self,
            ).tasks().contains_key(task) {
                old(self).tasks().insert(task, false)
            } else {
                old(self).tasks()
            },
            id is None ==> final(self).queue() == old(self).queue() && final(self).tasks() == old(
                self,
            ).tasks(),
    {
        match self.scheduled.pop_front() {
            Some(task) => {
                if self.running.contains_key(&task) {
                    self.running.insert(task, false);
                }
                Some(task)
            },
            None => None,
        }
    }

    /// Settles a task that was polled: a task that finished runs no more.
    ///
    /// * `id`: Task identifier.
    /// * `finished`: Whether the task has finished.
    ///
    /// Returns who is to be notified of the tasks that are left in the
    /// queue.
    #[verifier::rlimit(30)]
    pub fn settle(&mut self, id: u64, finished: bool) -> (notify: Notify)
        ensures
            final(self).next_id() == old(self).next_id(),
            final(self).queue() == old(self).queue(),
            final(self).tasks() == if finished {
                old(self).tasks().remove(id)
            } else {
                old(self).tasks()
            },
            notify == after_pop(old(self).queue().len() as int),
    {
        if finished {
            self.running.remove(&id);
        }
        let count: usize = self.scheduled.len();
        if count == 0 {
            Notify::Nobody
        } else if count == 1 {
            Notify::Caller
        } else {
            Notify::Everybody
        }
    }
}

impl<T: Copy> JoinHandle<T> {
    /// Creates and initializes a new join handler.
    ///
    /// * `rx`: Task termination notification channel receiver.
    pub fn new(rx: Receiver<T>) -> (handle: JoinHandle<T>)
        ensures
            handle.rx == rx,
    {
        JoinHandle { rx }
    }

    /// Asks for the result of the task: it is there once the task has
    /// finished and sent it.
    pub fn poll(&mut self) -> (res: Polled<T>)
        ensures
            final(self).rx.val == old(self).rx.val,
            old(self).rx.val matches Some(v) ==> res == Polled::Ready(v) && final(self).rx.waiting
                == old(self).rx.waiting,
            old(self).rx.val is None ==> res is Pending && final(self).rx.waiting,
    {
        self.rx.poll()
    }
}

impl Relent {
    /// Whether this future has been polled.
    pub closed spec fn ready(&self) -> bool {
        self.is_ready
    }

    /// Creates and initializes a new relent future.
    pub fn new() -> (relent: Relent)
        ensures
            !relent.ready(),
    {
        Relent { is_ready: false }
    }

    /// Polls the future: the first poll is pending and asks for the task to
    /// be woken at once, every later one is ready.
    ///
    /// Returns what polling gives, and whether the task is to be woken.
    pub fn poll(&mut self) -> (res: (Polled<()>, bool))
        ensures
            final(self).ready(),
            old(self).ready() ==> res.0 is Ready && !res.1,
            !old(self).ready() ==> res.0 is Pending && res.1,
    {
        if self.is_ready {
            return (Polled::Ready(()), false);
        }
        self.is_ready = true;
        (Polled::Pending, true)
    }
}

} // verus!
