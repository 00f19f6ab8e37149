//! One-shot channel.
//!
//! The receiver end holds the state of the channel. Whoever runs the tasks
//! hands it to the sender end when a value is sent, if it still exists.

use vstd::prelude::*;

verus! {

/// What polling gives: the value, or word that it is not there yet.
pub enum Polled<T> {
    /// The value is there.
    Ready(T),
    /// The value is not there yet; the task is woken when it is.
    Pending,
}

/// Sender end.
#[derive(Debug)]
pub struct Sender<T: Copy> {
    /// Value that was handed to this end before it was sent, if any.
    pub held: Option<T>,
}

/// Receiver end.
#[derive(Debug)]
pub struct Receiver<T: Copy> {
    /// Value to deliver.
    pub val: Option<T>,
    /// Whether a task waits to be woken when the value arrives.
    pub waiting: bool,
}

impl<T: Copy> Sender<T> {
    /// Creates and initializes a new sender.
    pub fn new() -> (tx: Sender<T>)
        ensures
            tx.held is None,
    {
        Sender { held: None }
    }

    /// Consumes `self` and sends a value to the receiver.
    ///
    /// * `rx`: The receiver end, if it still exists.
    /// * `val`: Value to be sent.
    ///
    /// Returns whether a task waits for the value and is to be woken now.
    /// Without a receiver nothing happens.
    pub fn send(self, rx: Option<&mut Receiver<T>>, val: T) -> (wake: bool)
        ensures
            rx matches Some(r) ==> final(r).val == Some(val) && !final(r).waiting && wake
                == r.waiting,
            rx is None ==> !wake,
    {
        match rx {
            Some(state) => {
                state.val = Some(val);
                let wake = state.waiting;
                state.waiting = false;
                wake
            },
            None => false,
        }
    }
}

impl<T: Copy> Receiver<T> {
    /// Creates and initializes a new receiver, without a value and without
    /// a task that waits for one.
    pub fn new() -> (rx: Receiver<T>)
        ensures
            rx.val is None,
            !rx.waiting,
    {
        Receiver { val: None, waiting: false }
    }

    /// Asks for the value. If it is there it is returned, and stays there;
    /// else the task that asked is noted as waiting.
    pub fn poll(&mut self) -> (res: Polled<T>)
        ensures
            final(self).val == old(self).val,
            old(self).val matches Some(v) ==> res == Polled::Ready(v) && final(self).waiting == old(
                self,
            ).waiting,
            old(self).val is None ==> res is Pending && final(self).waiting,
    {
        match self.val {
            Some(val) => Polled::Ready(val),
            None => {
                self.waiting = true;
                Polled::Pending
            },
        }
    }
}

/// Creates a new one-shot channel.
///
/// Returns the sender and receiver ends of the newly created channel.
pub fn channel<T: Copy>() -> (ends: (Sender<T>, Receiver<T>))
    ensures
        ends.0.held is None,
        ends.1.val is None,
        !ends.1.waiting,
{
    (Sender::new(), Receiver::new())
}

} // verus!
