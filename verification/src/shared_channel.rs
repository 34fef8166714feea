//! The shared channel: the transport a multi-threaded driver runs the
//! queue protocol over.
//!
//! A standard channel has one receiving end; wrapping it in a mutex behind
//! a shared handle turns it into the multi-consumer queue the worker pool
//! drains.  What arrives on the channel depends on what other threads send,
//! so nothing is promised about the received values themselves; the
//! decisions taken on them live in the verified modules, and app code pairs
//! this transport with the queue protocol's counter.

use vstd::prelude::*;

use std::sync::mpsc::Receiver;
use std::sync::mpsc::RecvError;
use std::sync::mpsc::Sender;
use std::sync::Arc;
use std::sync::Mutex;

verus! {

#[verifier::external_type_specification]
#[verifier::external_body]
#[verifier::reject_recursive_types(T)]
pub struct ExSender<T>(Sender<T>);

#[verifier::external_type_specification]
#[verifier::external_body]
#[verifier::reject_recursive_types(T)]
pub struct ExReceiver<T>(Receiver<T>);

#[verifier::external_type_specification]
#[verifier::external_body]
pub struct ExRecvError(RecvError);

/// A thread-safe handle on the receiving end of a channel.  Clones share
/// one receiver: each message sent is taken by exactly one of them.
#[verifier::external_body]
#[verifier::reject_recursive_types(T)]
pub struct SharedReceiver<T> {
    rx: Arc<Mutex<Receiver<T>>>,
}

/// Relies on `std::sync::mpsc::channel`: creates a connected
/// sender/receiver pair.
#[verifier::external_body]
fn channel_pair<T>() -> (r: (Sender<T>, Receiver<T>)) {
    std::sync::mpsc::channel()
}

impl<T> SharedReceiver<T> {
    /// Relies on `std::sync::Arc::new` and `std::sync::Mutex::new`, which
    /// only wrap the receiver into a shareable, lock-protected handle.
    #[verifier::external_body]
    fn new(rx: Receiver<T>) -> (r: SharedReceiver<T>) {
        SharedReceiver { rx: Arc::new(Mutex::new(rx)) }
    }

    /// Take the next message, blocking until one is sent or every sender is
    /// gone, in which case the error is returned.
    ///
    /// Relies on `std::sync::Mutex::lock` to serialise consumers and on
    /// `std::sync::mpsc::Receiver::recv` for the blocking receive; a
    /// poisoned lock is taken over rather than propagated, so the call
    /// itself never panics.  Which message arrives depends on the other
    /// threads, so nothing is stated about the result.
    #[verifier::external_body]
    pub fn recv(&mut self) -> (r: Result<T, RecvError>) {
        let guard = match self.rx.lock() {
            Ok(guard) => guard,
            Err(poisoned) => poisoned.into_inner(),
        };
        guard.recv()
    }
}

impl<T> Clone for SharedReceiver<T> {
    /// Relies on `std::sync::Arc::clone`: the clone shares the same
    /// receiver.
    #[verifier::external_body]
    fn clone(&self) -> (r: SharedReceiver<T>) {
        SharedReceiver { rx: Arc::clone(&self.rx) }
    }
}

/// A channel whose receiving end may be shared by a pool of workers: the
/// sender is the ordinary channel sender, and every clone of the receiver
/// takes messages from the same queue.
pub fn shared_channel<T>() -> (r: (Sender<T>, SharedReceiver<T>)) {
    let pair = channel_pair();
    let receiver = SharedReceiver::new(pair.1);
    (pair.0, receiver)
}

} // verus!
