//! The channels and shared pointers the cache is built on.
//!
//! Everything in this file is trusted: Verus takes these contracts as given and does not
//! look into the calls. What travels through a channel depends on the other end, so the
//! receiving functions promise nothing about what they return.

use futures::channel::mpsc::{UnboundedReceiver, UnboundedSender};
use std::sync::mpsc::{Receiver, Sender};
use std::sync::Arc;
use vstd::prelude::*;

verus! {

/// The sending half of the request channel, `futures::channel::mpsc::UnboundedSender`.
#[verifier::external_type_specification]
#[verifier::external_body]
#[verifier::reject_recursive_types(T)]
pub struct ExUnboundedSender<T>(futures::channel::mpsc::UnboundedSender<T>);

/// The receiving half of the request channel, `futures::channel::mpsc::UnboundedReceiver`.
#[verifier::external_type_specification]
#[verifier::external_body]
#[verifier::reject_recursive_types(T)]
pub struct ExUnboundedReceiver<T>(futures::channel::mpsc::UnboundedReceiver<T>);

/// The sending half of a completion channel, `std::sync::mpsc::Sender`.
#[verifier::external_type_specification]
#[verifier::external_body]
#[verifier::reject_recursive_types(T)]
pub struct ExSender<T>(std::sync::mpsc::Sender<T>);

/// The receiving half of a completion channel, `std::sync::mpsc::Receiver`.
#[verifier::external_type_specification]
#[verifier::external_body]
#[verifier::reject_recursive_types(T)]
pub struct ExReceiver<T>(std::sync::mpsc::Receiver<T>);

/// What a look into a channel found, without waiting.
pub enum Polled<T> {
    /// A message was waiting; the channel no longer holds it.
    Item(T),
    /// Nothing is waiting, but a sender is still alive.
    Empty,
    /// Nothing is waiting and no sender is left.
    Closed,
}

/// Calls `futures::channel::mpsc::unbounded`: a fresh channel whose two halves are
/// returned. Nothing is claimed of them.
#[verifier::external_body]
pub(crate) fn request_channel<T>() -> (ends: (UnboundedSender<T>, UnboundedReceiver<T>)) {
    futures::channel::mpsc::unbounded()
}

/// Calls `Clone::clone` of `futures::channel::mpsc::UnboundedSender`: a second sender
/// into the same channel. Nothing is claimed of it. The call panics once a quarter of
/// `usize::MAX` senders exist, more than a process can hold.
#[verifier::external_body]
pub(crate) fn clone_sender<T>(tx: &UnboundedSender<T>) -> (copy: UnboundedSender<T>) {
    tx.clone()
}

/// Calls `futures::channel::mpsc::UnboundedSender::unbounded_send` and reports whether
/// the message was queued; it is not when the receiver is closed or gone. Which of the
/// two happens depends on the other end, so nothing is claimed. The call never waits. It
/// panics once half of `usize::MAX` messages are queued, more than memory can hold.
#[verifier::external_body]
pub(crate) fn send_request<T>(tx: &UnboundedSender<T>, msg: T) -> (queued: bool) {
    tx.unbounded_send(msg).is_ok()
}

/// Calls `futures::channel::mpsc::UnboundedReceiver::try_recv` and tells its three
/// outcomes apart. Nothing is claimed of which one comes.
#[verifier::external_body]
pub(crate) fn poll_request<T>(rx: &mut UnboundedReceiver<T>) -> (found: Polled<T>) {
    match rx.try_recv() {
        Ok(msg) => Polled::Item(msg),
        Err(futures::channel::mpsc::TryRecvError::Empty) => Polled::Empty,
        Err(futures::channel::mpsc::TryRecvError::Closed) => Polled::Closed,
    }
}

/// Calls `std::sync::mpsc::channel`: a fresh channel whose two halves are returned.
/// Nothing is claimed of them.
#[verifier::external_body]
pub(crate) fn completion_channel<T>() -> (ends: (Sender<T>, Receiver<T>)) {
    std::sync::mpsc::channel()
}

/// Calls `std::sync::mpsc::Sender::send` and reports whether the message was queued; it
/// is not when the receiver is gone. Nothing is claimed of which happens. The call never
/// waits.
#[verifier::external_body]
pub(crate) fn send_completion<T>(tx: &Sender<T>, msg: T) -> (queued: bool) {
    tx.send(msg).is_ok()
}

/// Calls `std::sync::mpsc::Receiver::try_recv` and tells its three outcomes apart.
/// Nothing is claimed of which one comes.
#[verifier::external_body]
pub(crate) fn poll_completion<T>(rx: &Receiver<T>) -> (found: Polled<T>) {
    match rx.try_recv() {
        Ok(msg) => Polled::Item(msg),
        Err(std::sync::mpsc::TryRecvError::Empty) => Polled::Empty,
        Err(std::sync::mpsc::TryRecvError::Disconnected) => Polled::Closed,
    }
}

/// Calls `std::sync::mpsc::Receiver::recv`, which waits until a message arrives (`Some`)
/// or every sender is gone (`None`). Nothing is claimed of which comes; while a sender
/// lives and stays silent the call does not return.
#[verifier::external_body]
pub(crate) fn await_completion<T>(rx: &Receiver<T>) -> (found: Option<T>) {
    rx.recv().ok()
}

/// Calls `Clone::clone` of `std::sync::Arc`: another pointer to the same value.
#[verifier::external_body]
pub(crate) fn share<T>(a: &Arc<T>) -> (copy: Arc<T>)
    ensures
        copy == *a,
{
    Arc::clone(a)
}

/// Calls `std::sync::Arc::strong_count`: how many `Arc`s point to the value right now.
/// The one passed in is among them, so the count is at least one; how many others are
/// alive elsewhere is not known here.
#[verifier::external_body]
pub(crate) fn owners<T>(a: &Arc<T>) -> (n: usize)
    ensures
        n >= 1,
{
    Arc::strong_count(a)
}

/// Calls `Vec::capacity`: how many elements fit before the vector reallocates, never
/// fewer than it holds.
#[verifier::external_body]
pub(crate) fn reserved<T>(v: &Vec<T>) -> (n: usize)
    ensures
        n >= v.len(),
{
    v.capacity()
}

} // verus!
