//! The tokio items that the registries use: broadcast mailboxes and the
//! handles of the tasks that a join or a channel starts.

use vstd::prelude::*;
use tokio::sync::broadcast::error::SendError;
use tokio::sync::broadcast::{Receiver, Sender};
use tokio::task::{JoinError, JoinHandle};

verus! {

/// A sending half of a tokio broadcast mailbox; clones share one buffer.
#[verifier::external_type_specification]
#[verifier::external_body]
#[verifier::reject_recursive_types(T)]
pub struct ExSender<T>(Sender<T>);

/// A receiving half of a tokio broadcast mailbox.
#[verifier::external_type_specification]
#[verifier::external_body]
#[verifier::reject_recursive_types(T)]
pub struct ExReceiver<T>(Receiver<T>);

/// The error of `Sender::send`, which hands the value back.
#[verifier::external_type_specification]
#[verifier::external_body]
#[verifier::reject_recursive_types(T)]
pub struct ExSendError<T>(SendError<T>);

/// The handle of a spawned tokio task.
#[verifier::external_type_specification]
#[verifier::external_body]
#[verifier::reject_recursive_types(T)]
pub struct ExJoinHandle<T>(JoinHandle<T>);

/// The error that awaiting a task handle yields; named because the handle's
/// `Future` impl mentions it.
#[verifier::external_type_specification]
#[verifier::external_body]
pub struct ExJoinError(JoinError);

/// Relies on tokio's `broadcast::channel`, which panics when the capacity is
/// 0 or above `usize::MAX / 2`.
pub assume_specification<T: Clone>[ tokio::sync::broadcast::channel::<T> ](capacity: usize) -> (Sender<T>, Receiver<T>)
    requires
        0 < capacity <= usize::MAX / 2,
;

/// Relies on tokio's `Sender::send`: it fails only when no receiver is
/// subscribed, and on success returns how many receivers were subscribed.
pub assume_specification<T>[ Sender::<T>::send ](s: &Sender<T>, value: T) -> (r: Result<usize, SendError<T>>)
    ensures
        r is Ok ==> r->Ok_0 > 0,
;

/// Relies on tokio's `Sender::subscribe`: a new receiver of what is sent from now on.
pub assume_specification<T>[ Sender::<T>::subscribe ](s: &Sender<T>) -> Receiver<T>;

/// Relies on tokio's `Clone` for `Sender`: another handle on the same mailbox.
pub assume_specification<T>[ <Sender<T> as Clone>::clone ](s: &Sender<T>) -> Sender<T>;

/// Relies on tokio's `JoinHandle::abort`: asks the runtime to cancel the task.
pub assume_specification<T>[ JoinHandle::<T>::abort ](h: &JoinHandle<T>);

} // verus!
