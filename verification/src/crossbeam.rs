//! The calls this library makes into `crossbeam_channel`, with what they
//! are trusted to do.
use crossbeam_channel::{Receiver, Sender};
use std::time::Duration;
use vstd::prelude::*;

verus! {

#[verifier::external_type_specification]
#[verifier::external_body]
#[verifier::reject_recursive_types(T)]
pub struct ExSender<T>(Sender<T>);

#[verifier::external_type_specification]
#[verifier::external_body]
#[verifier::reject_recursive_types(T)]
pub struct ExReceiver<T>(Receiver<T>);

#[verifier::external_type_specification]
#[verifier::external_body]
pub struct ExRecvError(crossbeam_channel::RecvError);

#[verifier::external_type_specification]
#[verifier::external_body]
pub struct ExTryRecvError(crossbeam_channel::TryRecvError);

#[verifier::external_type_specification]
#[verifier::external_body]
pub struct ExRecvTimeoutError(crossbeam_channel::RecvTimeoutError);

/// An unbounded crossbeam channel of which this value owns both ends, with
/// the messages it holds, oldest first.
///
/// The two ends come from one call of `crossbeam_channel::unbounded` in
/// [`Queue::new`]; they are never cloned nor handed out, and they are
/// reached only through `&mut self`. So nothing but this value sends or
/// receives on the channel, and its receiver lives as long as its sender.
/// On such a channel crossbeam's list flavour (`channel.rs`, `flavors/list.rs`)
/// never fails a send, and hands the messages out in the order they were
/// sent: the trusted methods below state that, over `contents`.
#[verifier::reject_recursive_types(T)]
pub struct Queue<T> {
    sender: Sender<T>,
    receiver: Receiver<T>,
    contents: Ghost<Seq<T>>,
}

impl<T> Queue<T> {
    /// The messages in the channel, oldest first.
    pub closed spec fn contents(&self) -> Seq<T> {
        self.contents@
    }

    /// Calls `crossbeam_channel::unbounded`. Claimed: the new channel is
    /// empty.
    #[verifier::external_body]
    pub(crate) fn new() -> (queue: Self)
        ensures
            queue.contents() == Seq::<T>::empty(),
    {
        let (sender, receiver) = crossbeam_channel::unbounded();
        Queue { sender, receiver, contents: Ghost(Seq::empty()) }
    }

    /// Calls `Sender::send`. Claimed: the send succeeds, since the receiver
    /// held by this value keeps the channel connected, and the message joins
    /// the back of the channel.
    #[verifier::external_body]
    pub(crate) fn send(&mut self, msg: T) -> (r: Result<(), T>)
        ensures
            r is Ok,
            final(self).contents() == old(self).contents().push(msg),
    {
        match self.sender.send(msg) {
            Ok(()) => Ok(()),
            Err(e) => Err(e.0),
        }
    }

    /// Calls `Receiver::recv`. Claimed: on a channel that holds a message it
    /// returns the oldest one and takes it out. On an empty channel it would
    /// wait forever, since nothing else can send: that input is left out.
    #[verifier::external_body]
    pub(crate) fn recv(&mut self) -> (r: Result<T, crossbeam_channel::RecvError>)
        requires
            old(self).contents().len() > 0,
        ensures
            r == Ok::<T, crossbeam_channel::RecvError>(old(self).contents()[0]),
            final(self).contents() == old(self).contents().drop_first(),
    {
        self.receiver.recv()
    }

    /// Calls `Receiver::try_recv`. Claimed: it returns and takes out the
    /// oldest message, or fails and changes nothing when the channel is
    /// empty.
    #[verifier::external_body]
    pub(crate) fn try_recv(&mut self) -> (r: Result<T, crossbeam_channel::TryRecvError>)
        ensures
            old(self).contents().len() > 0 ==> {
                &&& r == Ok::<T, crossbeam_channel::TryRecvError>(old(self).contents()[0])
                &&& final(self).contents() == old(self).contents().drop_first()
            },
            old(self).contents().len() == 0 ==> r is Err && final(self).contents() == old(self).contents(),
    {
        self.receiver.try_recv()
    }

    /// Calls `Receiver::is_empty`. Claimed: it tells whether the channel
    /// holds no message.
    #[verifier::external_body]
    pub(crate) fn is_empty(&self) -> (b: bool)
        ensures
            b == (self.contents().len() == 0),
    {
        self.receiver.is_empty()
    }

    /// Calls `Receiver::recv_timeout` on a channel that holds a message.
    /// Claimed: it returns the oldest message and takes it out (crossbeam
    /// hands one out even when the time is already up). On an empty channel
    /// the call could wait without limit (when the deadline does not fit
    /// the clock, crossbeam falls back to `recv`, and nothing else can
    /// send): that input is left out.
    #[verifier::external_body]
    pub(crate) fn recv_timeout(&mut self, timeout: Duration) -> (r: Result<T, crossbeam_channel::RecvTimeoutError>)
        requires
            old(self).contents().len() > 0,
        ensures
            r == Ok::<T, crossbeam_channel::RecvTimeoutError>(old(self).contents()[0]),
            final(self).contents() == old(self).contents().drop_first(),
    {
        self.receiver.recv_timeout(timeout)
    }
}

} // verus!
