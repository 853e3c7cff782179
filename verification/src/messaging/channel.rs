use vstd::prelude::*;

use crossbeam_channel::{Receiver, Sender};

verus! {

/// The sending end of a `crossbeam_channel` channel, carried through verified code.
#[verifier::external_type_specification]
#[verifier::external_body]
#[verifier::reject_recursive_types(T)]
pub struct ExSender<T>(crossbeam_channel::Sender<T>);

/// The receiving end of a `crossbeam_channel` channel, carried through verified code.
#[verifier::external_type_specification]
#[verifier::external_body]
#[verifier::reject_recursive_types(T)]
pub struct ExReceiver<T>(crossbeam_channel::Receiver<T>);

/// The sending end of a channel, with a record, kept only for proofs, of every message handed
/// to it, in order.
#[verifier::reject_recursive_types(T)]
pub struct ChannelSender<T> {
    sender: Sender<T>,
    handed: Ghost<Seq<T>>,
}

impl<T> ChannelSender<T> {
    /// Every message handed to this end so far, in order, whether the channel took it or not.
    pub closed spec fn handed_messages(&self) -> Seq<T> {
        self.handed@
    }

    /// Wraps `sender`; no message has been handed to it yet.
    pub fn new(sender: Sender<T>) -> (s: Self)
        ensures
            s.handed_messages() == Seq::<T>::empty(),
    {
        ChannelSender { sender, handed: Ghost(Seq::empty()) }
    }
}

/// A channel that holds at most one message at a time.
///
/// Calls `crossbeam_channel::bounded(1)`. Nothing is claimed of the two ends: what they hold
/// is seen only by the threads that use them.
#[verifier::external_body]
pub(crate) fn single_slot_channel<T>() -> (Sender<T>, Receiver<T>) {
    crossbeam_channel::bounded(1)
}

/// Hands `msg` to the channel, which takes it if there is room, without waiting.
///
/// Calls `Sender::try_send` with `msg` and reports whether it succeeded. The contract claims
/// only that `msg` is recorded as handed to `sender`; whether the channel had room depends on
/// what other threads did with it, so nothing is claimed of the result.
#[verifier::external_body]
pub(crate) fn try_send_now<T>(sender: &mut ChannelSender<T>, msg: T) -> (r: bool)
    ensures
        final(sender).handed_messages() == old(sender).handed_messages().push(msg),
{
    sender.sender.try_send(msg).is_ok()
}

/// Hands `msg` to the channel, waiting for room.
///
/// Calls `Sender::send` with `msg` and reports whether it succeeded. The contract claims only
/// that `msg` is recorded as handed to `sender`; the send fails once the receiving end is gone,
/// which depends on other threads, so nothing is claimed of the result.
#[verifier::external_body]
pub(crate) fn send_waiting<T>(sender: &mut ChannelSender<T>, msg: T) -> (r: bool)
    ensures
        final(sender).handed_messages() == old(sender).handed_messages().push(msg),
{
    sender.sender.send(msg).is_ok()
}

} // verus!
