use vstd::prelude::*;

use crate::messaging::channel::{send_waiting, ChannelSender};

verus! {

/// Something that can be told a message.
pub trait Notifiable {
    type Message;

    /// Every message told to this so far, in order, whether it was delivered or not.
    spec fn told(&self) -> Seq<Self::Message>;

    /// Tells the message; `true` if and only if it was delivered.
    fn notify(&mut self, msg: Self::Message) -> (r: bool)
        ensures
            final(self).told() == old(self).told().push(msg),
    ;
}

impl<T> Notifiable for ChannelSender<T> {
    type Message = T;

    open spec fn told(&self) -> Seq<T> {
        self.handed_messages()
    }

    /// Puts the message into the channel, waiting for room.
    fn notify(&mut self, msg: T) -> (r: bool) {
        send_waiting(self, msg)
    }
}

} // verus!
