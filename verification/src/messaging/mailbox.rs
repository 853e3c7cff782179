use vstd::prelude::*;

use crate::messaging::channel::{try_send_now, ChannelSender};

verus! {

/// Something that can be handed messages.
pub trait Mailbox {
    type Message;

    /// Every message handed to this mailbox so far, in order, whether it was taken or not.
    spec fn handed(&self) -> Seq<Self::Message>;

    /// Puts a message into the mailbox; `true` if and only if it was taken.
    fn send_msg(&mut self, msg: Self::Message) -> (r: bool)
        ensures
            final(self).handed() == old(self).handed().push(msg),
    ;
}

impl<T> Mailbox for ChannelSender<T> {
    type Message = T;

    open spec fn handed(&self) -> Seq<T> {
        self.handed_messages()
    }

    /// Puts the message into the channel if it has room, without waiting.
    fn send_msg(&mut self, msg: T) -> (r: bool) {
        try_send_now(self, msg)
    }
}

} // verus!
