use vstd::prelude::*;

use crate::messaging::mailbox::Mailbox;

verus! {

/// A task whose value is known from the start, and which can still be cancelled: once
/// cancelled before its value was handed out, it hands out `None`.
pub struct FreeCancellableTask<T> {
    value: T,
    cancelled: bool,
    value_was_returned: bool,
}

impl<T: Clone> FreeCancellableTask<T> {
    /// The task's value.
    pub closed spec fn value(&self) -> T {
        self.value
    }

    /// `true` once cancellation was requested.
    pub closed spec fn is_cancelled(&self) -> bool {
        self.cancelled
    }

    /// `true` once the value was handed out.
    pub closed spec fn has_returned(&self) -> bool {
        self.value_was_returned
    }

    /// `true` if the task now hands out `None`: it was cancelled before its value was handed out.
    pub open spec fn yields_none(&self) -> bool {
        self.is_cancelled() && !self.has_returned()
    }

    /// A task that hands out `value` unless it is cancelled first.
    pub fn new(value: T) -> (t: Self)
        ensures
            t.value() == value,
            !t.is_cancelled(),
            !t.has_returned(),
    {
        FreeCancellableTask { value, cancelled: false, value_was_returned: false }
    }

    /// What the task hands out now: `None` if it was cancelled before its value was handed
    /// out, else a clone of its value, which from then on is handed out whatever happens.
    fn outcome(&mut self) -> (r: Option<T>)
        ensures
            final(self).value() == old(self).value(),
            final(self).is_cancelled() == old(self).is_cancelled(),
            old(self).yields_none() ==> r is None && final(self).has_returned() == old(self).has_returned(),
            !old(self).yields_none() ==> (r matches Some(v) && cloned(old(self).value(), v))
                && final(self).has_returned(),
    {
        if self.cancelled && !self.value_was_returned {
            None
        } else {
            self.value_was_returned = true;
            Some(self.value.clone())
        }
    }

    /// Hands `mailbox` what the task hands out now.
    pub fn notify_when_done<M: Mailbox<Message = Option<T>>>(&mut self, mailbox: &mut M)
        ensures
            final(self).value() == old(self).value(),
            final(self).is_cancelled() == old(self).is_cancelled(),
            final(self).yields_none() == old(self).yields_none(),
            !old(self).yields_none() ==> final(self).has_returned(),
            old(self).yields_none() ==> final(mailbox).handed() == old(mailbox).handed().push(None),
            !old(self).yields_none() ==> exists|c: T|
                #[trigger] cloned(old(self).value(), c)
                    && final(mailbox).handed() == old(mailbox).handed().push(Some(c)),
    {
        let msg = self.outcome();
        mailbox.send_msg(msg);
        proof {
            if !old(self).yields_none() {
                assert(cloned(old(self).value(), msg->0));
            }
        }
    }

    /// What the task hands out now: `None` if it was cancelled before its value was handed
    /// out, else a clone of its value.
    pub fn wait(&mut self) -> (r: Option<T>)
        ensures
            final(self).value() == old(self).value(),
            final(self).is_cancelled() == old(self).is_cancelled(),
            final(self).yields_none() == old(self).yields_none(),
            old(self).yields_none() ==> r is None,
            !old(self).yields_none() ==> (r matches Some(v) && cloned(old(self).value(), v))
                && final(self).has_returned(),
    {
        self.outcome()
    }

    /// Asks the task to stop. A task whose value was already handed out keeps handing it out.
    pub fn request_cancellation(&mut self)
        ensures
            final(self).value() == old(self).value(),
            final(self).is_cancelled(),
            final(self).has_returned() == old(self).has_returned(),
    {
        self.cancelled = true;
    }
}

} // verus!
