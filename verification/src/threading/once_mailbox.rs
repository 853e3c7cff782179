use vstd::prelude::*;

use crate::messaging::channel::{single_slot_channel, ChannelSender};
use crate::threading::mailbox::Mailbox;
use crossbeam_channel::Receiver;

verus! {

/// A mailbox that passes on only the first message it is given.
pub struct OnceMailbox<M: Mailbox> {
    send: M,
    sent: bool,
    given: Ghost<Seq<M::Message>>,
}

impl<M: Mailbox> OnceMailbox<M> {
    /// `true` once a message has been passed on.
    pub closed spec fn has_sent(&self) -> bool {
        self.sent
    }

    /// The mailbox that messages are passed on to.
    pub closed spec fn inner(&self) -> M {
        self.send
    }

    /// Wraps `inner` so that it is passed at most one message.
    pub fn wrap(inner: M) -> (r: Self)
        ensures
            !r.has_sent(),
            r.inner() == inner,
            r.given().len() == 0,
    {
        OnceMailbox { send: inner, sent: false, given: Ghost(Seq::empty()) }
    }
}

impl<T> OnceMailbox<ChannelSender<T>> {
    /// A mailbox for a new channel with room for one message, and the channel's receiving end.
    pub fn new() -> (r: (Self, Receiver<T>))
        ensures
            !r.0.has_sent(),
            r.0.given().len() == 0,
            r.0.inner().given().len() == 0,
    {
        let (send, recv) = single_slot_channel();
        (OnceMailbox::wrap(ChannelSender::new(send)), recv)
    }
}

impl<M: Mailbox> Mailbox for OnceMailbox<M> {
    type Message = M::Message;

    closed spec fn given(&self) -> Seq<M::Message> {
        self.given@
    }

    /// Passes the message on if none was passed on before; `true` if and only if it did.
    fn give_message(&mut self, value: M::Message) -> (r: bool)
        ensures
            r == !old(self).has_sent(),
            final(self).has_sent(),
            old(self).has_sent() ==> final(self).inner() == old(self).inner(),
            !old(self).has_sent() ==> final(self).inner().given() == old(self).inner().given().push(value),
    {
        let ghost given = self.given@.push(value);
        if self.sent {
            self.given = Ghost(given);
            return false;
        }
        self.send.give_message(value);
        self.sent = true;
        self.given = Ghost(given);
        true
    }
}

/// What `give_message` on `states[i]` with `msgs[i]` says of `results[i]` and `states[i + 1]`,
/// for each step of a run.
pub open spec fn steps_pass_on<M: Mailbox>(
    states: Seq<OnceMailbox<M>>,
    msgs: Seq<M::Message>,
    results: Seq<bool>,
) -> bool {
    &&& states.len() == msgs.len() + 1
    &&& results.len() == msgs.len()
    &&& forall|i: int|
        0 <= i < msgs.len() ==> {
            &&& #[trigger] results[i] == !states[i].has_sent()
            &&& states[i + 1].has_sent()
            &&& states[i].has_sent() ==> states[i + 1].inner() == states[i].inner()
            &&& !states[i].has_sent() ==> states[i + 1].inner().given() == states[i].inner().given().push(
                msgs[i],
            )
        }
}

/// After the first step of a run, the mailbox has passed a message on and its inner mailbox
/// stays as that step left it.
proof fn lemma_inner_settles<M: Mailbox>(
    states: Seq<OnceMailbox<M>>,
    msgs: Seq<M::Message>,
    results: Seq<bool>,
    n: int,
)
    requires
        steps_pass_on(states, msgs, results),
        1 <= n <= msgs.len(),
    ensures
        states[n].has_sent(),
        states[n].inner() == states[1].inner(),
        forall|i: int| 1 <= i < n ==> !(#[trigger] results[i]),
    decreases n,
{
    assert(results[0] == !states[0].has_sent());
    if n > 1 {
        lemma_inner_settles(states, msgs, results, n - 1);
        assert(results[n - 1] == !states[n - 1].has_sent());
    }
}

/// Of messages given one after another to a mailbox that has passed nothing on yet, only the
/// first is passed on and reported taken: the mailbox it wraps is handed that one message.
pub proof fn law_only_first_message_passes<M: Mailbox>(
    states: Seq<OnceMailbox<M>>,
    msgs: Seq<M::Message>,
    results: Seq<bool>,
)
    requires
        steps_pass_on(states, msgs, results),
        !states[0].has_sent(),
    ensures
        msgs.len() > 0 ==> results[0] && states.last().inner().given() == states[0].inner().given().push(
            msgs[0],
        ),
        forall|i: int| 0 < i < msgs.len() ==> !(#[trigger] results[i]),
{
    if msgs.len() > 0 {
        assert(results[0] == !states[0].has_sent());
        lemma_inner_settles(states, msgs, results, msgs.len() as int);
        assert(states.last() == states[msgs.len() as int]);
    }
}

} // verus!
