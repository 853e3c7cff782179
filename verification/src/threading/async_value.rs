use vstd::prelude::*;

use crate::threading::notifiable::Notifiable;

verus! {

/// The state of an `AsyncValue`: those waiting for the value, or the value.
enum Inner<T, N> {
    Waiters(Vec<N>),
    Value(T),
}

/// A value that is set once, and handed to everyone who asks for it, before or after.
pub struct AsyncValue<T, N> {
    inner: Inner<T, N>,
    notified: Ghost<Seq<N>>,
}

/// `after` is `before` once it has been told a clone of `value`.
pub open spec fn told_clone<T: Clone, N: Notifiable<Message = T>>(before: N, after: N, value: T) -> bool {
    exists|c: T| #[trigger] cloned(value, c) && after.told() == before.told().push(c)
}

impl<T: Clone, N: Notifiable<Message = T>> AsyncValue<T, N> {
    /// The value, once it is set.
    pub closed spec fn value(&self) -> Option<T> {
        match self.inner {
            Inner::Value(v) => Some(v),
            Inner::Waiters(_) => None,
        }
    }

    /// Those waiting to be told the value, in the order they asked.
    pub closed spec fn waiting(&self) -> Seq<N> {
        match self.inner {
            Inner::Waiters(ws) => ws@,
            Inner::Value(_) => Seq::empty(),
        }
    }

    /// Those that have been told the value, in the order they were told, each as it was once
    /// told.
    pub closed spec fn notified(&self) -> Seq<N> {
        self.notified@
    }

    /// A value that is not set yet, with no one waiting for it.
    pub fn new() -> (a: Self)
        ensures
            a.value() is None,
            a.waiting().len() == 0,
            a.notified().len() == 0,
    {
        AsyncValue { inner: Inner::Waiters(Vec::new()), notified: Ghost(Seq::empty()) }
    }

    /// A value that is already set to `value`.
    pub fn from_value(value: T) -> (a: Self)
        ensures
            a.value() == Some(value),
            a.waiting().len() == 0,
            a.notified().len() == 0,
    {
        AsyncValue { inner: Inner::Value(value), notified: Ghost(Seq::empty()) }
    }

    /// The value, if it is set.
    pub fn get_value_if_exists(&self) -> (r: Option<T>)
        ensures
            r is Some <==> self.value() is Some,
            r matches Some(v) ==> cloned(self.value()->0, v),
    {
        match &self.inner {
            Inner::Value(v) => Some(v.clone()),
            Inner::Waiters(_) => None,
        }
    }

    /// Tells `notifiable` the value: at once if it is set, else when it is set.
    pub fn notify(&mut self, notifiable: N)
        ensures
            final(self).value() == old(self).value(),
            old(self).value() is None ==> final(self).waiting() == old(self).waiting().push(notifiable)
                && final(self).notified() == old(self).notified(),
            old(self).value() is Some ==> {
                let after = final(self).notified();
                &&& final(self).waiting().len() == 0
                &&& after.len() == old(self).notified().len() + 1
                &&& after.drop_last() == old(self).notified()
                &&& told_clone(notifiable, after.last(), old(self).value()->0)
            },
    {
        match &mut self.inner {
            Inner::Value(v) => {
                let mut n = notifiable;
                let c = v.clone();
                n.notify(c);
                proof {
                    assert(cloned(*v, c));
                    assert(n.told() == notifiable.told().push(c));
                    self.notified@ = self.notified@.push(n);
                }
            },
            Inner::Waiters(ws) => {
                ws.push(notifiable);
            },
        }
    }

    /// Sets the value and tells everyone waiting, the latest first; does nothing if it is
    /// already set.
    pub fn send(&mut self, value: T)
        ensures
            final(self).value() == (match old(self).value() {
                Some(v) => Some(v),
                None => Some(value),
            }),
            final(self).waiting().len() == 0,
            old(self).value() is Some ==> final(self).notified() == old(self).notified(),
            old(self).value() is None ==> {
                let before = old(self).notified();
                let waiting = old(self).waiting();
                let after = final(self).notified();
                &&& after.len() == before.len() + waiting.len()
                &&& after.take(before.len() as int) == before
                &&& forall|i: int|
                    0 <= i < waiting.len() ==> told_clone(
                        waiting[waiting.len() - 1 - i],
                        #[trigger] after[before.len() + i],
                        value,
                    )
            },
    {
        let mut waiters: Vec<N> = Vec::new();
        match &mut self.inner {
            Inner::Value(_) => {
                return ;
            },
            Inner::Waiters(ws) => {
                std::mem::swap(&mut waiters, ws);
            },
        }
        let ghost before = self.notified@;
        let ghost waiting = waiters@;
        let ghost mut notified = before;
        while waiters.len() > 0
            invariant
                waiters@ == waiting.take(waiters@.len() as int),
                waiters@.len() <= waiting.len(),
                notified.len() == before.len() + (waiting.len() - waiters@.len()),
                notified.take(before.len() as int) == before,
                forall|i: int|
                    0 <= i < waiting.len() - waiters@.len() ==> told_clone(
                        waiting[waiting.len() - 1 - i],
                        #[trigger] notified[before.len() + i],
                        value,
                    ),
            decreases waiters@.len(),
        {
            let mut w = waiters.pop().unwrap();
            let ghost w0 = w;
            let c = value.clone();
            w.notify(c);
            proof {
                assert(cloned(value, c));
                assert(w.told() == w0.told().push(c));
                assert(told_clone(w0, w, value));
                let k = waiting.len() - waiters@.len() - 1;
                assert(w0 == waiting[waiting.len() - 1 - k]);
                notified = notified.push(w);
                assert(waiters@ == waiting.take(waiters@.len() as int));
            }
        }
        self.inner = Inner::Value(value);
        self.notified = Ghost(notified);
    }

    /// The value, which must be set.
    pub fn wait(&self) -> (r: T)
        requires
            self.value() is Some,
        ensures
            cloned(self.value()->0, r),
    {
        self.get_value_if_exists().unwrap()
    }
}

} // verus!
