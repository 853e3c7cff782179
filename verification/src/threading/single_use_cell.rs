use vstd::prelude::*;

verus! {

/// A cell holding a value that can be taken only once.
pub struct SingleUseCell<T> {
    inner: Option<T>,
}

impl<T> SingleUseCell<T> {
    /// The value in the cell, if it is still there.
    pub closed spec fn contents(&self) -> Option<T> {
        self.inner
    }

    /// A cell holding `value`.
    pub fn new(value: T) -> (c: Self)
        ensures
            c.contents() == Some(value),
    {
        SingleUseCell { inner: Some(value) }
    }

    /// A cell holding nothing.
    pub fn empty() -> (c: Self)
        ensures
            c.contents() is None,
    {
        SingleUseCell { inner: None }
    }

    /// `true` if and only if the cell still holds its value.
    pub fn has_value(&self) -> (b: bool)
        ensures
            b == self.contents() is Some,
    {
        self.inner.is_some()
    }

    /// Takes the value out of the cell, leaving it empty; `None` if it was already taken.
    pub fn take(&mut self) -> (r: Option<T>)
        ensures
            r == old(self).contents(),
            final(self).contents() is None,
    {
        self.inner.take()
    }
}

/// Of any number of takes, one after another, from a cell made with `v`, the first gives `v`
/// and every later one gives `None`, and the cell is left empty.
pub proof fn law_value_taken_once<T>(v: T, states: Seq<SingleUseCell<T>>, taken: Seq<Option<T>>)
    requires
        states.len() == taken.len() + 1,
        states[0].contents() == Some(v),
        forall|i: int|
            0 <= i < taken.len() ==> #[trigger] taken[i] == states[i].contents()
                && states[i + 1].contents() is None,
    ensures
        taken.len() > 0 ==> taken[0] == Some(v),
        forall|i: int| 0 < i < taken.len() ==> (#[trigger] taken[i]) is None,
        taken.len() > 0 ==> states.last().contents() is None,
{
    assert forall|i: int| 0 < i < taken.len() implies (#[trigger] taken[i]) is None by {
        assert(taken[i - 1] == states[i - 1].contents() && states[(i - 1) + 1].contents() is None);
    }
    if taken.len() > 0 {
        let n = taken.len() - 1;
        assert(taken[n] == states[n].contents() && states[n + 1].contents() is None);
    }
}

} // verus!
