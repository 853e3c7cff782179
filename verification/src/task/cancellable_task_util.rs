use vstd::prelude::*;

verus! {

/// What finishing one of several tasks run side by side does to the others.
#[derive(Clone, Copy, Debug, PartialEq, Eq, Structural, Hash, PartialOrd, Ord)]
pub enum CancellationType {
    CancelOthers,
    ContinueOthers,
}

} // verus!
