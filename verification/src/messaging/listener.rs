use vstd::prelude::*;

verus! {

/// What a listener does once it has handled a message.
#[derive(Clone, Copy, Debug, PartialEq, Eq, Structural, Hash, PartialOrd, Ord)]
pub enum ListenerBehavior {
    ContinueProcessing,
    StopProcessing,
}

impl ListenerBehavior {
    /// A listener keeps processing unless told otherwise.
    pub fn default_behavior() -> (b: Self)
        ensures
            b == ListenerBehavior::ContinueProcessing,
    {
        ListenerBehavior::ContinueProcessing
    }
}

} // verus!
