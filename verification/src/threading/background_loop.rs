use vstd::prelude::*;

verus! {

/// What a background loop does after handling a message.
#[derive(PartialEq, Eq, Copy, Clone, Debug, Structural)]
pub enum BackgroundLoopBehavior {
    Cancel,
    DontCancel,
}

} // verus!
