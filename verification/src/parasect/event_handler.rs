use vstd::prelude::*;

use crate::parasect::types::ParasectPayloadAnswer;
use crate::parasect::worker::WorkerMessage;
use crate::range::numeric_range::NumericRange;

verus! {

/// Something that happened during a search, for a user interface to show.
#[derive(PartialEq, Eq, Hash, Clone, Debug)]
pub enum Event {
    /// A worker reported on a point.
    WorkerMessageSent(WorkerMessage),
    /// The search was stopped, for the given reason.
    ParasectCancelled(String),
    /// A range was settled with the given answer.
    RangeInvalidated(NumericRange, ParasectPayloadAnswer),
}

} // verus!
