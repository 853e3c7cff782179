use vstd::prelude::*;

use crate::parasect::types::ParasectPayloadResult;
use crate::range::numeric_range::NumericRange;
use crate::threading::background_loop::BackgroundLoopBehavior;

verus! {

/// What a worker reports about a point.
#[derive(Debug, PartialEq, Eq, Clone, Hash)]
pub enum PointCompletionMessageType {
    /// The payload for the point was started.
    Started,
    /// The payload for the point finished with this result.
    Completed(ParasectPayloadResult),
    /// The payload for the point was cancelled before it finished.
    Cancelled,
}

/// A worker's report about a point, with the ranges to its left and right.
#[derive(Debug, PartialEq, Eq, Clone, Hash)]
pub struct WorkerMessage {
    /// The worker that sent the report.
    pub thread_id: usize,
    /// The point the report is about.
    pub point: i64,
    /// The range to the left of the point, below it.
    pub left: NumericRange,
    /// The range to the right of the point, above it.
    pub right: NumericRange,
    /// What happened to the point.
    pub msg_type: PointCompletionMessageType,
}

/// The report of worker `id` once the payload for `midpoint` is done: `Completed` with the
/// result, or `Cancelled` when there is none.
pub fn result_to_msg(
    id: usize,
    midpoint: i64,
    left: NumericRange,
    right: NumericRange,
    result: Option<&ParasectPayloadResult>,
) -> (m: WorkerMessage)
    ensures
        m.thread_id == id,
        m.point == midpoint,
        m.left == left,
        m.right == right,
        m.msg_type == (match result {
            None => PointCompletionMessageType::Cancelled,
            Some(a) => PointCompletionMessageType::Completed(*a),
        }),
{
    let msg_type = match result {
        None => PointCompletionMessageType::Cancelled,
        Some(a) => PointCompletionMessageType::Completed(a.duplicate()),
    };
    WorkerMessage { thread_id: id, point: midpoint, left, right, msg_type }
}

/// The report of worker `id` that it started on `midpoint`.
pub fn started_msg(id: usize, midpoint: i64, left: NumericRange, right: NumericRange) -> (m:
    WorkerMessage)
    ensures
        m == (WorkerMessage {
            thread_id: id,
            point: midpoint,
            left,
            right,
            msg_type: PointCompletionMessageType::Started,
        }),
{
    WorkerMessage {
        thread_id: id,
        point: midpoint,
        left,
        right,
        msg_type: PointCompletionMessageType::Started,
    }
}

/// Whether a worker busy with `midpoint` stops its payload when `range` is skipped: it does
/// exactly when the range holds the point.
pub fn skip_behavior(range: &NumericRange, midpoint: i64) -> (b: BackgroundLoopBehavior)
    ensures
        b == (if range.has(midpoint as int) {
            BackgroundLoopBehavior::Cancel
        } else {
            BackgroundLoopBehavior::DontCancel
        }),
{
    if range.contains(midpoint) {
        BackgroundLoopBehavior::Cancel
    } else {
        BackgroundLoopBehavior::DontCancel
    }
}

} // verus!
