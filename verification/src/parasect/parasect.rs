use vstd::prelude::*;

use crate::parasect::parasect_result_map::{outcome_of, SearchOutcome};
use crate::parasect::result_store::{drain_results, new_result_store, store_result, stored_results};
use crate::parasect::types::{ParasectError, ParasectPayloadAnswer, ParasectPayloadResult};
use crate::parasect::worker::{result_to_msg, started_msg, PointCompletionMessageType, WorkerMessage};
use crate::range::bisecting_range_queue::{
    covered,
    dequeued,
    kept,
    lemma_dequeue_shrinks,
    queue_has,
    queued_count,
    split_point,
    BisectingRangeQueue,
};
use crate::range::numeric_range::NumericRange;
use crate::threading::background_loop::BackgroundLoopBehavior;
use crate::util::text::{decimal_spec, push_decimal, push_str};
use dashmap::DashMap;

verus! {

/// The text reporting a good point above a bad one.
pub open spec fn good_after_bad_text(good: int, bad: int) -> Seq<char> {
    "A good "@ + decimal_spec(good) + " was detected after a bad "@ + decimal_spec(bad)
        + ". Parasect requires 1 or more good followed by remaining bad."@
}

/// The range that a completed answer settles, with the answer: for a good point, the range to
/// its left and the point; for a bad point, the point and the range to its right. Other
/// messages settle nothing.
pub open spec fn settled_range(m: WorkerMessage) -> Option<(NumericRange, ParasectPayloadAnswer)> {
    match m.msg_type {
        PointCompletionMessageType::Completed(
            ParasectPayloadResult::Continue(ParasectPayloadAnswer::Good),
        ) => Some(
            (
                NumericRange::from_bounds(
                    if m.left.is_empty_spec() {
                        m.point as int
                    } else {
                        m.left.lo()
                    },
                    m.point as int,
                ),
                ParasectPayloadAnswer::Good,
            ),
        ),
        PointCompletionMessageType::Completed(
            ParasectPayloadResult::Continue(ParasectPayloadAnswer::Bad),
        ) => Some(
            (
                NumericRange::from_bounds(
                    m.point as int,
                    if m.right.is_empty_spec() {
                        m.point as int
                    } else {
                        m.right.hi()
                    },
                ),
                ParasectPayloadAnswer::Bad,
            ),
        ),
        _ => None,
    }
}

/// For a command that is good exactly below `t`, a range settled by one of its answers holds
/// only points with that same answer, when the message's left range lies below its point and
/// its right range above it, as those `dequeue` hands out do.
pub proof fn law_settled_range_keeps_answers(m: WorkerMessage, t: int)
    requires
        m.msg_type == PointCompletionMessageType::Completed(
            ParasectPayloadResult::Continue(
                if m.point < t {
                    ParasectPayloadAnswer::Good
                } else {
                    ParasectPayloadAnswer::Bad
                },
            ),
        ),
        m.left.inv(),
        m.right.inv(),
        !m.left.is_empty_spec() ==> m.left.hi() < m.point,
        !m.right.is_empty_spec() ==> m.right.lo() > m.point,
    ensures
        settled_range(m) matches Some((r, a)) ==> forall|x: int|
            #[trigger] r.has(x) ==> (a == ParasectPayloadAnswer::Good <==> x < t),
{
    NumericRange::lemma_from_bounds(
        if m.left.is_empty_spec() {
            m.point as int
        } else {
            m.left.lo()
        },
        m.point as int,
    );
    NumericRange::lemma_from_bounds(
        m.point as int,
        if m.right.is_empty_spec() {
            m.point as int
        } else {
            m.right.hi()
        },
    );
}

/// What the search does after handling a worker's message.
pub struct MessageOutcome {
    /// The range the message settled, with its answer: it is no longer queued, and a worker
    /// running a point inside it can stop.
    pub invalidate: Option<(NumericRange, ParasectPayloadAnswer)>,
    /// A reason to abort the search.
    pub failure: Option<String>,
    /// Whether the message loop stops.
    pub behavior: BackgroundLoopBehavior,
}

/// `true` if some message of `h` reports `r` for the point `p`.
pub open spec fn reported(h: Seq<WorkerMessage>, p: int, r: ParasectPayloadResult) -> bool {
    exists|k: int|
        0 <= k < h.len() && (#[trigger] h[k]).point == p && h[k].msg_type
            == PointCompletionMessageType::Completed(r)
}

/// `true` if some message of `h` reports a stop.
pub open spec fn stopped(h: Seq<WorkerMessage>) -> bool {
    exists|k: int|
        0 <= k < h.len() && (#[trigger] h[k]).msg_type matches PointCompletionMessageType::Completed(
            ParasectPayloadResult::Stop(_),
        )
}

/// `true` if the answer reported by `m` settles the number `x`.
pub open spec fn settles(m: WorkerMessage, x: int) -> bool {
    settled_range(m) matches Some((r, _a)) && r.has(x)
}

/// `true` if `left` lies below the point `p` and `right` above it, as `dequeue` hands them out.
pub open spec fn split_shape(p: int, left: NumericRange, right: NumericRange) -> bool {
    &&& left.inv()
    &&& right.inv()
    &&& !left.is_empty_spec() ==> left.hi() < p
    &&& !right.is_empty_spec() ==> right.lo() > p
}

/// The state of a search, with a record, kept only for proofs, of the points handed out with
/// their ranges, the messages handled, the messages that settled ranges, and whether the search
/// was aborted.
struct SearchCore {
    range: NumericRange,
    queue: BisectingRangeQueue,
    latest_good: i128,
    earliest_bad: i128,
    results: DashMap<i64, ParasectPayloadResult>,
    dispatched: Ghost<Map<int, (NumericRange, NumericRange)>>,
    handled: Ghost<Seq<WorkerMessage>>,
    settlers: Ghost<Seq<WorkerMessage>>,
    aborted: Ghost<bool>,
}

impl SearchCore {
    /// Every number of the range is queued, invalidated, or handed out; unless the search was
    /// aborted, each invalidated number was settled by a handled message whose point has a
    /// result; the ranges handed out lie on either side of their point; every result and
    /// each bound other than the initial one was reported by a handled message; and an
    /// aborted search saw a stop or a good point above a bad one.
    spec fn accounted(&self) -> bool {
        let q = self.queue.queue_spec();
        let inv = self.queue.invalid_spec();
        let m = stored_results(self.results);
        let d = self.dispatched@;
        let h = self.handled@;
        let st = self.settlers@;
        &&& forall|x: int|
            #[trigger] self.range.has(x) ==> queue_has(q, x) || inv.contains(x) || d.contains_key(x)
        &&& !self.aborted@ ==> forall|x: int|
            #[trigger] inv.contains(x) ==> exists|k: int| 0 <= k < st.len() && settles(#[trigger] st[k], x)
        &&& self.range.inv()
        &&& forall|k: int|
            0 <= k < st.len() ==> m.contains_key((#[trigger] st[k]).point) && h.contains(st[k])
                && settled_range(st[k]) is Some
        &&& forall|p: int| #[trigger] d.contains_key(p) ==> split_shape(p, d[p].0, d[p].1)
        &&& forall|x: i64| #[trigger] m.contains_key(x) ==> reported(h, x as int, m[x])
        &&& (self.latest_good == self.range.lo() - 1 || reported(
            h,
            self.latest_good as int,
            ParasectPayloadResult::Continue(ParasectPayloadAnswer::Good),
        ))
        &&& (self.earliest_bad == self.range.hi() + 1 || reported(
            h,
            self.earliest_bad as int,
            ParasectPayloadResult::Continue(ParasectPayloadAnswer::Bad),
        ))
        &&& self.aborted@ ==> stopped(h) || self.latest_good > self.earliest_bad
    }

    #[verifier::type_invariant]
    spec fn is_accounted(&self) -> bool {
        self.accounted()
    }

    /// A search of `range` that has done nothing yet.
    fn start(range: NumericRange) -> (c: Self)
        ensures
            c.range == range,
            c.queue.queue_spec() == seq![range],
            c.queue.invalid_spec() == Set::<int>::empty(),
            c.latest_good == range.lo() - 1,
            c.earliest_bad == range.hi() + 1,
            stored_results(c.results).dom() == Set::<i64>::empty(),
            c.dispatched@ == Map::<int, (NumericRange, NumericRange)>::empty(),
            c.handled@ == Seq::<WorkerMessage>::empty(),
            !c.aborted@,
    {
        proof {
            use_type_invariant(&range);
        }
        let latest_good: i128 = match range.first() {
            Some(f) => f as i128 - 1,
            None => -1,
        };
        let earliest_bad: i128 = match range.last() {
            Some(l) => l as i128 + 1,
            None => 0,
        };
        let queue = BisectingRangeQueue::new(range);
        let results = new_result_store();
        proof {
            assert forall|x: int| #[trigger] range.has(x) implies queue_has(queue.queue_spec(), x) by {
                assert(queue.queue_spec()[0] == range);
            }
        }
        SearchCore {
            range,
            queue,
            latest_good,
            earliest_bad,
            results,
            dispatched: Ghost(Map::empty()),
            handled: Ghost(Seq::empty()),
            settlers: Ghost(Seq::empty()),
            aborted: Ghost(false),
        }
    }
}

/// The highest good point after `point` is found good: the higher of the two.
fn adjust_latest_good(latest_good: i128, point: i64) -> (r: i128)
    ensures
        r == if point > latest_good {
            point as i128
        } else {
            latest_good
        },
{
    if (point as i128) > latest_good {
        point as i128
    } else {
        latest_good
    }
}

/// The lowest bad point after `point` is found bad: the lower of the two.
fn adjust_earliest_bad(earliest_bad: i128, point: i64) -> (r: i128)
    ensures
        r == if point < earliest_bad {
            point as i128
        } else {
            earliest_bad
        },
{
    if (point as i128) < earliest_bad {
        point as i128
    } else {
        earliest_bad
    }
}

/// A reason to abort if the highest good point lies above the lowest bad one.
fn check_good_does_not_exceed_bad(latest_good: i128, earliest_bad: i128) -> (r: Option<String>)
    ensures
        latest_good > earliest_bad <==> r is Some,
        r matches Some(s) ==> s@ == good_after_bad_text(latest_good as int, earliest_bad as int),
{
    if latest_good > earliest_bad {
        let mut s = String::from_str("A good ");
        push_decimal(&mut s, latest_good);
        push_str(&mut s, " was detected after a bad ");
        push_decimal(&mut s, earliest_bad);
        push_str(&mut s, ". Parasect requires 1 or more good followed by remaining bad.");
        proof {
            assert(s@ =~= good_after_bad_text(latest_good as int, earliest_bad as int));
        }
        Some(s)
    } else {
        None
    }
}

proof fn lemma_reported_push(h: Seq<WorkerMessage>, m: WorkerMessage, p: int, r: ParasectPayloadResult)
    requires
        reported(h, p, r),
    ensures
        reported(h.push(m), p, r),
{
    let k = choose|k: int|
        0 <= k < h.len() && (#[trigger] h[k]).point == p && h[k].msg_type
            == PointCompletionMessageType::Completed(r);
    assert(h.push(m)[k] == h[k]);
}

impl SearchCore {
    /// Hands out the next point to run with the ranges to its left and right, as the queue's
    /// `dequeue` gives them, recording it.
    fn take_next(self) -> (r: (Self, Option<(i64, NumericRange, NumericRange)>))
        ensures
            dequeued(self.queue.queue_spec(), self.queue.invalid_spec(), r.1, r.0.queue.queue_spec()),
            r.0.queue.invalid_spec() == self.queue.invalid_spec(),
            r.0.range == self.range,
            r.0.latest_good == self.latest_good,
            r.0.earliest_bad == self.earliest_bad,
            stored_results(r.0.results) == stored_results(self.results),
            r.0.handled@ == self.handled@,
            r.0.aborted@ == self.aborted@,
            r.0.dispatched@ == (match r.1 {
                Some((mid, left, right)) => self.dispatched@.insert(mid as int, (left, right)),
                None => self.dispatched@,
            }),
            r.1 matches Some((mid, _l, _r)) ==> queue_has(self.queue.queue_spec(), mid as int)
                && !queue_has(r.0.queue.queue_spec(), mid as int)
                && queued_count(r.0.queue.queue_spec()) < queued_count(self.queue.queue_spec()),
            forall|x: int|
                #[trigger] queue_has(r.0.queue.queue_spec(), x) ==> queue_has(self.queue.queue_spec(), x),
    {
        proof {
            use_type_invariant(&self);
        }
        let SearchCore {
            range,
            mut queue,
            latest_good,
            earliest_bad,
            results,
            dispatched,
            handled,
            settlers,
            aborted,
        } = self;
        proof {
            use_type_invariant(&queue);
        }
        let ghost q0 = queue.queue_spec();
        let ghost inv0 = queue.invalid_spec();
        let next = queue.dequeue();
        proof {
            if next is Some {
                lemma_dequeue_shrinks(q0, inv0, next, queue.queue_spec());
            }
        }
        let ghost d1 = match next {
            Some((mid, left, right)) => dispatched@.insert(mid as int, (left, right)),
            None => dispatched@,
        };
        proof {
            match next {
                Some((mid, left, right)) => {
                    let k = choose|k: int|
                        0 <= k < q0.len() && (forall|i: int|
                            0 <= i < k ==> covered(#[trigger] q0[i], inv0)) && !covered(q0[k], inv0)
                            && mid == split_point(q0[k]) && left == NumericRange::from_bounds(
                            q0[k].lo(),
                            mid - 1,
                        ) && right == NumericRange::from_bounds(mid + 1, q0[k].hi()) && queue.queue_spec()
                            == q0.skip(k + 1) + kept(left, inv0) + kept(right, inv0);
                    assert(queue_has(q0, mid as int));
                    let j = choose|j: int| 0 <= j < q0.len() && (#[trigger] q0[j]).has(mid as int);
                    assert(q0[j].inv());
                    assert(q0[k].inv());
                    NumericRange::lemma_from_bounds(q0[k].lo(), mid - 1);
                    NumericRange::lemma_from_bounds(mid + 1, q0[k].hi());
                    assert(split_shape(mid as int, left, right));
                },
                None => {},
            }
            assert forall|x: int| #[trigger] range.has(x) implies queue_has(queue.queue_spec(), x)
                || inv0.contains(x) || d1.contains_key(x) by {
                if dispatched@.contains_key(x) {
                    assert(d1.contains_key(x));
                } else if queue_has(q0, x) {
                    match next {
                        Some((mid, _l, _r)) => {
                            if x == mid {
                                assert(d1.contains_key(x));
                            }
                        },
                        None => {},
                    }
                }
            }
            assert forall|p: int| #[trigger] d1.contains_key(p) implies split_shape(p, d1[p].0, d1[p].1) by {
                if dispatched@.contains_key(p) && !(next matches Some((mid, _l, _r)) && mid == p) {
                    assert(d1[p] == dispatched@[p]);
                }
            }
        }
        (
            SearchCore {
                range,
                queue,
                latest_good,
                earliest_bad,
                results,
                dispatched: Ghost(d1),
                handled,
                settlers,
                aborted,
            },
            next,
        )
    }
}

impl SearchCore {
    /// Handles a worker's message, settling in the queue the range that its answer settles,
    /// and invalidating the whole range when the search is aborted.
    fn handle(self, message: &WorkerMessage) -> (r: (Self, MessageOutcome))
        ensures
            r.1.invalidate == settled_range(*message),
            r.0.range == self.range,
            r.0.queue.queue_spec() == self.queue.queue_spec(),
            forall|x: int|
                #[trigger] r.0.queue.invalid_spec().contains(x) <==> self.queue.invalid_spec().contains(x)
                    || settles(*message, x) || (r.1.failure is Some && self.range.has(x)),
            r.0.dispatched@ == self.dispatched@,
            r.0.handled@ == self.handled@.push(*message),
            handling(
                *message,
                self.latest_good as int,
                self.earliest_bad as int,
                stored_results(self.results),
                r.0.latest_good as int,
                r.0.earliest_bad as int,
                stored_results(r.0.results),
                r.1,
            ),
    {
        proof {
            use_type_invariant(&self);
        }
        let SearchCore {
            range,
            mut queue,
            mut latest_good,
            mut earliest_bad,
            mut results,
            dispatched,
            handled,
            settlers,
            aborted,
        } = self;
        let ghost h0 = handled@;
        let ghost m0 = stored_results(results);
        let ghost lg0 = latest_good;
        let ghost eb0 = earliest_bad;
        let ghost inv0 = queue.invalid_spec();
        let ghost h1 = h0.push(*message);
        let outcome = match &message.msg_type {
            PointCompletionMessageType::Completed(result) => {
                let point = message.point;
                match result {
                    ParasectPayloadResult::Continue(ParasectPayloadAnswer::Good) => {
                        latest_good = adjust_latest_good(latest_good, point);
                        let failure = check_good_does_not_exceed_bad(latest_good, earliest_bad);
                        let low = match message.left.first() {
                            Some(l) => l,
                            None => point,
                        };
                        let settled = NumericRange::from_endpoints_inclusive(low, point);
                        store_result(&mut results, point, result.duplicate());
                        queue.invalidate(&settled);
                        MessageOutcome {
                            invalidate: Some((settled, ParasectPayloadAnswer::Good)),
                            failure,
                            behavior: BackgroundLoopBehavior::DontCancel,
                        }
                    },
                    ParasectPayloadResult::Continue(ParasectPayloadAnswer::Bad) => {
                        earliest_bad = adjust_earliest_bad(earliest_bad, point);
                        let failure = check_good_does_not_exceed_bad(latest_good, earliest_bad);
                        let high = match message.right.last() {
                            Some(h) => h,
                            None => point,
                        };
                        let settled = NumericRange::from_endpoints_inclusive(point, high);
                        store_result(&mut results, point, result.duplicate());
                        queue.invalidate(&settled);
                        MessageOutcome {
                            invalidate: Some((settled, ParasectPayloadAnswer::Bad)),
                            failure,
                            behavior: BackgroundLoopBehavior::DontCancel,
                        }
                    },
                    ParasectPayloadResult::Stop(reason) => {
                        let failure = Some(reason.clone());
                        store_result(&mut results, point, result.duplicate());
                        MessageOutcome {
                            invalidate: None,
                            failure,
                            behavior: BackgroundLoopBehavior::Cancel,
                        }
                    },
                }
            },
            _ => MessageOutcome {
                invalidate: None,
                failure: None,
                behavior: BackgroundLoopBehavior::DontCancel,
            },
        };
        let ghost inv1 = queue.invalid_spec();
        if outcome.failure.is_some() {
            queue.invalidate(&range);
        }
        let ghost st1 = if settled_range(*message) is Some {
            settlers@.push(*message)
        } else {
            settlers@
        };
        let ghost ab1 = aborted@ || outcome.failure is Some;
        proof {
            let m1 = stored_results(results);
            let inv2 = queue.invalid_spec();
            let st0 = settlers@;
            assert(h1.last() == *message);
            assert(h1.len() == h0.len() + 1);
            assert forall|k: int| 0 <= k < h0.len() implies h1[k] == h0[k] by {}
            // Every old record still holds with one more message.
            assert forall|x: i64| #[trigger] m1.contains_key(x) implies reported(h1, x as int, m1[x]) by {
                if message.msg_type is Completed && x == message.point {
                    assert(h1[h0.len() as int] == *message);
                } else {
                    lemma_reported_push(h0, *message, x as int, m0[x]);
                }
            }
            if latest_good != lg0 {
                assert(h1[h0.len() as int] == *message);
            } else if lg0 != range.lo() - 1 {
                lemma_reported_push(h0, *message, lg0 as int, ParasectPayloadResult::Continue(ParasectPayloadAnswer::Good));
            }
            if earliest_bad != eb0 {
                assert(h1[h0.len() as int] == *message);
            } else if eb0 != range.hi() + 1 {
                lemma_reported_push(h0, *message, eb0 as int, ParasectPayloadResult::Continue(ParasectPayloadAnswer::Bad));
            }
            if ab1 {
                if aborted@ && stopped(h0) {
                    let k = choose|k: int|
                        0 <= k < h0.len() && (#[trigger] h0[k]).msg_type matches PointCompletionMessageType::Completed(
                            ParasectPayloadResult::Stop(_),
                        );
                    assert(h1[k] == h0[k]);
                } else if message.msg_type matches PointCompletionMessageType::Completed(ParasectPayloadResult::Stop(_)) {
                    assert(h1[h0.len() as int] == *message);
                }
            }
            assert forall|k: int| 0 <= k < st1.len() implies m1.contains_key((#[trigger] st1[k]).point)
                && h1.contains(st1[k]) && settled_range(st1[k]) is Some by {
                if k < st0.len() {
                    assert(st1[k] == st0[k]);
                    assert(h0.contains(st0[k]));
                    let j = choose|j: int| 0 <= j < h0.len() && h0[j] == st0[k];
                    assert(h1[j] == st0[k]);
                } else {
                    assert(st1[k] == *message);
                    assert(h1[h0.len() as int] == *message);
                }
            }
            if !ab1 {
                assert forall|x: int| #[trigger] inv2.contains(x) implies exists|k: int|
                    0 <= k < st1.len() && settles(#[trigger] st1[k], x) by {
                    if inv0.contains(x) {
                        let k = choose|k: int| 0 <= k < st0.len() && settles(#[trigger] st0[k], x);
                        assert(st1[k] == st0[k]);
                    } else {
                        assert(settles(*message, x));
                        assert(st1[st0.len() as int] == *message);
                    }
                }
            }
        }
        (
            SearchCore {
                range,
                queue,
                latest_good,
                earliest_bad,
                results,
                dispatched,
                handled: Ghost(h1),
                settlers: Ghost(st1),
                aborted: Ghost(ab1),
            },
            outcome,
        )
    }
}

/// What handling `message` does, from the highest good point `lg0`, the lowest bad point
/// `eb0` and the results `m0`, to `lg1`, `eb1` and `m1`, giving `o`.
///
/// A completed good point raises the highest good point and a completed bad point lowers the
/// lowest bad point; both are recorded, and the search is aborted, with a text saying why, when
/// a good point lies above a bad one. A stop is recorded and aborts the search with its reason.
/// Other messages change nothing.
pub open spec fn handling(
    message: WorkerMessage,
    lg0: int,
    eb0: int,
    m0: Map<i64, ParasectPayloadResult>,
    lg1: int,
    eb1: int,
    m1: Map<i64, ParasectPayloadResult>,
    o: MessageOutcome,
) -> bool {
    match message.msg_type {
        PointCompletionMessageType::Completed(result) => {
            &&& m1 == m0.insert(message.point, result)
            &&& match result {
                ParasectPayloadResult::Continue(ParasectPayloadAnswer::Good) => {
                    &&& lg1 == if message.point > lg0 {
                        message.point as int
                    } else {
                        lg0
                    }
                    &&& eb1 == eb0
                    &&& (o.failure is Some <==> lg1 > eb1)
                    &&& (o.failure matches Some(s) ==> s@ == good_after_bad_text(lg1, eb1))
                    &&& o.behavior == BackgroundLoopBehavior::DontCancel
                },
                ParasectPayloadResult::Continue(ParasectPayloadAnswer::Bad) => {
                    &&& eb1 == if message.point < eb0 {
                        message.point as int
                    } else {
                        eb0
                    }
                    &&& lg1 == lg0
                    &&& (o.failure is Some <==> lg1 > eb1)
                    &&& (o.failure matches Some(s) ==> s@ == good_after_bad_text(lg1, eb1))
                    &&& o.behavior == BackgroundLoopBehavior::DontCancel
                },
                ParasectPayloadResult::Stop(reason) => {
                    &&& lg1 == lg0
                    &&& eb1 == eb0
                    &&& o.failure matches Some(s) && s@ == reason@
                    &&& o.behavior == BackgroundLoopBehavior::Cancel
                },
            }
        },
        _ => {
            &&& m1 == m0
            &&& lg1 == lg0
            &&& eb1 == eb0
            &&& o.failure is None
            &&& o.behavior == BackgroundLoopBehavior::DontCancel
        },
    }
}

/// Handling a message keeps the highest point found good and the lowest point found bad: a
/// completed good point raises the highest good point to itself if it lies higher, a completed
/// bad point lowers the lowest bad point to itself if it lies lower, the other bound stays, and
/// the completed result is stored for its point. The search fails exactly when the highest
/// good point then lies above the lowest bad one, or the message is a stop; messages that
/// complete nothing change nothing.
pub proof fn law_handling_keeps_extremes(
    message: WorkerMessage,
    lg0: int,
    eb0: int,
    m0: Map<i64, ParasectPayloadResult>,
    lg1: int,
    eb1: int,
    m1: Map<i64, ParasectPayloadResult>,
    o: MessageOutcome,
)
    requires
        handling(message, lg0, eb0, m0, lg1, eb1, m1, o),
    ensures
        message.msg_type == PointCompletionMessageType::Completed(
            ParasectPayloadResult::Continue(ParasectPayloadAnswer::Good),
        ) ==> lg0 <= lg1 && message.point <= lg1 && (lg1 == lg0 || lg1 == message.point) && eb1 == eb0
            && (o.failure is Some <==> lg1 > eb1),
        message.msg_type == PointCompletionMessageType::Completed(
            ParasectPayloadResult::Continue(ParasectPayloadAnswer::Bad),
        ) ==> eb1 <= eb0 && eb1 <= message.point && (eb1 == eb0 || eb1 == message.point) && lg1 == lg0
            && (o.failure is Some <==> lg1 > eb1),
        message.msg_type matches PointCompletionMessageType::Completed(r) ==> m1.contains_key(
            message.point,
        ) && m1[message.point] == r && forall|x: i64| x != message.point ==> (m1.contains_key(x)
            <==> m0.contains_key(x)) && (m0.contains_key(x) ==> #[trigger] m1[x] == m0[x]),
        message.msg_type matches PointCompletionMessageType::Completed(ParasectPayloadResult::Stop(
            reason,
        )) ==> o.failure matches Some(f) && f@ == reason@ && lg1 == lg0 && eb1 == eb0,
        !(message.msg_type is Completed) ==> lg1 == lg0 && eb1 == eb0 && m1 == m0 && o.failure is None,
{
}

/// A running search of a range: the queue of ranges still to split, the highest good point,
/// the lowest bad point, and every completed point's result.
pub struct ParasectController {
    core: SearchCore,
}

impl ParasectController {
    /// The range being searched.
    pub closed spec fn range_spec(&self) -> NumericRange {
        self.core.range
    }

    /// The ranges waiting to be split, front first.
    pub closed spec fn queue_spec(&self) -> Seq<NumericRange> {
        self.core.queue.queue_spec()
    }

    /// The numbers that were settled or given up.
    pub closed spec fn invalid_spec(&self) -> Set<int> {
        self.core.queue.invalid_spec()
    }

    /// The highest point found good, or one below the range.
    pub closed spec fn latest_good_spec(&self) -> int {
        self.core.latest_good as int
    }

    /// The lowest point found bad, or one above the range.
    pub closed spec fn earliest_bad_spec(&self) -> int {
        self.core.earliest_bad as int
    }

    /// The completed points' results.
    pub closed spec fn results_spec(&self) -> Map<i64, ParasectPayloadResult> {
        stored_results(self.core.results)
    }

    /// The points handed out so far, each with the ranges to its left and right.
    pub closed spec fn dispatched_spec(&self) -> Map<int, (NumericRange, NumericRange)> {
        self.core.dispatched@
    }

    /// The messages handled so far, in order.
    pub closed spec fn handled_spec(&self) -> Seq<WorkerMessage> {
        self.core.handled@
    }

    /// The search's record is consistent with what it did, as every search's is.
    pub closed spec fn accounted(&self) -> bool {
        self.core.accounted()
    }

    /// Hands out the next point to run, with the ranges to its left and right, as the queue's
    /// `dequeue` gives them: the middle of the first queued range that is not entirely settled.
    /// `None` when no range is left.
    pub fn dequeue(&mut self) -> (r: Option<(i64, NumericRange, NumericRange)>)
        ensures
            final(self).accounted(),
            dequeued(old(self).queue_spec(), old(self).invalid_spec(), r, final(self).queue_spec()),
            final(self).invalid_spec() == old(self).invalid_spec(),
            final(self).range_spec() == old(self).range_spec(),
            final(self).latest_good_spec() == old(self).latest_good_spec(),
            final(self).earliest_bad_spec() == old(self).earliest_bad_spec(),
            final(self).results_spec() == old(self).results_spec(),
            final(self).handled_spec() == old(self).handled_spec(),
            final(self).dispatched_spec() == (match r {
                Some((mid, left, right)) => old(self).dispatched_spec().insert(mid as int, (left, right)),
                None => old(self).dispatched_spec(),
            }),
            r matches Some((mid, _l, _r)) ==> queue_has(old(self).queue_spec(), mid as int)
                && !queue_has(final(self).queue_spec(), mid as int)
                && queued_count(final(self).queue_spec()) < queued_count(old(self).queue_spec()),
            forall|x: int|
                #[trigger] queue_has(final(self).queue_spec(), x) ==> queue_has(old(self).queue_spec(), x),
    {
        // The state is moved out while it is updated; an empty search stands in meanwhile.
        let mut core = SearchCore::start(NumericRange::empty());
        std::mem::swap(&mut core, &mut self.core);
        let (core, r) = core.take_next();
        self.core = core;
        proof {
            use_type_invariant(&self.core);
        }
        r
    }

    /// Handles a worker's message, as `handling` says, and settles in the queue the range
    /// that its answer settles; when the search is aborted, the whole range is given up.
    pub fn handle_message(&mut self, message: &WorkerMessage) -> (o: MessageOutcome)
        ensures
            final(self).accounted(),
            o.invalidate == settled_range(*message),
            handling(
                *message,
                old(self).latest_good_spec(),
                old(self).earliest_bad_spec(),
                old(self).results_spec(),
                final(self).latest_good_spec(),
                final(self).earliest_bad_spec(),
                final(self).results_spec(),
                o,
            ),
            final(self).queue_spec() == old(self).queue_spec(),
            forall|x: int|
                #[trigger] final(self).invalid_spec().contains(x) <==> old(self).invalid_spec().contains(x)
                    || settles(*message, x) || (o.failure is Some && old(self).range_spec().has(x)),
            final(self).range_spec() == old(self).range_spec(),
            final(self).dispatched_spec() == old(self).dispatched_spec(),
            final(self).handled_spec() == old(self).handled_spec().push(*message),
    {
        // The state is moved out while it is updated; an empty search stands in meanwhile.
        let mut core = SearchCore::start(NumericRange::empty());
        std::mem::swap(&mut core, &mut self.core);
        let (core, o) = core.handle(message);
        self.core = core;
        proof {
            use_type_invariant(&self.core);
        }
        o
    }

    /// The completed points' results, as the final answer of the search.
    pub fn finish(self) -> (r: Result<i64, ParasectError>)
        ensures
            exists|entries: Seq<(i64, ParasectPayloadResult)>|
                #[trigger] entries_match(entries, self.results_spec()) && outcome_of(r)
                    == result_outcome(entries),
    {
        let ghost m = self.results_spec();
        let ParasectController { core } = self;
        let SearchCore { results, .. } = core;
        let r = process_result_map(results);
        proof {
            let entries = choose|entries: Seq<(i64, ParasectPayloadResult)>|
                #[trigger] entries_match(entries, m) && outcome_of(r) == result_outcome(entries);
            assert(entries_match(entries, m));
        }
        r
    }
}

/// `true` if `entries` lists each entry of `m` exactly once.
pub open spec fn entries_match(
    entries: Seq<(i64, ParasectPayloadResult)>,
    m: Map<i64, ParasectPayloadResult>,
) -> bool {
    &&& forall|i: int| 0 <= i < entries.len() ==> m.contains_key(#[trigger] entries[i].0)
        && m[entries[i].0] == entries[i].1
    &&& forall|i: int, j: int| 0 <= i < j < entries.len() ==> (#[trigger] entries[i]).0 != (
    #[trigger] entries[j]).0
    &&& forall|k: i64| #[trigger] m.contains_key(k) ==> exists|i: int|
        0 <= i < entries.len() && (#[trigger] entries[i]).0 == k
}

/// The reason of the first stop among `entries`, if there is one.
pub open spec fn first_stop(entries: Seq<(i64, ParasectPayloadResult)>) -> Option<Seq<char>>
    decreases entries.len(),
{
    if entries.len() == 0 {
        None
    } else {
        match first_stop(entries.drop_last()) {
            Some(e) => Some(e),
            None => match entries.last().1 {
                ParasectPayloadResult::Stop(e) => Some(e@),
                _ => None,
            },
        }
    }
}

/// The lowest point among `entries` with the given answer, if there is one.
pub open spec fn lowest_with(entries: Seq<(i64, ParasectPayloadResult)>, a: ParasectPayloadAnswer) -> Option<int>
    decreases entries.len(),
{
    if entries.len() == 0 {
        None
    } else {
        let rest = lowest_with(entries.drop_last(), a);
        if entries.last().1 == ParasectPayloadResult::Continue(a) {
            match rest {
                Some(m) => Some(if entries.last().0 < m { entries.last().0 as int } else { m }),
                None => Some(entries.last().0 as int),
            }
        } else {
            rest
        }
    }
}

/// The highest point among `entries` with the given answer, if there is one.
pub open spec fn highest_with(entries: Seq<(i64, ParasectPayloadResult)>, a: ParasectPayloadAnswer) -> Option<int>
    decreases entries.len(),
{
    if entries.len() == 0 {
        None
    } else {
        let rest = highest_with(entries.drop_last(), a);
        if entries.last().1 == ParasectPayloadResult::Continue(a) {
            match rest {
                Some(m) => Some(if entries.last().0 > m { entries.last().0 as int } else { m }),
                None => Some(entries.last().0 as int),
            }
        } else {
            rest
        }
    }
}

/// The text reporting a good point after a bad one.
pub open spec fn good_point_after_bad_text(good: int, bad: int) -> Seq<char> {
    "Found good point "@ + decimal_spec(good) + " after bad point "@ + decimal_spec(bad) + "."@
}

/// The answer a search gives from its completed points: the reason of the first stop; or
/// an inconsistency when no point is good, no point is bad, or a good point is not below
/// every bad point; or else the lowest bad point.
pub open spec fn result_outcome(entries: Seq<(i64, ParasectPayloadResult)>) -> SearchOutcome {
    match first_stop(entries) {
        Some(e) => SearchOutcome::Payload(e),
        None => match (
            lowest_with(entries, ParasectPayloadAnswer::Good),
            highest_with(entries, ParasectPayloadAnswer::Good),
            lowest_with(entries, ParasectPayloadAnswer::Bad),
        ) {
            (Some(min_good), Some(max_good), Some(min_bad)) => if max_good < min_bad {
                SearchOutcome::Found(min_bad)
            } else {
                SearchOutcome::Inconsistent(good_point_after_bad_text(min_good, min_bad))
            },
            (None, _, _) => SearchOutcome::Inconsistent("All points were bad."@),
            _ => SearchOutcome::Inconsistent("All points were good."@),
        },
    }
}

/// What `lowest_with` and `highest_with` find: `None` exactly when no entry has the answer
/// `a`, else the point of an entry with `a` that is at most (at least) every such point.
proof fn lemma_extremes_with(entries: Seq<(i64, ParasectPayloadResult)>, a: ParasectPayloadAnswer)
    ensures
        lowest_with(entries, a) is None <==> forall|i: int|
            0 <= i < entries.len() ==> (#[trigger] entries[i]).1 != ParasectPayloadResult::Continue(a),
        highest_with(entries, a) is None <==> lowest_with(entries, a) is None,
        lowest_with(entries, a) matches Some(m) ==> (exists|i: int|
            0 <= i < entries.len() && (#[trigger] entries[i]).1 == ParasectPayloadResult::Continue(a)
                && entries[i].0 == m) && forall|i: int|
            0 <= i < entries.len() && (#[trigger] entries[i]).1 == ParasectPayloadResult::Continue(a)
                ==> m <= entries[i].0,
        highest_with(entries, a) matches Some(m) ==> (exists|i: int|
            0 <= i < entries.len() && (#[trigger] entries[i]).1 == ParasectPayloadResult::Continue(a)
                && entries[i].0 == m) && forall|i: int|
            0 <= i < entries.len() && (#[trigger] entries[i]).1 == ParasectPayloadResult::Continue(a)
                ==> entries[i].0 <= m,
    decreases entries.len(),
{
    if entries.len() > 0 {
        let rest = entries.drop_last();
        let n = entries.len() - 1;
        lemma_extremes_with(rest, a);
        assert(entries.last() == entries[n]);
        assert forall|i: int| 0 <= i < n implies #[trigger] rest[i] == entries[i] by {}
        if lowest_with(entries, a) is None {
            assert forall|i: int| 0 <= i < entries.len() implies (#[trigger] entries[i]).1
                != ParasectPayloadResult::Continue(a) by {
                if i < n {
                    assert(rest[i] == entries[i]);
                }
            }
        }
        if lowest_with(rest, a) is None && entries[n].1 != ParasectPayloadResult::Continue(a) {
        } else {
            if lowest_with(rest, a) is Some {
                let i = choose|i: int|
                    0 <= i < rest.len() && (#[trigger] rest[i]).1 == ParasectPayloadResult::Continue(a);
                assert(rest[i] == entries[i]);
            }
        }
        match lowest_with(entries, a) {
            Some(m) => {
                assert forall|i: int|
                    0 <= i < entries.len() && (#[trigger] entries[i]).1 == ParasectPayloadResult::Continue(a)
                        implies m <= entries[i].0 by {
                    if i < n {
                        assert(rest[i] == entries[i]);
                    }
                }
                if m == entries[n].0 && entries[n].1 == ParasectPayloadResult::Continue(a) {
                } else {
                    let j = choose|j: int|
                        0 <= j < rest.len() && (#[trigger] rest[j]).1 == ParasectPayloadResult::Continue(a)
                            && rest[j].0 == m;
                    assert(rest[j] == entries[j]);
                }
            },
            None => {},
        }
        match highest_with(entries, a) {
            Some(m) => {
                assert forall|i: int|
                    0 <= i < entries.len() && (#[trigger] entries[i]).1 == ParasectPayloadResult::Continue(a)
                        implies entries[i].0 <= m by {
                    if i < n {
                        assert(rest[i] == entries[i]);
                    }
                }
                if m == entries[n].0 && entries[n].1 == ParasectPayloadResult::Continue(a) {
                } else {
                    let j = choose|j: int|
                        0 <= j < rest.len() && (#[trigger] rest[j]).1 == ParasectPayloadResult::Continue(a)
                            && rest[j].0 == m;
                    assert(rest[j] == entries[j]);
                }
            },
            None => {},
        }
    }
}

/// What `first_stop` finds: `None` exactly when no entry is a stop, else the reason of the
/// first entry that is one.
proof fn lemma_first_stop_is_first(entries: Seq<(i64, ParasectPayloadResult)>)
    ensures
        first_stop(entries) is None <==> forall|i: int|
            0 <= i < entries.len() ==> !((#[trigger] entries[i]).1 is Stop),
        first_stop(entries) matches Some(e) ==> exists|i: int|
            0 <= i < entries.len() && ((#[trigger] entries[i]).1 matches ParasectPayloadResult::Stop(r)
                && r@ == e) && forall|j: int| 0 <= j < i ==> !((#[trigger] entries[j]).1 is Stop),
    decreases entries.len(),
{
    if entries.len() > 0 {
        let rest = entries.drop_last();
        let n = entries.len() - 1;
        lemma_first_stop_is_first(rest);
        assert(entries.last() == entries[n]);
        assert forall|i: int| 0 <= i < n implies #[trigger] rest[i] == entries[i] by {}
        match first_stop(rest) {
            Some(e) => {
                let i = choose|i: int|
                    0 <= i < rest.len() && ((#[trigger] rest[i]).1 matches ParasectPayloadResult::Stop(r)
                        && r@ == e) && forall|j: int| 0 <= j < i ==> !((#[trigger] rest[j]).1 is Stop);
                assert(rest[i] == entries[i]);
                assert forall|j: int| 0 <= j < i implies !((#[trigger] entries[j]).1 is Stop) by {
                    assert(rest[j] == entries[j]);
                }
            },
            None => {
                if first_stop(entries) is None {
                    assert forall|i: int| 0 <= i < entries.len() implies !((#[trigger] entries[i]).1 is Stop) by {
                        if i < n {
                            assert(rest[i] == entries[i]);
                        }
                    }
                } else {
                    assert forall|j: int| 0 <= j < n implies !((#[trigger] entries[j]).1 is Stop) by {
                        assert(rest[j] == entries[j]);
                    }
                }
            },
        }
    }
}

/// A stop among the results decides the answer, whatever the good and bad points are: the
/// search fails with the reason of the first stop.
pub proof fn law_stop_decides(entries: Seq<(i64, ParasectPayloadResult)>)
    requires
        exists|i: int| 0 <= i < entries.len() && (#[trigger] entries[i]).1 is Stop,
    ensures
        result_outcome(entries) matches SearchOutcome::Payload(e) && exists|i: int|
            0 <= i < entries.len() && ((#[trigger] entries[i]).1 matches ParasectPayloadResult::Stop(r)
                && r@ == e) && forall|j: int| 0 <= j < i ==> !((#[trigger] entries[j]).1 is Stop),
{
    lemma_first_stop_is_first(entries);
}

/// A search answers a point only when there is no stop, the point is the lowest bad point,
/// and some point was found good and every good point lies below it.
pub proof fn law_found_is_lowest_bad(entries: Seq<(i64, ParasectPayloadResult)>, b: int)
    requires
        result_outcome(entries) == SearchOutcome::Found(b),
    ensures
        forall|i: int| 0 <= i < entries.len() ==> !((#[trigger] entries[i]).1 is Stop),
        exists|i: int|
            0 <= i < entries.len() && (#[trigger] entries[i]).1 == ParasectPayloadResult::Continue(
                ParasectPayloadAnswer::Bad,
            ) && entries[i].0 == b,
        exists|i: int|
            0 <= i < entries.len() && (#[trigger] entries[i]).1 == ParasectPayloadResult::Continue(
                ParasectPayloadAnswer::Good,
            ),
        forall|i: int|
            0 <= i < entries.len() && (#[trigger] entries[i]).1 == ParasectPayloadResult::Continue(
                ParasectPayloadAnswer::Bad,
            ) ==> b <= entries[i].0,
        forall|i: int|
            0 <= i < entries.len() && (#[trigger] entries[i]).1 == ParasectPayloadResult::Continue(
                ParasectPayloadAnswer::Good,
            ) ==> entries[i].0 < b,
{
    lemma_first_stop_is_first(entries);
    lemma_extremes_with(entries, ParasectPayloadAnswer::Good);
    lemma_extremes_with(entries, ParasectPayloadAnswer::Bad);
}

/// Without a stop, a good point at or above a bad point makes the search inconsistent, reported
/// with the lowest good point and the lowest bad point.
pub proof fn law_good_at_or_above_bad_is_inconsistent(
    entries: Seq<(i64, ParasectPayloadResult)>,
    g: int,
    b: int,
)
    requires
        forall|i: int| 0 <= i < entries.len() ==> !((#[trigger] entries[i]).1 is Stop),
        0 <= g < entries.len(),
        0 <= b < entries.len(),
        entries[g].1 == ParasectPayloadResult::Continue(ParasectPayloadAnswer::Good),
        entries[b].1 == ParasectPayloadResult::Continue(ParasectPayloadAnswer::Bad),
        entries[g].0 >= entries[b].0,
    ensures
        exists|lg: int, lb: int|
            0 <= lg < entries.len() && 0 <= lb < entries.len() && (#[trigger] entries[lg]).1
                == ParasectPayloadResult::Continue(ParasectPayloadAnswer::Good) && (#[trigger] entries[lb]).1
                == ParasectPayloadResult::Continue(ParasectPayloadAnswer::Bad) && (forall|i: int|
                0 <= i < entries.len() && (#[trigger] entries[i]).1 == ParasectPayloadResult::Continue(
                    ParasectPayloadAnswer::Good,
                ) ==> entries[lg].0 <= entries[i].0) && (forall|i: int|
                0 <= i < entries.len() && (#[trigger] entries[i]).1 == ParasectPayloadResult::Continue(
                    ParasectPayloadAnswer::Bad,
                ) ==> entries[lb].0 <= entries[i].0) && result_outcome(entries)
                == SearchOutcome::Inconsistent(
                good_point_after_bad_text(entries[lg].0 as int, entries[lb].0 as int),
            ),
{
    lemma_first_stop_is_first(entries);
    lemma_extremes_with(entries, ParasectPayloadAnswer::Good);
    lemma_extremes_with(entries, ParasectPayloadAnswer::Bad);
    let good = ParasectPayloadResult::Continue(ParasectPayloadAnswer::Good);
    let bad = ParasectPayloadResult::Continue(ParasectPayloadAnswer::Bad);
    assert(entries[g].1 == good);
    assert(entries[b].1 == bad);
    let min_good = lowest_with(entries, ParasectPayloadAnswer::Good)->0;
    let max_good = highest_with(entries, ParasectPayloadAnswer::Good)->0;
    let min_bad = lowest_with(entries, ParasectPayloadAnswer::Bad)->0;
    let lg = choose|i: int| 0 <= i < entries.len() && (#[trigger] entries[i]).1 == good && entries[i].0 == min_good;
    let lb = choose|i: int| 0 <= i < entries.len() && (#[trigger] entries[i]).1 == bad && entries[i].0 == min_bad;
    assert(max_good >= entries[g].0 >= entries[b].0 >= min_bad);
    assert(result_outcome(entries) == SearchOutcome::Inconsistent(good_point_after_bad_text(min_good, min_bad)));
    assert(entries[lg].1 == good && entries[lb].1 == bad);
}

/// Without a stop, when some point is good, some is bad, and every good point lies below every
/// bad point, the search answers the lowest bad point.
pub proof fn law_consistent_results_give_lowest_bad(entries: Seq<(i64, ParasectPayloadResult)>, b: int)
    requires
        forall|i: int| 0 <= i < entries.len() ==> !((#[trigger] entries[i]).1 is Stop),
        exists|i: int|
            0 <= i < entries.len() && (#[trigger] entries[i]).1 == ParasectPayloadResult::Continue(
                ParasectPayloadAnswer::Good,
            ),
        0 <= b < entries.len(),
        entries[b].1 == ParasectPayloadResult::Continue(ParasectPayloadAnswer::Bad),
        forall|i: int, j: int|
            0 <= i < entries.len() && 0 <= j < entries.len() && (#[trigger] entries[i]).1
                == ParasectPayloadResult::Continue(ParasectPayloadAnswer::Good) && (#[trigger] entries[j]).1
                == ParasectPayloadResult::Continue(ParasectPayloadAnswer::Bad) ==> entries[i].0 < entries[j].0,
        forall|i: int|
            0 <= i < entries.len() && (#[trigger] entries[i]).1 == ParasectPayloadResult::Continue(
                ParasectPayloadAnswer::Bad,
            ) ==> entries[b].0 <= entries[i].0,
    ensures
        result_outcome(entries) == SearchOutcome::Found(entries[b].0 as int),
{
    lemma_first_stop_is_first(entries);
    lemma_extremes_with(entries, ParasectPayloadAnswer::Good);
    lemma_extremes_with(entries, ParasectPayloadAnswer::Bad);
    let good = ParasectPayloadResult::Continue(ParasectPayloadAnswer::Good);
    let bad = ParasectPayloadResult::Continue(ParasectPayloadAnswer::Bad);
    assert(entries[b].1 == bad);
    let max_good = highest_with(entries, ParasectPayloadAnswer::Good)->0;
    let min_bad = lowest_with(entries, ParasectPayloadAnswer::Bad)->0;
    let hg = choose|i: int| 0 <= i < entries.len() && (#[trigger] entries[i]).1 == good && entries[i].0 == max_good;
    let lb = choose|i: int| 0 <= i < entries.len() && (#[trigger] entries[i]).1 == bad && entries[i].0 == min_bad;
    assert(entries[hg].0 < entries[lb].0);
    assert(min_bad <= entries[b].0);
    assert(entries[b].0 <= entries[lb].0);
}

/// The answer of a search from its completed points, taken in the given order.
pub fn process_results(entries: &Vec<(i64, ParasectPayloadResult)>) -> (r: Result<i64, ParasectError>)
    ensures
        outcome_of(r) == result_outcome(entries@),
{
    let mut min_good: Option<i64> = None;
    let mut max_good: Option<i64> = None;
    let mut min_bad: Option<i64> = None;
    let mut k: usize = 0;
    while k < entries.len()
        invariant
            0 <= k <= entries@.len(),
            first_stop(entries@.take(k as int)) is None,
            min_good is Some <==> lowest_with(entries@.take(k as int), ParasectPayloadAnswer::Good) is Some,
            max_good is Some <==> highest_with(entries@.take(k as int), ParasectPayloadAnswer::Good) is Some,
            min_bad is Some <==> lowest_with(entries@.take(k as int), ParasectPayloadAnswer::Bad) is Some,
            lowest_with(entries@.take(k as int), ParasectPayloadAnswer::Good) matches Some(v) ==> v == min_good->0,
            highest_with(entries@.take(k as int), ParasectPayloadAnswer::Good) matches Some(v) ==> v == max_good->0,
            lowest_with(entries@.take(k as int), ParasectPayloadAnswer::Bad) matches Some(v) ==> v == min_bad->0,
        decreases entries@.len() - k,
    {
        let ghost t0 = entries@.take(k as int);
        let ghost t1 = entries@.take(k + 1);
        proof {
            assert(t1.drop_last() =~= t0);
            assert(t1.last() == entries@[k as int]);
        }
        let (point, result) = &entries[k];
        match result {
            ParasectPayloadResult::Stop(err) => {
                proof {
                    assert(first_stop(t1) == Some(err@));
                    assert(first_stop(entries@) == Some(err@)) by {
                        lemma_first_stop_prefix(entries@, k as int + 1);
                    }
                }
                return Err(ParasectError::PayloadError(err.clone()));
            },
            ParasectPayloadResult::Continue(ParasectPayloadAnswer::Good) => {
                min_good = match min_good {
                    Some(m) => Some(if *point < m { *point } else { m }),
                    None => Some(*point),
                };
                max_good = match max_good {
                    Some(m) => Some(if *point > m { *point } else { m }),
                    None => Some(*point),
                };
            },
            ParasectPayloadResult::Continue(ParasectPayloadAnswer::Bad) => {
                min_bad = match min_bad {
                    Some(m) => Some(if *point < m { *point } else { m }),
                    None => Some(*point),
                };
            },
        }
        k = k + 1;
    }
    proof {
        assert(entries@.take(entries@.len() as int) =~= entries@);
    }
    match (min_good, max_good, min_bad) {
        (Some(lo_good), Some(hi_good), Some(lo_bad)) => {
            if hi_good < lo_bad {
                Ok(lo_bad)
            } else {
                let mut s = String::from_str("Found good point ");
                push_decimal(&mut s, lo_good as i128);
                push_str(&mut s, " after bad point ");
                push_decimal(&mut s, lo_bad as i128);
                push_str(&mut s, ".");
                proof {
                    assert(s@ =~= good_point_after_bad_text(lo_good as int, lo_bad as int));
                }
                Err(ParasectError::InconsistencyError(s))
            }
        },
        (None, _, _) => Err(ParasectError::InconsistencyError(String::from_str("All points were bad."))),
        _ => Err(ParasectError::InconsistencyError(String::from_str("All points were good."))),
    }
}

/// A stop among the first `k` entries is the first stop of all of them.
pub proof fn lemma_first_stop_prefix(entries: Seq<(i64, ParasectPayloadResult)>, k: int)
    requires
        0 <= k <= entries.len(),
        first_stop(entries.take(k)) is Some,
    ensures
        first_stop(entries) == first_stop(entries.take(k)),
    decreases entries.len() - k,
{
    if k < entries.len() {
        assert(entries.drop_last().take(k) =~= entries.take(k));
        lemma_first_stop_prefix(entries.drop_last(), k);
    } else {
        assert(entries.take(k) =~= entries);
    }
}

/// The answer of a search from its completed points. Several stops may be recorded: the
/// one reported is the first in the map's iteration order, which depends on hashing.
pub fn process_result_map(results: DashMap<i64, ParasectPayloadResult>) -> (r: Result<
    i64,
    ParasectError,
>)
    ensures
        exists|entries: Seq<(i64, ParasectPayloadResult)>|
            #[trigger] entries_match(entries, stored_results(results)) && outcome_of(r)
                == result_outcome(entries),
{
    let ghost m = stored_results(results);
    let entries = drain_results(results);
    let r = process_results(&entries);
    proof {
        assert(entries_match(entries@, m));
    }
    r
}

/// The state at the start of a search of `range`, or the error that refuses an empty range.
pub fn start_search(range: &NumericRange) -> (r: Result<ParasectController, ParasectError>)
    ensures
        range.is_empty_spec() ==> (r matches Err(ParasectError::InconsistencyError(msg))
            && msg@ == "Cannot parasect an empty range."@),
        !range.is_empty_spec() ==> (r matches Ok(c) && c.accounted() && c.range_spec() == *range
            && c.queue_spec() == seq![*range] && c.invalid_spec() == Set::<int>::empty()
            && c.latest_good_spec() == range.lo() - 1 && c.earliest_bad_spec() == range.hi() + 1
            && c.results_spec().dom() == Set::<i64>::empty() && c.dispatched_spec()
            == Map::<int, (NumericRange, NumericRange)>::empty() && c.handled_spec()
            == Seq::<WorkerMessage>::empty()),
{
    if range.is_empty() {
        return Err(
            ParasectError::InconsistencyError(String::from_str("Cannot parasect an empty range.")),
        );
    }
    let c = ParasectController { core: SearchCore::start(*range) };
    proof {
        use_type_invariant(&c.core);
    }
    Ok(c)
}

/// `true` if every entry is the answer of a command that is good exactly below `t`.
pub open spec fn answers_of_threshold(entries: Seq<(i64, ParasectPayloadResult)>, t: int) -> bool {
    forall|i: int|
        0 <= i < entries.len() ==> (#[trigger] entries[i]).1 == ParasectPayloadResult::Continue(
            if entries[i].0 < t {
                ParasectPayloadAnswer::Good
            } else {
                ParasectPayloadAnswer::Bad
            },
        )
}

proof fn lemma_no_stop(entries: Seq<(i64, ParasectPayloadResult)>)
    requires
        forall|i: int| 0 <= i < entries.len() ==> (#[trigger] entries[i]).1 is Continue,
    ensures
        first_stop(entries) is None,
    decreases entries.len(),
{
    if entries.len() > 0 {
        let rest = entries.drop_last();
        assert forall|i: int| 0 <= i < rest.len() implies (#[trigger] rest[i]).1 is Continue by {
            assert(rest[i] == entries[i]);
        }
        lemma_no_stop(rest);
        assert(entries.last() == entries[entries.len() - 1]);
    }
}

/// `lowest_with` is the least point with the answer, and `None` when no point has it.
proof fn lemma_lowest_with(entries: Seq<(i64, ParasectPayloadResult)>, a: ParasectPayloadAnswer)
    ensures
        lowest_with(entries, a) matches Some(m) ==> (exists|i: int|
            0 <= i < entries.len() && (#[trigger] entries[i]).0 == m && entries[i].1
                == ParasectPayloadResult::Continue(a)) && forall|i: int|
            0 <= i < entries.len() && (#[trigger] entries[i]).1 == ParasectPayloadResult::Continue(
                a,
            ) ==> m <= entries[i].0,
        lowest_with(entries, a) is None ==> forall|i: int|
            0 <= i < entries.len() ==> (#[trigger] entries[i]).1 != ParasectPayloadResult::Continue(
                a,
            ),
    decreases entries.len(),
{
    if entries.len() > 0 {
        let rest = entries.drop_last();
        lemma_lowest_with(rest, a);
        let n = entries.len() - 1;
        assert(entries.last() == entries[n]);
        assert forall|i: int| 0 <= i < rest.len() implies rest[i] == entries[i] by {}
        match lowest_with(rest, a) {
            Some(m) => {
                let i = choose|i: int|
                    0 <= i < rest.len() && (#[trigger] rest[i]).0 == m && rest[i].1
                        == ParasectPayloadResult::Continue(a);
                assert(entries[i] == rest[i]);
            },
            None => {},
        }
    }
}

/// `highest_with` is the greatest point with the answer, and `None` when no point has it.
proof fn lemma_highest_with(entries: Seq<(i64, ParasectPayloadResult)>, a: ParasectPayloadAnswer)
    ensures
        highest_with(entries, a) matches Some(m) ==> (exists|i: int|
            0 <= i < entries.len() && (#[trigger] entries[i]).0 == m && entries[i].1
                == ParasectPayloadResult::Continue(a)) && forall|i: int|
            0 <= i < entries.len() && (#[trigger] entries[i]).1 == ParasectPayloadResult::Continue(
                a,
            ) ==> entries[i].0 <= m,
        highest_with(entries, a) is None ==> forall|i: int|
            0 <= i < entries.len() ==> (#[trigger] entries[i]).1 != ParasectPayloadResult::Continue(
                a,
            ),
    decreases entries.len(),
{
    if entries.len() > 0 {
        let rest = entries.drop_last();
        lemma_highest_with(rest, a);
        let n = entries.len() - 1;
        assert(entries.last() == entries[n]);
        assert forall|i: int| 0 <= i < rest.len() implies rest[i] == entries[i] by {}
        match highest_with(rest, a) {
            Some(m) => {
                let i = choose|i: int|
                    0 <= i < rest.len() && (#[trigger] rest[i]).0 == m && rest[i].1
                        == ParasectPayloadResult::Continue(a);
                assert(entries[i] == rest[i]);
            },
            None => {},
        }
    }
}

/// For a command that is good exactly below `t`, results that include `t` and some point
/// below it give `t`: the first bad point.
pub proof fn law_threshold_is_found(entries: Seq<(i64, ParasectPayloadResult)>, t: int)
    requires
        answers_of_threshold(entries, t),
        exists|i: int| 0 <= i < entries.len() && (#[trigger] entries[i]).0 == t,
        exists|i: int| 0 <= i < entries.len() && (#[trigger] entries[i]).0 < t,
    ensures
        result_outcome(entries) == SearchOutcome::Found(t),
{
    assert forall|i: int| 0 <= i < entries.len() implies (#[trigger] entries[i]).1 is Continue by {
        assert(answers_of_threshold(entries, t));
    }
    lemma_no_stop(entries);
    lemma_lowest_with(entries, ParasectPayloadAnswer::Good);
    lemma_highest_with(entries, ParasectPayloadAnswer::Good);
    lemma_lowest_with(entries, ParasectPayloadAnswer::Bad);
    let it = choose|i: int| 0 <= i < entries.len() && (#[trigger] entries[i]).0 == t;
    let ig = choose|i: int| 0 <= i < entries.len() && (#[trigger] entries[i]).0 < t;
    assert(entries[it].1 == ParasectPayloadResult::Continue(ParasectPayloadAnswer::Bad));
    assert(entries[ig].1 == ParasectPayloadResult::Continue(ParasectPayloadAnswer::Good));
    match lowest_with(entries, ParasectPayloadAnswer::Bad) {
        Some(m) => {
            let im = choose|i: int|
                0 <= i < entries.len() && (#[trigger] entries[i]).0 == m && entries[i].1
                    == ParasectPayloadResult::Continue(ParasectPayloadAnswer::Bad);
            assert(entries[im].0 >= t);
            assert(m <= entries[it].0);
        },
        None => {},
    }
    match highest_with(entries, ParasectPayloadAnswer::Good) {
        Some(g) => {
            let ig2 = choose|i: int|
                0 <= i < entries.len() && (#[trigger] entries[i]).0 == g && entries[i].1
                    == ParasectPayloadResult::Continue(ParasectPayloadAnswer::Good);
            assert(entries[ig2].0 < t);
        },
        None => {},
    }
}

/// For a command that is good exactly below `t`, a search whose completed points include `t`
/// and some point below it ends with `t`, whatever order its points are taken in.
pub proof fn law_search_finds_threshold(m: Map<i64, ParasectPayloadResult>, t: int)
    requires
        forall|x: i64| #[trigger] m.contains_key(x) ==> m[x] == ParasectPayloadResult::Continue(
            if x < t {
                ParasectPayloadAnswer::Good
            } else {
                ParasectPayloadAnswer::Bad
            },
        ),
        exists|x: i64| #[trigger] m.contains_key(x) && x == t,
        exists|x: i64| #[trigger] m.contains_key(x) && x < t,
    ensures
        forall|entries: Seq<(i64, ParasectPayloadResult)>|
            #[trigger] entries_match(entries, m) ==> result_outcome(entries) == SearchOutcome::Found(t),
{
    assert forall|entries: Seq<(i64, ParasectPayloadResult)>|
        #[trigger] entries_match(entries, m) implies result_outcome(entries) == SearchOutcome::Found(t) by {
        assert forall|i: int| 0 <= i < entries.len() implies (#[trigger] entries[i]).1
            == ParasectPayloadResult::Continue(
            if entries[i].0 < t {
                ParasectPayloadAnswer::Good
            } else {
                ParasectPayloadAnswer::Bad
            },
        ) by {
            assert(m.contains_key(entries[i].0));
        }
        let xt = choose|x: i64| #[trigger] m.contains_key(x) && x == t;
        let xg = choose|x: i64| #[trigger] m.contains_key(x) && x < t;
        let it = choose|i: int| 0 <= i < entries.len() && (#[trigger] entries[i]).0 == xt;
        let ig = choose|i: int| 0 <= i < entries.len() && (#[trigger] entries[i]).0 == xg;
        assert(entries[it].0 == t);
        assert(entries[ig].0 < t);
        law_threshold_is_found(entries, t);
    }
}

/// `true` if `m` reports a completed answer of a command that is good exactly below `t`, with
/// its left range below its point and its right range above it, as `dequeue` hands them out.
pub open spec fn completed_below_threshold(m: WorkerMessage, t: int) -> bool {
    &&& m.msg_type == PointCompletionMessageType::Completed(
        ParasectPayloadResult::Continue(
            if m.point < t {
                ParasectPayloadAnswer::Good
            } else {
                ParasectPayloadAnswer::Bad
            },
        ),
    )
    &&& m.left.inv()
    &&& m.right.inv()
    &&& !m.left.is_empty_spec() ==> m.left.hi() < m.point
    &&& !m.right.is_empty_spec() ==> m.right.lo() > m.point
}

/// A range settled by a good point ends at the point; one settled by a bad point starts there.
proof fn lemma_settled_side(m: WorkerMessage, t: int)
    requires
        completed_below_threshold(m, t),
    ensures
        settled_range(m) matches Some((r, a)) ==> (a == ParasectPayloadAnswer::Good
            <==> m.point < t) && forall|x: int|
            #[trigger] r.has(x) ==> (if a == ParasectPayloadAnswer::Good {
                x <= m.point
            } else {
                m.point <= x
            }),
{
    law_settled_range_keeps_answers(m, t);
    NumericRange::lemma_from_bounds(
        if m.left.is_empty_spec() {
            m.point as int
        } else {
            m.left.lo()
        },
        m.point as int,
    );
    NumericRange::lemma_from_bounds(
        m.point as int,
        if m.right.is_empty_spec() {
            m.point as int
        } else {
            m.right.hi()
        },
    );
}

/// For a command that is good exactly below `t`, with `t - 1` and `t` in the searched range: once
/// every point of the range is either completed or settled by a completed answer, the search
/// ends with `t`. Settling never hides `t - 1` or `t`: only their own answers settle them.
pub proof fn law_settled_search_finds_threshold(
    range: NumericRange,
    t: int,
    messages: Seq<WorkerMessage>,
    invalid: Set<int>,
    m: Map<i64, ParasectPayloadResult>,
)
    requires
        range.inv(),
        range.has(t - 1),
        range.has(t),
        forall|x: int|
            #[trigger] range.has(x) ==> invalid.contains(x) || m.contains_key(x as i64),
        forall|x: int|
            #[trigger] invalid.contains(x) ==> exists|k: int|
                0 <= k < messages.len() && (settled_range(#[trigger] messages[k]) matches Some(
                    (r, _a),
                ) && r.has(x)),
        forall|k: int|
            0 <= k < messages.len() ==> completed_below_threshold(#[trigger] messages[k], t)
                && m.contains_key(messages[k].point),
        forall|x: i64| #[trigger] m.contains_key(x) ==> m[x] == ParasectPayloadResult::Continue(
            if x < t {
                ParasectPayloadAnswer::Good
            } else {
                ParasectPayloadAnswer::Bad
            },
        ),
    ensures
        forall|entries: Seq<(i64, ParasectPayloadResult)>|
            #[trigger] entries_match(entries, m) ==> result_outcome(entries) == SearchOutcome::Found(t),
{
    assert(m.contains_key(t as i64)) by {
        if !m.contains_key(t as i64) {
            assert(invalid.contains(t));
            let k = choose|k: int|
                0 <= k < messages.len() && (settled_range(#[trigger] messages[k]) matches Some(
                    (r, _a),
                ) && r.has(t));
            lemma_settled_side(messages[k], t);
            assert(m.contains_key(messages[k].point));
        }
    }
    assert(m.contains_key((t - 1) as i64)) by {
        if !m.contains_key((t - 1) as i64) {
            assert(invalid.contains(t - 1));
            let k = choose|k: int|
                0 <= k < messages.len() && (settled_range(#[trigger] messages[k]) matches Some(
                    (r, _a),
                ) && r.has(t - 1));
            lemma_settled_side(messages[k], t);
            assert(m.contains_key(messages[k].point));
        }
    }
    let xt = t as i64;
    let xg = (t - 1) as i64;
    assert(m.contains_key(xt) && xt == t);
    assert(m.contains_key(xg) && xg < t);
    law_search_finds_threshold(m, t);
}

/// `true` if `m` is about a point handed out with the ranges it carries, and reports either no
/// answer or the answer of a command that is good exactly below `t`.
pub open spec fn honest_report(
    m: WorkerMessage,
    d: Map<int, (NumericRange, NumericRange)>,
    t: int,
) -> bool {
    &&& d.contains_key(m.point as int)
    &&& d[m.point as int] == (m.left, m.right)
    &&& (m.msg_type matches PointCompletionMessageType::Completed(r) ==> r
        == ParasectPayloadResult::Continue(
        if m.point < t {
            ParasectPayloadAnswer::Good
        } else {
            ParasectPayloadAnswer::Bad
        },
    ))
}

/// For a command that is good exactly below `t`, with `t - 1` and `t` in the searched range: a
/// search whose every handled message honestly reports that command on a point it handed out
/// ends with `t`, once its queue is empty and each point it handed out has a result or was
/// settled.
pub proof fn law_finished_search_finds_threshold(c: ParasectController, t: int)
    requires
        c.accounted(),
        c.range_spec().has(t - 1),
        c.range_spec().has(t),
        c.queue_spec() == Seq::<NumericRange>::empty(),
        forall|p: int|
            #[trigger] c.dispatched_spec().contains_key(p) ==> c.results_spec().contains_key(
                p as i64,
            ) || c.invalid_spec().contains(p),
        forall|k: int|
            0 <= k < c.handled_spec().len() ==> honest_report(
                #[trigger] c.handled_spec()[k],
                c.dispatched_spec(),
                t,
            ),
    ensures
        forall|entries: Seq<(i64, ParasectPayloadResult)>|
            #[trigger] entries_match(entries, c.results_spec()) ==> result_outcome(entries) == SearchOutcome::Found(t),
{
    let core = c.core;
    let range = core.range;
    let m = c.results_spec();
    let h = c.handled_spec();
    let d = c.dispatched_spec();
    let st = core.settlers@;
    let inv = c.invalid_spec();
    assert forall|x: i64| #[trigger] m.contains_key(x) implies m[x] == ParasectPayloadResult::Continue(
        if x < t {
            ParasectPayloadAnswer::Good
        } else {
            ParasectPayloadAnswer::Bad
        },
    ) by {
        let k = choose|k: int|
            0 <= k < h.len() && (#[trigger] h[k]).point == x && h[k].msg_type
                == PointCompletionMessageType::Completed(m[x]);
        assert(honest_report(h[k], d, t));
    }
    assert(!core.aborted@) by {
        if core.aborted@ {
            if stopped(h) {
                let k = choose|k: int|
                    0 <= k < h.len() && (#[trigger] h[k]).msg_type matches PointCompletionMessageType::Completed(
                        ParasectPayloadResult::Stop(_),
                    );
                assert(honest_report(h[k], d, t));
            } else {
                if core.latest_good != range.lo() - 1 {
                    let k = choose|k: int|
                        0 <= k < h.len() && (#[trigger] h[k]).point == core.latest_good as int
                            && h[k].msg_type == PointCompletionMessageType::Completed(
                            ParasectPayloadResult::Continue(ParasectPayloadAnswer::Good),
                        );
                    assert(honest_report(h[k], d, t));
                }
                if core.earliest_bad != range.hi() + 1 {
                    let k = choose|k: int|
                        0 <= k < h.len() && (#[trigger] h[k]).point == core.earliest_bad as int
                            && h[k].msg_type == PointCompletionMessageType::Completed(
                            ParasectPayloadResult::Continue(ParasectPayloadAnswer::Bad),
                        );
                    assert(honest_report(h[k], d, t));
                }
            }
        }
    }
    assert forall|x: int| #[trigger] range.has(x) implies inv.contains(x) || m.contains_key(x as i64) by {
        assert(!queue_has(c.queue_spec(), x));
        if !inv.contains(x) {
            assert(c.dispatched_spec().contains_key(x));
        }
    }
    assert forall|k: int| 0 <= k < st.len() implies completed_below_threshold(#[trigger] st[k], t)
        && m.contains_key(st[k].point) by {
        assert(h.contains(st[k]));
        let j = choose|j: int| 0 <= j < h.len() && h[j] == st[k];
        assert(honest_report(h[j], d, t));
        assert(split_shape(st[k].point as int, d[st[k].point as int].0, d[st[k].point as int].1));
    }
    law_settled_search_finds_threshold(range, t, st, inv, m);
}

/// `true` if every result that `payload` can give for a point is the answer of a command that
/// is good exactly below `t`.
pub open spec fn payload_good_below<F: Fn(i64) -> ParasectPayloadResult>(payload: F, t: int) -> bool {
    forall|x: i64, res: ParasectPayloadResult|
        #[trigger] call_ensures(payload, (x,), res) ==> res == ParasectPayloadResult::Continue(
            if x < t {
                ParasectPayloadAnswer::Good
            } else {
                ParasectPayloadAnswer::Bad
            },
        )
}

/// `true` if `m` is about a point handed out with the ranges it carries, and any result it
/// reports is one that `payload` can give for that point.
pub open spec fn ran_on_dispatched<F: Fn(i64) -> ParasectPayloadResult>(
    m: WorkerMessage,
    d: Map<int, (NumericRange, NumericRange)>,
    payload: F,
) -> bool {
    &&& d.contains_key(m.point as int)
    &&& d[m.point as int] == (m.left, m.right)
    &&& (m.msg_type matches PointCompletionMessageType::Completed(res) ==> call_ensures(
        payload,
        (m.point,),
        res,
    ))
}

/// `true` if `entries` are results that `payload` can give, each for a different point of
/// `range`.
pub open spec fn payload_entries<F: Fn(i64) -> ParasectPayloadResult>(
    entries: Seq<(i64, ParasectPayloadResult)>,
    range: NumericRange,
    payload: F,
) -> bool {
    &&& forall|i: int|
        0 <= i < entries.len() ==> range.has((#[trigger] entries[i]).0 as int) && call_ensures(
            payload,
            (entries[i].0,),
            entries[i].1,
        )
    &&& forall|i: int, j: int|
        0 <= i < j < entries.len() ==> (#[trigger] entries[i]).0 != (#[trigger] entries[j]).0
}

/// When every entry has the answer `a`, no entry is a stop, no entry has the other answer, and
/// some entry has `a` exactly when there is an entry.
proof fn lemma_single_answer(entries: Seq<(i64, ParasectPayloadResult)>, a: ParasectPayloadAnswer)
    requires
        forall|i: int| 0 <= i < entries.len() ==> (#[trigger] entries[i]).1 == ParasectPayloadResult::Continue(a),
    ensures
        first_stop(entries) is None,
        lowest_with(entries, a) is Some <==> entries.len() > 0,
        highest_with(entries, a) is Some <==> entries.len() > 0,
        forall|b: ParasectPayloadAnswer| b != a ==> (#[trigger] lowest_with(entries, b)) is None,
    decreases entries.len(),
{
    if entries.len() > 0 {
        let rest = entries.drop_last();
        assert forall|i: int| 0 <= i < rest.len() implies (#[trigger] rest[i]).1 == ParasectPayloadResult::Continue(a) by {
            assert(rest[i] == entries[i]);
        }
        lemma_single_answer(rest, a);
        assert(entries.last() == entries[entries.len() - 1]);
        assert forall|b: ParasectPayloadAnswer| b != a implies (#[trigger] lowest_with(entries, b)) is None by {
            assert(lowest_with(rest, b) is None);
            assert(entries.last().1 != ParasectPayloadResult::Continue(b));
        }
    }
}

/// A search whose every result is "bad" answers "All points were bad.".
pub proof fn law_all_bad_results(entries: Seq<(i64, ParasectPayloadResult)>)
    requires
        forall|i: int|
            0 <= i < entries.len() ==> (#[trigger] entries[i]).1 == ParasectPayloadResult::Continue(
                ParasectPayloadAnswer::Bad,
            ),
    ensures
        result_outcome(entries) == SearchOutcome::Inconsistent("All points were bad."@),
{
    lemma_single_answer(entries, ParasectPayloadAnswer::Bad);
    assert(lowest_with(entries, ParasectPayloadAnswer::Good) is None);
}

/// A search with at least one result, every one of them "good", answers "All points were
/// good.".
pub proof fn law_all_good_results(entries: Seq<(i64, ParasectPayloadResult)>)
    requires
        entries.len() > 0,
        forall|i: int|
            0 <= i < entries.len() ==> (#[trigger] entries[i]).1 == ParasectPayloadResult::Continue(
                ParasectPayloadAnswer::Good,
            ),
    ensures
        result_outcome(entries) == SearchOutcome::Inconsistent("All points were good."@),
{
    lemma_single_answer(entries, ParasectPayloadAnswer::Good);
    assert(lowest_with(entries, ParasectPayloadAnswer::Bad) is None);
}

/// `true` if every completed message of `h` has its result stored in `m` for its point.
pub open spec fn completed_recorded(h: Seq<WorkerMessage>, m: Map<i64, ParasectPayloadResult>) -> bool {
    forall|k: int|
        0 <= k < h.len() ==> ((#[trigger] h[k]).msg_type matches PointCompletionMessageType::Completed(
            res,
        ) ==> m.contains_key(h[k].point) && m[h[k].point] == res)
}

/// `true` if the entry `e` accounts for the number `x`: `x` is its point, or lies at or below
/// it when it was found good, or at or above it when it was found bad.
pub open spec fn entry_accounts_for(e: (i64, ParasectPayloadResult), x: int) -> bool {
    ||| e.0 == x
    ||| e.1 == ParasectPayloadResult::Continue(ParasectPayloadAnswer::Good) && x <= e.0
    ||| e.1 == ParasectPayloadResult::Continue(ParasectPayloadAnswer::Bad) && e.0 <= x
}

/// `true` if `entries` account for every number of `range`, unless one of them is a stop or a
/// point found good lies above a point found bad, which give the search up.
pub open spec fn entries_cover(entries: Seq<(i64, ParasectPayloadResult)>, range: NumericRange) -> bool {
    ||| exists|i: int| 0 <= i < entries.len() && (#[trigger] entries[i]).1 is Stop
    ||| exists|i: int, j: int|
        0 <= i < entries.len() && 0 <= j < entries.len() && (#[trigger] entries[i]).1
            == ParasectPayloadResult::Continue(ParasectPayloadAnswer::Good) && (#[trigger] entries[j]).1
            == ParasectPayloadResult::Continue(ParasectPayloadAnswer::Bad) && entries[i].0 > entries[j].0
    ||| forall|x: int|
        #[trigger] range.has(x) ==> exists|i: int|
            0 <= i < entries.len() && entry_accounts_for(#[trigger] entries[i], x)
}

/// The entry listed for a point whose completed result is stored.
proof fn lemma_entry_of_point(
    entries: Seq<(i64, ParasectPayloadResult)>,
    m: Map<i64, ParasectPayloadResult>,
    p: i64,
) -> (i: int)
    requires
        entries_match(entries, m),
        m.contains_key(p),
    ensures
        0 <= i < entries.len(),
        entries[i] == (p, m[p]),
{
    let i = choose|i: int| 0 <= i < entries.len() && (#[trigger] entries[i]).0 == p;
    assert(m[entries[i].0] == entries[i].1);
    i
}

/// What a search that ran every point it handed out, as `search_one_at_a_time` does, leaves
/// in its results: results that `payload` gives, each for a different point of the range, that
/// account for the whole range unless the search was given up.
proof fn lemma_run_entries<F: Fn(i64) -> ParasectPayloadResult>(
    c: ParasectController,
    payload: F,
    entries: Seq<(i64, ParasectPayloadResult)>,
)
    requires
        c.accounted(),
        c.queue_spec() == Seq::<NumericRange>::empty(),
        forall|p: int| #[trigger] c.dispatched_spec().contains_key(p) ==> c.range_spec().has(p),
        forall|p: int|
            #[trigger] c.dispatched_spec().contains_key(p) ==> c.results_spec().contains_key(p as i64)
                || c.invalid_spec().contains(p),
        forall|k: int|
            0 <= k < c.handled_spec().len() ==> ran_on_dispatched(
                #[trigger] c.handled_spec()[k],
                c.dispatched_spec(),
                payload,
            ),
        completed_recorded(c.handled_spec(), c.results_spec()),
        entries_match(entries, c.results_spec()),
    ensures
        payload_entries(entries, c.range_spec(), payload),
        entries_cover(entries, c.range_spec()),
{
    let core = c.core;
    let range = core.range;
    let m = c.results_spec();
    let h = c.handled_spec();
    let d = c.dispatched_spec();
    let st = core.settlers@;
    let inv = c.invalid_spec();
    assert forall|i: int| 0 <= i < entries.len() implies range.has((#[trigger] entries[i]).0 as int)
        && call_ensures(payload, (entries[i].0,), entries[i].1) by {
        let x = entries[i].0;
        assert(m.contains_key(x));
        assert(reported(h, x as int, m[x]));
        let k = choose|k: int|
            0 <= k < h.len() && (#[trigger] h[k]).point == x as int && h[k].msg_type
                == PointCompletionMessageType::Completed(m[x]);
        assert(ran_on_dispatched(h[k], d, payload));
    }
    if core.aborted@ {
        if stopped(h) {
            let k = choose|k: int|
                0 <= k < h.len() && (#[trigger] h[k]).msg_type matches PointCompletionMessageType::Completed(
                    ParasectPayloadResult::Stop(_),
                );
            let p = h[k].point;
            assert(m.contains_key(p));
            let i = lemma_entry_of_point(entries, m, p);
            assert(entries[i].1 is Stop);
        } else {
            let lg = core.latest_good as int;
            let eb = core.earliest_bad as int;
            assert(lg > eb);
            let good = ParasectPayloadResult::Continue(ParasectPayloadAnswer::Good);
            let bad = ParasectPayloadResult::Continue(ParasectPayloadAnswer::Bad);
            if reported(h, lg, good) && reported(h, eb, bad) {
                let kg = choose|k: int|
                    0 <= k < h.len() && (#[trigger] h[k]).point == lg && h[k].msg_type
                        == PointCompletionMessageType::Completed(good);
                let kb = choose|k: int|
                    0 <= k < h.len() && (#[trigger] h[k]).point == eb && h[k].msg_type
                        == PointCompletionMessageType::Completed(bad);
                let i = lemma_entry_of_point(entries, m, h[kg].point);
                let j = lemma_entry_of_point(entries, m, h[kb].point);
                assert(entries[i].1 == good && entries[j].1 == bad && entries[i].0 > entries[j].0);
            } else if reported(h, lg, good) {
                let kg = choose|k: int|
                    0 <= k < h.len() && (#[trigger] h[k]).point == lg && h[k].msg_type
                        == PointCompletionMessageType::Completed(good);
                assert(ran_on_dispatched(h[kg], d, payload));
                assert(range.has(lg));
            } else if reported(h, eb, bad) {
                let kb = choose|k: int|
                    0 <= k < h.len() && (#[trigger] h[k]).point == eb && h[k].msg_type
                        == PointCompletionMessageType::Completed(bad);
                assert(ran_on_dispatched(h[kb], d, payload));
                assert(range.has(eb));
            }
        }
    } else {
        assert forall|x: int| #[trigger] range.has(x) implies exists|i: int|
            0 <= i < entries.len() && entry_accounts_for(#[trigger] entries[i], x) by {
            assert(!queue_has(c.queue_spec(), x));
            if m.contains_key(x as i64) {
                let i = lemma_entry_of_point(entries, m, x as i64);
                assert(entry_accounts_for(entries[i], x));
            } else {
                if !inv.contains(x) {
                    assert(d.contains_key(x));
                }
                assert(inv.contains(x));
                let k = choose|k: int| 0 <= k < st.len() && settles(#[trigger] st[k], x);
                let mm = st[k];
                assert(h.contains(mm));
                let j = choose|j: int| 0 <= j < h.len() && h[j] == mm;
                assert(ran_on_dispatched(h[j], d, payload));
                let p = mm.point;
                assert(split_shape(p as int, d[p as int].0, d[p as int].1));
                match mm.msg_type {
                    PointCompletionMessageType::Completed(res) => {
                        assert(m.contains_key(p) && m[p] == res);
                        let i = lemma_entry_of_point(entries, m, p);
                        let lo_side = if mm.left.is_empty_spec() {
                            p as int
                        } else {
                            mm.left.lo()
                        };
                        let hi_side = if mm.right.is_empty_spec() {
                            p as int
                        } else {
                            mm.right.hi()
                        };
                        NumericRange::lemma_from_bounds(lo_side, p as int);
                        NumericRange::lemma_from_bounds(p as int, hi_side);
                        assert(entry_accounts_for(entries[i], x));
                    },
                    _ => {},
                }
            }
        }
    }
}

/// Searches `range` one point at a time: hands out each point as `dequeue` gives it, reports
/// that it started, runs `payload` on it and reports the result, until no range is left; then
/// gives the search's answer. An empty range is refused as `start_search` refuses it;
/// otherwise the answer is what `process_results` makes of the results of the points that were
/// run, each a different point of the range with a result that `payload` gives for it.
///
/// For a command that is good exactly below `t`, with `t - 1` and `t` in the range, the answer
/// is `t`.
pub fn search_one_at_a_time<F: Fn(i64) -> ParasectPayloadResult>(range: &NumericRange, payload: F) -> (r:
    Result<i64, ParasectError>)
    requires
        forall|x: i64| call_requires(payload, (x,)),
    ensures
        range.is_empty_spec() ==> (r matches Err(ParasectError::InconsistencyError(msg))
            && msg@ == "Cannot parasect an empty range."@),
        !range.is_empty_spec() ==> exists|entries: Seq<(i64, ParasectPayloadResult)>|
            #[trigger] payload_entries(entries, *range, payload) && entries_cover(entries, *range)
                && outcome_of(r) == result_outcome(entries),
        forall|t: int|
            range.has(t - 1) && range.has(t) && #[trigger] payload_good_below(payload, t) ==> (r matches Ok(
                n,
            ) && n == t),
{
    let mut c = match start_search(range) {
        Ok(c) => c,
        Err(e) => {
            return Err(e);
        },
    };
    let ghost rg = *range;
    proof {
        assert forall|x: int| #[trigger] queue_has(c.queue_spec(), x) implies rg.has(x) by {
            let i = choose|i: int| 0 <= i < c.queue_spec().len() && (#[trigger] c.queue_spec()[i]).has(x);
            assert(c.queue_spec()[i] == rg);
        }
    }
    loop
        invariant
            c.accounted(),
            c.range_spec() == rg,
            forall|x: i64| call_requires(payload, (x,)),
            forall|p: int|
                #[trigger] c.dispatched_spec().contains_key(p) ==> c.results_spec().contains_key(
                    p as i64,
                ) || c.invalid_spec().contains(p),
            forall|p: int|
                #[trigger] c.dispatched_spec().contains_key(p) ==> !queue_has(c.queue_spec(), p),
            forall|p: int| #[trigger] c.dispatched_spec().contains_key(p) ==> rg.has(p),
            forall|x: int| #[trigger] queue_has(c.queue_spec(), x) ==> rg.has(x),
            completed_recorded(c.handled_spec(), c.results_spec()),
            forall|k: int|
                0 <= k < c.handled_spec().len() ==> ran_on_dispatched(
                    #[trigger] c.handled_spec()[k],
                    c.dispatched_spec(),
                    payload,
                ),
        ensures
            c.accounted(),
            c.range_spec() == rg,
            c.queue_spec() == Seq::<NumericRange>::empty(),
            forall|p: int| #[trigger] c.dispatched_spec().contains_key(p) ==> rg.has(p),
            completed_recorded(c.handled_spec(), c.results_spec()),
            forall|p: int|
                #[trigger] c.dispatched_spec().contains_key(p) ==> c.results_spec().contains_key(
                    p as i64,
                ) || c.invalid_spec().contains(p),
            forall|k: int|
                0 <= k < c.handled_spec().len() ==> ran_on_dispatched(
                    #[trigger] c.handled_spec()[k],
                    c.dispatched_spec(),
                    payload,
                ),
        decreases queued_count(c.queue_spec()),
    {
        let ghost d0 = c.dispatched_spec();
        let ghost h0 = c.handled_spec();
        let ghost m0 = c.results_spec();
        let next = c.dequeue();
        match next {
            None => {
                break;
            },
            Some((mid, left, right)) => {
                let ghost d1 = c.dispatched_spec();
                proof {
                    assert(!d0.contains_key(mid as int));
                    assert forall|k: int| 0 <= k < h0.len() implies ran_on_dispatched(
                        #[trigger] h0[k],
                        d1,
                        payload,
                    ) by {
                        assert(ran_on_dispatched(h0[k], d0, payload));
                        assert(h0[k].point as int != mid as int);
                    }
                }
                let started = started_msg(0, mid, left, right);
                c.handle_message(&started);
                let result = payload(mid);
                let done = result_to_msg(0, mid, left, right, Some(&result));
                c.handle_message(&done);
                proof {
                    let h = c.handled_spec();
                    let m = c.results_spec();
                    assert(h == h0.push(started).push(done));
                    assert(m == m0.insert(mid, result));
                    assert forall|k: int| 0 <= k < h.len() implies ((#[trigger] h[k]).msg_type matches PointCompletionMessageType::Completed(
                        res,
                    ) ==> m.contains_key(h[k].point) && m[h[k].point] == res) by {
                        if k < h0.len() {
                            assert(h[k] == h0[k]);
                            assert(ran_on_dispatched(h0[k], d0, payload));
                            assert(h0[k].point != mid);
                        }
                    }
                    assert forall|k: int| 0 <= k < h.len() implies ran_on_dispatched(
                        #[trigger] h[k],
                        c.dispatched_spec(),
                        payload,
                    ) by {
                        if k < h0.len() {
                            assert(h[k] == h0[k]);
                        } else if k == h0.len() {
                            assert(h[k] == started);
                        } else {
                            assert(h[k] == done);
                        }
                    }
                }
            },
        }
    }
    let ghost cg = c;
    let r = c.finish();
    proof {
        let entries = choose|entries: Seq<(i64, ParasectPayloadResult)>|
            #[trigger] entries_match(entries, cg.results_spec()) && outcome_of(r) == result_outcome(
                entries,
            );
        lemma_run_entries(cg, payload, entries);
    }
    proof {
        assert forall|t: int|
            range.has(t - 1) && range.has(t) && #[trigger] payload_good_below(payload, t) implies (r matches Ok(
                n,
            ) && n == t) by {
            let h = cg.handled_spec();
            let d = cg.dispatched_spec();
            assert forall|k: int| 0 <= k < h.len() implies honest_report(#[trigger] h[k], d, t) by {
                assert(ran_on_dispatched(h[k], d, payload));
                match h[k].msg_type {
                    PointCompletionMessageType::Completed(res) => {
                        assert(call_ensures(payload, (h[k].point,), res));
                    },
                    _ => {},
                }
            }
            law_finished_search_finds_threshold(cg, t);
            let entries = choose|entries: Seq<(i64, ParasectPayloadResult)>|
                #[trigger] entries_match(entries, cg.results_spec()) && outcome_of(r) == result_outcome(
                    entries,
                );
            assert(result_outcome(entries) == SearchOutcome::Found(t));
        }
    }
    r
}

} // verus!
