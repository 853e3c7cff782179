use vstd::prelude::*;

use crate::collections::pred_succ::{predecessor_in, successor_in, PredSucc};
use crate::parasect::result_store::{
    lookup_result,
    new_result_store,
    store_result,
    stored_results,
    take_result,
};
use crate::parasect::types::{ParasectError, ParasectPayloadAnswer, ParasectPayloadResult};
use crate::util::text::{decimal_spec, push_decimal, push_str};
use dashmap::DashMap;

verus! {

/// Whether a critical point was seen.
#[derive(PartialEq, Eq, Clone, Copy, Debug, Structural)]
pub enum Criticality {
    NoCriticalSeen,
    CriticalSeen,
}

/// What a search ended with, with texts taken by their characters.
pub enum SearchOutcome {
    Found(int),
    Payload(Seq<char>),
    Inconsistent(Seq<char>),
}

/// The outcome that a search result stands for.
pub open spec fn outcome_of(r: Result<i64, ParasectError>) -> SearchOutcome {
    match r {
        Ok(n) => SearchOutcome::Found(n as int),
        Err(ParasectError::PayloadError(s)) => SearchOutcome::Payload(s@),
        Err(ParasectError::InconsistencyError(s)) => SearchOutcome::Inconsistent(s@),
    }
}

/// Whether storing `result` between the stored neighbors `before` and `after` reveals a
/// critical point: a bad point right after a good point. A stop anywhere among the three
/// reveals nothing.
pub open spec fn criticality_spec(
    before: Option<ParasectPayloadResult>,
    result: ParasectPayloadResult,
    after: Option<ParasectPayloadResult>,
) -> Criticality {
    if before matches Some(ParasectPayloadResult::Stop(_)) {
        Criticality::NoCriticalSeen
    } else if result matches ParasectPayloadResult::Stop(_) {
        Criticality::NoCriticalSeen
    } else if after matches Some(ParasectPayloadResult::Stop(_)) {
        Criticality::NoCriticalSeen
    } else if before == Some(ParasectPayloadResult::Continue(ParasectPayloadAnswer::Good))
        && result == ParasectPayloadResult::Continue(ParasectPayloadAnswer::Bad) {
        Criticality::CriticalSeen
    } else if result == ParasectPayloadResult::Continue(ParasectPayloadAnswer::Good) && after
        == Some(ParasectPayloadResult::Continue(ParasectPayloadAnswer::Bad)) {
        Criticality::CriticalSeen
    } else {
        Criticality::NoCriticalSeen
    }
}

/// Storing `result` between the stored neighbours `before` and `after` reveals a critical
/// point exactly when it puts a bad point right after a good one, with no stop among the
/// three: `before` good and `result` bad, or `result` good and `after` bad. In particular a bad
/// point stored after a bad point reveals nothing.
pub proof fn law_critical_is_good_then_bad(
    before: Option<ParasectPayloadResult>,
    result: ParasectPayloadResult,
    after: Option<ParasectPayloadResult>,
)
    ensures
        criticality_spec(before, result, after) == Criticality::CriticalSeen <==> {
            let good = ParasectPayloadResult::Continue(ParasectPayloadAnswer::Good);
            let bad = ParasectPayloadResult::Continue(ParasectPayloadAnswer::Bad);
            &&& !(before matches Some(ParasectPayloadResult::Stop(_)))
            &&& !(result is Stop)
            &&& !(after matches Some(ParasectPayloadResult::Stop(_)))
            &&& ((before == Some(good) && result == bad) || (result == good && after == Some(bad)))
        },
        before == Some(ParasectPayloadResult::Continue(ParasectPayloadAnswer::Bad)) && result
            == ParasectPayloadResult::Continue(ParasectPayloadAnswer::Bad)
            ==> criticality_spec(before, result, after) == Criticality::NoCriticalSeen,
{
}

/// The stored result of the neighbor `n`, if there is a neighbor and it has a result.
pub open spec fn neighbor_result(
    m: Map<i64, ParasectPayloadResult>,
    n: Option<i64>,
) -> Option<ParasectPayloadResult> {
    match n {
        Some(k) => if m.contains_key(k) {
            Some(m[k])
        } else {
            None
        },
        None => None,
    }
}

/// The text reporting a good point found after a critical point.
pub open spec fn good_after_critical_text(critical: int, good: int) -> Seq<char> {
    "Found a critical point at "@ + decimal_spec(critical) + " followed by a good point at "@
        + decimal_spec(good) + "."@
}

/// The outcome of scanning `indices` in order over the results `m`, with `crit` the first bad
/// point seen so far. Each point is looked at once: a stop ends the scan with its reason, a
/// good point after a bad one ends it with an inconsistency, and the first bad point is the
/// answer when the scan completes.
pub open spec fn scan_critical(
    indices: Seq<i64>,
    m: Map<i64, ParasectPayloadResult>,
    crit: Option<i64>,
) -> SearchOutcome
    decreases indices.len(),
{
    if indices.len() == 0 {
        match crit {
            Some(n) => SearchOutcome::Found(n as int),
            None => SearchOutcome::Inconsistent("All points were good."@),
        }
    } else {
        let i = indices[0];
        let rest = indices.drop_first();
        if !m.contains_key(i) {
            scan_critical(rest, m, crit)
        } else {
            match m[i] {
                ParasectPayloadResult::Stop(e) => SearchOutcome::Payload(e@),
                ParasectPayloadResult::Continue(ParasectPayloadAnswer::Good) => match crit {
                    Some(c) => SearchOutcome::Inconsistent(
                        good_after_critical_text(c as int, i as int),
                    ),
                    None => scan_critical(rest, m.remove(i), crit),
                },
                ParasectPayloadResult::Continue(ParasectPayloadAnswer::Bad) => scan_critical(
                    rest,
                    m.remove(i),
                    if crit is None {
                        Some(i)
                    } else {
                        crit
                    },
                ),
            }
        }
    }
}

/// The points of a level in order, with the neighbours of each.
pub(crate) struct PointOrder {
    indices: Vec<i64>,
    predsucc: PredSucc,
}

impl PointOrder {
    /// The neighbour table is the one of the points.
    #[verifier::type_invariant]
    spec fn built(&self) -> bool {
        self.predsucc.built_from(self.indices@)
    }

    /// The points, in order.
    pub(crate) closed spec fn indices_view(&self) -> Seq<i64> {
        self.indices@
    }

    /// The given points with their neighbours.
    pub(crate) fn new(indices: Vec<i64>) -> (o: Self)
        ensures
            o.indices_view() == indices@,
    {
        let predsucc = PredSucc::new(indices.as_slice());
        PointOrder { indices, predsucc }
    }

    /// The point before `v`, if there is one.
    pub(crate) fn predecessor(&self, v: i64) -> (r: Option<i64>)
        ensures
            r == predecessor_in(self.indices_view(), v),
    {
        proof {
            use_type_invariant(self);
        }
        self.predsucc.predecessor(v)
    }

    /// The point after `v`, if there is one.
    pub(crate) fn successor(&self, v: i64) -> (r: Option<i64>)
        ensures
            r == successor_in(self.indices_view(), v),
    {
        proof {
            use_type_invariant(self);
        }
        self.predsucc.successor(v)
    }

    /// The points, in order.
    pub(crate) fn into_indices(self) -> (v: Vec<i64>)
        ensures
            v@ == self.indices_view(),
    {
        self.indices
    }
}

/// Collects the results of the points of a search, in the order of the points.
pub struct ParasectResultMap {
    order: PointOrder,
    results: DashMap<i64, ParasectPayloadResult>,
}

impl ParasectResultMap {
    /// The points, in order.
    pub closed spec fn indices_spec(&self) -> Seq<i64> {
        self.order.indices_view()
    }

    /// The stored results.
    pub closed spec fn results_spec(&self) -> Map<i64, ParasectPayloadResult> {
        stored_results(self.results)
    }

    /// A map for the given points, with no results yet.
    pub fn new(indices: Vec<i64>) -> (m: Self)
        ensures
            m.indices_spec() == indices@,
            m.results_spec() == Map::<i64, ParasectPayloadResult>::empty(),
    {
        ParasectResultMap { order: PointOrder::new(indices), results: new_result_store() }
    }

    /// Saves the given result for the given index.
    ///
    /// Returns `CriticalSeen` if a critical point was seen as a result of this insertion,
    /// meaning a bad point where the previous point is good or there is no previous point;
    /// otherwise returns `NoCriticalSeen`. The inserted point does not have to be bad, as
    /// long as the next point is.
    pub fn add(&mut self, index: i64, result: ParasectPayloadResult) -> (c: Criticality)
        ensures
            final(self).indices_spec() == old(self).indices_spec(),
            final(self).results_spec() == old(self).results_spec().insert(index, result),
            c == (if predecessor_in(old(self).indices_spec(), index) is None && result
                == ParasectPayloadResult::Continue(ParasectPayloadAnswer::Bad) {
                Criticality::CriticalSeen
            } else {
                criticality_spec(
                    neighbor_result(
                        old(self).results_spec(),
                        predecessor_in(old(self).indices_spec(), index),
                    ),
                    result,
                    neighbor_result(
                        old(self).results_spec(),
                        successor_in(old(self).indices_spec(), index),
                    ),
                )
            }),
    {
        let before_idx = self.order.predecessor(index);
        if before_idx.is_none() {
            if let ParasectPayloadResult::Continue(ParasectPayloadAnswer::Bad) = result {
                store_result(&mut self.results, index, result);
                return Criticality::CriticalSeen;
            }
        }
        let before = match before_idx {
            Some(b) => lookup_result(&self.results, b),
            None => None,
        };
        let after = match self.order.successor(index) {
            Some(a) => lookup_result(&self.results, a),
            None => None,
        };
        let criticality = criticality_of(&before, &result, &after);
        store_result(&mut self.results, index, result);
        criticality
    }

    /// Returns the critical point if the results hold one and no stop, scanning the points
    /// in order; otherwise returns an appropriate error.
    pub fn critical_point(self) -> (r: Result<i64, ParasectError>)
        ensures
            outcome_of(r) == scan_critical(self.indices_spec(), self.results_spec(), None),
    {
        let ParasectResultMap { order, mut results } = self;
        let indices = order.into_indices();
        let mut crit_pt: Option<i64> = None;
        let mut k: usize = 0;
        proof {
            assert(indices@.skip(0) =~= indices@);
        }
        while k < indices.len()
            invariant
                0 <= k <= indices@.len(),
                scan_critical(indices@.skip(k as int), stored_results(results), crit_pt)
                    == scan_critical(self.indices_spec(), self.results_spec(), None),
            decreases indices@.len() - k,
        {
            let ghost rest = indices@.skip(k as int);
            let ghost m = stored_results(results);
            proof {
                assert(rest[0] == indices@[k as int]);
                assert(rest.drop_first() =~= indices@.skip(k + 1));
            }
            let index = indices[k];
            let taken = take_result(&mut results, index);
            proof {
                assert(rest.len() > 0);
                assert(scan_critical(rest, m, crit_pt) == (if !m.contains_key(index) {
                    scan_critical(rest.drop_first(), m, crit_pt)
                } else {
                    match m[index] {
                        ParasectPayloadResult::Stop(e) => SearchOutcome::Payload(e@),
                        ParasectPayloadResult::Continue(ParasectPayloadAnswer::Good) => match crit_pt {
                            Some(c) => SearchOutcome::Inconsistent(
                                good_after_critical_text(c as int, index as int),
                            ),
                            None => scan_critical(rest.drop_first(), m.remove(index), crit_pt),
                        },
                        ParasectPayloadResult::Continue(ParasectPayloadAnswer::Bad) => scan_critical(
                            rest.drop_first(),
                            m.remove(index),
                            if crit_pt is None {
                                Some(index)
                            } else {
                                crit_pt
                            },
                        ),
                    }
                }));
                if !m.contains_key(index) {
                    assert(m.remove(index) =~= m);
                }
            }
            match taken {
                None => {},
                Some((n, ParasectPayloadResult::Stop(e))) => {
                    return Err(ParasectError::PayloadError(e));
                },
                Some((n, ParasectPayloadResult::Continue(ParasectPayloadAnswer::Good))) => {
                    if let Some(existing) = crit_pt {
                        let mut msg = String::from_str("Found a critical point at ");
                        push_decimal(&mut msg, existing as i128);
                        push_str(&mut msg, " followed by a good point at ");
                        push_decimal(&mut msg, n as i128);
                        push_str(&mut msg, ".");
                        proof {
                            assert(msg@ =~= good_after_critical_text(existing as int, n as int));
                        }
                        return Err(ParasectError::InconsistencyError(msg));
                    }
                },
                Some((n, ParasectPayloadResult::Continue(ParasectPayloadAnswer::Bad))) => {
                    if crit_pt.is_none() {
                        crit_pt = Some(n);
                    }
                },
            }
            k = k + 1;
        }
        proof {
            assert(indices@.skip(k as int).len() == 0);
        }
        match crit_pt {
            Some(n) => Ok(n),
            None => {
                let s = String::from_str("All points were good.");
                Err(ParasectError::InconsistencyError(s))
            },
        }
    }
}

/// Whether storing `result` between the stored neighbors `before` and `after` reveals a
/// critical point.
pub fn criticality_of(
    before: &Option<ParasectPayloadResult>,
    result: &ParasectPayloadResult,
    after: &Option<ParasectPayloadResult>,
) -> (c: Criticality)
    ensures
        c == criticality_spec(*before, *result, *after),
{
    if let Some(ParasectPayloadResult::Stop(_)) = before {
        return Criticality::NoCriticalSeen;
    }
    if let ParasectPayloadResult::Stop(_) = result {
        return Criticality::NoCriticalSeen;
    }
    if let Some(ParasectPayloadResult::Stop(_)) = after {
        return Criticality::NoCriticalSeen;
    }
    if let Some(ParasectPayloadResult::Continue(ParasectPayloadAnswer::Good)) = before {
        if let ParasectPayloadResult::Continue(ParasectPayloadAnswer::Bad) = result {
            return Criticality::CriticalSeen;
        }
    }
    if let ParasectPayloadResult::Continue(ParasectPayloadAnswer::Good) = result {
        if let Some(ParasectPayloadResult::Continue(ParasectPayloadAnswer::Bad)) = after {
            return Criticality::CriticalSeen;
        }
    }
    Criticality::NoCriticalSeen
}

/// `true` if every stored result is the answer of a command that is good exactly below `t`.
pub open spec fn results_of_threshold(m: Map<i64, ParasectPayloadResult>, t: int) -> bool {
    forall|x: i64| #[trigger] m.contains_key(x) ==> m[x] == ParasectPayloadResult::Continue(
        if x < t {
            ParasectPayloadAnswer::Good
        } else {
            ParasectPayloadAnswer::Bad
        },
    )
}

/// `true` if the points are in strictly increasing order.
pub open spec fn strictly_increasing(indices: Seq<i64>) -> bool {
    forall|i: int, j: int| 0 <= i < j < indices.len() ==> #[trigger] indices[i] < #[trigger] indices[j]
}

/// Once `t` is the critical point, the rest of a scan over points above it keeps it.
proof fn lemma_scan_after_threshold(indices: Seq<i64>, m: Map<i64, ParasectPayloadResult>, t: i64)
    requires
        results_of_threshold(m, t as int),
        forall|i: int| 0 <= i < indices.len() ==> #[trigger] indices[i] > t,
    ensures
        scan_critical(indices, m, Some(t)) == SearchOutcome::Found(t as int),
    decreases indices.len(),
{
    if indices.len() > 0 {
        let rest = indices.drop_first();
        assert forall|i: int| 0 <= i < rest.len() implies #[trigger] rest[i] > t by {
            assert(rest[i] == indices[i + 1]);
        }
        let i0 = indices[0];
        assert(results_of_threshold(m.remove(i0), t as int)) by {
            assert forall|x: i64| #[trigger] m.remove(i0).contains_key(x) implies m.remove(i0)[x]
                == m[x] && m.contains_key(x) by {}
        }
        lemma_scan_after_threshold(rest, m, t);
        lemma_scan_after_threshold(rest, m.remove(i0), t);
    }
}

/// Before `t` is reached, a scan over increasing points that include `t` sees only good points,
/// then takes `t` as the critical point.
proof fn lemma_scan_to_threshold(indices: Seq<i64>, m: Map<i64, ParasectPayloadResult>, t: i64)
    requires
        results_of_threshold(m, t as int),
        strictly_increasing(indices),
        m.contains_key(t),
        exists|k: int| 0 <= k < indices.len() && #[trigger] indices[k] == t,
    ensures
        scan_critical(indices, m, None) == SearchOutcome::Found(t as int),
    decreases indices.len(),
{
    let k = choose|k: int| 0 <= k < indices.len() && #[trigger] indices[k] == t;
    let i0 = indices[0];
    let rest = indices.drop_first();
    if k > 0 {
        assert(indices[0] < indices[k]);
    }
    assert(results_of_threshold(m.remove(i0), t as int)) by {
        assert forall|x: i64| #[trigger] m.remove(i0).contains_key(x) implies m.remove(i0)[x] == m[x]
            && m.contains_key(x) by {}
    }
    if i0 == t {
        assert forall|i: int| 0 <= i < rest.len() implies #[trigger] rest[i] > t by {
            assert(rest[i] == indices[i + 1]);
            assert(indices[0] < indices[i + 1]);
        }
        lemma_scan_after_threshold(rest, m.remove(i0), t);
    } else {
        assert(strictly_increasing(rest)) by {
            assert forall|i: int, j: int| 0 <= i < j < rest.len() implies #[trigger] rest[i]
                < #[trigger] rest[j] by {
                assert(rest[i] == indices[i + 1] && rest[j] == indices[j + 1]);
            }
        }
        assert(rest[k - 1] == t);
        lemma_scan_to_threshold(rest, m, t);
        lemma_scan_to_threshold(rest, m.remove(i0), t);
    }
}

/// For a command that is good exactly below `t`, results over increasing points that include a
/// result for `t` have `t` as their critical point, whichever other points have results.
pub proof fn law_critical_point_of_threshold(indices: Seq<i64>, m: Map<i64, ParasectPayloadResult>, t: i64)
    requires
        strictly_increasing(indices),
        results_of_threshold(m, t as int),
        m.contains_key(t),
        exists|k: int| 0 <= k < indices.len() && #[trigger] indices[k] == t,
    ensures
        scan_critical(indices, m, None) == SearchOutcome::Found(t as int),
{
    lemma_scan_to_threshold(indices, m, t);
}

/// What a completed scan from `crit` found: with `crit` set, every stored result is bad and
/// the answer is `crit`; otherwise the answer is a point whose stored result is bad, with every
/// stored result before it good and every one after it bad.
proof fn lemma_scan_critical_found(
    indices: Seq<i64>,
    m: Map<i64, ParasectPayloadResult>,
    crit: Option<i64>,
    b: int,
)
    requires
        indices.no_duplicates(),
        scan_critical(indices, m, crit) == SearchOutcome::Found(b),
    ensures
        crit matches Some(c) ==> b == c && forall|j: int|
            0 <= j < indices.len() && m.contains_key(#[trigger] indices[j]) ==> m[indices[j]]
                == ParasectPayloadResult::Continue(ParasectPayloadAnswer::Bad),
        crit is None ==> exists|k: int|
            0 <= k < indices.len() && #[trigger] indices[k] == b && m.contains_key(indices[k])
                && m[indices[k]] == ParasectPayloadResult::Continue(ParasectPayloadAnswer::Bad)
                && (forall|j: int|
                0 <= j < k && m.contains_key(#[trigger] indices[j]) ==> m[indices[j]]
                    == ParasectPayloadResult::Continue(ParasectPayloadAnswer::Good)) && (forall|j: int|
                k < j < indices.len() && m.contains_key(#[trigger] indices[j]) ==> m[indices[j]]
                    == ParasectPayloadResult::Continue(ParasectPayloadAnswer::Bad)),
    decreases indices.len(),
{
    let good = ParasectPayloadResult::Continue(ParasectPayloadAnswer::Good);
    let bad = ParasectPayloadResult::Continue(ParasectPayloadAnswer::Bad);
    if indices.len() > 0 {
        let i = indices[0];
        let rest = indices.drop_first();
        assert forall|j: int| 0 <= j < rest.len() implies #[trigger] rest[j] == indices[j + 1]
            && rest[j] != i by {
            assert(indices[j + 1] != indices[0]);
        }
        assert(rest.no_duplicates()) by {
            assert forall|x: int, y: int| 0 <= x < rest.len() && 0 <= y < rest.len() && x != y implies rest[x]
                != rest[y] by {
                assert(rest[x] == indices[x + 1] && rest[y] == indices[y + 1]);
            }
        }
        if !m.contains_key(i) {
            lemma_scan_critical_found(rest, m, crit, b);
            if crit is None {
                let k = choose|k: int|
                    0 <= k < rest.len() && #[trigger] rest[k] == b && m.contains_key(rest[k])
                        && m[rest[k]] == bad && (forall|j: int|
                        0 <= j < k && m.contains_key(#[trigger] rest[j]) ==> m[rest[j]] == good) && (
                    forall|j: int| k < j < rest.len() && m.contains_key(#[trigger] rest[j]) ==> m[rest[j]] == bad);
                assert(indices[k + 1] == b);
                assert forall|j: int| 0 <= j < k + 1 && m.contains_key(#[trigger] indices[j]) implies m[indices[j]] == good by {
                    if j > 0 {
                        assert(indices[j] == rest[j - 1]);
                    }
                }
                assert forall|j: int| k + 1 < j < indices.len() && m.contains_key(#[trigger] indices[j]) implies m[indices[j]] == bad by {
                    assert(indices[j] == rest[j - 1]);
                }
            } else {
                assert forall|j: int| 0 <= j < indices.len() && m.contains_key(#[trigger] indices[j]) implies m[indices[j]] == bad by {
                    if j > 0 {
                        assert(indices[j] == rest[j - 1]);
                    }
                }
            }
        } else {
            let m2 = m.remove(i);
            assert forall|j: int| 0 <= j < rest.len() implies (m2.contains_key(#[trigger] rest[j])
                <==> m.contains_key(rest[j])) && (m.contains_key(rest[j]) ==> m2[rest[j]] == m[rest[j]]) by {
                assert(rest[j] != i);
            }
            match m[i] {
                ParasectPayloadResult::Stop(_) => {},
                ParasectPayloadResult::Continue(ParasectPayloadAnswer::Good) => {
                    if crit is None {
                        lemma_scan_critical_found(rest, m2, crit, b);
                        let k = choose|k: int|
                            0 <= k < rest.len() && #[trigger] rest[k] == b && m2.contains_key(rest[k])
                                && m2[rest[k]] == bad && (forall|j: int|
                                0 <= j < k && m2.contains_key(#[trigger] rest[j]) ==> m2[rest[j]] == good) && (
                            forall|j: int|
                                k < j < rest.len() && m2.contains_key(#[trigger] rest[j]) ==> m2[rest[j]] == bad);
                        assert(indices[k + 1] == b);
                        assert forall|j: int| 0 <= j < k + 1 && m.contains_key(#[trigger] indices[j]) implies m[indices[j]] == good by {
                            if j > 0 {
                                assert(indices[j] == rest[j - 1]);
                            }
                        }
                        assert forall|j: int| k + 1 < j < indices.len() && m.contains_key(#[trigger] indices[j]) implies m[indices[j]] == bad by {
                            assert(indices[j] == rest[j - 1]);
                        }
                    }
                },
                ParasectPayloadResult::Continue(ParasectPayloadAnswer::Bad) => {
                    let c2 = if crit is None {
                        Some(i)
                    } else {
                        crit
                    };
                    lemma_scan_critical_found(rest, m2, c2, b);
                    assert forall|j: int| 0 <= j < indices.len() && m.contains_key(#[trigger] indices[j]) implies m[indices[j]] == bad by {
                        if j > 0 {
                            assert(indices[j] == rest[j - 1]);
                        }
                    }
                    if crit is None {
                        assert(indices[0] == b);
                    }
                },
            }
        }
    }
}

/// A level's answer is a point only when the stored results, taken in the order of the
/// points, are good up to it and bad from it on: the point is the first one found bad, and no
/// stop is stored for any point.
pub proof fn law_scan_critical_answer_is_first_bad(indices: Seq<i64>, m: Map<i64, ParasectPayloadResult>, b: int)
    requires
        indices.no_duplicates(),
        scan_critical(indices, m, None) == SearchOutcome::Found(b),
    ensures
        exists|k: int|
            0 <= k < indices.len() && #[trigger] indices[k] == b && m.contains_key(indices[k])
                && m[indices[k]] == ParasectPayloadResult::Continue(ParasectPayloadAnswer::Bad)
                && (forall|j: int|
                0 <= j < k && m.contains_key(#[trigger] indices[j]) ==> m[indices[j]]
                    == ParasectPayloadResult::Continue(ParasectPayloadAnswer::Good)) && (forall|j: int|
                k < j < indices.len() && m.contains_key(#[trigger] indices[j]) ==> m[indices[j]]
                    == ParasectPayloadResult::Continue(ParasectPayloadAnswer::Bad)),
{
    lemma_scan_critical_found(indices, m, None, b);
}

} // verus!
