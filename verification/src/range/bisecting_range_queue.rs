use vstd::prelude::*;

use crate::range::numeric_range::NumericRange;
use crate::range::numeric_range_set::NumericRangeSet;
use std::collections::VecDeque;

verus! {

/// Produces a sequence of points that bisect the input space.
///
/// Ranges can also be "invalidated", preventing them from being selected in the future.
pub struct BisectingRangeQueue {
    range_queue: VecDeque<NumericRange>,
    invalid: NumericRangeSet,
}

/// Half of `s`, rounded toward zero.
pub open spec fn half_toward_zero(s: int) -> int {
    if s >= 0 {
        s / 2
    } else {
        -((-s) / 2)
    }
}

/// The point at which a non-empty range is split: the middle, rounded toward zero.
pub open spec fn split_point(r: NumericRange) -> int {
    half_toward_zero(r.lo() + r.hi())
}

/// A non-empty range is split at its middle: the point lies in the range, the numbers to its
/// left and to its right differ in count by at most one, and twice the point is the sum of the
/// ends rounded toward zero, as `(lo + hi) / 2` computes it.
pub proof fn law_split_point_is_middle(r: NumericRange)
    requires
        r.inv(),
        !r.is_empty_spec(),
    ensures
        r.lo() <= split_point(r) <= r.hi(),
        -1 <= (split_point(r) - r.lo()) - (r.hi() - split_point(r)) <= 1,
        r.lo() + r.hi() >= 0 ==> r.lo() + r.hi() - 1 <= 2 * split_point(r) <= r.lo() + r.hi(),
        r.lo() + r.hi() < 0 ==> r.lo() + r.hi() <= 2 * split_point(r) <= r.lo() + r.hi() + 1,
{
    let s = r.lo() + r.hi();
    if s >= 0 {
        assert(s / 2 * 2 <= s && s < s / 2 * 2 + 2);
    } else {
        assert((-s) / 2 * 2 <= -s && -s < (-s) / 2 * 2 + 2);
    }
}

/// `true` if every number of `r` is in `s`.
pub open spec fn covered(r: NumericRange, s: Set<int>) -> bool {
    forall|x: int| r.has(x) ==> s.contains(x)
}

/// The range as a one-element list, unless it is empty or covered by `s`.
pub open spec fn kept(r: NumericRange, s: Set<int>) -> Seq<NumericRange> {
    if r.is_empty_spec() || covered(r, s) {
        Seq::<NumericRange>::empty()
    } else {
        seq![r]
    }
}

/// `true` if some range of `q` holds `x`.
pub open spec fn queue_has(q: Seq<NumericRange>, x: int) -> bool {
    exists|i: int| 0 <= i < q.len() && (#[trigger] q[i]).has(x)
}

/// The ranges of `q` are valid and no two of them share a number.
pub open spec fn queue_disjoint(q: Seq<NumericRange>) -> bool {
    &&& forall|i: int| 0 <= i < q.len() ==> (#[trigger] q[i]).inv()
    &&& forall|i: int, j: int, x: int|
        #![trigger q[i].has(x), q[j].has(x)]
        0 <= i < j < q.len() ==> !(q[i].has(x) && q[j].has(x))
}

/// What `dequeue` does with the queue `q0` when the numbers `inv` are invalid, handing out `r`
/// and leaving `q1`: with `None`, every queued range was entirely invalid and the queue is
/// left empty; else the first queued range that is not entirely invalid is split at its
/// middle, the ranges in front of it are dropped, and the non-empty, not entirely invalid
/// halves go to the back.
pub open spec fn dequeued(
    q0: Seq<NumericRange>,
    inv: Set<int>,
    r: Option<(i64, NumericRange, NumericRange)>,
    q1: Seq<NumericRange>,
) -> bool {
    match r {
        None => q1 == Seq::<NumericRange>::empty() && forall|i: int|
            0 <= i < q0.len() ==> covered(#[trigger] q0[i], inv),
        Some((mid, left, right)) => exists|k: int|
            0 <= k < q0.len() && (forall|i: int| 0 <= i < k ==> covered(#[trigger] q0[i], inv))
                && !covered(q0[k], inv) && mid == split_point(q0[k]) && left
                == NumericRange::from_bounds(q0[k].lo(), mid - 1) && right
                == NumericRange::from_bounds(mid + 1, q0[k].hi()) && q1 == q0.skip(k + 1) + kept(
                left,
                inv,
            ) + kept(right, inv),
    }
}

impl BisectingRangeQueue {
    /// The ranges waiting to be split, front first.
    pub closed spec fn queue_spec(&self) -> Seq<NumericRange> {
        self.range_queue@
    }

    /// The numbers that were invalidated.
    pub closed spec fn invalid_spec(&self) -> Set<int> {
        self.invalid@
    }

    /// The queued ranges never overlap.
    #[verifier::type_invariant]
    pub open spec fn inv(&self) -> bool {
        queue_disjoint(self.queue_spec())
    }

    /// Creates a new queue that bisects the given range.
    pub fn new(initial_range: NumericRange) -> (q: Self)
        ensures
            q.queue_spec() == seq![initial_range],
            q.invalid_spec() == Set::<int>::empty(),
    {
        proof {
            use_type_invariant(&initial_range);
        }
        let mut range_queue = VecDeque::new();
        range_queue.push_back(initial_range);
        let invalid = NumericRangeSet::new();
        BisectingRangeQueue { range_queue, invalid }
    }

    /// Splits a non-empty range at its middle, returning the point and the ranges to its
    /// left and right (neither including the point).
    fn split(range: &NumericRange) -> (r: (i64, NumericRange, NumericRange))
        requires
            !range.is_empty_spec(),
        ensures
            r.0 == split_point(*range),
            r.1 == NumericRange::from_bounds(range.lo(), r.0 - 1),
            r.2 == NumericRange::from_bounds(r.0 + 1, range.hi()),
            range.lo() <= r.0 <= range.hi(),
    {
        proof {
            use_type_invariant(range);
        }
        let low = range.first_unchecked();
        let high = range.last_unchecked();
        let s: i128 = low as i128 + high as i128;
        let mid: i128 = if s >= 0 {
            s / 2
        } else {
            -((-s) / 2)
        };
        let mid = mid as i64;
        let left = NumericRange::from_endpoints_excluding_end(low, mid);
        let right = NumericRange::after_until(mid, high);
        (mid, left, right)
    }
}

impl BisectingRangeQueue {
    /// Pops ranges from the front until one that is not entirely invalid comes up.
    fn pop_next_valid_node(&mut self) -> (r: Option<NumericRange>)
        ensures
            final(self).invalid_spec() == old(self).invalid_spec(),
            r is None ==> final(self).queue_spec() == Seq::<NumericRange>::empty() && forall|i: int|
                0 <= i < old(self).queue_spec().len() ==> covered(
                    #[trigger] old(self).queue_spec()[i],
                    old(self).invalid_spec(),
                ),
            r matches Some(range) ==> exists|k: int|
                0 <= k < old(self).queue_spec().len() && (forall|i: int|
                    0 <= i < k ==> covered(
                        #[trigger] old(self).queue_spec()[i],
                        old(self).invalid_spec(),
                    )) && !covered(old(self).queue_spec()[k], old(self).invalid_spec()) && range
                    == old(self).queue_spec()[k] && final(self).queue_spec() == old(self).queue_spec().skip(k + 1),
    {
        proof {
            use_type_invariant(&*self);
        }
        let ghost q0 = self.range_queue@;
        let ghost inv_set = self.invalid@;
        let mut q: VecDeque<NumericRange> = VecDeque::new();
        std::mem::swap(&mut q, &mut self.range_queue);
        let ghost mut popped: int = 0;
        loop
            invariant
                0 <= popped <= q0.len(),
                q@ == q0.skip(popped),
                self.range_queue@ == Seq::<NumericRange>::empty(),
                self.invalid@ == inv_set,
                inv_set == old(self).invalid@,
                q0 == old(self).range_queue@,
                forall|i: int| 0 <= i < popped ==> covered(#[trigger] q0[i], inv_set),
                queue_disjoint(q@),
            decreases q0.len() - popped,
        {
            let range = match q.pop_front() {
                None => {
                    proof {
                        assert(q0.skip(popped).len() == 0);
                    }
                    return None;
                },
                Some(range) => range,
            };
            proof {
                assert(range == q0[popped]);
                assert(q@ =~= q0.skip(popped + 1));
                assert forall|i: int, j: int, x: int|
                    #![trigger q@[i].has(x), q@[j].has(x)]
                    0 <= i < j < q@.len() implies !(q@[i].has(x) && q@[j].has(x)) by {
                    assert(q@[i] == q0.skip(popped)[i + 1]);
                    assert(q@[j] == q0.skip(popped)[j + 1]);
                }
            }
            if self.invalid.contains_range(&range) {
                proof {
                    popped = popped + 1;
                }
                continue;
            }
            self.range_queue = q;
            proof {
                let k = popped;
                let oq = old(self).queue_spec();
                let oi = old(self).invalid_spec();
                assert(oq == q0 && oi == inv_set);
                assert(self.queue_spec() == oq.skip(k + 1));
                assert(0 <= k < oq.len() && (forall|i: int| 0 <= i < k ==> covered(#[trigger] oq[i], oi))
                    && !covered(oq[k], oi) && range == oq[k] && self.queue_spec() == oq.skip(k + 1));
            }
            return Some(range);
        }
    }

    /// Adds a range to the back of the queue, unless it is empty or entirely invalid.
    fn append(&mut self, range: NumericRange)
        requires
            range.inv(),
            forall|i: int, x: int|
                #![trigger old(self).queue_spec()[i].has(x)]
                0 <= i < old(self).queue_spec().len() ==> !(old(self).queue_spec()[i].has(x)
                    && range.has(x)),
        ensures
            final(self).invalid_spec() == old(self).invalid_spec(),
            final(self).queue_spec() == old(self).queue_spec() + kept(range, old(self).invalid_spec()),
    {
        if range.is_empty() || self.invalid.contains_range(&range) {
            proof {
                assert(self.range_queue@ =~= self.range_queue@ + kept(range, self.invalid@));
            }
            return;
        }
        let ghost q0 = self.range_queue@;
        proof {
            use_type_invariant(&*self);
        }
        let mut queue: VecDeque<NumericRange> = VecDeque::new();
        std::mem::swap(&mut queue, &mut self.range_queue);
        queue.push_back(range);
        proof {
            assert(queue@ =~= q0 + kept(range, self.invalid@));
            let q = queue@;
            assert forall|i: int, j: int, x: int|
                #![trigger q[i].has(x), q[j].has(x)]
                0 <= i < j < q.len() implies !(q[i].has(x) && q[j].has(x)) by {
                if j < q0.len() {
                    assert(q[i] == q0[i] && q[j] == q0[j]);
                } else {
                    assert(q[i] == q0[i]);
                }
            }
        }
        self.range_queue = queue;
    }

    /// Gets a split point along with the ranges to the left and right (neither including the
    /// split point), or `None` if there are no ranges left.
    ///
    /// The first queued range that is not entirely invalid is split at its middle; the
    /// ranges in front of it are dropped, and the non-empty, not entirely invalid halves go
    /// to the back of the queue. Either or both ranges returned can be empty.
    ///
    /// No number is lost: each number of a queued range is afterwards still queued,
    /// invalidated, or the point handed out.
    pub fn dequeue(&mut self) -> (r: Option<(i64, NumericRange, NumericRange)>)
        ensures
            final(self).invalid_spec() == old(self).invalid_spec(),
            dequeued(old(self).queue_spec(), old(self).invalid_spec(), r, final(self).queue_spec()),
            r matches Some((mid, left, right)) ==> queue_has(old(self).queue_spec(), mid as int)
                && !queue_has(final(self).queue_spec(), mid as int),
            forall|x: int|
                #[trigger] queue_has(final(self).queue_spec(), x) ==> queue_has(
                    old(self).queue_spec(),
                    x,
                ),
            forall|x: int|
                #[trigger] queue_has(old(self).queue_spec(), x) ==> queue_has(
                    final(self).queue_spec(),
                    x,
                ) || old(self).invalid_spec().contains(x) || (r matches Some((mid, _a, _b))
                    && x == mid),
    {
        proof {
            use_type_invariant(&*self);
        }
        let ghost q0 = self.range_queue@;
        let range = match self.pop_next_valid_node() {
            None => {
                proof {
                    assert forall|x: int| #[trigger] queue_has(self.range_queue@, x) implies queue_has(q0, x) by {
                    }
                    assert forall|x: int| #[trigger] queue_has(q0, x) implies self.invalid@.contains(x) by {
                        let i = choose|i: int| 0 <= i < q0.len() && (#[trigger] q0[i]).has(x);
                        assert(covered(q0[i], self.invalid@));
                    }
                }
                return None;
            },
            Some(range) => range,
        };
        let ghost k = choose|k: int|
            0 <= k < q0.len() && (forall|i: int|
                0 <= i < k ==> covered(#[trigger] q0[i], self.invalid@)) && !covered(q0[k], self.invalid@)
                && range == q0[k] && self.range_queue@ == q0.skip(k + 1);
        proof {
            use_type_invariant(&range);
            assert(range.has(range.lo()) || range.is_empty_spec());
            if range.is_empty_spec() {
                assert(covered(range, self.invalid@));
            }
        }
        let (split_point, left, right) = Self::split(&range);
        proof {
            NumericRange::lemma_from_bounds(range.lo(), split_point - 1);
            NumericRange::lemma_from_bounds(split_point + 1, range.hi());
            let rest = self.range_queue@;
            assert forall|i: int, x: int| #![trigger rest[i].has(x)] 0 <= i < rest.len() implies !(rest[i].has(x)
                && range.has(x)) by {
                assert(rest[i] == q0[k + 1 + i]);
                assert(!(q0[k].has(x) && q0[k + 1 + i].has(x)));
            }
        }
        let ghost rest = self.range_queue@;
        self.append(left);
        let ghost mid_q = self.range_queue@;
        proof {
            assert forall|i: int, x: int| #![trigger mid_q[i].has(x)] 0 <= i < mid_q.len() implies !(mid_q[i].has(x)
                && right.has(x)) by {
                if i < rest.len() {
                    assert(mid_q[i] == rest[i]);
                } else {
                    assert(mid_q[i] == left);
                }
            }
        }
        self.append(right);
        proof {
            let q1 = self.range_queue@;
            let inv_set = self.invalid@;
            assert(q1 == q0.skip(k + 1) + kept(left, inv_set) + kept(right, inv_set));
            assert(queue_has(q0, split_point as int)) by {
                assert(q0[k].has(split_point as int));
            }
            assert forall|x: int| #[trigger] queue_has(q1, x) implies queue_has(q0, x) && x != split_point by {
                let i = choose|i: int| 0 <= i < q1.len() && (#[trigger] q1[i]).has(x);
                if i < rest.len() {
                    assert(q1[i] == q0[k + 1 + i]);
                } else {
                    assert(q1[i] == left || q1[i] == right);
                    assert(q0[k].has(x));
                }
            }
            assert forall|x: int| #[trigger] queue_has(q0, x) && x != split_point && !inv_set.contains(x) implies queue_has(q1, x) by {
                let i = choose|i: int| 0 <= i < q0.len() && (#[trigger] q0[i]).has(x);
                if i < k {
                    assert(covered(q0[i], inv_set));
                } else if i == k {
                    if x < split_point {
                        assert(left.has(x));
                        assert(!covered(left, inv_set));
                        assert(kept(left, inv_set) == seq![left]);
                        assert(q1[rest.len() as int] == left);
                    } else {
                        assert(right.has(x));
                        assert(!covered(right, inv_set));
                        assert(kept(right, inv_set) == seq![right]);
                        if kept(left, inv_set).len() == 0 {
                            assert(q1[rest.len() as int] == right);
                        } else {
                            assert(q1[rest.len() as int + 1] == right);
                        }
                    }
                } else {
                    assert(q1[i - k - 1] == q0[i]);
                }
            }
        }
        Some((split_point, left, right))
    }

    /// Marks a range (and all ranges within that range) as invalid, meaning they will not be
    /// split by subsequent `dequeue()` calls.
    ///
    /// Invalidating an empty range is a no-op.
    pub fn invalidate(&mut self, range: &NumericRange)
        ensures
            final(self).queue_spec() == old(self).queue_spec(),
            forall|x: int|
                #[trigger] final(self).invalid_spec().contains(x) <==> old(self).invalid_spec().contains(x)
                    || range.has(x),
    {
        proof {
            use_type_invariant(&*self);
        }
        let mut invalid = NumericRangeSet::new();
        std::mem::swap(&mut invalid, &mut self.invalid);
        invalid.add(*range);
        self.invalid = invalid;
    }

    /// Returns `true` if every number of the given range was invalidated.
    ///
    /// An empty range is always invalid.
    pub fn range_invalidated(&self, range: &NumericRange) -> (b: bool)
        ensures
            b == covered(*range, self.invalid_spec()),
    {
        self.invalid.contains_range(range)
    }

    /// Returns `true` if the given point was invalidated.
    pub fn point_invalidated(&self, point: i64) -> (b: bool)
        ensures
            b == self.invalid_spec().contains(point as int),
    {
        self.invalid.contains(point)
    }
}

/// How many numbers the ranges of `q` hold together, counted once per range.
pub open spec fn queued_count(q: Seq<NumericRange>) -> nat
    decreases q.len(),
{
    if q.len() == 0 {
        0
    } else {
        queued_count(q.drop_last()) + q.last().len_spec()
    }
}

/// The count of two lists put together is the sum of their counts.
proof fn lemma_queued_count_concat(a: Seq<NumericRange>, b: Seq<NumericRange>)
    ensures
        queued_count(a + b) == queued_count(a) + queued_count(b),
    decreases b.len(),
{
    if b.len() == 0 {
        assert(a + b =~= a);
    } else {
        lemma_queued_count_concat(a, b.drop_last());
        assert((a + b).drop_last() =~= a + b.drop_last());
        assert((a + b).last() == b.last());
    }
}

/// A dequeue that hands out a point leaves fewer numbers counted in the queue.
pub(crate) proof fn lemma_dequeue_shrinks(
    q0: Seq<NumericRange>,
    inv: Set<int>,
    r: Option<(i64, NumericRange, NumericRange)>,
    q1: Seq<NumericRange>,
)
    requires
        queue_disjoint(q0),
        dequeued(q0, inv, r, q1),
        r is Some,
    ensures
        queued_count(q1) < queued_count(q0),
{
    let (mid, left, right) = r->0;
    let k = choose|k: int|
        0 <= k < q0.len() && (forall|i: int| 0 <= i < k ==> covered(#[trigger] q0[i], inv))
            && !covered(q0[k], inv) && mid == split_point(q0[k]) && left
            == NumericRange::from_bounds(q0[k].lo(), mid - 1) && right
            == NumericRange::from_bounds(mid + 1, q0[k].hi()) && q1 == q0.skip(k + 1) + kept(
            left,
            inv,
        ) + kept(right, inv);
    let rk = q0[k];
    assert(rk.inv());
    let w = choose|x: int| !(rk.has(x) ==> inv.contains(x));
    assert(rk.lo() <= rk.hi());
    let s = rk.lo() + rk.hi();
    assert(rk.lo() <= mid <= rk.hi()) by {
        if s >= 0 {
            assert(s / 2 * 2 <= s && s < s / 2 * 2 + 2);
        } else {
            assert((-s) / 2 * 2 <= -s && -s < (-s) / 2 * 2 + 2);
        }
    }
    NumericRange::lemma_from_bounds(rk.lo(), mid - 1);
    NumericRange::lemma_from_bounds(mid + 1, rk.hi());
    assert(left.len_spec() + right.len_spec() + 1 == rk.len_spec());
    let kl = kept(left, inv);
    let kr = kept(right, inv);
    assert(queued_count(kl) <= left.len_spec()) by {
        if kl.len() == 1 {
            assert(kl == seq![left]);
            assert(kl.drop_last() =~= Seq::<NumericRange>::empty());
            assert(queued_count(kl.drop_last()) == 0);
            assert(kl.last() == left);
        } else {
            assert(kl.len() == 0);
        }
    }
    assert(queued_count(kr) <= right.len_spec()) by {
        if kr.len() == 1 {
            assert(kr == seq![right]);
            assert(kr.drop_last() =~= Seq::<NumericRange>::empty());
            assert(queued_count(kr.drop_last()) == 0);
            assert(kr.last() == right);
        } else {
            assert(kr.len() == 0);
        }
    }
    let rest = q0.skip(k + 1);
    lemma_queued_count_concat(rest, kl);
    lemma_queued_count_concat(rest + kl, kr);
    let front = q0.take(k + 1);
    assert(q0 =~= front + rest);
    lemma_queued_count_concat(front, rest);
    assert(front.drop_last() =~= q0.take(k));
    assert(front.last() == rk);
    assert(queued_count(front) >= rk.len_spec());
}

/// The point that `r` hands out; only meaningful for `Some`.
pub open spec fn handed_point(r: Option<(i64, NumericRange, NumericRange)>) -> int {
    match r {
        Some((p, _l, _r)) => p as int,
        None => 0,
    }
}

/// One dequeue from a queue in which nothing is invalidated: `None` comes only from a queue
/// that holds no number, and leaves it empty; otherwise the point handed out was queued, and
/// it is the only number that leaves the queue.
proof fn lemma_dequeue_step(
    q0: Seq<NumericRange>,
    r: Option<(i64, NumericRange, NumericRange)>,
    q1: Seq<NumericRange>,
)
    requires
        queue_disjoint(q0),
        dequeued(q0, Set::<int>::empty(), r, q1),
    ensures
        r is None ==> q1.len() == 0 && forall|x: int| !#[trigger] queue_has(q0, x),
        r is Some ==> queue_has(q0, handed_point(r)),
        r is Some ==> forall|x: int|
            #[trigger] queue_has(q1, x) <==> (queue_has(q0, x) && x != handed_point(r)),
{
    let e = Set::<int>::empty();
    match r {
        None => {
            assert forall|x: int| !#[trigger] queue_has(q0, x) by {
                if queue_has(q0, x) {
                    let i = choose|i: int| 0 <= i < q0.len() && (#[trigger] q0[i]).has(x);
                    assert(covered(q0[i], e));
                    assert(!e.contains(x));
                }
            }
        },
        Some((mid, left, right)) => {
            let k = choose|k: int|
                0 <= k < q0.len() && (forall|i: int| 0 <= i < k ==> covered(#[trigger] q0[i], e))
                    && !covered(q0[k], e) && mid == split_point(q0[k]) && left
                    == NumericRange::from_bounds(q0[k].lo(), mid - 1) && right
                    == NumericRange::from_bounds(mid + 1, q0[k].hi()) && q1 == q0.skip(k + 1)
                    + kept(left, e) + kept(right, e);
            let rk = q0[k];
            assert(rk.inv());
            let w = choose|x: int| !(rk.has(x) ==> e.contains(x));
            assert(rk.lo() <= rk.hi());
            let s = rk.lo() + rk.hi();
            assert(rk.lo() <= mid <= rk.hi()) by {
                if s >= 0 {
                    assert(s / 2 * 2 <= s && s < s / 2 * 2 + 2);
                } else {
                    assert((-s) / 2 * 2 <= -s && -s < (-s) / 2 * 2 + 2);
                }
            }
            NumericRange::lemma_from_bounds(rk.lo(), mid - 1);
            NumericRange::lemma_from_bounds(mid + 1, rk.hi());
            assert(rk.has(mid as int));
            assert(queue_has(q0, mid as int));
            let rest = q0.skip(k + 1);
            let kl = kept(left, e);
            let kr = kept(right, e);
            assert(forall|x: int| #[trigger] left.has(x) <==> rk.lo() <= x < mid);
            assert(forall|x: int| #[trigger] right.has(x) <==> mid < x <= rk.hi());
            assert(left.has(rk.lo()) ==> kl == seq![left]);
            assert(right.has(rk.hi()) ==> kr == seq![right]);
            assert(!left.has(rk.lo()) ==> kl.len() == 0);
            assert(!right.has(rk.hi()) ==> kr.len() == 0);
            assert forall|x: int| #[trigger] queue_has(q1, x) <==> (queue_has(q0, x) && x != mid) by {
                if queue_has(q1, x) {
                    let i = choose|i: int| 0 <= i < q1.len() && (#[trigger] q1[i]).has(x);
                    if i < rest.len() {
                        assert(q1[i] == q0[k + 1 + i]);
                        assert(!(q0[k].has(mid as int) && q0[k + 1 + i].has(mid as int)));
                    } else {
                        assert(q1[i] == left || q1[i] == right);
                        assert(rk.has(x));
                    }
                }
                if queue_has(q0, x) && x != mid {
                    let i = choose|i: int| 0 <= i < q0.len() && (#[trigger] q0[i]).has(x);
                    if i < k {
                        assert(covered(q0[i], e));
                        assert(!e.contains(x));
                    } else if i == k {
                        if x < mid {
                            assert(left.has(x));
                            assert(q1[rest.len() as int] == left);
                        } else {
                            assert(right.has(x));
                            if kl.len() == 0 {
                                assert(q1[rest.len() as int] == right);
                            } else {
                                assert(q1[rest.len() as int + 1] == right);
                            }
                        }
                    } else {
                        assert(q1[i - k - 1] == q0[i]);
                    }
                }
            }
        },
    }
}

/// What a run of `n` dequeues with nothing invalidated keeps: the points handed out were
/// queued at the start, no point is handed out twice or is still queued, every number queued
/// at the start is still queued or was handed out, and after a `None` every queue is empty.
proof fn lemma_dequeue_run(
    qs: Seq<Seq<NumericRange>>,
    rs: Seq<Option<(i64, NumericRange, NumericRange)>>,
    n: int,
)
    requires
        0 <= n <= rs.len(),
        qs.len() == rs.len() + 1,
        forall|i: int| 0 <= i < qs.len() ==> queue_disjoint(#[trigger] qs[i]),
        forall|i: int|
            0 <= i < rs.len() ==> dequeued(#[trigger] qs[i], Set::<int>::empty(), rs[i], qs[i + 1]),
    ensures
        forall|i: int|
            0 <= i < n && rs[i] is Some ==> queue_has(qs[0], #[trigger] handed_point(rs[i])),
        forall|i: int, j: int|
            0 <= i < j < n && rs[i] is Some && rs[j] is Some ==> #[trigger] handed_point(rs[i])
                != #[trigger] handed_point(rs[j]),
        forall|i: int|
            0 <= i < n && rs[i] is Some ==> !queue_has(qs[n], #[trigger] handed_point(rs[i])),
        forall|x: int| #[trigger] queue_has(qs[n], x) ==> queue_has(qs[0], x),
        forall|x: int|
            #[trigger] queue_has(qs[0], x) ==> queue_has(qs[n], x) || exists|i: int|
                0 <= i < n && rs[i] is Some && #[trigger] handed_point(rs[i]) == x,
        forall|i: int, j: int| 0 <= i < j < n && (#[trigger] rs[i]) is None ==> (#[trigger] rs[j]) is None,
        forall|i: int| 0 <= i < n && (#[trigger] rs[i]) is None ==> qs[n].len() == 0,
    decreases n,
{
    if n > 0 {
        lemma_dequeue_run(qs, rs, n - 1);
        let m = n - 1;
        assert(dequeued(qs[m], Set::<int>::empty(), rs[m], qs[m + 1]));
        lemma_dequeue_step(qs[m], rs[m], qs[n]);
        assert forall|x: int| #[trigger] queue_has(qs[0], x) implies queue_has(qs[n], x) || exists|i: int|
            0 <= i < n && rs[i] is Some && #[trigger] handed_point(rs[i]) == x by {
            if !queue_has(qs[m], x) {
                let i = choose|i: int| 0 <= i < m && rs[i] is Some && #[trigger] handed_point(rs[i]) == x;
                assert(0 <= i < n && rs[i] is Some && handed_point(rs[i]) == x);
            } else if rs[m] is Some && x == handed_point(rs[m]) {
                assert(0 <= m < n && rs[m] is Some && handed_point(rs[m]) == x);
            }
        }
        assert forall|i: int, j: int| 0 <= i < j < n && (#[trigger] rs[i]) is None implies (#[trigger] rs[j]) is None by {
            if j == m && rs[m] is Some {
                assert(qs[m].len() == 0);
                assert(!queue_has(qs[m], handed_point(rs[m])));
            }
        }
    }
}

/// Dequeuing again and again from a queue in which nothing is invalidated hands out each of
/// its numbers exactly once, and after that only `None`: every point handed out was queued at
/// the start, no point is handed out twice, once `None` comes every later dequeue gives `None`
/// too, and a run that ends with `None` has handed out every number queued at the start.
pub proof fn law_dequeue_hands_out_each_point_once(
    qs: Seq<Seq<NumericRange>>,
    rs: Seq<Option<(i64, NumericRange, NumericRange)>>,
)
    requires
        qs.len() == rs.len() + 1,
        forall|i: int| 0 <= i < qs.len() ==> queue_disjoint(#[trigger] qs[i]),
        forall|i: int|
            0 <= i < rs.len() ==> dequeued(#[trigger] qs[i], Set::<int>::empty(), rs[i], qs[i + 1]),
    ensures
        forall|i: int|
            0 <= i < rs.len() && rs[i] is Some ==> queue_has(qs[0], #[trigger] handed_point(rs[i])),
        forall|i: int, j: int|
            0 <= i < j < rs.len() && rs[i] is Some && rs[j] is Some ==> #[trigger] handed_point(rs[i])
                != #[trigger] handed_point(rs[j]),
        forall|i: int, j: int| 0 <= i < j < rs.len() && (#[trigger] rs[i]) is None ==> (#[trigger] rs[j]) is None,
        rs.len() > 0 && rs.last() is None ==> forall|x: int|
            #[trigger] queue_has(qs[0], x) ==> exists|i: int|
                0 <= i < rs.len() && rs[i] is Some && #[trigger] handed_point(rs[i]) == x,
{
    let n = rs.len() as int;
    lemma_dequeue_run(qs, rs, n);
    if n > 0 && rs.last() is None {
        assert(rs[n - 1] is None);
        assert(qs[n].len() == 0);
    }
}

} // verus!
