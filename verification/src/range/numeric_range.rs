use vstd::prelude::*;

use crate::util::text::{decimal_spec, push_decimal, push_str};

verus! {

/// A continuous range of integers.
///
/// `low` and `high` are inclusive. If `low > high`, then `(low, high)` is `(0, -1)`,
/// so that every empty range is the same value.
#[derive(Clone, Copy, Debug, PartialEq, Eq, Structural, Hash)]
pub struct NumericRange {
    low: i64,
    high: i64,
}

/// Either one range, or two ranges with a gap between them.
#[derive(Clone, Copy, Debug, PartialEq, Eq, Structural, Hash)]
pub enum MaybeSplitNumericRange {
    /// A single numeric range.
    NotSplit(NumericRange),
    /// A split numeric range. The range with the lower first value is on the left.
    ///
    /// Do not construct directly. Use `MaybeSplitNumericRange::from_two()` instead.
    Split(NumericRange, NumericRange),
}

/// The lower of two integers.
pub open spec fn min_int(a: int, b: int) -> int {
    if a <= b {
        a
    } else {
        b
    }
}

/// The higher of two integers.
pub open spec fn max_int(a: int, b: int) -> int {
    if a >= b {
        a
    } else {
        b
    }
}

/// `true` if `low..=high` is empty or lies within the range of `i64`.
pub open spec fn bounds_fit(low: int, high: int) -> bool {
    low > high || (i64::MIN <= low && high <= i64::MAX)
}

impl NumericRange {
    /// The stored lower endpoint.
    pub closed spec fn lo(&self) -> int {
        self.low as int
    }

    /// The stored upper endpoint.
    pub closed spec fn hi(&self) -> int {
        self.high as int
    }

    /// Every range is either a non-empty `lo..=hi` or the canonical empty range `(0, -1)`.
    #[verifier::type_invariant]
    pub open spec fn inv(&self) -> bool {
        &&& i64::MIN <= self.lo() <= i64::MAX
        &&& i64::MIN <= self.hi() <= i64::MAX
        &&& (self.lo() <= self.hi() || (self.lo() == 0 && self.hi() == -1))
    }

    /// `true` if the range holds no numbers.
    pub open spec fn is_empty_spec(&self) -> bool {
        self.lo() > self.hi()
    }

    /// `true` if `x` is in the range.
    pub open spec fn has(&self, x: int) -> bool {
        self.lo() <= x <= self.hi()
    }

    /// The set of numbers in the range.
    pub open spec fn points(&self) -> Set<int> {
        Set::new(|x: int| self.has(x))
    }

    /// How many numbers the range holds.
    pub open spec fn len_spec(&self) -> nat {
        if self.lo() > self.hi() {
            0
        } else {
            (self.hi() - self.lo() + 1) as nat
        }
    }

    /// The canonical range of `low..=high`: the empty range when `low > high`.
    pub closed spec fn from_bounds(low: int, high: int) -> NumericRange {
        if low > high {
            NumericRange { low: 0i64, high: -1i64 }
        } else {
            NumericRange { low: low as i64, high: high as i64 }
        }
    }

    /// The canonical empty range.
    pub open spec fn empty_spec() -> NumericRange {
        NumericRange::from_bounds(0, -1)
    }

    /// What `from_bounds` builds.
    pub broadcast proof fn lemma_from_bounds(low: int, high: int)
        requires
            bounds_fit(low, high),
        ensures
            #![trigger NumericRange::from_bounds(low, high)]
            NumericRange::from_bounds(low, high).inv(),
            low <= high ==> NumericRange::from_bounds(low, high).lo() == low,
            low <= high ==> NumericRange::from_bounds(low, high).hi() == high,
            low > high ==> NumericRange::from_bounds(low, high).lo() == 0,
            low > high ==> NumericRange::from_bounds(low, high).hi() == -1,
    {
    }

    /// Two ranges with the same endpoints are the same value.
    pub broadcast proof fn lemma_endpoints_determine(a: NumericRange, b: NumericRange)
        requires
            a.lo() == b.lo(),
            a.hi() == b.hi(),
        ensures
            #![trigger a.lo(), b.lo()]
            a == b,
    {
    }

    /// Two valid ranges that hold the same numbers are the same value.
    pub proof fn lemma_points_determine(a: NumericRange, b: NumericRange)
        requires
            a.inv(),
            b.inv(),
            forall|x: int| a.has(x) <==> b.has(x),
        ensures
            a == b,
    {
        if a.lo() <= a.hi() {
            assert(a.has(a.lo()) && a.has(a.hi()));
            assert(b.has(b.lo()) || b.lo() > b.hi());
            if b.lo() <= b.hi() {
                assert(b.has(b.lo()) && b.has(b.hi()));
            }
        } else if b.lo() <= b.hi() {
            assert(b.has(b.lo()));
        }
    }

    /// The range of numbers that `self` and `rhs` have in common.
    pub open spec fn spec_intersection(self, rhs: NumericRange) -> NumericRange {
        if self.is_empty_spec() || rhs.is_empty_spec() || self.hi() < rhs.lo() || self.lo() > rhs.hi() {
            NumericRange::empty_spec()
        } else {
            NumericRange::from_bounds(max_int(self.lo(), rhs.lo()), min_int(self.hi(), rhs.hi()))
        }
    }

    /// `self` with the numbers of `rhs` removed.
    pub open spec fn spec_difference(self, rhs: NumericRange) -> MaybeSplitNumericRange {
        if self.is_empty_spec() || rhs.is_empty_spec() || self.spec_intersection(
            rhs,
        ).is_empty_spec() {
            MaybeSplitNumericRange::NotSplit(self)
        } else if self.lo() <= rhs.lo() && rhs.hi() <= self.hi() {
            MaybeSplitNumericRange::spec_from_two(
                NumericRange::from_bounds(self.lo(), rhs.lo() - 1),
                NumericRange::from_bounds(rhs.hi() + 1, self.hi()),
            )
        } else if rhs.lo() <= self.lo() && self.hi() <= rhs.hi() {
            MaybeSplitNumericRange::NotSplit(NumericRange::empty_spec())
        } else if self.lo() <= rhs.lo() && self.hi() <= rhs.hi() {
            MaybeSplitNumericRange::NotSplit(NumericRange::from_bounds(self.lo(), rhs.lo() - 1))
        } else {
            MaybeSplitNumericRange::NotSplit(NumericRange::from_bounds(rhs.hi() + 1, self.hi()))
        }
    }

    /// The union of `self` and `rhs`, as one range or two separated ranges.
    pub open spec fn spec_union(self, rhs: NumericRange) -> MaybeSplitNumericRange {
        if self.is_empty_spec() {
            MaybeSplitNumericRange::NotSplit(rhs)
        } else if rhs.is_empty_spec() {
            MaybeSplitNumericRange::NotSplit(self)
        } else if self.spec_intersection(rhs).is_empty_spec() && self.hi() + 1 != rhs.lo()
            && rhs.hi() + 1 != self.lo() {
            MaybeSplitNumericRange::spec_from_two(self, rhs)
        } else {
            MaybeSplitNumericRange::NotSplit(
                NumericRange::from_bounds(
                    min_int(self.lo(), rhs.lo()),
                    max_int(self.hi(), rhs.hi()),
                ),
            )
        }
    }
}

impl MaybeSplitNumericRange {
    /// Puts two ranges together, dropping empty ones and ordering them by their first number.
    pub open spec fn spec_from_two(a: NumericRange, b: NumericRange) -> MaybeSplitNumericRange {
        if b.is_empty_spec() {
            MaybeSplitNumericRange::NotSplit(a)
        } else if a.is_empty_spec() {
            MaybeSplitNumericRange::NotSplit(b)
        } else if a.lo() < b.lo() {
            MaybeSplitNumericRange::Split(a, b)
        } else {
            MaybeSplitNumericRange::Split(b, a)
        }
    }

    /// `true` if `x` is in one of the ranges.
    pub open spec fn has(&self, x: int) -> bool {
        match self {
            MaybeSplitNumericRange::NotSplit(a) => a.has(x),
            MaybeSplitNumericRange::Split(a, b) => a.has(x) || b.has(x),
        }
    }

    /// Every range inside is valid.
    pub open spec fn inv(&self) -> bool {
        match self {
            MaybeSplitNumericRange::NotSplit(a) => a.inv(),
            MaybeSplitNumericRange::Split(a, b) => a.inv() && b.inv(),
        }
    }

    /// A split holds two non-empty ranges, the left one ending more than one below the
    /// start of the right one.
    pub open spec fn is_canonical(&self) -> bool {
        match self {
            MaybeSplitNumericRange::NotSplit(a) => a.inv(),
            MaybeSplitNumericRange::Split(a, b) => {
                &&& a.inv()
                &&& b.inv()
                &&& !a.is_empty_spec()
                &&& !b.is_empty_spec()
                &&& a.hi() + 1 < b.lo()
            },
        }
    }

    /// The non-empty ranges inside, in order.
    pub open spec fn ranges(&self) -> Seq<NumericRange> {
        match self {
            MaybeSplitNumericRange::NotSplit(a) => if a.is_empty_spec() {
                Seq::<NumericRange>::empty()
            } else {
                seq![*a]
            },
            MaybeSplitNumericRange::Split(a, b) => {
                let first = if a.is_empty_spec() {
                    Seq::<NumericRange>::empty()
                } else {
                    seq![*a]
                };
                if b.is_empty_spec() {
                    first
                } else {
                    first.push(*b)
                }
            },
        }
    }
}


impl NumericRange {
    /// The intersection holds exactly the numbers that both ranges hold.
    pub proof fn lemma_intersection_has(a: NumericRange, b: NumericRange)
        requires
            a.inv(),
            b.inv(),
        ensures
            a.spec_intersection(b).inv(),
            forall|x: int| #[trigger] a.spec_intersection(b).has(x) <==> a.has(x) && b.has(x),
    {
        NumericRange::lemma_from_bounds(0, -1);
        NumericRange::lemma_from_bounds(max_int(a.lo(), b.lo()), min_int(a.hi(), b.hi()));
    }

    /// The difference holds exactly the numbers of `a` that `b` does not hold, in canonical form.
    pub proof fn lemma_difference_has(a: NumericRange, b: NumericRange)
        requires
            a.inv(),
            b.inv(),
        ensures
            a.spec_difference(b).is_canonical(),
            forall|x: int| #[trigger] a.spec_difference(b).has(x) <==> a.has(x) && !b.has(x),
    {
        NumericRange::lemma_intersection_has(a, b);
        NumericRange::lemma_from_bounds(0, -1);
        NumericRange::lemma_from_bounds(a.lo(), b.lo() - 1);
        NumericRange::lemma_from_bounds(b.hi() + 1, a.hi());
        let i = a.spec_intersection(b);
        if a.is_empty_spec() || b.is_empty_spec() || i.is_empty_spec() {
            assert forall|x: int| a.has(x) implies !b.has(x) by {
                assert(!i.has(x));
            }
        }
    }

    /// The union holds exactly the numbers that either range holds, in canonical form.
    pub proof fn lemma_union_has(a: NumericRange, b: NumericRange)
        requires
            a.inv(),
            b.inv(),
        ensures
            a.spec_union(b).is_canonical(),
            forall|x: int| #[trigger] a.spec_union(b).has(x) <==> a.has(x) || b.has(x),
    {
        NumericRange::lemma_intersection_has(a, b);
        NumericRange::lemma_from_bounds(min_int(a.lo(), b.lo()), max_int(a.hi(), b.hi()));
        let i = a.spec_intersection(b);
        if !a.is_empty_spec() && !b.is_empty_spec() {
            if i.is_empty_spec() && a.hi() + 1 != b.lo() && b.hi() + 1 != a.lo() {
                assert(!i.has(a.lo()) && !i.has(b.lo()));
            } else if !i.is_empty_spec() {
                assert(i.has(i.lo()));
            }
        }
    }
}

impl MaybeSplitNumericRange {
    /// Two canonical values that hold the same numbers are the same value.
    pub proof fn lemma_canonical_unique(m1: MaybeSplitNumericRange, m2: MaybeSplitNumericRange)
        requires
            m1.is_canonical(),
            m2.is_canonical(),
            forall|x: int| m1.has(x) <==> m2.has(x),
        ensures
            m1 == m2,
    {
        match (m1, m2) {
            (MaybeSplitNumericRange::NotSplit(a), MaybeSplitNumericRange::NotSplit(c)) => {
                assert forall|x: int| a.has(x) <==> c.has(x) by {
                    assert(m1.has(x) <==> m2.has(x));
                }
                NumericRange::lemma_points_determine(a, c);
            },
            (MaybeSplitNumericRange::Split(a, b), MaybeSplitNumericRange::NotSplit(c)) => {
                assert(m1.has(a.hi()) && m1.has(b.lo()) && !m1.has(a.hi() + 1));
                assert(m2.has(a.hi()) && m2.has(b.lo()));
                assert(m2.has(a.hi() + 1));
            },
            (MaybeSplitNumericRange::NotSplit(c), MaybeSplitNumericRange::Split(a, b)) => {
                assert(m2.has(a.hi()) && m2.has(b.lo()) && !m2.has(a.hi() + 1));
                assert(m1.has(a.hi()) && m1.has(b.lo()));
                assert(m1.has(a.hi() + 1));
            },
            (MaybeSplitNumericRange::Split(a1, b1), MaybeSplitNumericRange::Split(a2, b2)) => {
                assert(m1.has(a1.lo()) && m2.has(a2.lo()));
                assert(m2.has(a1.lo()) && m1.has(a2.lo()));
                assert(a1.lo() == a2.lo());
                assert(m1.has(a1.hi()) && m2.has(a2.hi()));
                assert(!m1.has(a1.hi() + 1) && !m2.has(a2.hi() + 1));
                assert(m2.has(a1.hi()) && m1.has(a2.hi()));
                assert(a1.hi() == a2.hi());
                assert(m1.has(b1.lo()) && m2.has(b2.lo()));
                assert(m1.has(b1.hi()) && m2.has(b2.hi()));
                assert(!m1.has(b1.hi() + 1) && !m2.has(b2.hi() + 1));
                assert(!m1.has(b1.lo() - 1) && !m2.has(b2.lo() - 1));
                assert(b1.lo() == b2.lo());
                assert(b1.hi() == b2.hi());
            },
        }
    }
}

/// Every non-empty range holds both of its endpoints.
pub proof fn law_contains_endpoints(a: int, b: int)
    requires
        a <= b,
        bounds_fit(a, b),
    ensures
        NumericRange::from_bounds(a, b).has(a),
        NumericRange::from_bounds(a, b).has(b),
{
    NumericRange::lemma_from_bounds(a, b);
}

/// The empty range holds no number.
pub proof fn law_empty_has_nothing(n: int)
    ensures
        !NumericRange::empty_spec().has(n),
{
    NumericRange::lemma_from_bounds(0, -1);
}

/// Every range contains itself and the empty range.
pub proof fn law_contains_range_self_and_empty(r: NumericRange)
    requires
        r.inv(),
    ensures
        forall|x: int| r.has(x) ==> r.has(x),
        forall|x: int| NumericRange::empty_spec().has(x) ==> r.has(x),
{
    NumericRange::lemma_from_bounds(0, -1);
}

/// A range is disjoint to the empty range, and never disjoint to itself unless it is empty.
pub proof fn law_disjoint(r: NumericRange)
    requires
        r.inv(),
    ensures
        r.spec_intersection(NumericRange::empty_spec()).is_empty_spec(),
        r.spec_intersection(r).is_empty_spec() <==> r.is_empty_spec(),
{
    NumericRange::lemma_from_bounds(0, -1);
    NumericRange::lemma_intersection_has(r, r);
    if !r.is_empty_spec() {
        assert(r.spec_intersection(r).has(r.lo()));
    }
}

/// Intersection with the empty range is empty, with itself is itself, and it does not
/// depend on the order of its arguments.
pub proof fn law_intersection(a: NumericRange, b: NumericRange)
    requires
        a.inv(),
        b.inv(),
    ensures
        a.spec_intersection(NumericRange::empty_spec()) == NumericRange::empty_spec(),
        a.spec_intersection(a) == a,
        a.spec_intersection(b) == b.spec_intersection(a),
{
    NumericRange::lemma_from_bounds(0, -1);
    let e = NumericRange::empty_spec();
    NumericRange::lemma_intersection_has(a, e);
    NumericRange::lemma_points_determine(a.spec_intersection(e), e);
    NumericRange::lemma_intersection_has(a, a);
    NumericRange::lemma_points_determine(a.spec_intersection(a), a);
    NumericRange::lemma_intersection_has(a, b);
    NumericRange::lemma_intersection_has(b, a);
    NumericRange::lemma_points_determine(a.spec_intersection(b), b.spec_intersection(a));
}

/// Union with the empty range or with itself gives the range back, and it does not depend
/// on the order of its arguments.
pub proof fn law_union(a: NumericRange, b: NumericRange)
    requires
        a.inv(),
        b.inv(),
    ensures
        a.spec_union(NumericRange::empty_spec()) == MaybeSplitNumericRange::NotSplit(a),
        a.spec_union(a) == MaybeSplitNumericRange::NotSplit(a),
        a.spec_union(b) == b.spec_union(a),
{
    NumericRange::lemma_from_bounds(0, -1);
    let e = NumericRange::empty_spec();
    NumericRange::lemma_union_has(a, a);
    MaybeSplitNumericRange::lemma_canonical_unique(
        a.spec_union(a),
        MaybeSplitNumericRange::NotSplit(a),
    );
    NumericRange::lemma_union_has(a, b);
    NumericRange::lemma_union_has(b, a);
    MaybeSplitNumericRange::lemma_canonical_unique(a.spec_union(b), b.spec_union(a));
}

/// Removing a range from itself leaves nothing.
pub proof fn law_difference_self(a: NumericRange)
    requires
        a.inv(),
    ensures
        a.spec_difference(a) == MaybeSplitNumericRange::NotSplit(NumericRange::empty_spec()),
{
    NumericRange::lemma_from_bounds(0, -1);
    NumericRange::lemma_difference_has(a, a);
    MaybeSplitNumericRange::lemma_canonical_unique(
        a.spec_difference(a),
        MaybeSplitNumericRange::NotSplit(NumericRange::empty_spec()),
    );
}

impl NumericRange {
    /// A range with no numbers in it.
    pub fn empty() -> (r: Self)
        ensures
            r == NumericRange::empty_spec(),
            r.is_empty_spec(),
            r.lo() == 0,
            r.hi() == -1,
    {
        NumericRange { low: 0, high: -1 }
    }

    /// The stored lower endpoint.
    pub(crate) fn first_unchecked(&self) -> (v: i64)
        ensures
            v == self.lo(),
    {
        self.low
    }

    /// The stored upper endpoint.
    pub(crate) fn last_unchecked(&self) -> (v: i64)
        ensures
            v == self.hi(),
    {
        self.high
    }

    /// The smallest range holding both non-empty ranges and everything between them.
    pub(crate) fn hull(a: &NumericRange, b: &NumericRange) -> (r: NumericRange)
        requires
            !a.is_empty_spec(),
            !b.is_empty_spec(),
        ensures
            r == NumericRange::from_bounds(min_int(a.lo(), b.lo()), max_int(a.hi(), b.hi())),
    {
        proof {
            use_type_invariant(a);
            use_type_invariant(b);
        }
        let low = if a.low <= b.low {
            a.low
        } else {
            b.low
        };
        let high = if a.high >= b.high {
            a.high
        } else {
            b.high
        };
        NumericRange::from_endpoints_inclusive(low, high)
    }

    /// `true` if the range has no numbers in it.
    pub fn is_empty(&self) -> (b: bool)
        ensures
            b == self.is_empty_spec(),
            b == (self.len_spec() == 0),
    {
        self.low > self.high
    }

    /// How many numbers there are in the range.
    pub fn len(&self) -> (n: u128)
        ensures
            n == self.len_spec(),
    {
        proof {
            use_type_invariant(self);
        }
        if self.low > self.high {
            0
        } else {
            (self.high as i128 - self.low as i128 + 1) as u128
        }
    }

    /// The first number in this range, if it's not empty.
    pub fn first(&self) -> (r: Option<i64>)
        ensures
            r == (if self.is_empty_spec() {
                None
            } else {
                Some(self.lo() as i64)
            }),
            r matches Some(v) ==> v == self.lo(),
    {
        proof {
            use_type_invariant(self);
        }
        if self.low > self.high {
            None
        } else {
            Some(self.low)
        }
    }

    /// The last number in the range, if it's not empty.
    pub fn last(&self) -> (r: Option<i64>)
        ensures
            r == (if self.is_empty_spec() {
                None
            } else {
                Some(self.hi() as i64)
            }),
            r matches Some(v) ==> v == self.hi(),
    {
        proof {
            use_type_invariant(self);
        }
        if self.low > self.high {
            None
        } else {
            Some(self.high)
        }
    }

    /// A tuple of the *inclusive* endpoints of this range, if it's not empty.
    pub fn as_tuple(&self) -> (r: Option<(i64, i64)>)
        ensures
            self.is_empty_spec() ==> r is None,
            !self.is_empty_spec() ==> r == Some((self.lo() as i64, self.hi() as i64)),
    {
        proof {
            use_type_invariant(self);
        }
        if self.low > self.high {
            None
        } else {
            Some((self.low, self.high))
        }
    }

    /// `true` if the given number is in the range.
    pub fn contains(&self, num: i64) -> (b: bool)
        ensures
            b == self.has(num as int),
    {
        if self.low > self.high {
            return false;
        }
        self.low <= num && num <= self.high
    }

    /// `true` if *all* of the numbers in the given range are in `self`.
    ///
    /// Every range contains the empty range. An empty range only contains itself.
    pub fn contains_range(&self, range: &Self) -> (b: bool)
        ensures
            b == (range.is_empty_spec() || (!self.is_empty_spec() && self.lo() <= range.lo()
                && range.hi() <= self.hi())),
            b == (forall|x: int| range.has(x) ==> self.has(x)),
    {
        proof {
            use_type_invariant(self);
            use_type_invariant(range);
            if !range.is_empty_spec() {
                assert(range.has(range.lo()) && range.has(range.hi()));
            }
        }
        if range.low > range.high {
            return true;
        }
        if self.low > self.high {
            return false;
        }
        self.low <= range.low && range.high <= self.high
    }

    /// Makes a range of numbers from `[low, high)`.
    pub fn from_endpoints_excluding_end(low: i64, high: i64) -> (r: Self)
        ensures
            r == NumericRange::from_bounds(low as int, high - 1),
            r.inv(),
            forall|x: int| r.has(x) <==> low <= x < high,
    {
        proof {
            NumericRange::lemma_from_bounds(low as int, high - 1);
        }
        if low >= high {
            NumericRange::empty()
        } else {
            NumericRange { low, high: high - 1 }
        }
    }

    /// Makes a range of numbers from `[low, high]`.
    pub fn from_endpoints_inclusive(low: i64, high: i64) -> (r: Self)
        ensures
            r == NumericRange::from_bounds(low as int, high as int),
            r.inv(),
            forall|x: int| r.has(x) <==> low <= x <= high,
    {
        proof {
            NumericRange::lemma_from_bounds(low as int, high as int);
        }
        if low > high {
            NumericRange::empty()
        } else {
            NumericRange { low, high }
        }
    }

    /// Makes a range of a single number.
    pub fn from_point(num: i64) -> (r: Self)
        ensures
            r == NumericRange::from_bounds(num as int, num as int),
            r.lo() == num,
            r.hi() == num,
            forall|x: int| r.has(x) <==> x == num,
    {
        NumericRange { low: num, high: num }
    }

    /// Makes a range of `[low, low + length)`.
    pub fn from_point_and_length(low: i64, length: u64) -> (r: Self)
        requires
            low + length - 1 <= i64::MAX,
        ensures
            r == NumericRange::from_bounds(low as int, low + length - 1),
            r.len_spec() == length,
            forall|x: int| r.has(x) <==> low <= x < low + length,
    {
        proof {
            NumericRange::lemma_from_bounds(low as int, low + length - 1);
        }
        if length == 0 {
            return NumericRange::empty();
        }
        let high = (low as i128 + length as i128 - 1) as i64;
        NumericRange { low, high }
    }

    /// The numbers of this range that are at most `last`.
    pub fn truncate_end(&self, last: i64) -> (r: Self)
        ensures
            r == NumericRange::from_bounds(self.lo(), min_int(self.hi(), last as int)),
            forall|x: int| r.has(x) <==> self.has(x) && x <= last,
    {
        proof {
            use_type_invariant(self);
            NumericRange::lemma_from_bounds(self.lo(), min_int(self.hi(), last as int));
        }
        let high = if self.high <= last {
            self.high
        } else {
            last
        };
        NumericRange::from_endpoints_inclusive(self.low, high)
    }

    /// The numbers of this range that are at least `first`.
    pub fn truncate_start(&self, first: i64) -> (r: Self)
        ensures
            r == NumericRange::from_bounds(max_int(self.lo(), first as int), self.hi()),
            forall|x: int| r.has(x) <==> self.has(x) && x >= first,
    {
        proof {
            use_type_invariant(self);
            NumericRange::lemma_from_bounds(max_int(self.lo(), first as int), self.hi());
        }
        let low = if self.low >= first {
            self.low
        } else {
            first
        };
        NumericRange::from_endpoints_inclusive(low, self.high)
    }

    /// `true` if `self` shares no elements with `other`.
    ///
    /// An empty range is disjoint to any range.
    pub fn disjoint_to(&self, other: &NumericRange) -> (b: bool)
        ensures
            b == self.spec_intersection(*other).is_empty_spec(),
            b == (forall|x: int| !(self.has(x) && other.has(x))),
    {
        let i = self.intersection(other);
        proof {
            use_type_invariant(self);
            use_type_invariant(other);
            NumericRange::lemma_intersection_has(*self, *other);
            if !i.is_empty_spec() {
                assert(i.has(i.lo()));
            }
        }
        i.is_empty()
    }

    /// The intersection, meaning the range of numbers in common, between this range and the other.
    pub fn intersection(&self, rhs: &NumericRange) -> (r: NumericRange)
        ensures
            r == self.spec_intersection(*rhs),
            r.inv(),
    {
        proof {
            use_type_invariant(self);
            use_type_invariant(rhs);
            NumericRange::lemma_from_bounds(0, -1);
            NumericRange::lemma_from_bounds(
                max_int(self.lo(), rhs.lo()),
                min_int(self.hi(), rhs.hi()),
            );
        }
        if self.low > self.high || rhs.low > rhs.high || self.high < rhs.low || self.low
            > rhs.high {
            return NumericRange::empty();
        }
        let low = if self.low >= rhs.low {
            self.low
        } else {
            rhs.low
        };
        let high = if self.high <= rhs.high {
            self.high
        } else {
            rhs.high
        };
        NumericRange::from_endpoints_inclusive(low, high)
    }

    /// Returns this range with the given range removed.
    ///
    /// This may return a single range, or two ranges if the removed part is in the middle.
    /// If two ranges are returned, the first one will have the lower first value.
    pub fn difference(&self, rhs: &NumericRange) -> (r: MaybeSplitNumericRange)
        ensures
            r == self.spec_difference(*rhs),
    {
        proof {
            use_type_invariant(self);
            use_type_invariant(rhs);
        }
        let inter = self.intersection(rhs);
        if self.low > self.high || rhs.low > rhs.high || inter.low > inter.high {
            return MaybeSplitNumericRange::NotSplit(*self);
        }
        if self.low <= rhs.low && rhs.high <= self.high {
            let left = NumericRange::from_endpoints_excluding_end(self.low, rhs.low);
            let right = NumericRange::after_until(rhs.high, self.high);
            return MaybeSplitNumericRange::from_two(left, right);
        }
        if rhs.low <= self.low && self.high <= rhs.high {
            return MaybeSplitNumericRange::NotSplit(NumericRange::empty());
        }
        if self.low <= rhs.low && self.high <= rhs.high {
            return MaybeSplitNumericRange::NotSplit(
                NumericRange::from_endpoints_excluding_end(self.low, rhs.low),
            );
        }
        MaybeSplitNumericRange::NotSplit(NumericRange::after_until(rhs.high, self.high))
    }

    /// Returns this range with the given number removed.
    pub fn difference_point(&self, num: i64) -> (r: MaybeSplitNumericRange)
        ensures
            r == self.spec_difference(NumericRange::from_bounds(num as int, num as int)),
    {
        self.difference(&NumericRange::from_point(num))
    }

    /// The range `(after, high]`.
    pub(crate) fn after_until(after: i64, high: i64) -> (r: NumericRange)
        ensures
            r == NumericRange::from_bounds(after + 1, high as int),
            r.inv(),
    {
        proof {
            NumericRange::lemma_from_bounds(after + 1, high as int);
        }
        if after >= high {
            NumericRange::empty()
        } else {
            NumericRange { low: after + 1, high }
        }
    }

    /// The union of the inputs, meaning the range/ranges of numbers in either input.
    ///
    /// If two ranges are returned, the first one will have the lower first value.
    pub fn union(&self, rhs: &NumericRange) -> (r: MaybeSplitNumericRange)
        ensures
            r == self.spec_union(*rhs),
    {
        proof {
            use_type_invariant(self);
            use_type_invariant(rhs);
            NumericRange::lemma_from_bounds(
                min_int(self.lo(), rhs.lo()),
                max_int(self.hi(), rhs.hi()),
            );
        }
        if self.low > self.high {
            return MaybeSplitNumericRange::NotSplit(*rhs);
        }
        if rhs.low > rhs.high {
            return MaybeSplitNumericRange::NotSplit(*self);
        }
        if self.disjoint_to(rhs) && self.high as i128 + 1 != rhs.low as i128 && rhs.high as i128
            + 1 != self.low as i128 {
            return MaybeSplitNumericRange::from_two(*self, *rhs);
        }
        let low = if self.low <= rhs.low {
            self.low
        } else {
            rhs.low
        };
        let high = if self.high >= rhs.high {
            self.high
        } else {
            rhs.high
        };
        MaybeSplitNumericRange::NotSplit(NumericRange::from_endpoints_inclusive(low, high))
    }
}

impl MaybeSplitNumericRange {
    /// A single range.
    pub fn from_one(n: NumericRange) -> (r: Self)
        ensures
            r == MaybeSplitNumericRange::NotSplit(n),
    {
        MaybeSplitNumericRange::NotSplit(n)
    }

    /// Puts two ranges together, dropping an empty one and ordering them by their first number.
    pub fn from_two(a: NumericRange, b: NumericRange) -> (r: Self)
        ensures
            r == MaybeSplitNumericRange::spec_from_two(a, b),
    {
        if b.is_empty() {
            MaybeSplitNumericRange::NotSplit(a)
        } else if a.is_empty() {
            MaybeSplitNumericRange::NotSplit(b)
        } else if a.low < b.low {
            MaybeSplitNumericRange::Split(a, b)
        } else {
            MaybeSplitNumericRange::Split(b, a)
        }
    }

    /// The non-empty ranges in `self`, in order.
    ///
    /// The result holds 0, 1, or 2 elements.
    pub fn into_iter(self) -> (v: Vec<NumericRange>)
        ensures
            v@ == self.ranges(),
    {
        let mut v: Vec<NumericRange> = Vec::new();
        match self {
            MaybeSplitNumericRange::NotSplit(a) => {
                if !a.is_empty() {
                    v.push(a);
                }
            },
            MaybeSplitNumericRange::Split(a, b) => {
                if !a.is_empty() {
                    v.push(a);
                }
                if !b.is_empty() {
                    v.push(b);
                }
            },
        }
        proof {
            assert(v@ =~= self.ranges());
        }
        v
    }

    /// The non-empty ranges in `self`, in order.
    ///
    /// The result holds 0, 1, or 2 elements.
    pub fn iter(&self) -> (v: Vec<NumericRange>)
        ensures
            v@ == self.ranges(),
    {
        self.into_iter()
    }
}

/// `true` if some range of `s` holds `x`.
pub open spec fn list_has(s: Seq<NumericRange>, x: int) -> bool {
    exists|i: int| 0 <= i < s.len() && (#[trigger] s[i]).has(x)
}

/// `true` if the ranges of `s` are valid, non-empty, in increasing order, and each one ends
/// more than one below the start of the next, so that no two of them could be joined.
pub open spec fn is_canonical_list(s: Seq<NumericRange>) -> bool {
    &&& forall|i: int| 0 <= i < s.len() ==> (#[trigger] s[i]).inv() && !s[i].is_empty_spec()
    &&& forall|i: int, j: int| 0 <= i < j < s.len() ==> (#[trigger] s[i]).hi() + 1 < (#[trigger] s[j]).lo()
}

/// `true` if the ranges of `s` are valid, non-empty and ordered by their first number.
pub open spec fn is_sorted_nonempty(s: Seq<NumericRange>) -> bool {
    &&& forall|i: int| 0 <= i < s.len() ==> (#[trigger] s[i]).inv() && !s[i].is_empty_spec()
    &&& forall|i: int, j: int| 0 <= i < j < s.len() ==> (#[trigger] s[i]).lo() <= (#[trigger] s[j]).lo()
}

/// Inserts `e` into `v`, keeping `v` ordered by first number.
fn insert_sorted(v: &mut Vec<NumericRange>, e: NumericRange)
    requires
        is_sorted_nonempty(old(v)@),
        e.inv(),
        !e.is_empty_spec(),
    ensures
        is_sorted_nonempty(final(v)@),
        final(v)@.len() == old(v)@.len() + 1,
        forall|x: int| list_has(final(v)@, x) <==> list_has(old(v)@, x) || e.has(x),
{
    let ghost v0 = v@;
    let mut i: usize = 0;
    while i < v.len() && v[i].first_unchecked() <= e.first_unchecked()
        invariant
            v@ == v0,
            0 <= i <= v@.len(),
            forall|k: int| 0 <= k < i ==> (#[trigger] v@[k]).lo() <= e.lo(),
        decreases v@.len() - i,
    {
        i = i + 1;
    }
    proof {
        assert(i < v@.len() ==> v@[i as int].lo() > e.lo());
    }
    v.insert(i, e);
    proof {
        let w = v@;
        assert(w == v0.insert(i as int, e));
        assert forall|a: int, b: int| 0 <= a < b < w.len() implies (#[trigger] w[a]).lo() <= (
        #[trigger] w[b]).lo() by {
            if b < i {
            } else if b == i {
            } else if a < i {
                assert(w[b] == v0[b - 1]);
                if b - 1 > i {
                    assert(v0[i as int].lo() <= v0[b - 1].lo());
                }
            } else if a == i {
                assert(w[b] == v0[b - 1]);
                assert(v0[i as int].lo() <= v0[b - 1].lo() || b - 1 == i);
            } else {
                assert(w[a] == v0[a - 1] && w[b] == v0[b - 1]);
            }
        }
        assert forall|x: int| list_has(w, x) <==> list_has(v0, x) || e.has(x) by {
            if list_has(w, x) {
                let k = choose|k: int| 0 <= k < w.len() && (#[trigger] w[k]).has(x);
                if k < i {
                    assert(v0[k] == w[k]);
                } else if k > i {
                    assert(v0[k - 1] == w[k]);
                }
            }
            if list_has(v0, x) {
                let k = choose|k: int| 0 <= k < v0.len() && (#[trigger] v0[k]).has(x);
                if k < i {
                    assert(w[k] == v0[k]);
                } else {
                    assert(w[k + 1] == v0[k]);
                }
            }
            if e.has(x) {
                assert(w[i as int] == e);
            }
        }
    }
}

/// Given ranges, produces the equivalent canonical list: sorted by first element, with empty
/// ranges removed and overlapping or touching ranges unioned into one.
pub fn consolidate_range_stream(ranges: Vec<NumericRange>) -> (ret: Vec<NumericRange>)
    ensures
        is_canonical_list(ret@),
        forall|x: int| list_has(ret@, x) <==> list_has(ranges@, x),
{
    let mut sorted: Vec<NumericRange> = Vec::new();
    let mut k: usize = 0;
    while k < ranges.len()
        invariant
            0 <= k <= ranges@.len(),
            is_sorted_nonempty(sorted@),
            forall|x: int| list_has(sorted@, x) <==> list_has(ranges@.take(k as int), x),
        decreases ranges@.len() - k,
    {
        let r = ranges[k];
        proof {
            use_type_invariant(&r);
        }
        if !r.is_empty() {
            insert_sorted(&mut sorted, r);
        }
        proof {
            let t0 = ranges@.take(k as int);
            let t1 = ranges@.take(k + 1);
            assert forall|x: int| list_has(t1, x) <==> list_has(t0, x) || r.has(x) by {
                if list_has(t1, x) {
                    let j = choose|j: int| 0 <= j < t1.len() && (#[trigger] t1[j]).has(x);
                    if j < k {
                        assert(t0[j] == t1[j]);
                    }
                }
                if list_has(t0, x) {
                    let j = choose|j: int| 0 <= j < t0.len() && (#[trigger] t0[j]).has(x);
                    assert(t1[j] == t0[j]);
                }
                if r.has(x) {
                    assert(t1[k as int] == r);
                }
            }
        }
        k = k + 1;
    }
    proof {
        assert(ranges@.take(ranges@.len() as int) =~= ranges@);
    }
    let mut ret: Vec<NumericRange> = Vec::new();
    let mut k: usize = 0;
    while k < sorted.len()
        invariant
            0 <= k <= sorted@.len(),
            is_sorted_nonempty(sorted@),
            is_canonical_list(ret@),
            k > 0 ==> ret@.len() > 0,
            k < sorted@.len() && ret@.len() > 0 ==> ret@.last().lo() <= sorted@[k as int].lo(),
            forall|x: int| list_has(ret@, x) <==> list_has(sorted@.take(k as int), x),
        decreases sorted@.len() - k,
    {
        let element = sorted[k];
        let ghost before = ret@;
        proof {
            use_type_invariant(&element);
        }
        match ret.pop() {
            None => {
                ret.push(element);
                proof {
                    assert forall|x: int| list_has(ret@, x) <==> list_has(sorted@.take(k + 1), x) by {
                        assert(sorted@.take(k + 1)[k as int] == element);
                        if list_has(sorted@.take(k + 1), x) {
                            let j = choose|j: int| 0 <= j < k + 1 && (#[trigger] sorted@.take(k + 1)[j]).has(x);
                            if j < k {
                                assert(sorted@.take(k as int)[j] == sorted@.take(k + 1)[j]);
                                assert(list_has(sorted@.take(k as int), x));
                            }
                        }
                        if element.has(x) {
                            assert(ret@[0] == element);
                        }
                    }
                }
            },
            Some(last) => {
                proof {
                    use_type_invariant(&last);
                    NumericRange::lemma_union_has(last, element);
                }
                let u = last.union(&element);
                match u {
                    MaybeSplitNumericRange::NotSplit(x) => {
                        proof {
                            NumericRange::lemma_from_bounds(
                                min_int(last.lo(), element.lo()),
                                max_int(last.hi(), element.hi()),
                            );
                            assert(x.lo() == last.lo());
                        }
                        ret.push(x);
                    },
                    MaybeSplitNumericRange::Split(a, b) => {
                        proof {
                            assert(a == last && b == element);
                        }
                        ret.push(a);
                        ret.push(b);
                    },
                }
                proof {
                    let p = before.drop_last();
                    assert(ret@.take(p.len() as int) =~= p) by {
                        assert(ret@.take(p.len() as int).len() == p.len());
                    }
                    assert forall|i: int, j: int| 0 <= i < j < ret@.len() implies (#[trigger] ret@[i]).hi() + 1 < (#[trigger] ret@[j]).lo() by {
                        if j < p.len() {
                            assert(ret@[i] == p[i] && ret@[j] == p[j]);
                        } else if i < p.len() {
                            assert(ret@[i] == before[i]);
                            assert(before[i].hi() + 1 < last.lo());
                        }
                    }
                    assert forall|i: int| 0 <= i < ret@.len() implies (#[trigger] ret@[i]).inv() && !ret@[i].is_empty_spec() by {
                        if i < p.len() {
                            assert(ret@[i] == before[i]);
                        }
                    }
                    assert forall|x: int| list_has(ret@, x) <==> list_has(sorted@.take(k + 1), x) by {
                        let t0 = sorted@.take(k as int);
                        let t1 = sorted@.take(k + 1);
                        assert(t1[k as int] == element);
                        assert(list_has(before, x) <==> list_has(p, x) || last.has(x)) by {
                            if list_has(before, x) {
                                let j = choose|j: int| 0 <= j < before.len() && (#[trigger] before[j]).has(x);
                                if j < p.len() {
                                    assert(p[j] == before[j]);
                                }
                            }
                            if list_has(p, x) {
                                let j = choose|j: int| 0 <= j < p.len() && (#[trigger] p[j]).has(x);
                                assert(before[j] == p[j]);
                            }
                        }
                        assert(list_has(ret@, x) <==> list_has(p, x) || u.has(x)) by {
                            if list_has(ret@, x) {
                                let j = choose|j: int| 0 <= j < ret@.len() && (#[trigger] ret@[j]).has(x);
                                if j < p.len() {
                                    assert(p[j] == ret@[j]);
                                }
                            }
                            if list_has(p, x) {
                                let j = choose|j: int| 0 <= j < p.len() && (#[trigger] p[j]).has(x);
                                assert(ret@[j] == p[j]);
                            }
                            if u.has(x) {
                                assert(ret@[p.len() as int].has(x) || ret@[p.len() as int + 1].has(x));
                            }
                        }
                        assert(list_has(t1, x) <==> list_has(t0, x) || element.has(x)) by {
                            if list_has(t1, x) {
                                let j = choose|j: int| 0 <= j < t1.len() && (#[trigger] t1[j]).has(x);
                                if j < k {
                                    assert(t0[j] == t1[j]);
                                }
                            }
                            if list_has(t0, x) {
                                let j = choose|j: int| 0 <= j < t0.len() && (#[trigger] t0[j]).has(x);
                                assert(t1[j] == t0[j]);
                            }
                        }
                    }
                }
            },
        }
        proof {
            if k + 1 < sorted@.len() {
                assert(sorted@[k as int].lo() <= sorted@[k + 1].lo());
            }
        }
        k = k + 1;
    }
    proof {
        assert(sorted@.take(sorted@.len() as int) =~= sorted@);
    }
    ret
}

/// A canonical list is determined by the numbers it holds: two canonical lists that hold the
/// same numbers are equal.
pub proof fn law_canonical_list_unique(s1: Seq<NumericRange>, s2: Seq<NumericRange>)
    requires
        is_canonical_list(s1),
        is_canonical_list(s2),
        forall|x: int| list_has(s1, x) <==> list_has(s2, x),
    ensures
        s1 == s2,
    decreases s1.len(),
{
    if s1.len() == 0 {
        if s2.len() > 0 {
            assert(s2[0].has(s2[0].lo()));
            assert(list_has(s2, s2[0].lo()));
        }
        assert(s1 =~= s2);
        return;
    }
    if s2.len() == 0 {
        assert(s1[0].has(s1[0].lo()));
        assert(list_has(s1, s1[0].lo()));
        return;
    }
    let a = s1[0];
    let b = s2[0];
    assert(a.has(a.lo()) && list_has(s1, a.lo()));
    assert(b.has(b.lo()) && list_has(s2, b.lo()));
    let ja = choose|j: int| 0 <= j < s2.len() && (#[trigger] s2[j]).has(a.lo());
    if ja > 0 {
        assert(s2[0].hi() + 1 < s2[ja].lo());
    }
    let jb = choose|j: int| 0 <= j < s1.len() && (#[trigger] s1[j]).has(b.lo());
    if jb > 0 {
        assert(s1[0].hi() + 1 < s1[jb].lo());
    }
    assert(a.lo() == b.lo());
    if a.hi() < b.hi() {
        assert(b.has(a.hi() + 1));
        assert(list_has(s2, a.hi() + 1));
        let j = choose|j: int| 0 <= j < s1.len() && (#[trigger] s1[j]).has(a.hi() + 1);
        if j > 0 {
            assert(s1[0].hi() + 1 < s1[j].lo());
        }
        assert(false);
    }
    if b.hi() < a.hi() {
        assert(a.has(b.hi() + 1));
        assert(list_has(s1, b.hi() + 1));
        let j = choose|j: int| 0 <= j < s2.len() && (#[trigger] s2[j]).has(b.hi() + 1);
        if j > 0 {
            assert(s2[0].hi() + 1 < s2[j].lo());
        }
        assert(false);
    }
    NumericRange::lemma_endpoints_determine(a, b);
    let r1 = s1.drop_first();
    let r2 = s2.drop_first();
    assert forall|x: int| list_has(r1, x) <==> list_has(r2, x) by {
        if list_has(r1, x) {
            let j = choose|j: int| 0 <= j < r1.len() && (#[trigger] r1[j]).has(x);
            assert(s1[j + 1] == r1[j]);
            assert(s1[0].hi() + 1 < s1[j + 1].lo());
            assert(list_has(s1, x));
            let k = choose|k: int| 0 <= k < s2.len() && (#[trigger] s2[k]).has(x);
            assert(k > 0);
            assert(r2[k - 1] == s2[k]);
        }
        if list_has(r2, x) {
            let j = choose|j: int| 0 <= j < r2.len() && (#[trigger] r2[j]).has(x);
            assert(s2[j + 1] == r2[j]);
            assert(s2[0].hi() + 1 < s2[j + 1].lo());
            assert(list_has(s2, x));
            let k = choose|k: int| 0 <= k < s1.len() && (#[trigger] s1[k]).has(x);
            assert(k > 0);
            assert(r1[k - 1] == s1[k]);
        }
    }
    assert forall|i: int, j: int| 0 <= i < j < r1.len() implies (#[trigger] r1[i]).hi() + 1 < (
    #[trigger] r1[j]).lo() by {
        assert(r1[i] == s1[i + 1] && r1[j] == s1[j + 1]);
    }
    assert forall|i: int, j: int| 0 <= i < j < r2.len() implies (#[trigger] r2[i]).hi() + 1 < (
    #[trigger] r2[j]).lo() by {
        assert(r2[i] == s2[i + 1] && r2[j] == s2[j + 1]);
    }
    law_canonical_list_unique(r1, r2);
    assert(s1 =~= seq![a] + r1);
    assert(s2 =~= seq![b] + r2);
}

/// A range list extended by one range holds what it held and what the new range holds.
pub proof fn lemma_push_has(s: Seq<NumericRange>, e: NumericRange)
    ensures
        forall|x: int| #[trigger] list_has(s.push(e), x) <==> list_has(s, x) || e.has(x),
{
    assert forall|x: int| #[trigger] list_has(s.push(e), x) <==> list_has(s, x) || e.has(x) by {
        let t = s.push(e);
        if list_has(t, x) {
            let j = choose|j: int| 0 <= j < t.len() && (#[trigger] t[j]).has(x);
            if j < s.len() {
                assert(s[j] == t[j]);
            }
        }
        if list_has(s, x) {
            let j = choose|j: int| 0 <= j < s.len() && (#[trigger] s[j]).has(x);
            assert(t[j] == s[j]);
        }
        if e.has(x) {
            assert(t[s.len() as int] == e);
        }
    }
}

/// The first `k + 1` ranges hold what the first `k` hold and what range `k` holds.
pub proof fn lemma_take_next_has(s: Seq<NumericRange>, k: int)
    requires
        0 <= k < s.len(),
    ensures
        forall|x: int| #[trigger] list_has(s.take(k + 1), x) <==> list_has(s.take(k), x) || s[k].has(x),
{
    assert(s.take(k + 1) =~= s.take(k).push(s[k]));
    lemma_push_has(s.take(k), s[k]);
}

/// Two range lists put together hold what either of them holds.
pub proof fn lemma_concat_has(a: Seq<NumericRange>, b: Seq<NumericRange>)
    ensures
        forall|x: int| #[trigger] list_has(a + b, x) <==> list_has(a, x) || list_has(b, x),
{
    assert forall|x: int| #[trigger] list_has(a + b, x) <==> list_has(a, x) || list_has(b, x) by {
        let t = a + b;
        if list_has(t, x) {
            let j = choose|j: int| 0 <= j < t.len() && (#[trigger] t[j]).has(x);
            if j < a.len() {
                assert(a[j] == t[j]);
            } else {
                assert(b[j - a.len()] == t[j]);
            }
        }
        if list_has(a, x) {
            let j = choose|j: int| 0 <= j < a.len() && (#[trigger] a[j]).has(x);
            assert(t[j] == a[j]);
        }
        if list_has(b, x) {
            let j = choose|j: int| 0 <= j < b.len() && (#[trigger] b[j]).has(x);
            assert(t[a.len() + j] == b[j]);
        }
    }
}

/// Two canonical lists, the first ending well before the second starts, make a canonical list.
pub proof fn lemma_canonical_concat(a: Seq<NumericRange>, b: Seq<NumericRange>)
    requires
        is_canonical_list(a),
        is_canonical_list(b),
        forall|i: int, j: int|
            0 <= i < a.len() && 0 <= j < b.len() ==> (#[trigger] a[i]).hi() + 1 < (#[trigger] b[j]).lo(),
    ensures
        is_canonical_list(a + b),
{
    let t = a + b;
    assert forall|i: int| 0 <= i < t.len() implies (#[trigger] t[i]).inv() && !t[i].is_empty_spec() by {
        if i < a.len() {
            assert(t[i] == a[i]);
        } else {
            assert(t[i] == b[i - a.len()]);
        }
    }
    assert forall|i: int, j: int| 0 <= i < j < t.len() implies (#[trigger] t[i]).hi() + 1 < (
    #[trigger] t[j]).lo() by {
        if j < a.len() {
            assert(t[i] == a[i] && t[j] == a[j]);
        } else if i < a.len() {
            assert(t[i] == a[i] && t[j] == b[j - a.len()]);
        } else {
            assert(t[i] == b[i - a.len()] && t[j] == b[j - a.len()]);
        }
    }
}

impl NumericRange {
    /// The non-empty pieces left of `e` after removing `r` form a canonical list inside `e`
    /// holding exactly the numbers of `e` outside `r`.
    pub proof fn lemma_difference_pieces(e: NumericRange, r: NumericRange)
        requires
            e.inv(),
            r.inv(),
        ensures
            is_canonical_list(e.spec_difference(r).ranges()),
            e.spec_difference(r).ranges().len() <= 2,
            forall|i: int|
                0 <= i < e.spec_difference(r).ranges().len() ==> e.lo() <= (
                #[trigger] e.spec_difference(r).ranges()[i]).lo() && e.spec_difference(r).ranges()[i].hi() <= e.hi(),
            forall|x: int| #[trigger] list_has(e.spec_difference(r).ranges(), x) <==> e.has(x) && !r.has(x),
    {
        NumericRange::lemma_difference_has(e, r);
        let d = e.spec_difference(r);
        let p = d.ranges();
        match d {
            MaybeSplitNumericRange::NotSplit(a) => {
                if !a.is_empty_spec() {
                    assert(d.has(a.lo()) && d.has(a.hi()));
                    assert(p[0] == a);
                }
                assert forall|x: int| #[trigger] list_has(p, x) <==> d.has(x) by {
                    if d.has(x) {
                        assert(p[0].has(x));
                    }
                }
            },
            MaybeSplitNumericRange::Split(a, b) => {
                assert(d.has(a.lo()) && d.has(a.hi()) && d.has(b.lo()) && d.has(b.hi()));
                assert(p[0] == a && p[1] == b);
                assert forall|x: int| #[trigger] list_has(p, x) <==> d.has(x) by {
                    if d.has(x) {
                        assert(p[0].has(x) || p[1].has(x));
                    }
                }
            },
        }
    }
}

impl<'a, 'b> core::ops::Sub<&'b NumericRange> for &'a NumericRange {
    type Output = MaybeSplitNumericRange;

    /// This range with the numbers of `rhs` removed, as `difference` gives it.
    fn sub(self, rhs: &'b NumericRange) -> (r: MaybeSplitNumericRange) {
        self.difference(rhs)
    }
}

impl<'a, 'b> vstd::std_specs::ops::SubSpecImpl<&'b NumericRange> for &'a NumericRange {
    open spec fn obeys_sub_spec() -> bool {
        true
    }

    open spec fn sub_req(self, rhs: &'b NumericRange) -> bool {
        true
    }

    open spec fn sub_spec(self, rhs: &'b NumericRange) -> MaybeSplitNumericRange {
        self.spec_difference(*rhs)
    }
}

impl<'a> core::ops::Sub<i64> for &'a NumericRange {
    type Output = MaybeSplitNumericRange;

    /// This range with the number `rhs` removed, as `difference_point` gives it.
    fn sub(self, rhs: i64) -> (r: MaybeSplitNumericRange) {
        self.difference_point(rhs)
    }
}

impl<'a> vstd::std_specs::ops::SubSpecImpl<i64> for &'a NumericRange {
    open spec fn obeys_sub_spec() -> bool {
        true
    }

    open spec fn sub_req(self, rhs: i64) -> bool {
        true
    }

    open spec fn sub_spec(self, rhs: i64) -> MaybeSplitNumericRange {
        self.spec_difference(NumericRange::from_bounds(rhs as int, rhs as int))
    }
}

impl<'a, 'b> core::ops::BitAnd<&'b NumericRange> for &'a NumericRange {
    type Output = NumericRange;

    /// The numbers in both ranges, as `intersection` gives them.
    fn bitand(self, rhs: &'b NumericRange) -> (r: NumericRange) {
        self.intersection(rhs)
    }
}

impl<'a, 'b> vstd::std_specs::ops::BitAndSpecImpl<&'b NumericRange> for &'a NumericRange {
    open spec fn obeys_bitand_spec() -> bool {
        true
    }

    open spec fn bitand_req(self, rhs: &'b NumericRange) -> bool {
        true
    }

    open spec fn bitand_spec(self, rhs: &'b NumericRange) -> NumericRange {
        self.spec_intersection(*rhs)
    }
}

impl<'a, 'b> core::ops::BitOr<&'b NumericRange> for &'a NumericRange {
    type Output = MaybeSplitNumericRange;

    /// The numbers in either range, as `union` gives them.
    fn bitor(self, rhs: &'b NumericRange) -> (r: MaybeSplitNumericRange) {
        self.union(rhs)
    }
}

impl<'a, 'b> vstd::std_specs::ops::BitOrSpecImpl<&'b NumericRange> for &'a NumericRange {
    open spec fn obeys_bitor_spec() -> bool {
        true
    }

    open spec fn bitor_req(self, rhs: &'b NumericRange) -> bool {
        true
    }

    open spec fn bitor_spec(self, rhs: &'b NumericRange) -> MaybeSplitNumericRange {
        self.spec_union(*rhs)
    }
}

impl NumericRange {
    /// The text of the range: `∅` when it is empty, else `[low, high]`.
    pub open spec fn text_spec(&self) -> Seq<char> {
        if self.is_empty_spec() {
            "∅"@
        } else {
            "["@ + decimal_spec(self.lo()) + ", "@ + decimal_spec(self.hi()) + "]"@
        }
    }

    /// The text of the range: `∅` when it is empty, else `[low, high]`.
    pub fn to_text(&self) -> (s: String)
        ensures
            s@ == self.text_spec(),
    {
        if self.is_empty() {
            return String::from_str("∅");
        }
        let mut s = String::from_str("[");
        push_decimal(&mut s, self.low as i128);
        push_str(&mut s, ", ");
        push_decimal(&mut s, self.high as i128);
        push_str(&mut s, "]");
        proof {
            assert(s@ =~= self.text_spec());
        }
        s
    }
}

} // verus!
