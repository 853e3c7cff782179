use vstd::prelude::*;

use crate::range::numeric_range::{
    is_canonical_list,
    lemma_canonical_concat,
    lemma_concat_has,
    lemma_push_has,
    lemma_take_next_has,
    law_canonical_list_unique,
    list_has,
    max_int,
    min_int,
    MaybeSplitNumericRange,
    NumericRange,
};

verus! {

/// A set of continuous ranges of integers.
///
/// Internally the ranges are kept in canonical form: in increasing order, none of them
/// empty, and no two of them overlapping or touching.
#[derive(Debug, PartialEq, Eq)]
pub struct NumericRangeSet {
    ranges: Vec<NumericRange>,
}

impl View for NumericRangeSet {
    type V = Set<int>;

    /// The numbers held by the set.
    open spec fn view(&self) -> Set<int> {
        Set::new(|x: int| list_has(self.ranges_spec(), x))
    }
}

impl NumericRangeSet {
    /// The canonical list of ranges that makes up the set.
    pub closed spec fn ranges_spec(&self) -> Seq<NumericRange> {
        self.ranges@
    }

    /// The ranges are always in canonical form.
    #[verifier::type_invariant]
    pub open spec fn inv(&self) -> bool {
        is_canonical_list(self.ranges_spec())
    }

    /// An empty set.
    pub fn new() -> (s: Self)
        ensures
            s.ranges_spec() == Seq::<NumericRange>::empty(),
            s@ == Set::<int>::empty(),
    {
        let s = NumericRangeSet { ranges: Vec::new() };
        proof {
            assert(s@ =~= Set::<int>::empty());
        }
        s
    }

    /// Makes a set holding every number of the given ranges.
    pub fn from_ranges(ranges: Vec<NumericRange>) -> (s: Self)
        ensures
            forall|x: int| s@.contains(x) <==> list_has(ranges@, x),
    {
        let mut s = NumericRangeSet::new();
        let mut k: usize = 0;
        while k < ranges.len()
            invariant
                0 <= k <= ranges@.len(),
                forall|x: int| #[trigger] s@.contains(x) <==> list_has(ranges@.take(k as int), x),
            decreases ranges@.len() - k,
        {
            let r = ranges[k];
            let ghost s0 = s@;
            s.add(r);
            proof {
                lemma_take_next_has(ranges@, k as int);
                assert(ranges@[k as int] == r);
                assert forall|x: int| #[trigger] s@.contains(x) <==> list_has(ranges@.take(k + 1), x) by {
                    assert(s@.contains(x) <==> s0.contains(x) || r.has(x));
                    assert(s0.contains(x) <==> list_has(ranges@.take(k as int), x));
                }
            }
            k = k + 1;
        }
        proof {
            assert(ranges@.take(ranges@.len() as int) =~= ranges@);
        }
        s
    }

    /// Adds a range to the set.
    pub fn add(&mut self, range: NumericRange)
        ensures
            forall|x: int| #[trigger] final(self)@.contains(x) <==> old(self)@.contains(x) || range.has(x),
    {
        proof {
            use_type_invariant(&*self);
            use_type_invariant(&range);
        }
        if range.is_empty() {
            return;
        }
        let ghost rs = self.ranges@;
        let mut out: Vec<NumericRange> = Vec::new();
        let mut cur = range;
        let mut placed = false;
        let n = self.ranges.len();
        let mut k: usize = 0;
        while k < n
            invariant
                n == rs.len(),
                rs == self.ranges@,
                is_canonical_list(rs),
                0 <= k <= n,
                is_canonical_list(out@),
                cur.inv(),
                !cur.is_empty_spec(),
                forall|i: int, j: int|
                    0 <= i < out@.len() && k <= j < n ==> (#[trigger] out@[i]).hi() + 1 < (
                    #[trigger] rs[j]).lo(),
                !placed ==> forall|i: int|
                    0 <= i < out@.len() ==> (#[trigger] out@[i]).hi() + 1 < cur.lo(),
                placed ==> forall|x: int|
                    #[trigger] list_has(out@, x) <==> range.has(x) || list_has(rs.take(k as int), x),
                !placed ==> forall|x: int|
                    #[trigger] list_has(out@, x) || cur.has(x) <==> range.has(x) || list_has(
                        rs.take(k as int),
                        x,
                    ),
            decreases n - k,
        {
            let e = self.ranges[k];
            let ghost before = out@;
            let ghost cur0 = cur;
            let ghost placed0 = placed;
            proof {
                use_type_invariant(&e);
                assert(rs[k as int] == e);
                lemma_take_next_has(rs, k as int);
                assert(forall|j: int| k < j < n ==> e.hi() + 1 < (#[trigger] rs[j]).lo());
            }
            if placed {
                out.push(e);
                proof {
                    lemma_push_has(before, e);
                    lemma_canonical_concat(before, seq![e]);
                    assert(before + seq![e] == out@);
                    assert(out@ == before.push(e));
                    assert forall|x: int| #[trigger] list_has(out@, x) <==> list_has(before, x) || e.has(x) by {
                    }
                }
            } else if e.last_unchecked() as i128 + 1 < cur.first_unchecked() as i128 {
                out.push(e);
                proof {
                    lemma_push_has(before, e);
                    lemma_canonical_concat(before, seq![e]);
                    assert(before + seq![e] == out@);
                    assert(out@ == before.push(e));
                    assert forall|x: int| #[trigger] list_has(out@, x) <==> list_has(before, x) || e.has(x) by {
                    }
                }
            } else if cur.last_unchecked() as i128 + 1 < e.first_unchecked() as i128 {
                out.push(cur);
                placed = true;
                out.push(e);
                proof {
                    lemma_push_has(before, cur0);
                    lemma_push_has(before.push(cur0), e);
                    lemma_canonical_concat(before, seq![cur0, e]);
                    assert(before + seq![cur0, e] == out@);
                    assert(out@ == before.push(cur0).push(e));
                    assert forall|x: int| #[trigger] list_has(out@, x) <==> list_has(before, x) || cur0.has(x) || e.has(x) by {
                    }
                }
            } else {
                cur = NumericRange::hull(&cur, &e);
                proof {
                    NumericRange::lemma_from_bounds(
                        min_int(cur0.lo(), e.lo()),
                        max_int(cur0.hi(), e.hi()),
                    );
                    assert forall|x: int| cur.has(x) <==> cur0.has(x) || e.has(x) by {
                    }
                    assert forall|x: int| #[trigger] list_has(out@, x) || cur.has(x) <==> range.has(x) || list_has(rs.take(k + 1), x) by {
                        assert(list_has(before, x) || cur0.has(x) <==> range.has(x) || list_has(rs.take(k as int), x));
                        assert(list_has(rs.take(k + 1), x) <==> list_has(rs.take(k as int), x) || e.has(x));
                    }
                }
            }
            k = k + 1;
        }
        if !placed {
            let ghost before = out@;
            out.push(cur);
            proof {
                lemma_push_has(before, cur);
                lemma_canonical_concat(before, seq![cur]);
                assert(before + seq![cur] == out@);
                assert(before.push(cur) == out@);
                assert forall|x: int| #[trigger] list_has(out@, x) <==> range.has(x) || list_has(rs.take(n as int), x) by {
                    assert(list_has(before, x) || cur.has(x) <==> range.has(x) || list_has(rs.take(n as int), x));
                }
            }
        }
        proof {
            assert(rs.take(n as int) =~= rs);
            assert forall|x: int| list_has(out@, x) <==> list_has(rs, x) || range.has(x) by {
                assert(list_has(out@, x) <==> range.has(x) || list_has(rs.take(n as int), x));
            }
        }
        self.ranges = out;
    }

    /// Removes the given range from the set.
    pub fn remove(&mut self, range: &NumericRange)
        ensures
            forall|x: int| #[trigger] final(self)@.contains(x) <==> old(self)@.contains(x) && !range.has(x),
    {
        proof {
            use_type_invariant(&*self);
            use_type_invariant(range);
        }
        let ghost rs = self.ranges@;
        let mut out: Vec<NumericRange> = Vec::new();
        let n = self.ranges.len();
        let mut k: usize = 0;
        while k < n
            invariant
                n == rs.len(),
                rs == self.ranges@,
                is_canonical_list(rs),
                range.inv(),
                0 <= k <= n,
                is_canonical_list(out@),
                forall|i: int, j: int|
                    0 <= i < out@.len() && k <= j < n ==> (#[trigger] out@[i]).hi() + 1 < (
                    #[trigger] rs[j]).lo(),
                forall|x: int|
                    #[trigger] list_has(out@, x) <==> list_has(rs.take(k as int), x) && !range.has(x),
            decreases n - k,
        {
            let e = self.ranges[k];
            let ghost before = out@;
            proof {
                use_type_invariant(&e);
                assert(rs[k as int] == e);
                lemma_take_next_has(rs, k as int);
                NumericRange::lemma_difference_pieces(e, *range);
                assert(forall|j: int| k < j < n ==> e.hi() + 1 < (#[trigger] rs[j]).lo());
            }
            let pieces = e.difference(range).into_iter();
            append_ranges(&mut out, &pieces);
            proof {
                let d = e.spec_difference(*range);
                assert(pieces@ == d.ranges());
                lemma_concat_has(before, pieces@);
                assert forall|x: int|
                    list_has(out@, x) <==> list_has(rs.take(k + 1), x) && !range.has(x) by {
                    assert(list_has(before + pieces@, x) <==> list_has(before, x) || list_has(pieces@, x));
                    assert(list_has(d.ranges(), x) <==> e.has(x) && !range.has(x));
                    assert(out@ == before + pieces@);
                    assert(list_has(out@, x) <==> list_has(before, x) || list_has(pieces@, x));
                    assert(list_has(before, x) <==> list_has(rs.take(k as int), x) && !range.has(x));
                    assert(list_has(rs.take(k + 1), x) <==> list_has(rs.take(k as int), x) || e.has(x));
                }
                lemma_canonical_concat(before, pieces@);
                assert forall|i: int, j: int|
                    0 <= i < out@.len() && k + 1 <= j < n implies (#[trigger] out@[i]).hi() + 1 < (
                    #[trigger] rs[j]).lo() by {
                    if i < before.len() {
                        assert(out@[i] == before[i]);
                    } else {
                        assert(out@[i] == pieces@[i - before.len()]);
                    }
                }
            }
            k = k + 1;
        }
        proof {
            assert(rs.take(n as int) =~= rs);
            assert forall|x: int| list_has(out@, x) <==> list_has(rs, x) && !range.has(x) by {
            }
        }
        self.ranges = out;
    }
}

impl NumericRangeSet {
    /// Index one past the last range whose first number is at most `first`.
    fn count_starting_at_most(&self, first: i64) -> (i: usize)
        ensures
            0 <= i <= self.ranges_spec().len(),
            forall|k: int| 0 <= k < i ==> (#[trigger] self.ranges_spec()[k]).lo() <= first,
            forall|k: int|
                i <= k < self.ranges_spec().len() ==> (#[trigger] self.ranges_spec()[k]).lo() > first,
    {
        proof {
            use_type_invariant(self);
        }
        let mut i: usize = 0;
        while i < self.ranges.len() && self.ranges[i].first_unchecked() <= first
            invariant
                0 <= i <= self.ranges@.len(),
                is_canonical_list(self.ranges@),
                forall|k: int| 0 <= k < i ==> (#[trigger] self.ranges@[k]).lo() <= first,
            decreases self.ranges@.len() - i,
        {
            i = i + 1;
        }
        proof {
            assert forall|k: int| i <= k < self.ranges@.len() implies (
            #[trigger] self.ranges@[k]).lo() > first by {
                if k > i {
                    assert(self.ranges@[i as int].hi() + 1 < self.ranges@[k].lo());
                }
            }
        }
        i
    }

    /// `true` if every number in the given range is in the set.
    ///
    /// The empty range is contained in every set.
    pub fn contains_range(&self, range: &NumericRange) -> (b: bool)
        ensures
            b == (forall|x: int| range.has(x) ==> self@.contains(x)),
    {
        proof {
            use_type_invariant(self);
            use_type_invariant(range);
        }
        let first = match range.first() {
            None => {
                return true;
            },
            Some(f) => f,
        };
        let i = self.count_starting_at_most(first);
        if i == 0 {
            proof {
                assert(range.has(range.lo()));
                if self@.contains(range.lo()) {
                    let j = choose|j: int|
                        0 <= j < self.ranges@.len() && (#[trigger] self.ranges@[j]).has(range.lo());
                }
            }
            return false;
        }
        let m = i - 1;
        let r = self.ranges[m];
        let b = r.contains_range(range);
        proof {
            let rs = self.ranges@;
            assert(rs[m as int] == r);
            if b {
                assert forall|x: int| range.has(x) implies self@.contains(x) by {
                    assert(r.has(x));
                }
            } else if forall|x: int| range.has(x) ==> self@.contains(x) {
                assert(range.has(range.lo()) && range.has(range.hi()));
                assert(self@.contains(range.lo()));
                let j = choose|j: int| 0 <= j < rs.len() && (#[trigger] rs[j]).has(range.lo());
                if j < m {
                    assert(rs[j].hi() + 1 < rs[m as int].lo());
                }
                assert(j == m);
                assert(self@.contains(range.hi()));
                let j2 = choose|j: int| 0 <= j < rs.len() && (#[trigger] rs[j]).has(range.hi());
                if j2 < m {
                    assert(rs[j2].hi() + 1 < rs[m as int].lo());
                }
                if j2 > m {
                    let g = r.hi() + 1;
                    assert(r.hi() + 1 < rs[j2].lo());
                    assert(range.has(g));
                    assert(self@.contains(g));
                    let j3 = choose|j: int| 0 <= j < rs.len() && (#[trigger] rs[j]).has(g);
                    if j3 < m {
                        assert(rs[j3].hi() + 1 < rs[m as int].lo());
                    }
                    if j3 > m {
                        assert(rs[m as int].hi() + 1 < rs[j3].lo());
                    }
                }
                assert(r.has(range.hi()));
            }
        }
        b
    }

    /// `true` if the given number is in the set.
    pub fn contains(&self, n: i64) -> (b: bool)
        ensures
            b == self@.contains(n as int),
    {
        let r = NumericRange::from_point(n);
        let b = self.contains_range(&r);
        proof {
            assert(r.has(n as int));
        }
        b
    }

    /// The ranges of the set, in increasing order.
    pub fn iter(&self) -> (v: Vec<NumericRange>)
        ensures
            v@ == self.ranges_spec(),
            is_canonical_list(v@),
            forall|x: int| list_has(v@, x) <==> self@.contains(x),
    {
        proof {
            use_type_invariant(self);
        }
        let mut v: Vec<NumericRange> = Vec::new();
        let mut k: usize = 0;
        while k < self.ranges.len()
            invariant
                0 <= k <= self.ranges@.len(),
                v@ == self.ranges@.take(k as int),
            decreases self.ranges@.len() - k,
        {
            v.push(self.ranges[k]);
            proof {
                assert(v@ =~= self.ranges@.take(k + 1));
            }
            k = k + 1;
        }
        proof {
            assert(self.ranges@.take(self.ranges@.len() as int) =~= self.ranges@);
        }
        v
    }

    /// The ranges of the set that share at least one number with the given range, in
    /// increasing order.
    pub fn iter_range(&self, range: &NumericRange) -> (v: Vec<NumericRange>)
        ensures
            v@ == self.ranges_spec().filter(
                |e: NumericRange| !e.spec_intersection(*range).is_empty_spec(),
            ),
    {
        let ghost pred = |e: NumericRange| !e.spec_intersection(*range).is_empty_spec();
        let mut v: Vec<NumericRange> = Vec::new();
        let mut k: usize = 0;
        while k < self.ranges.len()
            invariant
                0 <= k <= self.ranges@.len(),
                v@ == self.ranges@.take(k as int).filter(pred),
                pred == (|e: NumericRange| !e.spec_intersection(*range).is_empty_spec()),
            decreases self.ranges@.len() - k,
        {
            let e = self.ranges[k];
            let b = e.disjoint_to(range);
            if !b {
                v.push(e);
            }
            proof {
                let t1 = self.ranges@.take(k + 1);
                assert(t1.drop_last() =~= self.ranges@.take(k as int));
                assert(t1.last() == e);
                assert(pred(e) == !b);
                reveal_with_fuel(Seq::<_>::filter, 1);
                assert(t1.filter(pred) == if pred(e) {
                    self.ranges@.take(k as int).filter(pred).push(e)
                } else {
                    self.ranges@.take(k as int).filter(pred)
                });
            }
            k = k + 1;
        }
        proof {
            assert(self.ranges@.take(self.ranges@.len() as int) =~= self.ranges@);
        }
        v
    }

    /// `true` if the given range is empty or the set holds at least one of its numbers.
    pub fn intersects_range(&self, range: &NumericRange) -> (b: bool)
        ensures
            b == (range.is_empty_spec() || exists|x: int| range.has(x) && self@.contains(x)),
    {
        proof {
            use_type_invariant(self);
            use_type_invariant(range);
        }
        if range.is_empty() {
            return true;
        }
        let v = self.iter_range(range);
        let b = v.len() > 0;
        proof {
            let pred = |e: NumericRange| !e.spec_intersection(*range).is_empty_spec();
            let rs = self.ranges@;
            if b {
                let e = v@[0];
                assert(rs.filter(pred).contains(e));
                rs.lemma_filter_pred(pred, 0);
                rs.lemma_filter_contains_rev(pred, e);
                let j = choose|j: int| 0 <= j < rs.len() && rs[j] == e;
                NumericRange::lemma_intersection_has(e, *range);
                let i = e.spec_intersection(*range);
                assert(i.has(i.lo()));
                assert(self@.contains(i.lo()));
            } else if exists|x: int| range.has(x) && self@.contains(x) {
                let x = choose|x: int| range.has(x) && self@.contains(x);
                let j = choose|j: int| 0 <= j < rs.len() && (#[trigger] rs[j]).has(x);
                NumericRange::lemma_intersection_has(rs[j], *range);
                assert(rs[j].spec_intersection(*range).has(x));
                assert(pred(rs[j]));
                rs.lemma_filter_contains(pred, j);
                assert(rs.filter(pred).contains(rs[j]));
            }
        }
        b
    }

    /// The lowest number in the set, if there is one.
    pub fn min(&self) -> (r: Option<i64>)
        ensures
            r is None <==> self@ == Set::<int>::empty(),
            r matches Some(m) ==> self@.contains(m as int) && forall|x: int|
                self@.contains(x) ==> m <= x,
    {
        proof {
            use_type_invariant(self);
        }
        if self.ranges.len() == 0 {
            proof {
                assert(self@ =~= Set::<int>::empty());
            }
            return None;
        }
        let r = self.ranges[0].first();
        proof {
            let rs = self.ranges@;
            assert(rs[0].has(rs[0].lo()));
            assert(self@.contains(rs[0].lo()));
            assert forall|x: int| self@.contains(x) implies rs[0].lo() <= x by {
                let j = choose|j: int| 0 <= j < rs.len() && (#[trigger] rs[j]).has(x);
                if j > 0 {
                    assert(rs[0].hi() + 1 < rs[j].lo());
                }
            }
        }
        r
    }

    /// The highest number in the set, if there is one.
    pub fn max(&self) -> (r: Option<i64>)
        ensures
            r is None <==> self@ == Set::<int>::empty(),
            r matches Some(m) ==> self@.contains(m as int) && forall|x: int|
                self@.contains(x) ==> x <= m,
    {
        proof {
            use_type_invariant(self);
        }
        let n = self.ranges.len();
        if n == 0 {
            proof {
                assert(self@ =~= Set::<int>::empty());
            }
            return None;
        }
        let r = self.ranges[n - 1].last();
        proof {
            let rs = self.ranges@;
            let l = rs[n - 1];
            assert(l.has(l.hi()));
            assert(self@.contains(l.hi()));
            assert forall|x: int| self@.contains(x) implies x <= l.hi() by {
                let j = choose|j: int| 0 <= j < rs.len() && (#[trigger] rs[j]).has(x);
                if j < n - 1 {
                    assert(rs[j].hi() + 1 < rs[n - 1].lo());
                }
            }
        }
        r
    }

    /// The range from the lowest to the highest number in the set, or the empty range.
    pub fn bounds(&self) -> (r: NumericRange)
        ensures
            self@ == Set::<int>::empty() ==> r.is_empty_spec(),
            self@ != Set::<int>::empty() ==> self@.contains(r.lo()) && self@.contains(r.hi())
                && forall|x: int| self@.contains(x) ==> r.has(x),
    {
        match self.min() {
            None => NumericRange::empty(),
            Some(lo) => match self.max() {
                None => NumericRange::empty(),
                Some(hi) => {
                    proof {
                        assert(self@.contains(lo as int));
                        assert(lo <= hi);
                        NumericRange::lemma_from_bounds(lo as int, hi as int);
                    }
                    NumericRange::from_endpoints_inclusive(lo, hi)
                },
            },
        }
    }

    /// The difference between the highest and the lowest number in the set, if it is not
    /// empty.
    pub fn span(&self) -> (r: Option<u64>)
        ensures
            r is None <==> self@ == Set::<int>::empty(),
            r matches Some(d) ==> exists|lo: int, hi: int|
                #![trigger self@.contains(lo), self@.contains(hi)]
                self@.contains(lo) && self@.contains(hi) && d == hi - lo && forall|x: int|
                    self@.contains(x) ==> lo <= x <= hi,
    {
        match self.min() {
            None => None,
            Some(lo) => match self.max() {
                None => None,
                Some(hi) => {
                    proof {
                        assert(self@.contains(lo as int));
                    }
                    Some((hi as i128 - lo as i128) as u64)
                },
            },
        }
    }
}

/// A set's ranges are the one canonical list of its numbers: any canonical list holding the
/// same numbers, such as `consolidate_range_stream` makes of the ranges that were added, is
/// equal to them.
pub proof fn law_ranges_are_consolidated(s: NumericRangeSet, c: Seq<NumericRange>)
    requires
        s.inv(),
        is_canonical_list(c),
        forall|x: int| list_has(c, x) <==> s@.contains(x),
    ensures
        s.ranges_spec() == c,
{
    assert forall|x: int| list_has(s.ranges_spec(), x) <==> list_has(c, x) by {
        assert(s@.contains(x) <==> list_has(s.ranges_spec(), x));
    }
    law_canonical_list_unique(s.ranges_spec(), c);
}

/// After the first `n` adds of a run that starts from an empty set, the set holds exactly the
/// numbers of the first `n` ranges added.
proof fn lemma_adds_hold(added: Seq<NumericRange>, states: Seq<NumericRangeSet>, n: int)
    requires
        0 <= n <= added.len(),
        states.len() == added.len() + 1,
        states[0]@ == Set::<int>::empty(),
        forall|i: int, x: int|
            0 <= i < added.len() ==> (#[trigger] states[i + 1]@.contains(x) <==> states[i]@.contains(x)
                || added[i].has(x)),
    ensures
        forall|x: int| #[trigger] states[n]@.contains(x) <==> list_has(added.take(n), x),
    decreases n,
{
    if n == 0 {
        assert forall|x: int| #[trigger] states[n]@.contains(x) <==> list_has(added.take(n), x) by {
            if list_has(added.take(n), x) {
                let k = choose|k: int| 0 <= k < added.take(n).len() && (#[trigger] added.take(n)[k]).has(x);
            }
        }
    } else {
        lemma_adds_hold(added, states, n - 1);
        lemma_take_next_has(added, n - 1);
        assert forall|x: int| #[trigger] states[n]@.contains(x) <==> list_has(added.take(n), x) by {
            assert(states[(n - 1) + 1]@.contains(x) <==> states[n - 1]@.contains(x) || added[n - 1].has(x));
        }
    }
}

/// Adding ranges one by one to a new set leaves it with the ranges that
/// `consolidate_range_stream` makes of them: empty ranges dropped, the rest sorted by their
/// first number, and overlapping or touching ranges merged into one.
pub proof fn law_adds_consolidate(
    added: Seq<NumericRange>,
    states: Seq<NumericRangeSet>,
    consolidated: Seq<NumericRange>,
)
    requires
        states.len() == added.len() + 1,
        forall|i: int| 0 <= i < states.len() ==> (#[trigger] states[i]).inv(),
        states[0]@ == Set::<int>::empty(),
        forall|i: int, x: int|
            0 <= i < added.len() ==> (#[trigger] states[i + 1]@.contains(x) <==> states[i]@.contains(x)
                || added[i].has(x)),
        is_canonical_list(consolidated),
        forall|x: int| list_has(consolidated, x) <==> list_has(added, x),
    ensures
        states.last().ranges_spec() == consolidated,
{
    let n = added.len() as int;
    lemma_adds_hold(added, states, n);
    assert(added.take(n) =~= added);
    assert(states.last() == states[n]);
    law_ranges_are_consolidated(states[n], consolidated);
}

/// Appends the ranges of `extra` to `out`.
fn append_ranges(out: &mut Vec<NumericRange>, extra: &Vec<NumericRange>)
    ensures
        final(out)@ == old(out)@ + extra@,
{
    let mut p: usize = 0;
    while p < extra.len()
        invariant
            0 <= p <= extra@.len(),
            out@ == old(out)@ + extra@.take(p as int),
        decreases extra@.len() - p,
    {
        out.push(extra[p]);
        proof {
            assert(out@ =~= old(out)@ + extra@.take(p + 1));
        }
        p = p + 1;
    }
    proof {
        assert(extra@.take(extra@.len() as int) =~= extra@);
    }
}

} // verus!
