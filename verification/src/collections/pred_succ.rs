use vstd::prelude::*;

use std::collections::HashMap;

verus! {

/// Looks up the element before and after a given element in a sequence.
///
/// When a value occurs more than once, its last occurrence that has a neighbor on the
/// relevant side is the one that counts.
pub struct PredSucc {
    predecessors: HashMap<i64, i64>,
    successors: HashMap<i64, i64>,
}

/// `true` if `p` is the element before the last occurrence of `v` in `s` that has an element
/// before it.
pub open spec fn is_predecessor(s: Seq<i64>, v: i64, p: i64) -> bool {
    exists|j: int|
        1 <= j < s.len() && #[trigger] s[j] == v && s[j - 1] == p && forall|j2: int|
            j < j2 < s.len() ==> s[j2] != v
}

/// `true` if `v` occurs in `s` somewhere other than first.
pub open spec fn has_predecessor(s: Seq<i64>, v: i64) -> bool {
    exists|j: int| 1 <= j < s.len() && #[trigger] s[j] == v
}

/// `true` if `q` is the element after the last occurrence of `v` in `s` that has an element
/// after it.
pub open spec fn is_successor(s: Seq<i64>, v: i64, q: i64) -> bool {
    exists|j: int|
        0 <= j < s.len() - 1 && #[trigger] s[j] == v && s[j + 1] == q && forall|j2: int|
            j < j2 < s.len() - 1 ==> s[j2] != v
}

/// `true` if `v` occurs in `s` somewhere other than last.
pub open spec fn has_successor(s: Seq<i64>, v: i64) -> bool {
    exists|j: int| 0 <= j < s.len() - 1 && #[trigger] s[j] == v
}


/// The element before the last occurrence of `v` in `s` that has one.
pub open spec fn predecessor_in(s: Seq<i64>, v: i64) -> Option<i64> {
    if has_predecessor(s, v) {
        Some(choose|p: i64| is_predecessor(s, v, p))
    } else {
        None
    }
}

/// The element after the last occurrence of `v` in `s` that has one.
pub open spec fn successor_in(s: Seq<i64>, v: i64) -> Option<i64> {
    if has_successor(s, v) {
        Some(choose|q: i64| is_successor(s, v, q))
    } else {
        None
    }
}

/// Each element has at most one predecessor and one successor.
pub proof fn lemma_neighbors_unique(s: Seq<i64>, v: i64, a: i64, b: i64)
    ensures
        is_predecessor(s, v, a) && is_predecessor(s, v, b) ==> a == b,
        is_successor(s, v, a) && is_successor(s, v, b) ==> a == b,
{
    if is_predecessor(s, v, a) && is_predecessor(s, v, b) {
        let j1 = choose|j: int|
            1 <= j < s.len() && #[trigger] s[j] == v && s[j - 1] == a && forall|j2: int|
                j < j2 < s.len() ==> s[j2] != v;
        let j2 = choose|j: int|
            1 <= j < s.len() && #[trigger] s[j] == v && s[j - 1] == b && forall|j3: int|
                j < j3 < s.len() ==> s[j3] != v;
        assert(j1 == j2);
    }
    if is_successor(s, v, a) && is_successor(s, v, b) {
        let j1 = choose|j: int|
            0 <= j < s.len() - 1 && #[trigger] s[j] == v && s[j + 1] == a && forall|j2: int|
                j < j2 < s.len() - 1 ==> s[j2] != v;
        let j2 = choose|j: int|
            0 <= j < s.len() - 1 && #[trigger] s[j] == v && s[j + 1] == b && forall|j3: int|
                j < j3 < s.len() - 1 ==> s[j3] != v;
        assert(j1 == j2);
    }
}

impl PredSucc {
    /// The sequence this was built from.
    pub closed spec fn pred_map(&self) -> Map<i64, i64> {
        self.predecessors@
    }

    /// The sequence this was built from.
    pub closed spec fn succ_map(&self) -> Map<i64, i64> {
        self.successors@
    }

    /// `true` if this holds the neighbors of the elements of `s`.
    pub open spec fn built_from(&self, s: Seq<i64>) -> bool {
        &&& forall|v: i64| #[trigger] self.pred_map().contains_key(v) <==> has_predecessor(s, v)
        &&& forall|v: i64|
            #[trigger] self.pred_map().contains_key(v) ==> is_predecessor(s, v, self.pred_map()[v])
        &&& forall|v: i64| #[trigger] self.succ_map().contains_key(v) <==> has_successor(s, v)
        &&& forall|v: i64|
            #[trigger] self.succ_map().contains_key(v) ==> is_successor(s, v, self.succ_map()[v])
    }

    /// Records the neighbors of each element of `slice`.
    pub fn new(slice: &[i64]) -> (ps: Self)
        ensures
            ps.built_from(slice@),
    {
        let mut predecessors: HashMap<i64, i64> = HashMap::new();
        let mut successors: HashMap<i64, i64> = HashMap::new();
        let ghost s = slice@;
        if slice.len() == 0 {
            return PredSucc { predecessors, successors };
        }
        proof {
            assert(predecessors@ =~= Map::<i64, i64>::empty());
            assert(successors@ =~= Map::<i64, i64>::empty());
            assert forall|v: i64| !has_predecessor(s.take(1), v) && !has_successor(s.take(1), v) by {
            }
        }
        let mut k: usize = 1;
        while k < slice.len()
            invariant
                s == slice@,
                1 <= k <= s.len(),
                forall|v: i64| #[trigger] predecessors@.contains_key(v) <==> has_predecessor(s.take(k as int), v),
                forall|v: i64|
                    #[trigger] predecessors@.contains_key(v) ==> is_predecessor(
                        s.take(k as int),
                        v,
                        predecessors@[v],
                    ),
                forall|v: i64| #[trigger] successors@.contains_key(v) <==> has_successor(s.take(k as int), v),
                forall|v: i64|
                    #[trigger] successors@.contains_key(v) ==> is_successor(
                        s.take(k as int),
                        v,
                        successors@[v],
                    ),
            decreases s.len() - k,
        {
            let a = slice[k - 1];
            let b = slice[k];
            let ghost t0 = s.take(k as int);
            let ghost t1 = s.take(k + 1);
            let ghost p0 = predecessors@;
            let ghost q0 = successors@;
            predecessors.insert(b, a);
            successors.insert(a, b);
            proof {
                assert(t1 =~= t0.push(b));
                assert forall|v: i64| #[trigger] predecessors@.contains_key(v) <==> has_predecessor(t1, v) by {
                    if v == b {
                        assert(t1[k as int] == b);
                    } else if has_predecessor(t1, v) {
                        let j = choose|j: int| 1 <= j < t1.len() && t1[j] == v;
                        assert(t0[j] == v);
                    } else if has_predecessor(t0, v) {
                        let j = choose|j: int| 1 <= j < t0.len() && t0[j] == v;
                        assert(t1[j] == v);
                    }
                }
                assert forall|v: i64| #[trigger] predecessors@.contains_key(v) implies is_predecessor(
                    t1,
                    v,
                    predecessors@[v],
                ) by {
                    if v == b {
                        assert(t1[k as int] == b && t1[k - 1] == a);
                    } else {
                        let j = choose|j: int|
                            1 <= j < t0.len() && #[trigger] t0[j] == v && t0[j - 1] == p0[v] && forall|j2: int|
                                j < j2 < t0.len() ==> t0[j2] != v;
                        assert(t1[j] == v && t1[j - 1] == p0[v]);
                        assert forall|j2: int| j < j2 < t1.len() implies t1[j2] != v by {
                            if j2 < t0.len() {
                                assert(t1[j2] == t0[j2]);
                            }
                        }
                    }
                }
                assert forall|v: i64| #[trigger] successors@.contains_key(v) <==> has_successor(t1, v) by {
                    if v == a {
                        assert(t1[k - 1] == a);
                    } else if has_successor(t1, v) {
                        let j = choose|j: int| 0 <= j < t1.len() - 1 && t1[j] == v;
                        assert(j < k - 1);
                        assert(t0[j] == v);
                    } else if has_successor(t0, v) {
                        let j = choose|j: int| 0 <= j < t0.len() - 1 && t0[j] == v;
                        assert(t1[j] == v);
                    }
                }
                assert forall|v: i64| #[trigger] successors@.contains_key(v) implies is_successor(
                    t1,
                    v,
                    successors@[v],
                ) by {
                    if v == a {
                        assert(t1[k - 1] == a && t1[k as int] == b);
                    } else {
                        let j = choose|j: int|
                            0 <= j < t0.len() - 1 && #[trigger] t0[j] == v && t0[j + 1] == q0[v] && forall|j2: int|
                                j < j2 < t0.len() - 1 ==> t0[j2] != v;
                        assert(t1[j] == v && t1[j + 1] == q0[v]);
                        assert forall|j2: int| j < j2 < t1.len() - 1 implies t1[j2] != v by {
                            if j2 < t0.len() - 1 {
                                assert(t1[j2] == t0[j2]);
                            } else {
                                assert(t1[j2] == a);
                            }
                        }
                    }
                }
            }
            k = k + 1;
        }
        proof {
            assert(s.take(k as int) =~= s);
        }
        PredSucc { predecessors, successors }
    }

    /// The element before `v`, if there is one.
    pub fn predecessor(&self, v: i64) -> (r: Option<i64>)
        ensures
            forall|s: Seq<i64>| self.built_from(s) ==> r == predecessor_in(s, v),
            r is Some <==> self.pred_map().contains_key(v),
            r matches Some(p) ==> p == self.pred_map()[v],
    {
        let r = match self.predecessors.get(&v) {
            Some(p) => Some(*p),
            None => None,
        };
        proof {
            assert(r is Some <==> self.pred_map().contains_key(v));
            assert(r is Some ==> r == Some(self.pred_map()[v]));
            assert forall|s: Seq<i64>| self.built_from(s) implies r == predecessor_in(s, v) by {
                assert(self.pred_map().contains_key(v) <==> has_predecessor(s, v));
                if has_predecessor(s, v) {
                    assert(is_predecessor(s, v, self.pred_map()[v]));
                    let c = choose|p: i64| is_predecessor(s, v, p);
                    lemma_neighbors_unique(s, v, c, self.pred_map()[v]);
                }
            }
        }
        r
    }

    /// The element after `v`, if there is one.
    pub fn successor(&self, v: i64) -> (r: Option<i64>)
        ensures
            forall|s: Seq<i64>| self.built_from(s) ==> r == successor_in(s, v),
            r is Some <==> self.succ_map().contains_key(v),
            r matches Some(q) ==> q == self.succ_map()[v],
    {
        let r = match self.successors.get(&v) {
            Some(q) => Some(*q),
            None => None,
        };
        proof {
            assert(r is Some <==> self.succ_map().contains_key(v));
            assert(r is Some ==> r == Some(self.succ_map()[v]));
            assert forall|s: Seq<i64>| self.built_from(s) implies r == successor_in(s, v) by {
                assert(self.succ_map().contains_key(v) <==> has_successor(s, v));
                if has_successor(s, v) {
                    assert(is_successor(s, v, self.succ_map()[v]));
                    let c = choose|q: i64| is_successor(s, v, q);
                    lemma_neighbors_unique(s, v, c, self.succ_map()[v]);
                }
            }
        }
        r
    }
}

} // verus!
