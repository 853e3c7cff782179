use vstd::prelude::*;

use crate::algorithms::parasect_result_map::ParasectResultMap;
use crate::collections::pred_succ::{predecessor_in, successor_in, PredSucc};
use crate::parasect::parasect_result_map::{criticality_spec, neighbor_result, Criticality};
use crate::task::cancellable_task_util::CancellationType;

pub use crate::parasect::types::{ParasectError, ParasectPayloadAnswer, ParasectPayloadResult};

verus! {

/// The numbers `low..=high`, in order.
pub fn ibig_range(low: i64, high: i64) -> (v: Vec<i64>)
    requires
        high - low < usize::MAX,
    ensures
        v@.len() == if low <= high {
            high - low + 1
        } else {
            0
        },
        forall|j: int| 0 <= j < v@.len() ==> #[trigger] v@[j] == low + j,
{
    let mut ret: Vec<i64> = Vec::new();
    let mut i: i128 = low as i128;
    while i <= high as i128
        invariant
            low <= i <= high + 1 || (i == low && low > high),
            ret@.len() == i - low,
            forall|j: int| 0 <= j < ret@.len() ==> #[trigger] ret@[j] == low + j,
        decreases high + 1 - i,
    {
        ret.push(i as i64);
        i = i + 1;
    }
    ret
}

/// The `j`-th of `count` points spread over `low..=low + delta`: the points leave gaps of
/// `gap` or `gap + 1` numbers, with the first `rem` gaps one larger.
pub open spec fn spread_point(low: int, gap: int, rem: int, j: int) -> int {
    low + (j + 1) * gap + (if j + 1 < rem {
        j + 1
    } else {
        rem
    }) + j
}

/// Picks `count` points of `low..=high` that split it into parts of nearly equal size, or
/// every point of it when it has no more than `count + 1` of them.
pub fn compute_parasect_indices(low: i64, high: i64, count: usize) -> (v: Vec<i64>)
    requires
        low <= high,
        count < usize::MAX,
    ensures
        high - low <= count ==> v@.len() == high - low + 1 && forall|j: int|
            0 <= j < v@.len() ==> #[trigger] v@[j] == low + j,
        high - low > count ==> v@.len() == count && forall|j: int|
            0 <= j < v@.len() ==> #[trigger] v@[j] == spread_point(
                low as int,
                (high - low - count) / (count + 1),
                (high - low - count) % (count + 1),
                j,
            ),
        forall|j: int| 0 <= j < v@.len() ==> low <= #[trigger] v@[j] <= high,
        forall|i: int, j: int| 0 <= i < j < v@.len() ==> (#[trigger] v@[i]) < (#[trigger] v@[j]),
{
    let delta: i128 = high as i128 - low as i128;
    if delta <= count as i128 {
        let v = ibig_range(low, high);
        return v;
    }
    let c: i128 = count as i128;
    let gap: i128 = (delta - c) / (c + 1);
    let rem: i128 = (delta - c) % (c + 1);
    let mut remainder: i128 = rem;
    let mut ret: Vec<i64> = Vec::new();
    let mut i: i128 = low as i128;
    let mut k: usize = 0;
    proof {
        assert((c + 1) * gap + rem == delta - c) by (nonlinear_arith)
            requires
                gap == (delta - c) / (c + 1),
                rem == (delta - c) % (c + 1),
                c >= 0,
        ;
        assert(gap >= 0 && 0 <= rem < c + 1) by (nonlinear_arith)
            requires
                gap == (delta - c) / (c + 1),
                rem == (delta - c) % (c + 1),
                c >= 0,
                delta > c,
        ;
    }
    while k < count
        invariant
            0 <= k <= count,
            c == count,
            delta == high - low,
            delta > c,
            gap >= 0,
            0 <= rem < c + 1,
            (c + 1) * gap + rem == delta - c,
            remainder == if rem > k {
                rem - k
            } else {
                0int
            },
            i == low + k * gap + (if k < rem {
                k as int
            } else {
                rem as int
            }) + k,
            ret@.len() == k,
            forall|j: int| 0 <= j < k ==> #[trigger] ret@[j] == spread_point(low as int, gap as int, rem as int, j),
        decreases count - k,
    {
        proof {
            assert((k + 1) * gap == k * gap + gap) by (nonlinear_arith);
            assert((c + 1) * gap == c * gap + gap) by (nonlinear_arith);
            assert(k * gap + gap <= c * gap) by (nonlinear_arith)
                requires
                    k + 1 <= c,
                    gap >= 0,
            ;
        }
        i = i + gap;
        if remainder > 0 {
            remainder = remainder - 1;
            i = i + 1;
        }
        proof {
            assert(i == spread_point(low as int, gap as int, rem as int, k as int));
            assert(i <= high);
        }
        ret.push(i as i64);
        i = i + 1;
        k = k + 1;
    }
    proof {
        assert forall|j: int| 0 <= j < ret@.len() implies low <= #[trigger] ret@[j] <= high by {
            assert((j + 1) * gap >= 0 && (j + 1) * gap <= c * gap) by (nonlinear_arith)
                requires
                    0 <= j < c,
                    gap >= 0,
            ;
            assert((c + 1) * gap == c * gap + gap) by (nonlinear_arith);
        }
        assert forall|a: int, b: int| 0 <= a < b < ret@.len() implies (#[trigger] ret@[a]) < (
        #[trigger] ret@[b]) by {
            assert((a + 1) * gap <= (b + 1) * gap) by (nonlinear_arith)
                requires
                    a < b,
                    gap >= 0,
            ;
        }
    }
    ret
}

/// The bounds of the next level: from the point before `low` among `indices` (or `low`
/// itself when there is none) to the first bad index.
pub fn get_new_bounds(low: i64, indices: &[i64], first_bad_index: i64) -> (r: (i64, i64))
    ensures
        r.0 == match predecessor_in(indices@, low) {
            Some(p) => p,
            None => low,
        },
        r.1 == first_bad_index,
{
    let predsucc = PredSucc::new(indices);
    let low = match predsucc.predecessor(low) {
        Some(p) => p,
        None => low,
    };
    (low, first_bad_index)
}

/// `true` if `e` is the error of a level whose points were all good.
pub open spec fn ends_level_all_good(e: ParasectError) -> bool {
    e matches ParasectError::InconsistencyError(s) && s@ == "All points were good."@
}

/// One step of the search by levels, once the level's first bad index (or the error that
/// ended the level) is known: the bounds of the next level, as `get_new_bounds` gives them, or
/// the error that ends the search. A level whose points were all good ends the search with
/// "All values are good."; any other error ends it as it is.
pub fn next_level_bounds(
    low: i64,
    indices: &[i64],
    first_bad_index: Result<i64, ParasectError>,
) -> (r: Result<(i64, i64), ParasectError>)
    ensures
        first_bad_index matches Ok(b) ==> (r matches Ok(bounds) && bounds.0 == match predecessor_in(
            indices@,
            low,
        ) {
            Some(p) => p,
            None => low,
        } && bounds.1 == b),
        first_bad_index matches Err(e) ==> (if ends_level_all_good(e) {
            r matches Err(ParasectError::InconsistencyError(t)) && t@ == "All values are good."@
        } else {
            r matches Err(e2) && e2 == e
        }),
{
    match first_bad_index {
        Ok(b) => Ok(get_new_bounds(low, indices, b)),
        Err(ParasectError::InconsistencyError(s)) => {
            let all_good = String::from_str("All points were good.");
            if s == all_good {
                Err(ParasectError::InconsistencyError(String::from_str("All values are good.")))
            } else {
                Err(ParasectError::InconsistencyError(s))
            }
        },
        Err(e) => Err(e),
    }
}

/// Records the result of the payload at `index` in the level's results, and says whether the
/// level's other points can be cancelled: they can once a bad point right after a good one has
/// been seen.
pub fn record_result(
    map: &mut ParasectResultMap,
    index: i64,
    result: ParasectPayloadResult,
) -> (c: CancellationType)
    ensures
        final(map).indices_spec() == old(map).indices_spec(),
        final(map).results_spec() == old(map).results_spec().insert(index, result),
        c is CancelOthers <==> criticality_spec(
            neighbor_result(old(map).results_spec(), predecessor_in(old(map).indices_spec(), index)),
            result,
            neighbor_result(old(map).results_spec(), successor_in(old(map).indices_spec(), index)),
        ) is CriticalSeen,
{
    match map.add(index, result) {
        Criticality::CriticalSeen => CancellationType::CancelOthers,
        Criticality::NoCriticalSeen => CancellationType::ContinueOthers,
    }
}

} // verus!
