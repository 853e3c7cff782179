use parasect::algorithms::parasect::{
    compute_parasect_indices, get_new_bounds, ibig_range, next_level_bounds, record_result,
};
use parasect::algorithms::parasect_result_map::{Criticality, ParasectResultMap};
use parasect::algorithms::parasect::{ParasectError, ParasectPayloadAnswer, ParasectPayloadResult};
use parasect::task::cancellable_task_util::CancellationType;

#[test]
fn test_ibig_range() {
    assert_eq!(vec![2, 3, 4, 5], ibig_range(2, 5))
}

#[test]
fn test_ibig_empty_range() {
    assert_eq!(Vec::<i64>::new(), ibig_range(2, 1))
}

#[test]
fn test_compute_parasect_indices() {
    let results = compute_parasect_indices(2, 22, 5);
    assert_eq!(vec![5, 9, 13, 16, 19], results)
}

#[test]
fn test_compute_parasect_indices_empty() {
    let results = compute_parasect_indices(2, 22, 0);
    assert_eq!(Vec::<i64>::new(), results)
}

#[test]
fn test_compute_parasect_indices_single() {
    let results = compute_parasect_indices(2, 22, 1);
    assert_eq!(vec![12], results)
}

#[test]
fn parasect_indices_of_small_range_are_every_point() {
    assert_eq!(compute_parasect_indices(-3, 1, 4), vec![-3, -2, -1, 0, 1]);
    assert_eq!(compute_parasect_indices(7, 7, 3), vec![7]);
}

#[test]
fn new_bounds_start_from_the_predecessor_of_low() {
    assert_eq!(get_new_bounds(5, &[1, 5, 9], 9), (1, 9));
    assert_eq!(get_new_bounds(0, &[1, 5, 9], 5), (0, 5));
}

#[test]
fn recording_results_cancels_on_a_critical_point() {
    let mut map = ParasectResultMap::new(vec![10, 20, 30]);
    assert_eq!(
        record_result(&mut map, 10, ParasectPayloadResult::Continue(ParasectPayloadAnswer::Good)),
        CancellationType::ContinueOthers
    );
    assert_eq!(
        record_result(&mut map, 20, ParasectPayloadResult::Continue(ParasectPayloadAnswer::Bad)),
        CancellationType::CancelOthers
    );
    assert_eq!(map.critical_point(), Ok(20));
}

#[test]
fn result_map_reports_two_critical_points() {
    let mut map = ParasectResultMap::new(vec![1, 2, 3]);
    assert_eq!(map.add(1, ParasectPayloadResult::Continue(ParasectPayloadAnswer::Bad)), Criticality::NoCriticalSeen);
    map.add(2, ParasectPayloadResult::Continue(ParasectPayloadAnswer::Good));
    assert_eq!(
        map.critical_point(),
        Err(ParasectError::InconsistencyError("Found two critical points at 1 and 2".into()))
    );
}

#[test]
fn result_map_reports_stop_and_all_good() {
    let mut map = ParasectResultMap::new(vec![1, 2]);
    map.add(1, ParasectPayloadResult::Continue(ParasectPayloadAnswer::Good));
    map.add(2, ParasectPayloadResult::Stop("halt".into()));
    assert_eq!(map.critical_point(), Err(ParasectError::PayloadError("halt".into())));

    let mut map = ParasectResultMap::new(vec![1, 2]);
    map.add(1, ParasectPayloadResult::Continue(ParasectPayloadAnswer::Good));
    assert_eq!(
        map.critical_point(),
        Err(ParasectError::InconsistencyError("All points were good.".into()))
    );
}

#[test]
fn level_map_finds_every_threshold() {
    for b in 1..20i64 {
        for a in 1..=b {
            let indices: Vec<i64> = (1..=b).collect();
            let mut map = ParasectResultMap::new(indices.clone());
            for i in &indices {
                map.add(*i, if *i < a {
                    ParasectPayloadResult::Continue(ParasectPayloadAnswer::Good)
                } else {
                    ParasectPayloadResult::Continue(ParasectPayloadAnswer::Bad)
                });
            }
            assert_eq!(map.critical_point(), Ok(a));
        }
    }
}

#[test]
fn next_level_bounds_decides_the_level() {
    assert_eq!(next_level_bounds(5, &[1, 5, 9], Ok(9)), Ok((1, 9)));
    assert_eq!(
        next_level_bounds(1, &[1, 5, 9], Err(ParasectError::InconsistencyError("All points were good.".into()))),
        Err(ParasectError::InconsistencyError("All values are good.".into()))
    );
    assert_eq!(
        next_level_bounds(1, &[1, 5, 9], Err(ParasectError::InconsistencyError("All points were bad.".into()))),
        Err(ParasectError::InconsistencyError("All points were bad.".into()))
    );
    assert_eq!(
        next_level_bounds(1, &[1, 5, 9], Err(ParasectError::PayloadError("x".into()))),
        Err(ParasectError::PayloadError("x".into()))
    );
}
