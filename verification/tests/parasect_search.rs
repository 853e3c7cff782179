use dashmap::DashMap;
use parasect::parasect::parasect::{process_result_map, process_results, search_one_at_a_time, start_search};
use parasect::parasect::types::ParasectError::{InconsistencyError, PayloadError};
use parasect::parasect::types::ParasectPayloadAnswer::{Bad, Good};
use parasect::parasect::types::ParasectPayloadResult;
use parasect::parasect::types::ParasectPayloadResult::{Continue, Stop};
use parasect::parasect::worker::{result_to_msg, skip_behavior, started_msg, PointCompletionMessageType};
use parasect::range::numeric_range::NumericRange;
use parasect::threading::background_loop::BackgroundLoopBehavior;

fn sr(low: i64, high: i64) -> NumericRange {
    NumericRange::from_endpoints_inclusive(low, high)
}

fn search(range: NumericRange, payload: impl Fn(i64) -> ParasectPayloadResult) -> Result<i64, parasect::parasect::types::ParasectError> {
    let mut controller = start_search(&range)?;
    while let Some((point, left, right)) = controller.dequeue() {
        let started = controller.handle_message(&started_msg(0, point, left, right));
        assert!(started.invalidate.is_none() && started.failure.is_none());
        let result = payload(point);
        let outcome = controller.handle_message(&result_to_msg(0, point, left, right, Some(&result)));
        if outcome.failure.is_some() {
            assert_eq!(outcome.behavior, BackgroundLoopBehavior::Cancel);
        }
    }
    controller.finish()
}

#[test]
fn sequential_search_finds_first_bad() {
    let result = search(sr(1, 500), |x| if x < 320 { Continue(Good) } else { Continue(Bad) });
    assert_eq!(result, Ok(320));
}

#[test]
fn sequential_search_reports_stop() {
    let result = search(sr(1, 500), |x| if x < 15 { Stop("error".into()) } else { Continue(Bad) });
    assert_eq!(result, Err(PayloadError("error".into())));
}

#[test]
fn sequential_search_all_good_and_all_bad() {
    assert_eq!(search(sr(1, 500), |_| Continue(Good)), Err(InconsistencyError("All points were good.".into())));
    assert_eq!(search(sr(1, 500), |_| Continue(Bad)), Err(InconsistencyError("All points were bad.".into())));
}

#[test]
fn sequential_search_every_threshold() {
    for hi in [3i64, 10, 33] {
        for lt in 2..=hi {
            let result = search(sr(1, hi), |x| if x < lt { Continue(Good) } else { Continue(Bad) });
            assert_eq!(result, Ok(lt));
        }
    }
}

#[test]
fn empty_range_is_refused() {
    assert_eq!(
        start_search(&NumericRange::empty()).err(),
        Some(InconsistencyError("Cannot parasect an empty range.".into()))
    );
}

#[test]
fn good_above_bad_is_reported() {
    let mut c = start_search(&sr(1, 10)).unwrap();
    let first = c.handle_message(&result_to_msg(0, 4, sr(1, 3), sr(5, 10), Some(&Continue(Bad))));
    assert_eq!(first.invalidate, Some((sr(4, 10), Bad)));
    assert!(first.failure.is_none());
    let second = c.handle_message(&result_to_msg(1, 7, sr(5, 6), sr(8, 10), Some(&Continue(Good))));
    assert_eq!(
        second.failure,
        Some("A good 7 was detected after a bad 4. Parasect requires 1 or more good followed by remaining bad.".to_string())
    );
}

#[test]
fn process_results_from_entries() {
    let entries = vec![(3, Continue(Bad)), (1, Continue(Good)), (2, Continue(Good)), (5, Continue(Bad))];
    assert_eq!(process_results(&entries), Ok(3));
    let entries = vec![(3, Continue(Good)), (2, Continue(Bad))];
    assert_eq!(
        process_results(&entries),
        Err(InconsistencyError("Found good point 3 after bad point 2.".into()))
    );
    let entries = vec![(1, Continue(Good)), (2, Stop("x".into()))];
    assert_eq!(process_results(&entries), Err(PayloadError("x".into())));
}

#[test]
fn process_result_map_reads_the_map() {
    let m = DashMap::new();
    m.insert(1, Continue(Good));
    m.insert(2, Continue(Bad));
    m.insert(3, Continue(Bad));
    assert_eq!(process_result_map(m), Ok(2));
    let m = DashMap::new();
    m.insert(1, Continue(Good));
    assert_eq!(process_result_map(m), Err(InconsistencyError("All points were good.".into())));
}

#[test]
fn worker_messages_and_skipping() {
    let m = result_to_msg(2, 5, sr(1, 4), sr(6, 9), None);
    assert_eq!(m.msg_type, PointCompletionMessageType::Cancelled);
    assert_eq!(m.thread_id, 2);
    assert_eq!(skip_behavior(&sr(1, 9), 5), BackgroundLoopBehavior::Cancel);
    assert_eq!(skip_behavior(&sr(6, 9), 5), BackgroundLoopBehavior::DontCancel);
}

#[test]
fn result_texts() {
    assert_eq!(Continue(Good).to_text(), "Good");
    assert_eq!(Continue(Bad).to_text(), "Bad");
    assert_eq!(Stop("why".into()).to_text(), "Aborting (why)");
}

#[test]
fn settled_ranges_follow_the_answer() {
    let mut c = start_search(&sr(1, 10)).unwrap();
    let good = c.handle_message(&result_to_msg(0, 4, sr(1, 3), sr(5, 10), Some(&Continue(Good))));
    assert_eq!(good.invalidate, Some((sr(1, 4), Good)));
    let bad = c.handle_message(&result_to_msg(0, 8, sr(5, 7), sr(9, 10), Some(&Continue(Bad))));
    assert_eq!(bad.invalidate, Some((sr(8, 10), Bad)));
    let lone = c.handle_message(&result_to_msg(0, 6, NumericRange::empty(), NumericRange::empty(), Some(&Continue(Good))));
    assert_eq!(lone.invalidate, Some((sr(6, 6), Good)));
    let cancelled = c.handle_message(&result_to_msg(0, 7, NumericRange::empty(), NumericRange::empty(), None));
    assert_eq!(cancelled.invalidate, None);
    assert_eq!(c.finish(), Ok(8));
}

#[test]
fn aborting_gives_up_the_whole_range() {
    let mut c = start_search(&sr(1, 100)).unwrap();
    let (point, left, right) = c.dequeue().unwrap();
    assert_eq!(point, 50);
    let out = c.handle_message(&result_to_msg(0, point, left, right, Some(&Stop("no".into()))));
    assert_eq!(out.failure, Some("no".to_string()));
    assert_eq!(c.dequeue(), None);
    assert_eq!(c.finish(), Err(PayloadError("no".into())));
}

#[test]
fn one_at_a_time_finds_every_threshold() {
    assert_eq!(search_one_at_a_time(&sr(1, 500), |x| if x < 320 { Continue(Good) } else { Continue(Bad) }), Ok(320));
    for hi in [3i64, 10, 33] {
        for lt in 2..=hi {
            let result = search_one_at_a_time(&sr(1, hi), |x| if x < lt { Continue(Good) } else { Continue(Bad) });
            assert_eq!(result, Ok(lt));
        }
    }
    assert_eq!(search_one_at_a_time(&sr(-40, 40), |x| if x < -7 { Continue(Good) } else { Continue(Bad) }), Ok(-7));
}

#[test]
fn one_at_a_time_reports_failures() {
    assert_eq!(
        search_one_at_a_time(&sr(1, 500), |x| if x < 15 { Stop("error".into()) } else { Continue(Bad) }),
        Err(PayloadError("error".into()))
    );
    assert_eq!(search_one_at_a_time(&sr(1, 500), |_| Continue(Good)), Err(InconsistencyError("All points were good.".into())));
    assert_eq!(search_one_at_a_time(&sr(1, 500), |_| Continue(Bad)), Err(InconsistencyError("All points were bad.".into())));
    assert_eq!(
        search_one_at_a_time(&NumericRange::empty(), |_| Continue(Bad)),
        Err(InconsistencyError("Cannot parasect an empty range.".into()))
    );
}
