use parasect::parasect::parasect_result_map::Criticality::{CriticalSeen, NoCriticalSeen};
use parasect::parasect::parasect_result_map::ParasectResultMap;
use parasect::parasect::types::ParasectError::{InconsistencyError, PayloadError};
use parasect::parasect::types::ParasectPayloadAnswer::{Bad, Good};
use parasect::parasect::types::ParasectPayloadResult::{Continue, Stop};

fn three() -> ParasectResultMap {
    ParasectResultMap::new(vec![1, 2, 3])
}

#[test]
fn test_add_critpt_1() {
    let mut map = three();

    assert_eq!(map.add(1, Continue(Good)), NoCriticalSeen);
    assert_eq!(map.add(2, Continue(Bad)), CriticalSeen);
}

#[test]
fn test_add_critpt_2() {
    let mut map = three();

    assert_eq!(map.add(2, Continue(Bad)), NoCriticalSeen);
    assert_eq!(map.add(1, Continue(Good)), CriticalSeen);
}

#[test]
fn test_add_critpt_3() {
    let mut map = three();

    assert_eq!(map.add(1, Continue(Good)), NoCriticalSeen);
    assert_eq!(map.add(2, Continue(Good)), NoCriticalSeen);
    assert_eq!(map.add(3, Continue(Bad)), CriticalSeen);
}

#[test]
fn test_add_critpt_4() {
    let mut map = three();

    assert_eq!(map.add(1, Continue(Good)), NoCriticalSeen);
    assert_eq!(map.add(3, Continue(Good)), NoCriticalSeen);
    assert_eq!(map.add(2, Continue(Bad)), CriticalSeen);
}

#[test]
fn test_add_critpt_5() {
    let mut map = three();

    assert_eq!(map.add(1, Continue(Bad)), CriticalSeen);
}

#[test]
fn test_add_critpt_6() {
    let mut map = three();

    assert_eq!(map.add(1, Continue(Good)), NoCriticalSeen);
    assert_eq!(map.add(2, Continue(Good)), NoCriticalSeen);
    assert_eq!(map.add(3, Continue(Good)), NoCriticalSeen);
}

#[test]
fn test_critpt_stop_not_critical_1() {
    let mut map = three();

    assert_eq!(map.add(1, Continue(Good)), NoCriticalSeen);
    assert_eq!(map.add(3, Continue(Bad)), NoCriticalSeen);
    assert_eq!(map.add(2, Stop("".into())), NoCriticalSeen);
}

#[test]
fn test_critpt_stop_not_critical_2() {
    let mut map = three();

    assert_eq!(map.add(1, Continue(Good)), NoCriticalSeen);
    assert_eq!(map.add(2, Continue(Good)), NoCriticalSeen);
    assert_eq!(map.add(3, Stop("".into())), NoCriticalSeen);
}

#[test]
fn test_critpt_stop_not_critical_3() {
    let mut map = three();

    assert_eq!(map.add(3, Continue(Good)), NoCriticalSeen);
    assert_eq!(map.add(2, Continue(Good)), NoCriticalSeen);
    assert_eq!(map.add(1, Stop("".into())), NoCriticalSeen);
}

#[test]
fn test_find_critpt_1() {
    let mut map = three();

    map.add(1, Continue(Bad));

    assert_eq!(map.critical_point(), Ok(1));
}

#[test]
fn test_find_critpt_2() {
    let mut map = three();

    map.add(1, Continue(Good));
    map.add(2, Continue(Bad));

    assert_eq!(map.critical_point(), Ok(2));
}

#[test]
fn test_find_critpt_3() {
    let mut map = three();

    map.add(1, Continue(Good));
    map.add(2, Continue(Good));
    map.add(3, Continue(Bad));

    assert_eq!(map.critical_point(), Ok(3));
}

#[test]
fn test_find_critpt_4() {
    let mut map = three();

    map.add(1, Continue(Good));
    map.add(2, Continue(Good));
    map.add(3, Continue(Good));

    assert_eq!(map.critical_point(), Err(InconsistencyError("All points were good.".into())));
}

#[test]
fn test_find_critpt_5() {
    let mut map = three();

    map.add(1, Continue(Bad));
    map.add(2, Continue(Bad));
    map.add(3, Continue(Good));

    assert_eq!(
        map.critical_point(),
        Err(InconsistencyError("Found a critical point at 1 followed by a good point at 3.".into()))
    );
}

#[test]
fn test_find_critpt_6() {
    let mut map = three();

    map.add(1, Continue(Good));
    map.add(2, Continue(Bad));
    map.add(3, Stop("it's gone bad".into()));

    assert_eq!(map.critical_point(), Err(PayloadError("it's gone bad".into())));
}

#[test]
fn find_critpt_for_every_threshold() {
    for b in 1..30i64 {
        for a in 1..=b {
            let indices: Vec<i64> = (1..=b).collect();
            let mut map = ParasectResultMap::new(indices.clone());
            for i in &indices {
                map.add(*i, if *i < a { Continue(Good) } else { Continue(Bad) });
            }
            assert_eq!(map.critical_point(), Ok(a));
        }
    }
}
