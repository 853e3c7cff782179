use parasect::range::bisecting_range_queue::BisectingRangeQueue;
use parasect::range::numeric_range::NumericRange;
use std::collections::HashSet;

fn qr(low: i64, high: i64) -> NumericRange {
    NumericRange::from_endpoints_inclusive(low, high)
}

#[test]
fn test_dequeue_produces_all_elements() {
    let mut ns = HashSet::new();
    let mut q = BisectingRangeQueue::new(qr(1, 10));

    while let Some((pt, _, _)) = q.dequeue() {
        ns.insert(pt);
    }

    assert_eq!(ns, (1..=10).collect::<HashSet<i64>>());
}

#[test]
fn test_dequeue_check_first() {
    let mut q = BisectingRangeQueue::new(qr(0, 10));

    assert_eq!(q.dequeue(), Some((5, qr(0, 4), qr(6, 10))));
}

#[test]
fn test_dequeue_invalidate_first_only_hits_others() {
    let mut ns = HashSet::new();
    let mut q = BisectingRangeQueue::new(qr(0, 10));

    q.dequeue();

    q.invalidate(&qr(6, 10));

    while let Some((pt, _, _)) = q.dequeue() {
        ns.insert(pt);
    }

    assert_eq!(ns, (0..=4).collect::<HashSet<i64>>());
}

#[test]
fn test_dequeue_invalidate_recurses() {
    let mut ns = HashSet::new();
    let mut q = BisectingRangeQueue::new(qr(0, 10));

    let (pt, a, _b) = q.dequeue().unwrap();
    let (pt2, a2, _b2) = q.dequeue().unwrap();

    ns.insert(pt);
    ns.insert(pt2);

    q.invalidate(&a);

    while let Some((pt, _, _)) = q.dequeue() {
        ns.insert(pt);
    }

    assert!(q.range_invalidated(&a));
    assert!(q.range_invalidated(&a2));
    assert_eq!(ns, [pt, pt2, 6, 7, 8, 9, 10].into_iter().collect::<HashSet<i64>>());
}

#[test]
fn bisection_finds_every_target() {
    for b in [1i64, 2, 7, 40] {
        for a in 1..=b {
            let mut q = BisectingRangeQueue::new(qr(0, b));
            let mut res = None;
            while let Some((point, left, right)) = q.dequeue() {
                if point < a {
                    q.invalidate(&left);
                } else if point > a {
                    q.invalidate(&right);
                } else {
                    res = Some(point);
                    break;
                }
            }
            assert_eq!(res, Some(a));
        }
    }
}

#[test]
fn invalidated_ranges_are_never_dequeued() {
    let mut q = BisectingRangeQueue::new(qr(-20, 20));
    q.invalidate(&qr(-5, 5));
    assert!(q.point_invalidated(0));
    assert!(!q.point_invalidated(6));
    while let Some((pt, left, right)) = q.dequeue() {
        let lo = left.first().unwrap_or(pt);
        let hi = right.last().unwrap_or(pt);
        assert!(!(-5 <= lo && hi <= 5), "a range inside the invalidated one was dequeued");
    }
}
