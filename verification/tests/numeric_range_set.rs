use parasect::range::numeric_range::{consolidate_range_stream, NumericRange};
use parasect::range::numeric_range_set::NumericRangeSet;
use std::collections::HashSet;

fn none_range() -> NumericRange {
    NumericRange::empty()
}

fn rr(low: i64, high: i64) -> NumericRange {
    NumericRange::from_endpoints_inclusive(low, high)
}

fn as_vec(s: &NumericRangeSet) -> Vec<(i64, NumericRange)> {
    s.iter().into_iter().map(|x| (x.first().unwrap(), x)).collect()
}

fn kvs(a: &[NumericRange]) -> Vec<(i64, NumericRange)> {
    a.iter().map(|x| (x.first().unwrap(), *x)).collect()
}

fn assert_invariants(s: &NumericRangeSet) {
    let ranges = s.iter();
    for range in ranges.iter() {
        assert!(!range.is_empty(), "There should not be any empty ranges in the set.");
    }
    for (a, b) in ranges.iter().zip(ranges.iter().skip(1)) {
        assert!(a.disjoint_to(b), "Ranges should not overlap.");
        assert!(a.last().unwrap() + 1 < b.first().unwrap(), "Ranges should be sorted and apart.");
    }
}

fn test_add_sequence(sequence: &[NumericRange]) {
    let mut s = NumericRangeSet::new();

    for elem in sequence {
        s.add(*elem);
        assert_invariants(&s);
    }

    assert_invariants(&s);
    assert_eq!(as_vec(&s), kvs(&consolidate_range_stream(sequence.to_vec())));
}

#[test]
fn test_add_basic() {
    test_add_sequence(&[rr(1, 3)]);
}

#[test]
fn test_add_before() {
    test_add_sequence(&[rr(1, 3), rr(5, 9)])
}

#[test]
fn test_add_after() {
    test_add_sequence(&[rr(5, 9), rr(1, 3)])
}

#[test]
fn test_add_surrounding_1() {
    test_add_sequence(&[rr(3, 5), rr(1, 9)]);
}

#[test]
fn test_add_surrounding_2() {
    test_add_sequence(&[rr(1, 9), rr(3, 5)]);
}

#[test]
fn test_add_overlapping_1() {
    test_add_sequence(&[rr(1, 5), rr(3, 9)]);
}

#[test]
fn test_add_overlapping_2() {
    test_add_sequence(&[rr(3, 9), rr(1, 5)]);
}

#[test]
fn test_add_empty_noop() {
    test_add_sequence(&[none_range()]);
}

#[test]
fn test_add_collision_1() {
    test_add_sequence(&[rr(1, 5), rr(1, 9)]);
}

#[test]
fn test_add_collision_2() {
    test_add_sequence(&[rr(1, 9), rr(1, 5)]);
}

#[test]
fn test_remove_range_split() {
    let mut s = NumericRangeSet::new();
    s.add(rr(1, 10));
    s.remove(&rr(3, 9));

    assert_invariants(&s);
    assert_eq!(as_vec(&s), kvs(&[rr(1, 2), rr(10, 10)]));
}

#[test]
fn test_remove_range_split_2() {
    let mut s = NumericRangeSet::new();
    s.add(rr(1, 10));
    s.add(rr(15, 20));
    s.remove(&rr(5, 18));

    assert_invariants(&s);
    assert_eq!(as_vec(&s), kvs(&[rr(1, 4), rr(19, 20)]));
}

#[test]
fn test_remove_range_split_3() {
    let mut s = NumericRangeSet::new();
    s.add(rr(-6, -3));
    s.add(rr(1, 10));
    s.add(rr(15, 20));
    s.add(rr(25, 30));
    s.remove(&rr(5, 18));

    assert_invariants(&s);
    assert_eq!(as_vec(&s), kvs(&[rr(-6, -3), rr(1, 4), rr(19, 20), rr(25, 30)]));
}

#[test]
fn test_remove_range_consolidate_1() {
    let mut s = NumericRangeSet::new();
    s.add(rr(-6, -3));
    s.add(rr(1, 10));
    s.add(rr(15, 20));
    s.add(rr(25, 30));
    s.remove(&rr(0, 21));

    assert_invariants(&s);
    assert_eq!(as_vec(&s), kvs(&[rr(-6, -3), rr(25, 30)]));
}

#[test]
fn test_remove_range_consolidate_2() {
    let mut s = NumericRangeSet::new();
    s.add(rr(-6, -3));
    s.add(rr(1, 10));
    s.add(rr(15, 20));
    s.add(rr(25, 30));
    s.remove(&rr(1, 20));

    assert_invariants(&s);
    assert_eq!(as_vec(&s), kvs(&[rr(-6, -3), rr(25, 30)]));
}

#[test]
fn test_remove_range_consolidate_3() {
    let mut s = NumericRangeSet::new();
    s.add(rr(-6, -3));
    s.add(rr(1, 10));
    s.add(rr(15, 20));
    s.add(rr(25, 30));
    s.remove(&rr(5, 21));

    assert_invariants(&s);
    assert_eq!(as_vec(&s), kvs(&[rr(-6, -3), rr(1, 4), rr(25, 30)]));
}

#[test]
fn test_bounds() {
    let mut s = NumericRangeSet::new();
    s.add(rr(0, 10));
    s.add(rr(20, 30));

    assert_eq!(s.bounds(), rr(0, 30));
    assert_eq!(NumericRangeSet::new().bounds(), none_range());
}

#[test]
fn numeric_range_set_test_contains() {
    let mut s = NumericRangeSet::new();
    s.add(rr(1, 3));
    s.add(rr(5, 9));

    assert!(s.contains(1));
    assert!(s.contains(2));
    assert!(s.contains(3));
    assert!(s.contains(5));
    assert!(s.contains(7));
    assert!(s.contains(9));
    assert!(!s.contains(0));
    assert!(!s.contains(4));
    assert!(!s.contains(10));
}

#[test]
fn numeric_range_set_test_contains_range() {
    let mut s = NumericRangeSet::new();
    s.add(rr(0, 10));
    s.add(rr(20, 30));

    assert!(s.contains_range(&rr(1, 9)));
    assert!(s.contains_range(&rr(1, 10)));
    assert!(s.contains_range(&rr(0, 10)));
    assert!(s.contains_range(&rr(0, 9)));

    assert!(s.contains_range(&rr(21, 29)));
    assert!(s.contains_range(&rr(20, 30)));
    assert!(s.contains_range(&rr(21, 30)));
    assert!(s.contains_range(&rr(20, 29)));

    assert!(!s.contains_range(&rr(-5, -3)));
    assert!(!s.contains_range(&rr(-5, 5)));
    assert!(!s.contains_range(&rr(5, 11)));
    assert!(!s.contains_range(&rr(13, 15)));
    assert!(!s.contains_range(&rr(17, 22)));
    assert!(!s.contains_range(&rr(17, 30)));

    assert!(!s.contains_range(&rr(17, 31)));
    assert!(!s.contains_range(&rr(-1, 11)));
    assert!(!s.contains_range(&rr(-1, 31)));
}

#[test]
fn test_contains_range_empty() {
    let mut s = NumericRangeSet::new();

    assert!(s.contains_range(&none_range()));

    s.add(rr(12, 69));

    assert!(s.contains_range(&none_range()));
}

#[test]
fn test_iter_range() {
    let mut s = NumericRangeSet::new();
    s.add(rr(1, 3));
    s.add(rr(11, 13));
    s.add(rr(21, 23));

    assert_eq!(s.iter_range(&rr(12, 22)), vec![rr(11, 13), rr(21, 23)]);
    assert_eq!(s.iter_range(&rr(11, 23)), vec![rr(11, 13), rr(21, 23)]);
    assert_eq!(s.iter_range(&rr(13, 21)), vec![rr(11, 13), rr(21, 23)]);
    assert_eq!(s.iter_range(&rr(23, 29)), vec![rr(21, 23)]);
    assert_eq!(s.iter_range(&rr(25, 29)), Vec::new());
}

#[test]
fn test_intersects_range() {
    let mut s = NumericRangeSet::new();
    s.add(rr(1, 3));
    s.add(rr(11, 13));
    s.add(rr(21, 23));

    assert!(s.intersects_range(&rr(12, 15)));
    assert!(s.intersects_range(&rr(13, 15)));
    assert!(s.intersects_range(&rr(0, 30)));
    assert!(s.intersects_range(&none_range()));
    assert!(!s.intersects_range(&rr(15, 16)));
}

#[test]
fn test_max() {
    let mut s = NumericRangeSet::new();
    s.add(rr(0, 10));
    s.add(rr(20, 30));

    assert_eq!(s.max(), Some(30));
}

#[test]
fn test_min() {
    let mut s = NumericRangeSet::new();
    s.add(rr(0, 10));
    s.add(rr(20, 30));

    assert_eq!(s.min(), Some(0));
}

#[test]
fn test_span() {
    let mut s = NumericRangeSet::new();
    s.add(rr(5, 10));
    s.add(rr(20, 30));

    assert_eq!(s.span(), Some(25u64));
}

#[test]
fn add_then_contains_range() {
    for (a, b) in [(1, 1), (3, 900), (-50, 50)] {
        let mut s = NumericRangeSet::new();
        s.add(rr(a, b));
        assert!(s.contains_range(&rr(a, b)));
    }
}

#[test]
fn add_and_remove_match_a_set_of_numbers() {
    let steps = [(1, 20, false), (5, 9, true), (30, 40, false), (8, 35, false), (33, 33, true), (0, 2, true)];
    let mut s = NumericRangeSet::new();
    let mut hs = HashSet::new();
    for (a, b, remove) in steps {
        if remove {
            s.remove(&rr(a, b));
            for n in a..=b {
                hs.remove(&n);
            }
        } else {
            s.add(rr(a, b));
            for n in a..=b {
                hs.insert(n);
            }
        }
        assert_invariants(&s);
    }
    let mut seen = HashSet::new();
    for range in s.iter() {
        for n in range.first().unwrap()..=range.last().unwrap() {
            seen.insert(n);
        }
    }
    assert_eq!(seen, hs);
    for n in -5..45 {
        assert_eq!(s.contains(n), hs.contains(&n));
    }
}

#[test]
fn from_ranges_equals_consolidation() {
    let ranges = vec![rr(9, 12), rr(1, 3), rr(4, 5), none_range(), rr(20, 22)];
    let s = NumericRangeSet::from_ranges(ranges.clone());
    assert_eq!(s.iter(), consolidate_range_stream(ranges));
    assert_eq!(s.iter(), vec![rr(1, 5), rr(9, 12), rr(20, 22)]);
}

#[test]
fn empty_set_has_no_bounds() {
    let s = NumericRangeSet::new();
    assert_eq!(s.min(), None);
    assert_eq!(s.max(), None);
    assert_eq!(s.span(), None);
    assert_eq!(s.iter(), Vec::new());
}
