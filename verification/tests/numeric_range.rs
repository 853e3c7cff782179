use parasect::range::numeric_range::MaybeSplitNumericRange::{NotSplit, Split};
use parasect::range::numeric_range::{consolidate_range_stream, NumericRange};

fn empty() -> NumericRange {
    NumericRange::empty()
}

fn r(low: i64, high: i64) -> NumericRange {
    NumericRange::from_endpoints_inclusive(low, high)
}

#[test]
fn test_as_tuple() {
    assert_eq!(None, empty().as_tuple());
    assert_eq!(Some((1, 69)), r(1, 69).as_tuple())
}

#[test]
fn numeric_range_test_contains() {
    assert!(r(69, 79).contains(69));
    assert!(r(69, 79).contains(71));
    assert!(r(69, 79).contains(79));
}

#[test]
fn numeric_range_test_contains_range() {
    assert!(r(1, 20).contains_range(&r(5, 15)));
    assert!(!r(1, 20).contains_range(&r(0, 1)));
    assert!(!r(1, 20).contains_range(&r(-5, -2)));
    assert!(!r(1, 20).contains_range(&r(23, 25)));
}

#[test]
fn test_disjoint_to() {
    assert!(r(1, 5).disjoint_to(&r(6, 10)));
    assert!(r(1, 5).disjoint_to(&r(10, 15)));
    assert!(!r(1, 5).disjoint_to(&r(5, 10)));
    assert!(!r(1, 5).disjoint_to(&r(1, 5)));
    assert!(!r(1, 5).disjoint_to(&r(2, 3)));
    assert!(!r(1, 5).disjoint_to(&r(1, 3)));
    assert!(!r(1, 5).disjoint_to(&r(3, 5)));
    assert!(!r(1, 5).disjoint_to(&r(0, 2)));
    assert!(!r(1, 5).disjoint_to(&r(0, 1)));
    assert!(!r(1, 5).disjoint_to(&r(4, 6)));
    assert!(!r(1, 5).disjoint_to(&r(5, 6)));
    assert!(empty().disjoint_to(&empty()));
}

#[test]
fn numeric_range_test_empty() {
    assert!(empty().is_empty());
    assert_eq!(empty().len(), 0u128);
}

#[test]
fn test_first() {
    assert_eq!(None, empty().first());
    assert_eq!(Some(69), r(69, 99).first());
}

#[test]
fn test_from_endpoints_excluding_end() {
    assert_eq!(empty(), NumericRange::from_endpoints_excluding_end(69, 69));
    assert_eq!(empty(), NumericRange::from_endpoints_excluding_end(69, 68));
    assert_eq!(r(69, 69), NumericRange::from_endpoints_excluding_end(69, 70));
    assert_eq!(NumericRange::from_endpoints_excluding_end(69, 70).first(), Some(69));
    assert_eq!(NumericRange::from_endpoints_excluding_end(69, 70).last(), Some(69));
    assert_eq!(NumericRange::from_endpoints_excluding_end(69, 99).first(), Some(69));
    assert_eq!(NumericRange::from_endpoints_excluding_end(69, 99).last(), Some(98));
}

#[test]
fn test_from_endpoints_inclusive() {
    assert_eq!(empty(), NumericRange::from_endpoints_inclusive(69, 68));
    assert_eq!(NumericRange::from_endpoints_inclusive(69, 69).first(), Some(69));
    assert_eq!(NumericRange::from_endpoints_inclusive(69, 69).last(), Some(69));
    assert_eq!(NumericRange::from_endpoints_inclusive(69, 100).first(), Some(69));
    assert_eq!(NumericRange::from_endpoints_inclusive(69, 100).last(), Some(100));
}

#[test]
fn test_from_point() {
    assert_eq!(r(69, 69), NumericRange::from_point(69));
    assert_eq!(NumericRange::from_point(69).len(), 1u128);
}

#[test]
fn test_is_empty() {
    assert!(empty().is_empty());
    assert!(r(69, 68).is_empty());
    assert!(!r(69, 69).is_empty());
}

#[test]
fn test_last() {
    assert_eq!(None, empty().last());
    assert_eq!(Some(99), r(69, 99).last());
}

#[test]
fn test_len() {
    assert_eq!(empty().len(), 0u128);
    assert_eq!(r(1, 10).len(), 10u128);
}

#[test]
fn test_sub() {
    assert_eq!(&r(1, 10) - 5, Split(r(1, 4), r(6, 10)));
    assert_eq!(&r(1, 10) - 0, NotSplit(r(1, 10)));
    assert_eq!(&r(1, 10) - 11, NotSplit(r(1, 10)));
    assert_eq!(&r(1, 10) - 1, NotSplit(r(2, 10)));
    assert_eq!(&r(1, 10) - 10, NotSplit(r(1, 9)));
    assert_eq!(&r(1, 10) - &r(4, 6), Split(r(1, 3), r(7, 10)));
    assert_eq!(&r(1, 10) - &r(0, 5), NotSplit(r(6, 10)));
    assert_eq!(&r(1, 10) - &r(7, 15), NotSplit(r(1, 6)));
    assert_eq!(&r(1, 10) - &r(-1, 15), NotSplit(empty()));
    assert_eq!(&r(1, 10) - &r(1, 5), NotSplit(r(6, 10)));
    assert_eq!(&r(1, 10) - &r(5, 10), NotSplit(r(1, 4)));
    assert_eq!(&r(1, 10) - &r(1, 10), NotSplit(empty()));
    assert_eq!(&r(1, 10) - &r(-20, -1), NotSplit(r(1, 10)));
    assert_eq!(&r(1, 10) - &r(11, 15), NotSplit(r(1, 10)));
    assert_eq!(&r(1, 10) - &r(-10, 1), NotSplit(r(2, 10)));
    assert_eq!(&r(1, 10) - &r(10, 15), NotSplit(r(1, 9)));
    assert_eq!(&empty() - &empty(), NotSplit(empty()));
    assert_eq!(&empty() - &r(69, 69), NotSplit(empty()));
}

#[test]
fn test_bitand() {
    assert_eq!(&r(1, 10) & &r(2, 8), r(2, 8));
    assert_eq!(&r(1, 10) & &r(3, 12), r(3, 10));
    assert_eq!(&r(1, 10) & &r(-5, 4), r(1, 4));
    assert_eq!(&r(1, 10) & &r(-5, -1), empty());
    assert_eq!(&r(1, 10) & &r(11, 15), empty());
    assert_eq!(&r(1, 10) & &r(0, 12), r(1, 10));
    assert_eq!(&r(1, 10) & &r(1, 10), r(1, 10));
    assert_eq!(&r(1, 10) & &r(1, 5), r(1, 5));
    assert_eq!(&r(1, 10) & &r(5, 10), r(5, 10));
    assert_eq!(&r(1, 10) & &r(-1, 1), r(1, 1));
    assert_eq!(&r(1, 10) & &r(10, 10), r(10, 10));
}

#[test]
fn test_bitor() {
    assert_eq!(&r(1, 10) | &r(2, 8), NotSplit(r(1, 10)));
    assert_eq!(&r(1, 10) | &r(3, 12), NotSplit(r(1, 12)));
    assert_eq!(&r(1, 10) | &r(-5, 4), NotSplit(r(-5, 10)));
    assert_eq!(&r(1, 10) | &r(-5, -1), Split(r(-5, -1), r(1, 10)));
    assert_eq!(&r(1, 10) | &r(11, 15), NotSplit(r(1, 15)));
    assert_eq!(&r(1, 10) | &r(-10, 0), NotSplit(r(-10, 10)));
    assert_eq!(&r(1, 10) | &r(0, 12), NotSplit(r(0, 12)));
    assert_eq!(&r(1, 10) | &r(1, 10), NotSplit(r(1, 10)));
    assert_eq!(&r(1, 10) | &r(1, 5), NotSplit(r(1, 10)));
    assert_eq!(&r(1, 10) | &r(5, 10), NotSplit(r(1, 10)));
    assert_eq!(&r(1, 10) | &r(-1, 1), NotSplit(r(-1, 10)));
    assert_eq!(&r(1, 10) | &r(10, 10), NotSplit(r(1, 10)));
}

#[test]
fn test_consolidate_range_stream() {
    let a = vec![r(1, 2), r(8, 10), r(6, 12), empty(), r(3, 4), r(10, 15), r(13, 19)];
    let v = consolidate_range_stream(a);

    assert_eq!(v, vec![r(1, 4), r(6, 19)]);
}

#[test]
fn contains_always_has_endpoints_on_samples() {
    for (a, b) in [(-5, 5), (0, 0), (i64::MIN, i64::MAX), (7, 100)] {
        let range = r(a, b);
        assert!(range.contains(a));
        assert!(range.contains(b));
    }
}

#[test]
fn empty_contains_nothing_on_samples() {
    for n in [i64::MIN, -1, 0, 1, i64::MAX] {
        assert!(!empty().contains(n));
    }
}

#[test]
fn contains_range_self_and_empty_on_samples() {
    for (a, b) in [(1, 1), (-3, 9), (5, 4)] {
        assert!(r(a, b).contains_range(&r(a, b)));
        assert!(r(a, b).contains_range(&empty()));
    }
}

#[test]
fn disjoint_laws_on_samples() {
    assert!(r(3, 8).disjoint_to(&empty()));
    assert!(!r(3, 8).disjoint_to(&r(3, 8)));
    assert!(!r(3, 8).disjoint_to(&r(3, 3)));
    assert!(!r(3, 8).disjoint_to(&r(8, 8)));
}

#[test]
fn intersection_and_union_laws_on_samples() {
    let a = r(2, 9);
    let b = r(5, 14);
    assert_eq!(&a & &empty(), empty());
    assert_eq!(&a & &a, a);
    assert_eq!(&a & &b, &b & &a);
    assert_eq!(&a | &empty(), NotSplit(a));
    assert_eq!(&a | &a, NotSplit(a));
    assert_eq!(&a | &b, &b | &a);
    assert_eq!(&a - &a, NotSplit(empty()));
}

#[test]
fn from_point_and_length_counts_from_low() {
    assert_eq!(NumericRange::from_point_and_length(5, 3), r(5, 7));
    assert_eq!(NumericRange::from_point_and_length(5, 0), empty());
    assert_eq!(NumericRange::from_point_and_length(-2, 1), r(-2, -2));
}

#[test]
fn len_of_widest_range() {
    assert_eq!(r(i64::MIN, i64::MAX).len(), 1u128 << 64);
}

#[test]
fn maybe_split_iterates_non_empty_parts() {
    assert_eq!(
        parasect::range::numeric_range::MaybeSplitNumericRange::from_two(r(1, 3), empty()).into_iter(),
        vec![r(1, 3)]
    );
    assert_eq!(Split(r(1, 2), r(5, 6)).iter(), vec![r(1, 2), r(5, 6)]);
    assert_eq!(NotSplit(empty()).iter(), Vec::<NumericRange>::new());
}

#[test]
fn range_text() {
    assert_eq!(empty().to_text(), "∅");
    assert_eq!(r(-3, 12).to_text(), "[-3, 12]");
}
