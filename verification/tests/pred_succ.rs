use parasect::collections::pred_succ::PredSucc;

#[test]
fn test_pred_succ() {
    let elements = &[1, 2, 3, 4, 5];
    let ps = PredSucc::new(elements);

    assert_eq!(ps.successor(1), Some(2));
    assert_eq!(ps.successor(5), None);
    assert_eq!(ps.successor(6), None);
    assert_eq!(ps.predecessor(2), Some(1));
    assert_eq!(ps.predecessor(1), None);
    assert_eq!(ps.predecessor(0), None);
}

#[test]
fn pred_succ_of_unsorted_points_follows_their_order() {
    let ps = PredSucc::new(&[10, -3, 7]);
    assert_eq!(ps.successor(10), Some(-3));
    assert_eq!(ps.successor(-3), Some(7));
    assert_eq!(ps.predecessor(7), Some(-3));
    assert_eq!(ps.predecessor(10), None);
}
