use cadence::OpId;

#[test]
fn orders_by_counter_first() {
    let a = OpId::new(5, 1);
    let b = OpId::new(1, 2);
    assert!(a < b, "lower counter must sort first regardless of site_id");
}

#[test]
fn ties_broken_by_site_id() {
    let a = OpId::new(1, 7);
    let b = OpId::new(2, 7);
    assert!(a < b, "equal counters break ties by site_id");
}

#[test]
fn equal_ids_are_equal() {
    assert_eq!(OpId::new(3, 4), OpId::new(3, 4));
}

#[test]
fn id_order_is_total_and_agrees_with_ord() {
    let ids = [
        OpId::new(0, 0),
        OpId::new(1, 0),
        OpId::new(0, 1),
        OpId::new(7, 1),
        OpId::new(2, 9),
        OpId::new(u32::MAX, 3),
    ];
    for a in ids.iter() {
        assert!(!(a < a));
        for b in ids.iter() {
            if a != b {
                assert!((a < b) != (b < a));
            }
            assert_eq!(a.partial_cmp(b), Some(a.cmp(b)));
            for c in ids.iter() {
                if a < b && b < c {
                    assert!(a < c);
                }
            }
        }
    }
}
