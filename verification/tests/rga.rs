use cadence::{OpId, Rga};

#[test]
fn siblings_after_the_same_anchor_sort_by_descending_id() {
    let mut rga = Rga::new();
    let root = OpId::new(0, 0);
    rga.integrate_insert(root, None, 'r');
    // three concurrent inserts right after `root`, delivered in scrambled order
    rga.integrate_insert(OpId::new(1, 5), Some(root), 'b');
    rga.integrate_insert(OpId::new(2, 9), Some(root), 'a');
    rga.integrate_insert(OpId::new(3, 1), Some(root), 'c');
    assert_eq!(rga.to_string(), "rabc");
    assert_eq!(rga.visible_len(), 4);
    assert_eq!(rga.nth_visible_id(1), Some(OpId::new(2, 9)));
    assert_eq!(rga.nth_visible_id(4), None);
}

#[test]
fn nested_inserts_are_skipped_over() {
    let mut rga = Rga::new();
    let root = OpId::new(0, 0);
    rga.integrate_insert(root, None, 'r');
    let hi = OpId::new(1, 5);
    rga.integrate_insert(hi, Some(root), 'h');
    // a child of `hi` sits right behind it
    rga.integrate_insert(OpId::new(1, 6), Some(hi), 'i');
    // a lower sibling of `hi` must go after `hi`'s whole subtree
    rga.integrate_insert(OpId::new(2, 3), Some(root), 'z');
    assert_eq!(rga.to_string(), "rhiz");
}

#[test]
fn integrate_is_idempotent_and_delete_tombstones() {
    let mut rga = Rga::new();
    let a = OpId::new(1, 0);
    rga.integrate_insert(a, None, 'a');
    rga.integrate_insert(a, None, 'a');
    assert_eq!(rga.to_string(), "a");
    rga.integrate_delete(a);
    assert_eq!(rga.to_string(), "");
    assert_eq!(rga.visible_len(), 0);
    // an insert anchored on the tombstone still resolves
    rga.integrate_insert(OpId::new(2, 1), Some(a), 'b');
    assert_eq!(rga.to_string(), "b");
    assert_eq!(rga.nth_visible_id(0), Some(OpId::new(2, 1)));
}
