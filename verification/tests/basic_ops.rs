use cadence::{Doc, OpId, Operation};

/// A client that reconnects to the relay server receives the *entire* op log again, not
/// just what it missed -- so re-delivering an op the local doc already has must be a
/// safe no-op, not a duplicate character.
#[test]
fn reapplying_an_already_known_remote_op_is_a_no_op() {
    let mut origin = Doc::new(1);
    let ops: Vec<_> = "hi"
        .chars()
        .enumerate()
        .map(|(i, ch)| origin.insert_local(i, ch))
        .collect();

    let mut replica = Doc::new(2);
    for op in &ops {
        replica.apply_remote(op.clone());
    }
    assert_eq!(replica.to_string(), "hi");

    for op in &ops {
        replica.apply_remote(op.clone());
    }
    assert_eq!(
        replica.to_string(),
        "hi",
        "redelivering known ops must not duplicate characters"
    );
    assert_eq!(replica.len(), 2);
}

#[test]
fn sequential_local_inserts_produce_correct_string() {
    let mut doc = Doc::new(1);
    for (i, ch) in "hello".chars().enumerate() {
        doc.insert_local(i, ch);
    }
    assert_eq!(doc.to_string(), "hello");
}

#[test]
fn inserting_in_the_middle_shifts_correctly() {
    let mut doc = Doc::new(1);
    for (i, ch) in "helo".chars().enumerate() {
        doc.insert_local(i, ch);
    }
    doc.insert_local(3, 'l');
    assert_eq!(doc.to_string(), "hello");
}

#[test]
fn local_delete_removes_correct_character() {
    let mut doc = Doc::new(1);
    for (i, ch) in "hello".chars().enumerate() {
        doc.insert_local(i, ch);
    }
    doc.delete_local(0);
    assert_eq!(doc.to_string(), "ello");

    doc.delete_local(3);
    assert_eq!(doc.to_string(), "ell");
}

#[test]
fn tombstoned_characters_do_not_reappear_in_output() {
    let mut doc = Doc::new(1);
    doc.insert_local(0, 'a');
    doc.insert_local(1, 'b');
    doc.insert_local(2, 'c');
    doc.delete_local(1);
    assert_eq!(doc.to_string(), "ac");
    assert_eq!(doc.len(), 2);
}

#[test]
fn remote_ops_replay_to_reconstruct_document() {
    let mut origin = Doc::new(1);
    let ops: Vec<_> = "abc"
        .chars()
        .enumerate()
        .map(|(i, ch)| origin.insert_local(i, ch))
        .collect();

    let mut replica = Doc::new(2);
    for op in ops {
        replica.apply_remote(op);
    }
    assert_eq!(replica.to_string(), "abc");
}

/// Three independent replicas (distinct site ids) that have all already converged on
/// the 2-character string "ac".
fn three_synced_replicas() -> (Doc, Doc, Doc) {
    let mut seed = Doc::new(0);
    let seed_ops = vec![seed.insert_local(0, 'a'), seed.insert_local(1, 'c')];

    let mut a = Doc::new(1);
    let mut b = Doc::new(2);
    let mut c = Doc::new(3);
    for op in seed_ops {
        a.apply_remote(op.clone());
        b.apply_remote(op.clone());
        c.apply_remote(op);
    }
    (a, b, c)
}

#[test]
fn concurrent_inserts_at_same_position_converge_regardless_of_order() {
    let (mut site_a, mut site_b, mut site_c) = three_synced_replicas();

    let op_a = site_a.insert_local(1, 'X');
    let op_b = site_b.insert_local(1, 'Y');

    site_a.apply_remote(op_b.clone());
    site_b.apply_remote(op_a.clone());

    assert_eq!(
        site_a.to_string(),
        site_b.to_string(),
        "sites must converge even though they applied the concurrent ops in opposite order"
    );

    site_c.apply_remote(op_b);
    site_c.apply_remote(op_a);
    assert_eq!(site_a.to_string(), site_c.to_string());
}

#[test]
fn delete_of_tombstoned_char_referenced_by_later_insert_still_resolves() {
    let mut seed = Doc::new(0);
    let seed_ops = vec![seed.insert_local(0, 'a'), seed.insert_local(1, 'b')];

    let mut site_a = Doc::new(1);
    let mut site_b = Doc::new(2);
    for op in seed_ops {
        site_a.apply_remote(op.clone());
        site_b.apply_remote(op);
    }

    let del_op = site_a.delete_local(0);
    let ins_op = site_b.insert_local(1, 'X');

    site_a.apply_remote(ins_op.clone());
    site_b.apply_remote(del_op.clone());

    assert_eq!(site_a.to_string(), site_b.to_string());
    assert_eq!(site_a.to_string(), "Xb");
}

#[test]
fn local_ops_carry_fresh_ids_and_the_anchor() {
    let mut doc = Doc::new(9);
    assert!(doc.is_empty());
    assert_eq!(doc.site_id(), 9);
    let op0 = doc.insert_local(0, 'a');
    assert_eq!(
        op0,
        Operation::Insert { id: OpId::new(9, 0), after: None, char: 'a' }
    );
    let op1 = doc.insert_local(1, 'b');
    assert_eq!(
        op1,
        Operation::Insert { id: OpId::new(9, 1), after: Some(OpId::new(9, 0)), char: 'b' }
    );
    let del = doc.delete_local(0);
    assert_eq!(del, Operation::Delete { target: OpId::new(9, 0) });
    assert_eq!(doc.to_string(), "b");
    assert!(!doc.is_empty());
}

#[test]
fn insert_past_the_end_goes_to_the_start() {
    let mut doc = Doc::new(1);
    doc.insert_local(0, 'a');
    doc.insert_local(1, 'b');
    let op = doc.insert_local(5, 'z');
    assert_eq!(
        op,
        Operation::Insert { id: OpId::new(1, 2), after: None, char: 'z' }
    );
    assert_eq!(doc.to_string(), "zab");
}

#[test]
fn remote_insert_advances_the_lamport_clock() {
    let mut remote = Doc::new(2);
    let mut ops = Vec::new();
    for i in 0..5 {
        ops.push(remote.insert_local(i, 'x'));
    }
    let mut local = Doc::new(1);
    for op in &ops {
        local.apply_remote(op.clone());
    }
    // the next local id must sort above every id already observed
    let op = local.insert_local(5, 'y');
    assert_eq!(
        op,
        Operation::Insert { id: OpId::new(1, 5), after: Some(OpId::new(2, 4)), char: 'y' }
    );
    assert_eq!(local.to_string(), "xxxxxy");
}

#[test]
fn delete_of_unknown_target_is_a_no_op() {
    let mut doc = Doc::new(1);
    doc.insert_local(0, 'a');
    doc.apply_remote(Operation::Delete { target: OpId::new(7, 7) });
    assert_eq!(doc.to_string(), "a");
    assert_eq!(doc.len(), 1);
}

#[test]
fn deleting_twice_is_the_same_as_once() {
    let mut a = Doc::new(1);
    let ops = vec![a.insert_local(0, 'p'), a.insert_local(1, 'q')];
    let del = a.delete_local(0);
    let mut b = Doc::new(2);
    for op in &ops {
        b.apply_remote(op.clone());
    }
    b.apply_remote(del.clone());
    b.apply_remote(del);
    assert_eq!(b.to_string(), "q");
    assert_eq!(a.to_string(), b.to_string());
}

#[test]
fn site_id_is_fixed_and_minted_ids_keep_increasing() {
    let mut a = Doc::new(4);
    let mut b = Doc::new(5);
    let mut seen: Vec<OpId> = Vec::new();
    for round in 0..6usize {
        let op = a.insert_local(round, 'a');
        if let Operation::Insert { id, .. } = &op {
            assert!(seen.iter().all(|s| s < id));
            assert_eq!(id.site_id, 4);
            seen.push(*id);
        }
        b.apply_remote(op);
        let op_b = b.insert_local(0, 'b');
        if let Operation::Insert { id, .. } = &op_b {
            seen.push(*id);
        }
        a.apply_remote(op_b);
        if round % 2 == 1 {
            a.delete_local(0);
        }
    }
    assert_eq!(a.site_id(), 4);
    assert_eq!(b.site_id(), 5);
}
