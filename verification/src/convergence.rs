//! The convergence guarantee: every replica that integrates the same set of
//! operations, in any order that respects causality, ends with the same nodes and
//! hence the same text; and redelivering known operations changes nothing.

use vstd::prelude::*;
use crate::id::{OpId, lemma_id_order_is_strict_total};
use crate::layout::{
    wf, has_id, pos_of, origin, anchored, anchor_pos, insert_pos, text_of, rga_insert,
    lemma_pos_of, lemma_pos_of_range, lemma_anchor_pos, lemma_insert_pos, lemma_insert_wf,
    lemma_insert_positions, lemma_delete_shape,
};
use crate::op::{Operation, apply_op, prerequisite, integrable};
use crate::rga::Node;

verus! {

/// The nodes of a replica that starts empty and integrates `ops` in order.
pub open spec fn replay(ops: Seq<Operation>) -> Seq<Node>
    decreases ops.len(),
{
    if ops.len() == 0 {
        Seq::empty()
    } else {
        apply_op(replay(ops.drop_last()), ops.last())
    }
}

/// `op` is an insert of `id`.
pub open spec fn inserts(op: Operation, id: OpId) -> bool {
    op matches Operation::Insert { id: i, .. } && i == id
}

/// The operation at `k` comes after the insert it waits behind, if any.
pub open spec fn ready_at(ops: Seq<Operation>, k: int) -> bool {
    match prerequisite(ops[k]) {
        None => true,
        Some(d) => exists|j: int| 0 <= j < k && #[trigger] inserts(ops[j], d),
    }
}

/// A delivery order that respects causality: every insert comes after the insert it
/// was made after, every delete after the insert of its target.
pub open spec fn causal(ops: Seq<Operation>) -> bool {
    forall|k: int| 0 <= k < ops.len() ==> #[trigger] ready_at(ops, k)
}

/// Ids are never reused: two inserts that carry the same id are the same insert.
pub open spec fn consistent(ops: Seq<Operation>) -> bool {
    forall|i: int, j: int|
        0 <= i < ops.len() && 0 <= j < ops.len() && ops[i] is Insert && ops[j] is Insert
            && #[trigger] ops[i]->id == #[trigger] ops[j]->id ==> ops[i] == ops[j]
}

/// The insert that a node records.
pub open spec fn insert_of(n: Node) -> Operation {
    Operation::Insert { id: n.id, after: n.after, char: n.ch }
}

proof fn lemma_prefix_causal(ops: Seq<Operation>)
    requires
        ops.len() > 0,
        causal(ops),
        consistent(ops),
    ensures
        causal(ops.drop_last()),
        consistent(ops.drop_last()),
{
    let pre = ops.drop_last();
    assert forall|k: int| 0 <= k < pre.len() implies #[trigger] ready_at(pre, k) by {
        assert(ready_at(ops, k));
        assert(pre[k] == ops[k]);
        match prerequisite(ops[k]) {
            None => {},
            Some(d) => {
                let j = choose|j: int| 0 <= j < k && #[trigger] inserts(ops[j], d);
                assert(inserts(pre[j], d));
            },
        }
    }
    assert forall|i: int, j: int|
        0 <= i < pre.len() && 0 <= j < pre.len() && pre[i] is Insert && pre[j] is Insert
            && #[trigger] pre[i]->id == #[trigger] pre[j]->id implies pre[i] == pre[j] by {
        assert(pre[i] == ops[i] && pre[j] == ops[j]);
    }
}

/// What a replay holds: a well-formed layout whose nodes are exactly the inserts of
/// `ops`, tombstoned exactly when `ops` deletes them.
pub proof fn lemma_replay(ops: Seq<Operation>)
    requires
        causal(ops),
        consistent(ops),
    ensures
        wf(replay(ops)),
        forall|a: OpId| #[trigger] has_id(replay(ops), a) <==> exists|j: int| 0 <= j < ops.len() && #[trigger] inserts(ops[j], a),
        forall|i: int| 0 <= i < replay(ops).len() ==> ops.contains(insert_of(#[trigger] replay(ops)[i])),
        forall|i: int| 0 <= i < replay(ops).len() ==> (#[trigger] replay(ops)[i].deleted <==> ops.contains(
            Operation::Delete { target: replay(ops)[i].id },
        )),
    decreases ops.len(),
{
    if ops.len() == 0 {
        return;
    }
    let pre = ops.drop_last();
    let op = ops.last();
    let last = ops.len() - 1;
    lemma_prefix_causal(ops);
    lemma_replay(pre);
    let s0 = replay(pre);
    let t = replay(ops);
    assert(t == apply_op(s0, op));
    assert(ops == pre.push(op));
    assert forall|j: int| 0 <= j < pre.len() implies #[trigger] pre[j] == ops[j] by {}
    // the operation's prerequisite is present
    assert(ready_at(ops, last));
    if let Some(d) = prerequisite(op) {
        let j = choose|j: int| 0 <= j < last && #[trigger] inserts(ops[j], d);
        assert(inserts(pre[j], d));
        assert(has_id(s0, d));
    }
    match op {
        Operation::Insert { id, after, char } => {
            if has_id(s0, id) {
                assert(t == s0);
                assert forall|a: OpId| #[trigger] has_id(t, a) <==> exists|j: int| 0 <= j < ops.len() && #[trigger] inserts(ops[j], a) by {
                    if exists|j: int| 0 <= j < ops.len() && #[trigger] inserts(ops[j], a) {
                        let j = choose|j: int| 0 <= j < ops.len() && #[trigger] inserts(ops[j], a);
                        if j < pre.len() {
                            assert(inserts(pre[j], a));
                        }
                    }
                    if has_id(s0, a) {
                        let j = choose|j: int| 0 <= j < pre.len() && #[trigger] inserts(pre[j], a);
                        assert(inserts(ops[j], a));
                    }
                }
                assert forall|i: int| 0 <= i < t.len() implies ops.contains(insert_of(#[trigger] t[i])) by {
                    assert(pre.contains(insert_of(s0[i])));
                    let j = choose|j: int| 0 <= j < pre.len() && pre[j] == insert_of(s0[i]);
                    assert(ops[j] == insert_of(s0[i]));
                }
                assert forall|i: int| 0 <= i < t.len() implies (#[trigger] t[i].deleted <==> ops.contains(
                    Operation::Delete { target: t[i].id },
                )) by {
                    let del = Operation::Delete { target: t[i].id };
                    if ops.contains(del) {
                        let j = choose|j: int| 0 <= j < ops.len() && ops[j] == del;
                        assert(j != last);
                        assert(pre[j] == del);
                    }
                    if pre.contains(del) {
                        let j = choose|j: int| 0 <= j < pre.len() && pre[j] == del;
                        assert(ops[j] == del);
                    }
                }
            } else {
                let left = anchor_pos(s0, after);
                lemma_anchor_pos(s0, after);
                lemma_insert_pos(s0, left, id, left + 1);
                let p = insert_pos(s0, left, id, left + 1);
                let x = Node { id, after, ch: char, deleted: false };
                assert(t == s0.insert(p, x));
                s0.insert_ensures(p, x);
                lemma_insert_wf(s0, id, after, char);
                lemma_insert_positions(s0, p, x);
                assert forall|a: OpId| #[trigger] has_id(t, a) <==> exists|j: int| 0 <= j < ops.len() && #[trigger] inserts(ops[j], a) by {
                    if exists|j: int| 0 <= j < ops.len() && #[trigger] inserts(ops[j], a) {
                        let j = choose|j: int| 0 <= j < ops.len() && #[trigger] inserts(ops[j], a);
                        if j < pre.len() {
                            assert(inserts(pre[j], a));
                        }
                    }
                    if has_id(s0, a) {
                        let j = choose|j: int| 0 <= j < pre.len() && #[trigger] inserts(pre[j], a);
                        assert(inserts(ops[j], a));
                    }
                    if a == id {
                        assert(inserts(ops[last], a));
                    }
                }
                assert forall|i: int| 0 <= i < t.len() implies ops.contains(insert_of(#[trigger] t[i])) by {
                    if i == p {
                        assert(ops[last] == insert_of(t[i]));
                    } else {
                        let i0 = if i < p { i } else { i - 1 };
                        assert(t[i] == s0[i0]);
                        assert(pre.contains(insert_of(s0[i0])));
                        let j = choose|j: int| 0 <= j < pre.len() && pre[j] == insert_of(s0[i0]);
                        assert(ops[j] == insert_of(s0[i0]));
                    }
                }
                assert forall|i: int| 0 <= i < t.len() implies (#[trigger] t[i].deleted <==> ops.contains(
                    Operation::Delete { target: t[i].id },
                )) by {
                    let del = Operation::Delete { target: t[i].id };
                    if ops.contains(del) {
                        let j = choose|j: int| 0 <= j < ops.len() && ops[j] == del;
                        assert(j != last);
                        assert(pre[j] == del);
                    }
                    if pre.contains(del) {
                        let j = choose|j: int| 0 <= j < pre.len() && pre[j] == del;
                        assert(ops[j] == del);
                    }
                    if i == p {
                        // no earlier delete can target an id that was not yet inserted
                        if pre.contains(del) {
                            let j = choose|j: int| 0 <= j < pre.len() && pre[j] == del;
                            assert(ready_at(pre, j));
                            let j2 = choose|j2: int| 0 <= j2 < j && #[trigger] inserts(pre[j2], id);
                            assert(has_id(s0, id));
                        }
                    } else {
                        let i0 = if i < p { i } else { i - 1 };
                        assert(t[i] == s0[i0]);
                    }
                }
            }
        },
        Operation::Delete { target } => {
            lemma_delete_shape(s0, target);
            crate::layout::lemma_same_skeleton(s0, t);
            assert forall|a: OpId| #[trigger] has_id(t, a) <==> exists|j: int| 0 <= j < ops.len() && #[trigger] inserts(ops[j], a) by {
                if exists|j: int| 0 <= j < ops.len() && #[trigger] inserts(ops[j], a) {
                    let j = choose|j: int| 0 <= j < ops.len() && #[trigger] inserts(ops[j], a);
                    assert(j != last);
                    assert(inserts(pre[j], a));
                }
                if has_id(s0, a) {
                    let j = choose|j: int| 0 <= j < pre.len() && #[trigger] inserts(pre[j], a);
                    assert(inserts(ops[j], a));
                }
            }
            assert forall|i: int| 0 <= i < t.len() implies ops.contains(insert_of(#[trigger] t[i])) by {
                assert(insert_of(t[i]) == insert_of(s0[i]));
                assert(pre.contains(insert_of(s0[i])));
                let j = choose|j: int| 0 <= j < pre.len() && pre[j] == insert_of(s0[i]);
                assert(ops[j] == insert_of(s0[i]));
            }
            assert forall|i: int| 0 <= i < t.len() implies (#[trigger] t[i].deleted <==> ops.contains(
                Operation::Delete { target: t[i].id },
            )) by {
                let del = Operation::Delete { target: t[i].id };
                if ops.contains(del) {
                    let j = choose|j: int| 0 <= j < ops.len() && ops[j] == del;
                    if j < last {
                        assert(pre[j] == del);
                    }
                }
                if pre.contains(del) {
                    let j = choose|j: int| 0 <= j < pre.len() && pre[j] == del;
                    assert(ops[j] == del);
                }
                if s0[i].id == target {
                    assert(ops[last] == del);
                }
            }
        },
    }
}


/// Two layouts that agree on their first `k` nodes and hold the same nodes agree on
/// the node at `k` too.
proof fn lemma_prefix_agrees(s1: Seq<Node>, s2: Seq<Node>, k: int)
    requires
        wf(s1),
        wf(s2),
        forall|i: int| 0 <= i < s1.len() ==> s2.contains(#[trigger] s1[i]),
        forall|i: int| 0 <= i < s2.len() ==> s1.contains(#[trigger] s2[i]),
        0 <= k <= s1.len(),
        k <= s2.len(),
    ensures
        forall|i: int| 0 <= i < k ==> #[trigger] s1[i] == s2[i],
    decreases k,
{
    if k == 0 {
        return;
    }
    lemma_prefix_agrees(s1, s2, k - 1);
    let m = k - 1;
    let x = s1[m];
    let y = s2[m];
    assert(s2.contains(x));
    assert(s1.contains(y));
    let q2 = choose|q: int| 0 <= q < s2.len() && s2[q] == x;
    let q1 = choose|q: int| 0 <= q < s1.len() && s1[q] == y;
    if q2 < m {
        assert(s1[q2] == s2[q2]);
        assert(s1[q2].id == s1[m].id);
    }
    if q1 < m {
        assert(s1[q1] == s2[q1]);
        assert(s2[q1].id == s2[m].id);
    }
    if x != y {
        assert(q1 != m && q2 != m);
        // the anchors of x and y stand in the agreed prefix, at the same place in both
        assert(origin(s1, m) < m);
        assert(origin(s2, m) < m);
        assert(anchored(s1, x.after));
        assert(anchored(s2, y.after));
        let ox = origin(s1, m);
        let oy = origin(s2, m);
        match x.after {
            None => {},
            Some(a) => {
                lemma_pos_of_range(s1, a);
                assert(s2[ox] == s1[ox]);
                lemma_pos_of(s2, ox);
            },
        }
        match y.after {
            None => {},
            Some(b) => {
                lemma_pos_of_range(s2, b);
                assert(s1[oy] == s2[oy]);
                lemma_pos_of(s1, oy);
            },
        }
        assert(origin(s2, q2) == ox);
        assert(origin(s1, q1) == oy);
        assert(!(origin(s1, m) < origin(s1, q1) && origin(s1, q1) < m));
        assert(!(origin(s2, m) < origin(s2, q2) && origin(s2, q2) < m));
        assert(ox == oy);
        assert(crate::id::id_lt(y.id, x.id));
        assert(crate::id::id_lt(x.id, y.id));
        lemma_id_order_is_strict_total(x.id, y.id, x.id);
    }
}

/// The layout invariant pins the order down: two well-formed layouts that hold the
/// same nodes are the same sequence.
pub proof fn lemma_layout_unique(s1: Seq<Node>, s2: Seq<Node>)
    requires
        wf(s1),
        wf(s2),
        forall|i: int| 0 <= i < s1.len() ==> s2.contains(#[trigger] s1[i]),
        forall|i: int| 0 <= i < s2.len() ==> s1.contains(#[trigger] s2[i]),
    ensures
        s1 == s2,
{
    if s1.len() <= s2.len() {
        lemma_prefix_agrees(s1, s2, s1.len() as int);
        if s1.len() < s2.len() {
            let z = s2[s1.len() as int];
            assert(s1.contains(z));
            let q = choose|q: int| 0 <= q < s1.len() && s1[q] == z;
            assert(s2[q] == s1[q]);
            assert(s2[q].id == s2[s1.len() as int].id);
        }
    } else {
        lemma_prefix_agrees(s1, s2, s2.len() as int);
        let z = s1[s2.len() as int];
        assert(s2.contains(z));
        let q = choose|q: int| 0 <= q < s2.len() && s2[q] == z;
        assert(s2[q] == s1[q]);
        assert(s1[q].id == s1[s2.len() as int].id);
    }
    assert(s1 =~= s2);
}

proof fn lemma_nodes_contained(ops1: Seq<Operation>, ops2: Seq<Operation>)
    requires
        causal(ops1),
        causal(ops2),
        consistent(ops1),
        consistent(ops2),
        forall|op: Operation| ops1.contains(op) <==> ops2.contains(op),
    ensures
        forall|i: int| 0 <= i < replay(ops1).len() ==> replay(ops2).contains(#[trigger] replay(ops1)[i]),
{
    lemma_replay(ops1);
    lemma_replay(ops2);
    let s1 = replay(ops1);
    let s2 = replay(ops2);
    assert forall|i: int| 0 <= i < s1.len() implies s2.contains(#[trigger] s1[i]) by {
        let n = s1[i];
        let e = insert_of(n);
        assert(ops1.contains(e));
        assert(ops2.contains(e));
        let j = choose|j: int| 0 <= j < ops2.len() && ops2[j] == e;
        assert(inserts(ops2[j], n.id));
        assert(has_id(s2, n.id));
        lemma_pos_of_range(s2, n.id);
        let q = pos_of(s2, n.id);
        let e2 = insert_of(s2[q]);
        assert(ops2.contains(e2));
        let j2 = choose|j2: int| 0 <= j2 < ops2.len() && ops2[j2] == e2;
        assert(ops2[j]->id == ops2[j2]->id);
        assert(e == e2);
        let del = Operation::Delete { target: n.id };
        assert(s1[i].deleted == ops1.contains(del));
        assert(s2[q].deleted == ops2.contains(del));
        assert(s2[q] == n);
    }
}

/// Convergence, the guarantee the library exists for: two replicas that start empty
/// and integrate the same set of operations, each in an order that respects
/// causality, end with identical nodes and therefore identical text, whatever the
/// order, and whether or not some operations were delivered more than once. Ids are
/// assumed never to be reused.
pub proof fn lemma_convergence(ops1: Seq<Operation>, ops2: Seq<Operation>)
    requires
        causal(ops1),
        causal(ops2),
        consistent(ops1),
        forall|op: Operation| ops1.contains(op) <==> ops2.contains(op),
    ensures
        replay(ops1) == replay(ops2),
        text_of(replay(ops1)) == text_of(replay(ops2)),
{
    assert forall|i: int, j: int|
        0 <= i < ops2.len() && 0 <= j < ops2.len() && ops2[i] is Insert && ops2[j] is Insert
            && #[trigger] ops2[i]->id == #[trigger] ops2[j]->id implies ops2[i] == ops2[j] by {
        assert(ops2.contains(ops2[i]));
        assert(ops2.contains(ops2[j]));
        let i1 = choose|i1: int| 0 <= i1 < ops1.len() && ops1[i1] == ops2[i];
        let j1 = choose|j1: int| 0 <= j1 < ops1.len() && ops1[j1] == ops2[j];
        assert(ops1[i1]->id == ops1[j1]->id);
    }
    lemma_replay(ops1);
    lemma_replay(ops2);
    lemma_nodes_contained(ops1, ops2);
    lemma_nodes_contained(ops2, ops1);
    lemma_layout_unique(replay(ops1), replay(ops2));
}

/// Redelivery is harmless: once `ops` have been integrated, integrating again any
/// operation among them (as a reconnecting client does when the relay replays the
/// whole history) leaves the nodes unchanged.
pub proof fn lemma_redelivery_is_noop(ops: Seq<Operation>, op: Operation)
    requires
        causal(ops),
        consistent(ops),
        ops.contains(op),
    ensures
        apply_op(replay(ops), op) == replay(ops),
{
    lemma_replay(ops);
    let s = replay(ops);
    let j = choose|j: int| 0 <= j < ops.len() && ops[j] == op;
    match op {
        Operation::Insert { id, .. } => {
            assert(inserts(ops[j], id));
            assert(has_id(s, id));
        },
        Operation::Delete { target } => {
            assert(ready_at(ops, j));
            let j2 = choose|j2: int| 0 <= j2 < j && #[trigger] inserts(ops[j2], target);
            assert(has_id(s, target));
            lemma_pos_of_range(s, target);
            let k = pos_of(s, target);
            assert(s[k].deleted);
            assert(s.update(k, Node { deleted: true, ..s[k] }) =~= s);
        },
    }
}

/// Redelivered operations are accepted: once `ops` have been integrated, every one of
/// them can be integrated again, in particular every known insert, whose id is then
/// already present.
pub proof fn lemma_known_ops_stay_integrable(ops: Seq<Operation>, op: Operation)
    requires
        causal(ops),
        consistent(ops),
        ops.contains(op),
    ensures
        integrable(replay(ops), op),
        op matches Operation::Insert { id, .. } ==> has_id(replay(ops), id),
{
    lemma_replay(ops);
    let s = replay(ops);
    let j = choose|j: int| 0 <= j < ops.len() && ops[j] == op;
    assert(ready_at(ops, j));
    match op {
        Operation::Insert { id, after, .. } => {
            assert(inserts(ops[j], id));
            if let Some(a) = after {
                let j2 = choose|j2: int| 0 <= j2 < j && #[trigger] inserts(ops[j2], a);
                assert(has_id(s, a));
            }
        },
        Operation::Delete { .. } => {},
    }
}

/// Replaying a whole known history again on top of a replica changes nothing.
pub proof fn lemma_history_redelivery(ops: Seq<Operation>, again: Seq<Operation>)
    requires
        causal(ops),
        consistent(ops),
        forall|i: int| 0 <= i < again.len() ==> ops.contains(#[trigger] again[i]),
    ensures
        replay(ops + again) == replay(ops),
    decreases again.len(),
{
    if again.len() == 0 {
        assert(ops + again =~= ops);
    } else {
        let rest = again.drop_last();
        assert forall|i: int| 0 <= i < rest.len() implies ops.contains(#[trigger] rest[i]) by {
            assert(rest[i] == again[i]);
        }
        lemma_history_redelivery(ops, rest);
        assert((ops + again).drop_last() =~= ops + rest);
        assert((ops + again).last() == again.last());
        assert(ops.contains(again[again.len() - 1]));
        lemma_redelivery_is_noop(ops, again.last());
    }
}


/// Integrating an insert of a fresh id: the layout stays well formed when the anchor is
/// present, the ids are the old ones plus the new one, and the nodes are the old ones
/// plus the new node.
proof fn lemma_fresh_insert(s: Seq<Node>, id: OpId, after: Option<OpId>, ch: char)
    requires
        wf(s),
        anchored(s, after),
        !has_id(s, id),
    ensures
        wf(rga_insert(s, id, after, ch)),
        forall|a: OpId| #[trigger] has_id(rga_insert(s, id, after, ch), a) <==> (has_id(s, a) || a == id),
        forall|i: int| 0 <= i < rga_insert(s, id, after, ch).len() ==> (s.contains(
            #[trigger] rga_insert(s, id, after, ch)[i],
        ) || rga_insert(s, id, after, ch)[i] == (Node { id, after, ch, deleted: false })),
        forall|i: int| 0 <= i < s.len() ==> rga_insert(s, id, after, ch).contains(#[trigger] s[i]),
        rga_insert(s, id, after, ch).contains(Node { id, after, ch, deleted: false }),
{
    let left = anchor_pos(s, after);
    lemma_anchor_pos(s, after);
    lemma_insert_pos(s, left, id, left + 1);
    let p = insert_pos(s, left, id, left + 1);
    let x = Node { id, after, ch, deleted: false };
    let t = s.insert(p, x);
    assert(t == rga_insert(s, id, after, ch));
    s.insert_ensures(p, x);
    lemma_insert_wf(s, id, after, ch);
    lemma_insert_positions(s, p, x);
    assert forall|i: int| 0 <= i < t.len() implies (s.contains(#[trigger] t[i]) || t[i] == x) by {
        if i < p {
            assert(t[i] == s[i]);
        } else if i > p {
            assert(t[i] == s[i - 1]);
        }
    }
    assert forall|i: int| 0 <= i < s.len() implies t.contains(#[trigger] s[i]) by {
        if i < p {
            assert(t[i] == s[i]);
        } else {
            assert(t[i + 1] == s[i]);
        }
    }
    assert(t[p] == x);
}

/// Two concurrent inserts commute: from any well-formed layout, integrating two
/// inserts of distinct fresh ids whose anchors are both present gives the same nodes
/// in either order.
pub proof fn lemma_concurrent_inserts_commute(
    s: Seq<Node>,
    id1: OpId,
    after1: Option<OpId>,
    ch1: char,
    id2: OpId,
    after2: Option<OpId>,
    ch2: char,
)
    requires
        wf(s),
        anchored(s, after1),
        anchored(s, after2),
        !has_id(s, id1),
        !has_id(s, id2),
        id1 != id2,
    ensures
        rga_insert(rga_insert(s, id1, after1, ch1), id2, after2, ch2) == rga_insert(
            rga_insert(s, id2, after2, ch2),
            id1,
            after1,
            ch1,
        ),
{
    let x1 = Node { id: id1, after: after1, ch: ch1, deleted: false };
    let x2 = Node { id: id2, after: after2, ch: ch2, deleted: false };
    let t1 = rga_insert(s, id1, after1, ch1);
    let t2 = rga_insert(s, id2, after2, ch2);
    lemma_fresh_insert(s, id1, after1, ch1);
    lemma_fresh_insert(s, id2, after2, ch2);
    match after2 {
        None => {},
        Some(a) => {
            assert(has_id(t1, a));
        },
    }
    match after1 {
        None => {},
        Some(a) => {
            assert(has_id(t2, a));
        },
    }
    assert(!has_id(t1, id2));
    assert(!has_id(t2, id1));
    lemma_fresh_insert(t1, id2, after2, ch2);
    lemma_fresh_insert(t2, id1, after1, ch1);
    let u1 = rga_insert(t1, id2, after2, ch2);
    let u2 = rga_insert(t2, id1, after1, ch1);
    assert forall|i: int| 0 <= i < u1.len() implies u2.contains(#[trigger] u1[i]) by {
        let n = u1[i];
        if n == x2 {
        } else {
            assert(t1.contains(n));
            let j = choose|j: int| 0 <= j < t1.len() && t1[j] == n;
            if n != x1 {
                assert(s.contains(t1[j]));
                let k = choose|k: int| 0 <= k < s.len() && s[k] == n;
                assert(t2.contains(s[k]));
                let m = choose|m: int| 0 <= m < t2.len() && t2[m] == n;
                assert(u2.contains(t2[m]));
            }
        }
    }
    assert forall|i: int| 0 <= i < u2.len() implies u1.contains(#[trigger] u2[i]) by {
        let n = u2[i];
        if n == x1 {
        } else {
            assert(t2.contains(n));
            let j = choose|j: int| 0 <= j < t2.len() && t2[j] == n;
            if n != x2 {
                assert(s.contains(t2[j]));
                let k = choose|k: int| 0 <= k < s.len() && s[k] == n;
                assert(t1.contains(s[k]));
                let m = choose|m: int| 0 <= m < t1.len() && t1[m] == n;
                assert(u1.contains(t1[m]));
            }
        }
    }
    lemma_layout_unique(u1, u2);
}

} // verus!
