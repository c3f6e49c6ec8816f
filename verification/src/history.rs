//! A document's history: the effect of each call on a `Doc` as a step of a state
//! machine, and the laws that hold over whole call sequences: the site id never
//! changes, every id a site mints sorts above every id it minted or received
//! before, and operations minted by sites with distinct site ids never reuse an id,
//! so replicas that receive them converge.

use vstd::prelude::*;
use crate::convergence::{causal, consistent, replay, lemma_convergence};
use crate::doc::after_for;
use crate::id::{OpId, id_lt};
use crate::layout::{visible_ids, text_of};
use crate::op::{Operation, apply_op, integrable};
use crate::rga::Node;

verus! {

/// What a `Doc` holds: its site id, the counter of the next id it mints, its nodes.
pub struct DocState {
    pub site: u32,
    pub clock: int,
    pub nodes: Seq<Node>,
}

/// A call that changes a `Doc`.
pub enum Edit {
    /// `insert_local(index, ch)`
    InsertLocal { index: int, ch: char },
    /// `delete_local(index)`
    DeleteLocal { index: int },
    /// `apply_remote(op)`
    Remote { op: Operation },
}

/// The effect of one call: the next state, and the operation a local edit returns.
pub open spec fn step(st: DocState, e: Edit) -> (DocState, Option<Operation>) {
    match e {
        Edit::InsertLocal { index, ch } => {
            let op = Operation::Insert {
                id: OpId { site_id: st.site, counter: st.clock as u64 },
                after: after_for(st.nodes, index),
                char: ch,
            };
            (DocState { site: st.site, clock: st.clock + 1, nodes: apply_op(st.nodes, op) }, Some(op))
        },
        Edit::DeleteLocal { index } => {
            let op = Operation::Delete { target: visible_ids(st.nodes)[index] };
            (DocState { site: st.site, clock: st.clock, nodes: apply_op(st.nodes, op) }, Some(op))
        },
        Edit::Remote { op } => {
            let clock = match op {
                Operation::Insert { id, .. } => if st.clock > id.counter {
                    st.clock
                } else {
                    id.counter + 1
                },
                Operation::Delete { .. } => st.clock,
            };
            (DocState { site: st.site, clock, nodes: apply_op(st.nodes, op) }, None)
        },
    }
}

/// The call is one that `Doc` accepts in that state (its `requires`).
pub open spec fn allowed(st: DocState, e: Edit) -> bool {
    match e {
        Edit::InsertLocal { .. } => 0 <= st.clock < u64::MAX,
        Edit::DeleteLocal { index } => 0 <= index < text_of(st.nodes).len(),
        Edit::Remote { op } => integrable(st.nodes, op) && (op matches Operation::Insert { id, .. }
            ==> id.counter < u64::MAX),
    }
}

/// The state after the calls `es`, starting from `st`.
pub open spec fn run(st: DocState, es: Seq<Edit>) -> DocState
    decreases es.len(),
{
    if es.len() == 0 {
        st
    } else {
        step(run(st, es.drop_last()), es.last()).0
    }
}

/// The state just before call `k`.
pub open spec fn state_at(st: DocState, es: Seq<Edit>, k: int) -> DocState {
    run(st, es.take(k))
}

/// The operation that call `k` returns, if it is a local edit.
pub open spec fn minted_at(st: DocState, es: Seq<Edit>, k: int) -> Option<Operation> {
    step(state_at(st, es, k), es[k]).1
}

/// The id call `k` brings into the document: the id a local insert mints, or the id
/// of a remote insert.
pub open spec fn inserted_id_at(st: DocState, es: Seq<Edit>, k: int) -> Option<OpId> {
    match es[k] {
        Edit::InsertLocal { .. } => Some(OpId { site_id: state_at(st, es, k).site, counter: state_at(st, es, k).clock as u64 }),
        Edit::Remote { op: Operation::Insert { id, .. } } => Some(id),
        _ => None,
    }
}

/// Every call of the history is one the `Doc` accepts, from a clock that is not negative.
pub open spec fn allowed_run(st: DocState, es: Seq<Edit>) -> bool {
    &&& st.clock >= 0
    &&& forall|k: int| 0 <= k < es.len() ==> #[trigger] allowed(state_at(st, es, k), es[k])
}

proof fn lemma_state_step(st: DocState, es: Seq<Edit>, k: int)
    requires
        0 <= k < es.len(),
    ensures
        state_at(st, es, k + 1) == step(state_at(st, es, k), es[k]).0,
{
    assert(es.take(k + 1).drop_last() =~= es.take(k));
    assert(es.take(k + 1).last() == es[k]);
}

/// No call ever changes a document's site id, and every insert it mints carries it.
pub proof fn lemma_site_never_changes(st: DocState, es: Seq<Edit>, k: int)
    requires
        0 <= k <= es.len(),
    ensures
        state_at(st, es, k).site == st.site,
        k < es.len() ==> (minted_at(st, es, k) matches Some(Operation::Insert { id, .. }) ==> id.site_id
            == st.site),
    decreases k,
{
    if k > 0 {
        lemma_site_never_changes(st, es, k - 1);
        lemma_state_step(st, es, k - 1);
    } else {
        assert(es.take(0) =~= Seq::<Edit>::empty());
    }
}

/// The clock never goes back, and it stays above every id the document has minted
/// or received.
proof fn lemma_clock(st: DocState, es: Seq<Edit>, k: int)
    requires
        allowed_run(st, es),
        0 <= k <= es.len(),
    ensures
        state_at(st, es, k).clock >= st.clock,
        forall|j: int| 0 <= j < k ==> (#[trigger] inserted_id_at(st, es, j) matches Some(a) ==> a.counter
            < state_at(st, es, k).clock),
    decreases k,
{
    if k == 0 {
        assert(es.take(0) =~= Seq::<Edit>::empty());
    } else {
        lemma_clock(st, es, k - 1);
        lemma_state_step(st, es, k - 1);
        assert(allowed(state_at(st, es, k - 1), es[k - 1]));
    }
}

/// The Lamport clock law: the id that a local insert mints sorts above every id the
/// document minted or received before it, and carries the document's site id.
pub proof fn lemma_minted_ids_increase(st: DocState, es: Seq<Edit>, j: int, k: int)
    requires
        allowed_run(st, es),
        0 <= j < k < es.len(),
        es[k] is InsertLocal,
        inserted_id_at(st, es, j) is Some,
    ensures
        minted_at(st, es, k) == Some(Operation::Insert {
            id: inserted_id_at(st, es, k)->0,
            after: after_for(state_at(st, es, k).nodes, es[k]->InsertLocal_index),
            char: es[k]->ch,
        }),
        inserted_id_at(st, es, k)->0.site_id == st.site,
        inserted_id_at(st, es, j)->0.counter < inserted_id_at(st, es, k)->0.counter,
        id_lt(inserted_id_at(st, es, j)->0, inserted_id_at(st, es, k)->0),
{
    lemma_clock(st, es, k);
    lemma_site_never_changes(st, es, k);
    assert(allowed(state_at(st, es, k), es[k]));
}

/// Histories of documents with pairwise distinct site ids, each made only of calls
/// its document accepts.
pub open spec fn valid_sites(hs: Seq<(DocState, Seq<Edit>)>) -> bool {
    &&& forall|h: int| 0 <= h < hs.len() ==> #[trigger] allowed_run(hs[h].0, hs[h].1)
    &&& forall|h1: int, h2: int|
        0 <= h1 < hs.len() && 0 <= h2 < hs.len() && h1 != h2 ==> #[trigger] hs[h1].0.site != #[trigger] hs[h2].0.site
}

/// `op` was returned by some local edit in one of the histories.
pub open spec fn minted(hs: Seq<(DocState, Seq<Edit>)>, op: Operation) -> bool {
    exists|h: int, k: int|
        0 <= h < hs.len() && 0 <= k < hs[h].1.len() && #[trigger] minted_at(hs[h].0, hs[h].1, k) == Some(op)
}

proof fn lemma_minted_insert_id(st: DocState, es: Seq<Edit>, k: int, op: Operation)
    requires
        0 <= k < es.len(),
        minted_at(st, es, k) == Some(op),
        op is Insert,
    ensures
        es[k] is InsertLocal,
        inserted_id_at(st, es, k) == Some(op->id),
        op->id.site_id == st.site,
{
    lemma_site_never_changes(st, es, k);
}

/// Sites with distinct site ids never reuse an id: any operations minted by their
/// local edits, in any delivery order, satisfy `consistent`.
pub proof fn lemma_minted_consistent(hs: Seq<(DocState, Seq<Edit>)>, ops: Seq<Operation>)
    requires
        valid_sites(hs),
        forall|i: int| 0 <= i < ops.len() ==> minted(hs, #[trigger] ops[i]),
    ensures
        consistent(ops),
{
    assert forall|i: int, j: int|
        0 <= i < ops.len() && 0 <= j < ops.len() && ops[i] is Insert && ops[j] is Insert
            && #[trigger] ops[i]->id == #[trigger] ops[j]->id implies ops[i] == ops[j] by {
        assert(minted(hs, ops[i]));
        assert(minted(hs, ops[j]));
        let (h1, k1) = choose|h: int, k: int|
            0 <= h < hs.len() && 0 <= k < hs[h].1.len() && #[trigger] minted_at(hs[h].0, hs[h].1, k) == Some(ops[i]);
        let (h2, k2) = choose|h: int, k: int|
            0 <= h < hs.len() && 0 <= k < hs[h].1.len() && #[trigger] minted_at(hs[h].0, hs[h].1, k) == Some(ops[j]);
        lemma_minted_insert_id(hs[h1].0, hs[h1].1, k1, ops[i]);
        lemma_minted_insert_id(hs[h2].0, hs[h2].1, k2, ops[j]);
        if h1 != h2 {
            assert(hs[h1].0.site != hs[h2].0.site);
        } else if k1 < k2 {
            assert(allowed_run(hs[h1].0, hs[h1].1));
            lemma_minted_ids_increase(hs[h1].0, hs[h1].1, k1, k2);
        } else if k2 < k1 {
            assert(allowed_run(hs[h1].0, hs[h1].1));
            lemma_minted_ids_increase(hs[h1].0, hs[h1].1, k2, k1);
        }
    }
}

/// Convergence of real replicas: operations minted by the local edits of documents
/// with distinct site ids, delivered to two fresh replicas in any two causal orders
/// of the same set, give both replicas the same nodes and the same text.
pub proof fn lemma_minted_convergence(
    hs: Seq<(DocState, Seq<Edit>)>,
    ops1: Seq<Operation>,
    ops2: Seq<Operation>,
)
    requires
        valid_sites(hs),
        forall|i: int| 0 <= i < ops1.len() ==> minted(hs, #[trigger] ops1[i]),
        causal(ops1),
        causal(ops2),
        forall|op: Operation| ops1.contains(op) <==> ops2.contains(op),
    ensures
        replay(ops1) == replay(ops2),
        text_of(replay(ops1)) == text_of(replay(ops2)),
{
    lemma_minted_consistent(hs, ops1);
    lemma_convergence(ops1, ops2);
}


/// Replaying a returned operation on a replica that holds the same nodes reproduces
/// the local edit: the replica ends with the same nodes, hence the same text.
pub proof fn lemma_replica_reproduces_local_edit(st: DocState, e: Edit, replica: DocState)
    requires
        replica.nodes == st.nodes,
        e is InsertLocal || e is DeleteLocal,
    ensures
        step(st, e).1 is Some,
        step(replica, Edit::Remote { op: step(st, e).1->0 }).0.nodes == step(st, e).0.nodes,
        text_of(step(replica, Edit::Remote { op: step(st, e).1->0 }).0.nodes) == text_of(
            step(st, e).0.nodes,
        ),
{
}

/// The operations of a history of remote deliveries, in order.
pub open spec fn remote_ops(es: Seq<Edit>) -> Seq<Operation> {
    es.map_values(|e: Edit| e->op)
}

/// A document that starts with no nodes and only receives remote operations holds
/// exactly the replay of those operations.
pub proof fn lemma_remote_history_replays(st: DocState, es: Seq<Edit>)
    requires
        st.nodes == Seq::<Node>::empty(),
        forall|k: int| 0 <= k < es.len() ==> #[trigger] es[k] is Remote,
    ensures
        run(st, es).nodes == replay(remote_ops(es)),
    decreases es.len(),
{
    if es.len() > 0 {
        let d = es.drop_last();
        assert forall|k: int| 0 <= k < d.len() implies #[trigger] d[k] is Remote by {
            assert(d[k] == es[k]);
        }
        lemma_remote_history_replays(st, d);
        assert(remote_ops(es).drop_last() =~= remote_ops(d));
        assert(es.last() is Remote);
        assert(remote_ops(es).last() == es.last()->op);
    } else {
        assert(remote_ops(es) =~= Seq::<Operation>::empty());
    }
}

/// Replicas converge: two documents (any site ids) that start with no nodes and
/// receive the operations minted by sites with distinct site ids, each in its own
/// causal order of the same set, end with the same nodes and the same text.
pub proof fn lemma_replicas_converge(
    hs: Seq<(DocState, Seq<Edit>)>,
    st1: DocState,
    es1: Seq<Edit>,
    st2: DocState,
    es2: Seq<Edit>,
)
    requires
        valid_sites(hs),
        st1.nodes == Seq::<Node>::empty(),
        st2.nodes == Seq::<Node>::empty(),
        forall|k: int| 0 <= k < es1.len() ==> #[trigger] es1[k] is Remote,
        forall|k: int| 0 <= k < es2.len() ==> #[trigger] es2[k] is Remote,
        forall|i: int| 0 <= i < es1.len() ==> minted(hs, #[trigger] remote_ops(es1)[i]),
        causal(remote_ops(es1)),
        causal(remote_ops(es2)),
        forall|op: Operation| remote_ops(es1).contains(op) <==> remote_ops(es2).contains(op),
    ensures
        run(st1, es1).nodes == run(st2, es2).nodes,
        text_of(run(st1, es1).nodes) == text_of(run(st2, es2).nodes),
{
    lemma_remote_history_replays(st1, es1);
    lemma_remote_history_replays(st2, es2);
    assert forall|i: int| 0 <= i < remote_ops(es1).len() implies minted(hs, #[trigger] remote_ops(es1)[i]) by {
        assert(remote_ops(es1)[i] == remote_ops(es1)[i]);
    }
    lemma_minted_convergence(hs, remote_ops(es1), remote_ops(es2));
}

} // verus!
