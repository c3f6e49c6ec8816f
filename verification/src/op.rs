//! Edit operations, the only thing that ever crosses the network.

use vstd::prelude::*;
use crate::id::OpId;
use crate::layout::{rga_insert, rga_delete, anchored};
use crate::rga::Node;

verus! {

/// A single edit, as generated locally or received from a remote site.
///
/// Operations are the only thing that ever crosses the network: the relay server
/// just relays and stores these, it never needs to understand RGA integration itself.
#[derive(Debug, Clone, PartialEq, Eq, Structural)]
pub enum Operation {
    Insert { id: OpId, after: Option<OpId>, char: char },
    Delete { target: OpId },
}

/// The node sequence after integrating `op`.
pub open spec fn apply_op(s: Seq<Node>, op: Operation) -> Seq<Node> {
    match op {
        Operation::Insert { id, after, char } => rga_insert(s, id, after, char),
        Operation::Delete { target } => rga_delete(s, target),
    }
}

/// The id an operation must wait behind, if any: an insert waits on its `after`
/// id, a delete on the id of the character it targets.
pub open spec fn prerequisite(op: Operation) -> Option<OpId> {
    match op {
        Operation::Insert { after, .. } => after,
        Operation::Delete { target } => Some(target),
    }
}

/// `op` can be integrated into `s` without failing: an insert's anchor is present.
pub open spec fn integrable(s: Seq<Node>, op: Operation) -> bool {
    match op {
        Operation::Insert { after, .. } => anchored(s, after),
        Operation::Delete { .. } => true,
    }
}

/// An insert can be integrated exactly when its anchor is the start of the document
/// or a node that is present, whether or not its own id is already known (a
/// redelivered insert is accepted, and is then a no-op); a delete always can.
pub proof fn lemma_integrable(s: Seq<Node>, op: Operation)
    ensures
        op matches Operation::Insert { after, .. } ==> (integrable(s, op) <==> (after is None || (
        after matches Some(a) && exists|i: int| 0 <= i < s.len() && s[i].id == a))),
        op is Delete ==> integrable(s, op),
{
}

} // verus!
