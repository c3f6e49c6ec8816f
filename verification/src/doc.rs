//! A single site's view of a collaboratively-edited document.

use vstd::prelude::*;
use crate::id::{OpId, id_lt};
use crate::layout::{
    wf, has_id, anchored, anchor_pos, visible_ids, text_of, rga_insert, lemma_pos_of,
    lemma_nth_visible, lemma_newest_insert_pos, lemma_text_insert, lemma_text_tombstone,
    lemma_visible_step, lemma_insert_positions,
};
use crate::op::{Operation, apply_op, integrable};
use crate::rga::{Node, Rga};
use crate::history::{DocState, Edit, step};

verus! {

/// The anchor a local insert at visible position `index` refers to: the id of the
/// visible character at `index - 1`, or `None` at the very start (and also past the
/// end of the text, where there is no character at `index - 1`).
pub open spec fn after_for(s: Seq<Node>, index: int) -> Option<OpId> {
    if index == 0 || index - 1 >= visible_ids(s).len() {
        None
    } else {
        Some(visible_ids(s)[index - 1])
    }
}

/// A single site's view of a collaboratively-edited document.
///
/// Wraps an [`Rga`] and adds the bookkeeping needed to translate plain-text indices
/// into the id-based references the CRDT needs, and to mint fresh ids for this site's
/// own edits.
///
/// `next_counter` is a Lamport clock: it advances on each local edit and also whenever
/// a remote insert is observed, to at least one past that op's counter. So every id
/// this site has seen sorts below the next id it mints, which is what makes a local
/// insert land directly after the character it was typed after.
#[derive(Debug, Clone)]
pub struct Doc {
    site_id: u32,
    next_counter: u64,
    rga: Rga,
}

impl Doc {
    /// The site id this document mints its ids with.
    pub closed spec fn site(&self) -> u32 {
        self.site_id
    }

    /// The counter of the next id this site mints.
    pub closed spec fn clock(&self) -> u64 {
        self.next_counter
    }

    /// All nodes of the document, tombstones included, in document order.
    pub closed spec fn nodes(&self) -> Seq<Node> {
        self.rga@
    }

    /// The document as a state of its history (see `history`).
    pub open spec fn state(&self) -> DocState {
        DocState { site: self.site(), clock: self.clock() as int, nodes: self.nodes() }
    }

    /// The visible text.
    pub open spec fn text(&self) -> Seq<char> {
        text_of(self.nodes())
    }

    /// The well-formedness of a document: its nodes keep the RGA layout invariant and
    /// every id it holds sorts below the next id it will mint.
    pub open spec fn wf(&self) -> bool {
        &&& wf(self.nodes())
        &&& forall|i: int| 0 <= i < self.nodes().len() ==> #[trigger] self.nodes()[i].id.counter < self.clock()
    }

    pub fn new(site_id: u32) -> (r: Self)
        ensures
            r.wf(),
            r.site() == site_id,
            r.clock() == 0,
            r.nodes() == Seq::<Node>::empty(),
            r.state() == (DocState { site: site_id, clock: 0, nodes: Seq::<Node>::empty() }),
    {
        Doc { site_id, next_counter: 0, rga: Rga::new() }
    }

    pub fn site_id(&self) -> (r: u32)
        ensures
            r == self.site(),
    {
        self.site_id
    }

    /// The counter of the next id this site mints.
    pub fn next_counter(&self) -> (r: u64)
        ensures
            r == self.clock(),
    {
        self.next_counter
    }

    /// Whether `apply_remote` accepts `op` now: an insert's anchor must be present and
    /// its counter must leave room for the clock to move past it.
    pub fn can_apply_remote(&self, op: &Operation) -> (r: bool)
        ensures
            r == (integrable(self.nodes(), *op) && (op matches Operation::Insert { id, .. } ==> id.counter
                < u64::MAX)),
            *op matches Operation::Insert { id, after, .. } ==> (r <==> (id.counter < u64::MAX && (
            after matches Some(a) ==> has_id(self.nodes(), a)))),
            *op is Delete ==> r,
    {
        match op {
            Operation::Insert { id, after, .. } => {
                if id.counter == u64::MAX {
                    return false;
                }
                match after {
                    None => true,
                    Some(a) => self.rga.contains_id(*a),
                }
            },
            Operation::Delete { .. } => true,
        }
    }

    /// Number of visible characters.
    pub fn len(&self) -> (r: usize)
        ensures
            r == visible_ids(self.nodes()).len(),
            r == self.text().len(),
    {
        proof {
            crate::layout::lemma_visible_len(self.nodes());
        }
        self.rga.visible_len()
    }

    pub fn is_empty(&self) -> (r: bool)
        ensures
            r == (self.text().len() == 0),
    {
        self.len() == 0
    }

    fn fresh_id(&mut self) -> (id: OpId)
        requires
            old(self).clock() < u64::MAX,
        ensures
            id == (OpId { site_id: old(self).site(), counter: old(self).clock() }),
            final(self).clock() == old(self).clock() + 1,
            final(self).site() == old(self).site(),
            final(self).nodes() == old(self).nodes(),
    {
        let id = OpId::new(self.site_id, self.next_counter);
        self.next_counter += 1;
        id
    }

    /// Advance the Lamport clock past an id observed from another site.
    fn observe(&mut self, id: OpId)
        requires
            id.counter < u64::MAX,
        ensures
            final(self).clock() == (if old(self).clock() > id.counter {
                old(self).clock()
            } else {
                (id.counter + 1) as u64
            }),
            final(self).site() == old(self).site(),
            final(self).nodes() == old(self).nodes(),
    {
        if self.next_counter <= id.counter {
            self.next_counter = id.counter + 1;
        }
    }

    /// The id to use as `after` for an insert at visible-text position `index`.
    fn after_for_index(&self, index: usize) -> (r: Option<OpId>)
        ensures
            r == after_for(self.nodes(), index as int),
    {
        if index == 0 {
            None
        } else {
            self.rga.nth_visible_id(index - 1)
        }
    }

    /// Insert `ch` at visible-text position `index`, generating a fresh local id.
    /// Returns the [`Operation`] to broadcast to other sites. An `index` past the end
    /// of the text has no character before it and inserts at the start.
    pub fn insert_local(&mut self, index: usize, ch: char) -> (op: Operation)
        requires
            old(self).wf(),
            old(self).clock() < u64::MAX,
        ensures
            final(self).wf(),
            op == (Operation::Insert {
                id: OpId { site_id: old(self).site(), counter: old(self).clock() },
                after: after_for(old(self).nodes(), index as int),
                char: ch,
            }),
            final(self).nodes() == apply_op(old(self).nodes(), op),
            final(self).site() == old(self).site(),
            final(self).clock() == old(self).clock() + 1,
            step(old(self).state(), Edit::InsertLocal { index: index as int, ch }) == (
            final(self).state(),
            Some(op),
            ),
            index <= old(self).text().len() ==> final(self).text() == old(self).text().insert(
                index as int,
                ch,
            ),
            index > old(self).text().len() ==> final(self).text() == seq![ch] + old(self).text(),
            index <= old(self).text().len() ==> visible_ids(final(self).nodes())
                == visible_ids(old(self).nodes()).insert(index as int, op->id),
            index > old(self).text().len() ==> visible_ids(final(self).nodes()) == seq![op->id]
                + visible_ids(old(self).nodes()),
    {
        let ghost s = self.nodes();
        let after = self.after_for_index(index);
        let id = self.fresh_id();
        proof {
            crate::layout::lemma_visible_len(s);
            assert(!has_id(s, id)) by {
                if has_id(s, id) {
                    let k = choose|k: int| 0 <= k < s.len() && #[trigger] s[k].id == id;
                    assert(s[k].id.counter < old(self).clock());
                }
            }
            assert forall|i: int| 0 <= i < s.len() implies id_lt(#[trigger] s[i].id, id) by {
                assert(s[i].id.counter < old(self).clock());
            }
            let left = anchor_pos(s, after);
            let x = Node { id, after, ch, deleted: false };
            if after is Some {
                let k = lemma_nth_visible(s, index - 1);
                lemma_pos_of(s, k);
                assert(left == k);
                lemma_visible_step(s, k);
                assert(anchored(s, after));
            } else {
                assert(s.take(0) =~= Seq::<Node>::empty());
            }
            lemma_newest_insert_pos(s, left, id);
            lemma_text_insert(s, left + 1, x);
            lemma_insert_positions(s, left + 1, x);
            assert(rga_insert(s, id, after, ch) == s.insert(left + 1, x));
            if index > text_of(s).len() {
                assert(text_of(s).insert(0, ch) =~= seq![ch] + text_of(s));
                assert(visible_ids(s).insert(0, id) =~= seq![id] + visible_ids(s));
            }
        }
        self.rga.integrate_insert(id, after, ch);
        proof {
            let t = self.nodes();
            assert forall|i: int| 0 <= i < t.len() implies #[trigger] t[i].id.counter < self.clock() by {
                let x = Node { id, after, ch, deleted: false };
                let p = anchor_pos(s, after) + 1;
                s.insert_ensures(p, x);
                if i < p {
                    assert(t[i] == s[i]);
                } else if i > p {
                    assert(t[i] == s[i - 1]);
                }
            }
        }
        Operation::Insert { id, after, char: ch }
    }

    /// Delete the character at visible-text position `index`.
    /// Returns the [`Operation`] to broadcast to other sites.
    pub fn delete_local(&mut self, index: usize) -> (op: Operation)
        requires
            old(self).wf(),
            index < old(self).text().len(),
        ensures
            final(self).wf(),
            op == (Operation::Delete { target: visible_ids(old(self).nodes())[index as int] }),
            final(self).nodes() == apply_op(old(self).nodes(), op),
            final(self).site() == old(self).site(),
            final(self).clock() == old(self).clock(),
            final(self).text() == old(self).text().remove(index as int),
            step(old(self).state(), Edit::DeleteLocal { index: index as int }) == (
            final(self).state(),
            Some(op),
            ),
            visible_ids(final(self).nodes()) == visible_ids(old(self).nodes()).remove(index as int),
    {
        let ghost s = self.nodes();
        proof {
            crate::layout::lemma_visible_len(s);
        }
        let target = self.rga.nth_visible_id(index).unwrap();
        proof {
            let k = lemma_nth_visible(s, index as int);
            lemma_pos_of(s, k);
            lemma_text_tombstone(s, k);
        }
        self.rga.integrate_delete(target);
        proof {
            let t = self.nodes();
            crate::layout::lemma_delete_shape(s, target);
            assert forall|i: int| 0 <= i < t.len() implies #[trigger] t[i].id.counter < self.clock() by {
                assert(t[i].id == s[i].id);
            }
        }
        Operation::Delete { target }
    }

    /// Integrate an operation received from another site. An insert whose id is
    /// already present (a redelivered operation) leaves the nodes unchanged; a delete
    /// of an unknown target is a no-op.
    pub fn apply_remote(&mut self, op: Operation)
        requires
            old(self).wf(),
            integrable(old(self).nodes(), op),
            op matches Operation::Insert { id, .. } ==> id.counter < u64::MAX,
        ensures
            final(self).wf(),
            final(self).nodes() == apply_op(old(self).nodes(), op),
            final(self).site() == old(self).site(),
            match op {
                Operation::Insert { id, .. } => final(self).clock() == (if old(self).clock() > id.counter {
                    old(self).clock()
                } else {
                    (id.counter + 1) as u64
                }),
                Operation::Delete { .. } => final(self).clock() == old(self).clock(),
            },
            step(old(self).state(), Edit::Remote { op }) == (final(self).state(), None::<Operation>),
    {
        let ghost s = self.nodes();
        match op {
            Operation::Insert { id, after, char } => {
                self.observe(id);
                self.rga.integrate_insert(id, after, char);
                proof {
                    let t = self.nodes();
                    if !has_id(s, id) {
                        let x = Node { id, after, ch: char, deleted: false };
                        let left = anchor_pos(s, after);
                        crate::layout::lemma_anchor_pos(s, after);
                        crate::layout::lemma_insert_pos(s, left, id, left + 1);
                        let p = crate::layout::insert_pos(s, left, id, left + 1);
                        s.insert_ensures(p, x);
                        assert forall|i: int| 0 <= i < t.len() implies #[trigger] t[i].id.counter < self.clock() by {
                            if i < p {
                                assert(t[i] == s[i]);
                            } else if i > p {
                                assert(t[i] == s[i - 1]);
                            }
                        }
                    }
                }
            },
            Operation::Delete { target } => {
                self.rga.integrate_delete(target);
                proof {
                    let t = self.nodes();
                    crate::layout::lemma_delete_shape(s, target);
                    assert forall|i: int| 0 <= i < t.len() implies #[trigger] t[i].id.counter < self.clock() by {
                        assert(t[i].id == s[i].id);
                    }
                }
            },
        }
    }

    /// The visible text.
    pub fn to_string(&self) -> (r: String)
        ensures
            r@ == self.text(),
    {
        self.rga.to_string()
    }
}

} // verus!
