//! The replicated growable array itself.

use vstd::prelude::*;
use crate::id::OpId;
use crate::layout::{
    wf, anchored, has_id, anchor_pos, origin, insert_pos, rga_insert, rga_delete, visible_ids, text_of,
    lemma_anchor_pos, lemma_insert_wf, lemma_pos_of, lemma_delete_shape, lemma_visible_step,
    lemma_visible_len, lemma_visible_concat,
};

verus! {

/// One character in the sequence, tombstoned rather than removed on delete so that
/// concurrent operations which reference it (e.g. "insert after this id") still resolve.
#[derive(Debug, Clone, Copy)]
pub struct Node {
    pub id: OpId,
    pub after: Option<OpId>,
    pub ch: char,
    pub deleted: bool,
}

/// The Replicated Growable Array: an ordered list of nodes (including tombstones) that
/// every replica converges on regardless of the order operations are integrated in.
#[derive(Debug, Clone, Default)]
pub struct Rga {
    nodes: Vec<Node>,
}

impl View for Rga {
    type V = Seq<Node>;

    closed spec fn view(&self) -> Seq<Node> {
        self.nodes@
    }
}

/// Appends a character to a `String` (std's `String::push`).
pub assume_specification[ String::push ](s: &mut String, ch: char)
    ensures
        final(s)@ == old(s)@.push(ch),
;

impl Rga {
    pub fn new() -> (r: Self)
        ensures
            r@ == Seq::<Node>::empty(),
            wf(r@),
    {
        Rga { nodes: Vec::new() }
    }

    /// The position of the first node carrying `id`.
    fn index_of(&self, id: OpId) -> (r: Option<usize>)
        ensures
            match r {
                Some(i) => i < self@.len() && self@[i as int].id == id
                    && forall|j: int| 0 <= j < i ==> self@[j].id != id,
                None => !has_id(self@, id),
            },
    {
        let mut i: usize = 0;
        while i < self.nodes.len()
            invariant
                i <= self@.len(),
                self@ == self.nodes@,
                forall|j: int| 0 <= j < i ==> self@[j].id != id,
            decreases self.nodes.len() - i,
        {
            if self.nodes[i].id == id {
                return Some(i);
            }
            i += 1;
        }
        proof {
            if has_id(self@, id) {
                let k = choose|k: int| 0 <= k < self@.len() && #[trigger] self@[k].id == id;
                assert(self@[k].id == id);
            }
        }
        None
    }

    /// Whether some node carries `id`.
    pub fn contains_id(&self, id: OpId) -> (r: bool)
        ensures
            r == has_id(self@, id),
    {
        self.index_of(id).is_some()
    }

    /// Integrate an insert (local or remote) at its causally-correct position.
    ///
    /// `after` is the id of the node this was inserted after (`None` = start of document).
    /// A node whose id is already present is not inserted again: redelivering a known
    /// operation is a no-op. Otherwise, starting right after `after`, the scan skips
    /// forward over sibling nodes (also inserted directly after `after`) that sort
    /// higher than `id`, and over any node inserted deeper (after one of those
    /// siblings, or after something further right), and places the node at the first
    /// position that is neither.
    pub fn integrate_insert(&mut self, id: OpId, after: Option<OpId>, ch: char)
        requires
            wf(old(self)@),
            anchored(old(self)@, after),
        ensures
            final(self)@ == rga_insert(old(self)@, id, after, ch),
            wf(final(self)@),
    {
        if self.index_of(id).is_some() {
            return;
        }
        let ghost s = self@;
        let ghost left = anchor_pos(s, after);
        proof {
            lemma_anchor_pos(s, after);
            lemma_insert_wf(s, id, after, ch);
        }
        let len = self.nodes.len();
        let start: usize = match after {
            None => 0,
            Some(a) => {
                let i = self.index_of(a).unwrap();
                proof {
                    lemma_pos_of(s, i as int);
                }
                assert(i < len);
                i + 1
            },
        };
        assert(start == left + 1);
        let mut right: usize = start;
        while right < self.nodes.len()
            invariant
                self@ == s,
                self.nodes@ == s,
                wf(s),
                start == left + 1,
                start <= right <= s.len(),
                insert_pos(s, left, id, start as int) == insert_pos(s, left, id, right as int),
            ensures
                insert_pos(s, left, id, start as int) == right,
            decreases self.nodes.len() - right,
        {
            let cand_after = self.nodes[right].after;
            proof {
                assert(anchored(s, s[right as int].after));
                assert(origin(s, right as int) < right);
            }
            let cand_start: usize = match cand_after {
                None => 0,
                Some(o) => {
                    let i = self.index_of(o).unwrap();
                    proof {
                        lemma_pos_of(s, i as int);
                    }
                    i + 1
                },
            };
            assert(cand_start == origin(s, right as int) + 1);
            if cand_start < start {
                break;
            } else if cand_start == start {
                if self.nodes[right].id > id {
                    right += 1;
                } else {
                    break;
                }
            } else {
                right += 1;
            }
        }
        self.nodes.insert(right, Node { id, after, ch, deleted: false });
    }

    /// Mark a node as deleted (tombstone). A no-op if the target isn't known yet:
    /// callers are expected to only deliver deletes after their target insert has
    /// already been integrated.
    pub fn integrate_delete(&mut self, target: OpId)
        requires
            wf(old(self)@),
        ensures
            final(self)@ == rga_delete(old(self)@, target),
            wf(final(self)@),
    {
        proof {
            lemma_delete_shape(self@, target);
        }
        if let Some(idx) = self.index_of(target) {
            proof {
                lemma_pos_of(self@, idx as int);
            }
            let mut n = self.nodes[idx];
            n.deleted = true;
            self.nodes.set(idx, n);
        }
    }

    /// Number of visible (non-tombstoned) characters.
    pub fn visible_len(&self) -> (r: usize)
        ensures
            r == visible_ids(self@).len(),
    {
        let mut count: usize = 0;
        let mut i: usize = 0;
        while i < self.nodes.len()
            invariant
                i <= self@.len(),
                self.nodes@ == self@,
                count == visible_ids(self@.take(i as int)).len(),
            decreases self.nodes.len() - i,
        {
            proof {
                lemma_visible_step(self@, i as int);
                lemma_visible_len(self@.take(i as int));
            }
            if !self.nodes[i].deleted {
                count += 1;
            }
            i += 1;
        }
        assert(self@.take(i as int) =~= self@);
        count
    }

    /// The id of the `n`th visible character (0-indexed), if it exists.
    pub fn nth_visible_id(&self, n: usize) -> (r: Option<OpId>)
        ensures
            r == (if n < visible_ids(self@).len() {
                Some(visible_ids(self@)[n as int])
            } else {
                None::<OpId>
            }),
    {
        let mut seen: usize = 0;
        let mut i: usize = 0;
        while i < self.nodes.len()
            invariant
                i <= self@.len(),
                self.nodes@ == self@,
                seen == visible_ids(self@.take(i as int)).len(),
                seen <= n,
            decreases self.nodes.len() - i,
        {
            proof {
                lemma_visible_step(self@, i as int);
            }
            if !self.nodes[i].deleted {
                if seen == n {
                    proof {
                        let s = self@;
                        assert(s =~= s.take(i + 1) + s.skip(i + 1));
                        lemma_visible_concat(s.take(i + 1), s.skip(i + 1));
                    }
                    return Some(self.nodes[i].id);
                }
                seen += 1;
            }
            i += 1;
        }
        assert(self@.take(i as int) =~= self@);
        None
    }

    /// The visible text: the characters of the live nodes, in order.
    pub fn to_string(&self) -> (r: String)
        ensures
            r@ == text_of(self@),
    {
        let mut out = String::new();
        let mut i: usize = 0;
        while i < self.nodes.len()
            invariant
                i <= self@.len(),
                self.nodes@ == self@,
                out@ == text_of(self@.take(i as int)),
            decreases self.nodes.len() - i,
        {
            proof {
                lemma_visible_step(self@, i as int);
            }
            if !self.nodes[i].deleted {
                out.push(self.nodes[i].ch);
            }
            i += 1;
        }
        assert(self@.take(i as int) =~= self@);
        out
    }
}

} // verus!
