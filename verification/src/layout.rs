//! The mathematical model of an RGA: the ordered sequence of its nodes (tombstones
//! included), the layout invariant that every reachable sequence satisfies, and the
//! two transitions, integrating an insert and integrating a delete.

use vstd::prelude::*;
use crate::id::{OpId, id_lt, lemma_id_order_is_strict_total};
use crate::rga::Node;

verus! {

/// Some node of `s` carries `id`.
pub open spec fn has_id(s: Seq<Node>, id: OpId) -> bool {
    exists|i: int| 0 <= i < s.len() && #[trigger] s[i].id == id
}

/// The position of the node carrying `id`, or -1 when there is none.
pub open spec fn pos_of(s: Seq<Node>, id: OpId) -> int {
    if has_id(s, id) {
        choose|i: int| 0 <= i < s.len() && #[trigger] s[i].id == id
    } else {
        -1
    }
}

/// No two nodes carry the same id.
pub open spec fn unique_ids(s: Seq<Node>) -> bool {
    forall|i: int, j: int|
        0 <= i < s.len() && 0 <= j < s.len() && i != j ==> #[trigger] s[i].id != #[trigger] s[j].id
}

/// `after` names no node, or a node that is present in `s`.
pub open spec fn anchored(s: Seq<Node>, after: Option<OpId>) -> bool {
    match after {
        None => true,
        Some(a) => has_id(s, a),
    }
}

/// The position of the anchor of the node at `i` (-1 for the start of the document).
pub open spec fn origin(s: Seq<Node>, i: int) -> int {
    match s[i].after {
        None => -1,
        Some(a) => pos_of(s, a),
    }
}

/// The layout invariant of an RGA. Read as a forest in which each node hangs under
/// its anchor, the sequence is that forest's preorder walk with siblings in
/// descending id order:
/// ids are unique; every anchor is present and stands before the node;
/// no two anchor arcs cross; siblings appear in descending id order.
pub open spec fn wf(s: Seq<Node>) -> bool {
    &&& unique_ids(s)
    &&& forall|i: int| 0 <= i < s.len() ==> #[trigger] anchored(s, s[i].after)
    &&& forall|i: int| 0 <= i < s.len() ==> #[trigger] origin(s, i) < i
    &&& forall|m: int, j: int|
        0 <= m < j < s.len() ==> !(#[trigger] origin(s, m) < #[trigger] origin(s, j) && origin(s, j) < m)
    &&& forall|i: int, j: int|
        0 <= i < j < s.len() && #[trigger] origin(s, i) == #[trigger] origin(s, j)
            ==> id_lt(s[j].id, s[i].id)
}

/// While scanning right from the anchor at `left` for the place of a new node `id`,
/// the node at `k` is passed over: it hangs further right than the anchor, or it is
/// a sibling with a higher id.
pub open spec fn skips(s: Seq<Node>, left: int, id: OpId, k: int) -> bool {
    origin(s, k) > left || (origin(s, k) == left && id_lt(id, s[k].id))
}

/// The first position at or after `r` whose node is not passed over, or the end.
pub open spec fn insert_pos(s: Seq<Node>, left: int, id: OpId, r: int) -> int
    decreases s.len() - r,
{
    if r < 0 || r >= s.len() {
        r
    } else if skips(s, left, id, r) {
        insert_pos(s, left, id, r + 1)
    } else {
        r
    }
}

/// The position of the anchor `after` (-1 for the start of the document).
pub open spec fn anchor_pos(s: Seq<Node>, after: Option<OpId>) -> int {
    match after {
        None => -1,
        Some(a) => pos_of(s, a),
    }
}

/// The sequence after integrating an insert: unchanged when `id` is already known
/// (redelivery), otherwise a fresh live node placed by the RGA rule.
pub open spec fn rga_insert(s: Seq<Node>, id: OpId, after: Option<OpId>, ch: char) -> Seq<Node> {
    if has_id(s, id) {
        s
    } else {
        let left = anchor_pos(s, after);
        s.insert(insert_pos(s, left, id, left + 1), Node { id, after, ch, deleted: false })
    }
}

/// The sequence after integrating a delete: the target is tombstoned, never removed;
/// unchanged when the target is unknown.
pub open spec fn rga_delete(s: Seq<Node>, target: OpId) -> Seq<Node> {
    if has_id(s, target) {
        let i = pos_of(s, target);
        s.update(i, Node { deleted: true, ..s[i] })
    } else {
        s
    }
}

pub proof fn lemma_pos_of(s: Seq<Node>, i: int)
    requires
        unique_ids(s),
        0 <= i < s.len(),
    ensures
        has_id(s, s[i].id),
        pos_of(s, s[i].id) == i,
{
    assert(s[i].id == s[i].id);
}

pub proof fn lemma_pos_of_range(s: Seq<Node>, id: OpId)
    ensures
        has_id(s, id) ==> 0 <= pos_of(s, id) < s.len() && s[pos_of(s, id)].id == id,
        !has_id(s, id) ==> pos_of(s, id) == -1,
{
}

pub proof fn lemma_insert_pos(s: Seq<Node>, left: int, id: OpId, r: int)
    requires
        0 <= r <= s.len(),
    ensures
        r <= insert_pos(s, left, id, r) <= s.len(),
        forall|k: int| r <= k < insert_pos(s, left, id, r) ==> skips(s, left, id, k),
        insert_pos(s, left, id, r) < s.len() ==> !skips(s, left, id, insert_pos(s, left, id, r)),
    decreases s.len() - r,
{
    if r < s.len() && skips(s, left, id, r) {
        lemma_insert_pos(s, left, id, r + 1);
    }
}

/// Position `i` of the old sequence after a node is placed at `p`.
pub open spec fn shift(p: int, i: int) -> int {
    if i < p {
        i
    } else {
        i + 1
    }
}

/// Inserting a node with a fresh id keeps ids unique, and moves every old node's
/// position as `shift` says.
pub proof fn lemma_insert_positions(s: Seq<Node>, p: int, x: Node)
    requires
        unique_ids(s),
        !has_id(s, x.id),
        0 <= p <= s.len(),
    ensures
        unique_ids(s.insert(p, x)),
        has_id(s.insert(p, x), x.id),
        pos_of(s.insert(p, x), x.id) == p,
        forall|a: OpId| a != x.id ==> #[trigger] pos_of(s.insert(p, x), a) == shift(p, pos_of(s, a)),
        forall|a: OpId| #[trigger] has_id(s.insert(p, x), a) <==> (has_id(s, a) || a == x.id),
{
    let t = s.insert(p, x);
    s.insert_ensures(p, x);
    assert forall|i: int, j: int|
        0 <= i < t.len() && 0 <= j < t.len() && i != j implies #[trigger] t[i].id != #[trigger] t[j].id by {
        if i == p {
            if j < p {
                assert(s[j].id == t[j].id);
            } else {
                assert(s[j - 1].id == t[j].id);
            }
        } else if j == p {
            if i < p {
                assert(s[i].id == t[i].id);
            } else {
                assert(s[i - 1].id == t[i].id);
            }
        } else {
            let i0 = if i < p { i } else { i - 1 };
            let j0 = if j < p { j } else { j - 1 };
            assert(t[i] == s[i0]);
            assert(t[j] == s[j0]);
        }
    }
    assert(t[p].id == x.id);
    lemma_pos_of(t, p);
    assert forall|a: OpId| #[trigger] has_id(t, a) <==> (has_id(s, a) || a == x.id) by {
        if has_id(t, a) {
            let k = choose|k: int| 0 <= k < t.len() && #[trigger] t[k].id == a;
            if k < p {
                assert(s[k].id == a);
            } else if k > p {
                assert(s[k - 1].id == a);
            }
        }
        if has_id(s, a) {
            let k = choose|k: int| 0 <= k < s.len() && #[trigger] s[k].id == a;
            assert(t[shift(p, k)].id == a);
        }
    }
    assert forall|a: OpId| a != x.id implies #[trigger] pos_of(t, a) == shift(p, pos_of(s, a)) by {
        if has_id(s, a) {
            let k = pos_of(s, a);
            lemma_pos_of_range(s, a);
            assert(t[shift(p, k)] == s[k]);
            lemma_pos_of(t, shift(p, k));
        } else {
            assert(!has_id(t, a));
        }
    }
}

/// Integrating a fresh insert whose anchor is present keeps the layout invariant.
#[verifier::rlimit(40)]
pub proof fn lemma_insert_wf(s: Seq<Node>, id: OpId, after: Option<OpId>, ch: char)
    requires
        wf(s),
        anchored(s, after),
        !has_id(s, id),
    ensures
        wf(rga_insert(s, id, after, ch)),
{
    let left = anchor_pos(s, after);
    lemma_anchor_pos(s, after);
    lemma_insert_pos(s, left, id, left + 1);
    let p = insert_pos(s, left, id, left + 1);
    let x = Node { id, after, ch, deleted: false };
    let t = s.insert(p, x);
    assert(t == rga_insert(s, id, after, ch));
    s.insert_ensures(p, x);
    lemma_insert_positions(s, p, x);
    // the anchor of every old node is not the new id, so its origin just shifts
    assert forall|k: int| 0 <= k < t.len() implies #[trigger] origin(t, k) == (if k < p {
        shift(p, origin(s, k))
    } else if k > p {
        shift(p, origin(s, k - 1))
    } else {
        left
    }) by {
        if k == p {
            match after {
                None => {},
                Some(a) => {
                    assert(a != id);
                },
            }
        } else {
            let k0 = if k < p { k } else { k - 1 };
            assert(t[k] == s[k0]);
            assert(anchored(s, s[k0].after));
            match s[k0].after {
                None => {},
                Some(a) => {
                    assert(a != id);
                    assert(pos_of(t, a) == shift(p, pos_of(s, a)));
                },
            }
        }
    }
    assert forall|i: int| 0 <= i < t.len() implies #[trigger] anchored(t, t[i].after) by {
        if i != p {
            let i0 = if i < p { i } else { i - 1 };
            assert(t[i] == s[i0]);
            assert(anchored(s, s[i0].after));
        }
    }
    assert forall|i: int| 0 <= i < t.len() implies #[trigger] origin(t, i) < i by {
        if i < p {
            assert(origin(s, i) < i);
        } else if i > p {
            assert(origin(s, i - 1) < i - 1);
        }
    }
    // no crossing arcs
    assert forall|m: int, j: int|
        0 <= m < j < t.len() implies !(#[trigger] origin(t, m) < #[trigger] origin(t, j) && origin(t, j) < m) by {
        if m != p && j != p {
            let m0 = if m < p { m } else { m - 1 };
            let j0 = if j < p { j } else { j - 1 };
            assert(origin(t, m) == shift(p, origin(s, m0)));
            assert(origin(t, j) == shift(p, origin(s, j0)));
            assert(origin(s, m0) < m0);
            assert(!(origin(s, m0) < origin(s, j0) && origin(s, j0) < m0));
        } else if m == p {
            let j0 = j - 1;
            assert(origin(t, j) == shift(p, origin(s, j0)));
            if left < origin(t, j) && origin(t, j) < p {
                assert(origin(s, j0) < p);
                assert(p < s.len());
                assert(!skips(s, left, id, p));
                if j0 > p {
                    assert(!(origin(s, p) < origin(s, j0) && origin(s, j0) < p));
                }
            }
        } else {
            // j == p, m < p
            assert(origin(s, m) < m);
            assert(origin(t, m) == origin(s, m));
            if left < m {
                assert(skips(s, left, id, m));
            }
        }
    }
    // siblings in descending id order
    assert forall|i: int, j: int|
        0 <= i < j < t.len() && #[trigger] origin(t, i) == #[trigger] origin(t, j) implies id_lt(t[j].id, t[i].id) by {
        if i != p && j != p {
            let i0 = if i < p { i } else { i - 1 };
            let j0 = if j < p { j } else { j - 1 };
            assert(origin(t, i) == shift(p, origin(s, i0)));
            assert(origin(t, j) == shift(p, origin(s, j0)));
            assert(origin(s, i0) == origin(s, j0));
            assert(t[i] == s[i0]);
            assert(t[j] == s[j0]);
        } else if i == p {
            let j0 = j - 1;
            assert(origin(t, j) == shift(p, origin(s, j0)));
            assert(origin(s, j0) == left);
            assert(p < s.len());
            assert(!skips(s, left, id, p));
            assert(t[j] == s[j0]);
            if origin(s, p) == left {
                assert(s[p].id != id);
                lemma_id_order_is_strict_total(s[p].id, id, id);
                if j0 > p {
                    lemma_id_order_is_strict_total(s[j0].id, s[p].id, id);
                }
            } else {
                assert(origin(s, p) < left);
                assert(j0 != p);
                assert(!(origin(s, p) < origin(s, j0) && origin(s, j0) < p));
            }
        } else {
            // j == p, i < p
            assert(origin(t, i) == origin(s, i));
            assert(origin(s, i) < i);
            assert(skips(s, left, id, i));
            assert(t[i] == s[i]);
        }
    }
}

pub proof fn lemma_anchor_pos(s: Seq<Node>, after: Option<OpId>)
    requires
        anchored(s, after),
    ensures
        -1 <= anchor_pos(s, after) < s.len(),
        after matches Some(a) ==> s[anchor_pos(s, after)].id == a,
{
    match after {
        None => {},
        Some(a) => {
            lemma_pos_of_range(s, a);
        },
    }
}


/// `s` and `t` hold the same ids and anchors, position by position.
pub open spec fn same_skeleton(s: Seq<Node>, t: Seq<Node>) -> bool {
    &&& s.len() == t.len()
    &&& forall|i: int|
        #![trigger t[i]]
        #![trigger s[i]]
        0 <= i < s.len() ==> t[i].id == s[i].id && t[i].after == s[i].after
}

/// Sequences with the same ids and anchors agree on positions and origins, so the
/// layout invariant of one is that of the other.
pub proof fn lemma_same_skeleton(s: Seq<Node>, t: Seq<Node>)
    requires
        unique_ids(s),
        same_skeleton(s, t),
    ensures
        unique_ids(t),
        forall|a: OpId| #[trigger] has_id(t, a) == has_id(s, a),
        forall|a: OpId| #[trigger] pos_of(t, a) == pos_of(s, a),
        forall|i: int| 0 <= i < t.len() ==> #[trigger] origin(t, i) == origin(s, i),
        wf(s) ==> wf(t),
{
    assert forall|i: int, j: int|
        0 <= i < t.len() && 0 <= j < t.len() && i != j implies #[trigger] t[i].id != #[trigger] t[j].id by {
        assert(s[i].id != s[j].id);
    }
    assert forall|a: OpId| #[trigger] has_id(t, a) == has_id(s, a) by {
        if has_id(t, a) {
            let k = choose|k: int| 0 <= k < t.len() && #[trigger] t[k].id == a;
            assert(s[k].id == a);
        }
        if has_id(s, a) {
            let k = choose|k: int| 0 <= k < s.len() && #[trigger] s[k].id == a;
            assert(t[k].id == a);
        }
    }
    assert forall|a: OpId| #[trigger] pos_of(t, a) == pos_of(s, a) by {
        if has_id(s, a) {
            lemma_pos_of_range(s, a);
            let k = pos_of(s, a);
            assert(t[k].id == a);
            lemma_pos_of(t, k);
        }
    }
    assert forall|i: int| 0 <= i < t.len() implies #[trigger] origin(t, i) == origin(s, i) by {
        assert(t[i].after == s[i].after);
    }
    if wf(s) {
        assert forall|i: int| 0 <= i < t.len() implies #[trigger] anchored(t, t[i].after) by {
            assert(t[i].after == s[i].after);
            assert(anchored(s, s[i].after));
        }
        assert forall|i: int| 0 <= i < t.len() implies #[trigger] origin(t, i) < i by {
            assert(origin(s, i) < i);
        }
        assert forall|m: int, j: int|
            0 <= m < j < t.len() implies !(#[trigger] origin(t, m) < #[trigger] origin(t, j) && origin(t, j) < m) by {
            assert(!(origin(s, m) < origin(s, j) && origin(s, j) < m));
        }
        assert forall|i: int, j: int|
            0 <= i < j < t.len() && #[trigger] origin(t, i) == #[trigger] origin(t, j) implies id_lt(t[j].id, t[i].id) by {
            assert(origin(s, i) == origin(s, j));
        }
    }
}

/// Integrating a delete keeps every node in place (a tombstone, never a removal),
/// changes at most the target's `deleted` flag, and keeps the layout invariant.
pub proof fn lemma_delete_shape(s: Seq<Node>, target: OpId)
    requires
        unique_ids(s),
    ensures
        same_skeleton(s, rga_delete(s, target)),
        forall|i: int| 0 <= i < s.len() ==> #[trigger] rga_delete(s, target)[i].ch == s[i].ch,
        forall|i: int| 0 <= i < s.len() ==> #[trigger] rga_delete(s, target)[i].deleted
            == (s[i].deleted || s[i].id == target),
        wf(s) ==> wf(rga_delete(s, target)),
{
    let t = rga_delete(s, target);
    if has_id(s, target) {
        lemma_pos_of_range(s, target);
        assert forall|i: int| 0 <= i < s.len() implies #[trigger] t[i].deleted == (s[i].deleted || s[i].id == target) by {
            if s[i].id == target {
                lemma_pos_of(s, i);
            }
        }
    }
    lemma_same_skeleton(s, t);
}

/// The ids of the live (not tombstoned) nodes, in document order.
pub open spec fn visible_ids(s: Seq<Node>) -> Seq<OpId>
    decreases s.len(),
{
    if s.len() == 0 {
        Seq::empty()
    } else if s.last().deleted {
        visible_ids(s.drop_last())
    } else {
        visible_ids(s.drop_last()).push(s.last().id)
    }
}

/// The visible text: the characters of the live nodes, in document order.
pub open spec fn text_of(s: Seq<Node>) -> Seq<char>
    decreases s.len(),
{
    if s.len() == 0 {
        Seq::empty()
    } else if s.last().deleted {
        text_of(s.drop_last())
    } else {
        text_of(s.drop_last()).push(s.last().ch)
    }
}

pub proof fn lemma_visible_concat(a: Seq<Node>, b: Seq<Node>)
    ensures
        visible_ids(a + b) == visible_ids(a) + visible_ids(b),
        text_of(a + b) == text_of(a) + text_of(b),
        text_of(a).len() == visible_ids(a).len(),
    decreases b.len(),
{
    if b.len() == 0 {
        assert(a + b =~= a);
        lemma_visible_len(a);
    } else {
        lemma_visible_concat(a, b.drop_last());
        assert((a + b).drop_last() =~= a + b.drop_last());
        assert((a + b).last() == b.last());
    }
}

pub proof fn lemma_visible_len(s: Seq<Node>)
    ensures
        text_of(s).len() == visible_ids(s).len(),
        visible_ids(s).len() <= s.len(),
    decreases s.len(),
{
    if s.len() > 0 {
        lemma_visible_len(s.drop_last());
    }
}

/// One more node at the end of a prefix adds its id/char when it is live.
pub proof fn lemma_visible_step(s: Seq<Node>, i: int)
    requires
        0 <= i < s.len(),
    ensures
        visible_ids(s.take(i + 1)) == (if s[i].deleted {
            visible_ids(s.take(i))
        } else {
            visible_ids(s.take(i)).push(s[i].id)
        }),
        text_of(s.take(i + 1)) == (if s[i].deleted {
            text_of(s.take(i))
        } else {
            text_of(s.take(i)).push(s[i].ch)
        }),
{
    assert(s.take(i + 1).drop_last() =~= s.take(i));
    assert(s.take(i + 1).last() == s[i]);
}

/// The `n`th live node stands at some position `k`, with exactly `n` live nodes
/// before it.
pub proof fn lemma_nth_visible(s: Seq<Node>, n: int) -> (k: int)
    requires
        0 <= n < visible_ids(s).len(),
    ensures
        0 <= k < s.len(),
        !s[k].deleted,
        s[k].id == visible_ids(s)[n],
        visible_ids(s.take(k)).len() == n,
    decreases s.len(),
{
    let d = s.drop_last();
    if s.last().deleted || n < visible_ids(d).len() {
        let k = lemma_nth_visible(d, n);
        assert(s.take(k) =~= d.take(k));
        k
    } else {
        assert(s.take(s.len() - 1) =~= d);
        (s.len() - 1) as int
    }
}


/// Splitting a sequence at `p` splits its ids and text at the number of live nodes
/// before `p`.
pub proof fn lemma_split(s: Seq<Node>, p: int)
    requires
        0 <= p <= s.len(),
    ensures
        s =~= s.take(p) + s.skip(p),
        visible_ids(s) == visible_ids(s.take(p)) + visible_ids(s.skip(p)),
        text_of(s) == text_of(s.take(p)) + text_of(s.skip(p)),
        text_of(s.take(p)).len() == visible_ids(s.take(p)).len(),
{
    assert(s =~= s.take(p) + s.skip(p));
    lemma_visible_concat(s.take(p), s.skip(p));
}

pub proof fn lemma_single(x: Node)
    ensures
        visible_ids(seq![x]) == (if x.deleted { Seq::<OpId>::empty() } else { seq![x.id] }),
        text_of(seq![x]) == (if x.deleted { Seq::<char>::empty() } else { seq![x.ch] }),
{
    assert(seq![x].drop_last() =~= Seq::<Node>::empty());
    reveal_with_fuel(visible_ids, 2);
    reveal_with_fuel(text_of, 2);
    assert(visible_ids(seq![x]) =~= (if x.deleted { Seq::<OpId>::empty() } else { seq![x.id] }));
    assert(text_of(seq![x]) =~= (if x.deleted { Seq::<char>::empty() } else { seq![x.ch] }));
}

/// Placing a live node at `p` puts its character right after the live characters
/// that stand before `p`.
pub proof fn lemma_text_insert(s: Seq<Node>, p: int, x: Node)
    requires
        0 <= p <= s.len(),
        !x.deleted,
    ensures
        text_of(s.insert(p, x)) == text_of(s).insert(visible_ids(s.take(p)).len() as int, x.ch),
        visible_ids(s.insert(p, x)) == visible_ids(s).insert(visible_ids(s.take(p)).len() as int, x.id),
{
    lemma_split(s, p);
    let a = s.take(p);
    let b = s.skip(p);
    assert(s.insert(p, x) =~= (a + seq![x]) + b);
    lemma_visible_concat(a + seq![x], b);
    lemma_visible_concat(a, seq![x]);
    lemma_single(x);
    assert(text_of(s.insert(p, x)) =~= text_of(s).insert(visible_ids(s.take(p)).len() as int, x.ch));
    assert(visible_ids(s.insert(p, x)) =~= visible_ids(s).insert(visible_ids(s.take(p)).len() as int, x.id));
}

/// Tombstoning the live node at `k` removes its character from the text.
pub proof fn lemma_text_tombstone(s: Seq<Node>, k: int)
    requires
        0 <= k < s.len(),
        !s[k].deleted,
    ensures
        text_of(s.update(k, Node { deleted: true, ..s[k] })) == text_of(s).remove(
            visible_ids(s.take(k)).len() as int,
        ),
        visible_ids(s.update(k, Node { deleted: true, ..s[k] })) == visible_ids(s).remove(
            visible_ids(s.take(k)).len() as int,
        ),
{
    let y = Node { deleted: true, ..s[k] };
    let t = s.update(k, y);
    let a = s.take(k);
    let b = s.skip(k + 1);
    assert(s =~= (a + seq![s[k]]) + b);
    assert(t =~= (a + seq![y]) + b);
    lemma_visible_concat(a + seq![s[k]], b);
    lemma_visible_concat(a, seq![s[k]]);
    lemma_visible_concat(a + seq![y], b);
    lemma_visible_concat(a, seq![y]);
    lemma_single(s[k]);
    lemma_single(y);
    lemma_visible_len(a);
    assert(text_of(t) =~= text_of(s).remove(visible_ids(s.take(k)).len() as int));
    assert(visible_ids(t) =~= visible_ids(s).remove(visible_ids(s.take(k)).len() as int));
}

/// An insert whose id sorts above every present id lands directly after its anchor.
pub proof fn lemma_newest_insert_pos(s: Seq<Node>, left: int, id: OpId)
    requires
        wf(s),
        -1 <= left < s.len(),
        forall|i: int| 0 <= i < s.len() ==> id_lt(#[trigger] s[i].id, id),
    ensures
        insert_pos(s, left, id, left + 1) == left + 1,
{
    if left + 1 < s.len() {
        let k = left + 1;
        assert(origin(s, k) < k);
        assert(anchored(s, s[k].after));
        match s[k].after {
            None => {},
            Some(a) => {
                lemma_pos_of_range(s, a);
            },
        }
        lemma_id_order_is_strict_total(s[k].id, id, id);
        assert(!skips(s, left, id, k));
    }
}

} // verus!
