//! Globally unique, totally ordered identifiers for inserted characters.

use vstd::prelude::*;
use core::cmp::Ordering;
use vstd::std_specs::cmp::PartialOrdSpec;

verus! {

/// A globally unique, totally ordered identifier for a single inserted character.
///
/// Ordering is by `counter` first, then `site_id` as a tiebreaker. Every site hands out
/// strictly increasing counters for its own operations, so `(site_id, counter)` pairs
/// are never reused and the resulting total order is the same on every replica.
///
/// `counter` is declared first so that the derived `Ord` compares it first, in
/// agreement with the hand-written `PartialOrd` below.
#[derive(Debug, Clone, Copy, PartialEq, Eq, Structural, Hash, Ord)]
pub struct OpId {
    pub counter: u64,
    pub site_id: u32,
}

/// `a` sorts strictly before `b`: smaller counter, or equal counter and smaller site.
pub open spec fn id_lt(a: OpId, b: OpId) -> bool {
    a.counter < b.counter || (a.counter == b.counter && a.site_id < b.site_id)
}

impl OpId {
    pub fn new(site_id: u32, counter: u64) -> (r: Self)
        ensures
            r.site_id == site_id,
            r.counter == counter,
    {
        OpId { counter, site_id }
    }
}

impl PartialOrd for OpId {
    fn partial_cmp(&self, other: &Self) -> (r: Option<Ordering>) {
        if self.counter < other.counter {
            Some(Ordering::Less)
        } else if self.counter > other.counter {
            Some(Ordering::Greater)
        } else if self.site_id < other.site_id {
            Some(Ordering::Less)
        } else if self.site_id > other.site_id {
            Some(Ordering::Greater)
        } else {
            Some(Ordering::Equal)
        }
    }
}

impl vstd::std_specs::cmp::PartialOrdSpecImpl for OpId {
    open spec fn obeys_partial_cmp_spec() -> bool {
        true
    }

    open spec fn partial_cmp_spec(&self, other: &Self) -> Option<Ordering> {
        if id_lt(*self, *other) {
            Some(Ordering::Less)
        } else if id_lt(*other, *self) {
            Some(Ordering::Greater)
        } else {
            Some(Ordering::Equal)
        }
    }
}

/// Comparing two ids compares counters first and breaks ties by site id: the answer
/// is `Less` exactly when `a` has the smaller counter or the same counter and the
/// smaller site id, `Greater` exactly in the mirrored case, and `Equal` exactly when
/// the ids are equal. Swapping the arguments mirrors the answer.
pub proof fn lemma_partial_cmp_orders_by_counter_then_site(a: OpId, b: OpId)
    ensures
        a.partial_cmp_spec(&b) is Some,
        a.partial_cmp_spec(&b) == Some(Ordering::Less) <==> (a.counter < b.counter || (a.counter
            == b.counter && a.site_id < b.site_id)),
        a.partial_cmp_spec(&b) == Some(Ordering::Greater) <==> (b.counter < a.counter || (a.counter
            == b.counter && b.site_id < a.site_id)),
        a.partial_cmp_spec(&b) == Some(Ordering::Equal) <==> a == b,
        a.partial_cmp_spec(&b) == Some(Ordering::Less) <==> b.partial_cmp_spec(&a) == Some(
            Ordering::Greater,
        ),
{
}

/// The id order is a strict total order: irreflexive, transitive, and any two
/// distinct ids are comparable, so every replica sorts ids identically.
pub proof fn lemma_id_order_is_strict_total(a: OpId, b: OpId, c: OpId)
    ensures
        !id_lt(a, a),
        id_lt(a, b) && id_lt(b, c) ==> id_lt(a, c),
        id_lt(a, b) ==> !id_lt(b, a),
        a != b ==> (id_lt(a, b) || id_lt(b, a)),
{
}

} // verus!
