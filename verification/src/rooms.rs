//! The in-memory registry of active document rooms: one broadcast channel per open
//! document, fanning out ops and presence messages to every connected client. The
//! durable source of truth is the op log; a room just disappears (and is recreated
//! empty) when the server restarts. Document ids are UUIDs, held as their 128-bit value.

use vstd::prelude::*;
use std::collections::HashMap;
use tokio::sync::broadcast::{Receiver, Sender};
use crate::relay::Envelope;

verus! {

broadcast use vstd::std_specs::hash::group_hash_axioms;

/// The capacity of each room's broadcast channel.
pub const ROOM_CHANNEL_CAPACITY: usize = 256;

/// The sending half of a tokio broadcast channel.
#[verifier::external_type_specification]
#[verifier::external_body]
#[verifier::reject_recursive_types(T)]
pub struct ExBroadcastSender<T>(Sender<T>);

/// The receiving half of a tokio broadcast channel.
#[verifier::external_type_specification]
#[verifier::external_body]
#[verifier::reject_recursive_types(T)]
pub struct ExBroadcastReceiver<T>(Receiver<T>);

/// The channel that a receiver reads from, given by a sender of that channel.
pub uninterp spec fn channel_of(receiver: Receiver<Envelope>) -> Sender<Envelope>;

/// How many messages the channel of a sender buffers.
pub uninterp spec fn channel_capacity(sender: Sender<Envelope>) -> nat;

/// The least power of two that is at least `n`.
pub open spec fn pow2_ceil(n: nat) -> nat
    decreases n,
{
    if n <= 1 {
        1
    } else {
        2 * pow2_ceil(((n + 1) / 2) as nat)
    }
}

/// Opens a new broadcast channel (`tokio::sync::broadcast::channel`) and keeps its
/// sending half; the first receiver is dropped. tokio rounds the capacity up to the
/// next power of two, which is the channel's buffer size. `channel` panics on a
/// capacity of 0 or above `usize::MAX / 2`, which `requires` rules out.
#[verifier::external_body]
fn open_channel(capacity: usize) -> (r: Sender<Envelope>)
    requires
        0 < capacity <= usize::MAX / 2,
    ensures
        channel_capacity(r) == pow2_ceil(capacity as nat),
{
    tokio::sync::broadcast::channel(capacity).0
}

/// Another handle to the same channel (`Sender::clone`): the clone holds the same
/// shared channel state as `sender`, so it is the same value.
#[verifier::external_body]
fn clone_sender(sender: &Sender<Envelope>) -> (r: Sender<Envelope>)
    ensures
        r == *sender,
{
    sender.clone()
}

/// A new subscription to the channel of `sender` (`Sender::subscribe`): the receiver
/// shares the sender's channel state.
#[verifier::external_body]
fn subscribe(sender: &Sender<Envelope>) -> (r: Receiver<Envelope>)
    ensures
        channel_of(r) == *sender,
{
    sender.subscribe()
}

/// How many receivers the channel has now (`Sender::receiver_count`). The count
/// moves as other connections subscribe and drop, so nothing is stated of it.
#[verifier::external_body]
fn receiver_count(sender: &Sender<Envelope>) -> usize {
    sender.receiver_count()
}

/// The rooms of currently-open documents, keyed by document id.
pub struct RoomRegistry {
    rooms: HashMap<u128, Sender<Envelope>>,
}

impl View for RoomRegistry {
    type V = Map<u128, Sender<Envelope>>;

    closed spec fn view(&self) -> Map<u128, Sender<Envelope>> {
        self.rooms@
    }
}

impl RoomRegistry {
    pub fn new() -> (r: Self)
        ensures
            r@ == Map::<u128, Sender<Envelope>>::empty(),
    {
        RoomRegistry { rooms: HashMap::new() }
    }

    /// Join (creating if necessary) the room for `doc_id`, returning a sender for
    /// publishing to it and a fresh receiver for this connection's own subscription.
    /// A room that already exists keeps its channel; a new room gets a channel that
    /// buffers `ROOM_CHANNEL_CAPACITY` messages. The returned sender is the room's
    /// sender and the returned receiver reads from the room's channel, so every
    /// connection of a document publishes to and hears from one channel.
    pub fn join(&mut self, doc_id: u128) -> (r: (Sender<Envelope>, Receiver<Envelope>))
        ensures
            r.0 == final(self)@[doc_id],
            channel_of(r.1) == final(self)@[doc_id],
            !old(self)@.contains_key(doc_id) ==> channel_capacity(final(self)@[doc_id]) == 256,
            final(self)@.contains_key(doc_id),
            old(self)@.contains_key(doc_id) ==> final(self)@ == old(self)@,
            !old(self)@.contains_key(doc_id) ==> final(self)@ == old(self)@.insert(
                doc_id,
                final(self)@[doc_id],
            ),
    {
        if !self.rooms.contains_key(&doc_id) {
            let sender = open_channel(ROOM_CHANNEL_CAPACITY);
            proof {
                reveal_with_fuel(pow2_ceil, 10);
                assert(pow2_ceil(256) == 256);
            }
            self.rooms.insert(doc_id, sender);
        }
        let room = self.rooms.get(&doc_id).unwrap();
        let sender = clone_sender(room);
        let receiver = subscribe(&sender);
        (sender, receiver)
    }

    /// Drop the room of `doc_id` when its channel has no receivers left, given the
    /// channel's current receiver count; otherwise leave the registry as it is.
    pub fn remove_if_unsubscribed(&mut self, doc_id: u128, receivers: usize)
        ensures
            receivers == 0 ==> final(self)@ == old(self)@.remove(doc_id),
            receivers != 0 ==> final(self)@ == old(self)@,
    {
        if receivers == 0 {
            self.rooms.remove(&doc_id);
        }
    }

    /// Drop the room's channel if nobody is subscribed to it anymore, so the registry
    /// doesn't grow forever as documents are opened and closed. Returns the receiver
    /// count the room's channel reported (`None` for an unknown room): the room is
    /// dropped exactly when that count is 0, and an unknown room changes nothing.
    pub fn cleanup_if_empty(&mut self, doc_id: u128) -> (observed: Option<usize>)
        ensures
            old(self)@.contains_key(doc_id) <==> observed is Some,
            observed is None ==> final(self)@ == old(self)@,
            observed == Some(0usize) ==> final(self)@ == old(self)@.remove(doc_id),
            observed matches Some(n) && n != 0 ==> final(self)@ == old(self)@,
    {
        let count = match self.rooms.get(&doc_id) {
            Some(sender) => Some(receiver_count(sender)),
            None => None,
        };
        if let Some(receivers) = count {
            self.remove_if_unsubscribed(doc_id, receivers);
        }
        count
    }
}

} // verus!
