//! The relay's decisions for one WebSocket connection: whether a document may be
//! opened, what to do with each message a client sends, and which room messages to
//! forward to it.

use vstd::prelude::*;
use crate::models::WsMessage;

verus! {

/// One message traveling through a room's broadcast channel, tagged with the
/// connection that produced it so that connection can skip re-forwarding its own
/// message back to itself (every connection both publishes to and subscribes to the
/// same channel). Connection ids are UUIDs, held as their 128-bit value.
#[derive(Debug, Clone)]
pub struct Envelope {
    pub sender: u128,
    pub message: WsMessage,
}

/// What looking up a document before a WebSocket upgrade found.
#[derive(Debug, Clone, Copy, PartialEq, Eq, Structural)]
pub enum DocLookup {
    Found,
    Missing,
    Failed,
}

/// The answer to a WebSocket upgrade request.
#[derive(Debug, Clone, Copy, PartialEq, Eq)]
pub enum Upgrade {
    /// Upgrade the connection and start relaying.
    Accept,
    /// Answer with this HTTP status and body instead.
    Reject { status: u16, reason: &'static str },
}

/// What to do with a message a client sent.
#[derive(Debug, Clone)]
pub enum ClientAction {
    /// Append the edit to the durable log, then broadcast it (see `relay_persisted`).
    Persist { payload: serde_json::Value, site_id: Option<i64> },
    /// Broadcast this envelope to the room right away, without persisting it.
    Broadcast(Envelope),
    /// Drop the message.
    Ignore,
}

/// The two document endpoints: `POST /docs` creates a document, `GET /docs` lists them.
#[derive(Debug, Clone, Copy, PartialEq, Eq, Structural)]
pub enum DocsEndpoint {
    Create,
    List,
}

/// The HTTP answer of a document endpoint.
#[derive(Debug, Clone, Copy, PartialEq, Eq)]
pub enum DocsReply {
    /// Answer with this status and the record(s) the database returned.
    Success { status: u16 },
    /// Answer with this status and body.
    Failure { status: u16, reason: &'static str },
}

/// A created document is answered with 201, a listing with 200; when the database
/// call failed, both answer 500 with a short reason.
pub fn docs_reply(endpoint: DocsEndpoint, succeeded: bool) -> (r: DocsReply)
    ensures
        succeeded && endpoint == DocsEndpoint::Create ==> r == (DocsReply::Success { status: 201 }),
        succeeded && endpoint == DocsEndpoint::List ==> r == (DocsReply::Success { status: 200 }),
        !succeeded && endpoint == DocsEndpoint::Create ==> r == (DocsReply::Failure {
            status: 500,
            reason: "failed to create document",
        }),
        !succeeded && endpoint == DocsEndpoint::List ==> r == (DocsReply::Failure {
            status: 500,
            reason: "failed to list documents",
        }),
{
    match (endpoint, succeeded) {
        (DocsEndpoint::Create, true) => DocsReply::Success { status: 201 },
        (DocsEndpoint::List, true) => DocsReply::Success { status: 200 },
        (DocsEndpoint::Create, false) => DocsReply::Failure { status: 500, reason: "failed to create document" },
        (DocsEndpoint::List, false) => DocsReply::Failure { status: 500, reason: "failed to list documents" },
    }
}

/// A connection is upgraded only for a document that exists; a missing document is a
/// 404 and a failed lookup a 500.
pub fn upgrade_decision(lookup: DocLookup) -> (r: Upgrade)
    ensures
        lookup == DocLookup::Found ==> r == Upgrade::Accept,
        lookup == DocLookup::Missing ==> r == (Upgrade::Reject { status: 404, reason: "document not found" }),
        lookup == DocLookup::Failed ==> r == (Upgrade::Reject { status: 500, reason: "database error" }),
{
    match lookup {
        DocLookup::Found => Upgrade::Accept,
        DocLookup::Missing => Upgrade::Reject { status: 404, reason: "document not found" },
        DocLookup::Failed => Upgrade::Reject { status: 500, reason: "database error" },
    }
}

/// Edits are persisted before anyone else sees them; cursor positions are broadcast
/// at once and never persisted; a `History` message from a client is ignored (it only
/// ever flows from server to client).
pub fn route_client_message(conn: u128, msg: WsMessage) -> (r: ClientAction)
    ensures
        match msg {
            WsMessage::Op { payload, site_id } => r == (ClientAction::Persist { payload, site_id }),
            WsMessage::Cursor { .. } => r == ClientAction::Broadcast(Envelope { sender: conn, message: msg }),
            WsMessage::History { .. } => r == ClientAction::Ignore,
        },
        client_action_of(conn, msg, r),
{
    match msg {
        WsMessage::Op { payload, site_id } => ClientAction::Persist { payload, site_id },
        WsMessage::Cursor { user_id, index } => ClientAction::Broadcast(
            Envelope { sender: conn, message: WsMessage::Cursor { user_id, index } },
        ),
        WsMessage::History { .. } => ClientAction::Ignore,
    }
}

/// An edit is broadcast, tagged with its connection, only once it was persisted; an
/// edit that failed to persist is not relayed.
pub fn relay_persisted(persisted: bool, conn: u128, payload: serde_json::Value, site_id: Option<i64>) -> (r: Option<Envelope>)
    ensures
        persisted ==> r == Some(Envelope { sender: conn, message: WsMessage::Op { payload, site_id } }),
        !persisted ==> r is None,
{
    if persisted {
        Some(Envelope { sender: conn, message: WsMessage::Op { payload, site_id } })
    } else {
        None
    }
}

/// A connection forwards every room message except its own: the server never echoes a
/// client's message back to it.
pub fn should_forward(envelope: &Envelope, conn: u128) -> (r: bool)
    ensures
        r == (envelope.sender != conn),
{
    envelope.sender != conn
}


/// The first message of a connection: the full op log, or an empty log when it could
/// not be loaded (the client then starts from an empty document).
pub fn history_message(loaded: Option<Vec<serde_json::Value>>) -> (r: WsMessage)
    ensures
        match loaded {
            Some(ops) => r == (WsMessage::History { ops }),
            None => r is History && r->ops@ == Seq::<serde_json::Value>::empty(),
        },
{
    match loaded {
        Some(ops) => WsMessage::History { ops },
        None => WsMessage::History { ops: Vec::new() },
    }
}

/// Whether a connection keeps going.
#[derive(Debug, Clone, Copy, PartialEq, Eq, Structural)]
pub enum Flow {
    Continue,
    Stop,
}

/// A connection that can no longer be written to is finished.
pub fn after_send(delivered: bool) -> (r: Flow)
    ensures
        r == (if delivered { Flow::Continue } else { Flow::Stop }),
{
    if delivered {
        Flow::Continue
    } else {
        Flow::Stop
    }
}

/// What the connection's room subscription produced next.
#[derive(Debug, Clone)]
pub enum RoomEvent {
    /// A message published to the room.
    Received(Envelope),
    /// The subscription failed: the channel closed, or this connection fell behind
    /// and missed messages.
    Failed,
}

/// What to do with a room event.
#[derive(Debug, Clone)]
pub enum RoomStep {
    /// Send this message to the client.
    Forward(WsMessage),
    /// Drop it and wait for the next one.
    Skip,
    /// Stop forwarding.
    Stop,
}

/// Room messages from other connections are forwarded, the connection's own are
/// skipped (never echoed), and a failed subscription ends the forwarding.
pub fn on_room_event(conn: u128, event: RoomEvent) -> (r: RoomStep)
    ensures
        match event {
            RoomEvent::Received(envelope) => if envelope.sender == conn {
                r is Skip
            } else {
                r == RoomStep::Forward(envelope.message)
            },
            RoomEvent::Failed => r is Stop,
        },
{
    match event {
        RoomEvent::Received(envelope) => {
            if should_forward(&envelope, conn) {
                RoomStep::Forward(envelope.message)
            } else {
                RoomStep::Skip
            }
        },
        RoomEvent::Failed => RoomStep::Stop,
    }
}

/// What the client's side of the socket produced next.
#[derive(Debug, Clone)]
pub enum ClientEvent {
    /// A text frame that parsed as a wire message.
    Message(WsMessage),
    /// A text frame that did not parse.
    Malformed,
    /// A close frame.
    Close,
    /// Any other frame (binary, ping, pong).
    Other,
    /// The stream ended or failed.
    Ended,
}

/// What to do with a client event.
#[derive(Debug, Clone)]
pub enum ClientStep {
    /// Carry out this action, then read on.
    Act(ClientAction),
    /// Read on.
    Continue,
    /// Stop reading.
    Stop,
}

/// Parsed messages are routed by `route_client_message`; malformed text and
/// non-text frames are ignored; a close frame or the end of the stream stops reading.
pub fn on_client_event(conn: u128, event: ClientEvent) -> (r: ClientStep)
    ensures
        match event {
            ClientEvent::Message(WsMessage::Op { payload, site_id }) => r == ClientStep::Act(
                ClientAction::Persist { payload, site_id },
            ),
            ClientEvent::Message(WsMessage::Cursor { user_id, index }) => r == ClientStep::Act(
                ClientAction::Broadcast(Envelope { sender: conn, message: WsMessage::Cursor { user_id, index } }),
            ),
            ClientEvent::Message(WsMessage::History { .. }) => r == ClientStep::Act(ClientAction::Ignore),
            ClientEvent::Malformed | ClientEvent::Other => r is Continue,
            ClientEvent::Close | ClientEvent::Ended => r is Stop,
        },
        event matches ClientEvent::Message(msg) ==> (r matches ClientStep::Act(a) && client_action_of(
            conn,
            msg,
            a,
        )),
{
    match event {
        ClientEvent::Message(msg) => ClientStep::Act(route_client_message(conn, msg)),
        ClientEvent::Malformed | ClientEvent::Other => ClientStep::Continue,
        ClientEvent::Close | ClientEvent::Ended => ClientStep::Stop,
    }
}

/// `a` is what `route_client_message(conn, msg)` answers.
pub open spec fn client_action_of(conn: u128, msg: WsMessage, a: ClientAction) -> bool {
    match msg {
        WsMessage::Op { payload, site_id } => a == (ClientAction::Persist { payload, site_id }),
        WsMessage::Cursor { .. } => a == ClientAction::Broadcast(Envelope { sender: conn, message: msg }),
        WsMessage::History { .. } => a == ClientAction::Ignore,
    }
}

/// What a client's message leads to: an edit is persisted with its payload and site id
/// untouched (and only then relayed), a cursor is broadcast at once tagged with the
/// sending connection, and a `History` message leads to nothing. Each message has
/// exactly one action.
pub proof fn lemma_client_messages_are_routed(conn: u128, msg: WsMessage, a: ClientAction, b: ClientAction)
    ensures
        msg matches WsMessage::Op { payload, site_id } ==> (client_action_of(conn, msg, a) <==> a
            is Persist && a->Persist_payload == payload && a->Persist_site_id == site_id),
        msg is Cursor ==> (client_action_of(conn, msg, a) <==> a is Broadcast && a->Broadcast_0.sender
            == conn && a->Broadcast_0.message == msg),
        msg is History ==> (client_action_of(conn, msg, a) <==> a is Ignore),
        client_action_of(conn, msg, a) && client_action_of(conn, msg, b) ==> a == b,
        !(client_action_of(conn, msg, a) && msg is Op && a is Ignore),
{
}

} // verus!
