//! The relay server's request and wire-protocol types.

use vstd::prelude::*;

verus! {

/// A JSON value (`serde_json::Value`), carried through the relay unread.
#[verifier::external_type_specification]
#[verifier::external_body]
pub struct ExJsonValue(serde_json::Value);

/// Copies a JSON value (`serde_json::Value`'s `Clone`, which it derives). Nothing is
/// stated of the copy; the relay only moves values.
pub assume_specification[ <serde_json::Value as Clone>::clone ](v: &serde_json::Value) -> serde_json::Value;

/// The body of a request that creates a document.
#[derive(Debug)]
pub struct CreateDocRequest {
    pub title: Option<String>,
}

/// The WebSocket wire protocol. The relay never interprets `payload`: it is an opaque,
/// already-serialized CRDT operation as far as the server is concerned. Presence
/// (cursor) messages are relayed the same way but never persisted.
#[derive(Debug, Clone)]
pub enum WsMessage {
    /// Client to server: a local edit to persist and broadcast.
    /// Server to other clients: a relayed edit from someone else.
    Op { payload: serde_json::Value, site_id: Option<i64> },
    /// Either direction: a live cursor/selection position. Never persisted.
    Cursor { user_id: String, index: u32 },
    /// Server to client only, sent once right after a successful connection:
    /// the full ordered op log so the client can reconstruct the document.
    History { ops: Vec<serde_json::Value> },
}

} // verus!
