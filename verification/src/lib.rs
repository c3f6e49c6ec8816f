//! A replicated growable array (RGA) sequence CRDT for collaborative plain-text
//! editing, with the relay server's room registry and message routing rules.

pub mod convergence;
pub mod doc;
pub mod history;
pub mod id;
pub mod layout;
pub mod models;
pub mod op;
pub mod relay;
pub mod rga;
pub mod rooms;

pub use doc::Doc;
pub use id::OpId;
pub use models::{CreateDocRequest, WsMessage};
pub use op::Operation;
pub use relay::Envelope;
pub use rga::{Node, Rga};
