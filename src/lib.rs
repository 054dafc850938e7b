//! A multi-client line-broadcast server core.
//!
//! Clients send newline-delimited text; every line is acknowledged to its
//! sender and fanned out to every other connected client. This crate holds
//! the verified parts of that protocol: identifier assignment, line framing,
//! the per-connection state machine and the synchronous fan-out used by a
//! polling server. Sockets, tasks and the asynchronous channel live with the
//! caller.

pub mod framer;
pub mod handler;
pub mod hub;
pub mod protocol;
pub mod registry;

pub use framer::LineFramer;
pub use handler::{Action, ConnectionHandler, Event, Phase, BROADCAST_CAPACITY};
pub use hub::{Outgoing, PollingHub};
pub use protocol::{ack_message, broadcast_message, login_message};
pub use registry::{ClientId, ClientRegistry};
