//! A poll-driven manager for outbound secure WebSocket connections.
//!
//! The library holds the decisions: the lifecycle of each connection, the
//! connection table, the queue of outgoing payloads and the event queue.
//! The socket work (transport, TLS and WebSocket handshakes, frames) is done
//! by the caller's driver, which reports each outcome back as a plain value.

pub mod ids;

pub mod connection;
pub mod connection_error;
pub mod lifecycle;
pub mod table;
pub mod target;

pub use connection::{Connection, ConnectionEvent, ConnectionId, DidWork, EventView};
pub use connection_error::{ConnectionError, ConnectionResult};
pub use lifecycle::{Notice, Outcome, Phase, Progress, Received, Written};
pub use table::{ConnectionInfo, ConnectionTable, PendingSend};
pub use target::Target;
