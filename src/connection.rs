use vstd::prelude::*;

use crate::connection_error::{ConnectionError, ConnectionResult};

verus! {

/// The identifier the manager hands out for a connection.
pub type ConnectionId = String;

/// Whether a call of `poll` made progress on any connection.
pub type DidWork = bool;

/// A fact about one connection, delivered to the caller once.
#[derive(Debug, PartialEq, Clone)]
pub enum ConnectionEvent {
    ConnectionError(ConnectionId, ConnectionError),
    Connect(ConnectionId),
    Message(ConnectionId, Vec<u8>),
    Close(ConnectionId),
}

/// An event with its strings and bytes seen as sequences.
pub enum EventView {
    Error(Seq<char>, Seq<char>),
    Connect(Seq<char>),
    Message(Seq<char>, Seq<u8>),
    Close(Seq<char>),
}

impl View for ConnectionEvent {
    type V = EventView;

    open spec fn view(&self) -> EventView {
        match self {
            ConnectionEvent::ConnectionError(id, e) => EventView::Error(id@, e.0@),
            ConnectionEvent::Connect(id) => EventView::Connect(id@),
            ConnectionEvent::Message(id, m) => EventView::Message(id@, m@),
            ConnectionEvent::Close(id) => EventView::Close(id@),
        }
    }
}

/// The operations of a connection manager.
pub trait Connection {
    /// Opens a connection to `uri` and returns its id without waiting for any handshake.
    fn connect(&mut self, uri: &str) -> ConnectionResult<ConnectionId>;

    /// Shuts the connection down; fails on an unknown id.
    fn close(&mut self, id: ConnectionId) -> ConnectionResult<()>;

    /// Makes one step of progress on every connection and drains the events.
    fn poll(&mut self) -> ConnectionResult<(DidWork, Vec<ConnectionEvent>)>;

    /// Queues `payload` for each connection of `id_list`.
    fn send(&mut self, id_list: Vec<ConnectionId>, payload: Vec<u8>) -> ConnectionResult<()>;
}

} // verus!
