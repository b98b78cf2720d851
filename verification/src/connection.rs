use vstd::prelude::*;
use crate::ids::ConnectionId;

verus! {

/// Versions of the protocol spoken between clients and the world.
#[derive(Debug, Clone, Copy, PartialEq, Eq, Structural)]
pub enum WeirdProtocolVersion {
    V0_1_0,
}

impl WeirdProtocolVersion {
    /// The version this library speaks.
    pub const CURRENT: WeirdProtocolVersion = WeirdProtocolVersion::V0_1_0;
}

/// Where a connection came from.
#[derive(Debug, Clone, Copy, PartialEq, Eq, Structural)]
pub enum ConnectionSource {
    /// A client on the local Unix socket.
    UnixSocket,
    /// A client over a WebSocket.
    WebSocket,
    /// Any other kind of client.
    Other,
}

/// What a client sends when it connects.
#[derive(Debug, PartialEq, Eq)]
pub struct InitRequest {
    pub weird_protocol_version: WeirdProtocolVersion,
    /// The name of the client library.
    pub client: Option<String>,
    /// The name of the application behind the client.
    pub app: Option<String>,
}

impl Default for InitRequest {
    fn default() -> (r: InitRequest)
        ensures
            r.weird_protocol_version == WeirdProtocolVersion::CURRENT,
            r.client is None,
            r.app is None,
    {
        InitRequest { weird_protocol_version: WeirdProtocolVersion::CURRENT, client: None, app: None }
    }
}

/// What the world answers a client that connects.
#[derive(Debug, PartialEq, Eq)]
pub struct InitResponse {
    pub weird_protocol_version: WeirdProtocolVersion,
    pub connection_id: ConnectionId,
}

/// A snapshot of one connection.
#[derive(Debug, PartialEq, Eq)]
pub struct ConnectionDetails {
    pub connection_id: ConnectionId,
    pub connected: bool,
    pub weird_protocol_version: WeirdProtocolVersion,
    pub client: Option<String>,
}

/// A connection went away.
#[derive(Debug, PartialEq, Eq)]
pub struct DisconnectedEvent {
    pub connection_id: ConnectionId,
}

/// A change in the set of connections.
#[derive(Debug, PartialEq, Eq)]
pub enum ConnectionEvent {
    Connected(ConnectionDetails),
    Disconnected(DisconnectedEvent),
}

/// Why a connection was refused.
#[derive(Debug, PartialEq, Eq)]
pub enum CreateConnectionError {
    ProtocolVersionMismatch { client: WeirdProtocolVersion, current: WeirdProtocolVersion },
}

/// Why an event could not be triggered.
#[derive(Debug, PartialEq, Eq)]
pub enum TriggerEventFailed {
    NoConnectionForNode,
}

/// Why the children of a node could not be set.
#[derive(Debug, PartialEq, Eq)]
pub enum SetNodeChildrenFailed {
    NodeNotFound,
    InvalidNodeType,
}

/// A copy of an optional string.
pub fn clone_opt_string(s: &Option<String>) -> (r: Option<String>)
    ensures
        r == *s,
{
    match s {
        Some(t) => Some(t.clone()),
        None => None,
    }
}

} // verus!
