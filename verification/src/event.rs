use vstd::prelude::*;
use crate::ids::{ConnectionId, NodeId};
use crate::json::{JsonValue, string_eq};
use crate::change::WorldDidChangeResponse;

verus! {

/// An event on a node, delivered to the connection that owns the node.
#[derive(Debug, PartialEq, Eq)]
pub struct Event {
    /// The `id` attribute of the target node, when it has a string one.
    pub target_id: Option<String>,
    pub target_node_id: NodeId,
    pub event: String,
    pub params: JsonValue,
}

impl Event {
    /// Whether this is the event `event` on the node whose `id` is `target_id`.
    pub fn is(&self, target_id: &str, event: &str) -> (r: bool)
        ensures
            r == (self.event@ == event@ && self.target_id is Some && self.target_id->0@ == target_id@),
    {
        let e = event.to_string();
        let t = target_id.to_string();
        proof {
            vstd::string::to_string_from_display_ensures_for_str(event, e);
            vstd::string::to_string_from_display_ensures_for_str(target_id, t);
        }
        string_eq(&self.event, &e) && match &self.target_id {
            Some(id) => string_eq(id, &t),
            None => false,
        }
    }
}

/// A request, from a client, to trigger an event on a node.
#[derive(Debug, PartialEq, Eq)]
pub struct TriggerEvent {
    pub target_node_id: NodeId,
    pub event: String,
    pub params: JsonValue,
}

/// What triggering an event does.
#[derive(Debug, PartialEq, Eq)]
pub enum TriggerOutcome {
    /// The event closed a top-level window: the window's connection is
    /// forgotten and the window deleted, with these changes.
    WindowClosed(WorldDidChangeResponse),
    /// The event is to be delivered to this connection.
    Deliver(ConnectionId, Event),
}

} // verus!
