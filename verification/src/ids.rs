use vstd::prelude::*;

verus! {

/// The identity of a node in the world.
#[derive(Debug, Clone, Copy, PartialEq, Eq, Structural, PartialOrd, Ord, Hash)]
pub struct NodeId(pub u64);

/// The identity of a client connection.
#[derive(Debug, Clone, Copy, PartialEq, Eq, Structural, PartialOrd, Ord, Hash)]
pub struct ConnectionId(pub u64);

/// The raw value of the root node's identity.
pub const ROOT_NODE_RAW: u64 = 0;

/// The root node of the world, the parent of every window.
pub fn root_node_id() -> (r: NodeId)
    ensures
        r.0 == ROOT_NODE_RAW,
{
    NodeId(ROOT_NODE_RAW)
}

} // verus!
