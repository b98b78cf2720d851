use vstd::prelude::*;
use std::sync::Arc;
use crate::ids::NodeId;
use crate::node::{FlatNode, FlatNodeView};
use crate::update::{NodeUpdate, NodeUpdateView};

verus! {

/// Create a new node in the world.
#[derive(Debug, PartialEq, Eq)]
pub struct CreatedNodeChange {
    /// The ID of the new node.
    pub id: NodeId,
    /// The ID of the parent node for the new node.
    pub parent_id: NodeId,
    /// The child node within the parent that this node comes before, or
    /// `None` if the new node was added to the end of the parent node.
    pub before_sibling_id: Option<NodeId>,
    /// The content of the new node. Every node starts without any children;
    /// child nodes are created with further changes.
    pub node: Arc<FlatNode>,
}

/// Update the content of an existing node.
#[derive(Debug, PartialEq, Eq)]
pub struct UpdatedNodeChange {
    /// The ID of the node to update.
    pub id: NodeId,
    pub update: NodeUpdate,
}

/// Move an existing node somewhere else in the tree.
#[derive(Debug, PartialEq, Eq)]
pub struct MovedNodeChange {
    /// The ID of the node to move.
    pub id: NodeId,
    /// The ID of new parent for the node.
    pub parent_id: NodeId,
    /// The child node within the parent that this node comes before, or
    /// `None` if the node was moved to the end of the parent node.
    pub before_sibling_id: Option<NodeId>,
}

/// Delete an existing node.
#[derive(Debug, PartialEq, Eq)]
pub struct DeletedNodeChange {
    /// The ID of the node to delete.
    pub id: NodeId,
}

/// One change to the world's tree of nodes.
#[derive(Debug, PartialEq, Eq)]
pub enum WorldChange {
    /// Create a new node, parented under an existing node.
    Created(CreatedNodeChange),
    /// Update the content of an existing node.
    Updated(UpdatedNodeChange),
    /// Move an existing node somewhere else in the tree.
    Moved(MovedNodeChange),
    /// Delete an existing node. Each descendent will also include a deletion
    /// change (either before or after its ancestors' deletions).
    Deleted(DeletedNodeChange),
}

/// Mathematical view of a [`WorldChange`].
pub enum ChangeView {
    Created { id: u64, parent: u64, before: Option<u64>, node: FlatNodeView },
    Updated { id: u64, update: NodeUpdateView },
    Moved { id: u64, parent: u64, before: Option<u64> },
    Deleted { id: u64 },
}

/// The raw value of an optional node identity.
pub open spec fn opt_raw(id: Option<NodeId>) -> Option<u64> {
    match id {
        Some(n) => Some(n.0),
        None => None,
    }
}

impl View for WorldChange {
    type V = ChangeView;

    open spec fn view(&self) -> ChangeView {
        match self {
            WorldChange::Created(c) => ChangeView::Created {
                id: c.id.0,
                parent: c.parent_id.0,
                before: opt_raw(c.before_sibling_id),
                node: c.node@,
            },
            WorldChange::Updated(c) => ChangeView::Updated { id: c.id.0, update: c.update@ },
            WorldChange::Moved(c) => ChangeView::Moved {
                id: c.id.0,
                parent: c.parent_id.0,
                before: opt_raw(c.before_sibling_id),
            },
            WorldChange::Deleted(c) => ChangeView::Deleted { id: c.id.0 },
        }
    }
}

impl From<CreatedNodeChange> for WorldChange {
    fn from(value: CreatedNodeChange) -> (r: WorldChange) {
        WorldChange::Created(value)
    }
}

impl vstd::std_specs::convert::FromSpecImpl<CreatedNodeChange> for WorldChange {
    open spec fn obeys_from_spec() -> bool {
        true
    }

    open spec fn from_spec(v: CreatedNodeChange) -> WorldChange {
        WorldChange::Created(v)
    }
}

impl From<UpdatedNodeChange> for WorldChange {
    fn from(value: UpdatedNodeChange) -> (r: WorldChange) {
        WorldChange::Updated(value)
    }
}

impl vstd::std_specs::convert::FromSpecImpl<UpdatedNodeChange> for WorldChange {
    open spec fn obeys_from_spec() -> bool {
        true
    }

    open spec fn from_spec(v: UpdatedNodeChange) -> WorldChange {
        WorldChange::Updated(v)
    }
}

impl From<MovedNodeChange> for WorldChange {
    fn from(value: MovedNodeChange) -> (r: WorldChange) {
        WorldChange::Moved(value)
    }
}

impl vstd::std_specs::convert::FromSpecImpl<MovedNodeChange> for WorldChange {
    open spec fn obeys_from_spec() -> bool {
        true
    }

    open spec fn from_spec(v: MovedNodeChange) -> WorldChange {
        WorldChange::Moved(v)
    }
}

impl From<DeletedNodeChange> for WorldChange {
    fn from(value: DeletedNodeChange) -> (r: WorldChange) {
        WorldChange::Deleted(value)
    }
}

impl vstd::std_specs::convert::FromSpecImpl<DeletedNodeChange> for WorldChange {
    open spec fn obeys_from_spec() -> bool {
        true
    }

    open spec fn from_spec(v: DeletedNodeChange) -> WorldChange {
        WorldChange::Deleted(v)
    }
}

/// The views of a list of changes.
pub open spec fn changes_view(s: Seq<WorldChange>) -> Seq<ChangeView> {
    s.map_values(|c: WorldChange| c@)
}

/// A batch of changes to the world, in the order they were made.
#[derive(Debug, PartialEq, Eq)]
pub struct WorldDidChangeResponse {
    pub changes: Vec<WorldChange>,
}

impl View for WorldDidChangeResponse {
    type V = Seq<ChangeView>;

    open spec fn view(&self) -> Seq<ChangeView> {
        changes_view(self.changes@)
    }
}

impl Default for WorldDidChangeResponse {
    fn default() -> (r: WorldDidChangeResponse)
        ensures
            r@ == Seq::<ChangeView>::empty(),
    {
        let r = WorldDidChangeResponse { changes: Vec::new() };
        assert(r@ =~= Seq::<ChangeView>::empty());
        r
    }
}

impl WorldDidChangeResponse {
    /// Whether the batch holds no change.
    pub fn is_empty(&self) -> (r: bool)
        ensures
            r == (self@.len() == 0),
    {
        self.changes.len() == 0
    }

    /// Appends a change to the batch.
    pub fn push(&mut self, change: WorldChange)
        ensures
            final(self)@ == old(self)@.push(change@),
    {
        self.changes.push(change);
        assert(final(self)@ =~= old(self)@.push(change@));
    }
}

} // verus!
