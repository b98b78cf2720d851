use vstd::prelude::*;
use crate::json::{JsonValue, JsonView, string_eq};
use crate::node::{FlatNode, FlatNodeView, Node, flat_of};
use crate::update::same_kind;

verus! {

/// What a rendered child is matched on against the current children: text
/// nodes all match each other; elements match on their tag and `id` attribute.
#[derive(Debug)]
pub enum NodeMatchKey {
    Text,
    Element { tag: String, id: Option<JsonValue> },
}

/// Mathematical view of a [`NodeMatchKey`].
pub enum NodeMatchKeyView {
    Text,
    Element { tag: Seq<char>, id: Option<JsonView> },
}

impl View for NodeMatchKey {
    type V = NodeMatchKeyView;

    open spec fn view(&self) -> NodeMatchKeyView {
        match self {
            NodeMatchKey::Text => NodeMatchKeyView::Text,
            NodeMatchKey::Element { tag, id } => NodeMatchKeyView::Element {
                tag: tag@,
                id: match id {
                    Some(v) => Some(v@),
                    None => None,
                },
            },
        }
    }
}

/// The match key of a flat node.
pub open spec fn key_of(n: FlatNodeView) -> NodeMatchKeyView {
    match n {
        FlatNodeView::Text(_) => NodeMatchKeyView::Text,
        FlatNodeView::Element(e) => NodeMatchKeyView::Element {
            tag: e.tag,
            id: if e.attributes.contains_key("id"@) {
                Some(e.attributes["id"@])
            } else {
                None
            },
        },
    }
}

/// Nodes with equal keys are of the same kind, and elements share their tag.
pub proof fn lemma_key_same_kind(a: FlatNodeView, b: FlatNodeView)
    requires
        key_of(a) == key_of(b),
    ensures
        same_kind(a, b),
        a is Element ==> a->Element_0.tag == b->Element_0.tag,
{
}

/// Two nodes match exactly when both are text, or both are elements with
/// the same tag that either both lack an `id` attribute or have the same
/// value for it: a rendered element keeps the node whose `id` it repeats,
/// and never takes one with another `id`.
pub proof fn lemma_key_matches(a: FlatNodeView, b: FlatNodeView)
    ensures
        key_of(a) == key_of(b) <==> {
            ||| a is Text && b is Text
            ||| {
                &&& a is Element
                &&& b is Element
                &&& a->Element_0.tag == b->Element_0.tag
                &&& a->Element_0.attributes.contains_key("id"@) == b->Element_0.attributes.contains_key("id"@)
                &&& a->Element_0.attributes.contains_key("id"@) ==> a->Element_0.attributes["id"@]
                    == b->Element_0.attributes["id"@]
            }
        },
{
}

/// Changing an element's attributes other than `id` keeps its key, so a
/// re-rendered element with new attributes still matches its node.
pub proof fn lemma_key_ignores_other_attributes(a: FlatNodeView, k: Seq<char>, v: JsonView)
    requires
        a is Element,
        k != "id"@,
    ensures
        key_of(a) == key_of(FlatNodeView::Element(crate::node::FlatElementView {
            tag: a->Element_0.tag,
            attributes: a->Element_0.attributes.insert(k, v),
        })),
{
    let b = FlatNodeView::Element(crate::node::FlatElementView {
        tag: a->Element_0.tag,
        attributes: a->Element_0.attributes.insert(k, v),
    });
    assert(b->Element_0.attributes.contains_key("id"@) == a->Element_0.attributes.contains_key("id"@));
}

impl NodeMatchKey {
    fn from_attrs(tag: &String, attributes: &crate::attrs::Attributes) -> (r: NodeMatchKey)
        ensures
            r@ == key_of(FlatNodeView::Element(crate::node::FlatElementView { tag: tag@, attributes: attributes@ })),
    {
        let id = match attributes.get("id") {
            Some(v) => Some(v.duplicate()),
            None => None,
        };
        NodeMatchKey::Element { tag: tag.clone(), id }
    }

    /// The key of a flat node.
    pub fn from_flat_node(n: &FlatNode) -> (r: NodeMatchKey)
        ensures
            r@ == key_of(n@),
    {
        match n {
            FlatNode::Text(_) => NodeMatchKey::Text,
            FlatNode::Element(e) => Self::from_attrs(&e.tag, &e.attributes),
        }
    }

    /// The key of a node to render.
    pub fn from_node(n: &Node) -> (r: NodeMatchKey)
        ensures
            r@ == key_of(flat_of(*n)),
    {
        match n {
            Node::Text(_) => NodeMatchKey::Text,
            Node::Element(e) => Self::from_attrs(&e.element.tag, &e.element.attributes),
        }
    }

    /// Whether two keys are equal.
    pub fn same_as(&self, other: &NodeMatchKey) -> (r: bool)
        ensures
            r == (self@ == other@),
    {
        match (self, other) {
            (NodeMatchKey::Text, NodeMatchKey::Text) => true,
            (NodeMatchKey::Element { tag: t1, id: i1 }, NodeMatchKey::Element { tag: t2, id: i2 }) => {
                if !string_eq(t1, t2) {
                    return false;
                }
                match (i1, i2) {
                    (Some(a), Some(b)) => a.same_as(b),
                    (None, None) => true,
                    _ => false,
                }
            },
            _ => false,
        }
    }
}

} // verus!
