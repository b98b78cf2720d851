use vstd::prelude::*;
use crate::json::{JsonValue, JsonView, string_eq};
use crate::attrs::Attributes;

verus! {

/// Mathematical view of a [`FlatElement`].
pub struct FlatElementView {
    pub tag: Seq<char>,
    pub attributes: Map<Seq<char>, JsonView>,
}

/// Mathematical view of a [`FlatNode`].
pub enum FlatNodeView {
    Text(Seq<char>),
    Element(FlatElementView),
}

/// The map `m` after setting each entry of `s`, in order.
pub open spec fn insert_all(m: Map<Seq<char>, JsonView>, s: Seq<(String, JsonValue)>) -> Map<Seq<char>, JsonView>
    decreases s.len(),
{
    if s.len() == 0 {
        m
    } else {
        insert_all(m, s.drop_last()).insert(s.last().0@, s.last().1@)
    }
}

/// The view of an element whose `id` attribute is set to `id`.
pub open spec fn with_id(e: FlatElementView, id: Seq<char>) -> FlatElementView {
    FlatElementView { tag: e.tag, attributes: e.attributes.insert("id"@, JsonView::String(id)) }
}

/// An element without its children: a tag and attributes.
#[derive(Debug, PartialEq, Eq)]
pub struct FlatElement {
    pub tag: String,
    pub attributes: Attributes,
}

impl View for FlatElement {
    type V = FlatElementView;

    open spec fn view(&self) -> FlatElementView {
        FlatElementView { tag: self.tag@, attributes: self.attributes@ }
    }
}

fn insert_entries(attributes: &mut Attributes, attrs: &Vec<(String, JsonValue)>)
    ensures
        final(attributes)@ == insert_all(old(attributes)@, attrs@),
{
    let ghost m0 = attributes@;
    let n = attrs.len();
    for i in 0..n
        invariant
            n == attrs@.len(),
            attributes@ == insert_all(m0, attrs@.take(i as int)),
    {
        let (k, v) = &attrs[i];
        attributes.insert(k.clone(), v.duplicate());
        assert(attrs@.take(i + 1).drop_last() =~= attrs@.take(i as int));
    }
    assert(attrs@.take(n as int) =~= attrs@);
}

impl FlatElement {
    /// An element with tag `tag` and no attributes.
    pub fn new(tag: &str) -> (r: FlatElement)
        ensures
            r@ == (FlatElementView { tag: tag@, attributes: Map::empty() }),
    {
        FlatElement { tag: tag.to_string(), attributes: Attributes::new() }
    }

    /// This element with each of `attrs` set, in order.
    pub fn attrs(self, attrs: Vec<(String, JsonValue)>) -> (r: FlatElement)
        ensures
            r@ == (FlatElementView { tag: self@.tag, attributes: insert_all(self@.attributes, attrs@) }),
    {
        let mut e = self;
        insert_entries(&mut e.attributes, &attrs);
        e
    }

    /// This element with attribute `name` set to `value`.
    pub fn attr(self, name: &str, value: JsonValue) -> (r: FlatElement)
        ensures
            r@ == (FlatElementView { tag: self@.tag, attributes: self@.attributes.insert(name@, value@) }),
    {
        let mut e = self;
        e.attributes.insert(name.to_string(), value);
        e
    }

    /// This element with its `id` attribute set to the string `id`.
    pub fn id(self, id: &str) -> (r: FlatElement)
        ensures
            r@ == with_id(self@, id@),
    {
        self.attr("id", JsonValue::string(id))
    }

    /// A copy of this element.
    pub fn duplicate(&self) -> (r: FlatElement)
        ensures
            r@ == self@,
    {
        FlatElement { tag: self.tag.clone(), attributes: self.attributes.duplicate() }
    }
}

/// A node without its children: a text, or an element's tag and attributes.
#[derive(Debug, PartialEq, Eq)]
pub enum FlatNode {
    Text(String),
    Element(FlatElement),
}

impl View for FlatNode {
    type V = FlatNodeView;

    open spec fn view(&self) -> FlatNodeView {
        match self {
            FlatNode::Text(t) => FlatNodeView::Text(t@),
            FlatNode::Element(e) => FlatNodeView::Element(e@),
        }
    }
}

/// The `id` of a flat node: the text of its `id` attribute when that is a string.
pub open spec fn flat_id(n: FlatNodeView) -> Option<Seq<char>> {
    match n {
        FlatNodeView::Element(e) => if e.attributes.contains_key("id"@) {
            match e.attributes["id"@] {
                JsonView::String(s) => Some(s),
                _ => None,
            }
        } else {
            None
        },
        FlatNodeView::Text(_) => None,
    }
}

/// A node names the identity `s` exactly when it is an element whose `id`
/// attribute is the string `s`; text nodes and elements without a string
/// `id` name none.
pub proof fn lemma_flat_id_exactly(n: FlatNodeView, s: Seq<char>)
    ensures
        flat_id(n) == Some(s) <==> (n is Element && n->Element_0.attributes.contains_key("id"@)
            && n->Element_0.attributes["id"@] == JsonView::String(s)),
        n is Text ==> flat_id(n) is None,
{
}

impl FlatNode {
    /// A text node.
    pub fn text(text: &str) -> (r: FlatNode)
        ensures
            r@ == FlatNodeView::Text(text@),
    {
        FlatNode::Text(text.to_string())
    }

    /// An element node with tag `tag` and no attributes.
    pub fn element(tag: &str) -> (r: FlatNode)
        ensures
            r@ == FlatNodeView::Element(FlatElementView { tag: tag@, attributes: Map::empty() }),
    {
        FlatNode::Element(FlatElement::new(tag))
    }

    /// This element node with each of `attrs` set, in order.
    pub fn attrs(self, attrs: Vec<(String, JsonValue)>) -> (r: FlatNode)
        requires
            self is Element,
        ensures
            r@ == FlatNodeView::Element(FlatElementView {
                tag: self->Element_0@.tag,
                attributes: insert_all(self->Element_0@.attributes, attrs@),
            }),
    {
        match self {
            FlatNode::Element(e) => FlatNode::Element(e.attrs(attrs)),
            FlatNode::Text(_) => FlatNode::Text(String::new()),
        }
    }

    /// This element node with attribute `name` set to `value`.
    pub fn attr(self, name: &str, value: JsonValue) -> (r: FlatNode)
        requires
            self is Element,
        ensures
            r@ == FlatNodeView::Element(FlatElementView {
                tag: self->Element_0@.tag,
                attributes: self->Element_0@.attributes.insert(name@, value@),
            }),
    {
        match self {
            FlatNode::Element(e) => FlatNode::Element(e.attr(name, value)),
            FlatNode::Text(_) => FlatNode::Text(String::new()),
        }
    }

    /// This element node with its `id` attribute set to the string `id`.
    pub fn id(self, id: &str) -> (r: FlatNode)
        requires
            self is Element,
        ensures
            r@ == FlatNodeView::Element(with_id(self->Element_0@, id@)),
    {
        match self {
            FlatNode::Element(e) => FlatNode::Element(e.id(id)),
            FlatNode::Text(_) => FlatNode::Text(String::new()),
        }
    }

    /// The text of the `id` attribute of an element node, when it is a string.
    pub fn get_id(&self) -> (r: Option<&str>)
        ensures
            match flat_id(self@) {
                Some(s) => r is Some && r->0@ == s,
                None => r is None,
            },
    {
        match self {
            FlatNode::Element(e) => match e.attributes.get("id") {
                Some(v) => v.as_str(),
                None => None,
            },
            FlatNode::Text(_) => None,
        }
    }

    /// Whether this is an element node.
    pub fn is_element(&self) -> (r: bool)
        ensures
            r == self is Element,
    {
        match self {
            FlatNode::Element(_) => true,
            FlatNode::Text(_) => false,
        }
    }

    /// A copy of this node.
    pub fn duplicate(&self) -> (r: FlatNode)
        ensures
            r@ == self@,
    {
        match self {
            FlatNode::Text(t) => FlatNode::Text(t.clone()),
            FlatNode::Element(e) => FlatNode::Element(e.duplicate()),
        }
    }
}

/// An element together with its children.
#[derive(Debug)]
pub struct Element {
    pub children: Vec<Node>,
    pub element: FlatElement,
}

/// A node together with its descendants: the shape that a client renders.
#[derive(Debug)]
pub enum Node {
    Text(String),
    Element(Element),
}

/// The flat part of a node: its text, or its element without children.
pub open spec fn flat_of(n: Node) -> FlatNodeView {
    match n {
        Node::Text(t) => FlatNodeView::Text(t@),
        Node::Element(e) => FlatNodeView::Element(e.element@),
    }
}

impl Element {
    /// An element with tag `tag`, no attributes and no children.
    pub fn new(tag: &str) -> (r: Element)
        ensures
            r.element@ == (FlatElementView { tag: tag@, attributes: Map::empty() }),
            r.children@ == Seq::<Node>::empty(),
    {
        Element { element: FlatElement::new(tag), children: Vec::new() }
    }

    /// This element with `nodes` appended to its children.
    pub fn children(self, nodes: Vec<Node>) -> (r: Element)
        ensures
            r.element == self.element,
            r.children@ == self.children@ + nodes@,
    {
        let mut e = self;
        let mut nodes = nodes;
        e.children.append(&mut nodes);
        e
    }

    /// This element with `node` appended to its children.
    pub fn child(self, node: Node) -> (r: Element)
        ensures
            r.element == self.element,
            r.children@ == self.children@.push(node),
    {
        let mut e = self;
        e.children.push(node);
        e
    }

    /// This element with each of `attrs` set, in order.
    pub fn attrs(self, attrs: Vec<(String, JsonValue)>) -> (r: Element)
        ensures
            r.element@ == (FlatElementView { tag: self.element@.tag, attributes: insert_all(self.element@.attributes, attrs@) }),
            r.children == self.children,
    {
        Element { element: self.element.attrs(attrs), children: self.children }
    }

    /// This element with attribute `name` set to `value`.
    pub fn attr(self, name: &str, value: JsonValue) -> (r: Element)
        ensures
            r.element@ == (FlatElementView { tag: self.element@.tag, attributes: self.element@.attributes.insert(name@, value@) }),
            r.children == self.children,
    {
        Element { element: self.element.attr(name, value), children: self.children }
    }

    /// This element with its `id` attribute set to the string `id`.
    pub fn id(self, id: &str) -> (r: Element)
        ensures
            r.element@ == with_id(self.element@, id@),
            r.children == self.children,
    {
        Element { element: self.element.id(id), children: self.children }
    }
}

impl Node {
    /// A text node.
    pub fn text(text: &str) -> (r: Node)
        ensures
            flat_of(r) == FlatNodeView::Text(text@),
    {
        Node::Text(text.to_string())
    }

    /// An element node with tag `tag`, no attributes and no children.
    pub fn element(tag: &str) -> (r: Node)
        ensures
            r is Element,
            flat_of(r) == FlatNodeView::Element(FlatElementView { tag: tag@, attributes: Map::empty() }),
            r->Element_0.children@ == Seq::<Node>::empty(),
    {
        Node::Element(Element::new(tag))
    }

    /// This element node with `nodes` appended to its children.
    pub fn children(self, nodes: Vec<Node>) -> (r: Node)
        requires
            self is Element,
        ensures
            r is Element,
            r->Element_0.element == self->Element_0.element,
            r->Element_0.children@ == self->Element_0.children@ + nodes@,
    {
        match self {
            Node::Element(e) => Node::Element(e.children(nodes)),
            Node::Text(t) => Node::Text(t),
        }
    }

    /// This element node with `node` appended to its children.
    pub fn child(self, node: Node) -> (r: Node)
        requires
            self is Element,
        ensures
            r is Element,
            r->Element_0.element == self->Element_0.element,
            r->Element_0.children@ == self->Element_0.children@.push(node),
    {
        match self {
            Node::Element(e) => Node::Element(e.child(node)),
            Node::Text(t) => Node::Text(t),
        }
    }

    /// This element node with each of `attrs` set, in order.
    pub fn attrs(self, attrs: Vec<(String, JsonValue)>) -> (r: Node)
        requires
            self is Element,
        ensures
            r is Element,
            r->Element_0.element@ == (FlatElementView {
                tag: self->Element_0.element@.tag,
                attributes: insert_all(self->Element_0.element@.attributes, attrs@),
            }),
            r->Element_0.children == self->Element_0.children,
    {
        match self {
            Node::Element(e) => Node::Element(e.attrs(attrs)),
            Node::Text(t) => Node::Text(t),
        }
    }

    /// This element node with attribute `name` set to `value`.
    pub fn attr(self, name: &str, value: JsonValue) -> (r: Node)
        requires
            self is Element,
        ensures
            r is Element,
            r->Element_0.element@ == (FlatElementView {
                tag: self->Element_0.element@.tag,
                attributes: self->Element_0.element@.attributes.insert(name@, value@),
            }),
            r->Element_0.children == self->Element_0.children,
    {
        match self {
            Node::Element(e) => Node::Element(e.attr(name, value)),
            Node::Text(t) => Node::Text(t),
        }
    }

    /// This element node with its `id` attribute set to the string `id`.
    pub fn id(self, id: &str) -> (r: Node)
        requires
            self is Element,
        ensures
            r is Element,
            r->Element_0.element@ == with_id(self->Element_0.element@, id@),
            r->Element_0.children == self->Element_0.children,
    {
        match self {
            Node::Element(e) => Node::Element(e.id(id)),
            Node::Text(t) => Node::Text(t),
        }
    }

    /// Splits a node into its flat part and, for an element, its children.
    pub fn into_flat_and_children(self) -> (r: (FlatNode, Option<Vec<Node>>))
        ensures
            r.0@ == flat_of(self),
            match self {
                Node::Text(_) => r.1 is None,
                Node::Element(e) => r.1 == Some(e.children),
            },
    {
        match self {
            Node::Text(t) => (FlatNode::Text(t), None),
            Node::Element(e) => (FlatNode::Element(e.element), Some(e.children)),
        }
    }
}

impl From<Element> for Node {
    fn from(value: Element) -> (r: Node) {
        Node::Element(value)
    }
}

impl vstd::std_specs::convert::FromSpecImpl<Element> for Node {
    open spec fn obeys_from_spec() -> bool {
        true
    }

    open spec fn from_spec(v: Element) -> Node {
        Node::Element(v)
    }
}

} // verus!
