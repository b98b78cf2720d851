use vstd::prelude::*;
use crate::json::{JsonValue, JsonView, string_eq};
use crate::attrs::Attributes;
use crate::names::AttributeNames;
use crate::node::{FlatElementView, FlatNode, FlatNodeView, Node, flat_of};

verus! {

/// The new text content of a text node.
#[derive(Debug, PartialEq, Eq)]
pub struct TextNodeUpdate {
    pub text: String,
}

impl TextNodeUpdate {
    /// An update that sets a text node's content to `text`.
    pub fn new(text: &str) -> (r: TextNodeUpdate)
        ensures
            r.text@ == text@,
    {
        TextNodeUpdate { text: text.to_string() }
    }
}

/// Attributes to set and attributes to remove on an element node.
#[derive(Debug, PartialEq, Eq)]
pub struct ElementNodeUpdate {
    /// Attributes to add or replace in the element.
    pub set_attributes: Attributes,
    /// Attributes to remove from the element.
    pub clear_attributes: AttributeNames,
}

impl Default for ElementNodeUpdate {
    fn default() -> (r: ElementNodeUpdate)
        ensures
            r.set_attributes@ == Map::<Seq<char>, JsonView>::empty(),
            r.clear_attributes@ == Set::<Seq<char>>::empty(),
    {
        ElementNodeUpdate { set_attributes: Attributes::new(), clear_attributes: AttributeNames::new() }
    }
}

impl ElementNodeUpdate {
    /// This update, also setting attribute `name` to `value`.
    pub fn set_attr(self, name: &str, value: JsonValue) -> (r: ElementNodeUpdate)
        ensures
            r.set_attributes@ == self.set_attributes@.insert(name@, value@),
            r.clear_attributes@ == self.clear_attributes@,
    {
        let mut u = self;
        u.set_attributes.insert(name.to_string(), value);
        u
    }

    /// This update, also removing attribute `name`.
    pub fn clear_attr(self, name: &str) -> (r: ElementNodeUpdate)
        ensures
            r.set_attributes@ == self.set_attributes@,
            r.clear_attributes@ == self.clear_attributes@.insert(name@),
    {
        let mut u = self;
        u.clear_attributes.insert(name.to_string());
        u
    }
}

/// A change to the content of one node.
#[derive(Debug, PartialEq, Eq)]
pub enum NodeUpdate {
    Text(TextNodeUpdate),
    Element(ElementNodeUpdate),
}

/// Mathematical view of a [`NodeUpdate`].
pub enum NodeUpdateView {
    Text(Seq<char>),
    Element { set: Map<Seq<char>, JsonView>, clear: Set<Seq<char>> },
}

impl View for NodeUpdate {
    type V = NodeUpdateView;

    open spec fn view(&self) -> NodeUpdateView {
        match self {
            NodeUpdate::Text(t) => NodeUpdateView::Text(t.text@),
            NodeUpdate::Element(e) => NodeUpdateView::Element {
                set: e.set_attributes@,
                clear: e.clear_attributes@,
            },
        }
    }
}

impl From<TextNodeUpdate> for NodeUpdate {
    fn from(value: TextNodeUpdate) -> (r: NodeUpdate) {
        NodeUpdate::Text(value)
    }
}

impl vstd::std_specs::convert::FromSpecImpl<TextNodeUpdate> for NodeUpdate {
    open spec fn obeys_from_spec() -> bool {
        true
    }

    open spec fn from_spec(v: TextNodeUpdate) -> NodeUpdate {
        NodeUpdate::Text(v)
    }
}

impl From<ElementNodeUpdate> for NodeUpdate {
    fn from(value: ElementNodeUpdate) -> (r: NodeUpdate) {
        NodeUpdate::Element(value)
    }
}

impl vstd::std_specs::convert::FromSpecImpl<ElementNodeUpdate> for NodeUpdate {
    open spec fn obeys_from_spec() -> bool {
        true
    }

    open spec fn from_spec(v: ElementNodeUpdate) -> NodeUpdate {
        NodeUpdate::Element(v)
    }
}

/// Attributes of `updated` that `current` lacks or holds with another value.
pub open spec fn attrs_to_set(current: Map<Seq<char>, JsonView>, updated: Map<Seq<char>, JsonView>) -> Map<Seq<char>, JsonView> {
    Map::new(
        |k: Seq<char>| updated.contains_key(k) && (!current.contains_key(k) || current[k] != updated[k]),
        |k: Seq<char>| updated[k],
    )
}

/// Attributes of `current` that `updated` lacks.
pub open spec fn attrs_to_clear(current: Map<Seq<char>, JsonView>, updated: Map<Seq<char>, JsonView>) -> Set<Seq<char>> {
    Set::new(|k: Seq<char>| current.contains_key(k) && !updated.contains_key(k))
}

/// The update that turns node `current` into node `updated` (of the same kind).
pub open spec fn update_between(current: FlatNodeView, updated: FlatNodeView) -> NodeUpdateView {
    match (current, updated) {
        (FlatNodeView::Element(c), FlatNodeView::Element(u)) => NodeUpdateView::Element {
            set: attrs_to_set(c.attributes, u.attributes),
            clear: attrs_to_clear(c.attributes, u.attributes),
        },
        (_, FlatNodeView::Text(t)) => NodeUpdateView::Text(t),
        (_, FlatNodeView::Element(_)) => NodeUpdateView::Text(Seq::empty()),
    }
}

/// A node after an update is applied to it.
pub open spec fn apply_update(n: FlatNodeView, u: NodeUpdateView) -> FlatNodeView {
    match (n, u) {
        (FlatNodeView::Element(e), NodeUpdateView::Element { set, clear }) => FlatNodeView::Element(
            FlatElementView { tag: e.tag, attributes: e.attributes.remove_keys(clear).union_prefer_right(set) },
        ),
        (FlatNodeView::Text(_), NodeUpdateView::Text(t)) => FlatNodeView::Text(t),
        _ => n,
    }
}

/// Whether two flat nodes are of the same kind (both texts or both elements).
pub open spec fn same_kind(a: FlatNodeView, b: FlatNodeView) -> bool {
    (a is Text && b is Text) || (a is Element && b is Element)
}

/// Applying the update between two nodes of the same tag turns the first into the second.
pub proof fn lemma_apply_update_between(current: FlatNodeView, updated: FlatNodeView)
    requires
        same_kind(current, updated),
        current is Element ==> current->Element_0.tag == updated->Element_0.tag,
    ensures
        apply_update(current, update_between(current, updated)) == updated,
{
    if let (FlatNodeView::Element(c), FlatNodeView::Element(u)) = (current, updated) {
        let m = c.attributes.remove_keys(attrs_to_clear(c.attributes, u.attributes)).union_prefer_right(
            attrs_to_set(c.attributes, u.attributes),
        );
        assert(m =~= u.attributes);
    }
}

/// The update that turns `current` into `updated`, or `None` when they are equal.
pub fn node_update(current: &FlatNode, updated: &FlatNode) -> (r: Option<NodeUpdate>)
    requires
        same_kind(current@, updated@),
    ensures
        r is None <==> current@ == updated@ || (current@ is Element && current@->Element_0.attributes
            == updated@->Element_0.attributes && current@->Element_0.tag != updated@->Element_0.tag),
        r is Some ==> r->0@ == update_between(current@, updated@),
{
    match (current, updated) {
        (FlatNode::Element(c), FlatNode::Element(u)) => {
            let ca = &c.attributes;
            let ua = &u.attributes;
            ca.positions();
            ua.positions();
            let mut set = Attributes::new();
            let mut clear = AttributeNames::new();
            let n = ca.len();
            for i in 0..n
                invariant
                    n == ca.spec_len(),
                    set@ == Map::new(
                        |k: Seq<char>| (exists|j: int| 0 <= j < i && ca.key_at(j) == k) && ua@.contains_key(k)
                            && ca@[k] != ua@[k],
                        |k: Seq<char>| ua@[k],
                    ),
                    clear@ == Set::new(
                        |k: Seq<char>| (exists|j: int| 0 <= j < i && ca.key_at(j) == k) && !ua@.contains_key(k),
                    ),
            {
                let (k, v) = ca.entry_at(i);
                ca.positions();
                assert(ca@.contains_key(ca.key_at(i as int)));
                assert(ca@[ca.key_at(i as int)] == v@);
                let ghost kk = ca.key_at(i as int);
                match ua.get(k.as_str()) {
                    Some(w) => {
                        if !w.same_as(v) {
                            set.insert(k.clone(), w.duplicate());
                        }
                    },
                    None => {
                        clear.insert(k.clone());
                    },
                }
                assert(set@ =~= Map::new(
                    |k: Seq<char>| (exists|j: int| 0 <= j < i + 1 && ca.key_at(j) == k) && ua@.contains_key(k)
                        && ca@[k] != ua@[k],
                    |k: Seq<char>| ua@[k],
                ));
                assert(clear@ =~= Set::new(
                    |k: Seq<char>| (exists|j: int| 0 <= j < i + 1 && ca.key_at(j) == k) && !ua@.contains_key(k),
                ));
            }
            assert(clear@ =~= attrs_to_clear(ca@, ua@)) by {
                assert forall|k: Seq<char>| #[trigger] ca@.contains_key(k) implies exists|j: int|
                    0 <= j < n && ca.key_at(j) == k by {
                    let j = choose|j: int| 0 <= j < ca.spec_len() && ca.key_at(j) == k;
                    assert(0 <= j < n && ca.key_at(j) == k);
                }
            }
            let m = ua.len();
            for i in 0..m
                invariant
                    m == ua.spec_len(),
                    n == ca.spec_len(),
                    set@ == Map::new(
                        |k: Seq<char>| ((exists|j: int| 0 <= j < n && ca.key_at(j) == k) && ua@.contains_key(k)
                            && ca@[k] != ua@[k]) || ((exists|j: int| 0 <= j < i && ua.key_at(j) == k)
                            && !ca@.contains_key(k)),
                        |k: Seq<char>| ua@[k],
                    ),
            {
                let (k, w) = ua.entry_at(i);
                ua.positions();
                assert(ua@.contains_key(ua.key_at(i as int)));
                assert(ua@[ua.key_at(i as int)] == w@);
                let ghost kk = ua.key_at(i as int);
                if !ca.contains_key(k.as_str()) {
                    set.insert(k.clone(), w.duplicate());
                }
                assert(set@ =~= Map::new(
                    |k: Seq<char>| ((exists|j: int| 0 <= j < n && ca.key_at(j) == k) && ua@.contains_key(k)
                        && ca@[k] != ua@[k]) || ((exists|j: int| 0 <= j < i + 1 && ua.key_at(j) == k)
                        && !ca@.contains_key(k)),
                    |k: Seq<char>| ua@[k],
                ));
            }
            assert(set@ =~= attrs_to_set(ca@, ua@)) by {
                assert forall|k: Seq<char>| #[trigger] ca@.contains_key(k) implies exists|j: int|
                    0 <= j < n && ca.key_at(j) == k by {
                    let j = choose|j: int| 0 <= j < ca.spec_len() && ca.key_at(j) == k;
                    assert(0 <= j < n && ca.key_at(j) == k);
                }
                assert forall|k: Seq<char>| #[trigger] ua@.contains_key(k) implies exists|j: int|
                    0 <= j < m && ua.key_at(j) == k by {
                    let j = choose|j: int| 0 <= j < ua.spec_len() && ua.key_at(j) == k;
                    assert(0 <= j < m && ua.key_at(j) == k);
                }
                assert forall|k: Seq<char>| (exists|j: int| 0 <= j < n && ca.key_at(j) == k) implies
                    #[trigger] ca@.contains_key(k) by {
                    let j = choose|j: int| 0 <= j < n && ca.key_at(j) == k;
                    assert(ca@.contains_key(ca.key_at(j)));
                }
                assert forall|k: Seq<char>| (exists|j: int| 0 <= j < m && ua.key_at(j) == k) implies
                    #[trigger] ua@.contains_key(k) by {
                    let j = choose|j: int| 0 <= j < m && ua.key_at(j) == k;
                    assert(ua@.contains_key(ua.key_at(j)));
                }
            }
            let set_empty = set.len() == 0;
            let clear_empty = clear.is_empty();
            set.positions();
            if set_empty && clear_empty {
                assert(ca@ =~= ua@) by {
                    assert(set@ =~= Map::<Seq<char>, JsonView>::empty()) by {
                        if exists|k: Seq<char>| set@.contains_key(k) {
                            let k = choose|k: Seq<char>| set@.contains_key(k);
                            let j = choose|j: int| 0 <= j < set.spec_len() && set.key_at(j) == k;
                        }
                    }
                    assert forall|k: Seq<char>| ca@.contains_key(k) implies ua@.contains_key(k) by {
                        assert(!clear@.contains(k));
                    }
                    assert forall|k: Seq<char>| ua@.contains_key(k) implies ca@.contains_key(k) && ca@[k] == ua@[k] by {
                        assert(!set@.contains_key(k));
                    }
                }
                None
            } else {
                proof {
                    if ca@ == ua@ {
                        assert(set@ =~= Map::<Seq<char>, JsonView>::empty());
                        assert(clear@ =~= Set::<Seq<char>>::empty());
                        if !set_empty {
                            assert(set@.contains_key(set.key_at(0)));
                        }
                    }
                }
                Some(NodeUpdate::Element(ElementNodeUpdate { set_attributes: set, clear_attributes: clear }))
            }
        },
        (FlatNode::Text(c), FlatNode::Text(u)) => {
            if string_eq(c, u) {
                None
            } else {
                Some(NodeUpdate::Text(TextNodeUpdate { text: u.clone() }))
            }
        },
        _ => None,
    }
}

} // verus!
