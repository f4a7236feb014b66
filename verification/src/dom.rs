//! Building a document tree from tag and text events.
use vstd::prelude::*;

verus! {

/// The position of a node in the tree's node list; the root is 0.
#[derive(Debug, Clone, Copy, PartialEq, Eq, Structural)]
pub struct NodeId(pub usize);

/// What a node is.
#[derive(Debug, PartialEq, Eq)]
pub enum NodeKind {
    Root,
    Element(String),
    Text(String),
}

/// A node with its parent and its children in order.
#[derive(Debug, PartialEq, Eq)]
pub struct Node {
    pub kind: NodeKind,
    pub parent: Option<NodeId>,
    pub children: Vec<NodeId>,
}

/// Why an event cannot be applied.
#[derive(Debug, PartialEq, Eq)]
pub enum BuildError {
    UnexpectedCloseTag,
}

/// What a node is, as a value.
pub enum KindModel {
    Root,
    Element(Seq<char>),
    Text(Seq<char>),
}

/// A node, as values.
pub struct NodeModel {
    pub kind: KindModel,
    pub parent: Option<int>,
    pub children: Seq<int>,
}

/// The tree and the stack of open elements, as values.
pub struct DomModel {
    pub nodes: Seq<NodeModel>,
    pub open: Seq<int>,
}

/// The model of a node kind.
pub open spec fn kind_model(k: NodeKind) -> KindModel {
    match k {
        NodeKind::Root => KindModel::Root,
        NodeKind::Element(s) => KindModel::Element(s@),
        NodeKind::Text(s) => KindModel::Text(s@),
    }
}

/// The model of a node.
pub open spec fn node_model(n: Node) -> NodeModel {
    NodeModel {
        kind: kind_model(n.kind),
        parent: match n.parent {
            Some(p) => Some(p.0 as int),
            None => None,
        },
        children: n.children@.map_values(|c: NodeId| c.0 as int),
    }
}

/// The tree is well formed: node 0 is the parentless root; every other
/// node's parent comes before it and lists it among its children; every
/// child's parent is the node that lists it; the open elements start at
/// the root and are nodes of the tree.
pub open spec fn tree_consistent(m: DomModel) -> bool {
    &&& m.nodes.len() >= 1
    &&& m.nodes[0].kind is Root
    &&& m.nodes[0].parent is None
    &&& forall|i: int| 1 <= i < m.nodes.len() ==> {
        &&& (#[trigger] m.nodes[i]).parent matches Some(p) && 0 <= p < i
        &&& m.nodes[m.nodes[i].parent->Some_0].children.contains(i)
    }
    &&& forall|i: int, k: int| 0 <= i < m.nodes.len() && 0 <= k < m.nodes[i].children.len() ==> {
        let c = #[trigger] m.nodes[i].children[k];
        &&& i < c < m.nodes.len()
        &&& m.nodes[c].parent == Some(i)
    }
    &&& m.open.len() >= 1
    &&& m.open[0] == 0
    &&& forall|k: int| 0 <= k < m.open.len() ==> 0 <= #[trigger] m.open[k] < m.nodes.len()
}

/// Builds a tree from open-tag, text and close-tag events.
pub struct DomHandler {
    nodes: Vec<Node>,
    stack: Vec<NodeId>,
}

impl View for DomHandler {
    type V = DomModel;

    closed spec fn view(&self) -> DomModel {
        DomModel {
            nodes: self.nodes@.map_values(|n: Node| node_model(n)),
            open: self.stack@.map_values(|c: NodeId| c.0 as int),
        }
    }
}

impl DomHandler {
    /// A tree holding only the root, which is open.
    pub fn new() -> (r: Self)
        ensures
            r@.nodes.len() == 1,
            r@.nodes[0] == (NodeModel { kind: KindModel::Root, parent: None, children: Seq::empty() }),
            r@.open == seq![0int],
            tree_consistent(r@),
    {
        let r = DomHandler { nodes: vec![Node { kind: NodeKind::Root, parent: None, children: Vec::new() }], stack: vec![NodeId(0)] };
        assert(r@.nodes[0].children =~= Seq::<int>::empty());
        assert(r@.open =~= seq![0int]);
        r
    }

    /// Adds a node under the innermost open element.
    fn add_child(&mut self, kind: NodeKind) -> (r: NodeId)
        requires
            tree_consistent(old(self)@),
        ensures
            added_child(old(self)@, final(self)@, kind_model(kind), r.0 as int),
            final(self)@.open == old(self)@.open,
            tree_consistent(final(self)@),
    {
        let ghost m0 = self@;
        let parent_id = self.stack[self.stack.len() - 1];
        let p = parent_id.0;
        let id = self.nodes.len();
        assert(m0.open.last() == p as int);
        self.nodes.push(Node { kind, parent: Some(parent_id), children: Vec::new() });
        self.nodes[p].children.push(NodeId(id));
        let ghost m1 = self@;
        proof {
            assert(m1.nodes.len() == m0.nodes.len() + 1);
            assert(m1.nodes[id as int].children =~= Seq::<int>::empty());
            assert(m1.nodes[id as int] == (NodeModel { kind: kind_model(kind), parent: Some(p as int), children: Seq::empty() }));
            assert(m1.nodes[p as int].children =~= m0.nodes[p as int].children.push(id as int));
            assert forall|j: int| 0 <= j < id && j != p implies m1.nodes[j] == m0.nodes[j] by {}
            assert(m1.open =~= m0.open);
            assert forall|i: int| 1 <= i < m1.nodes.len() implies {
                &&& (#[trigger] m1.nodes[i]).parent matches Some(q) && 0 <= q < i
                &&& m1.nodes[m1.nodes[i].parent->Some_0].children.contains(i)
            } by {
                if i < id {
                    let q = m0.nodes[i].parent->Some_0;
                    assert(m0.nodes[q].children.contains(i));
                    if q == p {
                        let k = choose|k: int| 0 <= k < m0.nodes[q].children.len() && m0.nodes[q].children[k] == i;
                        assert(m1.nodes[q].children[k] == i);
                    } else {
                        assert(m1.nodes[q] == m0.nodes[q]);
                    }
                } else {
                    assert(m1.nodes[p as int].children[m0.nodes[p as int].children.len() as int] == id);
                }
            }
            assert forall|i: int, k: int| 0 <= i < m1.nodes.len() && 0 <= k < m1.nodes[i].children.len() implies {
                let c = #[trigger] m1.nodes[i].children[k];
                &&& i < c < m1.nodes.len()
                &&& m1.nodes[c].parent == Some(i)
            } by {
                if i == id {
                } else if i == p {
                    if k < m0.nodes[i].children.len() {
                        let c = m0.nodes[i].children[k];
                        assert(m1.nodes[i].children[k] == c);
                        assert(m1.nodes[c] == m0.nodes[c] || c == p);
                    }
                } else {
                    assert(m1.nodes[i] == m0.nodes[i]);
                    let c = m0.nodes[i].children[k];
                    assert(c != id);
                }
            }
        }
        NodeId(id)
    }

    /// Opens an element under the innermost open element.
    pub fn on_open_tag(&mut self, name: &str) -> (r: NodeId)
        requires
            tree_consistent(old(self)@),
        ensures
            added_child(old(self)@, final(self)@, KindModel::Element(name@), r.0 as int),
            final(self)@.open == old(self)@.open.push(r.0 as int),
            tree_consistent(final(self)@),
    {
        let id = self.add_child(NodeKind::Element(name.to_owned()));
        self.stack.push(id);
        assert(self@.open =~= old(self)@.open.push(id.0 as int));
        id
    }

    /// Adds text under the innermost open element.
    pub fn on_text(&mut self, value: &str) -> (r: NodeId)
        requires
            tree_consistent(old(self)@),
        ensures
            added_child(old(self)@, final(self)@, KindModel::Text(value@), r.0 as int),
            final(self)@.open == old(self)@.open,
            tree_consistent(final(self)@),
    {
        self.add_child(NodeKind::Text(value.to_owned()))
    }

    /// Closes the innermost open element; the root cannot be closed. The
    /// name is not checked against the open element.
    pub fn on_close_tag(&mut self, _name: &str) -> (r: Result<(), BuildError>)
        requires
            tree_consistent(old(self)@),
        ensures
            final(self)@.nodes == old(self)@.nodes,
            old(self)@.open.len() <= 1 ==> r == Err::<(), BuildError>(BuildError::UnexpectedCloseTag) && final(self)@.open == old(self)@.open,
            old(self)@.open.len() > 1 ==> r is Ok && final(self)@.open == old(self)@.open.drop_last(),
            tree_consistent(final(self)@),
    {
        if self.stack.len() <= 1 {
            return Err(BuildError::UnexpectedCloseTag);
        }
        self.stack.pop();
        assert(self@.open =~= old(self)@.open.drop_last());
        Ok(())
    }

    /// The children of the root, in order.
    pub fn root_children(&self) -> (r: &[NodeId])
        requires
            tree_consistent(self@),
        ensures
            r@.map_values(|c: NodeId| c.0 as int) == self@.nodes[0].children,
    {
        self.nodes[0].children.as_slice()
    }

    /// The node with the given id.
    pub fn node(&self, id: NodeId) -> (r: &Node)
        requires
            id.0 < self@.nodes.len(),
        ensures
            node_model(*r) == self@.nodes[id.0 as int],
    {
        &self.nodes[id.0]
    }
}

/// `after` is `before` with a new node of `kind` at position `id`, the
/// last child of the innermost open element.
pub open spec fn added_child(before: DomModel, after: DomModel, kind: KindModel, id: int) -> bool {
    let p = before.open.last();
    &&& id == before.nodes.len()
    &&& after.nodes.len() == id + 1
    &&& after.nodes[id] == (NodeModel { kind, parent: Some(p), children: Seq::empty() })
    &&& after.nodes[p].children == before.nodes[p].children.push(id)
    &&& after.nodes[p].kind == before.nodes[p].kind
    &&& after.nodes[p].parent == before.nodes[p].parent
    &&& forall|j: int| 0 <= j < id && j != p ==> #[trigger] after.nodes[j] == before.nodes[j]
}

impl Default for DomHandler {
    fn default() -> (r: Self)
        ensures
            r@.nodes.len() == 1,
            r@.nodes[0] == (NodeModel { kind: KindModel::Root, parent: None, children: Seq::empty() }),
            r@.open == seq![0int],
            tree_consistent(r@),
    {
        Self::new()
    }
}

} // verus!
