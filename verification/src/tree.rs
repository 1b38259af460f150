//! An arena tree: nodes live in one vector and refer to their parent and
//! children by index.
use vstd::prelude::*;

verus! {

/// Index of a node in its tree's arena.
pub type NodeId = usize;

/// A node: its children, its parent and its data.
#[derive(Debug)]
pub struct Node<T> {
    pub children: Vec<NodeId>,
    parent: Option<NodeId>,
    pub data: T,
}

impl<T> Node<T> {
    /// The node's parent, if any.
    pub closed spec fn spec_parent(&self) -> Option<NodeId> {
        self.parent
    }

    /// The node's children.
    pub closed spec fn kids(&self) -> Seq<NodeId> {
        self.children@
    }

    /// The node's data.
    pub closed spec fn value(&self) -> T {
        self.data
    }

    /// The node's children, for reading.
    pub fn children_ref(&self) -> (r: &Vec<NodeId>)
        ensures
            r@ == self.kids(),
    {
        &self.children
    }

    /// The node's data, for reading.
    pub fn data_ref(&self) -> (r: &T)
        ensures
            *r == self.value(),
    {
        &self.data
    }

    /// A node with parent `parent`, data `data` and no children.
    pub fn new(parent: Option<NodeId>, data: T) -> (n: Node<T>)
        ensures
            n.spec_parent() == parent,
            n.value() == data,
            n.kids() == Seq::<NodeId>::empty(),
    {
        Node { data, parent, children: Vec::new() }
    }

    /// Sets the node's parent.
    pub fn set_parent(&mut self, parent: NodeId)
        ensures
            final(self).spec_parent() == Some(parent),
            final(self).kids() == old(self).kids(),
            final(self).value() == old(self).value(),
    {
        self.parent = Some(parent);
    }

    /// Appends a child.
    pub fn add_child(&mut self, child: NodeId)
        ensures
            final(self).kids() == old(self).kids().push(child),
            final(self).spec_parent() == old(self).spec_parent(),
            final(self).value() == old(self).value(),
    {
        self.children.push(child);
    }
}

/// A tree stored as an arena of nodes.
#[derive(Debug)]
pub struct Tree<T> {
    nodes: Vec<Node<T>>,
}

/// The subtree at `n` lies in the arena and is at most `d` levels deep:
/// following children from `n` never goes more than `d - 1` steps, so
/// with `d` the number of nodes no path from `n` returns to a node.
pub open spec fn bounded<T>(nodes: Seq<Node<T>>, n: int, d: nat) -> bool
    decreases d,
{
    &&& 0 <= n < nodes.len()
    &&& d > 0
    &&& forall|j: int|
        0 <= j < nodes[n].kids().len() ==> bounded(nodes, #[trigger] nodes[n].kids()[j] as int, (d - 1) as nat)
}

/// The data of the subtree at `n` in pre-order, at most `d` levels deep:
/// the node, then the subtrees of its children in order.
pub open spec fn preorder_of<T>(nodes: Seq<Node<T>>, n: int, d: nat) -> Seq<T>
    decreases d, nodes[n].kids().len() + 1,
{
    if d > 0 && 0 <= n < nodes.len() {
        seq![nodes[n].value()] + children_preorder(nodes, n, 0, d)
    } else {
        Seq::empty()
    }
}

/// The pre-orders of the children of `n` from the `j`-th on, in order.
pub open spec fn children_preorder<T>(nodes: Seq<Node<T>>, n: int, j: int, d: nat) -> Seq<T>
    decreases d, nodes[n].kids().len() - j,
{
    if d > 0 && 0 <= n < nodes.len() && 0 <= j < nodes[n].kids().len() {
        preorder_of(nodes, nodes[n].kids()[j] as int, (d - 1) as nat) + children_preorder(nodes, n, j + 1, d)
    } else {
        Seq::empty()
    }
}

impl<T> Tree<T> {
    /// The nodes, by index.
    pub closed spec fn nodes_view(&self) -> Seq<Node<T>> {
        self.nodes@
    }

    /// An empty tree.
    pub fn new() -> (t: Tree<T>)
        ensures
            t.nodes_view() == Seq::<Node<T>>::empty(),
    {
        Tree { nodes: Vec::new() }
    }

    /// Appends a node with parent `parent`, data `data` and no children,
    /// and returns its index.
    pub fn create_node(&mut self, parent: Option<NodeId>, data: T) -> (id: NodeId)
        requires
            old(self).nodes_view().len() < usize::MAX,
        ensures
            id == old(self).nodes_view().len(),
            final(self).nodes_view().len() == id + 1,
            final(self).nodes_view().take(id as int) == old(self).nodes_view(),
            final(self).nodes_view()[id as int].spec_parent() == parent,
            final(self).nodes_view()[id as int].value() == data,
            final(self).nodes_view()[id as int].kids() == Seq::<NodeId>::empty(),
    {
        let index = self.nodes.len();
        let node = Node::new(parent, data);
        self.nodes.push(node);
        assert(self.nodes@.take(index as int) =~= old(self).nodes@);
        index
    }

    /// Node `idx`, for writing.
    pub fn get_node_mut(&mut self, idx: NodeId) -> (n: &mut Node<T>)
        requires
            idx < old(self).nodes_view().len(),
        ensures
            *n == old(self).nodes_view()[idx as int],
            final(self).nodes_view() == old(self).nodes_view().update(idx as int, *final(n)),
    {
        &mut self.nodes[idx]
    }

    /// Node `idx`.
    pub fn get_node(&self, idx: NodeId) -> (n: &Node<T>)
        requires
            idx < self.nodes_view().len(),
        ensures
            *n == self.nodes_view()[idx as int],
    {
        &self.nodes[idx]
    }

    /// The nodes, in arena order.
    pub fn iter(&self) -> (r: &Vec<Node<T>>)
        ensures
            r@ == self.nodes_view(),
    {
        &self.nodes
    }

    /// Number of nodes.
    pub fn len(&self) -> (n: usize)
        ensures
            n == self.nodes_view().len(),
    {
        self.nodes.len()
    }

    /// Whether the tree has no node.
    pub fn is_empty(&self) -> (r: bool)
        ensures
            r == (self.nodes_view().len() == 0),
    {
        self.nodes.len() == 0
    }

    /// Appends to `out` the data of the subtree rooted at `node`, in
    /// pre-order. The subtree must hold no cycle: no path of children
    /// from `node` comes back to a node, so it is at most as deep as the
    /// tree has nodes.
    pub fn preorder<'a>(&'a self, node: NodeId, out: &mut Vec<&'a T>)
        requires
            bounded(self.nodes_view(), node as int, self.nodes_view().len()),
        ensures
            final(out)@.map_values(|r: &T| *r) == old(out)@.map_values(|r: &T| *r) + preorder_of(
                self.nodes_view(),
                node as int,
                self.nodes_view().len(),
            ),
    {
        self.preorder_rec(node, out, Ghost(self.nodes_view().len()));
    }

    fn preorder_rec<'a>(&'a self, node: NodeId, out: &mut Vec<&'a T>, Ghost(d): Ghost<nat>)
        requires
            bounded(self.nodes@, node as int, d),
        ensures
            final(out)@.map_values(|r: &T| *r) == old(out)@.map_values(|r: &T| *r) + preorder_of(
                self.nodes@,
                node as int,
                d,
            ),
        decreases d,
    {
        let n = &self.nodes[node];
        let ghost start = out@.map_values(|r: &T| *r);
        out.push(&n.data);
        assert(out@.map_values(|r: &T| *r) =~= start.push(n.value()));
        let mut j: usize = 0;
        while j < n.children.len()
            invariant
                bounded(self.nodes@, node as int, d),
                *n == self.nodes@[node as int],
                j <= n.kids().len(),
                out@.map_values(|r: &T| *r) + children_preorder(self.nodes@, node as int, j as int, d)
                    == start + preorder_of(self.nodes@, node as int, d),
            decreases n.kids().len() - j,
        {
            let child = n.children[j];
            assert(bounded(self.nodes@, n.kids()[j as int] as int, (d - 1) as nat));
            let ghost mid = out@.map_values(|r: &T| *r);
            self.preorder_rec(child, out, Ghost((d - 1) as nat));
            assert(children_preorder(self.nodes@, node as int, j as int, d) == preorder_of(
                self.nodes@,
                child as int,
                (d - 1) as nat,
            ) + children_preorder(self.nodes@, node as int, j + 1, d));
            assert(mid + children_preorder(self.nodes@, node as int, j as int, d) =~= out@.map_values(
                |r: &T| *r,
            ) + children_preorder(self.nodes@, node as int, j + 1, d));
            j = j + 1;
        }
        assert(children_preorder(self.nodes@, node as int, j as int, d) =~= Seq::<T>::empty());
    }
}

} // verus!
