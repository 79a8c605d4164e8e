//! An index-addressed graph: each node owns its ports by value, and every
//! element carries an optional datum and a small positional index that the
//! graph hands out in order.

use crate::index::IndexType;
pub use crate::index::{EdgeIndex, NodeIndex, PortIndex};
use vstd::prelude::*;

verus! {

/// Which way a port passes flow.
#[derive(Clone, PartialEq, Eq, Structural, PartialOrd, Ord, Hash)]
pub enum Direction {
    Omni,
    In,
    Out,
}

/// Nodes and edges in insertion order, with the next index of each kind.
#[derive(Clone, PartialEq, PartialOrd, Eq, Ord)]
pub struct Graph<DN, DP, DE> {
    nodes: Vec<Node<DN, DP>>,
    edges: Vec<Edge<DE>>,
    next_edge_idx: EdgeIndex,
    next_port_idx: PortIndex,
    next_node_idx: NodeIndex,
}

/// A node: its optional datum, its index and the ports it owns.
#[derive(Clone, PartialEq, PartialOrd, Eq, Ord)]
pub struct Node<DN, DP> {
    pub data: Option<DN>,
    index: NodeIndex,
    ports: Vec<Port<DP>>,
}

/// A port: its optional datum, the element it is attached to, its index
/// and its direction.
#[derive(Clone, PartialEq, PartialOrd, Eq, Ord)]
pub struct Port<DP> {
    pub data: Option<DP>,
    node: EdgeIndex,
    index: PortIndex,
    direction: Direction,
}

/// An edge: its optional datum, its index and the ports it runs between.
#[derive(Clone, PartialEq, PartialOrd, Eq, Ord)]
pub struct Edge<DE> {
    pub data: Option<DE>,
    index: EdgeIndex,
    origin: PortIndex,
    terminus: PortIndex,
}

impl<DN, DP> Node<DN, DP> {
    /// The node's datum.
    pub closed spec fn datum(self) -> Option<DN> {
        self.data
    }

    /// The node's index.
    pub closed spec fn node_index(self) -> NodeIndex {
        self.index
    }

    /// The node's ports, in order.
    pub closed spec fn port_list(self) -> Seq<Port<DP>> {
        self.ports@
    }

    /// The same node under index `i`.
    pub closed spec fn reindexed(self, i: NodeIndex) -> Self {
        Node { data: self.data, index: i, ports: self.ports }
    }

    /// A node with no datum, no ports and index 0.
    pub fn new() -> (n: Node<DN, DP>)
        ensures
            n.datum() == None::<DN>,
            n.node_index() == NodeIndex(0u16),
            n.port_list() == Seq::<Port<DP>>::empty(),
    {
        Node { data: None, index: NodeIndex::new(0), ports: Vec::new() }
    }

    /// The node with its datum set to `data`.
    pub fn with_data(self, data: DN) -> (n: Node<DN, DP>)
        ensures
            n.datum() == Some(data),
            n.node_index() == self.node_index(),
            n.port_list() == self.port_list(),
    {
        let mut node = self;
        node.data = Some(data);
        node
    }

    /// Appends `port` to a node taken by value; the node is dropped after,
    /// so nothing outside sees the port.
    pub fn add_port(self, port: Port<DP>) {
        let mut node = self;
        node.ports.push(port);
    }

    /// Sets the node's index, leaving its datum and ports alone.
    pub fn set_index(&mut self, index: NodeIndex)
        ensures
            *final(self) == old(self).reindexed(index),
    {
        self.index = index;
    }
}

impl<DE> Edge<DE> {
    /// The edge's index.
    pub closed spec fn edge_index(self) -> EdgeIndex {
        self.index
    }
}

impl<DN, DP, DE> Graph<DN, DP, DE> {
    /// The nodes, in insertion order.
    pub closed spec fn node_list(self) -> Seq<Node<DN, DP>> {
        self.nodes@
    }

    /// The edges, in insertion order.
    pub closed spec fn edge_list(self) -> Seq<Edge<DE>> {
        self.edges@
    }

    /// The index the next node will get.
    pub closed spec fn next_node(self) -> NodeIndex {
        self.next_node_idx
    }

    /// The index the next port will get.
    pub closed spec fn next_port(self) -> PortIndex {
        self.next_port_idx
    }

    /// The index the next edge will get.
    pub closed spec fn next_edge(self) -> EdgeIndex {
        self.next_edge_idx
    }

    /// Adds `node` under the next node index; the index after it becomes
    /// the next. The index must not be the largest a `u16` holds.
    pub fn add_node(&mut self, mut node: Node<DN, DP>)
        requires
            old(self).next_node().0 < u16::MAX,
        ensures
            final(self).node_list() == old(self).node_list().push(node.reindexed(old(self).next_node())),
            final(self).next_node() == NodeIndex((old(self).next_node().0 + 1) as u16),
            final(self).edge_list() == old(self).edge_list(),
            final(self).next_port() == old(self).next_port(),
            final(self).next_edge() == old(self).next_edge(),
    {
        let new_node_idx = self.pop_node_index();
        node.set_index(new_node_idx);
        self.nodes.push(node);
    }

    /// Hands out the next node index and moves past it.
    fn pop_node_index(&mut self) -> (i: NodeIndex)
        requires
            old(self).next_node_idx.0 < u16::MAX,
        ensures
            i == old(self).next_node_idx,
            *final(self) == (Graph { next_node_idx: NodeIndex((i.0 + 1) as u16), ..*old(self) }),
    {
        let node_idx = self.next_node_idx;
        self.next_node_idx = NodeIndex::new((node_idx.0 + 1) as usize);
        node_idx
    }

    /// Hands out the next edge index and moves past it.
    fn pop_edge_index(&mut self) -> (i: EdgeIndex)
        requires
            old(self).next_edge_idx.0 < u16::MAX,
        ensures
            i == old(self).next_edge_idx,
            *final(self) == (Graph { next_edge_idx: EdgeIndex((i.0 + 1) as u16), ..*old(self) }),
    {
        let edge_idx = self.next_edge_idx;
        self.next_edge_idx = EdgeIndex::new((edge_idx.0 + 1) as usize);
        edge_idx
    }

    /// Hands out the next port index and moves past it.
    fn pop_port_index(&mut self) -> (i: PortIndex)
        requires
            old(self).next_port_idx.0 < u16::MAX,
        ensures
            i == old(self).next_port_idx,
            *final(self) == (Graph { next_port_idx: PortIndex((i.0 + 1) as u16), ..*old(self) }),
    {
        let port_idx = self.next_port_idx;
        self.next_port_idx = PortIndex::new((port_idx.0 + 1) as usize);
        port_idx
    }

    /// The first node with index `node_idx`.
    pub fn node_by_idx(&self, node_idx: NodeIndex) -> (r: Option<&Node<DN, DP>>)
        ensures
            r is None <==> forall|i: int|
                0 <= i < self.node_list().len() ==> (#[trigger] self.node_list()[i]).node_index() != node_idx,
            r matches Some(n) ==> exists|i: int|
                0 <= i < self.node_list().len() && *n == self.node_list()[i] && n.node_index() == node_idx
                    && forall|j: int| 0 <= j < i ==> (#[trigger] self.node_list()[j]).node_index() != node_idx,
    {
        let mut i: usize = 0;
        while i < self.nodes.len()
            invariant
                i <= self.nodes@.len(),
                forall|j: int| 0 <= j < i ==> (#[trigger] self.nodes@[j]).index != node_idx,
            decreases self.nodes@.len() - i,
        {
            if self.nodes[i].index.0 == node_idx.0 {
                proof {
                    assert(self.node_list()[i as int].node_index() == node_idx);
                    assert forall|j: int| 0 <= j < i implies (#[trigger] self.node_list()[j]).node_index() != node_idx by {
                        assert(self.nodes@[j].index != node_idx);
                    }
                }
                return Some(&self.nodes[i]);
            }
            i = i + 1;
        }
        None
    }

    /// The first edge with index `edge_idx`.
    pub fn edge_by_idx(&self, edge_idx: EdgeIndex) -> (r: Option<&Edge<DE>>)
        ensures
            r is None <==> forall|i: int|
                0 <= i < self.edge_list().len() ==> (#[trigger] self.edge_list()[i]).edge_index() != edge_idx,
            r matches Some(e) ==> exists|i: int|
                0 <= i < self.edge_list().len() && *e == self.edge_list()[i] && e.edge_index() == edge_idx
                    && forall|j: int| 0 <= j < i ==> (#[trigger] self.edge_list()[j]).edge_index() != edge_idx,
    {
        let mut i: usize = 0;
        while i < self.edges.len()
            invariant
                i <= self.edges@.len(),
                forall|j: int| 0 <= j < i ==> (#[trigger] self.edges@[j]).index != edge_idx,
            decreases self.edges@.len() - i,
        {
            if self.edges[i].index.0 == edge_idx.0 {
                proof {
                    assert(self.edge_list()[i as int].edge_index() == edge_idx);
                    assert forall|j: int| 0 <= j < i implies (#[trigger] self.edge_list()[j]).edge_index() != edge_idx by {
                        assert(self.edges@[j].index != edge_idx);
                    }
                }
                return Some(&self.edges[i]);
            }
            i = i + 1;
        }
        None
    }

    /// Takes the graph by value and joins nothing: no edge is added.
    pub fn connect_ports(self, origin_port_idx: PortIndex, terminus_port_idx: PortIndex) {
    }
}

} // verus!
