//! The mathematical model of a graph: three finite maps from identifiers to
//! the data and connections of each live element, and the structural
//! invariant that every operation keeps.

use crate::id::{EdgeId, NodeId, PortId};
use crate::walks::{joined, lemma_joined_symmetric, lemma_joined_trans};
use crate::seqs::{lemma_flatten_contains, lemma_push_contains, lemma_push_no_duplicates, other_edge, lemma_filter_contains_iff, lemma_filter_no_duplicates, lemma_filter_filter, lemma_filter_ext};
use vstd::prelude::*;

verus! {

/// A live node: its data and its ports in insertion order.
#[verifier::ext_equal]
pub struct NodeView<N> {
    pub data: N,
    pub ports: Seq<PortId>,
}

/// A live port: its data, the node that owns it, and the edges incident to
/// it in insertion order.
#[verifier::ext_equal]
pub struct PortView<P> {
    pub data: P,
    pub node: NodeId,
    pub edges: Seq<EdgeId>,
}

/// A live edge: its data and its two endpoints, in the order passed to
/// `connect`.
#[verifier::ext_equal]
pub struct EdgeView<E> {
    pub data: E,
    pub ends: (PortId, PortId),
}

/// The abstract state of a graph.
#[verifier::ext_equal]
pub struct GraphView<N, P, E> {
    pub nodes: Map<NodeId, NodeView<N>>,
    pub ports: Map<PortId, PortView<P>>,
    pub edges: Map<EdgeId, EdgeView<E>>,
}

impl<N, P, E> GraphView<N, P, E> {
    /// The graph with no element.
    pub open spec fn empty() -> Self {
        GraphView { nodes: Map::empty(), ports: Map::empty(), edges: Map::empty() }
    }

    /// The graph after adding node `n`, with no ports.
    pub open spec fn insert_node(self, n: NodeId, data: N) -> Self {
        GraphView {
            nodes: self.nodes.insert(n, NodeView { data, ports: Seq::empty() }),
            ports: self.ports,
            edges: self.edges,
        }
    }

    /// The graph after adding port `p` to node `n`, after its other ports.
    pub open spec fn insert_port(self, n: NodeId, p: PortId, data: P) -> Self {
        GraphView {
            nodes: self.nodes.insert(
                n,
                NodeView { data: self.nodes[n].data, ports: self.nodes[n].ports.push(p) },
            ),
            ports: self.ports.insert(p, PortView { data, node: n, edges: Seq::empty() }),
            edges: self.edges,
        }
    }

    /// The graph after adding edge `e` from port `a` to port `b`; each
    /// endpoint lists it after its other edges.
    pub open spec fn insert_edge(self, e: EdgeId, a: PortId, b: PortId, data: E) -> Self {
        let pa = self.ports[a];
        let pb = self.ports[b];
        GraphView {
            nodes: self.nodes,
            ports: self.ports.insert(
                a,
                PortView { data: pa.data, node: pa.node, edges: pa.edges.push(e) },
            ).insert(b, PortView { data: pb.data, node: pb.node, edges: pb.edges.push(e) }),
            edges: self.edges.insert(e, EdgeView { data, ends: (a, b) }),
        }
    }

    /// The graph after removing edge `e`: no port lists it any more.
    pub open spec fn remove_edge(self, e: EdgeId) -> Self {
        GraphView {
            nodes: self.nodes,
            ports: self.ports.map_values(
                |pv: PortView<P>|
                    PortView {
                        data: pv.data,
                        node: pv.node,
                        edges: pv.edges.filter(other_edge(e)),
                    },
            ),
            edges: self.edges.remove(e),
        }
    }

    /// Edge `e` has an endpoint in `s`.
    pub open spec fn touches(self, e: EdgeId, s: Set<PortId>) -> bool {
        s.contains(self.edges[e].ends.0) || s.contains(self.edges[e].ends.1)
    }

    /// The graph after removing the ports in `s` and, with them, every edge
    /// that has an endpoint among them.
    pub open spec fn without_ports(self, s: Set<PortId>) -> Self {
        GraphView {
            nodes: self.nodes.map_values(
                |nv: NodeView<N>|
                    NodeView { data: nv.data, ports: nv.ports.filter(|p: PortId| !s.contains(p)) },
            ),
            ports: self.ports.remove_keys(s).map_values(
                |pv: PortView<P>|
                    PortView {
                        data: pv.data,
                        node: pv.node,
                        edges: pv.edges.filter(|e: EdgeId| !self.touches(e, s)),
                    },
            ),
            edges: self.edges.restrict(self.edges.dom().filter(|e: EdgeId| !self.touches(e, s))),
        }
    }

    /// The graph after removing port `p` and every edge incident to it.
    pub open spec fn remove_port(self, p: PortId) -> Self {
        self.without_ports(set![p])
    }

    /// The graph after removing node `n`, its ports, and every edge incident
    /// to one of its ports.
    pub open spec fn remove_node(self, n: NodeId) -> Self {
        let g = self.without_ports(self.nodes[n].ports.to_set());
        GraphView { nodes: g.nodes.remove(n), ports: g.ports, edges: g.edges }
    }

    /// The graph with the data of node `n` replaced.
    pub open spec fn set_node_data(self, n: NodeId, data: N) -> Self {
        GraphView {
            nodes: self.nodes.insert(n, NodeView { data, ports: self.nodes[n].ports }),
            ports: self.ports,
            edges: self.edges,
        }
    }

    /// The graph with the data of port `p` replaced.
    pub open spec fn set_port_data(self, p: PortId, data: P) -> Self {
        GraphView {
            nodes: self.nodes,
            ports: self.ports.insert(p, PortView { data, node: self.ports[p].node, edges: self.ports[p].edges }),
            edges: self.edges,
        }
    }

    /// The graph with the data of edge `e` replaced.
    pub open spec fn set_edge_data(self, e: EdgeId, data: E) -> Self {
        GraphView {
            nodes: self.nodes,
            ports: self.ports,
            edges: self.edges.insert(e, EdgeView { data, ends: self.edges[e].ends }),
        }
    }

    /// The node that owns port `p`, where `p` is live.
    pub open spec fn port_node(self, p: PortId) -> Option<NodeId> {
        if self.ports.contains_key(p) {
            Some(self.ports[p].node)
        } else {
            None
        }
    }

    /// Given an edge and one of its ports, the port at the other end.
    pub open spec fn opposite(self, e: EdgeId, p: PortId) -> Option<PortId> {
        if !self.edges.contains_key(e) {
            None
        } else if p == self.edges[e].ends.0 {
            Some(self.edges[e].ends.1)
        } else if p == self.edges[e].ends.1 {
            Some(self.edges[e].ends.0)
        } else {
            None
        }
    }

    /// The nodes reached from port `p` over each of its edges, in the order
    /// of its edges.
    pub open spec fn port_neighbors(self, p: PortId) -> Seq<NodeId> {
        self.ports[p].edges.map_values(|e: EdgeId| self.ports[self.opposite(e, p)->0].node)
    }

    /// For each port of node `n`, in order, the edges incident to it.
    pub open spec fn node_edge_lists(self, n: NodeId) -> Seq<Seq<EdgeId>> {
        self.nodes[n].ports.map_values(|p: PortId| self.ports[p].edges)
    }

    /// For each port of node `n`, in order, the nodes reached over its edges.
    pub open spec fn node_neighbor_lists(self, n: NodeId) -> Seq<Seq<NodeId>> {
        self.nodes[n].ports.map_values(|p: PortId| self.port_neighbors(p))
    }

    /// The edges incident to some port of node `n`: port by port, each
    /// port's edges in order. Empty for a node that is not live.
    pub open spec fn node_edges(self, n: NodeId) -> Seq<EdgeId> {
        if self.nodes.contains_key(n) {
            self.node_edge_lists(n).flatten()
        } else {
            Seq::empty()
        }
    }

    /// The neighbors of node `n`, one entry per connecting edge end: port by
    /// port, edge by edge, the node owning the other end. Empty for a node
    /// that is not live.
    pub open spec fn neighbors(self, n: NodeId) -> Seq<NodeId> {
        if self.nodes.contains_key(n) {
            self.node_neighbor_lists(n).flatten()
        } else {
            Seq::empty()
        }
    }

    /// The edges directly between ports `a` and `b`, in `a`'s order.
    pub open spec fn edges_between(self, a: PortId, b: PortId) -> Seq<EdgeId> {
        if self.ports.contains_key(a) {
            self.ports[a].edges.filter(|e: EdgeId| self.opposite(e, a) == Some(b))
        } else {
            Seq::empty()
        }
    }

    /// Ports `p` and `q` are the two ends of some live edge.
    pub open spec fn port_step(self) -> spec_fn(PortId, PortId) -> bool {
        |p: PortId, q: PortId|
            exists|e: EdgeId|
                #![trigger self.edges[e]]
                self.edges.contains_key(e) && (self.edges[e].ends == (p, q) || self.edges[e].ends == (
                q,
                p,
            ))
    }

    /// Ports `p` and `q` are connected, edge by edge: they lie on one net.
    pub open spec fn ports_joined(self, p: PortId, q: PortId) -> bool {
        joined(self.port_step(), p, q)
    }

    /// Node `m` is a neighbor of node `n`.
    pub open spec fn node_step(self) -> spec_fn(NodeId, NodeId) -> bool {
        |n: NodeId, m: NodeId| self.neighbors(n).contains(m)
    }

    /// Node `b` can be reached from node `a`, neighbor by neighbor.
    pub open spec fn reachable(self, a: NodeId, b: NodeId) -> bool {
        joined(self.node_step(), a, b)
    }

    /// The nodes reachable from node `n`: its connected component.
    pub open spec fn component(self, n: NodeId) -> Set<NodeId> {
        Set::new(|m: NodeId| self.reachable(n, m))
    }

    /// The connected components of the component graph (nodes joined by
    /// wires).
    pub open spec fn components(self) -> Set<Set<NodeId>> {
        self.nodes.dom().map(|n: NodeId| self.component(n))
    }

    /// Every port belongs to exactly one live node, and each node lists each
    /// of its ports exactly once.
    pub open spec fn ports_owned(self) -> bool {
        &&& forall|n: NodeId|
            #![trigger self.nodes[n]]
            self.nodes.contains_key(n) ==> self.nodes[n].ports.no_duplicates()
        &&& forall|n: NodeId, i: int|
            #![trigger self.nodes[n].ports[i]]
            self.nodes.contains_key(n) && 0 <= i < self.nodes[n].ports.len() ==> {
                &&& self.ports.contains_key(self.nodes[n].ports[i])
                &&& self.ports[self.nodes[n].ports[i]].node == n
            }
        &&& forall|p: PortId|
            #![trigger self.ports[p]]
            self.ports.contains_key(p) ==> {
                &&& self.nodes.contains_key(self.ports[p].node)
                &&& self.nodes[self.ports[p].node].ports.contains(p)
            }
    }

    /// Every edge joins two distinct live ports, and each port lists each
    /// edge incident to it exactly once.
    pub open spec fn edges_attached(self) -> bool {
        &&& forall|p: PortId|
            #![trigger self.ports[p]]
            self.ports.contains_key(p) ==> self.ports[p].edges.no_duplicates()
        &&& forall|p: PortId, i: int|
            #![trigger self.ports[p].edges[i]]
            self.ports.contains_key(p) && 0 <= i < self.ports[p].edges.len() ==> {
                &&& self.edges.contains_key(self.ports[p].edges[i])
                &&& self.edges[self.ports[p].edges[i]].ends.0 == p
                    || self.edges[self.ports[p].edges[i]].ends.1 == p
            }
        &&& forall|e: EdgeId|
            #![trigger self.edges[e]]
            self.edges.contains_key(e) ==> {
                let (a, b) = self.edges[e].ends;
                &&& a != b
                &&& self.ports.contains_key(a)
                &&& self.ports.contains_key(b)
                &&& self.ports[a].edges.contains(e)
                &&& self.ports[b].edges.contains(e)
            }
    }

    /// The structural invariant of a graph.
    pub open spec fn is_consistent(self) -> bool {
        &&& self.nodes.dom().finite()
        &&& self.ports.dom().finite()
        &&& self.edges.dom().finite()
        &&& self.ports_owned()
        &&& self.edges_attached()
    }
}

/// The empty graph is consistent.
pub proof fn lemma_empty_consistent<N, P, E>()
    ensures
        GraphView::<N, P, E>::empty().is_consistent(),
{
}

/// Replacing the data of a live node keeps a graph consistent.
pub proof fn lemma_set_node_data_consistent<N, P, E>(g: GraphView<N, P, E>, n: NodeId, data: N)
    requires
        g.is_consistent(),
        g.nodes.contains_key(n),
    ensures
        g.set_node_data(n, data).is_consistent(),
{
    let h = g.set_node_data(n, data);
    assert(h.nodes.dom() =~= g.nodes.dom());
    assert forall|m: NodeId| #[trigger] h.nodes.contains_key(m) implies h.nodes[m].ports == g.nodes[m].ports by {}
}

/// Replacing the data of a live port keeps a graph consistent.
pub proof fn lemma_set_port_data_consistent<N, P, E>(g: GraphView<N, P, E>, p: PortId, data: P)
    requires
        g.is_consistent(),
        g.ports.contains_key(p),
    ensures
        g.set_port_data(p, data).is_consistent(),
{
    let h = g.set_port_data(p, data);
    assert(h.ports.dom() =~= g.ports.dom());
    assert forall|q: PortId| #[trigger] h.ports.contains_key(q) implies h.ports[q].node == g.ports[q].node
        && h.ports[q].edges == g.ports[q].edges by {}
}

/// Replacing the data of a live edge keeps a graph consistent.
pub proof fn lemma_set_edge_data_consistent<N, P, E>(g: GraphView<N, P, E>, e: EdgeId, data: E)
    requires
        g.is_consistent(),
        g.edges.contains_key(e),
    ensures
        g.set_edge_data(e, data).is_consistent(),
{
    let h = g.set_edge_data(e, data);
    assert(h.edges.dom() =~= g.edges.dom());
    assert forall|x: EdgeId| #[trigger] h.edges.contains_key(x) implies h.edges[x].ends == g.edges[x].ends by {}
}

/// Adding a node keeps a graph consistent.
pub proof fn lemma_insert_node_consistent<N, P, E>(g: GraphView<N, P, E>, n: NodeId, data: N)
    requires
        g.is_consistent(),
        !g.nodes.contains_key(n),
    ensures
        g.insert_node(n, data).is_consistent(),
{
    let h = g.insert_node(n, data);
    assert forall|p: PortId| #[trigger] h.ports.contains_key(p) implies {
        &&& h.nodes.contains_key(h.ports[p].node)
        &&& h.nodes[h.ports[p].node].ports.contains(p)
    } by {
        assert(g.nodes[g.ports[p].node].ports.contains(p));
    }
}

/// Adding a port to a live node keeps a graph consistent.
pub proof fn lemma_insert_port_consistent<N, P, E>(
    g: GraphView<N, P, E>,
    n: NodeId,
    p: PortId,
    data: P,
)
    requires
        g.is_consistent(),
        g.nodes.contains_key(n),
        !g.ports.contains_key(p),
    ensures
        g.insert_port(n, p, data).is_consistent(),
{
    let h = g.insert_port(n, p, data);
    assert(!g.nodes[n].ports.contains(p));
    assert forall|m: NodeId| #[trigger] h.nodes.contains_key(m) implies h.nodes[m].ports.no_duplicates() by {
        if m == n {
            assert forall|i: int, j: int| 0 <= i < j < h.nodes[m].ports.len() implies h.nodes[m].ports[i] != h.nodes[m].ports[j] by {
                if j == h.nodes[m].ports.len() - 1 {
                    assert(g.nodes[n].ports[i] == h.nodes[m].ports[i]);
                }
            }
        }
    }
    assert forall|m: NodeId, i: int| h.nodes.contains_key(m) && 0 <= i < h.nodes[m].ports.len() implies {
        &&& h.ports.contains_key(#[trigger] h.nodes[m].ports[i])
        &&& h.ports[h.nodes[m].ports[i]].node == m
    } by {
        if m == n && i < g.nodes[n].ports.len() {
            assert(h.nodes[m].ports[i] == g.nodes[n].ports[i]);
        }
    }
    assert forall|q: PortId| #[trigger] h.ports.contains_key(q) implies {
        &&& h.nodes.contains_key(h.ports[q].node)
        &&& h.nodes[h.ports[q].node].ports.contains(q)
    } by {
        if q == p {
            assert(h.nodes[n].ports[h.nodes[n].ports.len() - 1] == p);
        } else {
            let m = g.ports[q].node;
            assert(g.nodes[m].ports.contains(q));
            if m == n {
                let i = choose|i: int| 0 <= i < g.nodes[n].ports.len() && g.nodes[n].ports[i] == q;
                assert(h.nodes[n].ports[i] == q);
            }
        }
    }
}

/// Adding an edge between two distinct live ports keeps a graph consistent.
pub proof fn lemma_insert_edge_consistent<N, P, E>(
    g: GraphView<N, P, E>,
    e: EdgeId,
    a: PortId,
    b: PortId,
    data: E,
)
    requires
        g.is_consistent(),
        a != b,
        g.ports.contains_key(a),
        g.ports.contains_key(b),
        !g.edges.contains_key(e),
    ensures
        g.insert_edge(e, a, b, data).is_consistent(),
{
    let h = g.insert_edge(e, a, b, data);
    assert(!g.ports[a].edges.contains(e));
    assert(!g.ports[b].edges.contains(e));
    lemma_push_no_duplicates(g.ports[a].edges, e);
    lemma_push_no_duplicates(g.ports[b].edges, e);
    lemma_push_contains(g.ports[a].edges, e, e);
    lemma_push_contains(g.ports[b].edges, e, e);
    assert forall|q: PortId| #[trigger] h.ports.contains_key(q) implies {
        &&& h.nodes.contains_key(h.ports[q].node)
        &&& h.nodes[h.ports[q].node].ports.contains(q)
    } by {
        assert(g.ports.contains_key(q));
    }
    assert forall|q: PortId, i: int| h.ports.contains_key(q) && 0 <= i < h.ports[q].edges.len() implies {
        &&& h.edges.contains_key(#[trigger] h.ports[q].edges[i])
        &&& h.edges[h.ports[q].edges[i]].ends.0 == q || h.edges[h.ports[q].edges[i]].ends.1 == q
    } by {
        if (q == a || q == b) && i < h.ports[q].edges.len() - 1 {
            assert(h.ports[q].edges[i] == g.ports[q].edges[i]);
        }
    }
    assert forall|x: EdgeId| #[trigger] h.edges.contains_key(x) implies {
        let (pa, pb) = h.edges[x].ends;
        &&& pa != pb
        &&& h.ports.contains_key(pa)
        &&& h.ports.contains_key(pb)
        &&& h.ports[pa].edges.contains(x)
        &&& h.ports[pb].edges.contains(x)
    } by {
        if x != e {
            let (pa, pb) = g.edges[x].ends;
            lemma_push_contains(g.ports[a].edges, e, x);
            lemma_push_contains(g.ports[b].edges, e, x);
        }
    }
}

/// Removing a live edge keeps a graph consistent.
pub proof fn lemma_remove_edge_consistent<N, P, E>(g: GraphView<N, P, E>, e: EdgeId)
    requires
        g.is_consistent(),
        g.edges.contains_key(e),
    ensures
        g.remove_edge(e).is_consistent(),
{
    let h = g.remove_edge(e);
    let f = other_edge(e);
    assert(h.ports.dom() =~= g.ports.dom());
    assert forall|q: PortId| #[trigger] h.ports.contains_key(q) implies {
        &&& h.ports[q].edges.no_duplicates()
        &&& h.nodes.contains_key(h.ports[q].node)
        &&& h.nodes[h.ports[q].node].ports.contains(q)
    } by {
        assert(g.ports.contains_key(q));
        assert(h.ports[q].edges == g.ports[q].edges.filter(f));
        lemma_filter_no_duplicates(g.ports[q].edges, f);
    }
    assert forall|q: PortId, i: int| h.ports.contains_key(q) && 0 <= i < h.ports[q].edges.len() implies {
        &&& h.edges.contains_key(#[trigger] h.ports[q].edges[i])
        &&& h.edges[h.ports[q].edges[i]].ends.0 == q || h.edges[h.ports[q].edges[i]].ends.1 == q
    } by {
        let x = h.ports[q].edges[i];
        assert(g.ports.contains_key(q));
        assert(h.ports[q].edges == g.ports[q].edges.filter(f));
        assert(g.ports[q].edges.filter(f).contains(x));
        lemma_filter_contains_iff(g.ports[q].edges, f, x);
        let j = choose|j: int| 0 <= j < g.ports[q].edges.len() && g.ports[q].edges[j] == x;
        assert(g.edges.contains_key(g.ports[q].edges[j]));
    }
    assert forall|x: EdgeId| #[trigger] h.edges.contains_key(x) implies {
        let (pa, pb) = h.edges[x].ends;
        &&& pa != pb
        &&& h.ports.contains_key(pa)
        &&& h.ports.contains_key(pb)
        &&& h.ports[pa].edges.contains(x)
        &&& h.ports[pb].edges.contains(x)
    } by {
        let (pa, pb) = g.edges[x].ends;
        lemma_filter_contains_iff(g.ports[pa].edges, f, x);
        lemma_filter_contains_iff(g.ports[pb].edges, f, x);
    }
}

/// Removing a set of ports, and every edge that touches one of them, keeps a
/// graph consistent.
pub proof fn lemma_without_ports_consistent<N, P, E>(g: GraphView<N, P, E>, s: Set<PortId>)
    requires
        g.is_consistent(),
    ensures
        g.without_ports(s).is_consistent(),
{
    let h = g.without_ports(s);
    let fp = |p: PortId| !s.contains(p);
    let fe = |e: EdgeId| !g.touches(e, s);
    assert(h.nodes.dom() =~= g.nodes.dom());
    assert(h.ports.dom() =~= g.ports.dom().difference(s));
    assert(h.edges.dom() =~= g.edges.dom().filter(fe));
    assert forall|n: NodeId| #[trigger] h.nodes.contains_key(n) implies h.nodes[n].ports.no_duplicates() by {
        lemma_filter_no_duplicates(g.nodes[n].ports, fp);
    }
    assert forall|n: NodeId, i: int| h.nodes.contains_key(n) && 0 <= i < h.nodes[n].ports.len() implies {
        &&& h.ports.contains_key(#[trigger] h.nodes[n].ports[i])
        &&& h.ports[h.nodes[n].ports[i]].node == n
    } by {
        let p = h.nodes[n].ports[i];
        assert(g.nodes[n].ports.filter(fp).contains(p));
        lemma_filter_contains_iff(g.nodes[n].ports, fp, p);
        let j = choose|j: int| 0 <= j < g.nodes[n].ports.len() && g.nodes[n].ports[j] == p;
        assert(g.ports.contains_key(g.nodes[n].ports[j]));
    }
    assert forall|p: PortId| #[trigger] h.ports.contains_key(p) implies {
        &&& h.ports[p].edges.no_duplicates()
        &&& h.nodes.contains_key(h.ports[p].node)
        &&& h.nodes[h.ports[p].node].ports.contains(p)
    } by {
        lemma_filter_no_duplicates(g.ports[p].edges, fe);
        lemma_filter_contains_iff(g.nodes[g.ports[p].node].ports, fp, p);
    }
    assert forall|p: PortId, i: int| h.ports.contains_key(p) && 0 <= i < h.ports[p].edges.len() implies {
        &&& h.edges.contains_key(#[trigger] h.ports[p].edges[i])
        &&& h.edges[h.ports[p].edges[i]].ends.0 == p || h.edges[h.ports[p].edges[i]].ends.1 == p
    } by {
        let x = h.ports[p].edges[i];
        assert(g.ports[p].edges.filter(fe).contains(x));
        lemma_filter_contains_iff(g.ports[p].edges, fe, x);
        let j = choose|j: int| 0 <= j < g.ports[p].edges.len() && g.ports[p].edges[j] == x;
        assert(g.edges.contains_key(g.ports[p].edges[j]));
    }
    assert forall|x: EdgeId| #[trigger] h.edges.contains_key(x) implies {
        let (pa, pb) = h.edges[x].ends;
        &&& pa != pb
        &&& h.ports.contains_key(pa)
        &&& h.ports.contains_key(pb)
        &&& h.ports[pa].edges.contains(x)
        &&& h.ports[pb].edges.contains(x)
    } by {
        let (pa, pb) = g.edges[x].ends;
        lemma_filter_contains_iff(g.ports[pa].edges, fe, x);
        lemma_filter_contains_iff(g.ports[pb].edges, fe, x);
    }
}

/// Removing a node together with its ports keeps a graph consistent.
pub proof fn lemma_remove_node_consistent<N, P, E>(g: GraphView<N, P, E>, n: NodeId)
    requires
        g.is_consistent(),
        g.nodes.contains_key(n),
    ensures
        g.remove_node(n).is_consistent(),
{
    let s = g.nodes[n].ports.to_set();
    let w = g.without_ports(s);
    lemma_without_ports_consistent(g, s);
    let h = g.remove_node(n);
    assert forall|p: PortId| #[trigger] h.ports.contains_key(p) implies {
        &&& h.nodes.contains_key(h.ports[p].node)
        &&& h.nodes[h.ports[p].node].ports.contains(p)
    } by {
        assert(w.nodes[w.ports[p].node].ports.contains(p));
        if w.ports[p].node == n {
            assert(g.nodes[n].ports.contains(p));
            assert(s.contains(p));
        }
    }
}

/// Removing the ports of `a` and then those of `b` removes those of both.
pub proof fn lemma_without_ports_twice<N, P, E>(
    g: GraphView<N, P, E>,
    a: Set<PortId>,
    b: Set<PortId>,
)
    requires
        g.is_consistent(),
    ensures
        g.without_ports(a).without_ports(b) == g.without_ports(a.union(b)),
{
    let w = g.without_ports(a);
    let l = w.without_ports(b);
    let r = g.without_ports(a.union(b));
    let ab = a.union(b);
    assert forall|n: NodeId| #[trigger] l.nodes.contains_key(n) implies l.nodes[n] == r.nodes[n] by {
        let s = g.nodes[n].ports;
        lemma_filter_filter(s, |p: PortId| !a.contains(p), |p: PortId| !b.contains(p));
        lemma_filter_ext(
            s,
            |p: PortId| (|p: PortId| !a.contains(p))(p) && (|p: PortId| !b.contains(p))(p),
            |p: PortId| !ab.contains(p),
        );
    }
    assert(l.nodes =~= r.nodes);
    assert forall|p: PortId| #[trigger] l.ports.contains_key(p) implies l.ports[p] == r.ports[p] by {
        let s = g.ports[p].edges;
        let fa = |e: EdgeId| !g.touches(e, a);
        let fb = |e: EdgeId| !w.touches(e, b);
        lemma_filter_filter(s, fa, fb);
        assert forall|i: int| 0 <= i < s.len() implies (|e: EdgeId| fa(e) && fb(e))(#[trigger] s[i])
            == (|e: EdgeId| !g.touches(e, ab))(s[i]) by {
            assert(g.edges.contains_key(s[i]));
            if fa(s[i]) {
                assert(w.edges.contains_key(s[i]));
            }
        }
        lemma_filter_ext(s, |e: EdgeId| fa(e) && fb(e), |e: EdgeId| !g.touches(e, ab));
    }
    assert(l.ports =~= r.ports);
    assert(l.edges =~= r.edges);
}

/// The neighbors of a node are, exactly, the nodes owning the far end of an
/// edge at one of its ports.
pub proof fn lemma_neighbors_contains<N, P, E>(g: GraphView<N, P, E>, n: NodeId, m: NodeId)
    requires
        g.is_consistent(),
        g.nodes.contains_key(n),
    ensures
        g.neighbors(n).contains(m) <==> exists|i: int, j: int|
            0 <= i < g.nodes[n].ports.len() && 0 <= j < g.ports[g.nodes[n].ports[i]].edges.len() && m
                == g.ports[g.opposite(
                #[trigger] g.ports[g.nodes[n].ports[i]].edges[j],
                g.nodes[n].ports[i],
            )->0].node,
{
    let lists = g.node_neighbor_lists(n);
    lemma_flatten_contains(lists, m);
    if g.neighbors(n).contains(m) {
        let i = choose|i: int| 0 <= i < lists.len() && (#[trigger] lists[i]).contains(m);
        let p = g.nodes[n].ports[i];
        let j = choose|j: int| 0 <= j < lists[i].len() && lists[i][j] == m;
        assert(lists[i] == g.port_neighbors(p));
        assert(m == g.ports[g.opposite(g.ports[p].edges[j], p)->0].node);
    }
    if exists|i: int, j: int|
        0 <= i < g.nodes[n].ports.len() && 0 <= j < g.ports[g.nodes[n].ports[i]].edges.len() && m
            == g.ports[g.opposite(
            #[trigger] g.ports[g.nodes[n].ports[i]].edges[j],
            g.nodes[n].ports[i],
        )->0].node {
        let (i, j) = choose|i: int, j: int|
            0 <= i < g.nodes[n].ports.len() && 0 <= j < g.ports[g.nodes[n].ports[i]].edges.len() && m
                == g.ports[g.opposite(
                #[trigger] g.ports[g.nodes[n].ports[i]].edges[j],
                g.nodes[n].ports[i],
            )->0].node;
        let p = g.nodes[n].ports[i];
        assert(lists[i] == g.port_neighbors(p));
        assert(lists[i][j] == m);
    }
}

/// A neighbor of a node is a live node.
pub proof fn lemma_neighbor_live<N, P, E>(g: GraphView<N, P, E>, n: NodeId, m: NodeId)
    requires
        g.is_consistent(),
        g.neighbors(n).contains(m),
    ensures
        g.nodes.contains_key(n),
        g.nodes.contains_key(m),
{
    if !g.nodes.contains_key(n) {
        assert(g.neighbors(n) =~= Seq::<NodeId>::empty());
    }
    lemma_neighbors_contains(g, n, m);
    let (i, j) = choose|i: int, j: int|
        0 <= i < g.nodes[n].ports.len() && 0 <= j < g.ports[g.nodes[n].ports[i]].edges.len() && m
            == g.ports[g.opposite(
            #[trigger] g.ports[g.nodes[n].ports[i]].edges[j],
            g.nodes[n].ports[i],
        )->0].node;
    let p = g.nodes[n].ports[i];
    assert(g.ports.contains_key(p));
    let e = g.ports[p].edges[j];
    assert(g.edges.contains_key(e));
    let (a, b) = g.edges[e].ends;
    assert(g.ports.contains_key(a) && g.ports.contains_key(b));
}

/// Being neighbors is symmetric.
pub proof fn lemma_neighbors_symmetric<N, P, E>(g: GraphView<N, P, E>, n: NodeId, m: NodeId)
    requires
        g.is_consistent(),
        g.neighbors(n).contains(m),
    ensures
        g.neighbors(m).contains(n),
{
    lemma_neighbor_live(g, n, m);
    lemma_neighbors_contains(g, n, m);
    let (i, j) = choose|i: int, j: int|
        0 <= i < g.nodes[n].ports.len() && 0 <= j < g.ports[g.nodes[n].ports[i]].edges.len() && m
            == g.ports[g.opposite(
            #[trigger] g.ports[g.nodes[n].ports[i]].edges[j],
            g.nodes[n].ports[i],
        )->0].node;
    let p = g.nodes[n].ports[i];
    assert(g.ports.contains_key(p));
    let e = g.ports[p].edges[j];
    assert(g.edges.contains_key(e));
    let q = g.opposite(e, p)->0;
    assert(g.ports.contains_key(q));
    assert(g.ports[q].node == m);
    assert(g.nodes[m].ports.contains(q));
    let i2 = choose|i2: int| 0 <= i2 < g.nodes[m].ports.len() && g.nodes[m].ports[i2] == q;
    assert(g.ports[q].edges.contains(e));
    let j2 = choose|j2: int| 0 <= j2 < g.ports[q].edges.len() && g.ports[q].edges[j2] == e;
    assert(g.opposite(e, q) == Some(p));
    assert(g.ports[g.opposite(g.ports[g.nodes[m].ports[i2]].edges[j2], g.nodes[m].ports[i2])->0].node == n);
    lemma_neighbors_contains(g, m, n);
}

/// Reachability is symmetric.
pub proof fn lemma_reachable_symmetric<N, P, E>(g: GraphView<N, P, E>, a: NodeId, b: NodeId)
    requires
        g.is_consistent(),
        g.reachable(a, b),
    ensures
        g.reachable(b, a),
{
    assert forall|u: NodeId, v: NodeId| #[trigger] g.node_step()(u, v) implies g.node_step()(v, u) by {
        lemma_neighbors_symmetric(g, u, v);
    }
    lemma_joined_symmetric(g.node_step(), a, b);
}

/// Nodes reachable from one another have the same component.
pub proof fn lemma_same_component<N, P, E>(g: GraphView<N, P, E>, a: NodeId, b: NodeId)
    requires
        g.is_consistent(),
        g.reachable(a, b),
    ensures
        g.component(a) == g.component(b),
{
    lemma_reachable_symmetric(g, a, b);
    assert forall|x: NodeId| g.component(a).contains(x) <==> g.component(b).contains(x) by {
        if g.reachable(a, x) {
            lemma_joined_trans(g.node_step(), b, a, x);
        }
        if g.reachable(b, x) {
            lemma_joined_trans(g.node_step(), a, b, x);
        }
    }
    assert(g.component(a) =~= g.component(b));
}

} // verus!
