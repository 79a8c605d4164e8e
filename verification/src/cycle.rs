//! Links and cycles: the steps of a walk through the component graph, each
//! from a port across an edge to a port, and the open and closed cycles
//! that such steps build up.

use crate::graph::Graph;
use crate::id::{EdgeId, NodeId, PortId};
use crate::model::GraphView;
use vstd::prelude::*;

verus! {

broadcast use crate::id::group_id_lemmas;

/// Why a link, a step or a cycle was refused.
#[derive(Debug)]
pub enum LinkError {
    NonAdjacentNodes,
    BadLink,
    EmptyCycle,
    OpenCycle,
    JumperEdge,
    CycleNodeNotInGraph,
}

/// An ordered link between two adjacencies: from `source`, across `edge`,
/// to `dest`.
pub struct Link {
    pub source: PortId,
    pub edge: EdgeId,
    pub dest: PortId,
}

/// What adding an edge at the open end of a cycle would do.
pub enum Step {
    /// The edge leads to a node that the cycle has not visited.
    Extends(Link),
    /// The edge leads back to the node where the cycle starts.
    Closes(Link),
    /// The edge leads to a node inside the cycle, `at`.
    RevisitsInterior { link: Link, at: NodeId },
}

/// A cycle still being walked: links in order, each leaving the node that
/// the one before it reached.
pub struct OpenCycle(pub Vec<Link>);

/// A cycle found to be closed: its last link reaches the node where its
/// first link starts.
pub struct ClosedCycle(Vec<Link>);

/// The edges incident to a port; none for a port that is not live.
pub open spec fn port_edge_list<N, P, E>(g: GraphView<N, P, E>, p: PortId) -> Seq<EdgeId> {
    if g.ports.contains_key(p) {
        g.ports[p].edges
    } else {
        Seq::empty()
    }
}

/// The outcome of checking a link from `source` across `edge` to `dest`.
pub open spec fn checked_link<N, P, E>(
    g: GraphView<N, P, E>,
    source: PortId,
    edge: EdgeId,
    dest: PortId,
) -> Result<Link, LinkError> {
    if !port_edge_list(g, source).contains(edge) || !port_edge_list(g, dest).contains(edge) {
        Err(LinkError::BadLink)
    } else if g.port_node(dest) == g.port_node(source) {
        Err(LinkError::JumperEdge)
    } else {
        Ok(Link { source, edge, dest })
    }
}

/// Why `link` cannot follow `links`, if it cannot: it must leave the node
/// that the last link reaches.
pub open spec fn extension_refusal<N, P, E>(
    g: GraphView<N, P, E>,
    links: Seq<Link>,
    link: Link,
) -> Option<LinkError> {
    if links.len() == 0 {
        None
    } else if !g.ports.contains_key(link.source) {
        Some(LinkError::BadLink)
    } else if g.ports[link.source].node != g.ports[links.last().dest].node {
        Some(LinkError::NonAdjacentNodes)
    } else {
        None
    }
}

/// The inputs on which classifying `edge` against `links` looks up only
/// live ports: once the edge and its ends are known live and the cycle is
/// not empty, the cycle's open end is live, and so is its start whenever
/// the edge leaves the open end.
pub open spec fn classify_defined<N, P, E>(g: GraphView<N, P, E>, links: Seq<Link>, edge: EdgeId) -> bool {
    let a = g.edges[edge].ends.0;
    let b = g.edges[edge].ends.1;
    g.edges.contains_key(edge) && g.ports.contains_key(a) && g.ports.contains_key(b) && links.len() > 0
        ==> {
        &&& g.ports.contains_key(links.last().dest)
        &&& (g.ports[a].node == g.ports[links.last().dest].node) != (g.ports[b].node
            == g.ports[links.last().dest].node) ==> g.ports.contains_key(links[0].source)
    }
}

/// Some link of `links` reaches a port that is not live.
pub open spec fn has_dead_dest<N, P, E>(g: GraphView<N, P, E>, links: Seq<Link>) -> bool {
    exists|i: int| 0 <= i < links.len() && !g.ports.contains_key(#[trigger] links[i].dest)
}

/// Some link of `links` reaches node `n`.
pub open spec fn reaches_node<N, P, E>(g: GraphView<N, P, E>, links: Seq<Link>, n: NodeId) -> bool {
    exists|i: int| 0 <= i < links.len() && g.ports[#[trigger] links[i].dest].node == n
}

/// The outcome of classifying `edge` at the open end of the cycle `links`.
pub open spec fn classified<N, P, E>(g: GraphView<N, P, E>, links: Seq<Link>, edge: EdgeId) -> Result<
    Step,
    LinkError,
> {
    let a = g.edges[edge].ends.0;
    let b = g.edges[edge].ends.1;
    if !g.edges.contains_key(edge) || !g.ports.contains_key(a) || !g.ports.contains_key(b) {
        Err(LinkError::BadLink)
    } else if links.len() == 0 {
        Err(LinkError::EmptyCycle)
    } else {
        let last = g.ports[links.last().dest].node;
        let na = g.ports[a].node;
        let nb = g.ports[b].node;
        if na == last && nb == last {
            Err(LinkError::JumperEdge)
        } else if na != last && nb != last {
            Err(LinkError::NonAdjacentNodes)
        } else {
            let link = if na == last {
                Link { source: a, edge, dest: b }
            } else {
                Link { source: b, edge, dest: a }
            };
            let to = if na == last {
                nb
            } else {
                na
            };
            if to == g.ports[links[0].source].node {
                Ok(Step::Closes(link))
            } else if has_dead_dest(g, links) {
                Err(LinkError::CycleNodeNotInGraph)
            } else if reaches_node(g, links, to) {
                Ok(Step::RevisitsInterior { link, at: to })
            } else {
                Ok(Step::Extends(link))
            }
        }
    }
}

/// The nodes that the links of a cycle reach, in order.
pub open spec fn dest_nodes<N, P, E>(g: GraphView<N, P, E>, links: Seq<Link>) -> Seq<NodeId> {
    Seq::new(links.len(), |i: int| g.ports[links[i].dest].node)
}

/// Whether `v` holds `e`.
fn holds_edge(v: &Vec<EdgeId>, e: EdgeId) -> (b: bool)
    ensures
        b == v@.contains(e),
{
    let mut i: usize = 0;
    while i < v.len()
        invariant
            i <= v@.len(),
            forall|k: int| 0 <= k < i ==> v@[k] != e,
        decreases v@.len() - i,
    {
        if v[i] == e {
            return true;
        }
        i = i + 1;
    }
    false
}

impl Link {
    /// The link from `source` across `edge` to `dest`, unchecked.
    pub fn new(source: PortId, edge: EdgeId, dest: PortId) -> (l: Link)
        ensures
            l == (Link { source, edge, dest }),
    {
        Link { source, edge, dest }
    }

    /// The link from `source` across `edge` to `dest`, once both ports are
    /// found incident to the edge and on different nodes.
    pub fn new_checked<N, P, E>(graph: &Graph<N, P, E>, source: PortId, edge: EdgeId, dest: PortId) -> (r:
        Result<Link, LinkError>)
        requires
            graph.wf(),
        ensures
            r == checked_link(graph@, source, edge, dest),
            r matches Ok(l) ==> {
                &&& l == (Link { source, edge, dest })
                &&& graph@.edges.contains_key(edge)
                &&& (graph@.edges[edge].ends == (source, dest) || graph@.edges[edge].ends == (dest, source))
                &&& graph@.ports[source].node != graph@.ports[dest].node
            },
    {
        proof {
            crate::laws::law_checked_link_joins_its_ports(graph@, source, edge, dest);
        }
        let se = graph.port_edges(source);
        let de = graph.port_edges(dest);
        if !holds_edge(&se, edge) || !holds_edge(&de, edge) {
            Err(LinkError::BadLink)
        } else if graph.port_node(dest) == graph.port_node(source) {
            Err(LinkError::JumperEdge)
        } else {
            Ok(Link::new(source, edge, dest))
        }
    }

    /// The nodes at the two ends of the link, where they are live.
    pub fn link_nodes<N, P, E>(&self, graph: &Graph<N, P, E>) -> (r: (Option<NodeId>, Option<NodeId>))
        requires
            graph.wf(),
        ensures
            r == (graph@.port_node(self.source), graph@.port_node(self.dest)),
    {
        (graph.port_node(self.source), graph.port_node(self.dest))
    }
}

impl View for ClosedCycle {
    type V = Seq<Link>;

    closed spec fn view(&self) -> Seq<Link> {
        self.0@
    }
}

impl OpenCycle {
    /// The cycle with no link.
    pub fn new() -> (c: OpenCycle)
        ensures
            c.0@ == Seq::<Link>::empty(),
    {
        OpenCycle(Vec::new())
    }

    /// The links, in order.
    pub fn links(&self) -> (r: &[Link])
        ensures
            r@ == self.0@,
    {
        self.0.as_slice()
    }

    /// Whether the cycle has no link.
    pub fn is_empty(&self) -> (b: bool)
        ensures
            b == (self.0@.len() == 0),
    {
        self.0.len() == 0
    }

    /// The port that the last link reaches: the open end of the cycle.
    pub fn last_port(&self) -> (r: Option<&PortId>)
        ensures
            r == (if self.0@.len() == 0 {
                None
            } else {
                Some(&self.0@.last().dest)
            }),
    {
        if self.is_empty() {
            None
        } else {
            Some(&self.0[self.0.len() - 1].dest)
        }
    }

    /// Appends `link` where it leaves the node that the cycle's open end
    /// reaches; an empty cycle takes any link as its first. A refused link
    /// leaves the cycle unchanged.
    pub fn try_extend<N, P, E>(&mut self, graph: &Graph<N, P, E>, link: Link) -> (r: Result<(), LinkError>)
        requires
            graph.wf(),
            old(self).0@.len() > 0 ==> graph@.ports.contains_key(old(self).0@.last().dest),
        ensures
            match extension_refusal(graph@, old(self).0@, link) {
                Some(e) => r == Err::<(), LinkError>(e) && final(self).0@ == old(self).0@,
                None => r == Ok::<(), LinkError>(()) && final(self).0@ == old(self).0@.push(link),
            },
    {
        if !self.is_empty() {
            let last_cycle_port = *self.last_port().unwrap();
            let last_cycle_node = graph.port_node(last_cycle_port).unwrap();
            let source_link_node = match graph.port_node(link.source) {
                Some(n) => n,
                None => {
                    return Err(LinkError::BadLink);
                },
            };
            if source_link_node != last_cycle_node {
                return Err(LinkError::NonAdjacentNodes);
            }
        }
        self.0.push(link);
        Ok(())
    }

    /// Closes the cycle where its last link reaches the node where its first
    /// link starts. Only the two ends are compared, not each link.
    pub fn try_into_closed<N, P, E>(self, graph: &Graph<N, P, E>) -> (r: Result<ClosedCycle, LinkError>)
        requires
            graph.wf(),
        ensures
            self.0@.len() == 0 ==> r matches Err(LinkError::EmptyCycle),
            self.0@.len() > 0 && graph@.port_node(self.0@[0].source) != graph@.port_node(self.0@.last().dest)
                ==> r matches Err(LinkError::OpenCycle),
            self.0@.len() > 0 && graph@.port_node(self.0@[0].source) == graph@.port_node(self.0@.last().dest)
                ==> (r matches Ok(c) && c@ == self.0@),
    {
        let last_port = match self.last_port() {
            Some(p) => *p,
            None => {
                return Err(LinkError::EmptyCycle);
            },
        };
        let last_node = graph.port_node(last_port);
        let first_node = graph.port_node(self.links()[0].source);
        if first_node != last_node {
            return Err(LinkError::OpenCycle);
        }
        Ok(ClosedCycle(self.0))
    }

    /// Classifies `edge` as the next step at the cycle's open end: it
    /// extends the cycle, closes it, or revisits a node inside it.
    pub fn classify<N, P, E>(&self, graph: &Graph<N, P, E>, edge: EdgeId) -> (r: Result<Step, LinkError>)
        requires
            graph.wf(),
            classify_defined(graph@, self.0@, edge),
        ensures
            r == classified(graph@, self.0@, edge),
            r matches Ok(Step::Extends(l)) ==> forall|k: int|
                0 <= k < self.0@.len() ==> graph@.ports[#[trigger] self.0@[k].dest].node != graph@.ports[l.dest].node,
            r matches Ok(Step::RevisitsInterior { link, at }) ==> at == graph@.ports[link.dest].node && exists|k: int|
                0 <= k < self.0@.len() && graph@.ports[#[trigger] self.0@[k].dest].node == at,
    {
        proof {
            crate::laws::law_classify_checks_every_link(graph@, self.0@, edge);
        }
        let ghost g = graph@;
        let (link_port_a, link_port_b) = match graph.edge_endpoints(edge) {
            Some(ends) => ends,
            None => {
                return Err(LinkError::BadLink);
            },
        };
        let link_node_a = match graph.port_node(link_port_a) {
            Some(n) => n,
            None => {
                return Err(LinkError::BadLink);
            },
        };
        let link_node_b = match graph.port_node(link_port_b) {
            Some(n) => n,
            None => {
                return Err(LinkError::BadLink);
            },
        };
        let last_cycle_port = match self.last_port() {
            Some(p) => *p,
            None => {
                return Err(LinkError::EmptyCycle);
            },
        };
        let last_cycle_node = graph.port_node(last_cycle_port).unwrap();
        let at_a = link_node_a == last_cycle_node;
        let at_b = link_node_b == last_cycle_node;
        if at_a && at_b {
            return Err(LinkError::JumperEdge);
        }
        if !at_a && !at_b {
            return Err(LinkError::NonAdjacentNodes);
        }
        let (link, dest_link_node) = if at_a {
            (Link::new(link_port_a, edge, link_port_b), link_node_b)
        } else {
            (Link::new(link_port_b, edge, link_port_a), link_node_a)
        };
        let first_node = graph.port_node(self.links()[0].source).unwrap();
        if dest_link_node == first_node {
            return Ok(Step::Closes(link));
        }
        let mut hit = false;
        let mut i: usize = 0;
        while i < self.0.len()
            invariant
                graph.wf(),
                g == graph@,
                i <= self.0@.len(),
                forall|k: int| 0 <= k < i ==> g.ports.contains_key(#[trigger] self.0@[k].dest),
                hit == exists|k: int| 0 <= k < i && g.ports[#[trigger] self.0@[k].dest].node == dest_link_node,
                has_dead_dest(g, self.0@) ==> classified(g, self.0@, edge) == Err::<Step, LinkError>(
                    LinkError::CycleNodeNotInGraph,
                ),
                !has_dead_dest(g, self.0@) ==> classified(g, self.0@, edge) == (if reaches_node(
                    g,
                    self.0@,
                    dest_link_node,
                ) {
                    Ok::<Step, LinkError>(Step::RevisitsInterior { link, at: dest_link_node })
                } else {
                    Ok::<Step, LinkError>(Step::Extends(link))
                }),
            decreases self.0@.len() - i,
        {
            match graph.port_node(self.0[i].dest) {
                Some(n) => {
                    if n == dest_link_node {
                        hit = true;
                    }
                },
                None => {
                    proof {
                        assert(!g.ports.contains_key(self.0@[i as int].dest));
                        assert(has_dead_dest(g, self.0@));
                    }
                    return Err(LinkError::CycleNodeNotInGraph);
                },
            }
            i = i + 1;
        }
        proof {
            assert(!has_dead_dest(g, self.0@));
            assert(hit == reaches_node(g, self.0@, dest_link_node));
        }
        if hit {
            Ok(Step::RevisitsInterior { link, at: dest_link_node })
        } else {
            Ok(Step::Extends(link))
        }
    }
}

impl ClosedCycle {
    /// The nodes that the cycle's links reach, in order; refused where one
    /// of them reaches a port that is not live.
    pub fn as_node_list<N, P, E>(&self, graph: &Graph<N, P, E>) -> (r: Result<Vec<NodeId>, LinkError>)
        requires
            graph.wf(),
        ensures
            has_dead_dest(graph@, self@) ==> r matches Err(LinkError::CycleNodeNotInGraph),
            !has_dead_dest(graph@, self@) ==> (r matches Ok(v) && v@ == dest_nodes(graph@, self@)),
            r matches Ok(v) ==> v@.len() == self@.len() && forall|i: int|
                0 <= i < self@.len() ==> #[trigger] v@[i] == graph@.ports[self@[i].dest].node,
    {
        proof {
            crate::laws::law_node_list_one_per_link(graph@, self@);
        }
        let ghost g = graph@;
        let mut out: Vec<NodeId> = Vec::new();
        let mut i: usize = 0;
        while i < self.0.len()
            invariant
                graph.wf(),
                g == graph@,
                i <= self.0@.len(),
                out@.len() == i,
                forall|k: int| 0 <= k < i ==> g.ports.contains_key(#[trigger] self.0@[k].dest),
                forall|k: int| 0 <= k < i ==> out@[k] == g.ports[self.0@[k].dest].node,
            decreases self.0@.len() - i,
        {
            match graph.port_node(self.0[i].dest) {
                Some(n) => {
                    out.push(n);
                },
                None => {
                    proof {
                        assert(!g.ports.contains_key(self.0@[i as int].dest));
                        assert(has_dead_dest(g, self@));
                    }
                    return Err(LinkError::CycleNodeNotInGraph);
                },
            }
            i = i + 1;
        }
        proof {
            assert(out@ =~= dest_nodes(g, self@));
        }
        Ok(out)
    }
}

} // verus!
